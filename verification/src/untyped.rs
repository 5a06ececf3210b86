//! The untyped lambda calculus with de Bruijn indices: term representation,
//! index shifting, capture-avoiding substitution, a call-by-value small-step
//! evaluator, and a printer that recovers display names from a context.

use vstd::prelude::*;

verus! {

/// A lambda term.
///
/// `Var(index, context_length)` is a variable: `index` counts binders from
/// the nearest enclosing abstraction outward (0 is the innermost), and
/// `context_length` records the total number of binders that were in scope
/// when the node was built.  The length is a consistency check used by
/// `show`; evaluation relies on the index alone.
///
/// `Abs(name, body)` is an abstraction; `name` is a display label with no
/// semantic weight.  `App(fun, arg)` is application.
#[derive(Debug, PartialEq, Eq)]
pub enum Term {
    Var(usize, usize),
    Abs(String, Box<Term>),
    App(Box<Term>, Box<Term>),
}

/// Deepest nesting of abstractions in `t`: an upper bound for every cutoff
/// counter a traversal of `t` can reach.
pub open spec fn binder_depth(t: Term) -> nat
    decreases t,
{
    match t {
        Term::Var(_, _) => 0,
        Term::Abs(_, body) => 1 + binder_depth(*body),
        Term::App(t1, t2) => {
            let d1 = binder_depth(*t1);
            let d2 = binder_depth(*t2);
            if d1 >= d2 {
                d1
            } else {
                d2
            }
        },
    }
}

/// The well-formedness invariant of a term under `scope` enclosing binders:
/// every variable's recorded context length equals the number of binders in
/// scope at its node, and its index refers to one of those binders.
pub open spec fn wf_in_scope(t: Term, scope: nat) -> bool
    decreases t,
{
    match t {
        Term::Var(x, n) => n == scope && x < scope,
        Term::Abs(_, body) => wf_in_scope(*body, scope + 1),
        Term::App(t1, t2) => wf_in_scope(*t1, scope) && wf_in_scope(*t2, scope),
    }
}

/// What `shift` by `d` from cutoff `c` returns: every variable whose index is
/// free relative to the cutoff (index at least the binder depth of its node)
/// has its index moved by `d`, and every variable has its recorded context
/// length moved by `d`.
pub open spec fn spec_shift(t: Term, d: int, c: nat) -> Term
    decreases t,
{
    match t {
        Term::Var(x, n) => Term::Var(
            if x >= c {
                (x + d) as usize
            } else {
                x
            },
            ((n + d) as usize),
        ),
        Term::Abs(name, body) => Term::Abs(name, Box::new(spec_shift(*body, d, c + 1))),
        Term::App(t1, t2) => Term::App(
            Box::new(spec_shift(*t1, d, c)),
            Box::new(spec_shift(*t2, d, c)),
        ),
    }
}

/// Every index and context length that `shift` by `d` from cutoff `c` moves
/// lands inside `usize`.
pub open spec fn shift_fits(t: Term, d: int, c: nat) -> bool
    decreases t,
{
    match t {
        Term::Var(x, n) => (x >= c ==> 0 <= x + d <= usize::MAX) && 0 <= n + d <= usize::MAX,
        Term::Abs(_, body) => shift_fits(*body, d, c + 1),
        Term::App(t1, t2) => shift_fits(*t1, d, c) && shift_fits(*t2, d, c),
    }
}

fn add_delta(x: usize, d: isize) -> (r: usize)
    requires
        0 <= x + d <= usize::MAX,
    ensures
        r == x + d,
{
    if d >= 0 {
        x + (d as usize)
    } else {
        let m: usize = ((-(d + 1)) as usize) + 1;
        x - m
    }
}

fn shift_walk(t: &Term, d: isize, c: usize) -> (r: Term)
    requires
        shift_fits(*t, d as int, c as nat),
        c + binder_depth(*t) <= usize::MAX,
    ensures
        r == spec_shift(*t, d as int, c as nat),
    decreases *t,
{
    match t {
        Term::Var(x, n) => {
            let nx: usize = if *x >= c {
                add_delta(*x, d)
            } else {
                *x
            };
            Term::Var(nx, add_delta(*n, d))
        },
        Term::Abs(name, body) => Term::Abs(name.clone(), Box::new(shift_walk(body, d, c + 1))),
        Term::App(t1, t2) => Term::App(
            Box::new(shift_walk(t1, d, c)),
            Box::new(shift_walk(t2, d, c)),
        ),
    }
}

/// What `subst` of `s` for index `j` from cutoff `c` returns: every variable
/// whose index equals `j` plus the binder depth of its node is replaced by
/// `s` shifted up by that depth, so that the indices inside `s` still point
/// where they pointed outside; every other node is rebuilt unchanged.
pub open spec fn spec_subst(t: Term, j: nat, c: nat, s: Term) -> Term
    decreases t,
{
    match t {
        Term::Var(x, n) => if x == j + c {
            spec_shift(s, c as int, 0)
        } else {
            Term::Var(x, n)
        },
        Term::Abs(name, body) => Term::Abs(name, Box::new(spec_subst(*body, j, c + 1, s))),
        Term::App(t1, t2) => Term::App(
            Box::new(spec_subst(*t1, j, c, s)),
            Box::new(spec_subst(*t2, j, c, s)),
        ),
    }
}

/// Wherever `subst` of `s` for index `j` from cutoff `c` places a copy of
/// `s`, the relocating shift lands inside `usize`.
pub open spec fn subst_fits(t: Term, j: nat, c: nat, s: Term) -> bool
    decreases t,
{
    match t {
        Term::Var(x, n) => x == j + c ==> shift_fits(s, c as int, 0),
        Term::Abs(_, body) => subst_fits(*body, j, c + 1, s),
        Term::App(t1, t2) => subst_fits(*t1, j, c, s) && subst_fits(*t2, j, c, s),
    }
}

fn subst_walk(t: &Term, j: usize, c: usize, s: &Term) -> (r: Term)
    requires
        subst_fits(*t, j as nat, c as nat, *s),
        c + binder_depth(*t) <= isize::MAX,
        binder_depth(*s) <= usize::MAX,
    ensures
        r == spec_subst(*t, j as nat, c as nat, *s),
    decreases *t,
{
    match t {
        Term::Var(x, n) => {
            if *x >= c && *x - c == j {
                shift_walk(s, c as isize, 0)
            } else {
                Term::Var(*x, *n)
            }
        },
        Term::Abs(name, body) => Term::Abs(name.clone(), Box::new(subst_walk(body, j, c + 1, s))),
        Term::App(t1, t2) => Term::App(
            Box::new(subst_walk(t1, j, c, s)),
            Box::new(subst_walk(t2, j, c, s)),
        ),
    }
}

/// What `subst_top` returns: the contraction of `(λ.body) s`.  The argument
/// is shifted up by one for the binder about to disappear, substituted for
/// index 0, and the result is shifted back down by one.
pub open spec fn spec_subst_top(body: Term, s: Term) -> Term {
    spec_shift(spec_subst(body, 0, 0, spec_shift(s, 1, 0)), -1, 0)
}

/// Everything the three steps of `subst_top` compute lands inside the
/// machine's integer types.
pub open spec fn subst_top_fits(body: Term, s: Term) -> bool {
    &&& shift_fits(s, 1, 0)
    &&& subst_fits(body, 0, 0, spec_shift(s, 1, 0))
    &&& shift_fits(spec_subst(body, 0, 0, spec_shift(s, 1, 0)), -1, 0)
    &&& binder_depth(body) <= isize::MAX
    &&& binder_depth(s) <= isize::MAX
}

/// The binder depth of a shifted term is the binder depth of the term.
proof fn lemma_shift_binder_depth(t: Term, d: int, c: nat)
    ensures
        binder_depth(spec_shift(t, d, c)) == binder_depth(t),
    decreases t,
{
    match t {
        Term::Var(_, _) => {},
        Term::Abs(_, body) => {
            lemma_shift_binder_depth(*body, d, c + 1);
        },
        Term::App(t1, t2) => {
            lemma_shift_binder_depth(*t1, d, c);
            lemma_shift_binder_depth(*t2, d, c);
        },
    }
}

/// Substitution nests the replacement under at most `binder_depth(t)`
/// binders, so the result is at most that much deeper than the replacement.
proof fn lemma_subst_binder_depth(t: Term, j: nat, c: nat, s: Term)
    ensures
        binder_depth(spec_subst(t, j, c, s)) <= binder_depth(t) + binder_depth(s),
    decreases t,
{
    match t {
        Term::Var(x, _) => {
            if x == j + c {
                lemma_shift_binder_depth(s, c as int, 0);
            }
        },
        Term::Abs(_, body) => {
            lemma_subst_binder_depth(*body, j, c + 1, s);
        },
        Term::App(t1, t2) => {
            lemma_subst_binder_depth(*t1, j, c, s);
            lemma_subst_binder_depth(*t2, j, c, s);
        },
    }
}

impl Term {
    /// Renumber for a context with `d` more (or, for negative `d`, fewer)
    /// enclosing binders: free variables move by `d` and every recorded
    /// context length moves by `d`.
    pub fn shift(&self, d: isize) -> (r: Term)
        requires
            shift_fits(*self, d as int, 0),
            binder_depth(*self) <= usize::MAX,
        ensures
            r == spec_shift(*self, d as int, 0),
    {
        shift_walk(self, d, 0)
    }

    /// Capture-avoiding substitution of `s` for the free variable `j`.
    pub fn subst(&self, j: usize, s: &Term) -> (r: Term)
        requires
            subst_fits(*self, j as nat, 0, *s),
            binder_depth(*self) <= isize::MAX,
            binder_depth(*s) <= usize::MAX,
        ensures
            r == spec_subst(*self, j as nat, 0, *s),
    {
        subst_walk(self, j, 0, s)
    }

    /// The contraction `(λ.self) s`: substitute `s` for the bound variable
    /// of the abstraction whose body is `self`, removing that binder level.
    pub fn subst_top(&self, s: &Term) -> (r: Term)
        requires
            subst_top_fits(*self, *s),
        ensures
            r == spec_subst_top(*self, *s),
    {
        let up = s.shift(1);
        proof {
            lemma_shift_binder_depth(*s, 1, 0);
            lemma_subst_binder_depth(*self, 0, 0, up);
        }
        let substituted = self.subst(0, &up);
        substituted.shift(-1)
    }

    /// Whether the term is a value of the call-by-value semantics: an
    /// abstraction.
    pub fn is_val(&self) -> (r: bool)
        ensures
            r == spec_is_val(*self),
    {
        match self {
            Term::Abs(_, _) => true,
            _ => false,
        }
    }
}

/// A value is an abstraction; anything else is reducible or stuck.
pub open spec fn spec_is_val(t: Term) -> bool {
    t is Abs
}

/// The call-by-value single step relation.  Only an application can reduce:
/// by the beta rule when the head is an abstraction and the argument a
/// value, by reducing the argument when the head is a value, and by reducing
/// the head otherwise.  `None` means no rule applies: the term is a value or
/// stuck.
pub open spec fn step(t: Term) -> Option<Term>
    decreases t,
{
    match t {
        Term::App(t1, t2) => {
            if spec_is_val(*t1) {
                match *t1 {
                    Term::Abs(name, body) => {
                        if spec_is_val(*t2) {
                            Some(spec_subst_top(*body, *t2))
                        } else {
                            match step(*t2) {
                                Some(t2n) => Some(Term::App(t1, Box::new(t2n))),
                                None => None,
                            }
                        }
                    },
                    _ => None,
                }
            } else {
                match step(*t1) {
                    Some(t1n) => Some(Term::App(Box::new(t1n), t2)),
                    None => None,
                }
            }
        },
        _ => None,
    }
}

/// `n` applications of `step`, stopping early once no rule applies.
pub open spec fn multi_step(t: Term, n: nat) -> Term
    decreases n,
{
    if n == 0 {
        t
    } else {
        match step(t) {
            Some(u) => multi_step(u, (n - 1) as nat),
            None => t,
        }
    }
}

/// The largest index or context length recorded anywhere in `t`.
pub open spec fn max_field(t: Term) -> nat
    decreases t,
{
    match t {
        Term::Var(x, n) => if x >= n {
            x as nat
        } else {
            n as nat
        },
        Term::Abs(_, body) => max_field(*body),
        Term::App(t1, t2) => {
            let m1 = max_field(*t1);
            let m2 = max_field(*t2);
            if m1 >= m2 {
                m1
            } else {
                m2
            }
        },
    }
}

/// Every context length recorded in `t` is positive.
pub open spec fn all_n_positive(t: Term) -> bool
    decreases t,
{
    match t {
        Term::Var(_, n) => n >= 1,
        Term::Abs(_, body) => all_n_positive(*body),
        Term::App(t1, t2) => all_n_positive(*t1) && all_n_positive(*t2),
    }
}

/// Every variable sitting under a binder records a positive context length.
/// Call-by-value reduction never reaches under a binder, so this is exactly
/// what the downward shift of a contraction may meet.
pub open spec fn inner_n_positive(t: Term) -> bool
    decreases t,
{
    match t {
        Term::Var(_, _) => true,
        Term::Abs(_, body) => all_n_positive(*body),
        Term::App(t1, t2) => inner_n_positive(*t1) && inner_n_positive(*t2),
    }
}

/// One reduction step of `t` stays inside the machine's integer types: no
/// context length under a binder can drop below zero, and no index or
/// length can be pushed past what `usize` and the traversal counters hold.
pub open spec fn step_safe(t: Term) -> bool {
    inner_n_positive(t) && max_field(t) + binder_depth(t) + 1 <= isize::MAX
}

/// Fields bounded by `b` keep a shift by `d` inside `usize` while `b + d`
/// is.
proof fn lemma_fields_shift_fits(t: Term, b: nat, d: int, c: nat)
    requires
        max_field(t) <= b,
        0 <= d,
        b + d <= usize::MAX,
    ensures
        shift_fits(t, d, c),
    decreases t,
{
    match t {
        Term::Var(_, _) => {},
        Term::Abs(_, body) => {
            lemma_fields_shift_fits(*body, b, d, c + 1);
        },
        Term::App(t1, t2) => {
            lemma_fields_shift_fits(*t1, b, d, c);
            lemma_fields_shift_fits(*t2, b, d, c);
        },
    }
}

/// A shift by a non-negative `d` raises no field above `max_field + d`.
proof fn lemma_shift_max_field(t: Term, d: int, c: nat)
    requires
        0 <= d,
        shift_fits(t, d, c),
    ensures
        max_field(spec_shift(t, d, c)) <= max_field(t) + d,
    decreases t,
{
    match t {
        Term::Var(_, _) => {},
        Term::Abs(_, body) => {
            lemma_shift_max_field(*body, d, c + 1);
        },
        Term::App(t1, t2) => {
            lemma_shift_max_field(*t1, d, c);
            lemma_shift_max_field(*t2, d, c);
        },
    }
}

/// Under `scope` binders, shifting by a non-negative `d` that keeps the
/// largest context length under `usize::MAX` lands inside `usize`.
proof fn lemma_wf_shift_fits(t: Term, scope: nat, d: int, c: nat)
    requires
        wf_in_scope(t, scope),
        0 <= d,
        scope + binder_depth(t) + d <= usize::MAX,
    ensures
        shift_fits(t, d, c),
    decreases t,
{
    match t {
        Term::Var(_, _) => {},
        Term::Abs(_, body) => {
            lemma_wf_shift_fits(*body, scope + 1, d, c + 1);
        },
        Term::App(t1, t2) => {
            lemma_wf_shift_fits(*t1, scope, d, c);
            lemma_wf_shift_fits(*t2, scope, d, c);
        },
    }
}

/// No variable of `t` has index `c` plus the binder depth of its node, and
/// every recorded context length is positive: exactly what makes the final
/// downward shift of a contraction land inside `usize`.
spec fn avoids(t: Term, c: nat) -> bool
    decreases t,
{
    match t {
        Term::Var(x, n) => x != c && n >= 1,
        Term::Abs(_, body) => avoids(*body, c + 1),
        Term::App(t1, t2) => avoids(*t1, c) && avoids(*t2, c),
    }
}

proof fn lemma_avoids_shift_fits(t: Term, c: nat)
    requires
        avoids(t, c),
    ensures
        shift_fits(t, -1, c),
    decreases t,
{
    match t {
        Term::Var(_, _) => {},
        Term::Abs(_, body) => {
            lemma_avoids_shift_fits(*body, c + 1);
        },
        Term::App(t1, t2) => {
            lemma_avoids_shift_fits(*t1, c);
            lemma_avoids_shift_fits(*t2, c);
        },
    }
}

/// Shifting up by one leaves no variable pointing at the cutoff.
proof fn lemma_shift_up_avoids(t: Term, c: nat)
    requires
        shift_fits(t, 1, c),
    ensures
        avoids(spec_shift(t, 1, c), c),
    decreases t,
{
    match t {
        Term::Var(_, _) => {},
        Term::Abs(_, body) => {
            lemma_shift_up_avoids(*body, c + 1);
        },
        Term::App(t1, t2) => {
            lemma_shift_up_avoids(*t1, c);
            lemma_shift_up_avoids(*t2, c);
        },
    }
}

/// Shifting up by `e` moves a term that avoids cutoff `k` to one that avoids
/// cutoff `e + k`.
proof fn lemma_avoids_shift(t: Term, e: nat, k: nat)
    requires
        avoids(t, k),
        shift_fits(t, e as int, k),
    ensures
        avoids(spec_shift(t, e as int, k), e + k),
    decreases t,
{
    match t {
        Term::Var(_, _) => {},
        Term::Abs(_, body) => {
            lemma_avoids_shift(*body, e, k + 1);
        },
        Term::App(t1, t2) => {
            lemma_avoids_shift(*t1, e, k);
            lemma_avoids_shift(*t2, e, k);
        },
    }
}

/// Every copy of the replacement that substitution places fits, provided
/// the replacement's fields plus every cutoff it can be shifted by stay
/// under `usize::MAX`.
proof fn lemma_subst_fits(t: Term, j: nat, c: nat, s: Term, b: nat)
    requires
        max_field(s) <= b,
        b + c + binder_depth(t) <= usize::MAX,
    ensures
        subst_fits(t, j, c, s),
    decreases t,
{
    match t {
        Term::Var(x, _) => {
            if x == j + c {
                lemma_fields_shift_fits(s, b, c as int, 0);
            }
        },
        Term::Abs(_, body) => {
            lemma_subst_fits(*body, j, c + 1, s, b);
        },
        Term::App(t1, t2) => {
            lemma_subst_fits(*t1, j, c, s, b);
            lemma_subst_fits(*t2, j, c, s, b);
        },
    }
}

/// Substituting, for index 0, a replacement that avoids cutoff 0 leaves a
/// term in which no variable points at the removed binder and every context
/// length is still positive.
proof fn lemma_subst_avoids(t: Term, c: nat, s: Term, b: nat)
    requires
        all_n_positive(t),
        avoids(s, 0),
        max_field(s) <= b,
        b + c + binder_depth(t) <= usize::MAX,
    ensures
        avoids(spec_subst(t, 0, c, s), c),
    decreases t,
{
    match t {
        Term::Var(x, _) => {
            if x == c {
                lemma_fields_shift_fits(s, b, c as int, 0);
                lemma_avoids_shift(s, c, 0);
            }
        },
        Term::Abs(_, body) => {
            lemma_subst_avoids(*body, c + 1, s, b);
        },
        Term::App(t1, t2) => {
            lemma_subst_avoids(*t1, c, s, b);
            lemma_subst_avoids(*t2, c, s, b);
        },
    }
}

/// The beta contraction of `(λ.body) v` stays inside the machine's integer
/// types whenever the body's context lengths are positive and every field
/// is small enough for the shifts the contraction performs.
proof fn lemma_beta_fits(body: Term, v: Term)
    requires
        all_n_positive(body),
        max_field(v) + 1 + binder_depth(body) <= usize::MAX,
        binder_depth(body) <= isize::MAX,
        binder_depth(v) <= isize::MAX,
    ensures
        subst_top_fits(body, v),
{
    lemma_fields_shift_fits(v, max_field(v), 1, 0);
    let v1 = spec_shift(v, 1, 0);
    lemma_shift_binder_depth(v, 1, 0);
    lemma_shift_max_field(v, 1, 0);
    lemma_subst_fits(body, 0, 0, v1, (max_field(v) + 1) as nat);
    lemma_shift_up_avoids(v, 0);
    lemma_subst_avoids(body, 0, v1, (max_field(v) + 1) as nat);
    lemma_avoids_shift_fits(spec_subst(body, 0, 0, v1), 0);
}

/// A structural copy, bit for bit the same term.
fn duplicate(t: &Term) -> (r: Term)
    ensures
        r == *t,
    decreases *t,
{
    match t {
        Term::Var(x, n) => Term::Var(*x, *n),
        Term::Abs(name, body) => Term::Abs(name.clone(), Box::new(duplicate(body))),
        Term::App(t1, t2) => Term::App(Box::new(duplicate(t1)), Box::new(duplicate(t2))),
    }
}

impl Term {
    /// One reduction step, or `None` when no rule applies (the term is a
    /// value, a variable, or stuck).
    pub fn eval1(&self) -> (r: Option<Term>)
        requires
            step_safe(*self),
        ensures
            r == step(*self),
        decreases *self,
    {
        match self {
            Term::App(t1, t2) => {
                proof {
                    assert(step_safe(**t1));
                    assert(step_safe(**t2));
                }
                match &**t1 {
                    Term::Abs(_, body) => {
                        if t2.is_val() {
                            proof {
                                lemma_beta_fits(**body, **t2);
                            }
                            Some(body.subst_top(t2))
                        } else {
                            match t2.eval1() {
                                Some(t2n) => Some(
                                    Term::App(Box::new(duplicate(t1)), Box::new(t2n)),
                                ),
                                None => None,
                            }
                        }
                    },
                    _ => {
                        match t1.eval1() {
                            Some(t1n) => Some(Term::App(Box::new(t1n), Box::new(duplicate(t2)))),
                            None => None,
                        }
                    },
                }
            },
            _ => None,
        }
    }
}

fn binder_depth_checked(t: &Term) -> (r: Option<usize>)
    ensures
        match r {
            Some(b) => b == binder_depth(*t),
            None => binder_depth(*t) > usize::MAX,
        },
    decreases *t,
{
    match t {
        Term::Var(_, _) => Some(0),
        Term::Abs(_, body) => match binder_depth_checked(body) {
            Some(b) => b.checked_add(1),
            None => None,
        },
        Term::App(t1, t2) => match (binder_depth_checked(t1), binder_depth_checked(t2)) {
            (Some(b1), Some(b2)) => Some(
                if b1 >= b2 {
                    b1
                } else {
                    b2
                },
            ),
            _ => None,
        },
    }
}

/// The largest index or context length recorded anywhere in the term.
fn max_field_exec(t: &Term) -> (r: usize)
    ensures
        r == max_field(*t),
    decreases *t,
{
    match t {
        Term::Var(x, n) => if *x >= *n {
            *x
        } else {
            *n
        },
        Term::Abs(_, body) => max_field_exec(body),
        Term::App(t1, t2) => {
            let m1 = max_field_exec(t1);
            let m2 = max_field_exec(t2);
            if m1 >= m2 {
                m1
            } else {
                m2
            }
        },
    }
}

fn all_n_positive_exec(t: &Term) -> (r: bool)
    ensures
        r == all_n_positive(*t),
    decreases *t,
{
    match t {
        Term::Var(_, n) => *n >= 1,
        Term::Abs(_, body) => all_n_positive_exec(body),
        Term::App(t1, t2) => all_n_positive_exec(t1) && all_n_positive_exec(t2),
    }
}

fn inner_n_positive_exec(t: &Term) -> (r: bool)
    ensures
        r == inner_n_positive(*t),
    decreases *t,
{
    match t {
        Term::Var(_, _) => true,
        Term::Abs(_, body) => all_n_positive_exec(body),
        Term::App(t1, t2) => inner_n_positive_exec(t1) && inner_n_positive_exec(t2),
    }
}

/// Decide whether one reduction step of `t` stays inside the machine's
/// integer types.
fn step_safe_exec(t: &Term) -> (r: bool)
    ensures
        r == step_safe(*t),
{
    if !inner_n_positive_exec(t) {
        return false;
    }
    let bd = match binder_depth_checked(t) {
        Some(b) => b,
        None => {
            return false;
        },
    };
    let mf = max_field_exec(t);
    match mf.checked_add(bd) {
        Some(total) => total <= (isize::MAX as usize) - 1,
        None => false,
    }
}

impl Term {
    /// Drive the term to a normal form or a stuck state: apply `eval1` until
    /// no rule applies and return the last term reached.  A value or a
    /// stuck application is already its own result.  Two machine bounds
    /// stand in place of the unbounded mathematical loop: a term whose next
    /// step would push an index, a context length or a traversal counter
    /// outside the machine's integers is handed back as it is, and the loop
    /// runs at most `usize::MAX` reduction steps.  No computation that
    /// finishes on this machine can exhaust either bound; a non-terminating
    /// term spins against the second.
    pub fn eval(&self) -> (r: Term)
        ensures
            exists|k: nat|
                k <= usize::MAX && multi_step(*self, k) == r && (step(r) is None || !step_safe(r)
                    || k == usize::MAX),
            step(r) is None ==> evaluates_to(*self, r),
    {
        let mut t = duplicate(self);
        let mut fuel: usize = usize::MAX;
        proof {
            assert(multi_step(*self, 0) == t);
        }
        loop
            invariant
                multi_step(*self, (usize::MAX - fuel) as nat) == t,
            decreases fuel,
        {
            if fuel == 0 {
                return t;
            }
            if !step_safe_exec(&t) {
                return t;
            }
            match t.eval1() {
                Some(next) => {
                    proof {
                        lemma_multi_step_snoc(*self, (usize::MAX - fuel) as nat, t, next);
                    }
                    t = next;
                    fuel = fuel - 1;
                },
                None => {
                    return t;
                },
            }
        }
    }
}

/// A step taken from the term `k` steps reach is the term `k + 1` steps
/// reach.
proof fn lemma_multi_step_snoc(t: Term, k: nat, u: Term, w: Term)
    requires
        multi_step(t, k) == u,
        step(u) == Some(w),
    ensures
        multi_step(t, k + 1) == w,
    decreases k,
{
    if k == 0 {
        assert(multi_step(t, 0) == t);
        assert(multi_step(w, 0) == w);
    } else {
        match step(t) {
            Some(v) => {
                lemma_multi_step_snoc(v, (k - 1) as nat, u, w);
            },
            None => {},
        }
    }
}


/// The marker stored beside each name in a context.
#[derive(Debug, Clone)]
struct NameBind;

/// An ordered sequence of binder names, outermost first, used only to
/// recover display names from de Bruijn indices when printing.  Its view is
/// the sequence of names as character sequences.
#[derive(Debug, Clone)]
pub struct Context(Vec<(String, NameBind)>);

impl View for Context {
    type V = Seq<Seq<char>>;

    closed spec fn view(&self) -> Seq<Seq<char>> {
        self.0@.map(|i: int, p: (String, NameBind)| p.0@)
    }
}

/// Whether one of the names is `s`.
pub open spec fn ctx_contains(names: Seq<Seq<char>>, s: Seq<char>) -> bool {
    exists|i: int| 0 <= i < names.len() && names[i] == s
}

/// `k` prime marks.
pub open spec fn primes(k: nat) -> Seq<char>
    decreases k,
{
    if k == 0 {
        Seq::empty()
    } else {
        primes((k - 1) as nat).push('\'')
    }
}

/// `base` with `k` primes appended is the first variant of `base` that does
/// not collide with any of the names.
pub open spec fn is_first_fresh(names: Seq<Seq<char>>, base: Seq<char>, k: nat) -> bool {
    &&& !ctx_contains(names, base + primes(k))
    &&& forall|j: nat| j < k ==> ctx_contains(names, #[trigger] (base + primes(j)))
}

/// The freshened form of `base` against the names: `base` with just enough
/// primes appended to collide with none of them.
pub open spec fn spec_fresh_name(names: Seq<Seq<char>>, base: Seq<char>) -> Seq<char> {
    base + primes(choose|k: nat| is_first_fresh(names, base, k))
}

/// Only one number of primes is the first to avoid every collision.
proof fn lemma_first_fresh_unique(names: Seq<Seq<char>>, base: Seq<char>, k1: nat, k2: nat)
    requires
        is_first_fresh(names, base, k1),
        is_first_fresh(names, base, k2),
    ensures
        k1 == k2,
{
    if k1 < k2 {
        assert(ctx_contains(names, base + primes(k1)));
    }
    if k2 < k1 {
        assert(ctx_contains(names, base + primes(k2)));
    }
}

/// A name a context holds is no longer than its longest name.
spec fn max_name_len(names: Seq<Seq<char>>) -> nat
    decreases names.len(),
{
    if names.len() == 0 {
        0
    } else {
        let m = max_name_len(names.drop_last());
        if names.last().len() > m {
            names.last().len()
        } else {
            m
        }
    }
}

proof fn lemma_contained_name_len(names: Seq<Seq<char>>, s: Seq<char>)
    requires
        ctx_contains(names, s),
    ensures
        s.len() <= max_name_len(names),
    decreases names.len(),
{
    let i = choose|i: int| 0 <= i < names.len() && names[i] == s;
    if i == names.len() - 1 {
    } else {
        assert(names.drop_last()[i] == s);
        assert(ctx_contains(names.drop_last(), s));
        lemma_contained_name_len(names.drop_last(), s);
    }
}

impl Context {
    /// A context holding the given free-variable names, outermost first.
    pub fn new(names: &[&str]) -> (c: Context)
        ensures
            c@.len() == names@.len(),
            forall|i: int| 0 <= i < names@.len() ==> c@[i] == names@[i]@,
    {
        let mut v: Vec<(String, NameBind)> = Vec::new();
        let mut i: usize = 0;
        while i < names.len()
            invariant
                i <= names@.len(),
                v@.len() == i,
                forall|j: int| 0 <= j < i ==> v@[j].0@ == names@[j]@,
            decreases names@.len() - i,
        {
            let s: String = names[i].to_owned();
            v.push((s, NameBind));
            i = i + 1;
        }
        Context(v)
    }

    fn len(&self) -> (n: usize)
        ensures
            n == self@.len(),
    {
        self.0.len()
    }

    /// The display name a de Bruijn index refers to: indices count from the
    /// innermost binder, so lookup runs against the reverse of the sequence.
    fn index_to_name(&self, x: usize) -> (r: &String)
        requires
            x < self@.len(),
        ensures
            r@ == self@[self@.len() - 1 - x],
    {
        let l: usize = self.len();
        &self.0[l - 1 - x].0
    }

    fn contains_name(&self, target: &String) -> (r: bool)
        ensures
            r == ctx_contains(self@, target@),
    {
        let mut i: usize = 0;
        while i < self.0.len()
            invariant
                i <= self@.len(),
                forall|j: int| 0 <= j < i ==> self@[j] != target@,
            decreases self@.len() - i,
        {
            proof {
                assert(self@[i as int] == self.0@[i as int].0@);
            }
            if self.0[i].0 == *target {
                return true;
            }
            i = i + 1;
        }
        false
    }

    /// Append `name`, freshened with enough primes to collide with no name
    /// already present, and return the extended context with the fresh name.
    fn pick_fresh_name(&self, name: &str) -> (r: (Context, String))
        ensures
            r.1@ == spec_fresh_name(self@, name@),
            !ctx_contains(self@, r.1@),
            r.0@ == self@.push(r.1@),
    {
        let mut fresh: String = name.to_owned();
        let ghost mut k: nat = 0;
        proof {
            assert(fresh@ =~= name@ + primes(0));
        }
        loop
            invariant
                fresh@ == name@ + primes(k),
                forall|j: nat| j < k ==> ctx_contains(self@, #[trigger] (name@ + primes(j))),
            decreases max_name_len(self@) + 1 - fresh@.len(),
        {
            if !self.contains_name(&fresh) {
                proof {
                    assert(is_first_fresh(self@, name@, k));
                    let kc = choose|kk: nat| is_first_fresh(self@, name@, kk);
                    lemma_first_fresh_unique(self@, name@, k, kc);
                }
                let mut names = self.duplicate_names();
                names.push((fresh.clone(), NameBind));
                let out = Context(names);
                proof {
                    assert(out@ =~= self@.push(fresh@));
                }
                return (out, fresh);
            }
            proof {
                lemma_contained_name_len(self@, fresh@);
            }
            fresh.append("'");
            proof {
                reveal_strlit("'");
                assert(fresh@ =~= name@ + primes(k + 1));
                k = k + 1;
            }
        }
    }

    fn duplicate_names(&self) -> (r: Vec<(String, NameBind)>)
        ensures
            r@.len() == self.0@.len(),
            forall|j: int| 0 <= j < r@.len() ==> r@[j].0@ == self.0@[j].0@,
    {
        let mut v: Vec<(String, NameBind)> = Vec::new();
        let mut i: usize = 0;
        while i < self.0.len()
            invariant
                i <= self.0@.len(),
                v@.len() == i,
                forall|j: int| 0 <= j < i ==> v@[j].0@ == self.0@[j].0@,
            decreases self.0@.len() - i,
        {
            v.push((self.0[i].0.clone(), NameBind));
            i = i + 1;
        }
        v
    }
}

/// What `show` returns: a fully parenthesised rendering in which an
/// abstraction binds the freshened form of its display name and a variable
/// shows the name its index reaches in the (reversed) context.
pub open spec fn spec_show(t: Term, names: Seq<Seq<char>>) -> Seq<char>
    decreases t,
{
    match t {
        Term::Var(x, _) => names[names.len() - 1 - x],
        Term::Abs(name, body) => {
            let fresh = spec_fresh_name(names, name@);
            seq!['(', 'λ'] + fresh + seq!['.', ' '] + spec_show(*body, names.push(fresh)) + seq![
                ')',
            ]
        },
        Term::App(t1, t2) => seq!['('] + spec_show(*t1, names) + seq![' '] + spec_show(
            *t2,
            names,
        ) + seq![')'],
    }
}

impl Term {
    /// Render the term against a context of free-variable names.  The
    /// context must agree with the lengths the term's variables record: a
    /// disagreement means the term was built against different binders and
    /// any output would be misleading.
    pub fn show(&self, ctx: &Context) -> (r: String)
        requires
            wf_in_scope(*self, ctx@.len()),
        ensures
            r@ == spec_show(*self, ctx@),
        decreases *self,
    {
        match self {
            Term::Var(x, _) => ctx.index_to_name(*x).clone(),
            Term::Abs(name, body) => {
                let (ctx2, fresh) = ctx.pick_fresh_name(name.as_str());
                let inner = body.show(&ctx2);
                let mut out = String::from_str("(λ");
                out.append(fresh.as_str());
                out.append(". ");
                out.append(inner.as_str());
                out.append(")");
                proof {
                    reveal_strlit("(λ");
                    reveal_strlit(". ");
                    reveal_strlit(")");
                    assert(out@ =~= spec_show(*self, ctx@));
                }
                out
            },
            Term::App(t1, t2) => {
                let s1 = t1.show(ctx);
                let s2 = t2.show(ctx);
                let mut out = String::from_str("(");
                out.append(s1.as_str());
                out.append(" ");
                out.append(s2.as_str());
                out.append(")");
                proof {
                    reveal_strlit("(");
                    reveal_strlit(" ");
                    reveal_strlit(")");
                    assert(out@ =~= spec_show(*self, ctx@));
                }
                out
            },
        }
    }
}


/// Every variable free relative to cutoff `c` stays at or above the cutoff
/// after moving by `d`: no index becomes negative relative to the binders
/// that enclose it.
pub open spec fn shift_stays_free(t: Term, d: int, c: nat) -> bool
    decreases t,
{
    match t {
        Term::Var(x, _) => x >= c ==> x + d >= c,
        Term::Abs(_, body) => shift_stays_free(*body, d, c + 1),
        Term::App(t1, t2) => shift_stays_free(*t1, d, c) && shift_stays_free(*t2, d, c),
    }
}

/// Two shifts compose: shifting by `d1` and then by `d2` is shifting by
/// `d1 + d2`, provided every index stays non-negative relative to its
/// binders along the way and both shifts land inside `usize`.
pub proof fn lemma_shift_shift(t: Term, d1: int, d2: int, c: nat)
    requires
        shift_fits(t, d1, c),
        shift_stays_free(t, d1, c),
        shift_fits(spec_shift(t, d1, c), d2, c),
    ensures
        spec_shift(spec_shift(t, d1, c), d2, c) == spec_shift(t, d1 + d2, c),
    decreases t,
{
    match t {
        Term::Var(_, _) => {},
        Term::Abs(_, body) => {
            lemma_shift_shift(*body, d1, d2, c + 1);
        },
        Term::App(t1, t2) => {
            lemma_shift_shift(*t1, d1, d2, c);
            lemma_shift_shift(*t2, d1, d2, c);
        },
    }
}

/// A term to which no rule applies steps to itself, whatever the number of
/// steps taken.
pub proof fn lemma_multi_step_stops(t: Term, k: nat)
    requires
        step(t) is None,
    ensures
        multi_step(t, k) == t,
    decreases k,
{
    if k == 0 {
    } else {
        assert(multi_step(t, k) == t);
    }
}

/// `r` is an outcome of evaluating `t`: reachable from `t` by finitely many
/// reduction steps, with no further rule applying to it.
pub open spec fn evaluates_to(t: Term, r: Term) -> bool {
    (exists|k: nat| multi_step(t, k) == r) && step(r) is None
}

/// Evaluation is idempotent on its own output: an outcome of evaluating an
/// outcome of `t` is that outcome itself, so evaluating twice equals
/// evaluating once.
pub proof fn lemma_eval_idempotent(t: Term, r: Term, s: Term)
    requires
        evaluates_to(t, r),
        evaluates_to(r, s),
    ensures
        s == r,
{
    let k = choose|k: nat| multi_step(r, k) == s;
    lemma_multi_step_stops(r, k);
}

/// At any node of `t` lying under `m` binders of `t` itself (plus the `m`
/// given here at the root), every index points at one of those binders: the
/// term has no free variables relative to `m`.
spec fn scoped_below(t: Term, m: nat) -> bool
    decreases t,
{
    match t {
        Term::Var(x, _) => x < m,
        Term::Abs(_, body) => scoped_below(*body, m + 1),
        Term::App(t1, t2) => scoped_below(*t1, m) && scoped_below(*t2, m),
    }
}

proof fn lemma_wf_scoped(t: Term, scope: nat)
    requires
        wf_in_scope(t, scope),
    ensures
        scoped_below(t, scope),
    decreases t,
{
    match t {
        Term::Var(_, _) => {},
        Term::Abs(_, body) => {
            lemma_wf_scoped(*body, scope + 1);
        },
        Term::App(t1, t2) => {
            lemma_wf_scoped(*t1, scope);
            lemma_wf_scoped(*t2, scope);
        },
    }
}

/// On a term without free variables the up-by-one, up-by-`c`, down-by-one
/// shift chain of a contraction collapses to a single up-by-`c` shift: no
/// index moves at all, and the context lengths move by `c` on balance.
proof fn lemma_closed_shift_chain(u: Term, m: nat, c: nat)
    requires
        scoped_below(u, m),
        shift_fits(u, c + 1 as int, m),
    ensures
        spec_shift(spec_shift(spec_shift(u, 1, m), c as int, m), -1, (c + m) as nat)
            == spec_shift(u, c as int, m),
    decreases u,
{
    match u {
        Term::Var(_, _) => {},
        Term::Abs(_, body) => {
            lemma_closed_shift_chain(*body, m + 1, c);
        },
        Term::App(t1, t2) => {
            lemma_closed_shift_chain(*t1, m, c);
            lemma_closed_shift_chain(*t2, m, c);
        },
    }
}

/// Substitution of `v` directly for the variable bound by a disappearing
/// binder: the occurrence at index `c` becomes `v` relocated under `c`
/// binders with its own indices untouched, every other variable keeps its
/// index, and every context length drops by the one binder removed.
pub open spec fn direct_subst_top(t: Term, c: nat, v: Term) -> Term
    decreases t,
{
    match t {
        Term::Var(x, n) => if x == c {
            spec_shift(v, c as int, 0)
        } else {
            Term::Var(x, ((n - 1) as usize))
        },
        Term::Abs(name, body) => Term::Abs(name, Box::new(direct_subst_top(*body, c + 1, v))),
        Term::App(t1, t2) => Term::App(
            Box::new(direct_subst_top(*t1, c, v)),
            Box::new(direct_subst_top(*t2, c, v)),
        ),
    }
}

proof fn lemma_subst_top_walk(b: Term, c: nat, v: Term)
    requires
        wf_in_scope(b, c + 1),
        wf_in_scope(v, 0),
        binder_depth(b) + binder_depth(v) + c + 1 <= usize::MAX,
    ensures
        spec_shift(spec_subst(b, 0, c, spec_shift(v, 1, 0)), -1, c) == direct_subst_top(b, c, v),
    decreases b,
{
    match b {
        Term::Var(x, _) => {
            if x == c {
                lemma_wf_scoped(v, 0);
                lemma_wf_shift_fits(v, 0, c + 1 as int, 0);
                lemma_closed_shift_chain(v, 0, c);
            }
        },
        Term::Abs(_, body) => {
            lemma_subst_top_walk(*body, c + 1, v);
        },
        Term::App(t1, t2) => {
            lemma_subst_top_walk(*t1, c, v);
            lemma_subst_top_walk(*t2, c, v);
        },
    }
}

/// The round trip of `subst_top` on a closed abstraction applied to a
/// closed value: the shift up by one and back down by one cancel on the
/// body's own variable numbering, so one reduction equals substituting `v`
/// directly for the bound variable, with only the context lengths adjusted
/// for the binder that disappears.  The bound on the binder depths only
/// keeps the relocating shifts inside `usize`.
pub proof fn lemma_subst_top_round_trip(body: Term, v: Term)
    requires
        wf_in_scope(body, 1),
        wf_in_scope(v, 0),
        spec_is_val(v),
        binder_depth(body) + binder_depth(v) + 1 <= usize::MAX,
    ensures
        spec_subst_top(body, v) == direct_subst_top(body, 0, v),
{
    lemma_subst_top_walk(body, 0, v);
}

} // verus!
