//! A small-step evaluator for a first-order language of booleans and
//! naturals: conditionals, successor, predecessor and a zero test, with no
//! binders and no index arithmetic.

use vstd::prelude::*;

verus! {

/// A term of the boolean/natural language.
#[derive(Debug, PartialEq, Eq)]
pub enum Term {
    True,
    False,
    If(Box<Term>, Box<Term>, Box<Term>),
    Zero,
    Succ(Box<Term>),
    Pred(Box<Term>),
    IsZero(Box<Term>),
}

/// A numeric value: zero under any number of successors.
pub open spec fn spec_is_numeric(t: Term) -> bool
    decreases t,
{
    match t {
        Term::Zero => true,
        Term::Succ(inner) => spec_is_numeric(*inner),
        _ => false,
    }
}

pub fn is_numric_value(t: &Term) -> (r: bool)
    ensures
        r == spec_is_numeric(*t),
    decreases *t,
{
    match t {
        Term::Zero => true,
        Term::Succ(inner) => is_numric_value(inner),
        _ => false,
    }
}

/// The single step relation: a conditional takes its chosen branch once the
/// guard is a boolean constant, predecessor and the zero test act on numeric
/// values, and every other rule reduces inside the first subterm.  `None`
/// means no rule applies.
pub open spec fn step(t: Term) -> Option<Term>
    decreases t,
{
    match t {
        Term::If(t1, t2, t3) => match *t1 {
            Term::True => Some(*t2),
            Term::False => Some(*t3),
            _ => match step(*t1) {
                Some(u) => Some(Term::If(Box::new(u), t2, t3)),
                None => None,
            },
        },
        Term::Succ(t1) => match step(*t1) {
            Some(u) => Some(Term::Succ(Box::new(u))),
            None => None,
        },
        Term::Pred(t1) => match *t1 {
            Term::Zero => Some(Term::Zero),
            Term::Succ(t2) => if spec_is_numeric(*t2) {
                Some(*t2)
            } else {
                match step(*t1) {
                    Some(u) => Some(Term::Pred(Box::new(u))),
                    None => None,
                }
            },
            _ => match step(*t1) {
                Some(u) => Some(Term::Pred(Box::new(u))),
                None => None,
            },
        },
        Term::IsZero(t1) => match *t1 {
            Term::Zero => Some(Term::True),
            Term::Succ(t2) => if spec_is_numeric(*t2) {
                Some(Term::False)
            } else {
                match step(*t1) {
                    Some(u) => Some(Term::IsZero(Box::new(u))),
                    None => None,
                }
            },
            _ => match step(*t1) {
                Some(u) => Some(Term::IsZero(Box::new(u))),
                None => None,
            },
        },
        _ => None,
    }
}

/// `n` applications of `step`, stopping early once no rule applies.
pub open spec fn multi_step(t: Term, n: nat) -> Term
    decreases n,
{
    if n == 0 {
        t
    } else {
        match step(t) {
            Some(u) => multi_step(u, (n - 1) as nat),
            None => t,
        }
    }
}

/// One reduction step, or `None` when no rule applies.
pub fn eval_1step(t: Term) -> (r: Option<Term>)
    ensures
        r == step(t),
    decreases t,
{
    match t {
        Term::If(t1, t2, t3) => match *t1 {
            Term::True => Some(*t2),
            Term::False => Some(*t3),
            other => match eval_1step(other) {
                Some(u) => Some(Term::If(Box::new(u), t2, t3)),
                None => None,
            },
        },
        Term::Succ(t1) => match eval_1step(*t1) {
            Some(u) => Some(Term::Succ(Box::new(u))),
            None => None,
        },
        Term::Pred(t1) => match *t1 {
            Term::Zero => Some(Term::Zero),
            Term::Succ(t2) => {
                if is_numric_value(&t2) {
                    Some(*t2)
                } else {
                    match eval_1step(Term::Succ(t2)) {
                        Some(u) => Some(Term::Pred(Box::new(u))),
                        None => None,
                    }
                }
            },
            other => match eval_1step(other) {
                Some(u) => Some(Term::Pred(Box::new(u))),
                None => None,
            },
        },
        Term::IsZero(t1) => match *t1 {
            Term::Zero => Some(Term::True),
            Term::Succ(t2) => {
                if is_numric_value(&t2) {
                    Some(Term::False)
                } else {
                    match eval_1step(Term::Succ(t2)) {
                        Some(u) => Some(Term::IsZero(Box::new(u))),
                        None => None,
                    }
                }
            },
            other => match eval_1step(other) {
                Some(u) => Some(Term::IsZero(Box::new(u))),
                None => None,
            },
        },
        _ => None,
    }
}

/// A structural copy, bit for bit the same term.
fn duplicate(t: &Term) -> (r: Term)
    ensures
        r == *t,
    decreases *t,
{
    match t {
        Term::True => Term::True,
        Term::False => Term::False,
        Term::If(t1, t2, t3) => Term::If(
            Box::new(duplicate(t1)),
            Box::new(duplicate(t2)),
            Box::new(duplicate(t3)),
        ),
        Term::Zero => Term::Zero,
        Term::Succ(t1) => Term::Succ(Box::new(duplicate(t1))),
        Term::Pred(t1) => Term::Pred(Box::new(duplicate(t1))),
        Term::IsZero(t1) => Term::IsZero(Box::new(duplicate(t1))),
    }
}

/// A step taken from the term `k` steps reach is the term `k + 1` steps
/// reach.
proof fn lemma_multi_step_snoc(t: Term, k: nat, u: Term, w: Term)
    requires
        multi_step(t, k) == u,
        step(u) == Some(w),
    ensures
        multi_step(t, k + 1) == w,
    decreases k,
{
    if k == 0 {
        assert(multi_step(t, 0) == t);
        assert(multi_step(w, 0) == w);
    } else {
        match step(t) {
            Some(v) => {
                lemma_multi_step_snoc(v, (k - 1) as nat, u, w);
            },
            None => {},
        }
    }
}

/// Apply `eval_1step` until no rule applies and return the last term
/// reached: the normal form of `t`, or the point where `t` gets stuck.  The
/// loop is bounded by `usize::MAX` reduction steps, a machine bound no
/// computation that finishes on this machine can exhaust.
pub fn eval(t: Term) -> (r: Term)
    ensures
        exists|k: nat|
            k <= usize::MAX && multi_step(t, k) == r && (step(r) is None || k == usize::MAX),
{
    let mut cur = t;
    let mut fuel: usize = usize::MAX;
    proof {
        assert(multi_step(t, 0) == cur);
    }
    loop
        invariant
            multi_step(t, (usize::MAX - fuel) as nat) == cur,
        decreases fuel,
    {
        if fuel == 0 {
            return cur;
        }
        match eval_1step(duplicate(&cur)) {
            Some(next) => {
                proof {
                    lemma_multi_step_snoc(t, (usize::MAX - fuel) as nat, cur, next);
                }
                cur = next;
                fuel = fuel - 1;
            },
            None => {
                return cur;
            },
        }
    }
}

} // verus!
