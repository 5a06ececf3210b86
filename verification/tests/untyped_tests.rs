use lambda_calc::untyped::Term::{Abs, App, Var};
use lambda_calc::untyped::{Context, Term};

fn abs(name: &str, t: Term) -> Term {
    Abs(name.to_string(), Box::new(t))
}

fn app(t1: Term, t2: Term) -> Term {
    App(Box::new(t1), Box::new(t2))
}

#[test]
fn term_show() {
    let context = Context::new(&["x"]);
    assert_eq!(Var(0, 1).show(&context), "x");
    assert_eq!(abs("y", Var(1, 2)).show(&context), "(λy. x)");
    assert_eq!(abs("x", Var(0, 2)).show(&context), "(λx'. x')");
    assert_eq!(abs("y", Var(0, 2)).show(&context), "(λy. y)");
    assert_eq!(abs("y", Var(1, 2)).show(&context), "(λy. x)");
    assert_eq! {
        app(
            abs("y", Var(1, 2)),
            abs("z", Var(0, 2)),
        ).show(&context),
        "((λy. x) (λz. z))"
    }
}

#[test]
fn term_shift() {
    assert_eq! {
        // ↑2 (λ.λ. 1 (0 2)) => λ.λ. 1 (0 4)
        abs("a", abs("b", app(Var(1, 100), app(Var(0, 100), Var(2, 100))))).shift(2),
        abs("a", abs("b", app(Var(1, 102), app(Var(0, 102), Var(4, 102)))))
    }
    assert_eq! {
        // ↑2 (λ.0 1 (λ. 0 1 2)) => λ.0 3 (λ. 0 1 4)
        abs("a", app(app(Var(0, 100), Var(1, 100)), abs("b", app(app(Var(0, 100), Var(1, 100)), Var(2, 100))))).shift(2),
        abs("a", app(app(Var(0, 102), Var(3, 102)), abs("b", app(app(Var(0, 102), Var(1, 102)), Var(4, 102)))))
    }
}

#[test]
fn term_subst() {
    assert_eq! {
        // [0 -> 1](0 λ.λ. 2) => 1 (λ.λ. 3)
        app(Var(0, 100), abs("x", abs("y", Var(2, 100)))).subst(0, &Var(1, 100)),
        app(Var(1, 100), abs("x", abs("y", Var(3, 102))))
    }
    assert_eq! {
        // [0 -> 1 λ. 2](0 λ. 1) => (1 λ.2) (λ. (2 λ. 3))
        app(Var(0, 100), abs("x", Var(1, 100))).subst(0, &app(Var(1, 100), abs("z", Var(2, 100)))),
        app(app(Var(1, 100), abs("z", Var(2, 100))), abs("x", app(Var(2, 101), abs("z", Var(3, 101)))))
    }
}

#[test]
fn term_eval() {
    assert_eq! {
        // (λ. 0) (λ. 0) => λ. 0
        app(abs("x", Var(0, 2)), abs("y", Var(0, 1))).eval(),
        abs("y", Var(0, 1))
    }
    assert_eq! {
        // (λf. λx. f x) (λz. λw. z) (λu. u) => λw. λu. u
        app(app(abs("f", abs("x", app(Var(1, 2), Var(0, 2)))), abs("z", abs("w", Var(1, 2)))), abs("u", Var(0, 1))).eval(),
        abs("w", abs("u", Var(0, 2)))
    }
}

#[test]
fn shift_composes() {
    // Shifting twice by 1 and then by 2 is one shift by 3.
    let t = abs("a", app(Var(0, 7), Var(3, 7)));
    assert_eq!(t.shift(1).shift(2), t.shift(3));
    // A negative second shift undoes a positive first one.
    let u = app(Var(2, 5), abs("b", Var(4, 5)));
    assert_eq!(u.shift(2).shift(-2), u);
}

#[test]
fn subst_top_round_trip() {
    // (λx. x x) applied to the closed value λy. y: one contraction yields
    // the argument substituted directly for the bound variable, with each
    // context length dropped by the binder that disappeared.
    let body = app(Var(0, 1), Var(0, 1));
    let v = abs("y", Var(0, 1));
    let contracted = body.subst_top(&v);
    assert_eq!(contracted, app(abs("y", Var(0, 1)), abs("y", Var(0, 1))));
}

#[test]
fn eval_idempotent() {
    // Evaluating an evaluation result changes nothing.
    let t = app(
        app(
            abs("f", abs("x", app(Var(1, 2), Var(0, 2)))),
            abs("z", abs("w", Var(1, 2))),
        ),
        abs("u", Var(0, 1)),
    );
    let once = t.eval();
    let twice = once.eval();
    assert_eq!(twice, once);
}

#[test]
fn eval_stuck_application() {
    // An application headed by a free variable has no applicable rule and
    // comes back unchanged.
    let stuck = app(Var(0, 1), abs("x", Var(0, 2)));
    assert_eq!(stuck.eval(), app(Var(0, 1), abs("x", Var(0, 2))));
}

#[test]
fn eval1_no_rule_for_normal_forms() {
    // A bare variable and a bare abstraction are already normal forms.
    assert!(Var(0, 1).eval1().is_none());
    assert!(abs("x", Var(0, 1)).eval1().is_none());
    // An application of an abstraction to a value makes one step.
    let redex = app(abs("x", Var(0, 2)), abs("y", Var(0, 1)));
    assert_eq!(redex.eval1(), Some(abs("y", Var(0, 1))));
}

#[test]
fn show_reverses_context_order() {
    // Indices count from the innermost binder, so index 0 reaches the last
    // name of the context and index 1 the first.
    let context = Context::new(&["a", "b"]);
    assert_eq!(Var(0, 2).show(&context), "b");
    assert_eq!(Var(1, 2).show(&context), "a");
}

#[test]
fn values_are_abstractions() {
    assert!(abs("x", Var(0, 1)).is_val());
    assert!(!Var(0, 1).is_val());
    assert!(!app(Var(0, 1), Var(0, 1)).is_val());
}

#[test]
fn show_under_empty_context() {
    let context = Context::new(&[]);
    assert_eq!(abs("x", Var(0, 1)).show(&context), "(λx. x)");
    assert_eq!(
        abs("x", abs("x", app(Var(0, 2), Var(1, 2)))).show(&context),
        "(λx. (λx'. (x' x)))"
    );
}
