use lambda_calc::arith::Term::{False, If, IsZero, Pred, Succ, True, Zero};
use lambda_calc::arith::{eval, eval_1step, Term};

fn b(t: Term) -> Box<Term> {
    Box::new(t)
}

#[test]
fn test_eval_1step() {
    assert_eq! {
        eval_1step(If(b(True), b(Zero), b(False))).unwrap(),
        Zero
    }
    assert_eq! {
        eval_1step(If(b(False), b(Zero), b(Succ(b(Zero))))).unwrap(),
        Succ(b(Zero))
    }
    assert_eq! {
        eval_1step(Pred(b(Succ(b(Succ(b(Zero))))))).unwrap(),
        Succ(b(Zero))
    }
    assert_eq! {
        eval_1step(If(b(IsZero(b(Pred(b(Pred(b(Succ(b(Zero))))))))), b(True), b(False))).unwrap(),
        If(b(IsZero(b(Pred(b(Zero))))), b(True), b(False))
    }
}

#[test]
fn test_eval() {
    assert_eq! {
        eval(If(b(IsZero(b(Pred(b(Pred(b(Succ(b(Zero))))))))),
            b(If(b(True), b(Succ(b(Zero))), b(False))),
            b(False)
        )),
        Succ(b(Zero))
    }
    assert_eq!(eval(Succ(b(Zero))), Succ(b(Zero)));
}

#[test]
fn eval_1step_no_rule() {
    // Constants and numeric values admit no step.
    assert!(eval_1step(True).is_none());
    assert!(eval_1step(False).is_none());
    assert!(eval_1step(Zero).is_none());
    assert!(eval_1step(Succ(b(Zero))).is_none());
    // A stuck term comes back from eval unchanged.
    assert_eq!(eval(Succ(b(True))), Succ(b(True)));
}

#[test]
fn eval_is_zero() {
    assert_eq!(eval(IsZero(b(Zero))), True);
    assert_eq!(eval(IsZero(b(Succ(b(Zero))))), False);
    assert_eq!(eval(Pred(b(Zero))), Zero);
}
