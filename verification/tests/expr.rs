use eml_sr::expr::{Expr, E_BITS, ONE_BITS};

fn c(v: f64) -> Expr {
    Expr::Const(v.to_bits())
}

fn eml(a: Expr, b: Expr) -> Expr {
    Expr::Eml(Box::new(a), Box::new(b))
}

#[test]
fn constant_bit_patterns() {
    assert_eq!(ONE_BITS, 1.0f64.to_bits());
    assert_eq!(E_BITS, std::f64::consts::E.to_bits());
}

#[test]
fn simplify_eml_of_one_is_exp() {
    // eml(x, 1) = exp(x)
    let e = eml(Expr::Var, c(1.0));
    assert_eq!(e.simplify(), Expr::Exp(Box::new(Expr::Var)));
}

#[test]
fn simplify_eml_with_left_one_is_e_minus_ln() {
    // eml(1, x) = e - ln(x)
    let e = eml(c(1.0), Expr::Var);
    assert_eq!(
        e.simplify(),
        Expr::Sub(
            Box::new(Expr::Const(E_BITS)),
            Box::new(Expr::Ln(Box::new(Expr::Var)))
        )
    );
}

#[test]
fn simplify_ln_identity_expression() {
    // ln(x) = eml(1, eml(eml(1, x), 1))
    let e = eml(c(1.0), eml(eml(c(1.0), Expr::Var), c(1.0)));
    assert_eq!(e.simplify(), Expr::Ln(Box::new(Expr::Var)));
}

#[test]
fn simplify_ln_rule_reads_the_written_operand() {
    // a right operand written as exp(e - ln(x)) is not the ln pattern
    let sub = Expr::Sub(
        Box::new(Expr::Const(E_BITS)),
        Box::new(Expr::Ln(Box::new(Expr::Var))),
    );
    let inner = Expr::Exp(Box::new(sub.clone()));
    let e = eml(c(1.0), inner.clone());
    assert_eq!(
        e.simplify(),
        Expr::Sub(
            Box::new(Expr::Const(E_BITS)),
            Box::new(Expr::Ln(Box::new(inner)))
        )
    );
}

#[test]
fn simplify_ln_identity_simplifies_its_operand() {
    // ln(eml(x, 1)) written through the identity gives ln(exp(x))
    let e = eml(c(1.0), eml(eml(c(1.0), eml(Expr::Var, c(1.0))), c(1.0)));
    assert_eq!(
        e.simplify(),
        Expr::Ln(Box::new(Expr::Exp(Box::new(Expr::Var))))
    );
}

#[test]
fn simplify_ln_identity_needs_left_one() {
    // with a left operand other than 1 the ln rule does not apply
    let right = eml(eml(c(1.0), Expr::Var), c(1.0));
    let e = eml(Expr::Var, right);
    let inner = Expr::Sub(
        Box::new(Expr::Const(E_BITS)),
        Box::new(Expr::Ln(Box::new(Expr::Var))),
    );
    assert_eq!(
        e.simplify(),
        eml(Expr::Var, Expr::Exp(Box::new(inner)))
    );
}

#[test]
fn constants_compare_as_floats() {
    assert_eq!(c(0.0), c(-0.0));
    assert_ne!(c(f64::NAN), c(f64::NAN));
    assert_ne!(c(1.0), c(2.0));
    assert_eq!(eml(c(0.0), Expr::Var), eml(c(-0.0), Expr::Var));
    assert_ne!(Expr::Var, c(1.0));
}

#[test]
fn clone_is_equal() {
    let e = eml(c(1.0), eml(Expr::Var, Expr::Exp(Box::new(c(2.5)))));
    assert_eq!(e.clone(), e);
}

#[test]
fn simplify_keeps_plain_eml() {
    let e = eml(Expr::Var, Expr::Var);
    assert_eq!(e.simplify(), eml(Expr::Var, Expr::Var));
    let k = eml(c(2.0), c(0.5));
    assert_eq!(k.simplify(), eml(c(2.0), c(0.5)));
}

#[test]
fn simplify_leaves_leaves_alone() {
    assert_eq!(c(1.0).simplify(), c(1.0));
    assert_eq!(Expr::Var.simplify(), Expr::Var);
}

#[test]
fn simplify_recurses_into_exp_ln_sub() {
    let e = Expr::Sub(
        Box::new(Expr::Exp(Box::new(eml(Expr::Var, c(1.0))))),
        Box::new(Expr::Ln(Box::new(eml(c(1.0), c(1.0))))),
    );
    let exp_x = Expr::Exp(Box::new(Expr::Var));
    let expected = Expr::Sub(
        Box::new(Expr::Exp(Box::new(exp_x))),
        Box::new(Expr::Ln(Box::new(Expr::Exp(Box::new(c(1.0)))))),
    );
    assert_eq!(e.simplify(), expected);
}

#[test]
fn simplify_is_idempotent() {
    let samples = vec![
        eml(c(1.0), eml(eml(c(1.0), Expr::Var), c(1.0))),
        eml(eml(Expr::Var, c(1.0)), eml(c(1.0), Expr::Var)),
        eml(eml(c(1.0), c(1.0)), eml(Expr::Var, eml(Expr::Var, Expr::Var))),
    ];
    for e in samples {
        let once = e.simplify();
        assert_eq!(once.simplify(), once);
    }
}

#[test]
fn is_one_compares_bit_patterns() {
    assert!(c(1.0).is_one());
    assert!(!c(1.0000000000000002).is_one());
    assert!(!Expr::Var.is_one());
}
