//! Snapped symbolic expressions and their simplification.
use vstd::prelude::*;

verus! {

/// Bit pattern of the `f64` value `1.0`.
pub const ONE_BITS: u64 = 0x3FF0_0000_0000_0000;

/// Bit pattern of the `f64` value of Euler's number `e` (`std::f64::consts::E`).
pub const E_BITS: u64 = 0x4005_BF0A_8B14_5769;

/// A snapped symbolic expression.
///
/// After training, every input selector is one-hot, so the tree collapses to
/// a concrete expression built from the variable `x`, constants, and `eml`.
/// A small set of rewrite rules can further simplify common forms into
/// `exp`, `ln`, and arithmetic.
///
/// A constant is held as the IEEE-754 bit pattern of its `f64` value
/// (`f64::to_bits`); `1.0` is `ONE_BITS` and `e` is `E_BITS`. Two
/// expressions are `==` when they have the same shape and their constants
/// are equal as `f64` values (`const_eq`).
#[derive(Debug)]
pub enum Expr {
    Const(u64),
    Var,
    /// The raw EML operator `eml(a, b) = exp(a) - ln(b)`.
    Eml(Box<Expr>, Box<Expr>),
    /// `exp(a)`: produced only by simplification.
    Exp(Box<Expr>),
    /// `ln(a)`: produced only by simplification.
    Ln(Box<Expr>),
    /// `a - b`: produced only by simplification.
    Sub(Box<Expr>, Box<Expr>),
}

/// Whether the bit pattern is that of a NaN: all exponent bits set and a
/// nonzero fraction.
pub open spec fn is_nan_bits(x: u64) -> bool {
    x & 0x7FF0_0000_0000_0000 == 0x7FF0_0000_0000_0000 && x & 0x000F_FFFF_FFFF_FFFF != 0
}

/// Whether the bit pattern is that of `0.0` or `-0.0`.
pub open spec fn is_zero_bits(x: u64) -> bool {
    x & 0x7FFF_FFFF_FFFF_FFFF == 0
}

/// IEEE-754 equality of the `f64` values with these bit patterns: no NaN
/// equals anything, the two zeros are equal, other values are equal when
/// their bits are.
pub open spec fn const_eq(x: u64, y: u64) -> bool {
    !is_nan_bits(x) && !is_nan_bits(y) && (x == y || (is_zero_bits(x) && is_zero_bits(y)))
}

/// What `==` means on expressions: the same shape, with equal constants
/// compared as `f64` values.
pub open spec fn expr_eq(a: Expr, b: Expr) -> bool
    decreases a,
{
    match (a, b) {
        (Expr::Const(x), Expr::Const(y)) => const_eq(x, y),
        (Expr::Var, Expr::Var) => true,
        (Expr::Eml(a1, a2), Expr::Eml(b1, b2)) => expr_eq(*a1, *b1) && expr_eq(*a2, *b2),
        (Expr::Exp(a1), Expr::Exp(b1)) => expr_eq(*a1, *b1),
        (Expr::Ln(a1), Expr::Ln(b1)) => expr_eq(*a1, *b1),
        (Expr::Sub(a1, a2), Expr::Sub(b1, b2)) => expr_eq(*a1, *b1) && expr_eq(*a2, *b2),
        _ => false,
    }
}

/// The constant `1`.
pub open spec fn one() -> Expr {
    Expr::Const(ONE_BITS)
}

/// Whether `b` has the form `eml(eml(1, x), 1)`: the right operand of
/// `ln(x) = eml(1, eml(eml(1, x), 1))`.
pub open spec fn is_ln_operand(b: Expr) -> bool {
    match b {
        Expr::Eml(inner, one1) => *one1 == one() && match *inner {
            Expr::Eml(one2, _) => *one2 == one(),
            _ => false,
        },
        _ => false,
    }
}

/// What `simplify` returns: the operands are simplified first, then the
/// first rule that matches rewrites the node: `eml(a, 1) = exp(a)`;
/// `eml(1, eml(eml(1, x), 1)) = ln(x)`, with `x` simplified;
/// `eml(1, b) = e - ln(b)`. The `ln` rule looks at the right operand as
/// it was written, before simplification.
pub open spec fn spec_simplify(e: Expr) -> Expr
    decreases e,
{
    match e {
        Expr::Eml(a, b) => {
            let sa = spec_simplify(*a);
            let sb = spec_simplify(*b);
            if sb == one() {
                Expr::Exp(Box::new(sa))
            } else if sa == one() && is_ln_operand(*b) {
                match *b {
                    Expr::Eml(inner, _) => match *inner {
                        Expr::Eml(_, x) => Expr::Ln(Box::new(spec_simplify(*x))),
                        _ => e,
                    },
                    _ => e,
                }
            } else if sa == one() {
                Expr::Sub(
                    Box::new(Expr::Const(E_BITS)),
                    Box::new(Expr::Ln(Box::new(sb))),
                )
            } else {
                Expr::Eml(Box::new(sa), Box::new(sb))
            }
        },
        Expr::Exp(a) => Expr::Exp(Box::new(spec_simplify(*a))),
        Expr::Ln(a) => Expr::Ln(Box::new(spec_simplify(*a))),
        Expr::Sub(a, b) => Expr::Sub(Box::new(spec_simplify(*a)), Box::new(spec_simplify(*b))),
        _ => e,
    }
}

/// An expression in which no rewrite rule applies: no `eml` node has the
/// constant `1` as an operand.
pub open spec fn is_simplified(e: Expr) -> bool
    decreases e,
{
    match e {
        Expr::Eml(a, b) => is_simplified(*a) && is_simplified(*b) && *a != one() && *b != one(),
        Expr::Exp(a) => is_simplified(*a),
        Expr::Ln(a) => is_simplified(*a),
        Expr::Sub(a, b) => is_simplified(*a) && is_simplified(*b),
        _ => true,
    }
}

/// The result of simplification is in simplified form.
pub proof fn lemma_simplify_is_simplified(e: Expr)
    ensures
        is_simplified(spec_simplify(e)),
    decreases e,
{
    match e {
        Expr::Eml(a, b) => {
            lemma_simplify_is_simplified(*a);
            lemma_simplify_is_simplified(*b);
            let sa = spec_simplify(*a);
            let sb = spec_simplify(*b);
            if sb != one() && sa == one() && is_ln_operand(*b) {
                match *b {
                    Expr::Eml(inner, _) => match *inner {
                        Expr::Eml(_, x) => lemma_simplify_is_simplified(*x),
                        _ => {},
                    },
                    _ => {},
                }
            }
            if sb != one() && sa == one() {
                let l = Expr::Ln(Box::new(sb));
                assert(is_simplified(l));
                assert(is_simplified(Expr::Const(E_BITS)));
            }
        },
        Expr::Exp(a) => lemma_simplify_is_simplified(*a),
        Expr::Ln(a) => lemma_simplify_is_simplified(*a),
        Expr::Sub(a, b) => {
            lemma_simplify_is_simplified(*a);
            lemma_simplify_is_simplified(*b);
        },
        _ => {},
    }
}

/// Law: simplification leaves an expression unchanged exactly when no rule
/// applies anywhere in it.
pub proof fn lemma_simplify_fixed_point(e: Expr)
    ensures
        spec_simplify(e) == e <==> is_simplified(e),
    decreases e,
{
    lemma_simplify_is_simplified(e);
    match e {
        Expr::Eml(a, b) => {
            lemma_simplify_fixed_point(*a);
            lemma_simplify_fixed_point(*b);
        },
        Expr::Exp(a) => lemma_simplify_fixed_point(*a),
        Expr::Ln(a) => lemma_simplify_fixed_point(*a),
        Expr::Sub(a, b) => {
            lemma_simplify_fixed_point(*a);
            lemma_simplify_fixed_point(*b);
        },
        _ => {},
    }
}

/// Law: simplifying twice gives what simplifying once gives.
pub proof fn lemma_simplify_idempotent(e: Expr)
    ensures
        spec_simplify(spec_simplify(e)) == spec_simplify(e),
{
    lemma_simplify_is_simplified(e);
    lemma_simplify_fixed_point(spec_simplify(e));
}

/// The written form `eml(eml(1, y), 1)` of the right operand of the identity
/// `ln(y) = eml(1, eml(eml(1, y), 1))`.
pub open spec fn ln_form(y: Expr) -> Expr {
    Expr::Eml(
        Box::new(Expr::Eml(Box::new(Expr::Const(ONE_BITS)), Box::new(y))),
        Box::new(Expr::Const(ONE_BITS)),
    )
}

/// Law: `eml(a, 1)` simplifies to `exp(a)`, with `a` simplified, whenever
/// the right operand simplifies to `1`.
pub proof fn lemma_simplify_exp_rule(a: Expr, b: Expr)
    requires
        spec_simplify(b) == Expr::Const(ONE_BITS),
    ensures
        spec_simplify(Expr::Eml(Box::new(a), Box::new(b))) == Expr::Exp(
            Box::new(spec_simplify(a)),
        ),
{
}

/// Law: `eml(1, eml(eml(1, y), 1))` simplifies to `ln(y)`, with `y` simplified.
pub proof fn lemma_simplify_ln_rule(y: Expr)
    ensures
        spec_simplify(Expr::Eml(Box::new(Expr::Const(ONE_BITS)), Box::new(ln_form(y))))
            == Expr::Ln(Box::new(spec_simplify(y))),
{
    let b = ln_form(y);
    let inner = Expr::Eml(Box::new(Expr::Const(ONE_BITS)), Box::new(y));
    assert(spec_simplify(Expr::Const(ONE_BITS)) == Expr::Const(ONE_BITS));
    assert(spec_simplify(inner) != Expr::Const(ONE_BITS));
    assert(spec_simplify(b) == Expr::Exp(Box::new(spec_simplify(inner))));
}

/// Law: when the left operand simplifies to `1` and the right one neither
/// simplifies to `1` nor is written `eml(eml(1, y), 1)`, the node becomes
/// `e - ln(b)` with `b` simplified; in particular the `ln` rule fires on no
/// other right operand.
pub proof fn lemma_simplify_e_minus_ln_rule(a: Expr, b: Expr)
    requires
        spec_simplify(a) == Expr::Const(ONE_BITS),
        spec_simplify(b) != Expr::Const(ONE_BITS),
        forall|y: Expr| #[trigger] ln_form(y) != b,
    ensures
        spec_simplify(Expr::Eml(Box::new(a), Box::new(b))) == Expr::Sub(
            Box::new(Expr::Const(E_BITS)),
            Box::new(Expr::Ln(Box::new(spec_simplify(b)))),
        ),
{
    if is_ln_operand(b) {
        match b {
            Expr::Eml(inner, _) => match *inner {
                Expr::Eml(_, x) => {
                    assert(ln_form(*x) == b);
                },
                _ => {},
            },
            _ => {},
        }
    }
}

/// Law: an `eml` node none of whose operands simplifies to `1` keeps its
/// shape, with both operands simplified.
pub proof fn lemma_simplify_eml_kept(a: Expr, b: Expr)
    requires
        spec_simplify(a) != Expr::Const(ONE_BITS),
        spec_simplify(b) != Expr::Const(ONE_BITS),
    ensures
        spec_simplify(Expr::Eml(Box::new(a), Box::new(b))) == Expr::Eml(
            Box::new(spec_simplify(a)),
            Box::new(spec_simplify(b)),
        ),
{
}

/// Law: `exp`, `ln` and `-` nodes keep their shape with their operands
/// simplified; constants and the variable are left as they are.
pub proof fn lemma_simplify_other_nodes(a: Expr, b: Expr, c: u64)
    ensures
        spec_simplify(Expr::Exp(Box::new(a))) == Expr::Exp(Box::new(spec_simplify(a))),
        spec_simplify(Expr::Ln(Box::new(a))) == Expr::Ln(Box::new(spec_simplify(a))),
        spec_simplify(Expr::Sub(Box::new(a), Box::new(b))) == Expr::Sub(
            Box::new(spec_simplify(a)),
            Box::new(spec_simplify(b)),
        ),
        spec_simplify(Expr::Var) == Expr::Var,
        spec_simplify(Expr::Const(c)) == Expr::Const(c),
{
}

/// Whether some constant of the expression is a NaN.
pub open spec fn has_nan(e: Expr) -> bool
    decreases e,
{
    match e {
        Expr::Const(x) => is_nan_bits(x),
        Expr::Var => false,
        Expr::Eml(a, b) => has_nan(*a) || has_nan(*b),
        Expr::Exp(a) => has_nan(*a),
        Expr::Ln(a) => has_nan(*a),
        Expr::Sub(a, b) => has_nan(*a) || has_nan(*b),
    }
}

/// The expression with every `-0.0` constant replaced by `0.0`.
pub open spec fn zeros_unsigned(e: Expr) -> Expr
    decreases e,
{
    match e {
        Expr::Const(x) => if is_zero_bits(x) {
            Expr::Const(0)
        } else {
            Expr::Const(x)
        },
        Expr::Var => Expr::Var,
        Expr::Eml(a, b) => Expr::Eml(Box::new(zeros_unsigned(*a)), Box::new(zeros_unsigned(*b))),
        Expr::Exp(a) => Expr::Exp(Box::new(zeros_unsigned(*a))),
        Expr::Ln(a) => Expr::Ln(Box::new(zeros_unsigned(*a))),
        Expr::Sub(a, b) => Expr::Sub(Box::new(zeros_unsigned(*a)), Box::new(zeros_unsigned(*b))),
    }
}

/// Law: between expressions without NaN constants, `==` holds exactly when
/// they are the same tree once `-0.0` and `0.0` are identified: every node
/// and both operands of every binary node are compared.
pub proof fn lemma_eq_is_structural(a: Expr, b: Expr)
    requires
        !has_nan(a),
        !has_nan(b),
    ensures
        expr_eq(a, b) <==> zeros_unsigned(a) == zeros_unsigned(b),
    decreases a,
{
    match (a, b) {
        (Expr::Const(x), Expr::Const(y)) => {
            assert(is_zero_bits(0u64)) by (bit_vector);
            assert(!is_zero_bits(x) ==> x != 0u64) by (bit_vector);
            assert(!is_zero_bits(y) ==> y != 0u64) by (bit_vector);
        },
        (Expr::Eml(a1, a2), Expr::Eml(b1, b2)) => {
            lemma_eq_is_structural(*a1, *b1);
            lemma_eq_is_structural(*a2, *b2);
        },
        (Expr::Exp(a1), Expr::Exp(b1)) => {
            lemma_eq_is_structural(*a1, *b1);
        },
        (Expr::Ln(a1), Expr::Ln(b1)) => {
            lemma_eq_is_structural(*a1, *b1);
        },
        (Expr::Sub(a1, a2), Expr::Sub(b1, b2)) => {
            lemma_eq_is_structural(*a1, *b1);
            lemma_eq_is_structural(*a2, *b2);
        },
        _ => {},
    }
}

/// Law: a NaN constant equals no expression, not even itself, and no
/// expression equals it.
pub proof fn lemma_eq_nan(x: u64, e: Expr)
    requires
        is_nan_bits(x),
    ensures
        !expr_eq(Expr::Const(x), e),
        !expr_eq(e, Expr::Const(x)),
{
}

/// Law: an expression without NaN constants equals itself.
pub proof fn lemma_eq_reflexive(a: Expr)
    requires
        !has_nan(a),
    ensures
        expr_eq(a, a),
{
    lemma_eq_is_structural(a, a);
}

/// `f64` equality of two constants given by their bit patterns.
pub fn const_equal(x: u64, y: u64) -> (r: bool)
    ensures
        r == const_eq(x, y),
{
    let x_nan = x & 0x7FF0_0000_0000_0000 == 0x7FF0_0000_0000_0000 && x & 0x000F_FFFF_FFFF_FFFF
        != 0;
    let y_nan = y & 0x7FF0_0000_0000_0000 == 0x7FF0_0000_0000_0000 && y & 0x000F_FFFF_FFFF_FFFF
        != 0;
    let both_zero = x & 0x7FFF_FFFF_FFFF_FFFF == 0 && y & 0x7FFF_FFFF_FFFF_FFFF == 0;
    !x_nan && !y_nan && (x == y || both_zero)
}

impl PartialEq for Expr {
    fn eq(&self, other: &Self) -> (r: bool) {
        self.equals(other)
    }
}

impl vstd::std_specs::cmp::PartialEqSpecImpl for Expr {
    open spec fn obeys_eq_spec() -> bool {
        true
    }

    open spec fn eq_spec(&self, other: &Self) -> bool {
        expr_eq(*self, *other)
    }
}

impl Clone for Expr {
    fn clone(&self) -> (r: Self)
        ensures
            r == *self,
        decreases self,
    {
        match self {
            Expr::Const(c) => Expr::Const(*c),
            Expr::Var => Expr::Var,
            Expr::Eml(a, b) => Expr::Eml(Box::new((**a).clone()), Box::new((**b).clone())),
            Expr::Exp(a) => Expr::Exp(Box::new((**a).clone())),
            Expr::Ln(a) => Expr::Ln(Box::new((**a).clone())),
            Expr::Sub(a, b) => Expr::Sub(Box::new((**a).clone()), Box::new((**b).clone())),
        }
    }
}

impl Expr {
    /// Structural equality with constants compared as `f64` values.
    pub fn equals(&self, other: &Expr) -> (r: bool)
        ensures
            r == expr_eq(*self, *other),
        decreases self,
    {
        match (self, other) {
            (Expr::Const(x), Expr::Const(y)) => const_equal(*x, *y),
            (Expr::Var, Expr::Var) => true,
            (Expr::Eml(a1, a2), Expr::Eml(b1, b2)) => a1.equals(b1) && a2.equals(b2),
            (Expr::Exp(a1), Expr::Exp(b1)) => a1.equals(b1),
            (Expr::Ln(a1), Expr::Ln(b1)) => a1.equals(b1),
            (Expr::Sub(a1, a2), Expr::Sub(b1, b2)) => a1.equals(b1) && a2.equals(b2),
            _ => false,
        }
    }

    /// Whether this is the constant `1`.
    pub fn is_one(&self) -> (r: bool)
        ensures
            r == (*self == one()),
    {
        match self {
            Expr::Const(c) => *c == ONE_BITS,
            _ => false,
        }
    }

    /// Apply a small set of simplification rules so that common recovered
    /// forms look like ordinary math.
    pub fn simplify(&self) -> (r: Expr)
        ensures
            r == spec_simplify(*self),
            is_simplified(r),
        decreases self,
    {
        proof {
            lemma_simplify_is_simplified(*self);
        }
        match self {
            Expr::Eml(left, right) => {
                let a = left.simplify();
                let b = right.simplify();

                // eml(x, 1) = exp(x)
                if b.is_one() {
                    return Expr::Exp(Box::new(a));
                }
                // eml(1, eml(eml(1, x), 1)) = ln(x)
                if a.is_one() {
                    if let Expr::Eml(inner, one1) = &**right {
                        if one1.is_one() {
                            if let Expr::Eml(one2, x) = &**inner {
                                if one2.is_one() {
                                    return Expr::Ln(Box::new(x.simplify()));
                                }
                            }
                        }
                    }
                }
                // eml(1, x) = e - ln(x)
                if a.is_one() {
                    return Expr::Sub(
                        Box::new(Expr::Const(E_BITS)),
                        Box::new(Expr::Ln(Box::new(b))),
                    );
                }
                Expr::Eml(Box::new(a), Box::new(b))
            },
            Expr::Exp(a) => Expr::Exp(Box::new(a.simplify())),
            Expr::Ln(a) => Expr::Ln(Box::new(a.simplify())),
            Expr::Sub(a, b) => Expr::Sub(Box::new(a.simplify()), Box::new(b.simplify())),
            Expr::Const(c) => Expr::Const(*c),
            Expr::Var => Expr::Var,
        }
    }
}

} // verus!
