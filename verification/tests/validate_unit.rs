//! Validation: the node kinds and operators that can be evaluated, and the
//! first rejected node of a tree.
use mathlex_eval::ast::{integer, var, AstBinaryOp as BinaryOp, AstUnaryOp as UnaryOp, Expr, MathConstant, UnsupportedKind};
use mathlex_eval::validate::validate;



fn float(v: f64) -> Expr {
    Expr::Float(v.to_bits())
}

fn unsupported(kind: UnsupportedKind) -> Expr {
    Expr::Unsupported(kind)
}

fn sum(index: &str, lower: Expr, upper: Expr, body: Expr) -> Expr {
    let (lower_text, upper_text) = (format!("{:?}", lower), format!("{:?}", upper));
    Expr::Sum { index: index.to_string(), lower: Box::new(lower), upper: Box::new(upper), body: Box::new(body), lower_text, upper_text }
}

fn product(index: &str, lower: Expr, upper: Expr, body: Expr) -> Expr {
    let (lower_text, upper_text) = (format!("{:?}", lower), format!("{:?}", upper));
    Expr::Product { index: index.to_string(), lower: Box::new(lower), upper: Box::new(upper), body: Box::new(body), lower_text, upper_text }
}


// --- Accepted variants ---

#[test]
fn accept_integer() {
    assert!(validate(&integer(42)).is_ok());
}

#[test]
fn accept_float() {
    assert!(validate(&float(2.75)).is_ok());
}

#[test]
fn accept_variable() {
    assert!(validate(&var("x")).is_ok());
}

#[test]
fn accept_constant() {
    assert!(validate(&Expr::Constant(MathConstant::Pi)).is_ok());
}

#[test]
fn accept_rational() {
    let r = Expr::Rational {
        numerator: Box::new(integer(3)),
        denominator: Box::new(integer(4)),
    }
    .into();
    assert!(validate(&r).is_ok());
}

#[test]
fn accept_complex() {
    let c = Expr::Complex {
        real: Box::new(integer(1)),
        imaginary: Box::new(integer(2)),
    }
    .into();
    assert!(validate(&c).is_ok());
}

#[test]
fn accept_binary_add() {
    let b = Expr::Binary {
        op: BinaryOp::Add,
        left: Box::new(integer(1)),
        right: Box::new(integer(2)),
    }
    .into();
    assert!(validate(&b).is_ok());
}

#[test]
fn accept_unary_neg() {
    let u = Expr::Unary {
        op: UnaryOp::Neg,
        operand: Box::new(integer(1)),
    }
    .into();
    assert!(validate(&u).is_ok());
}

#[test]
fn accept_unary_factorial() {
    let u = Expr::Unary {
        op: UnaryOp::Factorial,
        operand: Box::new(integer(5)),
    }
    .into();
    assert!(validate(&u).is_ok());
}

#[test]
fn accept_unary_pos() {
    let u = Expr::Unary {
        op: UnaryOp::Pos,
        operand: Box::new(integer(1)),
    }
    .into();
    assert!(validate(&u).is_ok());
}

#[test]
fn accept_function() {
    let f = Expr::Function {
        name: "sin".into(),
        args: vec![var("x")],
    }
    .into();
    assert!(validate(&f).is_ok());
}

#[test]
fn accept_sum() {
    let s = sum("k", integer(1), integer(10), var("k"));
    assert!(validate(&s).is_ok());
}

#[test]
fn accept_product() {
    let p = product("k", integer(1), integer(5), var("k"));
    assert!(validate(&p).is_ok());
}

// --- Nested validation ---

#[test]
fn reject_vector_nested_in_binary() {
    let b = Expr::Binary {
        op: BinaryOp::Add,
        left: Box::new(integer(1)),
        right: Box::new(unsupported(UnsupportedKind::Vector)),
    }
    .into();
    let err = validate(&b).unwrap_err();
    assert!(err.to_string().contains("Vector"));
}

// --- Rejected variants ---

#[test]
fn reject_vector() {
    let v = unsupported(UnsupportedKind::Vector);
    let err = validate(&v).unwrap_err();
    assert!(err.to_string().contains("Vector"));
}

#[test]
fn reject_matrix() {
    let m = unsupported(UnsupportedKind::Matrix);
    let err = validate(&m).unwrap_err();
    assert!(err.to_string().contains("Matrix"));
}

#[test]
fn reject_derivative() {
    let d = unsupported(UnsupportedKind::Derivative);
    let err = validate(&d).unwrap_err();
    assert!(err.to_string().contains("Derivative"));
}

#[test]
fn reject_integral() {
    let i = unsupported(UnsupportedKind::Integral);
    let err = validate(&i).unwrap_err();
    assert!(err.to_string().contains("Integral"));
}

#[test]
fn reject_limit() {
    let l = unsupported(UnsupportedKind::Limit);
    let err = validate(&l).unwrap_err();
    assert!(err.to_string().contains("Limit"));
}

#[test]
fn reject_equation() {
    let e = unsupported(UnsupportedKind::Equation);
    let err = validate(&e).unwrap_err();
    assert!(err.to_string().contains("Equation"));
}

#[test]
fn reject_nabla() {
    let err = validate(&unsupported(UnsupportedKind::Nabla)).unwrap_err();
    assert!(err.to_string().contains("Nabla"));
}

#[test]
fn reject_empty_set() {
    let err = validate(&unsupported(UnsupportedKind::EmptySet)).unwrap_err();
    assert!(err.to_string().contains("EmptySet"));
}

#[test]
fn reject_plus_minus_op() {
    let b = Expr::Binary {
        op: BinaryOp::PlusMinus,
        left: Box::new(integer(1)),
        right: Box::new(integer(2)),
    }
    .into();
    let err = validate(&b).unwrap_err();
    assert!(err.to_string().contains("PlusMinus"));
}

#[test]
fn reject_transpose_op() {
    let u = Expr::Unary {
        op: UnaryOp::Transpose,
        operand: Box::new(integer(1)),
    }
    .into();
    let err = validate(&u).unwrap_err();
    assert!(err.to_string().contains("Transpose"));
}

#[test]
fn reject_quaternion() {
    let q = unsupported(UnsupportedKind::Quaternion);
    let err = validate(&q).unwrap_err();
    assert!(err.to_string().contains("Quaternion"));
}
