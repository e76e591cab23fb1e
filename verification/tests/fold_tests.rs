//! The folding pass, seen through the compiled tree it produces.
#![allow(dead_code, unused_imports)]
use std::collections::HashMap;

use ndarray::ArrayD;
use num_complex::Complex;

use mathlex_eval::ast::{integer, var, AstBinaryOp as BinaryOp, AstUnaryOp as UnaryOp, Expr, MathConstant, UnsupportedKind};
use mathlex_eval::broadcasting::ResolvedArg;
use mathlex_eval::ir::{BinaryOp as Op, BuiltinFn, CompiledNode, UnaryOp as UOp};
use mathlex_eval::number::{NumericOp, NumericReply, NumericValue};
use mathlex_eval::{CompileError, CompiledExpr, EvalError};

// ---------------------------------------------------------------------------
// A binary64 numeric backend and the float-level interface over the library
// ---------------------------------------------------------------------------

#[derive(Debug, Clone, Copy, PartialEq)]
enum NumericResult {
    Real(f64),
    Complex(Complex<f64>),
}

impl NumericResult {
    fn is_complex(&self) -> bool {
        matches!(self, NumericResult::Complex(_))
    }

    fn to_complex(self) -> Complex<f64> {
        match self {
            NumericResult::Real(r) => Complex::new(r, 0.0),
            NumericResult::Complex(c) => c,
        }
    }

    fn to_f64(self) -> Option<f64> {
        match self {
            NumericResult::Real(r) => Some(r),
            NumericResult::Complex(_) => None,
        }
    }

    fn simplify(self) -> NumericResult {
        match self {
            NumericResult::Complex(c) if c.im.abs() < 1e-15 => NumericResult::Real(c.re),
            other => other,
        }
    }

    fn from_value(v: NumericValue) -> NumericResult {
        match v {
            NumericValue::Real(b) => NumericResult::Real(f64::from_bits(b)),
            NumericValue::Complex { re, im } => {
                NumericResult::Complex(Complex::new(f64::from_bits(re), f64::from_bits(im)))
            }
        }
    }

    fn value(self) -> NumericValue {
        match self {
            NumericResult::Real(r) => NumericValue::Real(r.to_bits()),
            NumericResult::Complex(c) => NumericValue::Complex { re: c.re.to_bits(), im: c.im.to_bits() },
        }
    }
}

fn arith(op: Op, a: NumericResult, b: NumericResult) -> NumericResult {
    match (op, a, b) {
        (Op::Add, NumericResult::Real(x), NumericResult::Real(y)) => NumericResult::Real(x + y),
        (Op::Sub, NumericResult::Real(x), NumericResult::Real(y)) => NumericResult::Real(x - y),
        (Op::Mul, NumericResult::Real(x), NumericResult::Real(y)) => NumericResult::Real(x * y),
        (Op::Div, NumericResult::Real(x), NumericResult::Real(y)) => NumericResult::Real(x / y),
        (Op::Mod, NumericResult::Real(x), NumericResult::Real(y)) => NumericResult::Real(x % y),
        (Op::Mod, _, _) => NumericResult::Real(f64::NAN),
        (Op::Pow, NumericResult::Real(x), NumericResult::Real(y)) => {
            let r = x.powf(y);
            if r.is_nan() && x < 0.0 {
                NumericResult::Complex(Complex::new(x, 0.0).powc(Complex::new(y, 0.0))).simplify()
            } else {
                NumericResult::Real(r)
            }
        }
        (Op::Add, a, b) => NumericResult::Complex(a.to_complex() + b.to_complex()).simplify(),
        (Op::Sub, a, b) => NumericResult::Complex(a.to_complex() - b.to_complex()).simplify(),
        (Op::Mul, a, b) => NumericResult::Complex(a.to_complex() * b.to_complex()).simplify(),
        (Op::Div, a, b) => NumericResult::Complex(a.to_complex() / b.to_complex()).simplify(),
        (Op::Pow, a, b) => NumericResult::Complex(a.to_complex().powc(b.to_complex())).simplify(),
    }
}

fn unary(a: NumericResult, f: fn(f64) -> f64, g: fn(Complex<f64>) -> Complex<f64>) -> NumericResult {
    match a {
        NumericResult::Real(r) => NumericResult::Real(f(r)),
        NumericResult::Complex(c) => NumericResult::Complex(g(c)).simplify(),
    }
}

fn promote(a: NumericResult, f: fn(f64) -> f64, g: fn(Complex<f64>) -> Complex<f64>) -> NumericResult {
    match a {
        NumericResult::Real(r) if !f(r).is_nan() => NumericResult::Real(f(r)),
        other => NumericResult::Complex(g(other.to_complex())).simplify(),
    }
}

fn real_only(a: NumericResult, f: fn(f64) -> f64) -> NumericResult {
    NumericResult::Real(f(a.to_complex().re))
}

fn real_only2(a: NumericResult, b: NumericResult, f: fn(f64, f64) -> f64) -> NumericResult {
    NumericResult::Real(f(a.to_complex().re, b.to_complex().re))
}

fn apply(kind: BuiltinFn, a: NumericResult, b: NumericResult) -> NumericResult {
    match kind {
        BuiltinFn::Sin => unary(a, f64::sin, Complex::sin),
        BuiltinFn::Cos => unary(a, f64::cos, Complex::cos),
        BuiltinFn::Tan => unary(a, f64::tan, Complex::tan),
        BuiltinFn::Asin => promote(a, f64::asin, Complex::asin),
        BuiltinFn::Acos => promote(a, f64::acos, Complex::acos),
        BuiltinFn::Atan => unary(a, f64::atan, Complex::atan),
        BuiltinFn::Sinh => unary(a, f64::sinh, Complex::sinh),
        BuiltinFn::Cosh => unary(a, f64::cosh, Complex::cosh),
        BuiltinFn::Tanh => unary(a, f64::tanh, Complex::tanh),
        BuiltinFn::Exp => unary(a, f64::exp, Complex::exp),
        BuiltinFn::Ln => promote(a, f64::ln, Complex::ln),
        BuiltinFn::Log2 => promote(a, f64::log2, |c| c.ln() / 2.0_f64.ln()),
        BuiltinFn::Log10 => promote(a, f64::log10, |c| c.ln() / 10.0_f64.ln()),
        BuiltinFn::Log => match (a, b) {
            (NumericResult::Real(base), NumericResult::Real(v)) => NumericResult::Real(v.log(base)),
            (base, v) => NumericResult::Complex(v.to_complex().ln() / base.to_complex().ln()).simplify(),
        },
        BuiltinFn::Sqrt => match a {
            NumericResult::Real(r) if r >= 0.0 => NumericResult::Real(r.sqrt()),
            NumericResult::Real(r) => NumericResult::Complex(Complex::new(0.0, (-r).sqrt())).simplify(),
            NumericResult::Complex(c) => NumericResult::Complex(c.sqrt()).simplify(),
        },
        BuiltinFn::Cbrt => unary(a, f64::cbrt, |c| c.powf(1.0 / 3.0)),
        BuiltinFn::Abs => match a {
            NumericResult::Real(r) => NumericResult::Real(r.abs()),
            NumericResult::Complex(c) => NumericResult::Real(c.norm()),
        },
        BuiltinFn::Floor => real_only(a, f64::floor),
        BuiltinFn::Ceil => real_only(a, f64::ceil),
        BuiltinFn::Round => real_only(a, f64::round),
        BuiltinFn::Atan2 => real_only2(a, b, f64::atan2),
        BuiltinFn::Min => real_only2(a, b, f64::min),
        BuiltinFn::Max => real_only2(a, b, f64::max),
    }
}

fn backend(op: NumericOp) -> NumericReply {
    let v = |r: NumericResult| NumericReply::Value(r.value());
    let n = NumericResult::from_value;
    match op {
        NumericOp::FromInteger(i) => v(NumericResult::Real(i as f64)),
        NumericOp::Binary(op, a, b) => v(arith(op, n(a), n(b))),
        NumericOp::Apply1(kind, a) => v(apply(kind, n(a), n(a))),
        NumericOp::Apply2(kind, a, b) => v(apply(kind, n(a), n(b))),
        NumericOp::Factorial(bits) => {
            let r = f64::from_bits(bits);
            let k = r as u64;
            if r < 0.0 || r != (k as f64) {
                NumericReply::NotInteger(format!("{}", r))
            } else {
                v(NumericResult::Real((1..=k).fold(1.0, |acc, i| acc * i as f64)))
            }
        }
        NumericOp::IntegerBound(bits) => {
            let x = f64::from_bits(bits);
            let rounded = x.round();
            NumericReply::Bound(if (x - rounded).abs() < 1e-10 { Some(rounded as i64) } else { None })
        }
    }
}

enum EvalInput {
    Scalar(f64),
    Complex(Complex<f64>),
    Array(ArrayD<f64>),
    ComplexArray(ArrayD<Complex<f64>>),
    Iter(Box<dyn Iterator<Item = f64>>),
    ComplexIter(Box<dyn Iterator<Item = Complex<f64>>>),
}

impl From<Vec<f64>> for EvalInput {
    fn from(v: Vec<f64>) -> Self {
        EvalInput::Array(ArrayD::from_shape_vec(vec![v.len()], v).unwrap())
    }
}

impl From<Vec<Complex<f64>>> for EvalInput {
    fn from(v: Vec<Complex<f64>>) -> Self {
        EvalInput::ComplexArray(ArrayD::from_shape_vec(vec![v.len()], v).unwrap())
    }
}

impl EvalInput {
    fn resolve(self) -> ResolvedArg {
        let r = |x: f64| NumericResult::Real(x).value();
        let c = |z: Complex<f64>| NumericResult::Complex(z).value();
        match self {
            EvalInput::Scalar(x) => ResolvedArg::Scalar(r(x)),
            EvalInput::Complex(z) => ResolvedArg::Scalar(c(z)),
            EvalInput::Array(a) => ResolvedArg::Array(a.iter().map(|x| r(*x)).collect()),
            EvalInput::ComplexArray(a) => ResolvedArg::Array(a.iter().map(|z| c(*z)).collect()),
            EvalInput::Iter(it) => ResolvedArg::Array(it.map(r).collect()),
            EvalInput::ComplexIter(it) => ResolvedArg::Array(it.map(c).collect()),
        }
    }
}

fn compile(ast: &Expr, constants: &HashMap<&str, NumericResult>) -> Result<CompiledExpr, CompileError> {
    let cs: Vec<(String, NumericValue)> = constants.iter().map(|(k, v)| (k.to_string(), v.value())).collect();
    mathlex_eval::compile(ast, &cs, &backend)
}

#[derive(Debug)]
struct EvalHandle(mathlex_eval::EvalHandle);

struct EvalIter(mathlex_eval::EvalIter);

fn eval(expr: &CompiledExpr, args: HashMap<&str, EvalInput>) -> Result<EvalHandle, EvalError> {
    let inputs = args.into_iter().map(|(k, v)| (k.to_string(), v.resolve())).collect();
    mathlex_eval::eval(expr, inputs).map(EvalHandle)
}

impl EvalHandle {
    fn shape(&self) -> &[usize] {
        self.0.shape()
    }

    fn len(&self) -> usize {
        self.0.len()
    }

    fn is_empty(&self) -> bool {
        self.0.is_empty()
    }

    fn scalar(self) -> Result<NumericResult, EvalError> {
        self.0.scalar(&backend).map(NumericResult::from_value)
    }

    fn to_array(self) -> Result<ArrayD<NumericResult>, EvalError> {
        self.0.to_array(&backend).map(|a| a.array.mapv(NumericResult::from_value))
    }

    fn iter(self) -> EvalIter {
        EvalIter(self.0.iter())
    }
}

impl Iterator for EvalIter {
    type Item = Result<NumericResult, EvalError>;

    fn next(&mut self) -> Option<Self::Item> {
        self.0.next_result(&backend).map(|r| r.map(NumericResult::from_value))
    }
}

impl EvalIter {
    fn remaining(&self) -> usize {
        self.0.remaining()
    }
}

fn assert_close(actual: f64, expected: f64, epsilon: f64) {
    assert!(
        (actual - expected).abs() <= epsilon || actual == expected,
        "expected {expected} within {epsilon}, got {actual}"
    );
}



fn float(v: f64) -> Expr {
    Expr::Float(v.to_bits())
}

fn unsupported(kind: UnsupportedKind) -> Expr {
    Expr::Unsupported(kind)
}

fn sum(index: &str, lower: Expr, upper: Expr, body: Expr) -> Expr {
    let (lower_text, upper_text) = (format!("{:?}", lower), format!("{:?}", upper));
    Expr::Sum {
        index: index.to_string(),
        lower: Box::new(lower),
        upper: Box::new(upper),
        body: Box::new(body),
        lower_text,
        upper_text,
    }
}

fn product(index: &str, lower: Expr, upper: Expr, body: Expr) -> Expr {
    let (lower_text, upper_text) = (format!("{:?}", lower), format!("{:?}", upper));
    Expr::Product {
        index: index.to_string(),
        lower: Box::new(lower),
        upper: Box::new(upper),
        body: Box::new(body),
        lower_text,
        upper_text,
    }
}

fn no_constants() -> HashMap<&'static str, NumericResult> {
    HashMap::new()
}

/// The compiled tree with its literals as floats.
#[derive(Debug)]
enum Node {
    Literal(f64),
    ComplexLiteral { re: f64, im: f64 },
    Argument(usize),
    Index(usize),
    Binary { op: Op, left: Box<Node>, right: Box<Node> },
    Unary { op: UOp, operand: Box<Node> },
    Function { kind: BuiltinFn, args: Vec<Node> },
    Sum { index: usize, lower: i64, upper: i64, body: Box<Node> },
    Product { index: usize, lower: i64, upper: i64, body: Box<Node> },
}

fn view_node(n: &CompiledNode) -> Node {
    let b = |n: &CompiledNode| Box::new(view_node(n));
    match n {
        CompiledNode::Literal(v) => Node::Literal(f64::from_bits(*v)),
        CompiledNode::ComplexLiteral { re, im } => {
            Node::ComplexLiteral { re: f64::from_bits(*re), im: f64::from_bits(*im) }
        }
        CompiledNode::Argument(i) => Node::Argument(*i),
        CompiledNode::Index(s) => Node::Index(*s),
        CompiledNode::Binary { op, left, right } => Node::Binary { op: *op, left: b(left), right: b(right) },
        CompiledNode::Unary { op, operand } => Node::Unary { op: *op, operand: b(operand) },
        CompiledNode::Function { kind, args } => Node::Function { kind: *kind, args: args.iter().map(view_node).collect() },
        CompiledNode::Sum { index, lower, upper, body } => {
            Node::Sum { index: *index, lower: *lower, upper: *upper, body: b(body) }
        }
        CompiledNode::Product { index, lower, upper, body } => {
            Node::Product { index: *index, lower: *lower, upper: *upper, body: b(body) }
        }
    }
}

/// A compiled expression as seen from outside: its tree, its argument
/// names and its complex flag.
#[derive(Debug)]
struct Folded {
    root: Node,
    argument_names: Vec<String>,
    complex: bool,
}

impl Folded {
    fn argument_names(&self) -> &[String] {
        &self.argument_names
    }

    fn is_complex(&self) -> bool {
        self.complex
    }
}

fn view(c: &CompiledExpr) -> Folded {
    Folded { root: view_node(c.root()), argument_names: c.argument_names().to_vec(), complex: c.is_complex() }
}

fn fold(ast: &Expr, constants: &HashMap<&str, NumericResult>) -> Result<Folded, CompileError> {
    let cs: Vec<(String, NumericValue)> = constants.iter().map(|(k, v)| (k.to_string(), v.value())).collect();
    mathlex_eval::fold::fold(ast, &cs, &backend).map(|c| view(&c))
}



fn empty_constants() -> HashMap<&'static str, NumericResult> {
    HashMap::new()
}

#[test]
fn fold_tests_fold_integer_literal() {
    let expr = fold(&integer(42), &empty_constants()).unwrap();
    assert!(matches!(expr.root, Node::Literal(v) if v == 42.0));
    assert!(expr.argument_names.is_empty());
}

#[test]
fn fold_tests_fold_float_literal() {
    let expr = fold(&float(2.75), &empty_constants()).unwrap();
    assert!(matches!(expr.root, Node::Literal(v) if (v - 2.75).abs() < 1e-10));
}

#[test]
fn fold_tests_fold_variable_becomes_argument() {
    let expr = fold(&var("x"), &empty_constants()).unwrap();
    assert!(matches!(expr.root, Node::Argument(0)));
    assert_eq!(expr.argument_names(), &["x"]);
}

#[test]
fn fold_tests_fold_two_variables_get_distinct_indices() {
    let ast = Expr::Binary {
        op: BinaryOp::Add,
        left: Box::new(var("x")),
        right: Box::new(var("y")),
    };
    let expr = fold(&ast, &empty_constants()).unwrap();
    assert_eq!(expr.argument_names(), &["x", "y"]);
}

#[test]
fn fold_tests_fold_same_variable_reuses_index() {
    let ast = Expr::Binary {
        op: BinaryOp::Add,
        left: Box::new(var("x")),
        right: Box::new(var("x")),
    };
    let expr = fold(&ast, &empty_constants()).unwrap();
    assert_eq!(expr.argument_names(), &["x"]);
}

#[test]
fn fold_tests_fold_constant_substitution() {
    let mut constants = HashMap::new();
    constants.insert("a", NumericResult::Real(5.0));
    let expr = fold(&var("a"), &constants).unwrap();
    assert!(matches!(expr.root, Node::Literal(v) if v == 5.0));
    assert!(expr.argument_names.is_empty());
}

#[test]
fn fold_tests_fold_pi_constant() {
    let ast = Expr::Constant(MathConstant::Pi);
    let expr = fold(&ast, &empty_constants()).unwrap();
    if let Node::Literal(v) = expr.root {
        assert_close(v, std::f64::consts::PI, 1e-15);
    } else {
        panic!("expected literal");
    }
}

#[test]
fn fold_tests_fold_e_constant() {
    let ast = Expr::Constant(MathConstant::E);
    let expr = fold(&ast, &empty_constants()).unwrap();
    if let Node::Literal(v) = expr.root {
        assert_close(v, std::f64::consts::E, 1e-15);
    } else {
        panic!("expected literal");
    }
}

#[test]
fn fold_tests_fold_imaginary_unit() {
    let ast = Expr::Constant(MathConstant::I);
    let expr = fold(&ast, &empty_constants()).unwrap();
    assert!(matches!(
        expr.root,
        Node::ComplexLiteral { re, im } if re == 0.0 && im == 1.0
    ));
    assert!(expr.is_complex());
}

#[test]
fn fold_tests_fold_constant_expression_folded() {
    let ast = Expr::Binary {
        op: BinaryOp::Mul,
        left: Box::new(integer(2)),
        right: Box::new(Expr::Constant(MathConstant::Pi)),
    };
    let expr = fold(&ast, &empty_constants()).unwrap();
    if let Node::Literal(v) = expr.root {
        assert_close(v, 2.0 * std::f64::consts::PI, 1e-15);
    } else {
        panic!("expected folded literal, got {:?}", expr.root);
    }
}

#[test]
fn fold_tests_fold_mixed_constant_variable_not_folded() {
    let ast = Expr::Binary {
        op: BinaryOp::Add,
        left: Box::new(var("x")),
        right: Box::new(integer(1)),
    };
    let expr = fold(&ast, &empty_constants()).unwrap();
    assert!(matches!(expr.root, Node::Binary { .. }));
}

#[test]
fn fold_tests_fold_division_by_zero_error() {
    let ast = Expr::Binary {
        op: BinaryOp::Div,
        left: Box::new(integer(1)),
        right: Box::new(integer(0)),
    };
    let err = fold(&ast, &empty_constants()).unwrap_err();
    assert!(matches!(err, CompileError::DivisionByZero));
}

#[test]
fn fold_tests_fold_unknown_function_error() {
    let ast = Expr::Function {
        name: "foobar".into(),
        args: vec![integer(1)],
    };
    let err = fold(&ast, &empty_constants()).unwrap_err();
    assert!(matches!(err, CompileError::UnknownFunction { .. }));
}

#[test]
fn fold_tests_fold_arity_mismatch_error() {
    let ast = Expr::Function {
        name: "sin".into(),
        args: vec![integer(1), integer(2)],
    };
    let err = fold(&ast, &empty_constants()).unwrap_err();
    assert!(matches!(err, CompileError::ArityMismatch { .. }));
}

#[test]
fn fold_tests_fold_sum_basic() {
    let ast = sum("k", integer(1), integer(5), var("k"));
    let expr = fold(&ast, &empty_constants()).unwrap();
    assert!(matches!(
        expr.root,
        Node::Sum {
            lower: 1,
            upper: 5,
            ..
        }
    ));
    assert!(expr.argument_names.is_empty());
}

#[test]
fn fold_tests_fold_sum_index_shadows_variable() {
    let ast = Expr::Binary {
        op: BinaryOp::Add,
        left: Box::new(var("x")),
        right: Box::new(sum("x", integer(1), integer(3), var("x"))),
    };
    let expr = fold(&ast, &empty_constants()).unwrap();
    assert_eq!(expr.argument_names(), &["x"]);
    if let Node::Binary { right, .. } = &expr.root {
        if let Node::Sum { body, .. } = right.as_ref() {
            assert!(matches!(body.as_ref(), Node::Index(_)));
        } else {
            panic!("expected Sum");
        }
    } else {
        panic!("expected Binary");
    }
}

#[test]
fn fold_tests_fold_sum_non_integer_bounds_error() {
    let ast = sum("k", float(1.5), integer(5), var("k"));
    let err = fold(&ast, &empty_constants()).unwrap_err();
    assert!(matches!(err, CompileError::NonIntegerBounds { .. }));
}

#[test]
fn fold_tests_fold_rational() {
    let ast = Expr::Rational {
        numerator: Box::new(integer(3)),
        denominator: Box::new(integer(4)),
    };
    let expr = fold(&ast, &empty_constants()).unwrap();
    if let Node::Literal(v) = expr.root {
        assert_close(v, 0.75, 1e-15);
    } else {
        panic!("expected folded literal");
    }
}

#[test]
fn fold_tests_fold_function_with_literal_args_folded() {
    let ast = Expr::Function {
        name: "sin".into(),
        args: vec![integer(0)],
    };
    let expr = fold(&ast, &empty_constants()).unwrap();
    if let Node::Literal(v) = expr.root {
        assert_close(v, 0.0, 1e-15);
    } else {
        panic!("expected folded literal");
    }
}

#[test]
fn fold_tests_fold_function_with_variable_args_not_folded() {
    let ast = Expr::Function {
        name: "sin".into(),
        args: vec![var("x")],
    };
    let expr = fold(&ast, &empty_constants()).unwrap();
    assert!(matches!(expr.root, Node::Function { .. }));
}

#[test]
fn fold_tests_fold_factorial() {
    let ast = Expr::Unary {
        op: UnaryOp::Factorial,
        operand: Box::new(integer(5)),
    };
    let expr = fold(&ast, &empty_constants()).unwrap();
    if let Node::Literal(v) = expr.root {
        assert_close(v, 120.0, 1e-10);
    } else {
        panic!("expected folded literal");
    }
}

#[test]
fn fold_tests_fold_negation() {
    let ast = Expr::Unary {
        op: UnaryOp::Neg,
        operand: Box::new(integer(5)),
    };
    let expr = fold(&ast, &empty_constants()).unwrap();
    assert!(matches!(expr.root, Node::Literal(v) if v == -5.0));
}

#[test]
fn fold_tests_fold_pos_is_identity() {
    let ast = Expr::Unary {
        op: UnaryOp::Pos,
        operand: Box::new(integer(5)),
    };
    let expr = fold(&ast, &empty_constants()).unwrap();
    assert!(matches!(expr.root, Node::Literal(v) if v == 5.0));
}

#[test]
fn fold_tests_fold_complex_constant_sets_flag() {
    let mut constants = HashMap::new();
    constants.insert(
        "z",
        NumericResult::Complex(num_complex::Complex::new(1.0, 2.0)),
    );
    let expr = fold(&var("z"), &constants).unwrap();
    assert!(expr.is_complex());
}
