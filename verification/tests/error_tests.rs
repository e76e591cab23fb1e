//! Every compile and evaluation error variant, reached through the public interface.
#![allow(dead_code, unused_imports)]
use std::collections::HashMap;

use ndarray::ArrayD;
use num_complex::Complex;

use mathlex_eval::ast::{integer, var, AstBinaryOp as BinaryOp, AstUnaryOp as UnaryOp, Expr, MathConstant, UnsupportedKind};
use mathlex_eval::broadcasting::ResolvedArg;
use mathlex_eval::ir::{BinaryOp as Op, BuiltinFn, CompiledNode, UnaryOp as UOp};
use mathlex_eval::number::{NumericOp, NumericReply, NumericValue};
use mathlex_eval::{CompileError, CompiledExpr, EvalError};

// ---------------------------------------------------------------------------
// A binary64 numeric backend and the float-level interface over the library
// ---------------------------------------------------------------------------

#[derive(Debug, Clone, Copy, PartialEq)]
enum NumericResult {
    Real(f64),
    Complex(Complex<f64>),
}

impl NumericResult {
    fn is_complex(&self) -> bool {
        matches!(self, NumericResult::Complex(_))
    }

    fn to_complex(self) -> Complex<f64> {
        match self {
            NumericResult::Real(r) => Complex::new(r, 0.0),
            NumericResult::Complex(c) => c,
        }
    }

    fn to_f64(self) -> Option<f64> {
        match self {
            NumericResult::Real(r) => Some(r),
            NumericResult::Complex(_) => None,
        }
    }

    fn simplify(self) -> NumericResult {
        match self {
            NumericResult::Complex(c) if c.im.abs() < 1e-15 => NumericResult::Real(c.re),
            other => other,
        }
    }

    fn from_value(v: NumericValue) -> NumericResult {
        match v {
            NumericValue::Real(b) => NumericResult::Real(f64::from_bits(b)),
            NumericValue::Complex { re, im } => {
                NumericResult::Complex(Complex::new(f64::from_bits(re), f64::from_bits(im)))
            }
        }
    }

    fn value(self) -> NumericValue {
        match self {
            NumericResult::Real(r) => NumericValue::Real(r.to_bits()),
            NumericResult::Complex(c) => NumericValue::Complex { re: c.re.to_bits(), im: c.im.to_bits() },
        }
    }
}

fn arith(op: Op, a: NumericResult, b: NumericResult) -> NumericResult {
    match (op, a, b) {
        (Op::Add, NumericResult::Real(x), NumericResult::Real(y)) => NumericResult::Real(x + y),
        (Op::Sub, NumericResult::Real(x), NumericResult::Real(y)) => NumericResult::Real(x - y),
        (Op::Mul, NumericResult::Real(x), NumericResult::Real(y)) => NumericResult::Real(x * y),
        (Op::Div, NumericResult::Real(x), NumericResult::Real(y)) => NumericResult::Real(x / y),
        (Op::Mod, NumericResult::Real(x), NumericResult::Real(y)) => NumericResult::Real(x % y),
        (Op::Mod, _, _) => NumericResult::Real(f64::NAN),
        (Op::Pow, NumericResult::Real(x), NumericResult::Real(y)) => {
            let r = x.powf(y);
            if r.is_nan() && x < 0.0 {
                NumericResult::Complex(Complex::new(x, 0.0).powc(Complex::new(y, 0.0))).simplify()
            } else {
                NumericResult::Real(r)
            }
        }
        (Op::Add, a, b) => NumericResult::Complex(a.to_complex() + b.to_complex()).simplify(),
        (Op::Sub, a, b) => NumericResult::Complex(a.to_complex() - b.to_complex()).simplify(),
        (Op::Mul, a, b) => NumericResult::Complex(a.to_complex() * b.to_complex()).simplify(),
        (Op::Div, a, b) => NumericResult::Complex(a.to_complex() / b.to_complex()).simplify(),
        (Op::Pow, a, b) => NumericResult::Complex(a.to_complex().powc(b.to_complex())).simplify(),
    }
}

fn unary(a: NumericResult, f: fn(f64) -> f64, g: fn(Complex<f64>) -> Complex<f64>) -> NumericResult {
    match a {
        NumericResult::Real(r) => NumericResult::Real(f(r)),
        NumericResult::Complex(c) => NumericResult::Complex(g(c)).simplify(),
    }
}

fn promote(a: NumericResult, f: fn(f64) -> f64, g: fn(Complex<f64>) -> Complex<f64>) -> NumericResult {
    match a {
        NumericResult::Real(r) if !f(r).is_nan() => NumericResult::Real(f(r)),
        other => NumericResult::Complex(g(other.to_complex())).simplify(),
    }
}

fn real_only(a: NumericResult, f: fn(f64) -> f64) -> NumericResult {
    NumericResult::Real(f(a.to_complex().re))
}

fn real_only2(a: NumericResult, b: NumericResult, f: fn(f64, f64) -> f64) -> NumericResult {
    NumericResult::Real(f(a.to_complex().re, b.to_complex().re))
}

fn apply(kind: BuiltinFn, a: NumericResult, b: NumericResult) -> NumericResult {
    match kind {
        BuiltinFn::Sin => unary(a, f64::sin, Complex::sin),
        BuiltinFn::Cos => unary(a, f64::cos, Complex::cos),
        BuiltinFn::Tan => unary(a, f64::tan, Complex::tan),
        BuiltinFn::Asin => promote(a, f64::asin, Complex::asin),
        BuiltinFn::Acos => promote(a, f64::acos, Complex::acos),
        BuiltinFn::Atan => unary(a, f64::atan, Complex::atan),
        BuiltinFn::Sinh => unary(a, f64::sinh, Complex::sinh),
        BuiltinFn::Cosh => unary(a, f64::cosh, Complex::cosh),
        BuiltinFn::Tanh => unary(a, f64::tanh, Complex::tanh),
        BuiltinFn::Exp => unary(a, f64::exp, Complex::exp),
        BuiltinFn::Ln => promote(a, f64::ln, Complex::ln),
        BuiltinFn::Log2 => promote(a, f64::log2, |c| c.ln() / 2.0_f64.ln()),
        BuiltinFn::Log10 => promote(a, f64::log10, |c| c.ln() / 10.0_f64.ln()),
        BuiltinFn::Log => match (a, b) {
            (NumericResult::Real(base), NumericResult::Real(v)) => NumericResult::Real(v.log(base)),
            (base, v) => NumericResult::Complex(v.to_complex().ln() / base.to_complex().ln()).simplify(),
        },
        BuiltinFn::Sqrt => match a {
            NumericResult::Real(r) if r >= 0.0 => NumericResult::Real(r.sqrt()),
            NumericResult::Real(r) => NumericResult::Complex(Complex::new(0.0, (-r).sqrt())).simplify(),
            NumericResult::Complex(c) => NumericResult::Complex(c.sqrt()).simplify(),
        },
        BuiltinFn::Cbrt => unary(a, f64::cbrt, |c| c.powf(1.0 / 3.0)),
        BuiltinFn::Abs => match a {
            NumericResult::Real(r) => NumericResult::Real(r.abs()),
            NumericResult::Complex(c) => NumericResult::Real(c.norm()),
        },
        BuiltinFn::Floor => real_only(a, f64::floor),
        BuiltinFn::Ceil => real_only(a, f64::ceil),
        BuiltinFn::Round => real_only(a, f64::round),
        BuiltinFn::Atan2 => real_only2(a, b, f64::atan2),
        BuiltinFn::Min => real_only2(a, b, f64::min),
        BuiltinFn::Max => real_only2(a, b, f64::max),
    }
}

fn backend(op: NumericOp) -> NumericReply {
    let v = |r: NumericResult| NumericReply::Value(r.value());
    let n = NumericResult::from_value;
    match op {
        NumericOp::FromInteger(i) => v(NumericResult::Real(i as f64)),
        NumericOp::Binary(op, a, b) => v(arith(op, n(a), n(b))),
        NumericOp::Apply1(kind, a) => v(apply(kind, n(a), n(a))),
        NumericOp::Apply2(kind, a, b) => v(apply(kind, n(a), n(b))),
        NumericOp::Factorial(bits) => {
            let r = f64::from_bits(bits);
            let k = r as u64;
            if r < 0.0 || r != (k as f64) {
                NumericReply::NotInteger(format!("{}", r))
            } else {
                v(NumericResult::Real((1..=k).fold(1.0, |acc, i| acc * i as f64)))
            }
        }
        NumericOp::IntegerBound(bits) => {
            let x = f64::from_bits(bits);
            let rounded = x.round();
            NumericReply::Bound(if (x - rounded).abs() < 1e-10 { Some(rounded as i64) } else { None })
        }
    }
}

enum EvalInput {
    Scalar(f64),
    Complex(Complex<f64>),
    Array(ArrayD<f64>),
    ComplexArray(ArrayD<Complex<f64>>),
    Iter(Box<dyn Iterator<Item = f64>>),
    ComplexIter(Box<dyn Iterator<Item = Complex<f64>>>),
}

impl From<Vec<f64>> for EvalInput {
    fn from(v: Vec<f64>) -> Self {
        EvalInput::Array(ArrayD::from_shape_vec(vec![v.len()], v).unwrap())
    }
}

impl From<Vec<Complex<f64>>> for EvalInput {
    fn from(v: Vec<Complex<f64>>) -> Self {
        EvalInput::ComplexArray(ArrayD::from_shape_vec(vec![v.len()], v).unwrap())
    }
}

impl EvalInput {
    fn resolve(self) -> ResolvedArg {
        let r = |x: f64| NumericResult::Real(x).value();
        let c = |z: Complex<f64>| NumericResult::Complex(z).value();
        match self {
            EvalInput::Scalar(x) => ResolvedArg::Scalar(r(x)),
            EvalInput::Complex(z) => ResolvedArg::Scalar(c(z)),
            EvalInput::Array(a) => ResolvedArg::Array(a.iter().map(|x| r(*x)).collect()),
            EvalInput::ComplexArray(a) => ResolvedArg::Array(a.iter().map(|z| c(*z)).collect()),
            EvalInput::Iter(it) => ResolvedArg::Array(it.map(r).collect()),
            EvalInput::ComplexIter(it) => ResolvedArg::Array(it.map(c).collect()),
        }
    }
}

fn compile(ast: &Expr, constants: &HashMap<&str, NumericResult>) -> Result<CompiledExpr, CompileError> {
    let cs: Vec<(String, NumericValue)> = constants.iter().map(|(k, v)| (k.to_string(), v.value())).collect();
    mathlex_eval::compile(ast, &cs, &backend)
}

#[derive(Debug)]
struct EvalHandle(mathlex_eval::EvalHandle);

struct EvalIter(mathlex_eval::EvalIter);

fn eval(expr: &CompiledExpr, args: HashMap<&str, EvalInput>) -> Result<EvalHandle, EvalError> {
    let inputs = args.into_iter().map(|(k, v)| (k.to_string(), v.resolve())).collect();
    mathlex_eval::eval(expr, inputs).map(EvalHandle)
}

impl EvalHandle {
    fn shape(&self) -> &[usize] {
        self.0.shape()
    }

    fn len(&self) -> usize {
        self.0.len()
    }

    fn is_empty(&self) -> bool {
        self.0.is_empty()
    }

    fn scalar(self) -> Result<NumericResult, EvalError> {
        self.0.scalar(&backend).map(NumericResult::from_value)
    }

    fn to_array(self) -> Result<ArrayD<NumericResult>, EvalError> {
        self.0.to_array(&backend).map(|a| a.array.mapv(NumericResult::from_value))
    }

    fn iter(self) -> EvalIter {
        EvalIter(self.0.iter())
    }
}

impl Iterator for EvalIter {
    type Item = Result<NumericResult, EvalError>;

    fn next(&mut self) -> Option<Self::Item> {
        self.0.next_result(&backend).map(|r| r.map(NumericResult::from_value))
    }
}

impl EvalIter {
    fn remaining(&self) -> usize {
        self.0.remaining()
    }
}

fn assert_close(actual: f64, expected: f64, epsilon: f64) {
    assert!(
        (actual - expected).abs() <= epsilon || actual == expected,
        "expected {expected} within {epsilon}, got {actual}"
    );
}



fn float(v: f64) -> Expr {
    Expr::Float(v.to_bits())
}

fn unsupported(kind: UnsupportedKind) -> Expr {
    Expr::Unsupported(kind)
}

fn sum(index: &str, lower: Expr, upper: Expr, body: Expr) -> Expr {
    let (lower_text, upper_text) = (format!("{:?}", lower), format!("{:?}", upper));
    Expr::Sum {
        index: index.to_string(),
        lower: Box::new(lower),
        upper: Box::new(upper),
        body: Box::new(body),
        lower_text,
        upper_text,
    }
}

fn product(index: &str, lower: Expr, upper: Expr, body: Expr) -> Expr {
    let (lower_text, upper_text) = (format!("{:?}", lower), format!("{:?}", upper));
    Expr::Product {
        index: index.to_string(),
        lower: Box::new(lower),
        upper: Box::new(upper),
        body: Box::new(body),
        lower_text,
        upper_text,
    }
}

fn no_constants() -> HashMap<&'static str, NumericResult> {
    HashMap::new()
}



// === CompileError variants ===

#[test]
fn compile_error_unsupported_vector() {
    let ast = unsupported(UnsupportedKind::Vector);
    let err = compile(&ast, &HashMap::new()).unwrap_err();
    match err {
        CompileError::UnsupportedExpression { variant, .. } => {
            assert_eq!(variant, "Vector");
        }
        _ => panic!("expected UnsupportedExpression, got {:?}", err),
    }
}

#[test]
fn compile_error_unsupported_matrix() {
    let ast = unsupported(UnsupportedKind::Matrix);
    let err = compile(&ast, &HashMap::new()).unwrap_err();
    match err {
        CompileError::UnsupportedExpression { variant, .. } => {
            assert_eq!(variant, "Matrix");
        }
        _ => panic!("expected UnsupportedExpression"),
    }
}

#[test]
fn compile_error_unsupported_derivative() {
    let ast = unsupported(UnsupportedKind::Derivative);
    let err = compile(&ast, &HashMap::new()).unwrap_err();
    assert!(matches!(err, CompileError::UnsupportedExpression { .. }));
}

#[test]
fn compile_error_unsupported_integral() {
    let ast = unsupported(UnsupportedKind::Integral);
    let err = compile(&ast, &HashMap::new()).unwrap_err();
    assert!(matches!(err, CompileError::UnsupportedExpression { .. }));
}

#[test]
fn compile_error_unsupported_nabla() {
    let err = compile(&unsupported(UnsupportedKind::Nabla), &HashMap::new()).unwrap_err();
    assert!(matches!(err, CompileError::UnsupportedExpression { .. }));
}

#[test]
fn compile_error_unsupported_empty_set() {
    let err = compile(&unsupported(UnsupportedKind::EmptySet), &HashMap::new()).unwrap_err();
    assert!(matches!(err, CompileError::UnsupportedExpression { .. }));
}

#[test]
fn compile_error_unsupported_plus_minus() {
    let ast = Expr::Binary {
        op: BinaryOp::PlusMinus,
        left: Box::new(integer(1)),
        right: Box::new(integer(2)),
    }
    .into();
    let err = compile(&ast, &HashMap::new()).unwrap_err();
    assert!(matches!(err, CompileError::UnsupportedExpression { .. }));
}

#[test]
fn compile_error_unsupported_transpose() {
    let ast = Expr::Unary {
        op: UnaryOp::Transpose,
        operand: Box::new(integer(1)),
    }
    .into();
    let err = compile(&ast, &HashMap::new()).unwrap_err();
    assert!(matches!(err, CompileError::UnsupportedExpression { .. }));
}

#[test]
fn compile_error_unknown_function() {
    let ast = Expr::Function {
        name: "nonexistent_fn".into(),
        args: vec![integer(1)],
    }
    .into();
    let err = compile(&ast, &HashMap::new()).unwrap_err();
    match err {
        CompileError::UnknownFunction { name } => {
            assert_eq!(name, "nonexistent_fn");
        }
        _ => panic!("expected UnknownFunction"),
    }
}

#[test]
fn compile_error_arity_mismatch() {
    let ast = Expr::Function {
        name: "sin".into(),
        args: vec![integer(1), integer(2)],
    }
    .into();
    let err = compile(&ast, &HashMap::new()).unwrap_err();
    match err {
        CompileError::ArityMismatch {
            function,
            expected,
            got,
        } => {
            assert_eq!(function, "sin");
            assert_eq!(expected, 1);
            assert_eq!(got, 2);
        }
        _ => panic!("expected ArityMismatch"),
    }
}

#[test]
fn compile_error_non_integer_bounds() {
    let ast = sum("k", float(1.5), integer(5), var("k"));
    let err = compile(&ast, &HashMap::new()).unwrap_err();
    assert!(matches!(err, CompileError::NonIntegerBounds { .. }));
}

#[test]
fn compile_error_division_by_zero() {
    let ast = Expr::Binary {
        op: BinaryOp::Div,
        left: Box::new(integer(1)),
        right: Box::new(integer(0)),
    }
    .into();
    let err = compile(&ast, &HashMap::new()).unwrap_err();
    assert!(matches!(err, CompileError::DivisionByZero));
}

#[test]
fn compile_error_quaternion_constant() {
    let ast = Expr::Constant(MathConstant::J);
    let err = compile(&ast, &HashMap::new()).unwrap_err();
    assert!(matches!(err, CompileError::UnsupportedExpression { .. }));
}

// === EvalError variants ===

#[test]
fn eval_error_unknown_argument() {
    let ast = Expr::Binary {
        op: BinaryOp::Add,
        left: Box::new(var("x")),
        right: Box::new(integer(1)),
    }
    .into();
    let compiled = compile(&ast, &HashMap::new()).unwrap();
    let mut args = HashMap::new();
    args.insert("x", EvalInput::Scalar(1.0));
    args.insert("z", EvalInput::Scalar(2.0));
    let err = eval(&compiled, args).unwrap_err();
    match err {
        EvalError::UnknownArgument { name } => assert_eq!(name, "z"),
        _ => panic!("expected UnknownArgument"),
    }
}

#[test]
fn eval_error_missing_argument() {
    let ast = Expr::Binary {
        op: BinaryOp::Add,
        left: Box::new(var("x")),
        right: Box::new(var("y")),
    }
    .into();
    let compiled = compile(&ast, &HashMap::new()).unwrap();
    let mut args = HashMap::new();
    args.insert("x", EvalInput::Scalar(1.0));
    let err = eval(&compiled, args).unwrap_err();
    match err {
        EvalError::MissingArgument { name } => assert_eq!(name, "y"),
        _ => panic!("expected MissingArgument"),
    }
}

#[test]
fn eval_error_division_by_zero() {
    let ast = Expr::Binary {
        op: BinaryOp::Div,
        left: Box::new(var("x")),
        right: Box::new(var("y")),
    }
    .into();
    let compiled = compile(&ast, &HashMap::new()).unwrap();
    let mut args = HashMap::new();
    args.insert("x", EvalInput::Scalar(5.0));
    args.insert("y", EvalInput::Scalar(0.0));
    let handle = eval(&compiled, args).unwrap();
    let err = handle.scalar().unwrap_err();
    assert!(matches!(err, EvalError::DivisionByZero));
}

#[test]
fn eval_error_shape_mismatch_scalar_on_array() {
    let ast = var("x");
    let compiled = compile(&ast, &HashMap::new()).unwrap();
    let mut args = HashMap::new();
    args.insert("x", EvalInput::from(vec![1.0, 2.0, 3.0]));
    let handle = eval(&compiled, args).unwrap();
    let err = handle.scalar().unwrap_err();
    assert!(matches!(err, EvalError::ShapeMismatch { .. }));
}

#[test]
fn eval_per_element_error_in_iterator() {
    // 1/x with x=[2, 0, 4] → [Ok(0.5), Err(DivByZero), Ok(0.25)]
    let ast = Expr::Binary {
        op: BinaryOp::Div,
        left: Box::new(integer(1)),
        right: Box::new(var("x")),
    }
    .into();
    let compiled = compile(&ast, &HashMap::new()).unwrap();
    let mut args = HashMap::new();
    args.insert("x", EvalInput::from(vec![2.0, 0.0, 4.0]));
    let handle = eval(&compiled, args).unwrap();
    let results: Vec<Result<NumericResult, EvalError>> = handle.iter().collect();
    assert!(results[0].is_ok());
    assert!(results[1].is_err());
    assert!(results[2].is_ok());
}
