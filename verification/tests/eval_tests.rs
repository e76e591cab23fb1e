//! Evaluation through the public interface: arithmetic, built-in functions, sums, products and argument errors.
#![allow(dead_code, unused_imports)]
use std::collections::HashMap;

use ndarray::ArrayD;
use num_complex::Complex;

use mathlex_eval::ast::{integer, var, AstBinaryOp as BinaryOp, AstUnaryOp as UnaryOp, Expr, MathConstant, UnsupportedKind};
use mathlex_eval::broadcasting::ResolvedArg;
use mathlex_eval::ir::{BinaryOp as Op, BuiltinFn, CompiledNode, UnaryOp as UOp};
use mathlex_eval::number::{NumericOp, NumericReply, NumericValue};
use mathlex_eval::{CompileError, CompiledExpr, EvalError};

// ---------------------------------------------------------------------------
// A binary64 numeric backend and the float-level interface over the library
// ---------------------------------------------------------------------------

#[derive(Debug, Clone, Copy, PartialEq)]
enum NumericResult {
    Real(f64),
    Complex(Complex<f64>),
}

impl NumericResult {
    fn is_complex(&self) -> bool {
        matches!(self, NumericResult::Complex(_))
    }

    fn to_complex(self) -> Complex<f64> {
        match self {
            NumericResult::Real(r) => Complex::new(r, 0.0),
            NumericResult::Complex(c) => c,
        }
    }

    fn to_f64(self) -> Option<f64> {
        match self {
            NumericResult::Real(r) => Some(r),
            NumericResult::Complex(_) => None,
        }
    }

    fn simplify(self) -> NumericResult {
        match self {
            NumericResult::Complex(c) if c.im.abs() < 1e-15 => NumericResult::Real(c.re),
            other => other,
        }
    }

    fn from_value(v: NumericValue) -> NumericResult {
        match v {
            NumericValue::Real(b) => NumericResult::Real(f64::from_bits(b)),
            NumericValue::Complex { re, im } => {
                NumericResult::Complex(Complex::new(f64::from_bits(re), f64::from_bits(im)))
            }
        }
    }

    fn value(self) -> NumericValue {
        match self {
            NumericResult::Real(r) => NumericValue::Real(r.to_bits()),
            NumericResult::Complex(c) => NumericValue::Complex { re: c.re.to_bits(), im: c.im.to_bits() },
        }
    }
}

fn arith(op: Op, a: NumericResult, b: NumericResult) -> NumericResult {
    match (op, a, b) {
        (Op::Add, NumericResult::Real(x), NumericResult::Real(y)) => NumericResult::Real(x + y),
        (Op::Sub, NumericResult::Real(x), NumericResult::Real(y)) => NumericResult::Real(x - y),
        (Op::Mul, NumericResult::Real(x), NumericResult::Real(y)) => NumericResult::Real(x * y),
        (Op::Div, NumericResult::Real(x), NumericResult::Real(y)) => NumericResult::Real(x / y),
        (Op::Mod, NumericResult::Real(x), NumericResult::Real(y)) => NumericResult::Real(x % y),
        (Op::Mod, _, _) => NumericResult::Real(f64::NAN),
        (Op::Pow, NumericResult::Real(x), NumericResult::Real(y)) => {
            let r = x.powf(y);
            if r.is_nan() && x < 0.0 {
                NumericResult::Complex(Complex::new(x, 0.0).powc(Complex::new(y, 0.0))).simplify()
            } else {
                NumericResult::Real(r)
            }
        }
        (Op::Add, a, b) => NumericResult::Complex(a.to_complex() + b.to_complex()).simplify(),
        (Op::Sub, a, b) => NumericResult::Complex(a.to_complex() - b.to_complex()).simplify(),
        (Op::Mul, a, b) => NumericResult::Complex(a.to_complex() * b.to_complex()).simplify(),
        (Op::Div, a, b) => NumericResult::Complex(a.to_complex() / b.to_complex()).simplify(),
        (Op::Pow, a, b) => NumericResult::Complex(a.to_complex().powc(b.to_complex())).simplify(),
    }
}

fn unary(a: NumericResult, f: fn(f64) -> f64, g: fn(Complex<f64>) -> Complex<f64>) -> NumericResult {
    match a {
        NumericResult::Real(r) => NumericResult::Real(f(r)),
        NumericResult::Complex(c) => NumericResult::Complex(g(c)).simplify(),
    }
}

fn promote(a: NumericResult, f: fn(f64) -> f64, g: fn(Complex<f64>) -> Complex<f64>) -> NumericResult {
    match a {
        NumericResult::Real(r) if !f(r).is_nan() => NumericResult::Real(f(r)),
        other => NumericResult::Complex(g(other.to_complex())).simplify(),
    }
}

fn real_only(a: NumericResult, f: fn(f64) -> f64) -> NumericResult {
    NumericResult::Real(f(a.to_complex().re))
}

fn real_only2(a: NumericResult, b: NumericResult, f: fn(f64, f64) -> f64) -> NumericResult {
    NumericResult::Real(f(a.to_complex().re, b.to_complex().re))
}

fn apply(kind: BuiltinFn, a: NumericResult, b: NumericResult) -> NumericResult {
    match kind {
        BuiltinFn::Sin => unary(a, f64::sin, Complex::sin),
        BuiltinFn::Cos => unary(a, f64::cos, Complex::cos),
        BuiltinFn::Tan => unary(a, f64::tan, Complex::tan),
        BuiltinFn::Asin => promote(a, f64::asin, Complex::asin),
        BuiltinFn::Acos => promote(a, f64::acos, Complex::acos),
        BuiltinFn::Atan => unary(a, f64::atan, Complex::atan),
        BuiltinFn::Sinh => unary(a, f64::sinh, Complex::sinh),
        BuiltinFn::Cosh => unary(a, f64::cosh, Complex::cosh),
        BuiltinFn::Tanh => unary(a, f64::tanh, Complex::tanh),
        BuiltinFn::Exp => unary(a, f64::exp, Complex::exp),
        BuiltinFn::Ln => promote(a, f64::ln, Complex::ln),
        BuiltinFn::Log2 => promote(a, f64::log2, |c| c.ln() / 2.0_f64.ln()),
        BuiltinFn::Log10 => promote(a, f64::log10, |c| c.ln() / 10.0_f64.ln()),
        BuiltinFn::Log => match (a, b) {
            (NumericResult::Real(base), NumericResult::Real(v)) => NumericResult::Real(v.log(base)),
            (base, v) => NumericResult::Complex(v.to_complex().ln() / base.to_complex().ln()).simplify(),
        },
        BuiltinFn::Sqrt => match a {
            NumericResult::Real(r) if r >= 0.0 => NumericResult::Real(r.sqrt()),
            NumericResult::Real(r) => NumericResult::Complex(Complex::new(0.0, (-r).sqrt())).simplify(),
            NumericResult::Complex(c) => NumericResult::Complex(c.sqrt()).simplify(),
        },
        BuiltinFn::Cbrt => unary(a, f64::cbrt, |c| c.powf(1.0 / 3.0)),
        BuiltinFn::Abs => match a {
            NumericResult::Real(r) => NumericResult::Real(r.abs()),
            NumericResult::Complex(c) => NumericResult::Real(c.norm()),
        },
        BuiltinFn::Floor => real_only(a, f64::floor),
        BuiltinFn::Ceil => real_only(a, f64::ceil),
        BuiltinFn::Round => real_only(a, f64::round),
        BuiltinFn::Atan2 => real_only2(a, b, f64::atan2),
        BuiltinFn::Min => real_only2(a, b, f64::min),
        BuiltinFn::Max => real_only2(a, b, f64::max),
    }
}

fn backend(op: NumericOp) -> NumericReply {
    let v = |r: NumericResult| NumericReply::Value(r.value());
    let n = NumericResult::from_value;
    match op {
        NumericOp::FromInteger(i) => v(NumericResult::Real(i as f64)),
        NumericOp::Binary(op, a, b) => v(arith(op, n(a), n(b))),
        NumericOp::Apply1(kind, a) => v(apply(kind, n(a), n(a))),
        NumericOp::Apply2(kind, a, b) => v(apply(kind, n(a), n(b))),
        NumericOp::Factorial(bits) => {
            let r = f64::from_bits(bits);
            let k = r as u64;
            if r < 0.0 || r != (k as f64) {
                NumericReply::NotInteger(format!("{}", r))
            } else {
                v(NumericResult::Real((1..=k).fold(1.0, |acc, i| acc * i as f64)))
            }
        }
        NumericOp::IntegerBound(bits) => {
            let x = f64::from_bits(bits);
            let rounded = x.round();
            NumericReply::Bound(if (x - rounded).abs() < 1e-10 { Some(rounded as i64) } else { None })
        }
    }
}

enum EvalInput {
    Scalar(f64),
    Complex(Complex<f64>),
    Array(ArrayD<f64>),
    ComplexArray(ArrayD<Complex<f64>>),
    Iter(Box<dyn Iterator<Item = f64>>),
    ComplexIter(Box<dyn Iterator<Item = Complex<f64>>>),
}

impl From<Vec<f64>> for EvalInput {
    fn from(v: Vec<f64>) -> Self {
        EvalInput::Array(ArrayD::from_shape_vec(vec![v.len()], v).unwrap())
    }
}

impl From<Vec<Complex<f64>>> for EvalInput {
    fn from(v: Vec<Complex<f64>>) -> Self {
        EvalInput::ComplexArray(ArrayD::from_shape_vec(vec![v.len()], v).unwrap())
    }
}

impl EvalInput {
    fn resolve(self) -> ResolvedArg {
        let r = |x: f64| NumericResult::Real(x).value();
        let c = |z: Complex<f64>| NumericResult::Complex(z).value();
        match self {
            EvalInput::Scalar(x) => ResolvedArg::Scalar(r(x)),
            EvalInput::Complex(z) => ResolvedArg::Scalar(c(z)),
            EvalInput::Array(a) => ResolvedArg::Array(a.iter().map(|x| r(*x)).collect()),
            EvalInput::ComplexArray(a) => ResolvedArg::Array(a.iter().map(|z| c(*z)).collect()),
            EvalInput::Iter(it) => ResolvedArg::Array(it.map(r).collect()),
            EvalInput::ComplexIter(it) => ResolvedArg::Array(it.map(c).collect()),
        }
    }
}

fn compile(ast: &Expr, constants: &HashMap<&str, NumericResult>) -> Result<CompiledExpr, CompileError> {
    let cs: Vec<(String, NumericValue)> = constants.iter().map(|(k, v)| (k.to_string(), v.value())).collect();
    mathlex_eval::compile(ast, &cs, &backend)
}

#[derive(Debug)]
struct EvalHandle(mathlex_eval::EvalHandle);

struct EvalIter(mathlex_eval::EvalIter);

fn eval(expr: &CompiledExpr, args: HashMap<&str, EvalInput>) -> Result<EvalHandle, EvalError> {
    let inputs = args.into_iter().map(|(k, v)| (k.to_string(), v.resolve())).collect();
    mathlex_eval::eval(expr, inputs).map(EvalHandle)
}

impl EvalHandle {
    fn shape(&self) -> &[usize] {
        self.0.shape()
    }

    fn len(&self) -> usize {
        self.0.len()
    }

    fn is_empty(&self) -> bool {
        self.0.is_empty()
    }

    fn scalar(self) -> Result<NumericResult, EvalError> {
        self.0.scalar(&backend).map(NumericResult::from_value)
    }

    fn to_array(self) -> Result<ArrayD<NumericResult>, EvalError> {
        self.0.to_array(&backend).map(|a| a.array.mapv(NumericResult::from_value))
    }

    fn iter(self) -> EvalIter {
        EvalIter(self.0.iter())
    }
}

impl Iterator for EvalIter {
    type Item = Result<NumericResult, EvalError>;

    fn next(&mut self) -> Option<Self::Item> {
        self.0.next_result(&backend).map(|r| r.map(NumericResult::from_value))
    }
}

impl EvalIter {
    fn remaining(&self) -> usize {
        self.0.remaining()
    }
}

fn assert_close(actual: f64, expected: f64, epsilon: f64) {
    assert!(
        (actual - expected).abs() <= epsilon || actual == expected,
        "expected {expected} within {epsilon}, got {actual}"
    );
}



fn float(v: f64) -> Expr {
    Expr::Float(v.to_bits())
}

fn unsupported(kind: UnsupportedKind) -> Expr {
    Expr::Unsupported(kind)
}

fn sum(index: &str, lower: Expr, upper: Expr, body: Expr) -> Expr {
    let (lower_text, upper_text) = (format!("{:?}", lower), format!("{:?}", upper));
    Expr::Sum {
        index: index.to_string(),
        lower: Box::new(lower),
        upper: Box::new(upper),
        body: Box::new(body),
        lower_text,
        upper_text,
    }
}

fn product(index: &str, lower: Expr, upper: Expr, body: Expr) -> Expr {
    let (lower_text, upper_text) = (format!("{:?}", lower), format!("{:?}", upper));
    Expr::Product {
        index: index.to_string(),
        lower: Box::new(lower),
        upper: Box::new(upper),
        body: Box::new(body),
        lower_text,
        upper_text,
    }
}

fn no_constants() -> HashMap<&'static str, NumericResult> {
    HashMap::new()
}



// ---------------------------------------------------------------------------
// AST builder helpers
// ---------------------------------------------------------------------------

fn binop(op: BinaryOp, left: Expr, right: Expr) -> Expr {
    Expr::Binary {
        op,
        left: Box::new(left),
        right: Box::new(right),
    }
}

fn func(name: &str, args: Vec<Expr>) -> Expr {
    Expr::Function {
        name: name.into(),
        args,
    }
}

/// Compile `ast`, evaluate with `args`, and return the scalar result.
fn eval_scalar(
    ast: &Expr,
    args: HashMap<&str, EvalInput>,
) -> Result<NumericResult, EvalError> {
    let compiled = compile(ast, &no_constants()).expect("compile failed");
    let handle = eval(&compiled, args)?;
    handle.scalar()
}

/// Evaluate a no-argument AST directly (compile-time constants only).
fn eval_const(ast: &Expr) -> f64 {
    let compiled = compile(ast, &no_constants()).expect("compile failed");
    let handle = eval(&compiled, HashMap::new()).expect("eval failed");
    handle
        .scalar()
        .expect("scalar failed")
        .to_f64()
        .expect("expected real result")
}

/// Build `args` for a single variable.
fn args1(name: &str, v: f64) -> HashMap<&str, EvalInput> {
    let mut m = HashMap::new();
    m.insert(name, EvalInput::Scalar(v));
    m
}

/// Build `args` for two variables.
fn args2<'a>(n1: &'a str, v1: f64, n2: &'a str, v2: f64) -> HashMap<&'a str, EvalInput> {
    let mut m = HashMap::new();
    m.insert(n1, EvalInput::Scalar(v1));
    m.insert(n2, EvalInput::Scalar(v2));
    m
}

// ---------------------------------------------------------------------------
// 1. Arithmetic: add, sub, mul, div, pow, mod
// ---------------------------------------------------------------------------

#[test]
fn arithmetic_add() {
    // x + y with x=3, y=4 → 7
    let ast = binop(BinaryOp::Add, var("x"), var("y"));
    let result = eval_scalar(&ast, args2("x", 3.0, "y", 4.0)).unwrap();
    assert_close(result.to_f64().unwrap(), 7.0, 1e-10);
}

#[test]
fn arithmetic_sub() {
    // x - y with x=10, y=3 → 7
    let ast = binop(BinaryOp::Sub, var("x"), var("y"));
    let result = eval_scalar(&ast, args2("x", 10.0, "y", 3.0)).unwrap();
    assert_close(result.to_f64().unwrap(), 7.0, 1e-10);
}

#[test]
fn arithmetic_mul() {
    // x * y with x=6, y=7 → 42
    let ast = binop(BinaryOp::Mul, var("x"), var("y"));
    let result = eval_scalar(&ast, args2("x", 6.0, "y", 7.0)).unwrap();
    assert_close(result.to_f64().unwrap(), 42.0, 1e-10);
}

#[test]
fn arithmetic_div() {
    // x / y with x=15, y=4 → 3.75
    let ast = binop(BinaryOp::Div, var("x"), var("y"));
    let result = eval_scalar(&ast, args2("x", 15.0, "y", 4.0)).unwrap();
    assert_close(result.to_f64().unwrap(), 3.75, 1e-10);
}

#[test]
fn arithmetic_pow() {
    // x ^ y with x=2, y=10 → 1024
    let ast = binop(BinaryOp::Pow, var("x"), var("y"));
    let result = eval_scalar(&ast, args2("x", 2.0, "y", 10.0)).unwrap();
    assert_close(result.to_f64().unwrap(), 1024.0, 1e-10);
}

#[test]
fn arithmetic_mod() {
    // x % y with x=17, y=5 → 2
    let ast = binop(BinaryOp::Mod, var("x"), var("y"));
    let result = eval_scalar(&ast, args2("x", 17.0, "y", 5.0)).unwrap();
    assert_close(result.to_f64().unwrap(), 2.0, 1e-10);
}

// ---------------------------------------------------------------------------
// 2. Built-in functions against known values
// ---------------------------------------------------------------------------

#[test]
fn builtin_sin_pi_over_2() {
    // sin(π/2) = 1
    let ast = func(
        "sin",
        vec![binop(
            BinaryOp::Div,
            Expr::Constant(MathConstant::Pi),
            integer(2),
        )],
    );
    assert_close(eval_const(&ast), 1.0, 1e-10);
}

#[test]
fn builtin_cos_zero() {
    // cos(0) = 1
    let ast = func("cos", vec![integer(0)]);
    assert_close(eval_const(&ast), 1.0, 1e-10);
}

#[test]
fn builtin_exp_zero() {
    // exp(0) = 1
    let ast = func("exp", vec![integer(0)]);
    assert_close(eval_const(&ast), 1.0, 1e-10);
}

#[test]
fn builtin_exp_one() {
    // exp(1) = e
    let ast = func("exp", vec![integer(1)]);
    assert_close(eval_const(&ast), std::f64::consts::E, 1e-10);
}

#[test]
fn builtin_ln_e() {
    // ln(e) = 1
    let ast = func("ln", vec![Expr::Constant(MathConstant::E)]);
    assert_close(eval_const(&ast), 1.0, 1e-10);
}

#[test]
fn builtin_sqrt_four() {
    // sqrt(4) = 2
    let ast = func("sqrt", vec![integer(4)]);
    assert_close(eval_const(&ast), 2.0, 1e-10);
}

#[test]
fn builtin_abs_negative() {
    // abs(-5) = 5
    let ast = func(
        "abs",
        vec![Expr::Unary {
            op: UnaryOp::Neg,
            operand: Box::new(integer(5)),
        }],
    );
    assert_close(eval_const(&ast), 5.0, 1e-10);
}

#[test]
fn builtin_floor() {
    // floor(3.7): build as floor(x) with x = 3.7
    let ast = func("floor", vec![var("x")]);
    let compiled = compile(&ast, &no_constants()).unwrap();
    let handle = eval(&compiled, args1("x", 3.7)).unwrap();
    let result = handle.scalar().unwrap().to_f64().unwrap();
    assert_close(result, 3.0, 1e-10);
}

#[test]
fn builtin_ceil() {
    // ceil(3.2): build as ceil(x) with x = 3.2
    let ast = func("ceil", vec![var("x")]);
    let compiled = compile(&ast, &no_constants()).unwrap();
    let handle = eval(&compiled, args1("x", 3.2)).unwrap();
    let result = handle.scalar().unwrap().to_f64().unwrap();
    assert_close(result, 4.0, 1e-10);
}

#[test]
fn builtin_log2_eight() {
    // log2(8) = 3
    let ast = func("log2", vec![integer(8)]);
    assert_close(eval_const(&ast), 3.0, 1e-10);
}

#[test]
fn builtin_log10_thousand() {
    // log10(1000) = 3
    let ast = func("log10", vec![integer(1000)]);
    assert_close(eval_const(&ast), 3.0, 1e-10);
}

// ---------------------------------------------------------------------------
// 3. Rational: 3/4 → 0.75
// ---------------------------------------------------------------------------

#[test]
fn rational_three_quarters() {
    let ast = Expr::Rational {
        numerator: Box::new(integer(3)),
        denominator: Box::new(integer(4)),
    };
    assert_close(eval_const(&ast), 0.75, 1e-15);
}

// ---------------------------------------------------------------------------
// 4. Nested: sin(x^2 + 1) with x=0 → sin(1)
// ---------------------------------------------------------------------------

#[test]
fn nested_sin_x_squared_plus_one() {
    let x_sq = binop(BinaryOp::Pow, var("x"), integer(2));
    let inner = binop(BinaryOp::Add, x_sq, integer(1));
    let ast = func("sin", vec![inner]);
    let result = eval_scalar(&ast, args1("x", 0.0)).unwrap();
    assert_close(result.to_f64().unwrap(), 1.0_f64.sin(), 1e-10);
}

// ---------------------------------------------------------------------------
// 5. Sum: Σ_{k=1}^{5} k → 15
// ---------------------------------------------------------------------------

#[test]
fn sum_one_to_five() {
    let ast = sum("k", integer(1), integer(5), var("k"));
    assert_close(eval_const(&ast), 15.0, 1e-10);
}

// ---------------------------------------------------------------------------
// 6. Product: Π_{k=1}^{4} k → 24
// ---------------------------------------------------------------------------

#[test]
fn product_one_to_four() {
    let ast = product("k", integer(1), integer(4), var("k"));
    assert_close(eval_const(&ast), 24.0, 1e-10);
}

// ---------------------------------------------------------------------------
// 7. Division by zero → EvalError::DivisionByZero
// ---------------------------------------------------------------------------

#[test]
fn division_by_zero_at_eval_time() {
    // x / y compiled with y free; passing y=0 at eval time triggers EvalError
    let ast = binop(BinaryOp::Div, var("x"), var("y"));
    let compiled = compile(&ast, &no_constants()).unwrap();
    let handle = eval(&compiled, args2("x", 5.0, "y", 0.0)).unwrap();
    let err = handle.scalar().unwrap_err();
    assert!(
        matches!(err, EvalError::DivisionByZero),
        "expected DivisionByZero, got {err:?}"
    );
}

// ---------------------------------------------------------------------------
// 8. Unknown argument → EvalError::UnknownArgument
// ---------------------------------------------------------------------------

#[test]
fn unknown_argument_error() {
    // Compile x+1; pass z which is not expected
    let ast = binop(BinaryOp::Add, var("x"), integer(1));
    let compiled = compile(&ast, &no_constants()).unwrap();
    let mut extra_args = HashMap::new();
    extra_args.insert("x", EvalInput::Scalar(1.0));
    extra_args.insert("z", EvalInput::Scalar(2.0));
    let err = eval(&compiled, extra_args).unwrap_err();
    assert!(
        matches!(err, EvalError::UnknownArgument { .. }),
        "expected UnknownArgument, got {err:?}"
    );
}

// ---------------------------------------------------------------------------
// 9. Missing argument → EvalError::MissingArgument
// ---------------------------------------------------------------------------

#[test]
fn missing_argument_error() {
    // Compile x + y; provide only x
    let ast = binop(BinaryOp::Add, var("x"), var("y"));
    let compiled = compile(&ast, &no_constants()).unwrap();
    let err = eval(&compiled, args1("x", 1.0)).unwrap_err();
    assert!(
        matches!(err, EvalError::MissingArgument { .. }),
        "expected MissingArgument, got {err:?}"
    );
}
