//! Numeric values as carried by the library, and the numeric backend
//! interface through which floating-point arithmetic is performed.
//!
//! A real number is held as the IEEE-754 binary64 bit pattern of its value;
//! a complex number as the bit patterns of its real and imaginary parts.
//! The library itself never computes with these values: every arithmetic
//! step is delegated to a numeric backend, a closure handed in by the caller.
use vstd::prelude::*;
use crate::ir::{BinaryOp, BuiltinFn, UnaryOp};

verus! {

/// Bit pattern of `0.0`.
pub const ZERO_BITS: u64 = 0x0000_0000_0000_0000u64;
/// Bit pattern of `1.0`.
pub const ONE_BITS: u64 = 0x3ff0_0000_0000_0000u64;
/// Bit pattern of the sign bit alone (`-0.0`).
pub const SIGN_BIT: u64 = 0x8000_0000_0000_0000u64;
/// Bit pattern of π rounded to binary64.
pub const PI_BITS: u64 = 0x4009_21fb_5444_2d18u64;
/// Bit pattern of Euler's number e rounded to binary64.
pub const E_BITS: u64 = 0x4005_bf0a_8b14_5769u64;
/// Bit pattern of positive infinity.
pub const INFINITY_BITS: u64 = 0x7ff0_0000_0000_0000u64;
/// Bit pattern of negative infinity.
pub const NEG_INFINITY_BITS: u64 = 0xfff0_0000_0000_0000u64;
/// Bit pattern of the canonical quiet NaN.
pub const NAN_BITS: u64 = 0x7ff8_0000_0000_0000u64;

/// A real or complex number, held as binary64 bit patterns.
#[derive(Clone, Copy, Debug, PartialEq, Eq, Structural)]
pub enum NumericValue {
    Real(u64),
    Complex { re: u64, im: u64 },
}

impl NumericValue {
    /// Whether the value is complex.
    pub fn is_complex(&self) -> (r: bool)
        ensures
            r == (*self is Complex),
    {
        match self {
            NumericValue::Real(_) => false,
            NumericValue::Complex { .. } => true,
        }
    }
}

/// Whether a bit pattern is a zero (`0.0` or `-0.0`).
pub open spec fn is_zero_bits(b: u64) -> bool {
    b == ZERO_BITS || b == SIGN_BIT
}

/// The bit pattern of the negation of the value with bit pattern `b`:
/// the same pattern with the sign bit flipped.
pub open spec fn neg_bits(b: u64) -> u64 {
    if b >= SIGN_BIT { (b - SIGN_BIT) as u64 } else { (b + SIGN_BIT) as u64 }
}

/// Whether `v` is the real number zero (either sign).
pub open spec fn is_real_zero(v: NumericValue) -> bool {
    v matches NumericValue::Real(b) && is_zero_bits(b)
}

/// Negation of a value: the sign bit of every component flipped.
pub open spec fn spec_negate(v: NumericValue) -> NumericValue {
    match v {
        NumericValue::Real(b) => NumericValue::Real(neg_bits(b)),
        NumericValue::Complex { re, im } => NumericValue::Complex { re: neg_bits(re), im: neg_bits(im) },
    }
}

/// Flips the sign bit of a binary64 bit pattern.
pub fn negate_bits(b: u64) -> (r: u64)
    ensures
        r == neg_bits(b),
{
    if b >= SIGN_BIT { b - SIGN_BIT } else { b + SIGN_BIT }
}

/// Whether a bit pattern is a zero (`0.0` or `-0.0`).
pub fn bits_are_zero(b: u64) -> (r: bool)
    ensures
        r == is_zero_bits(b),
{
    b == ZERO_BITS || b == SIGN_BIT
}

/// Negates a value (real or complex).
pub fn negate(v: NumericValue) -> (r: NumericValue)
    ensures
        r == spec_negate(v),
{
    match v {
        NumericValue::Real(b) => NumericValue::Real(negate_bits(b)),
        NumericValue::Complex { re, im } => NumericValue::Complex { re: negate_bits(re), im: negate_bits(im) },
    }
}

/// Whether `v` is the real number zero (either sign).
pub fn value_is_real_zero(v: &NumericValue) -> (r: bool)
    ensures
        r == is_real_zero(*v),
{
    match v {
        NumericValue::Real(b) => bits_are_zero(*b),
        NumericValue::Complex { .. } => false,
    }
}

/// A floating-point step that the library asks its numeric backend to perform.
#[derive(Clone, Copy, Debug)]
pub enum NumericOp {
    /// The real number nearest to the integer.
    FromInteger(i64),
    /// A binary arithmetic operation (a division is never by a real zero).
    Binary(BinaryOp, NumericValue, NumericValue),
    /// A built-in function of one argument applied to it.
    Apply1(BuiltinFn, NumericValue),
    /// A built-in function of two arguments applied to them.
    Apply2(BuiltinFn, NumericValue, NumericValue),
    /// The factorial of the real number with the given bit pattern.
    Factorial(u64),
    /// The integer that the real number with the given bit pattern stands
    /// for when it is used as a sum or product bound, if any.
    IntegerBound(u64),
}

/// The backend's answer to a `NumericOp`.
#[derive(Debug)]
pub enum NumericReply {
    /// The computed value.
    Value(NumericValue),
    /// A factorial operand that is not a non-negative integer, rendered as text.
    NotInteger(String),
    /// The integer a bound stands for, or `None` when it is not an integer.
    Bound(Option<i64>),
}

/// Which replies answer which operations.
pub open spec fn reply_fits(op: NumericOp, r: NumericReply) -> bool {
    match op {
        NumericOp::Factorial(_) => r is Value || r is NotInteger,
        NumericOp::IntegerBound(_) => r is Bound,
        _ => r is Value,
    }
}

/// A numeric backend: a closure that answers every operation, the same way
/// each time it is asked, with a reply of the kind the operation calls for.
pub open spec fn is_backend<B: Fn(NumericOp) -> NumericReply>(b: B) -> bool {
    &&& forall|op: NumericOp| #[trigger] call_requires(b, (op,))
    &&& forall|op: NumericOp, r1: NumericReply, r2: NumericReply|
        call_ensures(b, (op,), r1) && call_ensures(b, (op,), r2) ==> r1 == r2
    &&& forall|op: NumericOp, r: NumericReply| #[trigger] call_ensures(b, (op,), r) ==> reply_fits(op, r)
}

/// The backend's answer to `op`.
pub open spec fn reply<B: Fn(NumericOp) -> NumericReply>(b: B, op: NumericOp) -> NumericReply {
    choose|r: NumericReply| call_ensures(b, (op,), r)
}

/// The value the backend computes for `op`.
pub open spec fn value_of<B: Fn(NumericOp) -> NumericReply>(b: B, op: NumericOp) -> NumericValue {
    match reply(b, op) {
        NumericReply::Value(v) => v,
        _ => NumericValue::Real(ZERO_BITS),
    }
}

/// Asks the backend to perform `op`.
pub fn ask<B: Fn(NumericOp) -> NumericReply>(b: &B, op: NumericOp) -> (r: NumericReply)
    requires
        is_backend(*b),
    ensures
        r == reply(*b, op),
        reply_fits(op, r),
{
    let r = b(op);
    assert(call_ensures(*b, (op,), r));
    r
}

/// Asks the backend for a value-producing operation.
pub fn compute<B: Fn(NumericOp) -> NumericReply>(b: &B, op: NumericOp) -> (v: NumericValue)
    requires
        is_backend(*b),
        !(op is Factorial || op is IntegerBound),
    ensures
        v == value_of(*b, op),
{
    match ask(b, op) {
        NumericReply::Value(v) => v,
        _ => NumericValue::Real(ZERO_BITS),
    }
}

/// The result of a binary operation on two values, or `None` for a
/// division by a real zero.
pub open spec fn spec_binary<B: Fn(NumericOp) -> NumericReply>(
    b: B,
    op: BinaryOp,
    l: NumericValue,
    r: NumericValue,
) -> Option<NumericValue> {
    if op == BinaryOp::Div && is_real_zero(r) {
        None
    } else {
        Some(value_of(b, NumericOp::Binary(op, l, r)))
    }
}

/// Why a unary operation has no value.
#[derive(Debug)]
pub enum UnaryFault {
    /// The factorial of a complex number.
    ComplexFactorial,
    /// The factorial of a real that is not a non-negative integer (rendered).
    NonInteger(String),
}

/// The model of a unary fault.
pub enum UnaryFaultView {
    ComplexFactorial,
    NonInteger(Seq<char>),
}

impl View for UnaryFault {
    type V = UnaryFaultView;

    open spec fn view(&self) -> UnaryFaultView {
        match self {
            UnaryFault::ComplexFactorial => UnaryFaultView::ComplexFactorial,
            UnaryFault::NonInteger(t) => UnaryFaultView::NonInteger(t@),
        }
    }
}

/// The result of a unary operation on a value.
pub open spec fn spec_unary<B: Fn(NumericOp) -> NumericReply>(
    b: B,
    op: UnaryOp,
    v: NumericValue,
) -> Result<NumericValue, UnaryFaultView> {
    match op {
        UnaryOp::Neg => Ok(spec_negate(v)),
        UnaryOp::Factorial => match v {
            NumericValue::Complex { .. } => Err(UnaryFaultView::ComplexFactorial),
            NumericValue::Real(bits) => match reply(b, NumericOp::Factorial(bits)) {
                NumericReply::Value(x) => Ok(x),
                NumericReply::NotInteger(t) => Err(UnaryFaultView::NonInteger(t@)),
                NumericReply::Bound(_) => Err(UnaryFaultView::ComplexFactorial),
            },
        },
    }
}

/// The value of a built-in function applied to one or two values.
pub open spec fn spec_apply<B: Fn(NumericOp) -> NumericReply>(
    b: B,
    kind: BuiltinFn,
    vals: Seq<NumericValue>,
) -> NumericValue {
    if vals.len() == 1 {
        value_of(b, NumericOp::Apply1(kind, vals[0]))
    } else {
        value_of(b, NumericOp::Apply2(kind, vals[0], vals[1]))
    }
}

/// Performs a binary operation; `None` for a division by a real zero.
pub fn apply_binary<B: Fn(NumericOp) -> NumericReply>(
    b: &B,
    op: BinaryOp,
    l: NumericValue,
    r: NumericValue,
) -> (res: Option<NumericValue>)
    requires
        is_backend(*b),
    ensures
        res == spec_binary(*b, op, l, r),
{
    if op == BinaryOp::Div && value_is_real_zero(&r) {
        None
    } else {
        Some(compute(b, NumericOp::Binary(op, l, r)))
    }
}

/// Performs a unary operation.
pub fn apply_unary<B: Fn(NumericOp) -> NumericReply>(
    b: &B,
    op: UnaryOp,
    v: NumericValue,
) -> (res: Result<NumericValue, UnaryFault>)
    requires
        is_backend(*b),
    ensures
        match res {
            Ok(x) => spec_unary(*b, op, v) == Ok::<NumericValue, UnaryFaultView>(x),
            Err(f) => spec_unary(*b, op, v) == Err::<NumericValue, UnaryFaultView>(f@),
        },
{
    match op {
        UnaryOp::Neg => Ok(negate(v)),
        UnaryOp::Factorial => match v {
            NumericValue::Complex { .. } => Err(UnaryFault::ComplexFactorial),
            NumericValue::Real(bits) => match ask(b, NumericOp::Factorial(bits)) {
                NumericReply::Value(x) => Ok(x),
                NumericReply::NotInteger(t) => Err(UnaryFault::NonInteger(t)),
                NumericReply::Bound(_) => Err(UnaryFault::ComplexFactorial),
            },
        },
    }
}

/// Applies a built-in function to its one or two argument values.
pub fn apply_function<B: Fn(NumericOp) -> NumericReply>(
    b: &B,
    kind: BuiltinFn,
    vals: &Vec<NumericValue>,
) -> (res: NumericValue)
    requires
        is_backend(*b),
        vals@.len() == 1 || vals@.len() == 2,
    ensures
        res == spec_apply(*b, kind, vals@),
{
    if vals.len() == 1 {
        compute(b, NumericOp::Apply1(kind, vals[0]))
    } else {
        compute(b, NumericOp::Apply2(kind, vals[0], vals[1]))
    }
}

} // verus!
