//! Name resolution and arity of the built-in functions.
use vstd::prelude::*;
use crate::ir::BuiltinFn;
use crate::text::str_eq;

verus! {

/// The built-in function a name denotes, if any.
pub open spec fn spec_resolve(name: Seq<char>) -> Option<BuiltinFn> {
    if name == "sin"@ {
        Some(BuiltinFn::Sin)
    } else if name == "cos"@ {
        Some(BuiltinFn::Cos)
    } else if name == "tan"@ {
        Some(BuiltinFn::Tan)
    } else if name == "asin"@ {
        Some(BuiltinFn::Asin)
    } else if name == "arcsin"@ {
        Some(BuiltinFn::Asin)
    } else if name == "acos"@ {
        Some(BuiltinFn::Acos)
    } else if name == "arccos"@ {
        Some(BuiltinFn::Acos)
    } else if name == "atan"@ {
        Some(BuiltinFn::Atan)
    } else if name == "arctan"@ {
        Some(BuiltinFn::Atan)
    } else if name == "atan2"@ {
        Some(BuiltinFn::Atan2)
    } else if name == "sinh"@ {
        Some(BuiltinFn::Sinh)
    } else if name == "cosh"@ {
        Some(BuiltinFn::Cosh)
    } else if name == "tanh"@ {
        Some(BuiltinFn::Tanh)
    } else if name == "exp"@ {
        Some(BuiltinFn::Exp)
    } else if name == "ln"@ {
        Some(BuiltinFn::Ln)
    } else if name == "log2"@ {
        Some(BuiltinFn::Log2)
    } else if name == "log10"@ {
        Some(BuiltinFn::Log10)
    } else if name == "log"@ {
        Some(BuiltinFn::Log)
    } else if name == "sqrt"@ {
        Some(BuiltinFn::Sqrt)
    } else if name == "cbrt"@ {
        Some(BuiltinFn::Cbrt)
    } else if name == "abs"@ {
        Some(BuiltinFn::Abs)
    } else if name == "floor"@ {
        Some(BuiltinFn::Floor)
    } else if name == "ceil"@ {
        Some(BuiltinFn::Ceil)
    } else if name == "round"@ {
        Some(BuiltinFn::Round)
    } else if name == "min"@ {
        Some(BuiltinFn::Min)
    } else if name == "max"@ {
        Some(BuiltinFn::Max)
    } else {
        None
    }
}

/// The number of arguments a built-in function takes.
pub open spec fn spec_arity(kind: BuiltinFn) -> nat {
    match kind {
        BuiltinFn::Atan2 | BuiltinFn::Log | BuiltinFn::Min | BuiltinFn::Max => 2,
        _ => 1,
    }
}

/// Resolves a function name to a built-in function, if known.
pub fn resolve(name: &str) -> (r: Option<BuiltinFn>)
    ensures
        r == spec_resolve(name@),
{
    if str_eq(name, "sin") {
        Some(BuiltinFn::Sin)
    } else if str_eq(name, "cos") {
        Some(BuiltinFn::Cos)
    } else if str_eq(name, "tan") {
        Some(BuiltinFn::Tan)
    } else if str_eq(name, "asin") {
        Some(BuiltinFn::Asin)
    } else if str_eq(name, "arcsin") {
        Some(BuiltinFn::Asin)
    } else if str_eq(name, "acos") {
        Some(BuiltinFn::Acos)
    } else if str_eq(name, "arccos") {
        Some(BuiltinFn::Acos)
    } else if str_eq(name, "atan") {
        Some(BuiltinFn::Atan)
    } else if str_eq(name, "arctan") {
        Some(BuiltinFn::Atan)
    } else if str_eq(name, "atan2") {
        Some(BuiltinFn::Atan2)
    } else if str_eq(name, "sinh") {
        Some(BuiltinFn::Sinh)
    } else if str_eq(name, "cosh") {
        Some(BuiltinFn::Cosh)
    } else if str_eq(name, "tanh") {
        Some(BuiltinFn::Tanh)
    } else if str_eq(name, "exp") {
        Some(BuiltinFn::Exp)
    } else if str_eq(name, "ln") {
        Some(BuiltinFn::Ln)
    } else if str_eq(name, "log2") {
        Some(BuiltinFn::Log2)
    } else if str_eq(name, "log10") {
        Some(BuiltinFn::Log10)
    } else if str_eq(name, "log") {
        Some(BuiltinFn::Log)
    } else if str_eq(name, "sqrt") {
        Some(BuiltinFn::Sqrt)
    } else if str_eq(name, "cbrt") {
        Some(BuiltinFn::Cbrt)
    } else if str_eq(name, "abs") {
        Some(BuiltinFn::Abs)
    } else if str_eq(name, "floor") {
        Some(BuiltinFn::Floor)
    } else if str_eq(name, "ceil") {
        Some(BuiltinFn::Ceil)
    } else if str_eq(name, "round") {
        Some(BuiltinFn::Round)
    } else if str_eq(name, "min") {
        Some(BuiltinFn::Min)
    } else if str_eq(name, "max") {
        Some(BuiltinFn::Max)
    } else {
        None
    }
}

/// Expected argument count of a built-in function.
pub fn arity(kind: BuiltinFn) -> (n: usize)
    ensures
        n == spec_arity(kind),
{
    match kind {
        BuiltinFn::Sin | BuiltinFn::Cos | BuiltinFn::Tan | BuiltinFn::Asin | BuiltinFn::Acos | BuiltinFn::Atan | BuiltinFn::Sinh | BuiltinFn::Cosh | BuiltinFn::Tanh | BuiltinFn::Exp | BuiltinFn::Ln | BuiltinFn::Log2 | BuiltinFn::Log10 | BuiltinFn::Sqrt | BuiltinFn::Cbrt | BuiltinFn::Abs | BuiltinFn::Floor | BuiltinFn::Ceil | BuiltinFn::Round => 1,
        BuiltinFn::Atan2 | BuiltinFn::Log | BuiltinFn::Min | BuiltinFn::Max => 2,
    }
}

} // verus!
