//! Compilation: validation followed by folding.
use vstd::prelude::*;
use crate::ast::Expr;
use crate::error::{CompileError, CompileFault};
use crate::fold::{binders, constants_view, distinct_keys, fold, no_duplicates, spec_fold_expr};
use crate::ir::{CompiledExpr, CompiledView};
use crate::number::{NumericOp, NumericReply, NumericValue, is_backend};
use crate::validate::{spec_validate, validate};

verus! {

/// The outcome of compiling a tree with constants: the first rejected node,
/// else the outcome of folding.
pub open spec fn spec_compile<B: Fn(NumericOp) -> NumericReply>(
    e: Expr,
    cs: Seq<(Seq<char>, NumericValue)>,
    b: B,
) -> Result<CompiledView, CompileFault> {
    match spec_validate(e) {
        Err(x) => Err(CompileFault::Unsupported(x.0, x.1)),
        Ok(()) => spec_fold_expr(e, cs, b),
    }
}

/// Compiles a tree into a `CompiledExpr` ready for evaluation.
///
/// Constants (name, value, each name once) are substituted at compile time;
/// remaining free variables become arguments that must be
/// provided at evaluation time. Constant subexpressions are evaluated by
/// the numeric backend `b`.
pub fn compile<B: Fn(NumericOp) -> NumericReply>(
    ast: &Expr,
    constants: &Vec<(String, NumericValue)>,
    b: &B,
) -> (r: Result<CompiledExpr, CompileError>)
    requires
        is_backend(*b),
        binders(*ast) <= usize::MAX,
        distinct_keys(constants_view(constants@)),
    ensures
        match r {
            Ok(c) => spec_compile(*ast, constants_view(constants@), *b) == Ok::<CompiledView, CompileFault>(c@),
            Err(e) => spec_compile(*ast, constants_view(constants@), *b) == Err::<CompiledView, CompileFault>(e@),
        },
        r matches Ok(c) ==> no_duplicates(c@.argument_names),
{
    validate(ast)?;
    fold(ast, constants, b)
}

} // verus!
