//! Validation: rejection of expression kinds without numerical meaning.
use vstd::prelude::*;
use crate::ast::{AstBinaryOp, AstUnaryOp, Expr, UnsupportedKind};
use crate::error::CompileError;

verus! {

/// The variant name and context of the error that rejects a node kind.
pub open spec fn rejection(kind: UnsupportedKind) -> (Seq<char>, Seq<char>) {
    match kind {
        UnsupportedKind::Quaternion => ("Quaternion"@, "not supported in v1"@),
        UnsupportedKind::Vector => ("Vector"@, "deferred to v1.x"@),
        UnsupportedKind::Matrix => ("Matrix"@, "deferred to v1.x"@),
        UnsupportedKind::Equation => ("Equation"@, "relational, not numerical"@),
        UnsupportedKind::Inequality => ("Inequality"@, "relational, not numerical"@),
        UnsupportedKind::Derivative => ("Derivative"@, "requires symbolic engine"@),
        UnsupportedKind::PartialDerivative => ("PartialDerivative"@, "requires symbolic engine"@),
        UnsupportedKind::Integral => ("Integral"@, "requires symbolic engine"@),
        UnsupportedKind::MultipleIntegral => ("MultipleIntegral"@, "requires symbolic engine"@),
        UnsupportedKind::ClosedIntegral => ("ClosedIntegral"@, "requires symbolic engine"@),
        UnsupportedKind::Limit => ("Limit"@, "requires symbolic engine"@),
        UnsupportedKind::ForAll => ("ForAll"@, "logical quantifier"@),
        UnsupportedKind::Exists => ("Exists"@, "logical quantifier"@),
        UnsupportedKind::Logical => ("Logical"@, "logical expression"@),
        UnsupportedKind::MarkedVector => ("MarkedVector"@, "vector notation"@),
        UnsupportedKind::DotProduct => ("DotProduct"@, "deferred to v1.x"@),
        UnsupportedKind::CrossProduct => ("CrossProduct"@, "deferred to v1.x"@),
        UnsupportedKind::OuterProduct => ("OuterProduct"@, "deferred to v1.x"@),
        UnsupportedKind::Gradient => ("Gradient"@, "requires symbolic engine"@),
        UnsupportedKind::Divergence => ("Divergence"@, "requires symbolic engine"@),
        UnsupportedKind::Curl => ("Curl"@, "requires symbolic engine"@),
        UnsupportedKind::Laplacian => ("Laplacian"@, "requires symbolic engine"@),
        UnsupportedKind::Nabla => ("Nabla"@, "operator without operand"@),
        UnsupportedKind::Determinant => ("Determinant"@, "deferred to v1.x"@),
        UnsupportedKind::Trace => ("Trace"@, "deferred to v1.x"@),
        UnsupportedKind::Rank => ("Rank"@, "deferred to v1.x"@),
        UnsupportedKind::ConjugateTranspose => ("ConjugateTranspose"@, "deferred to v1.x"@),
        UnsupportedKind::MatrixInverse => ("MatrixInverse"@, "deferred to v1.x"@),
        UnsupportedKind::NumberSetExpr => ("NumberSetExpr"@, "set theory"@),
        UnsupportedKind::SetOperation => ("SetOperation"@, "set theory"@),
        UnsupportedKind::SetRelationExpr => ("SetRelationExpr"@, "set theory"@),
        UnsupportedKind::SetBuilder => ("SetBuilder"@, "set theory"@),
        UnsupportedKind::EmptySet => ("EmptySet"@, "set theory"@),
        UnsupportedKind::PowerSet => ("PowerSet"@, "set theory"@),
        UnsupportedKind::Tensor => ("Tensor"@, "tensor notation"@),
        UnsupportedKind::KroneckerDelta => ("KroneckerDelta"@, "tensor notation"@),
        UnsupportedKind::LeviCivita => ("LeviCivita"@, "tensor notation"@),
        UnsupportedKind::FunctionSignature => ("FunctionSignature"@, "type declaration"@),
        UnsupportedKind::Composition => ("Composition"@, "function composition"@),
        UnsupportedKind::Differential => ("Differential"@, "differential form"@),
        UnsupportedKind::WedgeProduct => ("WedgeProduct"@, "differential form"@),
        UnsupportedKind::Relation => ("Relation"@, "relational, not numerical"@),
    }
}

/// The variant name and context that reject a binary operator, if any.
pub open spec fn binary_op_rejection(op: AstBinaryOp) -> Option<(Seq<char>, Seq<char>)> {
    match op {
        AstBinaryOp::PlusMinus => Some(("BinaryOp::PlusMinus"@, "ambiguous ± not evaluable"@)),
        AstBinaryOp::MinusPlus => Some(("BinaryOp::MinusPlus"@, "ambiguous ∓ not evaluable"@)),
        _ => None,
    }
}

/// The variant name and context that reject a unary operator, if any.
pub open spec fn unary_op_rejection(op: AstUnaryOp) -> Option<(Seq<char>, Seq<char>)> {
    match op {
        AstUnaryOp::Transpose => Some(("UnaryOp::Transpose"@, "matrix transpose deferred to v1.x"@)),
        _ => None,
    }
}

/// Outcome of validation: `Ok` when the tree holds only numerically evaluable
/// nodes and operators, else the rejection of the first offending node in
/// pre-order (an operator is checked before the operands of its node).
pub open spec fn spec_validate(e: Expr) -> Result<(), (Seq<char>, Seq<char>)>
    decreases e,
{
    match e {
        Expr::Integer(_) | Expr::Float(_) | Expr::Variable(_) | Expr::Constant(_) => Ok(()),
        Expr::Rational { numerator, denominator } =>
            match spec_validate(*numerator) {
                Ok(()) => spec_validate(*denominator),
                Err(x) => Err(x),
            },
        Expr::Complex { real: re, imaginary: im } =>
            match spec_validate(*re) {
                Ok(()) => spec_validate(*im),
                Err(x) => Err(x),
            },
        Expr::Binary { op, left, right } =>
            match binary_op_rejection(op) {
                Some(x) => Err(x),
                None => match spec_validate(*left) {
                    Ok(()) => spec_validate(*right),
                    Err(x) => Err(x),
                },
            },
        Expr::Unary { op, operand } =>
            match unary_op_rejection(op) {
                Some(x) => Err(x),
                None => spec_validate(*operand),
            },
        Expr::Function { args, .. } => spec_validate_list(args@),
        Expr::Sum { lower, upper, body, .. } | Expr::Product { lower, upper, body, .. } =>
            match spec_validate(*lower) {
                Ok(()) => match spec_validate(*upper) {
                    Ok(()) => spec_validate(*body),
                    Err(x) => Err(x),
                },
                Err(x) => Err(x),
            },
        Expr::Unsupported(kind) => Err(rejection(kind)),
    }
}

/// Validation of a sequence of trees, in order, stopping at the first rejection.
pub open spec fn spec_validate_list(args: Seq<Expr>) -> Result<(), (Seq<char>, Seq<char>)>
    decreases args,
{
    if args.len() == 0 {
        Ok(())
    } else {
        match spec_validate(args[0]) {
            Ok(()) => spec_validate_list(args.subrange(1, args.len() as int)),
            Err(x) => Err(x),
        }
    }
}

/// Whether a compile error is the rejection `x`.
pub open spec fn is_rejection(e: CompileError, x: (Seq<char>, Seq<char>)) -> bool {
    e matches CompileError::UnsupportedExpression { variant, context } && variant@ == x.0 && context@ == x.1
}

/// Whether `r` reports the outcome `s` of validation.
pub open spec fn reports(r: Result<(), CompileError>, s: Result<(), (Seq<char>, Seq<char>)>) -> bool {
    match s {
        Ok(()) => r is Ok,
        Err(x) => r matches Err(e) && is_rejection(e, x),
    }
}

/// The error for an expression kind that cannot be evaluated.
pub fn unsupported(variant: &'static str, context: &str) -> (e: CompileError)
    ensures
        is_rejection(e, (variant@, context@)),
{
    CompileError::UnsupportedExpression { variant, context: String::from_str(context) }
}

pub(crate) fn reject_kind(kind: UnsupportedKind) -> (e: CompileError)
    ensures
        is_rejection(e, rejection(kind)),
{
    match kind {
        UnsupportedKind::Quaternion => unsupported("Quaternion", "not supported in v1"),
        UnsupportedKind::Vector => unsupported("Vector", "deferred to v1.x"),
        UnsupportedKind::Matrix => unsupported("Matrix", "deferred to v1.x"),
        UnsupportedKind::Equation => unsupported("Equation", "relational, not numerical"),
        UnsupportedKind::Inequality => unsupported("Inequality", "relational, not numerical"),
        UnsupportedKind::Derivative => unsupported("Derivative", "requires symbolic engine"),
        UnsupportedKind::PartialDerivative => unsupported("PartialDerivative", "requires symbolic engine"),
        UnsupportedKind::Integral => unsupported("Integral", "requires symbolic engine"),
        UnsupportedKind::MultipleIntegral => unsupported("MultipleIntegral", "requires symbolic engine"),
        UnsupportedKind::ClosedIntegral => unsupported("ClosedIntegral", "requires symbolic engine"),
        UnsupportedKind::Limit => unsupported("Limit", "requires symbolic engine"),
        UnsupportedKind::ForAll => unsupported("ForAll", "logical quantifier"),
        UnsupportedKind::Exists => unsupported("Exists", "logical quantifier"),
        UnsupportedKind::Logical => unsupported("Logical", "logical expression"),
        UnsupportedKind::MarkedVector => unsupported("MarkedVector", "vector notation"),
        UnsupportedKind::DotProduct => unsupported("DotProduct", "deferred to v1.x"),
        UnsupportedKind::CrossProduct => unsupported("CrossProduct", "deferred to v1.x"),
        UnsupportedKind::OuterProduct => unsupported("OuterProduct", "deferred to v1.x"),
        UnsupportedKind::Gradient => unsupported("Gradient", "requires symbolic engine"),
        UnsupportedKind::Divergence => unsupported("Divergence", "requires symbolic engine"),
        UnsupportedKind::Curl => unsupported("Curl", "requires symbolic engine"),
        UnsupportedKind::Laplacian => unsupported("Laplacian", "requires symbolic engine"),
        UnsupportedKind::Nabla => unsupported("Nabla", "operator without operand"),
        UnsupportedKind::Determinant => unsupported("Determinant", "deferred to v1.x"),
        UnsupportedKind::Trace => unsupported("Trace", "deferred to v1.x"),
        UnsupportedKind::Rank => unsupported("Rank", "deferred to v1.x"),
        UnsupportedKind::ConjugateTranspose => unsupported("ConjugateTranspose", "deferred to v1.x"),
        UnsupportedKind::MatrixInverse => unsupported("MatrixInverse", "deferred to v1.x"),
        UnsupportedKind::NumberSetExpr => unsupported("NumberSetExpr", "set theory"),
        UnsupportedKind::SetOperation => unsupported("SetOperation", "set theory"),
        UnsupportedKind::SetRelationExpr => unsupported("SetRelationExpr", "set theory"),
        UnsupportedKind::SetBuilder => unsupported("SetBuilder", "set theory"),
        UnsupportedKind::EmptySet => unsupported("EmptySet", "set theory"),
        UnsupportedKind::PowerSet => unsupported("PowerSet", "set theory"),
        UnsupportedKind::Tensor => unsupported("Tensor", "tensor notation"),
        UnsupportedKind::KroneckerDelta => unsupported("KroneckerDelta", "tensor notation"),
        UnsupportedKind::LeviCivita => unsupported("LeviCivita", "tensor notation"),
        UnsupportedKind::FunctionSignature => unsupported("FunctionSignature", "type declaration"),
        UnsupportedKind::Composition => unsupported("Composition", "function composition"),
        UnsupportedKind::Differential => unsupported("Differential", "differential form"),
        UnsupportedKind::WedgeProduct => unsupported("WedgeProduct", "differential form"),
        UnsupportedKind::Relation => unsupported("Relation", "relational, not numerical"),
    }
}

pub(crate) fn validate_binary_op(op: AstBinaryOp) -> (r: Result<(), CompileError>)
    ensures
        match binary_op_rejection(op) {
            Some(x) => r matches Err(e) && is_rejection(e, x),
            None => r is Ok,
        },
{
    match op {
        AstBinaryOp::Add | AstBinaryOp::Sub | AstBinaryOp::Mul | AstBinaryOp::Div
        | AstBinaryOp::Pow | AstBinaryOp::Mod => Ok(()),
        AstBinaryOp::PlusMinus => Err(unsupported("BinaryOp::PlusMinus", "ambiguous ± not evaluable")),
        AstBinaryOp::MinusPlus => Err(unsupported("BinaryOp::MinusPlus", "ambiguous ∓ not evaluable")),
    }
}

pub(crate) fn validate_unary_op(op: AstUnaryOp) -> (r: Result<(), CompileError>)
    ensures
        match unary_op_rejection(op) {
            Some(x) => r matches Err(e) && is_rejection(e, x),
            None => r is Ok,
        },
{
    match op {
        AstUnaryOp::Neg | AstUnaryOp::Pos | AstUnaryOp::Factorial => Ok(()),
        AstUnaryOp::Transpose => Err(unsupported("UnaryOp::Transpose", "matrix transpose deferred to v1.x")),
    }
}

/// Checks that a tree contains only numerically evaluable nodes.
#[verifier::loop_isolation(false)]
pub fn validate(ast: &Expr) -> (r: Result<(), CompileError>)
    ensures
        reports(r, spec_validate(*ast)),
    decreases ast,
{
    match ast {
        Expr::Integer(_) | Expr::Float(_) | Expr::Variable(_) | Expr::Constant(_) => Ok(()),
        Expr::Rational { numerator, denominator } => {
            validate(numerator)?;
            validate(denominator)
        },
        Expr::Complex { real: re, imaginary: im } => {
            validate(re)?;
            validate(im)
        },
        Expr::Binary { op, left, right } => {
            validate_binary_op(*op)?;
            validate(left)?;
            validate(right)
        },
        Expr::Unary { op, operand } => {
            validate_unary_op(*op)?;
            validate(operand)
        },
        Expr::Function { args, .. } => {
            let mut i: usize = 0;
            assert(args@.subrange(0, args@.len() as int) =~= args@);
            while i < args.len()
                invariant
                    i <= args@.len(),
                    spec_validate_list(args@) == spec_validate_list(args@.subrange(i as int, args@.len() as int)),
                decreases args@.len() - i,
            {
                proof {
                    let rest = args@.subrange(i as int, args@.len() as int);
                    assert(rest.subrange(1, rest.len() as int) =~= args@.subrange(i + 1, args@.len() as int));
                    assert(rest[0] == args@[i as int]);
                }
                assert(decreases_to!(*ast => args@[i as int]));
                validate(&args[i])?;
                i = i + 1;
            }
            Ok(())
        },
        Expr::Sum { lower, upper, body, .. } | Expr::Product { lower, upper, body, .. } => {
            validate(lower)?;
            validate(upper)?;
            validate(body)
        },
        Expr::Unsupported(kind) => Err(reject_kind(*kind)),
    }
}

} // verus!
