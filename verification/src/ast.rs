//! The library's model of an input expression tree.
//!
//! It mirrors the node kinds of a parsed mathematical expression: the kinds
//! that can be evaluated numerically with their children, and every other
//! kind by its name alone. A floating-point literal is held as its binary64
//! bit pattern.
use vstd::prelude::*;

verus! {

/// Binary operators of the input language.
#[derive(Clone, Copy, Debug, PartialEq, Eq, Structural)]
pub enum AstBinaryOp {
    Add,
    Sub,
    Mul,
    Div,
    Pow,
    Mod,
    PlusMinus,
    MinusPlus,
}

/// Unary operators of the input language.
#[derive(Clone, Copy, Debug, PartialEq, Eq, Structural)]
pub enum AstUnaryOp {
    Neg,
    Pos,
    Factorial,
    Transpose,
}

/// Named mathematical constants of the input language.
#[derive(Clone, Copy, Debug, PartialEq, Eq, Structural)]
pub enum MathConstant {
    Pi,
    E,
    I,
    J,
    K,
    Infinity,
    NegInfinity,
    NaN,
}

/// The node kinds that have no numerical meaning.
#[derive(Clone, Copy, Debug, PartialEq, Eq, Structural)]
pub enum UnsupportedKind {
    Quaternion,
    Vector,
    Matrix,
    Equation,
    Inequality,
    Derivative,
    PartialDerivative,
    Integral,
    MultipleIntegral,
    ClosedIntegral,
    Limit,
    ForAll,
    Exists,
    Logical,
    MarkedVector,
    DotProduct,
    CrossProduct,
    OuterProduct,
    Gradient,
    Divergence,
    Curl,
    Laplacian,
    Nabla,
    Determinant,
    Trace,
    Rank,
    ConjugateTranspose,
    MatrixInverse,
    NumberSetExpr,
    SetOperation,
    SetRelationExpr,
    SetBuilder,
    EmptySet,
    PowerSet,
    Tensor,
    KroneckerDelta,
    LeviCivita,
    FunctionSignature,
    Composition,
    Differential,
    WedgeProduct,
    Relation,
}

/// An expression tree.
///
/// The bounds of a sum or product also carry their rendering as text,
/// which an error about a non-integer bound reports.
#[allow(inconsistent_fields)]
#[derive(Debug)]
pub enum Expr {
    Integer(i64),
    /// A floating-point literal, as its binary64 bit pattern.
    Float(u64),
    Variable(String),
    Constant(MathConstant),
    Rational { numerator: Box<Expr>, denominator: Box<Expr> },
    Complex { real: Box<Expr>, imaginary: Box<Expr> },
    Binary { op: AstBinaryOp, left: Box<Expr>, right: Box<Expr> },
    Unary { op: AstUnaryOp, operand: Box<Expr> },
    Function { name: String, args: Vec<Expr> },
    Sum {
        index: String,
        lower: Box<Expr>,
        upper: Box<Expr>,
        body: Box<Expr>,
        lower_text: String,
        upper_text: String,
    },
    Product {
        index: String,
        lower: Box<Expr>,
        upper: Box<Expr>,
        body: Box<Expr>,
        lower_text: String,
        upper_text: String,
    },
    /// A node of a kind without numerical meaning (its children are not kept).
    Unsupported(UnsupportedKind),
}

/// An integer literal node.
pub fn integer(v: i64) -> (e: Expr)
    ensures
        e == Expr::Integer(v),
{
    Expr::Integer(v)
}

/// A variable node.
pub fn var(name: &str) -> (e: Expr)
    ensures
        e matches Expr::Variable(n) && n@ == name@,
{
    Expr::Variable(String::from_str(name))
}

} // verus!
