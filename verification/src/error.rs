//! Errors raised while compiling and while evaluating expressions.
use vstd::prelude::*;
use crate::text::{decimal, push_decimal};

verus! {

/// Errors that occur during compilation of an expression tree.
#[derive(Debug)]
pub enum CompileError {
    UnsupportedExpression { variant: &'static str, context: String },
    UnresolvedVariable { name: String },
    NonIntegerBounds { construct: &'static str, bound: String },
    UnknownFunction { name: String },
    ArityMismatch { function: String, expected: usize, got: usize },
    DivisionByZero,
    NumericOverflow { context: String },
}

/// Errors that occur during evaluation of a compiled expression.
#[derive(Debug)]
pub enum EvalError {
    UnknownArgument { name: String },
    MissingArgument { name: String },
    DivisionByZero,
    NumericOverflow,
    ShapeMismatch { details: String },
}

/// The model of a compile error, with its texts as character sequences.
pub enum CompileFault {
    Unsupported(Seq<char>, Seq<char>),
    UnresolvedVariable(Seq<char>),
    NonIntegerBounds(Seq<char>, Seq<char>),
    UnknownFunction(Seq<char>),
    ArityMismatch(Seq<char>, usize, usize),
    DivisionByZero,
    NumericOverflow(Seq<char>),
}

impl View for CompileError {
    type V = CompileFault;

    open spec fn view(&self) -> CompileFault {
        match self {
            CompileError::UnsupportedExpression { variant, context } =>
                CompileFault::Unsupported(variant@, context@),
            CompileError::UnresolvedVariable { name } => CompileFault::UnresolvedVariable(name@),
            CompileError::NonIntegerBounds { construct, bound } =>
                CompileFault::NonIntegerBounds(construct@, bound@),
            CompileError::UnknownFunction { name } => CompileFault::UnknownFunction(name@),
            CompileError::ArityMismatch { function, expected, got } =>
                CompileFault::ArityMismatch(function@, *expected, *got),
            CompileError::DivisionByZero => CompileFault::DivisionByZero,
            CompileError::NumericOverflow { context } => CompileFault::NumericOverflow(context@),
        }
    }
}

/// The model of an evaluation error.
pub enum EvalFault {
    UnknownArgument(Seq<char>),
    MissingArgument(Seq<char>),
    DivisionByZero,
    NumericOverflow,
    ShapeMismatch(Seq<char>),
}

impl View for EvalError {
    type V = EvalFault;

    open spec fn view(&self) -> EvalFault {
        match self {
            EvalError::UnknownArgument { name } => EvalFault::UnknownArgument(name@),
            EvalError::MissingArgument { name } => EvalFault::MissingArgument(name@),
            EvalError::DivisionByZero => EvalFault::DivisionByZero,
            EvalError::NumericOverflow => EvalFault::NumericOverflow,
            EvalError::ShapeMismatch { details } => EvalFault::ShapeMismatch(details@),
        }
    }
}

/// The human-readable message of a compile error.
pub open spec fn compile_error_text(e: CompileError) -> Seq<char> {
    match e {
        CompileError::UnsupportedExpression { variant, context } =>
            "unsupported expression variant '"@ + variant@ + "': "@ + context@,
        CompileError::UnresolvedVariable { name } =>
            "unresolved variable '"@ + name@ + "'"@,
        CompileError::NonIntegerBounds { construct, bound } =>
            construct@ + " bounds must be integer: "@ + bound@,
        CompileError::UnknownFunction { name } =>
            "unknown function '"@ + name@ + "'"@,
        CompileError::ArityMismatch { function, expected, got } =>
            "function '"@ + function@ + "' expects "@ + decimal(expected as nat) + " args, got "@
                + decimal(got as nat),
        CompileError::DivisionByZero => "division by zero during constant folding"@,
        CompileError::NumericOverflow { context } =>
            "numeric overflow during constant folding: "@ + context@,
    }
}

/// The human-readable message of an evaluation error.
pub open spec fn eval_error_text(e: EvalError) -> Seq<char> {
    match e {
        EvalError::UnknownArgument { name } => "unknown argument '"@ + name@ + "'"@,
        EvalError::MissingArgument { name } => "missing argument '"@ + name@ + "'"@,
        EvalError::DivisionByZero => "division by zero"@,
        EvalError::NumericOverflow => "numeric overflow"@,
        EvalError::ShapeMismatch { details } => "incompatible array shapes: "@ + details@,
    }
}

impl CompileError {
    /// Renders the error message.
    pub fn to_string(&self) -> (s: String)
        ensures
            s@ == compile_error_text(*self),
    {
        match self {
            CompileError::UnsupportedExpression { variant, context } => {
                let mut s = String::from_str("unsupported expression variant '");
                s.append(variant);
                s.append("': ");
                s.append(context.as_str());
                s
            },
            CompileError::UnresolvedVariable { name } => {
                let mut s = String::from_str("unresolved variable '");
                s.append(name.as_str());
                s.append("'");
                s
            },
            CompileError::NonIntegerBounds { construct, bound } => {
                let mut s = String::from_str(construct);
                s.append(" bounds must be integer: ");
                s.append(bound.as_str());
                s
            },
            CompileError::UnknownFunction { name } => {
                let mut s = String::from_str("unknown function '");
                s.append(name.as_str());
                s.append("'");
                s
            },
            CompileError::ArityMismatch { function, expected, got } => {
                let mut s = String::from_str("function '");
                s.append(function.as_str());
                s.append("' expects ");
                push_decimal(&mut s, *expected);
                s.append(" args, got ");
                push_decimal(&mut s, *got);
                s
            },
            CompileError::DivisionByZero => String::from_str("division by zero during constant folding"),
            CompileError::NumericOverflow { context } => {
                let mut s = String::from_str("numeric overflow during constant folding: ");
                s.append(context.as_str());
                s
            },
        }
    }
}

impl EvalError {
    /// Renders the error message.
    pub fn to_string(&self) -> (s: String)
        ensures
            s@ == eval_error_text(*self),
    {
        match self {
            EvalError::UnknownArgument { name } => {
                let mut s = String::from_str("unknown argument '");
                s.append(name.as_str());
                s.append("'");
                s
            },
            EvalError::MissingArgument { name } => {
                let mut s = String::from_str("missing argument '");
                s.append(name.as_str());
                s.append("'");
                s
            },
            EvalError::DivisionByZero => String::from_str("division by zero"),
            EvalError::NumericOverflow => String::from_str("numeric overflow"),
            EvalError::ShapeMismatch { details } => {
                let mut s = String::from_str("incompatible array shapes: ");
                s.append(details.as_str());
                s
            },
        }
    }
}

} // verus!
