//! Numerical evaluator for mathematical expression trees.
//!
//! Compile once with constants, evaluate many times with different
//! arguments, with N-dimensional broadcasting over array arguments.
//!
//! Numbers are carried as binary64 bit patterns ([`number::NumericValue`]);
//! every floating-point step is performed by a numeric backend, a closure
//! that the caller hands to [`compile`] and to the consuming methods of
//! [`EvalHandle`] and [`EvalIter`].
pub mod array;
pub mod ast;
pub mod broadcasting;
pub mod cli;
pub mod compile;
pub mod dict;
pub mod error;
pub mod fold;
pub mod functions;
pub mod handle;
pub mod ir;
pub mod number;
pub mod properties;
pub mod scalar;
pub mod text;
pub mod validate;

pub use compile::compile;
pub use error::{CompileError, EvalError};
pub use handle::{EvalHandle, EvalIter, eval};
pub use ir::CompiledExpr;
