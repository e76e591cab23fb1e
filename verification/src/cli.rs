//! Line-oriented input helpers of the command-line evaluator: blocks of
//! prefixed lines and whitespace handling, and what a block's evaluation
//! reports.
use vstd::prelude::*;
use crate::ast::Expr;
use crate::broadcasting::{ResolvedArg, product_fits, shape_fits, spec_element, spec_product, spec_shape};
use crate::compile::{compile, spec_compile};
use crate::error::{CompileError, EvalError};
use crate::fold::{binders, constants_view, distinct_keys};
use crate::handle::{EvalHandle, HandleView, eval, inputs_view, spec_bind};
use crate::ir::CompiledExpr;
use crate::number::{NumericOp, NumericReply, NumericValue, is_backend};
use crate::scalar::eval_outcome;

verus! {

/// Whether a character has the Unicode `White_Space` property.
pub open spec fn is_white_space(c: char) -> bool {
    ||| '\u{9}' <= c <= '\u{d}'
    ||| c == ' '
    ||| c == '\u{85}'
    ||| c == '\u{a0}'
    ||| c == '\u{1680}'
    ||| '\u{2000}' <= c <= '\u{200a}'
    ||| c == '\u{2028}'
    ||| c == '\u{2029}'
    ||| c == '\u{202f}'
    ||| c == '\u{205f}'
    ||| c == '\u{3000}'
}

/// A sequence without its leading white space.
pub open spec fn trim_start(s: Seq<char>) -> Seq<char>
    decreases s.len(),
{
    if s.len() > 0 && is_white_space(s[0]) {
        trim_start(s.drop_first())
    } else {
        s
    }
}

/// A sequence without its trailing white space.
pub open spec fn trim_end(s: Seq<char>) -> Seq<char>
    decreases s.len(),
{
    if s.len() > 0 && is_white_space(s.last()) {
        trim_end(s.drop_last())
    } else {
        s
    }
}

/// A sequence without its leading and trailing white space.
pub open spec fn trim(s: Seq<char>) -> Seq<char> {
    trim_end(trim_start(s))
}

/// Whether a character has the Unicode `White_Space` property.
pub fn white_space(c: char) -> (r: bool)
    ensures
        r == is_white_space(c),
{
    ('\u{9}' <= c && c <= '\u{d}') || c == ' ' || c == '\u{85}' || c == '\u{a0}' || c == '\u{1680}'
        || ('\u{2000}' <= c && c <= '\u{200a}') || c == '\u{2028}' || c == '\u{2029}' || c == '\u{202f}'
        || c == '\u{205f}' || c == '\u{3000}'
}

pub(crate) proof fn lemma_trim_start_skip(s: Seq<char>, i: int)
    requires
        0 <= i <= s.len(),
        forall|j: int| 0 <= j < i ==> is_white_space(#[trigger] s[j]),
    ensures
        trim_start(s) == trim_start(s.subrange(i, s.len() as int)),
    decreases i,
{
    if i > 0 {
        assert(is_white_space(s[0]));
        let d = s.drop_first();
        assert forall|j: int| 0 <= j < i - 1 implies is_white_space(#[trigger] d[j]) by {
            assert(is_white_space(s[j + 1]));
        }
        lemma_trim_start_skip(d, i - 1);
        assert(d.subrange(i - 1, d.len() as int) =~= s.subrange(i, s.len() as int));
    } else {
        assert(s.subrange(0, s.len() as int) =~= s);
    }
}

pub(crate) proof fn lemma_trim_end_skip(s: Seq<char>, k: int)
    requires
        0 <= k <= s.len(),
        forall|j: int| k <= j < s.len() ==> is_white_space(#[trigger] s[j]),
    ensures
        trim_end(s) == trim_end(s.subrange(0, k)),
    decreases s.len() - k,
{
    if k < s.len() {
        assert(is_white_space(s.last()));
        let d = s.drop_last();
        assert forall|j: int| k <= j < d.len() implies is_white_space(#[trigger] d[j]) by {
            assert(is_white_space(s[j]));
        }
        lemma_trim_end_skip(d, k);
        assert(d.subrange(0, k) =~= s.subrange(0, k));
    } else {
        assert(s.subrange(0, k) =~= s);
    }
}

/// The slice without leading and trailing white space.
pub fn trim_str(s: &str) -> (r: &str)
    ensures
        r@ == trim(s@),
{
    let n = s.unicode_len();
    let mut i: usize = 0;
    while i < n && white_space(s.get_char(i))
        invariant
            i <= n,
            n == s@.len(),
            forall|j: int| 0 <= j < i ==> is_white_space(#[trigger] s@[j]),
        decreases n - i,
    {
        i = i + 1;
    }
    let mut k: usize = n;
    while k > i && white_space(s.get_char(k - 1))
        invariant
            i <= k <= n,
            n == s@.len(),
            forall|j: int| k <= j < n ==> is_white_space(#[trigger] s@[j]),
        decreases k,
    {
        k = k - 1;
    }
    proof {
        lemma_trim_start_skip(s@, i as int);
        let t = s@.subrange(i as int, n as int);
        if i < n {
            assert(!is_white_space(s@[i as int]));
            assert(t[0] == s@[i as int]);
        }
        assert(trim_start(t) == t);
        assert forall|j: int| (k - i) <= j < t.len() implies is_white_space(#[trigger] t[j]) by {
            assert(t[j] == s@[i + j]);
        }
        lemma_trim_end_skip(t, k - i);
        let u = t.subrange(0, k - i);
        if k > i {
            assert(u.last() == s@[k - 1]);
            assert(!is_white_space(s@[k - 1]));
        }
        assert(trim_end(u) == u);
        assert(u =~= s@.subrange(i as int, k as int));
    }
    s.substring_char(i, k)
}

/// Whether `s` begins with `prefix`.
pub open spec fn has_prefix(s: Seq<char>, prefix: Seq<char>) -> bool {
    prefix.len() <= s.len() && s.subrange(0, prefix.len() as int) == prefix
}

/// The rest of `s` after `prefix`, trimmed of white space, when `s` begins with `prefix`.
pub open spec fn spec_strip_prefix(s: Seq<char>, prefix: Seq<char>) -> Option<Seq<char>> {
    if has_prefix(s, prefix) {
        Some(trim(s.subrange(prefix.len() as int, s.len() as int)))
    } else {
        None
    }
}

/// The rest of a line after a prefix, trimmed, if the line has the prefix.
pub fn strip_prefix<'a>(s: &'a str, prefix: &str) -> (r: Option<&'a str>)
    ensures
        match spec_strip_prefix(s@, prefix@) {
            Some(t) => r matches Some(x) && x@ == t,
            None => r is None,
        },
{
    let n = s.unicode_len();
    let m = prefix.unicode_len();
    if m > n {
        return None;
    }
    let mut i: usize = 0;
    while i < m
        invariant
            i <= m <= n,
            n == s@.len(),
            m == prefix@.len(),
            forall|j: int| 0 <= j < i ==> s@[j] == prefix@[j],
        decreases m - i,
    {
        if s.get_char(i) != prefix.get_char(i) {
            proof {
                assert(s@.subrange(0, m as int)[i as int] == s@[i as int]);
            }
            return None;
        }
        i = i + 1;
    }
    proof {
        assert(s@.subrange(0, m as int) =~= prefix@);
    }
    let rest = s.substring_char(m, n);
    Some(trim_str(rest))
}

/// A block of input lines: an expression (plain or LaTeX), optional
/// constant substitutions and optional variable values.
pub struct Block {
    pub expr: Option<String>,
    pub latex: Option<String>,
    pub subst: Option<String>,
    pub var: Option<String>,
}

impl Block {
    /// An empty block.
    pub fn new() -> (b: Block)
        ensures
            b.expr is None && b.latex is None && b.subst is None && b.var is None,
    {
        Block { expr: None, latex: None, subst: None, var: None }
    }

    /// Whether the block holds an expression to evaluate.
    pub fn has_expr(&self) -> (r: bool)
        ensures
            r == (self.expr is Some || self.latex is Some),
    {
        self.expr.is_some() || self.latex.is_some()
    }

    /// The expression to parse and whether it is LaTeX: the plain
    /// expression when the block has one, else the LaTeX one.
    pub fn source(&self) -> (r: Option<(&str, bool)>)
        ensures
            match r {
                Some((t, is_latex)) => if is_latex {
                    &&& self.expr is None
                    &&& self.latex matches Some(l) && t@ == l@
                } else {
                    self.expr matches Some(e) && t@ == e@
                },
                None => self.expr is None && self.latex is None,
            },
    {
        match &self.expr {
            Some(e) => Some((e.as_str(), false)),
            None => match &self.latex {
                Some(l) => Some((l.as_str(), true)),
                None => None,
            },
        }
    }

    /// The text that names the block's expression in the output: the plain
    /// expression, else the LaTeX one, else `?`.
    pub fn label(&self) -> (r: &str)
        ensures
            r@ == match self.expr {
                Some(e) => e@,
                None => match self.latex {
                    Some(l) => l@,
                    None => "?"@,
                },
            },
    {
        match &self.expr {
            Some(e) => e.as_str(),
            None => match &self.latex {
                Some(l) => l.as_str(),
                None => "?",
            },
        }
    }
}

/// What the evaluation of a block reports: the single result of a scalar
/// output, or the output shape and every element's result.
#[derive(Debug)]
pub enum BlockOutcome {
    Scalar(Result<NumericValue, EvalError>),
    Elements { shape: Vec<usize>, results: Vec<Result<NumericValue, EvalError>> },
}

/// Whether `o` is what the command-line evaluator reports for the handle
/// `h`: the single element's outcome when the output shape is empty,
/// otherwise the shape and every element's outcome in row-major order.
pub open spec fn outcome_of<B: Fn(NumericOp) -> NumericReply>(o: BlockOutcome, h: HandleView, b: B) -> bool {
    &&& (o is Scalar) == (spec_shape(h.args).len() == 0)
    &&& (o matches BlockOutcome::Scalar(r) ==> eval_outcome(r) == spec_element(h.expr.root, h.args, 0, b))
    &&& (o matches BlockOutcome::Elements { shape, results } ==> {
        &&& shape@ == spec_shape(h.args)
        &&& results@.len() == spec_product(shape@)
        &&& forall|k: int|
            0 <= k < results@.len() ==> eval_outcome(#[trigger] results@[k]) == spec_element(
                h.expr.root,
                h.args,
                k as nat,
                b,
            )
    })
}

/// Consumes a handle as the command-line evaluator reports it: as a scalar
/// when the output shape is empty, otherwise element by element in
/// row-major order, each element with its own value or error.
pub fn block_outcome<B: Fn(NumericOp) -> NumericReply>(h: EvalHandle, b: &B) -> (o: BlockOutcome)
    requires
        is_backend(*b),
        product_fits(spec_shape(h@.args)),
    ensures
        outcome_of(o, h@, *b),
{
    let ghost hv = h@;
    let dims = h.shape();
    let mut shape: Vec<usize> = Vec::new();
    let mut i: usize = 0;
    while i < dims.len()
        invariant
            i <= dims@.len(),
            shape@ == dims@.take(i as int),
        decreases dims@.len() - i,
    {
        shape.push(dims[i]);
        proof {
            assert(dims@.take(i + 1) =~= dims@.take(i as int).push(dims@[i as int]));
        }
        i = i + 1;
    }
    proof {
        assert(dims@.take(dims@.len() as int) =~= dims@);
    }
    if shape.len() == 0 {
        BlockOutcome::Scalar(h.scalar(b))
    } else {
        let mut it = h.iter();
        let results = it.collect_results(b);
        BlockOutcome::Elements { shape, results }
    }
}

/// Why a block gives no output, at the first step that fails.
#[derive(Debug)]
pub enum BlockFailure {
    /// The expression text could not be parsed.
    Parse(String),
    /// The constant values could not be read.
    Subst(String),
    /// The expression could not be compiled.
    Compile(CompileError),
    /// The variable values could not be read.
    Var(String),
    /// The arguments could not be bound.
    Eval(EvalError),
    /// The number of output elements does not fit in `usize`.
    Overflow,
}

/// The first steps of a block, as of any compilation from texts: the
/// parsed expression, then the constant values, then compilation; the
/// first that fails is reported.
pub fn block_compile<B: Fn(NumericOp) -> NumericReply>(
    parsed: Result<Expr, String>,
    constants: Result<Vec<(String, NumericValue)>, String>,
    b: &B,
) -> (r: Result<CompiledExpr, BlockFailure>)
    requires
        is_backend(*b),
        parsed matches Ok(e) ==> binders(e) <= usize::MAX,
        constants matches Ok(cs) ==> distinct_keys(constants_view(cs@)),
    ensures
        match parsed {
            Err(m) => r matches Err(BlockFailure::Parse(t)) && t@ == m@,
            Ok(e) => match constants {
                Err(m) => r matches Err(BlockFailure::Subst(t)) && t@ == m@,
                Ok(cs) => match spec_compile(e, constants_view(cs@), *b) {
                    Ok(c) => r matches Ok(x) && x@ == c,
                    Err(x) => r matches Err(BlockFailure::Compile(ce)) && ce@ == x,
                },
            },
        },
{
    match parsed {
        Err(m) => Err(BlockFailure::Parse(m)),
        Ok(e) => match constants {
            Err(m) => Err(BlockFailure::Subst(m)),
            Ok(cs) => match compile(&e, &cs, b) {
                Ok(c) => Ok(c),
                Err(ce) => Err(BlockFailure::Compile(ce)),
            },
        },
    }
}

/// The last steps of a block: the variable values, then argument binding,
/// then evaluation as the command-line evaluator reports it; the first
/// step that fails is reported, and an output too large to count is an
/// overflow.
pub fn block_evaluate<B: Fn(NumericOp) -> NumericReply>(
    compiled: &CompiledExpr,
    inputs: Result<Vec<(String, ResolvedArg)>, String>,
    b: &B,
) -> (r: Result<BlockOutcome, BlockFailure>)
    requires
        is_backend(*b),
        inputs matches Ok(ins) ==> distinct_keys(inputs_view(ins@)),
    ensures
        match inputs {
            Err(m) => r matches Err(BlockFailure::Var(t)) && t@ == m@,
            Ok(ins) => match spec_bind(compiled@.argument_names, inputs_view(ins@)) {
                Err(x) => r matches Err(BlockFailure::Eval(e)) && e@ == x,
                Ok(args) => if product_fits(spec_shape(args)) {
                    r matches Ok(o) && outcome_of(o, (HandleView { expr: compiled@, args }), *b)
                } else {
                    r matches Err(BlockFailure::Overflow)
                },
            },
        },
{
    match inputs {
        Err(m) => Err(BlockFailure::Var(m)),
        Ok(ins) => match eval(compiled, ins) {
            Err(e) => Err(BlockFailure::Eval(e)),
            Ok(h) => {
                if shape_fits(h.shape()) {
                    Ok(block_outcome(h, b))
                } else {
                    Err(BlockFailure::Overflow)
                }
            },
        },
    }
}

} // verus!
