//! Lazy evaluation handles: argument binding, output shape, and the three
//! ways of consuming results (scalar, whole array, element by element).
use vstd::prelude::*;
use crate::broadcasting::{
    ArgView, ResolvedArg, all_positive, args_view, compute_shape, eval_at, eval_broadcast, product_fits,
    spec_element, spec_product, spec_shape, spec_axis_args, total_elements,
};
use crate::array::{ResultArray, array_from_shape_vec, array_shape, array_values, nonzero_product};
use crate::error::{EvalError, EvalFault};
use crate::fold::distinct_keys;
use crate::properties::lemma_array_agrees_with_elements;
use crate::ir::{CompiledExpr, CompiledView};
use crate::number::{NumericOp, NumericReply, NumericValue, is_backend};
use crate::scalar::eval_outcome;
use crate::text::{bracketed_list, push_bracketed_list};

verus! {

/// The model of the named inputs of an evaluation.
pub open spec fn inputs_view(inputs: Seq<(String, ResolvedArg)>) -> Seq<(Seq<char>, ArgView)> {
    Seq::new(inputs.len(), |i: int| (inputs[i].0@, inputs[i].1@))
}

/// The argument of the first input named `name`, if any.
pub open spec fn input_lookup(inputs: Seq<(Seq<char>, ArgView)>, name: Seq<char>) -> Option<ArgView>
    decreases inputs.len(),
{
    if inputs.len() == 0 {
        None
    } else if inputs[0].0 == name {
        Some(inputs[0].1)
    } else {
        input_lookup(inputs.subrange(1, inputs.len() as int), name)
    }
}

/// The name of the first input that is not an argument of the expression.
pub open spec fn first_unknown(inputs: Seq<(Seq<char>, ArgView)>, names: Seq<Seq<char>>) -> Option<Seq<char>>
    decreases inputs.len(),
{
    if inputs.len() == 0 {
        None
    } else if !names.contains(inputs[0].0) {
        Some(inputs[0].0)
    } else {
        first_unknown(inputs.subrange(1, inputs.len() as int), names)
    }
}

/// The first argument of the expression, in declaration order, that no input provides.
pub open spec fn first_missing(names: Seq<Seq<char>>, inputs: Seq<(Seq<char>, ArgView)>) -> Option<Seq<char>>
    decreases names.len(),
{
    if names.len() == 0 {
        None
    } else if input_lookup(inputs, names[0]) is None {
        Some(names[0])
    } else {
        first_missing(names.subrange(1, names.len() as int), inputs)
    }
}

/// The arguments of the expression in declaration order, each from its input.
pub open spec fn bound_args(names: Seq<Seq<char>>, inputs: Seq<(Seq<char>, ArgView)>) -> Seq<ArgView> {
    Seq::new(names.len(), |k: int| input_lookup(inputs, names[k])->0)
}

/// Argument binding: an unknown input is an error (the first in input
/// order), then a missing argument (the first in declaration order);
/// otherwise the arguments in declaration order.
pub open spec fn spec_bind(names: Seq<Seq<char>>, inputs: Seq<(Seq<char>, ArgView)>) -> Result<Seq<ArgView>, EvalFault> {
    match first_unknown(inputs, names) {
        Some(n) => Err(EvalFault::UnknownArgument(n)),
        None => match first_missing(names, inputs) {
            Some(n) => Err(EvalFault::MissingArgument(n)),
            None => Ok(bound_args(names, inputs)),
        },
    }
}

/// The model of an evaluation handle: the compiled expression and its
/// arguments in declaration order.
pub struct HandleView {
    pub expr: CompiledView,
    pub args: Seq<ArgView>,
}

/// The values of the first `n` output elements in row-major order, or the
/// error of the first of them that fails.
pub open spec fn spec_elements<B: Fn(NumericOp) -> NumericReply>(
    h: HandleView,
    n: nat,
    b: B,
) -> Result<Seq<NumericValue>, EvalFault>
    decreases n,
{
    if n == 0 {
        Ok(Seq::empty())
    } else {
        match spec_elements(h, (n - 1) as nat, b) {
            Err(x) => Err(x),
            Ok(vs) => match spec_element(h.expr.root, h.args, (n - 1) as nat, b) {
                Err(x) => Err(x),
                Ok(v) => Ok(vs.push(v)),
            },
        }
    }
}

/// The text of the error for a scalar request on a non-scalar output.
pub open spec fn not_scalar_text(shape: Seq<usize>) -> Seq<char> {
    "expected scalar output but shape is "@ + bracketed_list(shape)
}

/// Lazy evaluation handle returned by [`eval`].
///
/// Computes the output shape from the input shapes but defers evaluation
/// until the caller chooses a consumption mode.
#[derive(Debug)]
pub struct EvalHandle {
    expr: CompiledExpr,
    resolved: Vec<ResolvedArg>,
    shape: Vec<usize>,
    axis_args: Vec<usize>,
}

impl View for EvalHandle {
    type V = HandleView;

    closed spec fn view(&self) -> HandleView {
        HandleView { expr: self.expr@, args: args_view(self.resolved@) }
    }
}

impl EvalHandle {
    /// One argument per argument name; the shape and the axis providers
    /// are those of the arguments.
    #[verifier::type_invariant]
    closed spec fn well_formed(self) -> bool {
        &&& self.resolved@.len() == self.expr@.argument_names.len()
        &&& self.shape@ == spec_shape(args_view(self.resolved@))
        &&& self.axis_args@ == spec_axis_args(args_view(self.resolved@))
    }

    /// Output shape: empty for a scalar output, `[n]` for 1-D, `[n, m]` for 2-D, etc.
    pub fn shape(&self) -> (s: &[usize])
        ensures
            s@ == spec_shape(self@.args),
    {
        proof {
            use_type_invariant(self);
        }
        self.shape.as_slice()
    }

    /// Total number of output elements: the product of the array lengths.
    pub fn len(&self) -> (n: usize)
        requires
            product_fits(spec_shape(self@.args)),
        ensures
            n == spec_product(spec_shape(self@.args)),
    {
        proof {
            use_type_invariant(self);
        }
        total_elements(self.shape.as_slice())
    }

    /// Whether the output has no elements (an input array is empty).
    pub fn is_empty(&self) -> (r: bool)
        requires
            product_fits(spec_shape(self@.args)),
        ensures
            r == (spec_product(spec_shape(self@.args)) == 0),
    {
        self.len() == 0
    }

    /// Consumes the handle as a scalar; an error if the output is not 0-d.
    pub fn scalar<B: Fn(NumericOp) -> NumericReply>(self, b: &B) -> (r: Result<NumericValue, EvalError>)
        requires
            is_backend(*b),
        ensures
            spec_shape(self@.args).len() != 0 ==> (r matches Err(e) && e@ == EvalFault::ShapeMismatch(
                not_scalar_text(spec_shape(self@.args)),
            )),
            spec_shape(self@.args).len() == 0 ==> eval_outcome(r) == spec_element(self@.expr.root, self@.args, 0, *b),
    {
        proof {
            use_type_invariant(&self);
        }
        if self.shape.len() != 0 {
            let mut details = String::from_str("expected scalar output but shape is ");
            push_bracketed_list(&mut details, self.shape.as_slice());
            return Err(EvalError::ShapeMismatch { details });
        }
        eval_at(&self.expr, &self.resolved, &self.shape, &self.axis_args, 0, b)
    }

    /// Consumes the handle eagerly: an array of the output shape holding
    /// every output element in row-major order, or the error of the first
    /// element that fails.
    pub fn to_array<B: Fn(NumericOp) -> NumericReply>(self, b: &B) -> (r: Result<ResultArray, EvalError>)
        requires
            is_backend(*b),
            product_fits(spec_shape(self@.args)),
            nonzero_product(spec_shape(self@.args)) <= isize::MAX,
        ensures
            match spec_elements(self@, spec_product(spec_shape(self@.args)), *b) {
                Ok(vs) => r matches Ok(a) && array_values(a) == vs && array_shape(a) == spec_shape(self@.args),
                Err(x) => r matches Err(e) && e@ == x,
            },
    {
        proof {
            use_type_invariant(&self);
        }
        let ghost h = self@;
        let (results, shape) = eval_broadcast(&self.expr, &self.resolved, b);
        let mut values: Vec<NumericValue> = Vec::new();
        let mut i: usize = 0;
        while i < results.len()
            invariant
                i <= results@.len(),
                h == self@,
                results@.len() == spec_product(spec_shape(h.args)),
                shape@ == spec_shape(h.args),
                forall|f: int|
                    0 <= f < results@.len() ==> eval_outcome(#[trigger] results@[f]) == spec_element(
                        h.expr.root,
                        h.args,
                        f as nat,
                        *b,
                    ),
                spec_elements(h, i as nat, *b) == Ok::<Seq<NumericValue>, EvalFault>(values@),
            decreases results@.len() - i,
        {
            match &results[i] {
                Ok(v) => {
                    values.push(*v);
                },
                Err(e) => {
                    proof {
                        assert(eval_outcome(results@[i as int]) == spec_element(h.expr.root, h.args, i as nat, *b));
                        assert(spec_elements(h, (i + 1) as nat, *b) == Err::<Seq<NumericValue>, EvalFault>(e@));
                        lemma_elements_error(h, (i + 1) as nat, spec_product(spec_shape(h.args)), *b);
                    }
                    return Err(copy_error(e));
                },
            }
            i = i + 1;
        }
        proof {
            lemma_array_agrees_with_elements(h, i as nat, *b);
        }
        match array_from_shape_vec(shape, values) {
            Ok(a) => Ok(a),
            Err(_) => {
                proof {
                    assert(false);
                }
                Err(EvalError::NumericOverflow)
            },
        }
    }

    /// Consumes the handle lazily: an iterator over the output elements in
    /// row-major order.
    pub fn iter(self) -> (it: EvalIter)
        requires
            product_fits(spec_shape(self@.args)),
        ensures
            it@ == (IterView { handle: self@, current: 0, total: spec_product(spec_shape(self@.args)) }),
    {
        proof {
            use_type_invariant(&self);
        }
        let total = total_elements(self.shape.as_slice());
        EvalIter {
            expr: self.expr,
            resolved: self.resolved,
            shape: self.shape,
            axis_args: self.axis_args,
            current: 0,
            total,
        }
    }
}

/// A copy of an evaluation error.
fn copy_error(e: &EvalError) -> (r: EvalError)
    ensures
        r@ == e@,
{
    match e {
        EvalError::UnknownArgument { name } => EvalError::UnknownArgument { name: name.clone() },
        EvalError::MissingArgument { name } => EvalError::MissingArgument { name: name.clone() },
        EvalError::DivisionByZero => EvalError::DivisionByZero,
        EvalError::NumericOverflow => EvalError::NumericOverflow,
        EvalError::ShapeMismatch { details } => EvalError::ShapeMismatch { details: details.clone() },
    }
}

proof fn lemma_elements_error<B: Fn(NumericOp) -> NumericReply>(h: HandleView, k: nat, n: nat, b: B)
    requires
        k <= n,
        spec_elements(h, k, b) is Err,
    ensures
        spec_elements(h, n, b) == spec_elements(h, k, b),
    decreases n - k,
{
    if k < n {
        lemma_elements_error(h, k + 1, n, b);
    }
}

/// The model of an element iterator: the handle, the next position and
/// the number of elements.
pub struct IterView {
    pub handle: HandleView,
    pub current: nat,
    pub total: nat,
}

/// Streaming iterator over the output elements of an evaluation.
#[derive(Debug)]
pub struct EvalIter {
    expr: CompiledExpr,
    resolved: Vec<ResolvedArg>,
    shape: Vec<usize>,
    axis_args: Vec<usize>,
    current: usize,
    total: usize,
}

impl View for EvalIter {
    type V = IterView;

    closed spec fn view(&self) -> IterView {
        IterView {
            handle: HandleView { expr: self.expr@, args: args_view(self.resolved@) },
            current: self.current as nat,
            total: self.total as nat,
        }
    }
}

impl EvalIter {
    #[verifier::type_invariant]
    closed spec fn well_formed(self) -> bool {
        &&& self.resolved@.len() == self.expr@.argument_names.len()
        &&& self.shape@ == spec_shape(args_view(self.resolved@))
        &&& self.axis_args@ == spec_axis_args(args_view(self.resolved@))
        &&& self.total == spec_product(self.shape@)
        &&& self.current <= self.total
    }

    /// The next output element, or `None` when all have been yielded.
    /// An error at one element does not end the iteration.
    pub fn next_result<B: Fn(NumericOp) -> NumericReply>(&mut self, b: &B) -> (r: Option<Result<NumericValue, EvalError>>)
        requires
            is_backend(*b),
        ensures
            final(self)@.handle == old(self)@.handle,
            final(self)@.total == old(self)@.total,
            old(self)@.current < old(self)@.total ==> final(self)@.current == old(self)@.current + 1,
            old(self)@.current < old(self)@.total ==> (r matches Some(x)
                && eval_outcome(x) == spec_element(old(self)@.handle.expr.root, old(self)@.handle.args, old(self)@.current, *b)),
            old(self)@.current >= old(self)@.total ==> final(self)@.current == old(self)@.current && r is None,
    {
        proof {
            use_type_invariant(&*self);
        }
        if self.current >= self.total {
            return None;
        }
        let r = eval_at(&self.expr, &self.resolved, &self.shape, &self.axis_args, self.current, b);
        self.current = self.current + 1;
        Some(r)
    }

    /// Number of remaining elements.
    pub fn remaining(&self) -> (n: usize)
        ensures
            n == self@.total - self@.current,
    {
        proof {
            use_type_invariant(self);
        }
        self.total - self.current
    }

    /// Every remaining output element, in row-major order; the iterator
    /// is left exhausted.
    pub fn collect_results<B: Fn(NumericOp) -> NumericReply>(&mut self, b: &B) -> (r: Vec<Result<NumericValue, EvalError>>)
        requires
            is_backend(*b),
        ensures
            final(self)@.handle == old(self)@.handle,
            final(self)@.total == old(self)@.total,
            final(self)@.current == old(self)@.total,
            r@.len() == old(self)@.total - old(self)@.current,
            forall|k: int|
                0 <= k < r@.len() ==> eval_outcome(#[trigger] r@[k]) == spec_element(
                    old(self)@.handle.expr.root,
                    old(self)@.handle.args,
                    (old(self)@.current + k) as nat,
                    *b,
                ),
    {
        proof {
            use_type_invariant(&*self);
        }
        let ghost start = self@;
        let mut out: Vec<Result<NumericValue, EvalError>> = Vec::new();
        loop
            invariant
                is_backend(*b),
                self@.handle == start.handle,
                self@.total == start.total,
                start.current <= self@.current <= self@.total,
                out@.len() == self@.current - start.current,
                forall|k: int|
                    0 <= k < out@.len() ==> eval_outcome(#[trigger] out@[k]) == spec_element(
                        start.handle.expr.root,
                        start.handle.args,
                        (start.current + k) as nat,
                        *b,
                    ),
            ensures
                self@.handle == start.handle,
                self@.total == start.total,
                self@.current == self@.total,
                out@.len() == self@.total - start.current,
                forall|k: int|
                    0 <= k < out@.len() ==> eval_outcome(#[trigger] out@[k]) == spec_element(
                        start.handle.expr.root,
                        start.handle.args,
                        (start.current + k) as nat,
                        *b,
                    ),
            decreases self@.total - self@.current,
        {
            proof {
                use_type_invariant(&*self);
            }
            match self.next_result(b) {
                Some(x) => {
                    out.push(x);
                },
                None => {
                    break;
                },
            }
        }
        out
    }
}

/// The first name, in order, that is not an argument name.
pub open spec fn first_unknown_name(given: Seq<Seq<char>>, names: Seq<Seq<char>>) -> Option<Seq<char>>
    decreases given.len(),
{
    if given.len() == 0 {
        None
    } else if !names.contains(given[0]) {
        Some(given[0])
    } else {
        first_unknown_name(given.subrange(1, given.len() as int), names)
    }
}

/// The names of strings.
pub open spec fn names_view(given: Seq<String>) -> Seq<Seq<char>> {
    given.map_values(|s: String| s@)
}

/// The first of the given input names that is not an argument of the
/// expression, if any: the check that binding makes before it reads any
/// input.
pub fn unknown_argument(expr: &CompiledExpr, given: &Vec<String>) -> (r: Option<String>)
    ensures
        match first_unknown_name(names_view(given@), expr@.argument_names) {
            None => r is None,
            Some(n) => r matches Some(s) && s@ == n,
        },
{
    let expected = expr.argument_names();
    let ghost names = expr@.argument_names;
    let ghost gv = names_view(given@);
    proof {
        assert(expected@.map_values(|s: String| s@) == names);
        assert(gv.subrange(0, gv.len() as int) =~= gv);
    }
    let mut i: usize = 0;
    while i < given.len()
        invariant
            i <= given@.len(),
            gv == names_view(given@),
            names == expr@.argument_names,
            expected@.map_values(|s: String| s@) == names,
            first_unknown_name(gv, names) == first_unknown_name(gv.subrange(i as int, gv.len() as int), names),
        decreases given@.len() - i,
    {
        proof {
            let rest = gv.subrange(i as int, gv.len() as int);
            assert(rest.subrange(1, rest.len() as int) =~= gv.subrange(i + 1, gv.len() as int));
            assert(rest[0] == gv[i as int]);
            assert(gv[i as int] == given@[i as int]@);
        }
        let name = &given[i];
        let mut known = false;
        let mut k: usize = 0;
        while k < expected.len()
            invariant
                k <= expected@.len(),
                expected@.map_values(|s: String| s@) == names,
                known == exists|j: int| 0 <= j < k && names[j] == name@,
            decreases expected@.len() - k,
        {
            if expected[k] == *name {
                known = true;
            }
            proof {
                assert(names[k as int] == expected@[k as int]@);
            }
            k = k + 1;
        }
        proof {
            assert(known == names.contains(name@));
        }
        if !known {
            return Some(name.clone());
        }
        i = i + 1;
    }
    proof {
        assert(gv.subrange(given@.len() as int, gv.len() as int) =~= Seq::<Seq<char>>::empty());
    }
    None
}

/// Creates a lazy evaluation handle from a compiled expression and named
/// arguments.
///
/// The inputs are named, each name once. Every input must name an argument
/// of the expression and every argument must be provided. The output shape
/// is computed; nothing is evaluated.
pub fn eval(expr: &CompiledExpr, args: Vec<(String, ResolvedArg)>) -> (r: Result<EvalHandle, EvalError>)
    requires
        distinct_keys(inputs_view(args@)),
    ensures
        match spec_bind(expr@.argument_names, inputs_view(args@)) {
            Err(x) => r matches Err(e) && e@ == x,
            Ok(bound) => r matches Ok(h) && h@ == (HandleView { expr: expr@, args: bound }),
        },
{
    let expected = expr.argument_names();
    let ghost names = expr@.argument_names;
    let ghost inputs = inputs_view(args@);
    proof {
        assert(expected@.map_values(|s: String| s@) == names);
        assert(inputs.subrange(0, inputs.len() as int) =~= inputs);
    }
    let mut i: usize = 0;
    while i < args.len()
        invariant
            i <= args@.len(),
            inputs == inputs_view(args@),
            names == expr@.argument_names,
            expected@.map_values(|s: String| s@) == names,
            first_unknown(inputs, names) == first_unknown(inputs.subrange(i as int, inputs.len() as int), names),
        decreases args@.len() - i,
    {
        proof {
            let rest = inputs.subrange(i as int, inputs.len() as int);
            assert(rest.subrange(1, rest.len() as int) =~= inputs.subrange(i + 1, inputs.len() as int));
            assert(rest[0] == inputs[i as int]);
        }
        let name = &args[i].0;
        let mut known = false;
        let mut k: usize = 0;
        while k < expected.len()
            invariant
                k <= expected@.len(),
                expected@.map_values(|s: String| s@) == names,
                known == exists|j: int| 0 <= j < k && names[j] == name@,
            decreases expected@.len() - k,
        {
            if expected[k] == *name {
                known = true;
            }
            proof {
                assert(names[k as int] == expected@[k as int]@);
            }
            k = k + 1;
        }
        proof {
            let rest = inputs.subrange(i as int, inputs.len() as int);
            assert(rest.subrange(1, rest.len() as int) =~= inputs.subrange(i + 1, inputs.len() as int));
            assert(rest[0] == inputs[i as int]);
            assert(known == names.contains(name@));
            assert(inputs[i as int].0 == name@);
        }
        if !known {
            return Err(EvalError::UnknownArgument { name: name.clone() });
        }
        i = i + 1;
    }
    proof {
        assert(inputs.subrange(args@.len() as int, inputs.len() as int) =~= Seq::<(Seq<char>, ArgView)>::empty());
        assert(names.subrange(0, names.len() as int) =~= names);
    }
    let mut resolved: Vec<ResolvedArg> = Vec::new();
    let mut k: usize = 0;
    while k < expected.len()
        invariant
            k <= expected@.len(),
            inputs == inputs_view(args@),
            names == expr@.argument_names,
            expected@.map_values(|s: String| s@) == names,
            first_unknown(inputs, names) is None,
            first_missing(names, inputs) == first_missing(names.subrange(k as int, names.len() as int), inputs),
            resolved@.len() == k,
            forall|j: int| 0 <= j < k ==> #[trigger] resolved@[j]@ == bound_args(names, inputs)[j],
        decreases expected@.len() - k,
    {
        proof {
            let rest = names.subrange(k as int, names.len() as int);
            assert(rest.subrange(1, rest.len() as int) =~= names.subrange(k + 1, names.len() as int));
            assert(rest[0] == names[k as int]);
            assert(names[k as int] == expected@[k as int]@);
        }
        match find_input(&args, &expected[k]) {
            Some(j) => {
                let copy = copy_arg(&args[j].1);
                resolved.push(copy);
                proof {
                    assert(resolved@[k as int]@ == bound_args(names, inputs)[k as int]);
                }
            },
            None => {
                proof {
                    let rest = names.subrange(k as int, names.len() as int);
                    assert(rest[0] == names[k as int]);
                    assert(names[k as int] == expected@[k as int]@);
                }
                return Err(EvalError::MissingArgument { name: expected[k].clone() });
            },
        }
        k = k + 1;
    }
    let (shape, axis_args) = compute_shape(&resolved);
    proof {
        assert forall|q: int| 0 <= q < names.len() implies args_view(resolved@)[q] == bound_args(names, inputs)[q] by {
            assert(resolved@[q]@ == bound_args(names, inputs)[q]);
        }
        assert(args_view(resolved@) =~= bound_args(names, inputs));
    }
    Ok(EvalHandle { expr: expr.duplicate(), resolved, shape, axis_args })
}

/// The position of the first input named `name`, whose argument is then
/// `input_lookup`'s answer.
fn find_input(args: &Vec<(String, ResolvedArg)>, name: &String) -> (r: Option<usize>)
    ensures
        match input_lookup(inputs_view(args@), name@) {
            None => r is None,
            Some(a) => r matches Some(j) && j < args@.len() && args@[j as int].1@ == a,
        },
{
    let ghost inputs = inputs_view(args@);
    let mut j: usize = 0;
    proof {
        assert(inputs.subrange(0, inputs.len() as int) =~= inputs);
    }
    while j < args.len()
        invariant
            j <= args@.len(),
            inputs == inputs_view(args@),
            input_lookup(inputs, name@) == input_lookup(inputs.subrange(j as int, inputs.len() as int), name@),
        decreases args@.len() - j,
    {
        proof {
            let rest = inputs.subrange(j as int, inputs.len() as int);
            assert(rest.subrange(1, rest.len() as int) =~= inputs.subrange(j + 1, inputs.len() as int));
            assert(rest[0] == inputs[j as int]);
        }
        if args[j].0 == *name {
            return Some(j);
        }
        j = j + 1;
    }
    None
}

/// A copy of a resolved argument.
fn copy_arg(a: &ResolvedArg) -> (r: ResolvedArg)
    ensures
        r@ == a@,
{
    match a {
        ResolvedArg::Scalar(v) => ResolvedArg::Scalar(*v),
        ResolvedArg::Array(v) => {
            let mut out: Vec<NumericValue> = Vec::new();
            let mut i: usize = 0;
            while i < v.len()
                invariant
                    i <= v@.len(),
                    out@ == v@.take(i as int),
                decreases v@.len() - i,
            {
                out.push(v[i]);
                proof {
                    assert(v@.take(i + 1) =~= v@.take(i as int).push(v@[i as int]));
                }
                i = i + 1;
            }
            proof {
                assert(v@.take(v@.len() as int) =~= v@);
            }
            ResolvedArg::Array(out)
        },
    }
}

} // verus!
