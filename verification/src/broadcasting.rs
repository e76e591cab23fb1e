//! Broadcasting: Cartesian-product evaluation over array arguments.
use vstd::prelude::*;
use crate::number::{NumericOp, NumericReply, NumericValue, is_backend};
use crate::error::EvalError;
use crate::ir::{CompiledExpr, Node};
use crate::scalar::{below, eval_node, eval_outcome, spec_eval};
use crate::error::EvalFault;
use vstd::arithmetic::div_mod::{lemma_fundamental_div_mod, lemma_fundamental_div_mod_converse, lemma_multiply_divide_lt};

verus! {

/// A resolved argument: a scalar, broadcast to every position, or an array
/// of values, which contributes one axis to the output.
#[derive(Debug)]
pub enum ResolvedArg {
    Scalar(NumericValue),
    Array(Vec<NumericValue>),
}

/// The model of a resolved argument.
pub enum ArgView {
    Scalar(NumericValue),
    Array(Seq<NumericValue>),
}

impl View for ResolvedArg {
    type V = ArgView;

    open spec fn view(&self) -> ArgView {
        match self {
            ResolvedArg::Scalar(v) => ArgView::Scalar(*v),
            ResolvedArg::Array(v) => ArgView::Array(v@),
        }
    }
}

/// The models of a sequence of resolved arguments.
pub open spec fn args_view(args: Seq<ResolvedArg>) -> Seq<ArgView> {
    Seq::new(args.len(), |i: int| args[i]@)
}

/// Number of elements of an argument (1 for a scalar).
pub open spec fn arg_len(a: ArgView) -> nat {
    match a {
        ArgView::Scalar(_) => 1,
        ArgView::Array(s) => s.len(),
    }
}

/// The value of an argument at a position along its axis (a scalar
/// has the same value everywhere).
pub open spec fn arg_get(a: ArgView, idx: int) -> NumericValue {
    match a {
        ArgView::Scalar(v) => v,
        ArgView::Array(s) => s[idx],
    }
}

/// The output shape: the length of each array argument, in argument order.
pub open spec fn spec_shape(args: Seq<ArgView>) -> Seq<usize>
    decreases args.len(),
{
    if args.len() == 0 {
        Seq::empty()
    } else if args.last() is Scalar {
        spec_shape(args.drop_last())
    } else {
        spec_shape(args.drop_last()).push(arg_len(args.last()) as usize)
    }
}

/// The position of each array argument among the arguments, in order.
pub open spec fn spec_axis_args(args: Seq<ArgView>) -> Seq<usize>
    decreases args.len(),
{
    if args.len() == 0 {
        Seq::empty()
    } else if args.last() is Scalar {
        spec_axis_args(args.drop_last())
    } else {
        spec_axis_args(args.drop_last()).push((args.len() - 1) as usize)
    }
}

/// The product of the dimensions of a shape (1 for the empty shape).
pub open spec fn spec_product(shape: Seq<usize>) -> nat
    decreases shape.len(),
{
    if shape.len() == 0 {
        1
    } else {
        spec_product(shape.drop_last()) * (shape.last() as nat)
    }
}

/// Whether the running product of a shape's dimensions, taken from the
/// first axis on, never exceeds `usize::MAX`.
pub open spec fn product_fits(shape: Seq<usize>) -> bool {
    forall|k: int| 0 <= k <= shape.len() ==> #[trigger] spec_product(shape.take(k)) <= usize::MAX
}

/// The per-axis indices of a flat position, row-major (the last axis
/// varies fastest).
pub open spec fn spec_flat_to_multi(flat: nat, shape: Seq<usize>) -> Seq<usize>
    decreases shape.len(),
{
    if shape.len() == 0 {
        Seq::empty()
    } else {
        spec_flat_to_multi(flat / (shape.last() as nat), shape.drop_last()).push((flat % (shape.last() as nat)) as usize)
    }
}

/// The flat position of per-axis indices, row-major.
pub open spec fn spec_multi_to_flat(multi: Seq<usize>, shape: Seq<usize>) -> nat
    decreases shape.len(),
{
    if shape.len() == 0 || multi.len() == 0 {
        0
    } else {
        spec_multi_to_flat(multi.drop_last(), shape.drop_last()) * (shape.last() as nat) + (multi.last() as nat)
    }
}

impl ResolvedArg {
    /// Number of elements (1 for a scalar).
    pub fn len(&self) -> (n: usize)
        ensures
            n == arg_len(self@),
    {
        match self {
            ResolvedArg::Scalar(_) => 1,
            ResolvedArg::Array(v) => v.len(),
        }
    }

    /// Whether the argument is a scalar.
    pub fn is_scalar(&self) -> (r: bool)
        ensures
            r == (self@ is Scalar),
    {
        match self {
            ResolvedArg::Scalar(_) => true,
            ResolvedArg::Array(_) => false,
        }
    }

    /// Value at an index, broadcasting scalars.
    pub fn get(&self, idx: usize) -> (v: NumericValue)
        requires
            self@ is Array ==> idx < arg_len(self@),
        ensures
            v == arg_get(self@, idx as int),
    {
        match self {
            ResolvedArg::Scalar(v) => *v,
            ResolvedArg::Array(v) => v[idx],
        }
    }
}

/// Computes the output shape from resolved arguments, with the argument
/// that provides each output axis. Each array argument contributes one
/// axis; scalars contribute none.
pub fn compute_shape(args: &Vec<ResolvedArg>) -> (r: (Vec<usize>, Vec<usize>))
    ensures
        r.0@ == spec_shape(args_view(args@)),
        r.1@ == spec_axis_args(args_view(args@)),
{
    let ghost view = args_view(args@);
    let mut shape: Vec<usize> = Vec::new();
    let mut axis_args: Vec<usize> = Vec::new();
    let mut i: usize = 0;
    proof {
        assert(view.take(0) =~= Seq::<ArgView>::empty());
    }
    while i < args.len()
        invariant
            i <= args@.len(),
            view == args_view(args@),
            shape@ == spec_shape(view.take(i as int)),
            axis_args@ == spec_axis_args(view.take(i as int)),
        decreases args@.len() - i,
    {
        proof {
            assert(view.take(i + 1).drop_last() =~= view.take(i as int));
            assert(view.take(i + 1).last() == args@[i as int]@);
        }
        if !args[i].is_scalar() {
            shape.push(args[i].len());
            axis_args.push(i);
        }
        i = i + 1;
    }
    proof {
        assert(view.take(args@.len() as int) =~= view);
    }
    (shape, axis_args)
}

/// Whether every running product of a shape's axis lengths fits in `usize`.
pub fn shape_fits(shape: &[usize]) -> (r: bool)
    ensures
        r == product_fits(shape@),
{
    let mut n: usize = 1;
    let mut i: usize = 0;
    proof {
        assert(shape@.take(0) =~= Seq::<usize>::empty());
    }
    while i < shape.len()
        invariant
            i <= shape@.len(),
            n == spec_product(shape@.take(i as int)),
            forall|k: int| 0 <= k <= i ==> #[trigger] spec_product(shape@.take(k)) <= usize::MAX,
        decreases shape@.len() - i,
    {
        proof {
            assert(shape@.take(i + 1).drop_last() =~= shape@.take(i as int));
        }
        match n.checked_mul(shape[i]) {
            Some(m) => {
                n = m;
            },
            None => {
                proof {
                    assert(spec_product(shape@.take(i + 1)) > usize::MAX);
                }
                return false;
            },
        }
        i = i + 1;
    }
    proof {
        assert(shape@.take(shape@.len() as int) =~= shape@);
    }
    true
}

/// Total number of output elements of a shape (1 for a scalar output).
pub fn total_elements(shape: &[usize]) -> (n: usize)
    requires
        product_fits(shape@),
    ensures
        n == spec_product(shape@),
{
    let mut n: usize = 1;
    let mut i: usize = 0;
    proof {
        assert(shape@.take(0) =~= Seq::<usize>::empty());
    }
    while i < shape.len()
        invariant
            i <= shape@.len(),
            n == spec_product(shape@.take(i as int)),
            product_fits(shape@),
        decreases shape@.len() - i,
    {
        proof {
            assert(shape@.take(i + 1).drop_last() =~= shape@.take(i as int));
            assert(spec_product(shape@.take(i + 1)) <= usize::MAX);
        }
        n = n * shape[i];
        i = i + 1;
    }
    proof {
        assert(shape@.take(shape@.len() as int) =~= shape@);
    }
    n
}

/// Whether every dimension of a shape is positive.
pub open spec fn all_positive(shape: Seq<usize>) -> bool {
    forall|i: int| 0 <= i < shape.len() ==> #[trigger] shape[i] > 0
}

/// Whether per-axis indices lie within a shape.
pub open spec fn in_shape(multi: Seq<usize>, shape: Seq<usize>) -> bool {
    multi.len() == shape.len() && forall|i: int| 0 <= i < shape.len() ==> #[trigger] multi[i] < shape[i]
}

/// Converts a flat index to per-axis indices (row-major: last axis varies fastest).
pub fn flat_to_multi(flat: usize, shape: &[usize]) -> (m: Vec<usize>)
    requires
        all_positive(shape@),
    ensures
        m@ == spec_flat_to_multi(flat as nat, shape@),
{
    let mut flat = flat;
    let ghost flat0 = flat as nat;
    let n = shape.len();
    let mut indices: Vec<usize> = Vec::new();
    let mut k: usize = 0;
    while k < n
        invariant
            k <= n,
            n == shape@.len(),
            indices@.len() == k,
        decreases n - k,
    {
        indices.push(0);
        k = k + 1;
    }
    let mut i = n;
    proof {
        assert(shape@.take(n as int) =~= shape@);
        assert(indices@.subrange(n as int, n as int) =~= Seq::<usize>::empty());
    }
    while i > 0
        invariant
            i <= n,
            n == shape@.len(),
            indices@.len() == n,
            all_positive(shape@),
            spec_flat_to_multi(flat0, shape@)
                == spec_flat_to_multi(flat as nat, shape@.take(i as int)) + indices@.subrange(i as int, n as int),
        decreases i,
    {
        i = i - 1;
        let ghost old_indices = indices@;
        let ghost cur = flat as nat;
        assert(shape[i as int] > 0);
        indices.set(i, flat % shape[i]);
        flat = flat / shape[i];
        proof {
            let t = shape@.take(i + 1);
            assert(t.drop_last() =~= shape@.take(i as int));
            assert(t.last() == shape@[i as int]);
            assert(indices@.subrange(i as int, n as int)
                =~= seq![(cur % (shape@[i as int] as nat)) as usize] + old_indices.subrange(i + 1, n as int));
        }
    }
    proof {
        assert(shape@.take(0) =~= Seq::<usize>::empty());
        assert(indices@.subrange(0, n as int) =~= indices@);
    }
    indices
}

/// Row-major decomposition is onto the shape: every flat index below the
/// number of elements decomposes into per-axis indices within the shape,
/// which recompose to the same flat index.
pub proof fn lemma_flat_to_multi_roundtrip(flat: nat, shape: Seq<usize>)
    requires
        all_positive(shape),
        flat < spec_product(shape),
    ensures
        in_shape(spec_flat_to_multi(flat, shape), shape),
        spec_multi_to_flat(spec_flat_to_multi(flat, shape), shape) == flat,
    decreases shape.len(),
{
    if shape.len() > 0 {
        let l = shape.last() as int;
        let p = spec_product(shape.drop_last()) as int;
        let q = flat as int / l;
        let r = flat as int % l;
        assert(shape.drop_last().len() < shape.len());
        assert(all_positive(shape.drop_last())) by {
            assert forall|i: int| 0 <= i < shape.drop_last().len() implies #[trigger] shape.drop_last()[i] > 0 by {
                assert(shape[i] > 0);
            }
        }
        assert(l > 0) by {
            assert(shape[shape.len() - 1] > 0);
        }
        lemma_fundamental_div_mod(flat as int, l);
        assert(flat < p * l) by (nonlinear_arith)
            requires flat < spec_product(shape), spec_product(shape) == spec_product(shape.drop_last()) * (shape.last() as nat), p == spec_product(shape.drop_last()), l == shape.last();
        assert(p * l == l * p) by (nonlinear_arith);
        assert(flat < l * p);
        lemma_multiply_divide_lt(flat as int, l, p);
        assert(q < p);
        assert(q >= 0) by (nonlinear_arith) requires flat >= 0, l > 0, q == flat as int / l;
        lemma_flat_to_multi_roundtrip(q as nat, shape.drop_last());
        let m = spec_flat_to_multi(flat, shape);
        let m0 = spec_flat_to_multi(q as nat, shape.drop_last());
        assert(m == m0.push(r as usize));
        assert(m.drop_last() =~= m0);
        assert(in_shape(m, shape)) by {
            assert forall|i: int| 0 <= i < shape.len() implies #[trigger] m[i] < shape[i] by {
                if i < shape.len() - 1 {
                    assert(m[i] == m0[i]);
                    assert(m0[i] < shape.drop_last()[i]);
                }
            }
        }
        assert(spec_multi_to_flat(m, shape) == q * l + r);
        assert(q * l == l * q) by (nonlinear_arith);
    }
}

/// Row-major composition is one-to-one: per-axis indices within the shape
/// give a flat index below the number of elements, which decomposes back
/// into the same per-axis indices.
pub proof fn lemma_multi_to_flat_roundtrip(multi: Seq<usize>, shape: Seq<usize>)
    requires
        in_shape(multi, shape),
    ensures
        spec_multi_to_flat(multi, shape) < spec_product(shape),
        spec_flat_to_multi(spec_multi_to_flat(multi, shape), shape) == multi,
    decreases shape.len(),
{
    if shape.len() > 0 {
        let l = shape.last() as int;
        let p = spec_product(shape.drop_last()) as int;
        assert(multi.last() < shape.last()) by {
            assert(multi[multi.len() - 1] < shape[shape.len() - 1]);
        }
        assert(in_shape(multi.drop_last(), shape.drop_last())) by {
            assert forall|i: int| 0 <= i < shape.drop_last().len() implies #[trigger] multi.drop_last()[i] < shape.drop_last()[i] by {
                assert(multi[i] < shape[i]);
            }
        }
        lemma_multi_to_flat_roundtrip(multi.drop_last(), shape.drop_last());
        let q = spec_multi_to_flat(multi.drop_last(), shape.drop_last()) as int;
        let r = multi.last() as int;
        let f = spec_multi_to_flat(multi, shape) as int;
        assert(f == q * l + r);
        assert(f < p * l) by (nonlinear_arith) requires q < p, 0 <= r < l, f == q * l + r;
        lemma_fundamental_div_mod_converse(f, l, q, r);
        assert(spec_flat_to_multi(f as nat, shape) =~= multi);
    } else {
        assert(multi =~= Seq::<usize>::empty());
    }
}

/// The number of array arguments among the first `i` arguments: the output
/// axis that argument `i` provides, when it is an array.
pub open spec fn axis_of(args: Seq<ArgView>, i: int) -> int {
    spec_shape(args.take(i)).len() as int
}

/// The argument values at per-axis output indices `multi`: a scalar gives
/// its value, an array its element at the index of its own axis.
pub open spec fn spec_args_at(args: Seq<ArgView>, multi: Seq<usize>) -> Seq<NumericValue> {
    Seq::new(
        args.len(),
        |i: int|
            match args[i] {
                ArgView::Scalar(v) => v,
                ArgView::Array(s) => s[multi[axis_of(args, i)] as int],
            },
    )
}

proof fn lemma_axis_split(args: Seq<ArgView>, k: int)
    requires
        0 <= k <= args.len(),
        args.len() <= usize::MAX,
    ensures
        spec_axis_args(args).len() == spec_shape(args).len(),
        spec_shape(args.take(k)).len() == spec_axis_args(args.take(k)).len(),
        spec_shape(args.take(k)).len() <= spec_shape(args).len(),
        spec_shape(args).subrange(0, spec_shape(args.take(k)).len() as int) == spec_shape(args.take(k)),
        spec_axis_args(args).subrange(0, spec_axis_args(args.take(k)).len() as int) == spec_axis_args(args.take(k)),
        forall|j: int|
            spec_axis_args(args.take(k)).len() <= j < spec_axis_args(args).len() ==> #[trigger] spec_axis_args(args)[j] >= k,
        forall|j: int| 0 <= j < spec_axis_args(args).len() ==> #[trigger] spec_axis_args(args)[j] < args.len(),
    decreases args.len(),
{
    if k == args.len() {
        assert(args.take(k) =~= args);
        if args.len() > 0 {
            lemma_axis_split(args.drop_last(), k - 1);
            assert(args.drop_last().take(k - 1) =~= args.drop_last());
        }
        assert(spec_shape(args).subrange(0, spec_shape(args).len() as int) =~= spec_shape(args));
        assert(spec_axis_args(args).subrange(0, spec_axis_args(args).len() as int) =~= spec_axis_args(args));
    } else {
        lemma_axis_split(args.drop_last(), k);
        assert(args.drop_last().take(k) =~= args.take(k));
        let d = args.drop_last();
        if args.last() is Scalar {
        } else {
            assert(spec_shape(args) == spec_shape(d).push(arg_len(args.last()) as usize));
            assert(spec_axis_args(args) == spec_axis_args(d).push((args.len() - 1) as usize));
            assert(spec_shape(args).subrange(0, spec_shape(args.take(k)).len() as int)
                =~= spec_shape(d).subrange(0, spec_shape(args.take(k)).len() as int));
            assert(spec_axis_args(args).subrange(0, spec_axis_args(args.take(k)).len() as int)
                =~= spec_axis_args(d).subrange(0, spec_axis_args(args.take(k)).len() as int));
            assert forall|j: int|
                spec_axis_args(args.take(k)).len() <= j < spec_axis_args(args).len() implies #[trigger] spec_axis_args(args)[j] >= k by {
                if j < spec_axis_args(d).len() {
                    assert(spec_axis_args(args)[j] == spec_axis_args(d)[j]);
                }
            }
            assert forall|j: int| 0 <= j < spec_axis_args(args).len() implies #[trigger] spec_axis_args(args)[j] < args.len() by {
                if j < spec_axis_args(d).len() {
                    assert(spec_axis_args(args)[j] == spec_axis_args(d)[j]);
                }
            }
        }
    }
}

pub(crate) proof fn lemma_axis_step(args: Seq<ArgView>, i: int)
    requires
        0 <= i < args.len(),
        args.len() <= usize::MAX,
    ensures
        args[i] is Scalar ==> axis_of(args, i + 1) == axis_of(args, i),
        args[i] is Array ==> axis_of(args, i + 1) == axis_of(args, i) + 1,
        args[i] is Array ==> spec_axis_args(args)[axis_of(args, i)] == i,
        args[i] is Array ==> spec_shape(args)[axis_of(args, i)] == arg_len(args[i]) as usize,
        args[i] is Array ==> axis_of(args, i) < spec_shape(args).len(),
        args[i] is Scalar ==> (axis_of(args, i) == spec_axis_args(args).len() || spec_axis_args(args)[axis_of(
            args,
            i,
        )] > i),
        spec_axis_args(args).len() == spec_shape(args).len(),
{
    lemma_axis_split(args, i);
    lemma_axis_split(args, i + 1);
    let t = args.take(i + 1);
    assert(t.drop_last() =~= args.take(i));
    assert(t.last() == args[i]);
    let c = axis_of(args, i);
    if args[i] is Array {
        assert(spec_axis_args(t) == spec_axis_args(args.take(i)).push(i as usize));
        assert(spec_shape(t) == spec_shape(args.take(i)).push(arg_len(args[i]) as usize));
        assert(spec_axis_args(args).subrange(0, c + 1)[c] == spec_axis_args(args)[c]);
        assert(spec_shape(args).subrange(0, c + 1)[c] == spec_shape(args)[c]);
    } else {
        if c < spec_axis_args(args).len() {
            assert(spec_axis_args(args)[c] >= i + 1);
        }
    }
}

/// Builds the argument values for per-axis output indices: scalar
/// arguments give their single value; array arguments give the value at
/// the index of the axis they provide.
pub fn build_args_for_index(
    resolved: &Vec<ResolvedArg>,
    axis_args: &Vec<usize>,
    multi_idx: &Vec<usize>,
) -> (r: Vec<NumericValue>)
    requires
        axis_args@ == spec_axis_args(args_view(resolved@)),
        in_shape(multi_idx@, spec_shape(args_view(resolved@))),
    ensures
        r@ == spec_args_at(args_view(resolved@), multi_idx@),
{
    let ghost view = args_view(resolved@);
    let mut result: Vec<NumericValue> = Vec::new();
    let mut axis_pos: usize = 0;
    let mut i: usize = 0;
    proof {
        assert(view.take(0) =~= Seq::<ArgView>::empty());
    }
    while i < resolved.len()
        invariant
            i <= resolved@.len(),
            view == args_view(resolved@),
            axis_args@ == spec_axis_args(view),
            in_shape(multi_idx@, spec_shape(view)),
            axis_pos == axis_of(view, i as int),
            result@.len() == i,
            forall|j: int| 0 <= j < i ==> #[trigger] result@[j] == spec_args_at(view, multi_idx@)[j],
        decreases resolved@.len() - i,
    {
        proof {
            lemma_axis_step(view, i as int);
            lemma_axis_split(view, i as int);
            assert(view[i as int] == resolved@[i as int]@);
        }
        if axis_pos < axis_args.len() && axis_args[axis_pos] == i {
            assert(multi_idx@[axis_pos as int] < spec_shape(view)[axis_pos as int]);
            result.push(resolved[i].get(multi_idx[axis_pos]));
            axis_pos = axis_pos + 1;
        } else {
            result.push(resolved[i].get(0));
        }
        i = i + 1;
    }
    proof {
        assert(result@ =~= spec_args_at(view, multi_idx@));
    }
    result
}

/// The value of an expression with root `root` at flat output position
/// `f`, with arguments `args`.
pub open spec fn spec_element<B: Fn(NumericOp) -> NumericReply>(
    root: Node,
    args: Seq<ArgView>,
    f: nat,
    b: B,
) -> Result<NumericValue, EvalFault> {
    spec_eval(root, spec_args_at(args, spec_flat_to_multi(f, spec_shape(args))), Seq::empty(), b)
}

proof fn lemma_product_positive(shape: Seq<usize>)
    requires
        spec_product(shape) > 0,
    ensures
        all_positive(shape),
    decreases shape.len(),
{
    if shape.len() > 0 {
        let p = spec_product(shape.drop_last());
        let l = shape.last() as nat;
        assert(p > 0 && l > 0) by (nonlinear_arith) requires p * l > 0;
        lemma_product_positive(shape.drop_last());
        assert forall|i: int| 0 <= i < shape.len() implies #[trigger] shape[i] > 0 by {
            if i < shape.len() - 1 {
                assert(shape.drop_last()[i] > 0);
            }
        }
    }
}

/// Evaluates one output element: the expression at the argument values of
/// flat position `flat`.
pub fn eval_at<B: Fn(NumericOp) -> NumericReply>(
    expr: &CompiledExpr,
    resolved: &Vec<ResolvedArg>,
    shape: &Vec<usize>,
    axis_args: &Vec<usize>,
    flat: usize,
    b: &B,
) -> (r: Result<NumericValue, EvalError>)
    requires
        is_backend(*b),
        resolved@.len() == expr@.argument_names.len(),
        shape@ == spec_shape(args_view(resolved@)),
        axis_args@ == spec_axis_args(args_view(resolved@)),
        flat < spec_product(shape@),
    ensures
        eval_outcome(r) == spec_element(expr@.root, args_view(resolved@), flat as nat, *b),
{
    proof {
        lemma_product_positive(shape@);
        lemma_flat_to_multi_roundtrip(flat as nat, shape@);
    }
    let multi = flat_to_multi(flat, shape.as_slice());
    let args = build_args_for_index(resolved, axis_args, &multi);
    let mut indices: Vec<NumericValue> = Vec::new();
    let root = expr.root();
    proof {
        assert(below(0) =~= Set::<usize>::empty());
    }
    eval_node(root, &args, &mut indices, b)
}

/// Evaluates the expression over all broadcast combinations, in row-major
/// order. An error at one position does not stop the others.
pub fn eval_broadcast<B: Fn(NumericOp) -> NumericReply>(
    expr: &CompiledExpr,
    resolved: &Vec<ResolvedArg>,
    b: &B,
) -> (r: (Vec<Result<NumericValue, EvalError>>, Vec<usize>))
    requires
        is_backend(*b),
        resolved@.len() == expr@.argument_names.len(),
        product_fits(spec_shape(args_view(resolved@))),
    ensures
        r.1@ == spec_shape(args_view(resolved@)),
        r.0@.len() == spec_product(r.1@),
        forall|f: int|
            0 <= f < r.0@.len() ==> eval_outcome(#[trigger] r.0@[f]) == spec_element(
                expr@.root,
                args_view(resolved@),
                f as nat,
                *b,
            ),
{
    let (shape, axis_args) = compute_shape(resolved);
    let total = total_elements(shape.as_slice());
    let mut results: Vec<Result<NumericValue, EvalError>> = Vec::new();
    let mut flat: usize = 0;
    while flat < total
        invariant
            flat <= total,
            total == spec_product(shape@),
            is_backend(*b),
            resolved@.len() == expr@.argument_names.len(),
            shape@ == spec_shape(args_view(resolved@)),
            axis_args@ == spec_axis_args(args_view(resolved@)),
            results@.len() == flat,
            forall|f: int|
                0 <= f < flat ==> eval_outcome(#[trigger] results@[f]) == spec_element(
                    expr@.root,
                    args_view(resolved@),
                    f as nat,
                    *b,
                ),
        decreases total - flat,
    {
        let r = eval_at(expr, resolved, &shape, &axis_args, flat, b);
        results.push(r);
        flat = flat + 1;
    }
    (results, shape)
}

} // verus!
