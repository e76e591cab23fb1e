//! Properties of the evaluator as a whole: how the ways of consuming a
//! handle agree, how broadcasting lays out the output, how binding treats
//! the order of the inputs, what constant folding keeps, and how folding
//! gives each sum and product an index slot of its own.
use vstd::prelude::*;
use crate::broadcasting::{
    ArgView, arg_len, axis_of, in_shape, lemma_axis_step, lemma_multi_to_flat_roundtrip, spec_args_at,
    spec_element, spec_multi_to_flat, spec_product, spec_shape,
};
use crate::ast::{AstUnaryOp, Expr};
use crate::compile::spec_compile;
use crate::error::EvalFault;
use crate::fold::{
    distinct_keys,
    FoldState, all_literal, binders, binders_list, constant_lookup, convert_binary_op, fold_constant, is_prefix, spec_bound, first_position, fold_binary, fold_function, fold_unary, initial_state,
    literal_of, literal_values, node_of, position_of, scope_lookup, spec_fold, spec_fold_binder, spec_fold_expr, spec_fold_list,
};
use crate::cli::{is_white_space, trim, trim_end, trim_start};
use crate::dict::{
    RawView, after_value, items, first_of, lemma_first_of_range, lemma_scan_value_len, lemma_trim_lengths, scan_entries, spec_scan_dict,
    spec_scan_value,
};
use crate::handle::{
    HandleView, bound_args, first_missing, first_unknown, first_unknown_name, input_lookup, spec_bind, spec_elements,
};
use crate::ir::{BinaryOp, BuiltinFn, Node, UnaryOp};
use crate::functions::spec_resolve;
use crate::number::{
    NumericOp, NumericReply, NumericValue, ONE_BITS, UnaryFaultView, ZERO_BITS, neg_bits, reply, spec_apply, spec_binary, spec_unary,
    value_of,
};
use crate::scalar::{
    grown, lemma_run_frame, lemma_run_list_frame, slots_from, spec_eval, spec_run, spec_run_list, spec_run_loop,
};

verus! {

/// Eager and lazy consumption agree: the values of the first `n` output
/// elements, taken all at once, are in row-major order exactly the values
/// that evaluating the elements one by one yields; and taking them all at
/// once fails exactly when one of them fails, with the error of the first
/// that fails.
pub proof fn lemma_array_agrees_with_elements<B: Fn(NumericOp) -> NumericReply>(h: HandleView, n: nat, b: B)
    ensures
        match spec_elements(h, n, b) {
            Ok(vs) => vs.len() == n && forall|k: nat|
                k < n ==> spec_element(h.expr.root, h.args, k, b) == Ok::<NumericValue, EvalFault>(
                    #[trigger] vs[k as int],
                ),
            Err(x) => exists|k: nat|
                #![trigger spec_element(h.expr.root, h.args, k, b)]
                k < n && spec_element(h.expr.root, h.args, k, b) == Err::<NumericValue, EvalFault>(x) && forall|j: nat|
                    j < k ==> (#[trigger] spec_element(h.expr.root, h.args, j, b)) is Ok,
        },
    decreases n,
{
    if n > 0 {
        let m = (n - 1) as nat;
        lemma_array_agrees_with_elements(h, m, b);
        match spec_elements(h, m, b) {
            Err(x) => {
                let k = choose|k: nat|
                    #![trigger spec_element(h.expr.root, h.args, k, b)]
                    k < m && spec_element(h.expr.root, h.args, k, b) == Err::<NumericValue, EvalFault>(x)
                        && forall|j: nat| j < k ==> (#[trigger] spec_element(h.expr.root, h.args, j, b)) is Ok;
                assert(k < n);
            },
            Ok(vs) => {
                match spec_element(h.expr.root, h.args, m, b) {
                    Err(x) => {
                        assert forall|j: nat| j < m implies (#[trigger] spec_element(h.expr.root, h.args, j, b)) is Ok by {
                            assert(spec_element(h.expr.root, h.args, j, b) == Ok::<NumericValue, EvalFault>(vs[j as int]));
                        }
                    },
                    Ok(v) => {
                        assert forall|k: nat| k < n implies spec_element(h.expr.root, h.args, k, b)
                            == Ok::<NumericValue, EvalFault>(#[trigger] vs.push(v)[k as int]) by {
                            if k < m {
                                assert(vs.push(v)[k as int] == vs[k as int]);
                            }
                        }
                    },
                }
            },
        }
    }
}

/// The first error among some element outcomes, or all their values.
pub open spec fn values_or_first_error(items: Seq<Result<NumericValue, EvalFault>>) -> Result<Seq<NumericValue>, EvalFault>
    decreases items.len(),
{
    if items.len() == 0 {
        Ok(Seq::empty())
    } else {
        match values_or_first_error(items.drop_last()) {
            Err(x) => Err(x),
            Ok(vs) => match items.last() {
                Err(x) => Err(x),
                Ok(v) => Ok(vs.push(v)),
            },
        }
    }
}

/// The outcomes of the first `n` output elements of a handle, in row-major
/// order: what iterating over them yields one by one.
pub open spec fn element_outcomes<B: Fn(NumericOp) -> NumericReply>(
    h: HandleView,
    n: nat,
    b: B,
) -> Seq<Result<NumericValue, EvalFault>> {
    Seq::new(n, |k: int| spec_element(h.expr.root, h.args, k as nat, b))
}

proof fn lemma_elements_as_outcomes<B: Fn(NumericOp) -> NumericReply>(h: HandleView, n: nat, b: B)
    ensures
        spec_elements(h, n, b) == values_or_first_error(element_outcomes(h, n, b)),
    decreases n,
{
    if n > 0 {
        let m = (n - 1) as nat;
        lemma_elements_as_outcomes(h, m, b);
        assert(element_outcomes(h, n, b).drop_last() =~= element_outcomes(h, m, b));
    }
}

/// Element by element and all at once agree: a fresh iterator over a
/// handle yields one outcome per output element (as many as the handle's
/// length), and taking the whole array gives exactly their values when all
/// succeed, and otherwise the error of the first that fails.
pub proof fn lemma_iteration_matches_array<B: Fn(NumericOp) -> NumericReply>(h: HandleView, b: B)
    ensures
        element_outcomes(h, spec_product(spec_shape(h.args)), b).len() == spec_product(spec_shape(h.args)),
        spec_elements(h, spec_product(spec_shape(h.args)), b) == values_or_first_error(
            element_outcomes(h, spec_product(spec_shape(h.args)), b),
        ),
{
    lemma_elements_as_outcomes(h, spec_product(spec_shape(h.args)), b);
}

/// Broadcasting lays out one output axis per array argument, in argument
/// order: an array argument adds the next axis, as long as the array; a
/// scalar argument adds none; and the output has as many axes as there
/// are array arguments.
pub proof fn lemma_shape_axes(args: Seq<ArgView>)
    requires
        args.len() <= usize::MAX,
    ensures
        axis_of(args, 0) == 0,
        spec_shape(args).len() == axis_of(args, args.len() as int),
        forall|i: int|
            #![trigger args[i]]
            0 <= i < args.len() && args[i] is Array ==> axis_of(args, i + 1) == axis_of(args, i) + 1
                && axis_of(args, i) < spec_shape(args).len() && spec_shape(args)[axis_of(args, i)] == arg_len(
                args[i],
            ) as usize,
        forall|i: int|
            #![trigger args[i]]
            0 <= i < args.len() && args[i] is Scalar ==> axis_of(args, i + 1) == axis_of(args, i),
{
    assert(args.take(0) =~= Seq::<ArgView>::empty());
    assert(args.take(args.len() as int) =~= args);
    assert forall|i: int| 0 <= i < args.len() && args[i] is Array implies axis_of(args, i + 1) == axis_of(args, i) + 1
        && axis_of(args, i) < spec_shape(args).len() && spec_shape(args)[axis_of(args, i)] == arg_len(args[i]) as usize by {
        lemma_axis_step(args, i);
    }
    assert forall|i: int| 0 <= i < args.len() && args[i] is Scalar implies axis_of(args, i + 1) == axis_of(
        args,
        i,
    ) by {
        lemma_axis_step(args, i);
    }
}

/// Broadcasting is a Cartesian product: the output element at per-axis
/// indices `multi` is the value of the expression with every scalar
/// argument at its value and every array argument at the index of its own
/// axis.
pub proof fn lemma_element_at_indices<B: Fn(NumericOp) -> NumericReply>(
    root: Node,
    args: Seq<ArgView>,
    multi: Seq<usize>,
    b: B,
)
    requires
        in_shape(multi, spec_shape(args)),
    ensures
        spec_element(root, args, spec_multi_to_flat(multi, spec_shape(args)), b) == spec_eval(
            root,
            spec_args_at(args, multi),
            Seq::empty(),
            b,
        ),
{
    lemma_multi_to_flat_roundtrip(multi, spec_shape(args));
}


proof fn lemma_lookup_member(inputs: Seq<(Seq<char>, ArgView)>, name: Seq<char>)
    requires
        distinct_keys(inputs),
    ensures
        forall|a: ArgView| input_lookup(inputs, name) == Some(a) <==> #[trigger] inputs.contains((name, a)),
    decreases inputs.len(),
{
    if inputs.len() > 0 {
        let rest = inputs.subrange(1, inputs.len() as int);
        assert(distinct_keys(rest)) by {
            assert forall|i: int, j: int| 0 <= i < rest.len() && 0 <= j < rest.len() && i != j implies rest[i].0
                != rest[j].0 by {
                assert(rest[i] == inputs[i + 1] && rest[j] == inputs[j + 1]);
            }
        }
        lemma_lookup_member(rest, name);
        assert forall|a: ArgView| input_lookup(inputs, name) == Some(a) <==> #[trigger] inputs.contains((name, a)) by {
            if inputs[0].0 == name {
                if inputs.contains((name, a)) {
                    let i = choose|i: int| 0 <= i < inputs.len() && inputs[i] == (name, a);
                    assert(i == 0);
                }
                if a == inputs[0].1 {
                    assert(inputs[0] == (name, a));
                }
            } else {
                if inputs.contains((name, a)) {
                    let i = choose|i: int| 0 <= i < inputs.len() && inputs[i] == (name, a);
                    assert(i != 0);
                    assert(rest[i - 1] == inputs[i]);
                }
                if rest.contains((name, a)) {
                    let i = choose|i: int| 0 <= i < rest.len() && rest[i] == (name, a);
                    assert(inputs[i + 1] == rest[i]);
                }
            }
        }
    }
}

proof fn lemma_unknown_none(inputs: Seq<(Seq<char>, ArgView)>, names: Seq<Seq<char>>)
    ensures
        (first_unknown(inputs, names) is None) <==> forall|i: int|
            0 <= i < inputs.len() ==> names.contains(#[trigger] inputs[i].0),
    decreases inputs.len(),
{
    if inputs.len() > 0 {
        let rest = inputs.subrange(1, inputs.len() as int);
        lemma_unknown_none(rest, names);
        if first_unknown(inputs, names) is None {
            assert forall|i: int| 0 <= i < inputs.len() implies names.contains(#[trigger] inputs[i].0) by {
                if i > 0 {
                    assert(rest[i - 1] == inputs[i]);
                }
            }
        }
        if forall|i: int| 0 <= i < inputs.len() ==> names.contains(#[trigger] inputs[i].0) {
            assert(names.contains(inputs[0].0));
            assert forall|i: int| 0 <= i < rest.len() implies names.contains(#[trigger] rest[i].0) by {
                assert(rest[i] == inputs[i + 1]);
            }
        }
    }
}

proof fn lemma_missing_same(names: Seq<Seq<char>>, in1: Seq<(Seq<char>, ArgView)>, in2: Seq<(Seq<char>, ArgView)>)
    requires
        forall|n: Seq<char>| #[trigger] input_lookup(in1, n) == input_lookup(in2, n),
    ensures
        first_missing(names, in1) == first_missing(names, in2),
    decreases names.len(),
{
    if names.len() > 0 {
        assert(input_lookup(in1, names[0]) == input_lookup(in2, names[0]));
        lemma_missing_same(names.subrange(1, names.len() as int), in1, in2);
    }
}

/// Binding does not depend on the order of the inputs: two input lists,
/// each without a repeated name, that hold the same (name, argument)
/// pairs either both name only arguments of the expression or both do
/// not; and when they do, they bind to the same outcome.
pub proof fn lemma_bind_order_independent(
    names: Seq<Seq<char>>,
    in1: Seq<(Seq<char>, ArgView)>,
    in2: Seq<(Seq<char>, ArgView)>,
)
    requires
        distinct_keys(in1),
        distinct_keys(in2),
        forall|p: (Seq<char>, ArgView)| in1.contains(p) <==> in2.contains(p),
    ensures
        (first_unknown(in1, names) is None) == (first_unknown(in2, names) is None),
        first_unknown(in1, names) is None ==> spec_bind(names, in1) == spec_bind(names, in2),
{
    lemma_unknown_none(in1, names);
    lemma_unknown_none(in2, names);
    assert forall|n: Seq<char>| #[trigger] input_lookup(in1, n) == input_lookup(in2, n) by {
        lemma_lookup_member(in1, n);
        lemma_lookup_member(in2, n);
        match input_lookup(in1, n) {
            Some(a) => {
                assert(in1.contains((n, a)));
            },
            None => {
                if input_lookup(in2, n) is Some {
                    let a = input_lookup(in2, n)->0;
                    assert(in2.contains((n, a)));
                }
            },
        }
    }
    if first_unknown(in1, names) is None {
        assert forall|i: int| 0 <= i < in2.len() implies names.contains(#[trigger] in2[i].0) by {
            assert(in2.contains(in2[i]));
            let j = choose|j: int| 0 <= j < in1.len() && in1[j] == in2[i];
            assert(names.contains(in1[j].0));
        }
    }
    if first_unknown(in2, names) is None {
        assert forall|i: int| 0 <= i < in1.len() implies names.contains(#[trigger] in1[i].0) by {
            assert(in1.contains(in1[i]));
            let j = choose|j: int| 0 <= j < in2.len() && in2[j] == in1[i];
            assert(names.contains(in2[j].0));
        }
    }
    lemma_missing_same(names, in1, in2);
    assert(bound_args(names, in1) =~= bound_args(names, in2));
}

/// Constant folding keeps the value of a binary node: where folding it
/// succeeds, the folded node evaluates as the node itself does, at any
/// argument values and index slots, to the same value and the same slots.
pub proof fn lemma_fold_binary_keeps_value<B: Fn(NumericOp) -> NumericReply>(
    b: B,
    op: BinaryOp,
    l: Node,
    r: Node,
    args: Seq<NumericValue>,
    env: Seq<NumericValue>,
)
    requires
        fold_binary(b, op, l, r) is Ok,
    ensures
        spec_run(fold_binary(b, op, l, r)->Ok_0, args, env, b) == spec_run(
            Node::Binary(op, Box::new(l), Box::new(r)),
            args,
            env,
            b,
        ),
{
    reveal_with_fuel(spec_run, 2);
}

/// Constant folding keeps the value of a unary node: where folding it
/// succeeds, the folded node evaluates as the node itself does, to the same
/// value and the same index slots.
pub proof fn lemma_fold_unary_keeps_value<B: Fn(NumericOp) -> NumericReply>(
    b: B,
    op: UnaryOp,
    x: Node,
    args: Seq<NumericValue>,
    env: Seq<NumericValue>,
)
    requires
        fold_unary(b, op, x) is Ok,
    ensures
        spec_run(fold_unary(b, op, x)->Ok_0, args, env, b) == spec_run(Node::Unary(op, Box::new(x)), args, env, b),
{
    reveal_with_fuel(spec_run, 2);
}

proof fn lemma_literals_evaluate<B: Fn(NumericOp) -> NumericReply>(
    ns: Seq<Node>,
    args: Seq<NumericValue>,
    env: Seq<NumericValue>,
    b: B,
)
    requires
        all_literal(ns),
    ensures
        spec_run_list(ns, args, env, b) == (Ok::<Seq<NumericValue>, EvalFault>(literal_values(ns)), env),
    decreases ns.len(),
{
    if ns.len() > 0 {
        let d = ns.drop_last();
        assert(all_literal(d)) by {
            assert forall|i: int| 0 <= i < d.len() implies #[trigger] literal_of(d[i]) is Some by {
                assert(d[i] == ns[i]);
            }
        }
        lemma_literals_evaluate(d, args, env, b);
        let l = ns.last();
        assert(literal_of(ns[ns.len() - 1]) is Some);
        assert(spec_run(l, args, env, b) == (Ok::<NumericValue, EvalFault>(literal_of(l)->0), env));
        assert(literal_values(d).push(literal_of(ns.last())->0) =~= literal_values(ns));
    } else {
        assert(literal_values(ns) =~= Seq::<NumericValue>::empty());
    }
}

/// Constant folding keeps the value of a function call: the folded node
/// evaluates as the call itself does, to the same value and the same index
/// slots.
pub proof fn lemma_fold_function_keeps_value<B: Fn(NumericOp) -> NumericReply>(
    b: B,
    kind: BuiltinFn,
    fargs: Seq<Node>,
    args: Seq<NumericValue>,
    env: Seq<NumericValue>,
)
    ensures
        spec_run(fold_function(b, kind, fargs), args, env, b) == spec_run(Node::Function(kind, fargs), args, env, b),
{
    if all_literal(fargs) {
        lemma_literals_evaluate(fargs, args, env, b);
    }
}

/// A sum over an empty range of its index is zero, and a product over an
/// empty range is one, whatever the body; either leaves the index slots
/// grown to hold its own slot, and otherwise as they were.
pub proof fn lemma_empty_range<B: Fn(NumericOp) -> NumericReply>(
    slot: usize,
    lower: i64,
    upper: i64,
    body: Node,
    args: Seq<NumericValue>,
    env: Seq<NumericValue>,
    b: B,
)
    requires
        lower > upper,
    ensures
        spec_run(Node::Sum(slot, lower, upper, Box::new(body)), args, env, b) == (
            Ok::<NumericValue, EvalFault>(NumericValue::Real(ZERO_BITS)),
            grown(env, slot),
        ),
        spec_run(Node::Product(slot, lower, upper, Box::new(body)), args, env, b) == (
            Ok::<NumericValue, EvalFault>(NumericValue::Real(ONE_BITS)),
            grown(env, slot),
        ),
{
    let s = Node::Sum(slot, lower, upper, Box::new(body));
    let p = Node::Product(slot, lower, upper, Box::new(body));
    let g = grown(env, slot);
    assert(spec_run_loop(s, lower as int, NumericValue::Real(ZERO_BITS), args, g, b) == (
        Ok::<NumericValue, EvalFault>(NumericValue::Real(ZERO_BITS)),
        g,
    ));
    assert(spec_run_loop(p, lower as int, NumericValue::Real(ONE_BITS), args, g, b) == (
        Ok::<NumericValue, EvalFault>(NumericValue::Real(ONE_BITS)),
        g,
    ));
}

/// The names of a scope stack, innermost last.
pub open spec fn scope_names(scopes: Seq<(Seq<char>, usize)>) -> Seq<Seq<char>> {
    scopes.map_values(|p: (Seq<char>, usize)| p.0)
}

/// The occurrences, left to right, of the variables of a tree that are
/// neither index variables of an enclosing sum or product (their names in
/// `bound`, which grows inward) nor constants.
pub open spec fn free_occurrences(e: Expr, bound: Seq<Seq<char>>, cs: Seq<(Seq<char>, NumericValue)>) -> Seq<Seq<char>>
    decreases e, 1int,
{
    match e {
        Expr::Variable(name) => if bound.contains(name@) || constant_lookup(cs, name@) is Some {
            Seq::empty()
        } else {
            seq![name@]
        },
        Expr::Rational { numerator, denominator } => free_occurrences(*numerator, bound, cs) + free_occurrences(
            *denominator,
            bound,
            cs,
        ),
        Expr::Complex { real: re, imaginary: im } => free_occurrences(*re, bound, cs) + free_occurrences(*im, bound, cs),
        Expr::Binary { left, right, .. } => free_occurrences(*left, bound, cs) + free_occurrences(*right, bound, cs),
        Expr::Unary { operand, .. } => free_occurrences(*operand, bound, cs),
        Expr::Function { args, .. } => free_occurrences_list(args@, bound, cs),
        Expr::Sum { index, lower, upper, body, .. } | Expr::Product { index, lower, upper, body, .. } =>
            free_occurrences(*lower, bound, cs) + free_occurrences(*upper, bound, cs) + free_occurrences(
            *body,
            bound.push(index@),
            cs,
        ),
        _ => Seq::empty(),
    }
}

/// The free occurrences of a sequence of trees, left to right.
pub open spec fn free_occurrences_list(
    args: Seq<Expr>,
    bound: Seq<Seq<char>>,
    cs: Seq<(Seq<char>, NumericValue)>,
) -> Seq<Seq<char>>
    decreases args, 0int,
{
    if args.len() == 0 {
        Seq::empty()
    } else {
        free_occurrences_list(args.drop_last(), bound, cs) + free_occurrences(args.last(), bound, cs)
    }
}

/// `acc` followed by the names of `names` that are not already there,
/// each once, in order of first appearance.
pub open spec fn first_appearances(acc: Seq<Seq<char>>, names: Seq<Seq<char>>) -> Seq<Seq<char>>
    decreases names.len(),
{
    if names.len() == 0 {
        acc
    } else {
        let a = first_appearances(acc, names.drop_last());
        if a.contains(names.last()) {
            a
        } else {
            a.push(names.last())
        }
    }
}

proof fn lemma_first_appearances_append(acc: Seq<Seq<char>>, x: Seq<Seq<char>>, y: Seq<Seq<char>>)
    ensures
        first_appearances(acc, x + y) == first_appearances(first_appearances(acc, x), y),
    decreases y.len(),
{
    if y.len() == 0 {
        assert(x + y =~= x);
    } else {
        assert((x + y).drop_last() =~= x + y.drop_last());
        assert((x + y).last() == y.last());
        lemma_first_appearances_append(acc, x, y.drop_last());
    }
}

proof fn lemma_scope_lookup(scopes: Seq<(Seq<char>, usize)>, name: Seq<char>)
    ensures
        (scope_lookup(scopes, name) is Some) == scope_names(scopes).contains(name),
    decreases scopes.len(),
{
    if scopes.len() > 0 {
        let d = scopes.drop_last();
        lemma_scope_lookup(d, name);
        assert(scope_names(scopes) =~= scope_names(d).push(scopes.last().0));
        if scope_names(d).contains(name) {
            let i = choose|i: int| 0 <= i < scope_names(d).len() && scope_names(d)[i] == name;
            assert(scope_names(scopes)[i] == name);
        }
        if scope_names(scopes).contains(name) && scopes.last().0 != name {
            let i = choose|i: int| 0 <= i < scope_names(scopes).len() && scope_names(scopes)[i] == name;
            assert(i < d.len());
            assert(scope_names(d)[i] == name);
        }
        if scopes.last().0 == name {
            assert(scope_names(scopes)[scopes.len() - 1] == name);
        }
    }
}

proof fn lemma_position_of(names: Seq<Seq<char>>, name: Seq<char>)
    ensures
        (position_of(names, name) is Some) == names.contains(name),
    decreases names.len(),
{
    if names.contains(name) {
        let i = choose|i: int| 0 <= i < names.len() && names[i] == name;
        let d = names.drop_last();
        lemma_position_of(d, name);
        if d.contains(name) {
            let p = choose|p: int| first_position(d, name, p);
            assert(d[p] == names[p]);
            assert forall|j: int| 0 <= j < p implies names[j] != name by {
                assert(d[j] == names[j]);
            }
            assert(first_position(names, name, p));
        } else {
            assert(names[names.len() - 1] == name) by {
                if i < names.len() - 1 {
                    assert(d[i] == name);
                }
            }
            assert forall|j: int| 0 <= j < names.len() - 1 implies names[j] != name by {
                if names[j] == name {
                    assert(d[j] == name);
                }
            }
            assert(first_position(names, name, names.len() - 1));
        }
    } else {
        if exists|p: int| first_position(names, name, p) {
            let p = choose|p: int| first_position(names, name, p);
            assert(names[p] == name);
        }
    }
}

proof fn lemma_fold_arguments<B: Fn(NumericOp) -> NumericReply>(
    e: Expr,
    st: FoldState,
    cs: Seq<(Seq<char>, NumericValue)>,
    b: B,
)
    ensures
        spec_fold(e, st, cs, b).0 is Ok ==> spec_fold(e, st, cs, b).1.scopes == st.scopes && spec_fold(
            e,
            st,
            cs,
            b,
        ).1.arguments == first_appearances(st.arguments, free_occurrences(e, scope_names(st.scopes), cs)),
    decreases e, 1int,
{
    let bound = scope_names(st.scopes);
    match e {
        Expr::Variable(name) => {
            lemma_scope_lookup(st.scopes, name@);
            lemma_position_of(st.arguments, name@);
            let fo = free_occurrences(e, bound, cs);
            if bound.contains(name@) || constant_lookup(cs, name@) is Some {
                assert(fo =~= Seq::<Seq<char>>::empty());
            } else {
                assert(fo == seq![name@]);
                assert(fo.drop_last() =~= Seq::<Seq<char>>::empty());
                assert(fo.last() == name@);
                assert(first_appearances(st.arguments, fo.drop_last()) == st.arguments);
            }
        },
        Expr::Rational { numerator, denominator } => {
            lemma_fold_arguments(*numerator, st, cs, b);
            let s1 = spec_fold(*numerator, st, cs, b).1;
            lemma_fold_arguments(*denominator, s1, cs, b);
            lemma_first_appearances_append(
                st.arguments,
                free_occurrences(*numerator, bound, cs),
                free_occurrences(*denominator, bound, cs),
            );
        },
        Expr::Complex { real: re, imaginary: im } => {
            let s0 = FoldState { has_complex: true, ..st };
            lemma_fold_arguments(*re, s0, cs, b);
            let s1 = spec_fold(*re, s0, cs, b).1;
            lemma_fold_arguments(*im, s1, cs, b);
            lemma_first_appearances_append(st.arguments, free_occurrences(*re, bound, cs), free_occurrences(*im, bound, cs));
        },
        Expr::Binary { op, left, right } => {
            lemma_fold_arguments(*left, st, cs, b);
            let s1 = spec_fold(*left, st, cs, b).1;
            lemma_fold_arguments(*right, s1, cs, b);
            lemma_first_appearances_append(st.arguments, free_occurrences(*left, bound, cs), free_occurrences(*right, bound, cs));
        },
        Expr::Unary { op, operand } => {
            lemma_fold_arguments(*operand, st, cs, b);
        },
        Expr::Function { name, args } => {
            lemma_fold_list_arguments(args@, st, cs, b);
        },
        Expr::Sum { index, lower, upper, body, .. } | Expr::Product { index, lower, upper, body, .. } => {
            assert(spec_fold(e, st, cs, b) == spec_fold_binder(e, st, cs, b));
            lemma_fold_arguments(*lower, st, cs, b);
            let (rl, s1) = spec_fold(*lower, st, cs, b);
            lemma_fold_arguments(*upper, s1, cs, b);
            let (ru, s2) = spec_fold(*upper, s1, cs, b);
            if rl is Ok && ru is Ok && spec_bound(b, rl->Ok_0) is Some && spec_bound(b, ru->Ok_0) is Some {
                let slot = s2.next_slot as usize;
                let s3 = FoldState { scopes: s2.scopes.push((index@, slot)), next_slot: s2.next_slot + 1, ..s2 };
                lemma_fold_arguments(*body, s3, cs, b);
                let s4 = spec_fold(*body, s3, cs, b).1;
                if spec_fold(*body, s3, cs, b).0 is Ok {
                    assert(scope_names(s3.scopes) =~= bound.push(index@));
                    assert(s4.scopes.drop_last() =~= st.scopes);
                    let fl = free_occurrences(*lower, bound, cs);
                    let fu = free_occurrences(*upper, bound, cs);
                    let fb = free_occurrences(*body, bound.push(index@), cs);
                    lemma_first_appearances_append(st.arguments, fl, fu);
                    lemma_first_appearances_append(st.arguments, fl + fu, fb);
                }
            }
        },
        _ => {},
    }
}

proof fn lemma_fold_list_arguments<B: Fn(NumericOp) -> NumericReply>(
    args: Seq<Expr>,
    st: FoldState,
    cs: Seq<(Seq<char>, NumericValue)>,
    b: B,
)
    ensures
        spec_fold_list(args, st, cs, b).0 is Ok ==> spec_fold_list(args, st, cs, b).1.scopes == st.scopes
            && spec_fold_list(args, st, cs, b).1.arguments == first_appearances(
            st.arguments,
            free_occurrences_list(args, scope_names(st.scopes), cs),
        ),
    decreases args, 0int,
{
    if args.len() > 0 {
        let bound = scope_names(st.scopes);
        lemma_fold_list_arguments(args.drop_last(), st, cs, b);
        let s1 = spec_fold_list(args.drop_last(), st, cs, b).1;
        lemma_fold_arguments(args.last(), s1, cs, b);
        lemma_first_appearances_append(
            st.arguments,
            free_occurrences_list(args.drop_last(), bound, cs),
            free_occurrences(args.last(), bound, cs),
        );
    }
}

/// The arguments of a compiled expression are its free variables: the
/// variables that are neither the index of an enclosing sum or product nor
/// given as constants, each once, in order of first appearance.
pub proof fn lemma_arguments_are_free_variables<B: Fn(NumericOp) -> NumericReply>(
    e: Expr,
    cs: Seq<(Seq<char>, NumericValue)>,
    b: B,
)
    requires
        spec_compile(e, cs, b) is Ok,
    ensures
        spec_compile(e, cs, b)->Ok_0.argument_names == first_appearances(
            Seq::empty(),
            free_occurrences(e, Seq::empty(), cs),
        ),
{
    lemma_fold_arguments(e, initial_state(), cs, b);
    assert(scope_names(initial_state().scopes) =~= Seq::<Seq<char>>::empty());
}

proof fn lemma_product_zero(shape: Seq<usize>, j: int)
    requires
        0 <= j < shape.len(),
        shape[j] == 0,
    ensures
        spec_product(shape) == 0,
    decreases shape.len(),
{
    if j < shape.len() - 1 {
        assert(shape.drop_last()[j] == 0);
        lemma_product_zero(shape.drop_last(), j);
        assert(spec_product(shape) == 0 * (shape.last() as nat));
    }
}

/// An empty array argument empties the output: the Cartesian product with
/// an empty factor has no elements.
pub proof fn lemma_empty_array_empty_output(args: Seq<ArgView>, i: int)
    requires
        args.len() <= usize::MAX,
        0 <= i < args.len(),
        args[i] matches ArgView::Array(s) && s.len() == 0,
    ensures
        spec_product(spec_shape(args)) == 0,
{
    lemma_axis_step(args, i);
    lemma_product_zero(spec_shape(args), axis_of(args, i));
}

/// Whether an argument is an array with no elements.
pub open spec fn is_empty_array(a: ArgView) -> bool {
    a matches ArgView::Array(s) && s.len() == 0
}

proof fn lemma_lengths_product_zero(args: Seq<ArgView>)
    ensures
        array_lengths_product(args) == 0 ==> exists|i: int| 0 <= i < args.len() && #[trigger] is_empty_array(args[i]),
    decreases args.len(),
{
    if args.len() > 0 {
        let d = args.drop_last();
        lemma_lengths_product_zero(d);
        let p = array_lengths_product(d);
        if array_lengths_product(args) == 0 {
            if p == 0 {
                let i = choose|i: int| 0 <= i < d.len() && #[trigger] is_empty_array(d[i]);
                assert(args[i] == d[i]);
            } else {
                let last = args.len() - 1;
                if let ArgView::Array(s) = args.last() {
                    let q = s.len();
                    assert(p * q == 0 && p != 0 ==> q == 0) by (nonlinear_arith);
                }
                assert(is_empty_array(args[last]));
            }
        }
    }
}

/// The output is empty exactly when some array argument is empty.
pub proof fn lemma_empty_output_iff_empty_array(args: Seq<ArgView>)
    requires
        args.len() <= usize::MAX,
        forall|i: int| 0 <= i < args.len() ==> arg_len(#[trigger] args[i]) <= usize::MAX,
    ensures
        spec_product(spec_shape(args)) == 0 <==> exists|i: int|
            0 <= i < args.len() && #[trigger] is_empty_array(args[i]),
{
    lemma_output_length(args);
    lemma_lengths_product_zero(args);
    if exists|i: int| 0 <= i < args.len() && #[trigger] is_empty_array(args[i]) {
        let i = choose|i: int| 0 <= i < args.len() && #[trigger] is_empty_array(args[i]);
        lemma_empty_array_empty_output(args, i);
    }
}

/// The outcome of a binary operation on two outcomes: the first error, or
/// the operation's value, or a division by zero.
pub open spec fn binary_outcome<B: Fn(NumericOp) -> NumericReply>(
    b: B,
    op: BinaryOp,
    l: Result<NumericValue, EvalFault>,
    r: Result<NumericValue, EvalFault>,
) -> Result<NumericValue, EvalFault> {
    match l {
        Err(x) => Err(x),
        Ok(lv) => match r {
            Err(x) => Err(x),
            Ok(rv) => match spec_binary(b, op, lv, rv) {
                Some(v) => Ok(v),
                None => Err(EvalFault::DivisionByZero),
            },
        },
    }
}

/// The outcome of a unary operation on an outcome.
pub open spec fn unary_outcome<B: Fn(NumericOp) -> NumericReply>(
    b: B,
    op: UnaryOp,
    x: Result<NumericValue, EvalFault>,
) -> Result<NumericValue, EvalFault> {
    match x {
        Err(f) => Err(f),
        Ok(v) => match spec_unary(b, op, v) {
            Ok(r) => Ok(r),
            Err(_) => Err(EvalFault::NumericOverflow),
        },
    }
}

/// The value of the innermost index variable named `name`, if any.
pub open spec fn index_lookup(ix: Seq<(Seq<char>, NumericValue)>, name: Seq<char>) -> Option<NumericValue>
    decreases ix.len(),
{
    if ix.len() == 0 {
        None
    } else if ix.last().0 == name {
        Some(ix.last().1)
    } else {
        index_lookup(ix.drop_last(), name)
    }
}

/// The integer that a bound's value stands for, if any.
pub open spec fn bound_of<B: Fn(NumericOp) -> NumericReply>(b: B, r: Result<NumericValue, EvalFault>) -> Option<i64> {
    match r {
        Ok(NumericValue::Real(bits)) => match reply(b, NumericOp::IntegerBound(bits)) {
            NumericReply::Bound(o) => o,
            _ => None,
        },
        _ => None,
    }
}

/// The value of a tree computed on the tree itself, with the arguments
/// `vs` named by `names`, the constants `cs`, and the index variables of
/// the enclosing sums and products `ix` (innermost last): a variable is the
/// innermost index variable of its name, else its constant's value, else
/// the value of its argument; numbers, named constants, operators and
/// function calls compute as evaluation does, the complex number `a + bi`
/// as `a + b * i`; a sum (product) runs its index from the integer its
/// lower bound stands for to the one its upper bound stands for, adding
/// (multiplying) the body's values into zero (one).
pub open spec fn tree_value<B: Fn(NumericOp) -> NumericReply>(
    e: Expr,
    cs: Seq<(Seq<char>, NumericValue)>,
    names: Seq<Seq<char>>,
    vs: Seq<NumericValue>,
    ix: Seq<(Seq<char>, NumericValue)>,
    b: B,
) -> Result<NumericValue, EvalFault>
    decreases e, 2int, 0int,
{
    match e {
        Expr::Integer(v) => Ok(value_of(b, NumericOp::FromInteger(v))),
        Expr::Float(bits) => Ok(NumericValue::Real(bits)),
        Expr::Variable(name) => match index_lookup(ix, name@) {
            Some(v) => Ok(v),
            None => match constant_lookup(cs, name@) {
                Some(v) => Ok(v),
                None => Ok(vs[position_of(names, name@)->0]),
            },
        },
        Expr::Constant(mc) => match fold_constant(mc, initial_state()).0 {
            Ok(n) => literal_value(n),
            Err(_) => Err(EvalFault::NumericOverflow),
        },
        Expr::Rational { numerator, denominator } => binary_outcome(
            b,
            BinaryOp::Div,
            tree_value(*numerator, cs, names, vs, ix, b),
            tree_value(*denominator, cs, names, vs, ix, b),
        ),
        Expr::Complex { real: re, imaginary: im } => binary_outcome(
            b,
            BinaryOp::Add,
            tree_value(*re, cs, names, vs, ix, b),
            binary_outcome(
                b,
                BinaryOp::Mul,
                tree_value(*im, cs, names, vs, ix, b),
                Ok(NumericValue::Complex { re: ZERO_BITS, im: ONE_BITS }),
            ),
        ),
        Expr::Binary { op, left, right } => match convert_binary_op(op) {
            Some(bop) => binary_outcome(
                b,
                bop,
                tree_value(*left, cs, names, vs, ix, b),
                tree_value(*right, cs, names, vs, ix, b),
            ),
            None => Err(EvalFault::NumericOverflow),
        },
        Expr::Unary { op, operand } => match op {
            AstUnaryOp::Neg => unary_outcome(b, UnaryOp::Neg, tree_value(*operand, cs, names, vs, ix, b)),
            AstUnaryOp::Factorial => unary_outcome(b, UnaryOp::Factorial, tree_value(*operand, cs, names, vs, ix, b)),
            _ => tree_value(*operand, cs, names, vs, ix, b),
        },
        Expr::Function { name, args } => match tree_values(args@, cs, names, vs, ix, b) {
            Err(x) => Err(x),
            Ok(vals) => Ok(spec_apply(b, spec_resolve(name@)->0, vals)),
        },
        Expr::Sum { lower, upper, .. } | Expr::Product { lower, upper, .. } => match (
            bound_of(b, tree_value(*lower, cs, names, vs, ix, b)),
            bound_of(b, tree_value(*upper, cs, names, vs, ix, b)),
        ) {
            (Some(lo), Some(hi)) => tree_loop(
                e,
                hi as int,
                lo as int,
                if e is Sum { NumericValue::Real(ZERO_BITS) } else { NumericValue::Real(ONE_BITS) },
                cs,
                names,
                vs,
                ix,
                b,
            ),
            _ => Err(EvalFault::NumericOverflow),
        },
        _ => Err(EvalFault::NumericOverflow),
    }
}

/// The remaining iterations of a sum or product from index value `i` up to
/// `hi`, with the accumulated value `acc`.
pub open spec fn tree_loop<B: Fn(NumericOp) -> NumericReply>(
    e: Expr,
    hi: int,
    i: int,
    acc: NumericValue,
    cs: Seq<(Seq<char>, NumericValue)>,
    names: Seq<Seq<char>>,
    vs: Seq<NumericValue>,
    ix: Seq<(Seq<char>, NumericValue)>,
    b: B,
) -> Result<NumericValue, EvalFault>
    decreases e, 1int, hi + 1 - i,
{
    match e {
        Expr::Sum { index, body, .. } | Expr::Product { index, body, .. } => {
            if i > hi {
                Ok(acc)
            } else {
                let ixi = ix.push((index@, value_of(b, NumericOp::FromInteger(i as i64))));
                match tree_value(*body, cs, names, vs, ixi, b) {
                    Err(x) => Err(x),
                    Ok(v) => {
                        let op = if e is Sum { BinaryOp::Add } else { BinaryOp::Mul };
                        tree_loop(e, hi, i + 1, value_of(b, NumericOp::Binary(op, acc, v)), cs, names, vs, ix, b)
                    },
                }
            }
        },
        _ => Ok(acc),
    }
}

/// The values of a sequence of trees, left to right, up to the first error.
pub open spec fn tree_values<B: Fn(NumericOp) -> NumericReply>(
    args: Seq<Expr>,
    cs: Seq<(Seq<char>, NumericValue)>,
    names: Seq<Seq<char>>,
    vs: Seq<NumericValue>,
    ix: Seq<(Seq<char>, NumericValue)>,
    b: B,
) -> Result<Seq<NumericValue>, EvalFault>
    decreases args, 0int, 0int,
{
    if args.len() == 0 {
        Ok(Seq::empty())
    } else {
        match tree_values(args.drop_last(), cs, names, vs, ix, b) {
            Err(x) => Err(x),
            Ok(ws) => match tree_value(args.last(), cs, names, vs, ix, b) {
                Err(x) => Err(x),
                Ok(w) => Ok(ws.push(w)),
            },
        }
    }
}

/// The value of a literal node.
pub open spec fn literal_value(n: Node) -> Result<NumericValue, EvalFault> {
    match n {
        Node::Literal(bits) => Ok(NumericValue::Real(bits)),
        Node::ComplexLiteral(re, im) => Ok(NumericValue::Complex { re, im }),
        _ => Err(EvalFault::NumericOverflow),
    }
}

/// Whether the scopes of a folding state agree with the index slots `env`
/// of evaluation and the index variables `ix` of the tree: the same names
/// in the same order, each slot holding its variable's value, the slots
/// increasing inward and below `next`.
pub open spec fn scopes_agree(
    scopes: Seq<(Seq<char>, usize)>,
    env: Seq<NumericValue>,
    ix: Seq<(Seq<char>, NumericValue)>,
    next: nat,
) -> bool {
    &&& scopes.len() == ix.len()
    &&& forall|k: int|
        0 <= k < scopes.len() ==> #[trigger] scopes[k].0 == ix[k].0 && scopes[k].1 < env.len() && env[scopes[k].1 as int]
            == ix[k].1 && scopes[k].1 < next
    &&& forall|k1: int, k2: int| 0 <= k1 < k2 < scopes.len() ==> scopes[k1].1 < scopes[k2].1
}

proof fn lemma_index_lookup(
    scopes: Seq<(Seq<char>, usize)>,
    env: Seq<NumericValue>,
    ix: Seq<(Seq<char>, NumericValue)>,
    next: nat,
    name: Seq<char>,
)
    requires
        scopes_agree(scopes, env, ix, next),
    ensures
        match scope_lookup(scopes, name) {
            Some(slot) => slot < env.len() && index_lookup(ix, name) == Some(env[slot as int]),
            None => index_lookup(ix, name) is None,
        },
    decreases scopes.len(),
{
    if scopes.len() > 0 {
        let k = scopes.len() - 1;
        assert(scopes[k].0 == ix[k].0);
        let d = scopes.drop_last();
        let dx = ix.drop_last();
        assert(scopes_agree(d, env, dx, next)) by {
            assert forall|q: int| 0 <= q < d.len() implies #[trigger] d[q].0 == dx[q].0 && d[q].1 < env.len()
                && env[d[q].1 as int] == dx[q].1 && d[q].1 < next by {
                assert(d[q] == scopes[q] && dx[q] == ix[q]);
            }
        }
        lemma_index_lookup(d, env, dx, next, name);
    }
}

proof fn lemma_scopes_agree_later(
    scopes: Seq<(Seq<char>, usize)>,
    env: Seq<NumericValue>,
    ix: Seq<(Seq<char>, NumericValue)>,
    next: nat,
    later: nat,
)
    requires
        scopes_agree(scopes, env, ix, next),
        next <= later,
    ensures
        scopes_agree(scopes, env, ix, later),
{
}

proof fn lemma_scopes_agree_frame(
    scopes: Seq<(Seq<char>, usize)>,
    env: Seq<NumericValue>,
    env1: Seq<NumericValue>,
    ix: Seq<(Seq<char>, NumericValue)>,
    next: nat,
)
    requires
        scopes_agree(scopes, env, ix, next),
        env1.len() >= env.len(),
        forall|j: int| 0 <= j < next && j < env.len() ==> #[trigger] env1[j] == env[j],
    ensures
        scopes_agree(scopes, env1, ix, next),
{
    assert forall|k: int| 0 <= k < scopes.len() implies #[trigger] scopes[k].0 == ix[k].0 && scopes[k].1 < env1.len()
        && env1[scopes[k].1 as int] == ix[k].1 && scopes[k].1 < next by {
        assert(scopes[k].0 == ix[k].0);
        let j = scopes[k].1 as int;
        assert(0 <= j < next && j < env.len());
        assert(env1[j] == env[j]);
    }
}

proof fn lemma_scopes_agree_push(
    scopes: Seq<(Seq<char>, usize)>,
    env: Seq<NumericValue>,
    ix: Seq<(Seq<char>, NumericValue)>,
    next: nat,
    name: Seq<char>,
    v: NumericValue,
)
    requires
        scopes_agree(scopes, env, ix, next),
        next < env.len(),
        next <= usize::MAX,
    ensures
        scopes_agree(
            scopes.push((name, next as usize)),
            env.update(next as int, v),
            ix.push((name, v)),
            next + 1,
        ),
{
    let slot = next as usize;
    let env2 = env.update(next as int, v);
    let sc2 = scopes.push((name, slot));
    let ix2 = ix.push((name, v));
    assert forall|k: int| 0 <= k < sc2.len() implies #[trigger] sc2[k].0 == ix2[k].0 && sc2[k].1 < env2.len()
        && env2[sc2[k].1 as int] == ix2[k].1 && sc2[k].1 < next + 1 by {
        if k < scopes.len() {
            assert(sc2[k] == scopes[k] && ix2[k] == ix[k]);
            assert(scopes[k].0 == ix[k].0);
            assert(scopes[k].1 < env.len());
            assert(scopes[k].1 != slot);
            assert(env2[scopes[k].1 as int] == env[scopes[k].1 as int]);
        } else {
            assert(sc2[k] == (name, slot));
            assert(env2[slot as int] == v);
        }
    }
    assert forall|k1: int, k2: int| 0 <= k1 < k2 < sc2.len() implies sc2[k1].1 < sc2[k2].1 by {
        assert(sc2[k1] == scopes[k1]);
        assert(scopes[k1].0 == ix[k1].0);
        if k2 < scopes.len() {
            assert(sc2[k2] == scopes[k2]);
        }
    }
}

/// Whether evaluating a body at index value `i`, in the index slots `env`
/// with the slot set to `i`, agrees with computing it on the tree.
pub open spec fn body_agrees<B: Fn(NumericOp) -> NumericReply>(
    nb: Node,
    slot: usize,
    body: Expr,
    index: Seq<char>,
    i: int,
    cs: Seq<(Seq<char>, NumericValue)>,
    names: Seq<Seq<char>>,
    vs: Seq<NumericValue>,
    env: Seq<NumericValue>,
    ix: Seq<(Seq<char>, NumericValue)>,
    b: B,
) -> bool {
    let v = value_of(b, NumericOp::FromInteger(i as i64));
    spec_eval(nb, vs, env.update(slot as int, v), b) == tree_value(body, cs, names, vs, ix.push((index, v)), b)
}

proof fn lemma_loop_value<B: Fn(NumericOp) -> NumericReply>(
    e: Expr,
    n: Node,
    slot: usize,
    lo: i64,
    hi: i64,
    nb: Node,
    body: Expr,
    index: Seq<char>,
    scopes: Seq<(Seq<char>, usize)>,
    i: int,
    acc: NumericValue,
    cs: Seq<(Seq<char>, NumericValue)>,
    names: Seq<Seq<char>>,
    vs: Seq<NumericValue>,
    env: Seq<NumericValue>,
    ix: Seq<(Seq<char>, NumericValue)>,
    b: B,
)
    requires
        e is Sum || e is Product,
        n == (if e is Sum { Node::Sum(slot, lo, hi, Box::new(nb)) } else { Node::Product(slot, lo, hi, Box::new(nb)) }),
        body == (if e is Sum { *e->Sum_body } else { *e->Product_body }),
        index == (if e is Sum { e->Sum_index@ } else { e->Product_index@ }),
        slots_from(nb, (slot + 1) as nat),
        scopes_agree(scopes, env, ix, slot as nat),
        slot < env.len(),
        forall|k: int, env2: Seq<NumericValue>|
            i <= k <= hi && scopes_agree(scopes, env2, ix, slot as nat) && slot < env2.len()
                ==> #[trigger] body_agrees(nb, slot, body, index, k, cs, names, vs, env2, ix, b),
    ensures
        spec_run_loop(n, i, acc, vs, env, b).0 == tree_loop(e, hi as int, i, acc, cs, names, vs, ix, b),
    decreases hi + 1 - i,
{
    if i <= hi {
        assert(body_agrees(nb, slot, body, index, i, cs, names, vs, env, ix, b));
        let v = value_of(b, NumericOp::FromInteger(i as i64));
        let env2 = env.update(slot as int, v);
        let (r, e3) = spec_run(nb, vs, env2, b);
        match r {
            Ok(w) => {
                let op = if e is Sum { BinaryOp::Add } else { BinaryOp::Mul };
                lemma_run_frame(nb, vs, env2, b, (slot + 1) as nat);
                assert forall|j: int| 0 <= j < slot && j < env.len() implies #[trigger] e3[j] == env[j] by {
                    assert(e3[j] == env2[j]);
                }
                lemma_scopes_agree_frame(scopes, env, e3, ix, slot as nat);
                lemma_loop_value(
                    e,
                    n,
                    slot,
                    lo,
                    hi,
                    nb,
                    body,
                    index,
                    scopes,
                    i + 1,
                    value_of(b, NumericOp::Binary(op, acc, w)),
                    cs,
                    names,
                    vs,
                    e3,
                    ix,
                    b,
                );
            },
            Err(_) => {},
        }
    }
}

proof fn lemma_slots_from_lower(n: Node, k1: nat, k2: nat)
    requires
        slots_from(n, k2),
        k1 <= k2,
    ensures
        slots_from(n, k1),
    decreases n,
{
    match n {
        Node::Binary(_, l, r) => {
            lemma_slots_from_lower(*l, k1, k2);
            lemma_slots_from_lower(*r, k1, k2);
        },
        Node::Unary(_, x) => lemma_slots_from_lower(*x, k1, k2),
        Node::Function(_, fargs) => {
            assert forall|i: int| 0 <= i < fargs.len() implies slots_from(#[trigger] fargs[i], k1) by {
                lemma_slots_from_lower(fargs[i], k1, k2);
            }
        },
        Node::Sum(_, _, _, body) | Node::Product(_, _, _, body) => lemma_slots_from_lower(*body, k1, k2),
        _ => {},
    }
}

proof fn lemma_fold_slots_from<B: Fn(NumericOp) -> NumericReply>(
    e: Expr,
    st: FoldState,
    cs: Seq<(Seq<char>, NumericValue)>,
    b: B,
)
    ensures
        spec_fold(e, st, cs, b).0 is Ok && st.next_slot + binders(e) <= usize::MAX ==> slots_from(
            spec_fold(e, st, cs, b).0->Ok_0,
            st.next_slot,
        ),
    decreases e, 1int,
{
    match e {
        Expr::Rational { numerator: x, denominator: y } => {
            lemma_fold_slots_from(*x, st, cs, b);
            lemma_fold_slots(*x, st, cs, b);
            let s1 = spec_fold(*x, st, cs, b).1;
            lemma_fold_slots_from(*y, s1, cs, b);
            if spec_fold(*x, st, cs, b).0 is Ok && spec_fold(*y, s1, cs, b).0 is Ok && st.next_slot + binders(e)
                <= usize::MAX {
                lemma_slots_from_lower(spec_fold(*y, s1, cs, b).0->Ok_0, st.next_slot, s1.next_slot);
            }
        },
        Expr::Binary { left: x, right: y, .. } => {
            lemma_fold_slots_from(*x, st, cs, b);
            lemma_fold_slots(*x, st, cs, b);
            let s1 = spec_fold(*x, st, cs, b).1;
            lemma_fold_slots_from(*y, s1, cs, b);
            if spec_fold(*x, st, cs, b).0 is Ok && spec_fold(*y, s1, cs, b).0 is Ok && st.next_slot + binders(e)
                <= usize::MAX {
                lemma_slots_from_lower(spec_fold(*y, s1, cs, b).0->Ok_0, st.next_slot, s1.next_slot);
            }
        },
        Expr::Complex { real: re, imaginary: im } => {
            let s0 = FoldState { has_complex: true, ..st };
            lemma_fold_slots_from(*re, s0, cs, b);
            lemma_fold_slots(*re, s0, cs, b);
            let s1 = spec_fold(*re, s0, cs, b).1;
            lemma_fold_slots_from(*im, s1, cs, b);
            if spec_fold(*re, s0, cs, b).0 is Ok && spec_fold(*im, s1, cs, b).0 is Ok && st.next_slot + binders(e)
                <= usize::MAX {
                let n1 = spec_fold(*re, s0, cs, b).0->Ok_0;
                let n2 = spec_fold(*im, s1, cs, b).0->Ok_0;
                lemma_slots_from_lower(n2, st.next_slot, s1.next_slot);
                let m = fold_binary(b, BinaryOp::Mul, n2, Node::ComplexLiteral(ZERO_BITS, ONE_BITS));
                if m is Ok {
                    assert(slots_from(Node::ComplexLiteral(ZERO_BITS, ONE_BITS), st.next_slot));
                    if let Some(v) = spec_binary(b, BinaryOp::Mul, literal_of(n2)->0, NumericValue::Complex { re: ZERO_BITS, im: ONE_BITS }) {
                        assert(slots_from(node_of(v), st.next_slot));
                    }
                    assert(slots_from(m->Ok_0, st.next_slot));
                    assert(spec_fold(e, st, cs, b).0 == fold_binary(b, BinaryOp::Add, n1, m->Ok_0));
                }
            }
        },
        Expr::Unary { operand, .. } => {
            lemma_fold_slots_from(*operand, st, cs, b);
        },
        Expr::Function { args, .. } => {
            lemma_fold_list_slots_from(args@, st, cs, b);
        },
        Expr::Sum { index, lower, upper, body, .. } | Expr::Product { index, lower, upper, body, .. } => {
            assert(spec_fold(e, st, cs, b) == spec_fold_binder(e, st, cs, b));
            lemma_fold_slots(*lower, st, cs, b);
            let s1 = spec_fold(*lower, st, cs, b).1;
            lemma_fold_slots(*upper, s1, cs, b);
            let s2 = spec_fold(*upper, s1, cs, b).1;
            let slot = s2.next_slot as usize;
            let s3 = FoldState { scopes: s2.scopes.push((index@, slot)), next_slot: s2.next_slot + 1, ..s2 };
            lemma_fold_slots_from(*body, s3, cs, b);
            if spec_fold(e, st, cs, b).0 is Ok && st.next_slot + binders(e) <= usize::MAX {
                lemma_slots_from_lower(spec_fold(*body, s3, cs, b).0->Ok_0, st.next_slot, s3.next_slot);
            }
        },
        _ => {},
    }
}

proof fn lemma_fold_list_slots_from<B: Fn(NumericOp) -> NumericReply>(
    args: Seq<Expr>,
    st: FoldState,
    cs: Seq<(Seq<char>, NumericValue)>,
    b: B,
)
    ensures
        spec_fold_list(args, st, cs, b).0 is Ok && st.next_slot + binders_list(args) <= usize::MAX ==> forall|i: int|
            0 <= i < spec_fold_list(args, st, cs, b).0->Ok_0.len() ==> slots_from(
                #[trigger] spec_fold_list(args, st, cs, b).0->Ok_0[i],
                st.next_slot,
            ),
    decreases args, 0int,
{
    if args.len() > 0 {
        let d = args.drop_last();
        lemma_fold_list_slots_from(d, st, cs, b);
        lemma_fold_list_slots(d, st, cs, b);
        let (rs, s1) = spec_fold_list(d, st, cs, b);
        lemma_fold_slots_from(args.last(), s1, cs, b);
        let (r, s2) = spec_fold(args.last(), s1, cs, b);
        if rs is Ok && r is Ok && st.next_slot + binders_list(args) <= usize::MAX {
            let ns = rs->Ok_0;
            let all = ns.push(r->Ok_0);
            lemma_slots_from_lower(r->Ok_0, st.next_slot, s1.next_slot);
            assert forall|i: int| 0 <= i < all.len() implies slots_from(#[trigger] all[i], st.next_slot) by {
                if i < ns.len() {
                    assert(all[i] == ns[i]);
                }
            }
        }
    }
}

proof fn lemma_first_appearances_extends(acc: Seq<Seq<char>>, names: Seq<Seq<char>>)
    ensures
        is_prefix(acc, first_appearances(acc, names)),
    decreases names.len(),
{
    if names.len() > 0 {
        lemma_first_appearances_extends(acc, names.drop_last());
        let a = first_appearances(acc, names.drop_last());
        assert(a.push(names.last()).subrange(0, acc.len() as int) =~= a.subrange(0, acc.len() as int));
    } else {
        assert(acc.subrange(0, acc.len() as int) =~= acc);
    }
}

proof fn lemma_prefix_chain(a: Seq<Seq<char>>, m: Seq<Seq<char>>, c: Seq<Seq<char>>)
    requires
        is_prefix(a, m),
        is_prefix(m, c),
    ensures
        is_prefix(a, c),
{
    assert(c.subrange(0, a.len() as int) =~= m.subrange(0, a.len() as int));
}

proof fn lemma_position_in_extension(a: Seq<Seq<char>>, c: Seq<Seq<char>>, name: Seq<char>, p: int)
    requires
        is_prefix(a, c),
        first_position(a, name, p),
    ensures
        position_of(c, name) == Some(p),
{
    assert(c[p] == a[p]);
    assert forall|j: int| 0 <= j < p implies c[j] != name by {
        assert(c[j] == a[j]);
    }
    assert(first_position(c, name, p));
    let q = choose|q: int| first_position(c, name, q);
    assert(q == p) by {
        if q < p {
            assert(c[q] != name);
        }
        if p < q {
            assert(c[p] != name);
        }
    }
}

/// The index slots after evaluating a folded operand still agree with the
/// scopes it was folded in.
proof fn lemma_operand_frame<B: Fn(NumericOp) -> NumericReply>(
    e: Expr,
    st: FoldState,
    cs: Seq<(Seq<char>, NumericValue)>,
    b: B,
    vs: Seq<NumericValue>,
    env: Seq<NumericValue>,
    ix: Seq<(Seq<char>, NumericValue)>,
) -> (e1: Seq<NumericValue>)
    requires
        scopes_agree(st.scopes, env, ix, st.next_slot),
        spec_fold(e, st, cs, b).0 is Ok,
        st.next_slot + binders(e) <= usize::MAX,
    ensures
        e1 == spec_run(spec_fold(e, st, cs, b).0->Ok_0, vs, env, b).1,
        scopes_agree(st.scopes, e1, ix, st.next_slot),
{
    let n = spec_fold(e, st, cs, b).0->Ok_0;
    lemma_fold_slots_from(e, st, cs, b);
    lemma_run_frame(n, vs, env, b, st.next_slot);
    let e1 = spec_run(n, vs, env, b).1;
    lemma_scopes_agree_frame(st.scopes, env, e1, ix, st.next_slot);
    e1
}

#[verifier::spinoff_prover]
#[verifier::rlimit(40)]
proof fn lemma_fold_value<B: Fn(NumericOp) -> NumericReply>(
    e: Expr,
    st: FoldState,
    cs: Seq<(Seq<char>, NumericValue)>,
    b: B,
    names: Seq<Seq<char>>,
    vs: Seq<NumericValue>,
    env: Seq<NumericValue>,
    ix: Seq<(Seq<char>, NumericValue)>,
)
    requires
        names.len() <= usize::MAX,
        st.next_slot + binders(e) <= usize::MAX,
        scopes_agree(st.scopes, env, ix, st.next_slot),
        spec_fold(e, st, cs, b).0 is Ok,
        is_prefix(spec_fold(e, st, cs, b).1.arguments, names),
    ensures
        spec_eval(spec_fold(e, st, cs, b).0->Ok_0, vs, env, b) == tree_value(e, cs, names, vs, ix, b),
    decreases e, 1int,
{
    lemma_fold_arguments(e, st, cs, b);
    lemma_fold_slots(e, st, cs, b);
    match e {
        Expr::Variable(name) => {
            lemma_index_lookup(st.scopes, env, ix, st.next_slot, name@);
            lemma_position_of(st.arguments, name@);
            if scope_lookup(st.scopes, name@) is None && constant_lookup(cs, name@) is None {
                let s1 = spec_fold(e, st, cs, b).1;
                let p = match position_of(st.arguments, name@) {
                    Some(p) => p,
                    None => st.arguments.len() as int,
                };
                if position_of(st.arguments, name@) is Some {
                    let q = choose|q: int| first_position(st.arguments, name@, q);
                    assert(first_position(s1.arguments, name@, p));
                } else {
                    assert(s1.arguments == st.arguments.push(name@));
                    assert forall|j: int| 0 <= j < p implies s1.arguments[j] != name@ by {
                        if s1.arguments[j] == name@ {
                            assert(st.arguments[j] == name@);
                            assert(st.arguments.contains(name@));
                        }
                    }
                    assert(first_position(s1.arguments, name@, p));
                }
                lemma_position_in_extension(s1.arguments, names, name@, p);
            }
        },
        Expr::Rational { numerator, denominator } => {
            lemma_fold_arguments(*numerator, st, cs, b);
            lemma_fold_slots(*numerator, st, cs, b);
            let (r1, s1) = spec_fold(*numerator, st, cs, b);
            lemma_fold_arguments(*denominator, s1, cs, b);
            let (r2, s2) = spec_fold(*denominator, s1, cs, b);
            lemma_first_appearances_extends(s1.arguments, free_occurrences(*denominator, scope_names(s1.scopes), cs));
            lemma_prefix_chain(s1.arguments, s2.arguments, names);
            lemma_fold_value(*numerator, st, cs, b, names, vs, env, ix);
            let e1 = lemma_operand_frame(*numerator, st, cs, b, vs, env, ix);
            lemma_scopes_agree_later(st.scopes, e1, ix, st.next_slot, s1.next_slot);
            lemma_fold_value(*denominator, s1, cs, b, names, vs, e1, ix);
            lemma_fold_binary_keeps_value(b, BinaryOp::Div, r1->Ok_0, r2->Ok_0, vs, env);
        },
        Expr::Complex { real: re, imaginary: im } => {
            let s0 = FoldState { has_complex: true, ..st };
            lemma_fold_arguments(*re, s0, cs, b);
            lemma_fold_slots(*re, s0, cs, b);
            let (r1, s1) = spec_fold(*re, s0, cs, b);
            lemma_fold_arguments(*im, s1, cs, b);
            let (r2, s2) = spec_fold(*im, s1, cs, b);
            lemma_first_appearances_extends(s1.arguments, free_occurrences(*im, scope_names(s1.scopes), cs));
            lemma_prefix_chain(s1.arguments, s2.arguments, names);
            lemma_fold_value(*re, s0, cs, b, names, vs, env, ix);
            let e1 = lemma_operand_frame(*re, s0, cs, b, vs, env, ix);
            lemma_scopes_agree_later(st.scopes, e1, ix, st.next_slot, s1.next_slot);
            lemma_fold_value(*im, s1, cs, b, names, vs, e1, ix);
            let i_node = Node::ComplexLiteral(ZERO_BITS, ONE_BITS);
            lemma_fold_binary_keeps_value(b, BinaryOp::Mul, r2->Ok_0, i_node, vs, e1);
            let m = fold_binary(b, BinaryOp::Mul, r2->Ok_0, i_node);
            if m is Ok {
                let n1 = r1->Ok_0;
                let n2 = r2->Ok_0;
                let mn = m->Ok_0;
                lemma_fold_binary_keeps_value(b, BinaryOp::Add, n1, mn, vs, env);
                assert(spec_fold(e, st, cs, b).0 == fold_binary(b, BinaryOp::Add, n1, mn));
                let e2 = spec_run(n2, vs, e1, b).1;
                assert(spec_eval(i_node, vs, e2, b) == Ok::<NumericValue, EvalFault>(
                    NumericValue::Complex { re: ZERO_BITS, im: ONE_BITS },
                ));
                assert(spec_eval(Node::Binary(BinaryOp::Mul, Box::new(n2), Box::new(i_node)), vs, e1, b)
                    == binary_outcome(b, BinaryOp::Mul, spec_eval(n2, vs, e1, b), spec_eval(i_node, vs, e2, b)));
                assert(spec_eval(Node::Binary(BinaryOp::Add, Box::new(n1), Box::new(mn)), vs, env, b)
                    == binary_outcome(b, BinaryOp::Add, spec_eval(n1, vs, env, b), spec_eval(mn, vs, e1, b)));
            }
        },
        Expr::Binary { op, left, right } => {
            lemma_fold_arguments(*left, st, cs, b);
            lemma_fold_slots(*left, st, cs, b);
            let (r1, s1) = spec_fold(*left, st, cs, b);
            lemma_fold_arguments(*right, s1, cs, b);
            let (r2, s2) = spec_fold(*right, s1, cs, b);
            lemma_first_appearances_extends(s1.arguments, free_occurrences(*right, scope_names(s1.scopes), cs));
            lemma_prefix_chain(s1.arguments, s2.arguments, names);
            lemma_fold_value(*left, st, cs, b, names, vs, env, ix);
            let e1 = lemma_operand_frame(*left, st, cs, b, vs, env, ix);
            lemma_scopes_agree_later(st.scopes, e1, ix, st.next_slot, s1.next_slot);
            lemma_fold_value(*right, s1, cs, b, names, vs, e1, ix);
            lemma_fold_binary_keeps_value(b, convert_binary_op(op)->0, r1->Ok_0, r2->Ok_0, vs, env);
        },
        Expr::Unary { op, operand } => {
            lemma_fold_value(*operand, st, cs, b, names, vs, env, ix);
            let r1 = spec_fold(*operand, st, cs, b).0;
            if op == AstUnaryOp::Neg {
                lemma_fold_unary_keeps_value(b, UnaryOp::Neg, r1->Ok_0, vs, env);
            } else if op == AstUnaryOp::Factorial {
                lemma_fold_unary_keeps_value(b, UnaryOp::Factorial, r1->Ok_0, vs, env);
            }
        },
        Expr::Function { name, args } => {
            lemma_fold_values(args@, st, cs, b, names, vs, env, ix);
            let ns = spec_fold_list(args@, st, cs, b).0->Ok_0;
            lemma_fold_function_keeps_value(b, spec_resolve(name@)->0, ns, vs, env);
        },
        Expr::Sum { index, lower, upper, body, .. } | Expr::Product { index, lower, upper, body, .. } => {
            assert(spec_fold(e, st, cs, b) == spec_fold_binder(e, st, cs, b));
            lemma_fold_arguments(*lower, st, cs, b);
            lemma_fold_slots(*lower, st, cs, b);
            let (rl, s1) = spec_fold(*lower, st, cs, b);
            lemma_fold_arguments(*upper, s1, cs, b);
            lemma_fold_slots(*upper, s1, cs, b);
            let (ru, s2) = spec_fold(*upper, s1, cs, b);
            let slot = s2.next_slot as usize;
            let s3 = FoldState { scopes: s2.scopes.push((index@, slot)), next_slot: s2.next_slot + 1, ..s2 };
            lemma_fold_arguments(*body, s3, cs, b);
            lemma_fold_slots(*body, s3, cs, b);
            let (rb, s4) = spec_fold(*body, s3, cs, b);
            let nl = rl->Ok_0;
            let nu = ru->Ok_0;
            let nb = rb->Ok_0;
            assert(s4.arguments == spec_fold(e, st, cs, b).1.arguments);
            lemma_first_appearances_extends(
                s3.arguments,
                free_occurrences(*body, scope_names(s3.scopes), cs),
            );
            lemma_first_appearances_extends(s1.arguments, free_occurrences(*upper, scope_names(s1.scopes), cs));
            lemma_prefix_chain(s3.arguments, s4.arguments, names);
            lemma_prefix_chain(s1.arguments, s2.arguments, names);
            lemma_fold_value(*lower, st, cs, b, names, vs, env, ix);
            lemma_scopes_agree_later(st.scopes, env, ix, st.next_slot, s1.next_slot);
            lemma_fold_value(*upper, s1, cs, b, names, vs, env, ix);
            assert(spec_bound(b, nl) == bound_of(b, spec_eval(nl, vs, env, b)));
            assert(spec_bound(b, nu) == bound_of(b, spec_eval(nu, vs, env, b)));
            assert forall|k: int, env2: Seq<NumericValue>|
                spec_bound(b, nl)->0 <= k <= spec_bound(b, nu)->0 && scopes_agree(s2.scopes, env2, ix, slot as nat)
                    && slot < env2.len() implies #[trigger] body_agrees(
                nb,
                slot,
                *body,
                index@,
                k,
                cs,
                names,
                vs,
                env2,
                ix,
                b,
            ) by {
                let v = value_of(b, NumericOp::FromInteger(k as i64));
                lemma_scopes_agree_push(s2.scopes, env2, ix, s2.next_slot, index@, v);
                lemma_fold_value(*body, s3, cs, b, names, vs, env2.update(slot as int, v), ix.push((index@, v)));
            }
            lemma_fold_slots_from(*body, s3, cs, b);
            let g = grown(env, slot);
            assert forall|j: int| 0 <= j < st.next_slot && j < env.len() implies #[trigger] g[j] == env[j] by {}
            lemma_scopes_agree_frame(st.scopes, env, g, ix, st.next_slot);
            lemma_scopes_agree_later(st.scopes, g, ix, st.next_slot, s2.next_slot);
            let n = spec_fold(e, st, cs, b).0->Ok_0;
            let init = if e is Sum { NumericValue::Real(ZERO_BITS) } else { NumericValue::Real(ONE_BITS) };
            let lo = spec_bound(b, nl)->0;
            let hi = spec_bound(b, nu)->0;
            lemma_loop_value(e, n, slot, lo, hi, nb, *body, index@, s2.scopes, lo as int, init, cs, names, vs, g, ix, b);
        },
        _ => {},
    }
}

proof fn lemma_fold_values<B: Fn(NumericOp) -> NumericReply>(
    args: Seq<Expr>,
    st: FoldState,
    cs: Seq<(Seq<char>, NumericValue)>,
    b: B,
    names: Seq<Seq<char>>,
    vs: Seq<NumericValue>,
    env: Seq<NumericValue>,
    ix: Seq<(Seq<char>, NumericValue)>,
)
    requires
        names.len() <= usize::MAX,
        st.next_slot + binders_list(args) <= usize::MAX,
        scopes_agree(st.scopes, env, ix, st.next_slot),
        spec_fold_list(args, st, cs, b).0 is Ok,
        is_prefix(spec_fold_list(args, st, cs, b).1.arguments, names),
    ensures
        spec_run_list(spec_fold_list(args, st, cs, b).0->Ok_0, vs, env, b).0 == tree_values(args, cs, names, vs, ix, b),
    decreases args, 0int,
{
    if args.len() > 0 {
        lemma_fold_list_arguments(args.drop_last(), st, cs, b);
        lemma_fold_list_slots(args.drop_last(), st, cs, b);
        let (rs, s1) = spec_fold_list(args.drop_last(), st, cs, b);
        lemma_fold_arguments(args.last(), s1, cs, b);
        let (r, s2) = spec_fold(args.last(), s1, cs, b);
        lemma_first_appearances_extends(s1.arguments, free_occurrences(args.last(), scope_names(s1.scopes), cs));
        lemma_prefix_chain(s1.arguments, s2.arguments, names);
        lemma_fold_values(args.drop_last(), st, cs, b, names, vs, env, ix);
        let ns = rs->Ok_0;
        lemma_fold_list_slots_from(args.drop_last(), st, cs, b);
        lemma_run_list_frame(ns, vs, env, b, st.next_slot);
        let e1 = spec_run_list(ns, vs, env, b).1;
        lemma_scopes_agree_frame(st.scopes, env, e1, ix, st.next_slot);
        lemma_scopes_agree_later(st.scopes, e1, ix, st.next_slot, s1.next_slot);
        lemma_fold_value(args.last(), s1, cs, b, names, vs, e1, ix);
        assert(ns.push(r->Ok_0).drop_last() =~= ns);
        assert(ns.push(r->Ok_0).last() == r->Ok_0);
    }
}

/// Evaluation agrees with computing on the tree itself: for a tree that
/// compiles, evaluating the compiled expression at any values of its
/// arguments gives what computing on the tree gives, the arguments named by
/// the compiled expression's argument names. Constant folding, the
/// resolution of variables to argument positions and of index variables
/// to slots change no value.
pub proof fn lemma_evaluation_matches_tree<B: Fn(NumericOp) -> NumericReply>(
    e: Expr,
    cs: Seq<(Seq<char>, NumericValue)>,
    b: B,
    vs: Seq<NumericValue>,
)
    requires
        binders(e) <= usize::MAX,
        spec_compile(e, cs, b) is Ok,
        spec_compile(e, cs, b)->Ok_0.argument_names.len() <= usize::MAX,
    ensures
        spec_eval(spec_compile(e, cs, b)->Ok_0.root, vs, Seq::empty(), b) == tree_value(
            e,
            cs,
            spec_compile(e, cs, b)->Ok_0.argument_names,
            vs,
            Seq::empty(),
            b,
        ),
{
    let names = spec_compile(e, cs, b)->Ok_0.argument_names;
    assert(names.subrange(0, names.len() as int) =~= names);
    lemma_fold_value(e, initial_state(), cs, b, names, vs, Seq::empty(), Seq::empty());
}

/// The slots of the sums and products of a node, outermost and leftmost
/// first.
pub open spec fn binder_slots(n: Node) -> Seq<usize>
    decreases n, 1int,
{
    match n {
        Node::Binary(_, l, r) => binder_slots(*l) + binder_slots(*r),
        Node::Unary(_, x) => binder_slots(*x),
        Node::Function(_, fargs) => binder_slots_list(fargs),
        Node::Sum(slot, _, _, body) | Node::Product(slot, _, _, body) => seq![slot] + binder_slots(*body),
        _ => Seq::empty(),
    }
}

/// The slots of the sums and products of a sequence of nodes, in order.
pub open spec fn binder_slots_list(ns: Seq<Node>) -> Seq<usize>
    decreases ns, 0int,
{
    if ns.len() == 0 {
        Seq::empty()
    } else {
        binder_slots_list(ns.drop_last()) + binder_slots(ns.last())
    }
}

/// Whether a sequence of slots strictly increases and lies in `[lo, hi)`.
pub open spec fn increasing_within(s: Seq<usize>, lo: nat, hi: nat) -> bool {
    &&& forall|i: int| 0 <= i < s.len() ==> lo <= #[trigger] s[i] < hi
    &&& forall|i: int, j: int| 0 <= i < j < s.len() ==> #[trigger] s[i] < #[trigger] s[j]
}

proof fn lemma_increasing_concat(a: Seq<usize>, c: Seq<usize>, lo: nat, mid: nat, hi: nat)
    requires
        increasing_within(a, lo, mid),
        increasing_within(c, mid, hi),
        lo <= mid <= hi,
    ensures
        increasing_within(a + c, lo, hi),
{
    let s = a + c;
    assert forall|i: int| 0 <= i < s.len() implies lo <= #[trigger] s[i] < hi by {
        if i < a.len() {
            assert(s[i] == a[i]);
        } else {
            assert(s[i] == c[i - a.len()]);
        }
    }
    assert forall|i: int, j: int| 0 <= i < j < s.len() implies #[trigger] s[i] < #[trigger] s[j] by {
        if j < a.len() {
            assert(s[i] == a[i] && s[j] == a[j]);
        } else if i < a.len() {
            assert(s[i] == a[i] && s[j] == c[j - a.len()]);
        } else {
            assert(s[i] == c[i - a.len()] && s[j] == c[j - a.len()]);
        }
    }
}

proof fn lemma_fold_binary_binder_slots<B: Fn(NumericOp) -> NumericReply>(
    b: B,
    op: BinaryOp,
    l: Node,
    r: Node,
    lo: nat,
    mid: nat,
    hi: nat,
)
    requires
        fold_binary(b, op, l, r) is Ok,
        lo <= mid <= hi,
        increasing_within(binder_slots(l), lo, mid),
        increasing_within(binder_slots(r), mid, hi),
    ensures
        increasing_within(binder_slots(fold_binary(b, op, l, r)->Ok_0), lo, hi),
{
    match (literal_of(l), literal_of(r)) {
        (Some(lv), Some(rv)) => {
            let v = spec_binary(b, op, lv, rv)->0;
            assert(binder_slots(node_of(v)) =~= Seq::<usize>::empty());
        },
        _ => {
            lemma_increasing_concat(binder_slots(l), binder_slots(r), lo, mid, hi);
        },
    }
}

proof fn lemma_fold_binder_slots<B: Fn(NumericOp) -> NumericReply>(
    e: Expr,
    st: FoldState,
    cs: Seq<(Seq<char>, NumericValue)>,
    b: B,
)
    ensures
        spec_fold(e, st, cs, b).0 is Ok && st.next_slot + binders(e) <= usize::MAX ==> increasing_within(
            binder_slots(spec_fold(e, st, cs, b).0->Ok_0),
            st.next_slot,
            spec_fold(e, st, cs, b).1.next_slot,
        ),
    decreases e, 1int,
{
    lemma_fold_slots(e, st, cs, b);
    match e {
        Expr::Rational { numerator: x, denominator: y } => {
            lemma_fold_binder_slots(*x, st, cs, b);
            lemma_fold_slots(*x, st, cs, b);
            let s1 = spec_fold(*x, st, cs, b).1;
            lemma_fold_binder_slots(*y, s1, cs, b);
            lemma_fold_slots(*y, s1, cs, b);
            if spec_fold(e, st, cs, b).0 is Ok && st.next_slot + binders(e) <= usize::MAX {
                let s2 = spec_fold(*y, s1, cs, b).1;
                let n1 = spec_fold(*x, st, cs, b).0->Ok_0;
                let n2 = spec_fold(*y, s1, cs, b).0->Ok_0;
                lemma_fold_binary_binder_slots(b, BinaryOp::Div, n1, n2, st.next_slot, s1.next_slot, s2.next_slot);
            }
        },
        Expr::Binary { op, left: x, right: y } => {
            lemma_fold_binder_slots(*x, st, cs, b);
            lemma_fold_slots(*x, st, cs, b);
            let s1 = spec_fold(*x, st, cs, b).1;
            lemma_fold_binder_slots(*y, s1, cs, b);
            lemma_fold_slots(*y, s1, cs, b);
            if spec_fold(e, st, cs, b).0 is Ok && st.next_slot + binders(e) <= usize::MAX {
                let s2 = spec_fold(*y, s1, cs, b).1;
                let n1 = spec_fold(*x, st, cs, b).0->Ok_0;
                let n2 = spec_fold(*y, s1, cs, b).0->Ok_0;
                lemma_fold_binary_binder_slots(
                    b,
                    convert_binary_op(op)->0,
                    n1,
                    n2,
                    st.next_slot,
                    s1.next_slot,
                    s2.next_slot,
                );
            }
        },
        Expr::Complex { real: re, imaginary: im } => {
            let s0 = FoldState { has_complex: true, ..st };
            lemma_fold_binder_slots(*re, s0, cs, b);
            lemma_fold_slots(*re, s0, cs, b);
            let s1 = spec_fold(*re, s0, cs, b).1;
            lemma_fold_binder_slots(*im, s1, cs, b);
            lemma_fold_slots(*im, s1, cs, b);
            if spec_fold(e, st, cs, b).0 is Ok && st.next_slot + binders(e) <= usize::MAX {
                let s2 = spec_fold(*im, s1, cs, b).1;
                let n1 = spec_fold(*re, s0, cs, b).0->Ok_0;
                let n2 = spec_fold(*im, s1, cs, b).0->Ok_0;
                let i_node = Node::ComplexLiteral(ZERO_BITS, ONE_BITS);
                assert(binder_slots(i_node) =~= Seq::<usize>::empty());
                lemma_fold_binary_binder_slots(b, BinaryOp::Mul, n2, i_node, s1.next_slot, s2.next_slot, s2.next_slot);
                let m = fold_binary(b, BinaryOp::Mul, n2, i_node)->Ok_0;
                lemma_fold_binary_binder_slots(b, BinaryOp::Add, n1, m, st.next_slot, s1.next_slot, s2.next_slot);
            }
        },
        Expr::Unary { op, operand } => {
            lemma_fold_binder_slots(*operand, st, cs, b);
            if spec_fold(e, st, cs, b).0 is Ok {
                let n = spec_fold(*operand, st, cs, b).0->Ok_0;
                if let Some(v) = literal_of(n) {
                    if op == AstUnaryOp::Neg || op == AstUnaryOp::Factorial {
                        let u = if op == AstUnaryOp::Neg { UnaryOp::Neg } else { UnaryOp::Factorial };
                        if let Ok(r) = spec_unary(b, u, v) {
                            assert(binder_slots(node_of(r)) =~= Seq::<usize>::empty());
                        }
                    }
                }
            }
        },
        Expr::Function { name, args } => {
            lemma_fold_list_binder_slots(args@, st, cs, b);
            if spec_fold(e, st, cs, b).0 is Ok {
                let ns = spec_fold_list(args@, st, cs, b).0->Ok_0;
                let kind = spec_resolve(name@)->0;
                if all_literal(ns) {
                    assert(binder_slots(node_of(spec_apply(b, kind, literal_values(ns)))) =~= Seq::<usize>::empty());
                }
            }
        },
        Expr::Sum { index, lower, upper, body, .. } | Expr::Product { index, lower, upper, body, .. } => {
            assert(spec_fold(e, st, cs, b) == spec_fold_binder(e, st, cs, b));
            lemma_fold_slots(*lower, st, cs, b);
            let s1 = spec_fold(*lower, st, cs, b).1;
            lemma_fold_slots(*upper, s1, cs, b);
            let s2 = spec_fold(*upper, s1, cs, b).1;
            let slot = s2.next_slot as usize;
            let s3 = FoldState { scopes: s2.scopes.push((index@, slot)), next_slot: s2.next_slot + 1, ..s2 };
            lemma_fold_binder_slots(*body, s3, cs, b);
            lemma_fold_slots(*body, s3, cs, b);
            if spec_fold(e, st, cs, b).0 is Ok && st.next_slot + binders(e) <= usize::MAX {
                let nb = spec_fold(*body, s3, cs, b).0->Ok_0;
                let s4 = spec_fold(*body, s3, cs, b).1;
                assert(increasing_within(seq![slot], st.next_slot, s3.next_slot));
                lemma_increasing_concat(seq![slot], binder_slots(nb), st.next_slot, s3.next_slot, s4.next_slot);
                let lo = spec_bound(b, spec_fold(*lower, st, cs, b).0->Ok_0)->0;
                let hi = spec_bound(b, spec_fold(*upper, s1, cs, b).0->Ok_0)->0;
                assert(spec_fold(e, st, cs, b).0->Ok_0 == (if e is Sum {
                    Node::Sum(slot, lo, hi, Box::new(nb))
                } else {
                    Node::Product(slot, lo, hi, Box::new(nb))
                }));
            }
        },
        _ => {
            if spec_fold(e, st, cs, b).0 is Ok {
                assert(binder_slots(spec_fold(e, st, cs, b).0->Ok_0) =~= Seq::<usize>::empty());
            }
        },
    }
}

proof fn lemma_fold_list_binder_slots<B: Fn(NumericOp) -> NumericReply>(
    args: Seq<Expr>,
    st: FoldState,
    cs: Seq<(Seq<char>, NumericValue)>,
    b: B,
)
    ensures
        spec_fold_list(args, st, cs, b).0 is Ok && st.next_slot + binders_list(args) <= usize::MAX
            ==> increasing_within(
            binder_slots_list(spec_fold_list(args, st, cs, b).0->Ok_0),
            st.next_slot,
            spec_fold_list(args, st, cs, b).1.next_slot,
        ),
    decreases args, 0int,
{
    if args.len() > 0 {
        let d = args.drop_last();
        lemma_fold_list_binder_slots(d, st, cs, b);
        lemma_fold_list_slots(d, st, cs, b);
        let (rs, s1) = spec_fold_list(d, st, cs, b);
        lemma_fold_binder_slots(args.last(), s1, cs, b);
        lemma_fold_slots(args.last(), s1, cs, b);
        let (r, s2) = spec_fold(args.last(), s1, cs, b);
        if rs is Ok && r is Ok && st.next_slot + binders_list(args) <= usize::MAX {
            let ns = rs->Ok_0;
            let all = ns.push(r->Ok_0);
            assert(all.drop_last() =~= ns);
            lemma_increasing_concat(
                binder_slots_list(ns),
                binder_slots(r->Ok_0),
                st.next_slot,
                s1.next_slot,
                s2.next_slot,
            );
        }
    } else {
        assert(binder_slots_list(spec_fold_list(args, st, cs, b).0->Ok_0) =~= Seq::<usize>::empty());
    }
}

/// Every sum and product of a compiled expression has an index slot of its
/// own: their slots, outermost and leftmost first, strictly increase, so no
/// two of them share a slot, and each is below the number of sums and
/// products in the tree.
pub proof fn lemma_compiled_slots_distinct<B: Fn(NumericOp) -> NumericReply>(
    e: Expr,
    cs: Seq<(Seq<char>, NumericValue)>,
    b: B,
)
    requires
        binders(e) <= usize::MAX,
        spec_compile(e, cs, b) is Ok,
    ensures
        increasing_within(binder_slots(spec_compile(e, cs, b)->Ok_0.root), 0, binders(e)),
        binder_slots(spec_compile(e, cs, b)->Ok_0.root).no_duplicates(),
{
    lemma_folded_slots_distinct(e, cs, b);
}

/// Folding gives every sum and product an index slot of its own: the slots
/// of the folded tree, outermost and leftmost first, strictly increase, so
/// no two sums or products share a slot, and each is below the number of
/// sums and products in the tree.
pub proof fn lemma_folded_slots_distinct<B: Fn(NumericOp) -> NumericReply>(
    e: Expr,
    cs: Seq<(Seq<char>, NumericValue)>,
    b: B,
)
    requires
        binders(e) <= usize::MAX,
        spec_fold_expr(e, cs, b) is Ok,
    ensures
        increasing_within(binder_slots(spec_fold_expr(e, cs, b)->Ok_0.root), 0, binders(e)),
        binder_slots(spec_fold_expr(e, cs, b)->Ok_0.root).no_duplicates(),
{
    lemma_fold_binder_slots(e, initial_state(), cs, b);
    lemma_fold_slots(e, initial_state(), cs, b);
    let s = binder_slots(spec_fold_expr(e, cs, b)->Ok_0.root);
    assert forall|i: int, j: int| 0 <= i < s.len() && 0 <= j < s.len() && i != j implies s[i] != s[j] by {
        if i < j {
            assert(s[i] < s[j]);
        } else {
            assert(s[j] < s[i]);
        }
    }
}

/// The product of the lengths of the array arguments (1 when there is none).
pub open spec fn array_lengths_product(args: Seq<ArgView>) -> nat
    decreases args.len(),
{
    if args.len() == 0 {
        1
    } else {
        match args.last() {
            ArgView::Scalar(_) => array_lengths_product(args.drop_last()),
            ArgView::Array(s) => array_lengths_product(args.drop_last()) * s.len(),
        }
    }
}

/// The number of output elements is the product of the lengths of the
/// array arguments; scalar arguments do not change it.
pub proof fn lemma_output_length(args: Seq<ArgView>)
    requires
        forall|i: int| 0 <= i < args.len() ==> arg_len(#[trigger] args[i]) <= usize::MAX,
    ensures
        spec_product(spec_shape(args)) == array_lengths_product(args),
    decreases args.len(),
{
    if args.len() > 0 {
        let d = args.drop_last();
        assert forall|i: int| 0 <= i < d.len() implies arg_len(#[trigger] d[i]) <= usize::MAX by {
            assert(d[i] == args[i]);
        }
        lemma_output_length(d);
        assert(arg_len(args[args.len() - 1]) <= usize::MAX);
        if let ArgView::Array(s) = args.last() {
            let sh = spec_shape(args);
            assert(sh == spec_shape(d).push(s.len() as usize));
            assert(sh.drop_last() =~= spec_shape(d));
        }
    }
}

proof fn lemma_fold_slots<B: Fn(NumericOp) -> NumericReply>(
    e: Expr,
    st: FoldState,
    cs: Seq<(Seq<char>, NumericValue)>,
    b: B,
)
    ensures
        spec_fold(e, st, cs, b).0 is Ok ==> st.next_slot <= spec_fold(e, st, cs, b).1.next_slot <= st.next_slot
            + binders(e),
    decreases e, 1int,
{
    match e {
        Expr::Rational { numerator, denominator } => {
            lemma_fold_slots(*numerator, st, cs, b);
            lemma_fold_slots(*denominator, spec_fold(*numerator, st, cs, b).1, cs, b);
        },
        Expr::Complex { real: re, imaginary: im } => {
            let s0 = FoldState { has_complex: true, ..st };
            lemma_fold_slots(*re, s0, cs, b);
            lemma_fold_slots(*im, spec_fold(*re, s0, cs, b).1, cs, b);
        },
        Expr::Binary { left, right, .. } => {
            lemma_fold_slots(*left, st, cs, b);
            lemma_fold_slots(*right, spec_fold(*left, st, cs, b).1, cs, b);
        },
        Expr::Unary { operand, .. } => {
            lemma_fold_slots(*operand, st, cs, b);
        },
        Expr::Function { args, .. } => {
            lemma_fold_list_slots(args@, st, cs, b);
        },
        Expr::Sum { index, lower, upper, body, .. } | Expr::Product { index, lower, upper, body, .. } => {
            assert(spec_fold(e, st, cs, b) == spec_fold_binder(e, st, cs, b));
            lemma_fold_slots(*lower, st, cs, b);
            let (rl, s1) = spec_fold(*lower, st, cs, b);
            lemma_fold_slots(*upper, s1, cs, b);
            let (ru, s2) = spec_fold(*upper, s1, cs, b);
            let slot = s2.next_slot as usize;
            let s3 = FoldState { scopes: s2.scopes.push((index@, slot)), next_slot: s2.next_slot + 1, ..s2 };
            lemma_fold_slots(*body, s3, cs, b);
        },
        _ => {},
    }
}

proof fn lemma_fold_list_slots<B: Fn(NumericOp) -> NumericReply>(
    args: Seq<Expr>,
    st: FoldState,
    cs: Seq<(Seq<char>, NumericValue)>,
    b: B,
)
    ensures
        spec_fold_list(args, st, cs, b).0 is Ok ==> st.next_slot <= spec_fold_list(args, st, cs, b).1.next_slot
            <= st.next_slot + binders_list(args),
    decreases args, 0int,
{
    if args.len() > 0 {
        lemma_fold_list_slots(args.drop_last(), st, cs, b);
        lemma_fold_slots(args.last(), spec_fold_list(args.drop_last(), st, cs, b).1, cs, b);
    }
}

/// The sign bit of a binary64 bit pattern.
pub open spec fn sign_flipped(x: u64) -> u64 {
    x ^ 0x8000_0000_0000_0000u64
}

proof fn lemma_neg_bits_flip(x: u64)
    ensures
        neg_bits(x) == sign_flipped(x),
{
    if x >= 0x8000_0000_0000_0000u64 {
        assert((x - 0x8000_0000_0000_0000u64) as u64 == x ^ 0x8000_0000_0000_0000u64) by (bit_vector)
            requires
                x >= 0x8000_0000_0000_0000u64,
        ;
    } else {
        assert((x + 0x8000_0000_0000_0000u64) as u64 == x ^ 0x8000_0000_0000_0000u64) by (bit_vector)
            requires
                x < 0x8000_0000_0000_0000u64,
        ;
    }
}

/// Negation flips the sign bit of every component and nothing else: of a
/// real value, and of both the real and the imaginary part of a complex
/// value. It never fails.
pub proof fn lemma_negation_flips_every_sign<B: Fn(NumericOp) -> NumericReply>(b: B, v: NumericValue)
    ensures
        match v {
            NumericValue::Real(x) => spec_unary(b, UnaryOp::Neg, v) == Ok::<NumericValue, UnaryFaultView>(
                NumericValue::Real(sign_flipped(x)),
            ),
            NumericValue::Complex { re, im } => spec_unary(b, UnaryOp::Neg, v) == Ok::<NumericValue, UnaryFaultView>(
                NumericValue::Complex { re: sign_flipped(re), im: sign_flipped(im) },
            ),
        },
{
    match v {
        NumericValue::Real(x) => lemma_neg_bits_flip(x),
        NumericValue::Complex { re, im } => {
            lemma_neg_bits_flip(re);
            lemma_neg_bits_flip(im);
        },
    }
}

/// Evaluating a negation gives the operand's value with the sign bit of
/// every component flipped (both parts of a complex value), or the
/// operand's error; the index slots are those the operand leaves.
pub proof fn lemma_negated_node_value<B: Fn(NumericOp) -> NumericReply>(
    x: Node,
    args: Seq<NumericValue>,
    env: Seq<NumericValue>,
    b: B,
)
    ensures
        spec_run(Node::Unary(UnaryOp::Neg, Box::new(x)), args, env, b).1 == spec_run(x, args, env, b).1,
        match spec_eval(x, args, env, b) {
            Err(e) => spec_eval(Node::Unary(UnaryOp::Neg, Box::new(x)), args, env, b) == Err::<NumericValue, EvalFault>(e),
            Ok(NumericValue::Real(r)) => spec_eval(Node::Unary(UnaryOp::Neg, Box::new(x)), args, env, b) == Ok::<
                NumericValue,
                EvalFault,
            >(NumericValue::Real(sign_flipped(r))),
            Ok(NumericValue::Complex { re, im }) => spec_eval(Node::Unary(UnaryOp::Neg, Box::new(x)), args, env, b)
                == Ok::<NumericValue, EvalFault>(NumericValue::Complex { re: sign_flipped(re), im: sign_flipped(im) }),
        },
{
    if let Ok(v) = spec_eval(x, args, env, b) {
        lemma_negation_flips_every_sign(b, v);
    }
}

/// Folding a negation of a constant gives the constant with the sign bit
/// of every component flipped: `-(a + bi)` folds to `-a - bi`.
pub proof fn lemma_negated_constant_folds<B: Fn(NumericOp) -> NumericReply>(b: B, x: Node)
    requires
        literal_of(x) is Some,
    ensures
        match x {
            Node::Literal(r) => fold_unary(b, UnaryOp::Neg, x) == Ok::<Node, crate::error::CompileFault>(
                Node::Literal(sign_flipped(r)),
            ),
            Node::ComplexLiteral(re, im) => fold_unary(b, UnaryOp::Neg, x) == Ok::<Node, crate::error::CompileFault>(
                Node::ComplexLiteral(sign_flipped(re), sign_flipped(im)),
            ),
            _ => false,
        },
{
    lemma_negation_flips_every_sign(b, literal_of(x)->0);
}

/// A call of a built-in function of two arguments evaluates the first
/// argument, then the second in the index slots the first leaves, and asks
/// the backend for the function applied to the first value and the second
/// value, in that order; an argument's error is the call's error.
pub proof fn lemma_two_argument_call<B: Fn(NumericOp) -> NumericReply>(
    b: B,
    kind: BuiltinFn,
    x: Node,
    y: Node,
    args: Seq<NumericValue>,
    env: Seq<NumericValue>,
)
    ensures
        spec_eval(Node::Function(kind, seq![x, y]), args, env, b) == match spec_eval(x, args, env, b) {
            Err(e) => Err::<NumericValue, EvalFault>(e),
            Ok(vx) => match spec_eval(y, args, spec_run(x, args, env, b).1, b) {
                Err(e) => Err::<NumericValue, EvalFault>(e),
                Ok(vy) => Ok::<NumericValue, EvalFault>(value_of(b, NumericOp::Apply2(kind, vx, vy))),
            },
        },
{
    reveal_with_fuel(spec_run_list, 3);
    let ns = seq![x, y];
    assert(ns.drop_last() =~= seq![x]);
    assert(seq![x].drop_last() =~= Seq::<Node>::empty());
    assert(ns.last() == y);
    assert(seq![x].last() == x);
    let e0 = spec_run_list(Seq::<Node>::empty(), args, env, b);
    assert(e0 == (Ok::<Seq<NumericValue>, EvalFault>(Seq::empty()), env));
    let r1 = spec_run_list(seq![x], args, env, b);
    if let Ok(vx) = spec_eval(x, args, env, b) {
        assert(r1 == (Ok::<Seq<NumericValue>, EvalFault>(seq![vx]), spec_run(x, args, env, b).1)) by {
            assert(Seq::<NumericValue>::empty().push(vx) =~= seq![vx]);
        }
        if let Ok(vy) = spec_eval(y, args, spec_run(x, args, env, b).1, b) {
            assert(seq![vx].push(vy) =~= seq![vx, vy]);
            assert(spec_run_list(ns, args, env, b).0 == Ok::<Seq<NumericValue>, EvalFault>(seq![vx, vy]));
            assert(spec_apply(b, kind, seq![vx, vy]) == value_of(b, NumericOp::Apply2(kind, vx, vy)));
        }
    }
}

/// A call of a built-in function of one argument asks the backend for the
/// function applied to the argument's value, or gives the argument's error.
pub proof fn lemma_one_argument_call<B: Fn(NumericOp) -> NumericReply>(
    b: B,
    kind: BuiltinFn,
    x: Node,
    args: Seq<NumericValue>,
    env: Seq<NumericValue>,
)
    ensures
        spec_eval(Node::Function(kind, seq![x]), args, env, b) == match spec_eval(x, args, env, b) {
            Err(e) => Err::<NumericValue, EvalFault>(e),
            Ok(vx) => Ok::<NumericValue, EvalFault>(value_of(b, NumericOp::Apply1(kind, vx))),
        },
{
    reveal_with_fuel(spec_run_list, 2);
    assert(seq![x].drop_last() =~= Seq::<Node>::empty());
    assert(seq![x].last() == x);
    if let Ok(vx) = spec_eval(x, args, env, b) {
        assert(Seq::<NumericValue>::empty().push(vx) =~= seq![vx]);
        assert(spec_run_list(seq![x], args, env, b).0 == Ok::<Seq<NumericValue>, EvalFault>(seq![vx]));
        assert(spec_apply(b, kind, seq![vx]) == value_of(b, NumericOp::Apply1(kind, vx)));
    }
}

/// Folding a call of a built-in function of two constant arguments gives
/// the constant the backend computes for the function applied to the first
/// and the second constant, in that order.
pub proof fn lemma_two_constant_call_folds<B: Fn(NumericOp) -> NumericReply>(b: B, kind: BuiltinFn, x: Node, y: Node)
    requires
        literal_of(x) is Some,
        literal_of(y) is Some,
    ensures
        fold_function(b, kind, seq![x, y]) == node_of(
            value_of(b, NumericOp::Apply2(kind, literal_of(x)->0, literal_of(y)->0)),
        ),
{
    let ns = seq![x, y];
    assert(all_literal(ns)) by {
        assert forall|i: int| 0 <= i < ns.len() implies #[trigger] literal_of(ns[i]) is Some by {
            if i == 0 {
                assert(ns[i] == x);
            } else {
                assert(ns[i] == y);
            }
        }
    }
    assert(literal_values(ns) =~= seq![literal_of(x)->0, literal_of(y)->0]);
}

/// Whether a text neither starts nor ends with white space.
pub open spec fn no_edge_space(k: Seq<char>) -> bool {
    k.len() == 0 || (!is_white_space(k[0]) && !is_white_space(k[k.len() - 1]))
}

proof fn lemma_trim_start_edge(s: Seq<char>)
    ensures
        trim_start(s).len() == 0 || !is_white_space(trim_start(s)[0]),
    decreases s.len(),
{
    if s.len() > 0 && is_white_space(s[0]) {
        lemma_trim_start_edge(s.drop_first());
    }
}

proof fn lemma_trim_end_edge(s: Seq<char>)
    ensures
        trim_end(s).len() <= s.len(),
        trim_end(s) =~= s.subrange(0, trim_end(s).len() as int),
        trim_end(s).len() == 0 || !is_white_space(trim_end(s)[trim_end(s).len() - 1]),
    decreases s.len(),
{
    if s.len() > 0 && is_white_space(s.last()) {
        let d = s.drop_last();
        lemma_trim_end_edge(d);
        assert(d.subrange(0, trim_end(d).len() as int) =~= s.subrange(0, trim_end(d).len() as int));
    } else {
        assert(s.subrange(0, s.len() as int) =~= s);
    }
}

/// Trimming leaves no white space at either end.
pub proof fn lemma_trim_no_edge_space(s: Seq<char>)
    ensures
        no_edge_space(trim(s)),
{
    let t = trim_start(s);
    lemma_trim_start_edge(s);
    lemma_trim_end_edge(t);
    let u = trim_end(t);
    if u.len() > 0 {
        assert(u[0] == t[0]);
    }
}

/// Whether every number text of a value as written is non-blank and free
/// of white space at both ends.
pub open spec fn value_texts_trimmed(v: RawView) -> bool {
    match v {
        RawView::Scalar(t) => no_edge_space(t),
        RawView::Array(ts) => forall|i: int| 0 <= i < ts.len() ==> #[trigger] ts[i].len() > 0 && no_edge_space(ts[i]),
    }
}

proof fn lemma_items_trimmed(pieces: Seq<Seq<char>>)
    ensures
        forall|i: int| 0 <= i < items(pieces).len() ==> #[trigger] items(pieces)[i].len() > 0 && no_edge_space(
            items(pieces)[i],
        ),
    decreases pieces.len(),
{
    if pieces.len() > 0 {
        lemma_items_trimmed(pieces.drop_last());
        lemma_trim_no_edge_space(pieces.last());
        let r = items(pieces.drop_last());
        let it = items(pieces);
        assert forall|i: int| 0 <= i < it.len() implies #[trigger] it[i].len() > 0 && no_edge_space(it[i]) by {
            if i < r.len() {
                assert(it[i] == r[i]);
                assert(r[i].len() > 0 && no_edge_space(r[i]));
            }
        }
    }
}

/// Reading a value gives number texts without white space at either end,
/// and a list holds no blank item.
pub proof fn lemma_scanned_value_trimmed(s: Seq<char>)
    ensures
        spec_scan_value(s) matches Ok((v, _)) ==> value_texts_trimmed(v),
{
    let t = trim_start(s);
    if t.len() > 0 && t[0] == '[' {
        if let Some(e) = first_of(t, ']', ']') {
            lemma_items_trimmed(crate::dict::split_commas(trim(t.subrange(1, e))));
        }
    } else {
        let e = match first_of(t, ',', '}') {
            Some(e) => e,
            None => t.len() as int,
        };
        lemma_trim_no_edge_space(t.subrange(0, e));
    }
}

/// Whether every key and every number text of some entries is free of
/// white space at both ends.
pub open spec fn entries_trimmed(es: Seq<(Seq<char>, RawView)>) -> bool {
    forall|i: int| 0 <= i < es.len() ==> no_edge_space(#[trigger] es[i].0) && value_texts_trimmed(es[i].1)
}

proof fn lemma_entry_keys_trimmed(rest: Seq<char>)
    ensures
        entries_trimmed(scan_entries(rest).0),
    decreases rest.len(),
{
    if rest.len() > 0 {
        if let Some(c) = first_of(rest, ':', ':') {
            let key = trim(rest.subrange(0, c));
            let r2 = trim(rest.subrange(c + 1, rest.len() as int));
            if let Ok((v, k)) = spec_scan_value(r2) {
                lemma_first_of_range(rest, ':', ':');
                lemma_trim_lengths(rest.subrange(c + 1, rest.len() as int));
                lemma_scan_value_len(r2);
                lemma_trim_lengths(r2);
                lemma_trim_lengths(r2.subrange(k, r2.len() as int));
                let r3 = trim(r2.subrange(k, r2.len() as int));
                if r3.len() > 0 {
                    lemma_trim_lengths(r3.subrange(1, r3.len() as int));
                }
                let next = after_value(r2, k);
                lemma_entry_keys_trimmed(next);
                lemma_trim_no_edge_space(rest.subrange(0, c));
                lemma_scanned_value_trimmed(r2);
                let es = scan_entries(next).0;
                let all = seq![(key, v)] + es;
                assert(scan_entries(rest).0 == all);
                assert forall|i: int| 0 <= i < all.len() implies no_edge_space(#[trigger] all[i].0) && value_texts_trimmed(
                    all[i].1,
                ) by {
                    if i > 0 {
                        assert(all[i] == es[i - 1]);
                        assert(entries_trimmed(es));
                        let j = i - 1;
                        assert(0 <= j < es.len());
                        assert(no_edge_space(es[j].0));
                        assert(value_texts_trimmed(es[j].1));
                    }
                }
            }
        }
    }
}

/// Every key that reading a dict gives is free of white space at both
/// ends: white space around a key, before or after its `:`, is not part of
/// the key. Likewise every number text of its values, and no list holds a
/// blank item.
pub proof fn lemma_dict_keys_trimmed(s: Seq<char>)
    ensures
        forall|i: int| 0 <= i < spec_scan_dict(s).0.len() ==> no_edge_space(#[trigger] spec_scan_dict(s).0[i].0)
            && value_texts_trimmed(spec_scan_dict(s).0[i].1),
{
    let t = trim(s);
    if t.len() >= 2 && t[0] == '{' && t[t.len() - 1] == '}' {
        lemma_entry_keys_trimmed(trim(t.subrange(1, t.len() - 1)));
    }
}

/// The unknown name reported among given names is the first given name
/// that is not an argument name: every name before it is an argument name.
/// No name is reported exactly when every given name is an argument name.
pub proof fn lemma_unknown_name_is_first_non_argument(given: Seq<Seq<char>>, names: Seq<Seq<char>>)
    ensures
        match first_unknown_name(given, names) {
            Some(n) => !names.contains(n) && exists|i: int|
                0 <= i < given.len() && given[i] == n && forall|j: int| 0 <= j < i ==> names.contains(#[trigger] given[j]),
            None => forall|i: int| 0 <= i < given.len() ==> names.contains(#[trigger] given[i]),
        },
    decreases given.len(),
{
    if given.len() > 0 {
        let rest = given.subrange(1, given.len() as int);
        lemma_unknown_name_is_first_non_argument(rest, names);
        if names.contains(given[0]) {
            match first_unknown_name(rest, names) {
                Some(n) => {
                    let i = choose|i: int|
                        0 <= i < rest.len() && rest[i] == n && forall|j: int| 0 <= j < i ==> names.contains(#[trigger] rest[j]);
                    assert(given[i + 1] == n);
                    assert forall|j: int| 0 <= j < i + 1 implies names.contains(#[trigger] given[j]) by {
                        if j > 0 {
                            assert(given[j] == rest[j - 1]);
                        }
                    }
                },
                None => {
                    assert forall|i: int| 0 <= i < given.len() implies names.contains(#[trigger] given[i]) by {
                        if i > 0 {
                            assert(given[i] == rest[i - 1]);
                        }
                    }
                },
            }
        } else {
            assert(given[0] == given[0]);
        }
    }
}

/// Binding refuses as unknown the first input whose name is not an
/// argument name: every input before it names an argument. No input is
/// refused exactly when every input names an argument.
pub proof fn lemma_unknown_input_is_first_non_argument(inputs: Seq<(Seq<char>, ArgView)>, names: Seq<Seq<char>>)
    ensures
        match first_unknown(inputs, names) {
            Some(n) => !names.contains(n) && exists|i: int|
                0 <= i < inputs.len() && inputs[i].0 == n && forall|j: int|
                    0 <= j < i ==> names.contains(#[trigger] inputs[j].0),
            None => forall|i: int| 0 <= i < inputs.len() ==> names.contains(#[trigger] inputs[i].0),
        },
    decreases inputs.len(),
{
    if inputs.len() > 0 {
        let rest = inputs.subrange(1, inputs.len() as int);
        lemma_unknown_input_is_first_non_argument(rest, names);
        if names.contains(inputs[0].0) {
            match first_unknown(rest, names) {
                Some(n) => {
                    let i = choose|i: int|
                        0 <= i < rest.len() && rest[i].0 == n && forall|j: int|
                            0 <= j < i ==> names.contains(#[trigger] rest[j].0);
                    assert(inputs[i + 1] == rest[i]);
                    assert forall|j: int| 0 <= j < i + 1 implies names.contains(#[trigger] inputs[j].0) by {
                        if j > 0 {
                            assert(inputs[j] == rest[j - 1]);
                        }
                    }
                },
                None => {
                    assert forall|i: int| 0 <= i < inputs.len() implies names.contains(#[trigger] inputs[i].0) by {
                        if i > 0 {
                            assert(inputs[i] == rest[i - 1]);
                        }
                    }
                },
            }
        }
    }
}

/// Evaluating a binary node evaluates the left operand, then the right one
/// in the index slots the left leaves, and asks the backend for the
/// operation on the left value and the right value, in that order; a
/// division by a real zero (of either sign) is an error, as is an
/// operand's error.
pub proof fn lemma_binary_node_value<B: Fn(NumericOp) -> NumericReply>(
    op: BinaryOp,
    l: Node,
    r: Node,
    args: Seq<NumericValue>,
    env: Seq<NumericValue>,
    b: B,
)
    ensures
        spec_eval(Node::Binary(op, Box::new(l), Box::new(r)), args, env, b) == match spec_eval(l, args, env, b) {
            Err(e) => Err::<NumericValue, EvalFault>(e),
            Ok(vl) => match spec_eval(r, args, spec_run(l, args, env, b).1, b) {
                Err(e) => Err::<NumericValue, EvalFault>(e),
                Ok(vr) => if op == BinaryOp::Div && (vr == NumericValue::Real(0u64) || vr == NumericValue::Real(
                    0x8000_0000_0000_0000u64,
                )) {
                    Err::<NumericValue, EvalFault>(EvalFault::DivisionByZero)
                } else {
                    Ok::<NumericValue, EvalFault>(value_of(b, NumericOp::Binary(op, vl, vr)))
                },
            },
        },
{
}

} // verus!
