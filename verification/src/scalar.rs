//! Evaluation of a compiled tree at one point.
use vstd::prelude::*;
use crate::error::{EvalError, EvalFault};
use crate::ir::{BinaryOp, CompiledNode, Node, node_wf, view_nodes};
use crate::number::{
    NumericOp, NumericReply, NumericValue, UnaryFault, ZERO_BITS, ONE_BITS, apply_binary, apply_function,
    apply_unary, compute, is_backend, spec_apply, spec_binary, spec_unary, value_of,
};

verus! {

/// The index slots made long enough to hold `slot`: extended with real
/// zeros up to `slot + 1` entries when shorter, otherwise as they are.
pub open spec fn grown(env: Seq<NumericValue>, slot: usize) -> Seq<NumericValue> {
    if slot < env.len() {
        env
    } else {
        env + Seq::new((slot + 1 - env.len()) as nat, |k: int| NumericValue::Real(ZERO_BITS))
    }
}

/// Evaluating a compiled node, given the argument values and the values of
/// the index slots `env`: its value or error, and the index slots after it.
///
/// Operands and function arguments are evaluated left to right, each in the
/// slots that the one before left. A sum or product first grows the slots
/// to hold its own, then sets that slot to each index value in turn before
/// evaluating the body; it never shrinks the slots back, and its slot keeps
/// the last index value. An error stops evaluation where it happened.
pub open spec fn spec_run<B: Fn(NumericOp) -> NumericReply>(
    n: Node,
    args: Seq<NumericValue>,
    env: Seq<NumericValue>,
    b: B,
) -> (Result<NumericValue, EvalFault>, Seq<NumericValue>)
    decreases n, 2int, 0int,
{
    match n {
        Node::Literal(bits) => (Ok(NumericValue::Real(bits)), env),
        Node::ComplexLiteral(re, im) => (Ok(NumericValue::Complex { re, im }), env),
        Node::Argument(i) => (Ok(args[i as int]), env),
        Node::Index(s) => (Ok(env[s as int]), env),
        Node::Binary(op, l, r) => {
            let (rl, e1) = spec_run(*l, args, env, b);
            match rl {
                Err(x) => (Err(x), e1),
                Ok(lv) => {
                    let (rr, e2) = spec_run(*r, args, e1, b);
                    match rr {
                        Err(x) => (Err(x), e2),
                        Ok(rv) => match spec_binary(b, op, lv, rv) {
                            Some(v) => (Ok(v), e2),
                            None => (Err(EvalFault::DivisionByZero), e2),
                        },
                    }
                },
            }
        },
        Node::Unary(op, x) => {
            let (rx, e1) = spec_run(*x, args, env, b);
            match rx {
                Err(f) => (Err(f), e1),
                Ok(v) => match spec_unary(b, op, v) {
                    Ok(r) => (Ok(r), e1),
                    Err(_) => (Err(EvalFault::NumericOverflow), e1),
                },
            }
        },
        Node::Function(kind, fargs) => {
            let (rs, e1) = spec_run_list(fargs, args, env, b);
            match rs {
                Err(x) => (Err(x), e1),
                Ok(vals) => (Ok(spec_apply(b, kind, vals)), e1),
            }
        },
        Node::Sum(slot, lo, _, _) => spec_run_loop(n, lo as int, NumericValue::Real(ZERO_BITS), args, grown(env, slot), b),
        Node::Product(slot, lo, _, _) => spec_run_loop(n, lo as int, NumericValue::Real(ONE_BITS), args, grown(env, slot), b),
    }
}

/// The value of a compiled node, given the argument values and the values
/// of the index slots.
pub open spec fn spec_eval<B: Fn(NumericOp) -> NumericReply>(
    n: Node,
    args: Seq<NumericValue>,
    env: Seq<NumericValue>,
    b: B,
) -> Result<NumericValue, EvalFault> {
    spec_run(n, args, env, b).0
}

/// Evaluating a sequence of nodes left to right, stopping at the first
/// error: the values or that error, and the index slots after it.
pub open spec fn spec_run_list<B: Fn(NumericOp) -> NumericReply>(
    ns: Seq<Node>,
    args: Seq<NumericValue>,
    env: Seq<NumericValue>,
    b: B,
) -> (Result<Seq<NumericValue>, EvalFault>, Seq<NumericValue>)
    decreases ns, 0int, 0int,
{
    if ns.len() == 0 {
        (Ok(Seq::empty()), env)
    } else {
        let (rs, e1) = spec_run_list(ns.drop_last(), args, env, b);
        match rs {
            Err(x) => (Err(x), e1),
            Ok(vs) => {
                let (r, e2) = spec_run(ns.last(), args, e1, b);
                match r {
                    Err(x) => (Err(x), e2),
                    Ok(v) => (Ok(vs.push(v)), e2),
                }
            },
        }
    }
}

/// The remaining iterations of a sum or product `n` from index value `i`
/// on, with the accumulated value `acc`: each iteration sets the slot to
/// `i`, evaluates the body and adds its value to (sum) or multiplies it
/// into (product) `acc`.
pub open spec fn spec_run_loop<B: Fn(NumericOp) -> NumericReply>(
    n: Node,
    i: int,
    acc: NumericValue,
    args: Seq<NumericValue>,
    env: Seq<NumericValue>,
    b: B,
) -> (Result<NumericValue, EvalFault>, Seq<NumericValue>)
    decreases n, 1int, (if n is Sum { n->Sum_2 } else { n->Product_2 }) + 1 - i,
{
    match n {
        Node::Sum(slot, _, hi, body) | Node::Product(slot, _, hi, body) => {
            if i > hi {
                (Ok(acc), env)
            } else {
                let env2 = env.update(slot as int, value_of(b, NumericOp::FromInteger(i as i64)));
                let (r, e3) = spec_run(*body, args, env2, b);
                match r {
                    Err(x) => (Err(x), e3),
                    Ok(v) => {
                        let op = if n is Sum { BinaryOp::Add } else { BinaryOp::Mul };
                        spec_run_loop(n, i + 1, value_of(b, NumericOp::Binary(op, acc, v)), args, e3, b)
                    },
                }
            }
        },
        _ => (Ok(acc), env),
    }
}

/// Whether every sum and product in `n` uses a slot at or above `k`.
pub open spec fn slots_from(n: Node, k: nat) -> bool
    decreases n,
{
    match n {
        Node::Binary(_, l, r) => slots_from(*l, k) && slots_from(*r, k),
        Node::Unary(_, x) => slots_from(*x, k),
        Node::Function(_, fargs) => forall|i: int| 0 <= i < fargs.len() ==> slots_from(#[trigger] fargs[i], k),
        Node::Sum(slot, _, _, body) | Node::Product(slot, _, _, body) => slot >= k && slots_from(*body, k),
        _ => true,
    }
}

/// Evaluation never shrinks the index slots, and leaves the slots below
/// `k` as they were when every sum and product in the node uses a slot at
/// or above `k`.
pub proof fn lemma_run_frame<B: Fn(NumericOp) -> NumericReply>(
    n: Node,
    args: Seq<NumericValue>,
    env: Seq<NumericValue>,
    b: B,
    k: nat,
)
    ensures
        spec_run(n, args, env, b).1.len() >= env.len(),
        slots_from(n, k) ==> forall|j: int|
            0 <= j < k && j < env.len() ==> #[trigger] spec_run(n, args, env, b).1[j] == env[j],
    decreases n, 2int, 0int,
{
    match n {
        Node::Binary(_, l, r) => {
            lemma_run_frame(*l, args, env, b, k);
            let e1 = spec_run(*l, args, env, b).1;
            lemma_run_frame(*r, args, e1, b, k);
        },
        Node::Unary(_, x) => lemma_run_frame(*x, args, env, b, k),
        Node::Function(_, fargs) => {
            lemma_run_list_frame(fargs, args, env, b, k);
        },
        Node::Sum(slot, lo, _, _) | Node::Product(slot, lo, _, _) => {
            let g = grown(env, slot);
            let init = if n is Sum { NumericValue::Real(ZERO_BITS) } else { NumericValue::Real(ONE_BITS) };
            assert(g.len() >= env.len() && slot < g.len());
            assert(forall|j: int| 0 <= j < env.len() ==> #[trigger] g[j] == env[j]);
            lemma_run_loop_frame(n, lo as int, init, args, g, b, k);
        },
        _ => {},
    }
}

/// Evaluating a sequence of nodes never shrinks the index slots, and leaves
/// the slots below `k` as they were when every sum and product in the
/// nodes uses a slot at or above `k`.
pub proof fn lemma_run_list_frame<B: Fn(NumericOp) -> NumericReply>(
    ns: Seq<Node>,
    args: Seq<NumericValue>,
    env: Seq<NumericValue>,
    b: B,
    k: nat,
)
    ensures
        spec_run_list(ns, args, env, b).1.len() >= env.len(),
        (forall|i: int| 0 <= i < ns.len() ==> slots_from(#[trigger] ns[i], k)) ==> forall|j: int|
            0 <= j < k && j < env.len() ==> #[trigger] spec_run_list(ns, args, env, b).1[j] == env[j],
    decreases ns, 0int, 0int,
{
    if ns.len() > 0 {
        let d = ns.drop_last();
        lemma_run_list_frame(d, args, env, b, k);
        let e1 = spec_run_list(d, args, env, b).1;
        lemma_run_frame(ns.last(), args, e1, b, k);
        if forall|i: int| 0 <= i < ns.len() ==> slots_from(#[trigger] ns[i], k) {
            assert forall|i: int| 0 <= i < d.len() implies slots_from(#[trigger] d[i], k) by {
                assert(d[i] == ns[i]);
            }
            assert(slots_from(ns[ns.len() - 1], k));
        }
    }
}

proof fn lemma_run_loop_frame<B: Fn(NumericOp) -> NumericReply>(
    n: Node,
    i: int,
    acc: NumericValue,
    args: Seq<NumericValue>,
    env: Seq<NumericValue>,
    b: B,
    k: nat,
)
    requires
        n is Sum ==> n->Sum_0 < env.len(),
        n is Product ==> n->Product_0 < env.len(),
    ensures
        spec_run_loop(n, i, acc, args, env, b).1.len() >= env.len(),
        slots_from(n, k) ==> forall|j: int|
            0 <= j < k && j < env.len() ==> #[trigger] spec_run_loop(n, i, acc, args, env, b).1[j] == env[j],
    decreases n, 1int, (if n is Sum { n->Sum_2 } else { n->Product_2 }) + 1 - i,
{
    match n {
        Node::Sum(slot, _, hi, body) | Node::Product(slot, _, hi, body) => {
            if i <= hi {
                let env2 = env.update(slot as int, value_of(b, NumericOp::FromInteger(i as i64)));
                lemma_run_frame(*body, args, env2, b, k);
                let (r, e3) = spec_run(*body, args, env2, b);
                if let Ok(v) = r {
                    let op = if n is Sum { BinaryOp::Add } else { BinaryOp::Mul };
                    lemma_run_loop_frame(n, i + 1, value_of(b, NumericOp::Binary(op, acc, v)), args, e3, b, k);
                }
            }
        },
        _ => {},
    }
}

/// The slots below `k`.
pub open spec fn below(k: nat) -> Set<usize> {
    Set::new(|s: usize| s < k)
}

/// The outcome of an evaluation step as a model.
pub open spec fn eval_outcome(r: Result<NumericValue, EvalError>) -> Result<NumericValue, EvalFault> {
    match r {
        Ok(v) => Ok(v),
        Err(e) => Err(e@),
    }
}

proof fn lemma_wf_bound_mono(n: Node, k: nat, b1: Set<usize>, b2: Set<usize>)
    requires
        node_wf(n, k, b1),
        b1.subset_of(b2),
    ensures
        node_wf(n, k, b2),
    decreases n,
{
    match n {
        Node::Binary(_, l, r) => {
            lemma_wf_bound_mono(*l, k, b1, b2);
            lemma_wf_bound_mono(*r, k, b1, b2);
        },
        Node::Unary(_, x) => lemma_wf_bound_mono(*x, k, b1, b2),
        Node::Function(_, fargs) => {
            assert forall|i: int| 0 <= i < fargs.len() implies node_wf(#[trigger] fargs[i], k, b2) by {
                lemma_wf_bound_mono(fargs[i], k, b1, b2);
            }
        },
        Node::Sum(slot, _, _, body) | Node::Product(slot, _, _, body) => {
            assert(b1.insert(slot).subset_of(b2.insert(slot)));
            lemma_wf_bound_mono(*body, k, b1.insert(slot), b2.insert(slot));
        },
        _ => {},
    }
}

proof fn lemma_run_list_error<B: Fn(NumericOp) -> NumericReply>(
    ns: Seq<Node>,
    k: int,
    args: Seq<NumericValue>,
    env: Seq<NumericValue>,
    b: B,
)
    requires
        0 <= k <= ns.len(),
        spec_run_list(ns.take(k), args, env, b).0 is Err,
    ensures
        spec_run_list(ns, args, env, b) == spec_run_list(ns.take(k), args, env, b),
    decreases ns.len() - k,
{
    if k < ns.len() {
        assert(ns.take(k + 1).drop_last() =~= ns.take(k));
        lemma_run_list_error(ns, k + 1, args, env, b);
    } else {
        assert(ns.take(k) =~= ns);
    }
}

proof fn lemma_function_nodes(n: CompiledNode)
    requires
        n is Function,
    ensures
        n@ == Node::Function(n->Function_kind, view_nodes(n->Function_args@)),
{
    if let Node::Function(_, s) = n@ {
        assert(s =~= view_nodes(n->Function_args@));
    }
}

/// Evaluates a compiled node tree to a single value.
///
/// `args` holds the argument values by position; `indices` holds the values
/// of the index slots of enclosing sums and products. A sum or product
/// grows `indices` to hold its slot and leaves there the last index value
/// it set; `indices` never shrinks.
pub fn eval_node<B: Fn(NumericOp) -> NumericReply>(
    node: &CompiledNode,
    args: &Vec<NumericValue>,
    indices: &mut Vec<NumericValue>,
    b: &B,
) -> (r: Result<NumericValue, EvalError>)
    requires
        is_backend(*b),
        node_wf(node@, args@.len(), below(old(indices)@.len())),
    ensures
        eval_outcome(r) == spec_run(node@, args@, old(indices)@, *b).0,
        final(indices)@ == spec_run(node@, args@, old(indices)@, *b).1,
    decreases node, 2int, 0int,
{
    let ghost env0 = indices@;
    match node {
        CompiledNode::Literal(v) => Ok(NumericValue::Real(*v)),
        CompiledNode::ComplexLiteral { re, im } => Ok(NumericValue::Complex { re: *re, im: *im }),
        CompiledNode::Argument(idx) => Ok(args[*idx]),
        CompiledNode::Index(slot) => Ok(indices[*slot]),
        CompiledNode::Binary { op, left, right } => {
            let lv = eval_node(left, args, indices, b)?;
            proof {
                lemma_run_frame(left@, args@, env0, *b, 0);
                lemma_wf_bound_mono(right@, args@.len(), below(env0.len()), below(indices@.len()));
            }
            let rv = eval_node(right, args, indices, b)?;
            match apply_binary(b, *op, lv, rv) {
                Some(v) => Ok(v),
                None => Err(EvalError::DivisionByZero),
            }
        },
        CompiledNode::Unary { op, operand } => {
            let val = eval_node(operand, args, indices, b)?;
            match apply_unary(b, *op, val) {
                Ok(v) => Ok(v),
                Err(_) => Err(EvalError::NumericOverflow),
            }
        },
        CompiledNode::Function { kind, args: fn_args } => {
            proof {
                lemma_function_nodes(*node);
            }
            let ghost nodes = view_nodes(fn_args@);
            let mut vals: Vec<NumericValue> = Vec::new();
            let mut i: usize = 0;
            proof {
                assert(nodes.take(0) =~= Seq::<Node>::empty());
            }
            #[verifier::loop_isolation(false)]
            while i < fn_args.len()
                invariant
                    i <= fn_args@.len(),
                    indices@.len() >= env0.len(),
                    spec_run_list(nodes.take(i as int), args@, env0, *b)
                        == (Ok::<Seq<NumericValue>, EvalFault>(vals@), indices@),
                    vals@.len() == i,
                decreases fn_args@.len() - i,
            {
                let ghost cur = indices@;
                proof {
                    assert(nodes.take(i + 1).drop_last() =~= nodes.take(i as int));
                    assert(nodes.take(i + 1).last() == nodes[i as int]);
                    assert(nodes[i as int] == fn_args@[i as int]@);
                    assert(node_wf(nodes[i as int], args@.len(), below(env0.len())));
                    lemma_wf_bound_mono(nodes[i as int], args@.len(), below(env0.len()), below(cur.len()));
                    lemma_run_frame(nodes[i as int], args@, cur, *b, 0);
                }
                let v = match eval_node(&fn_args[i], args, indices, b) {
                    Ok(v) => v,
                    Err(e) => {
                        proof {
                            lemma_run_list_error(nodes, i + 1, args@, env0, *b);
                        }
                        return Err(e);
                    },
                };
                vals.push(v);
                i = i + 1;
            }
            proof {
                assert(nodes.take(fn_args@.len() as int) =~= nodes);
            }
            Ok(apply_function(b, *kind, &vals))
        },
        CompiledNode::Sum { .. } | CompiledNode::Product { .. } => eval_aggregate(node, args, indices, b),
    }
}

/// Evaluates a sum or product: the body once per value of the slot from
/// the lower to the upper bound, accumulated from zero (sum) or one (product).
fn eval_aggregate<B: Fn(NumericOp) -> NumericReply>(
    node: &CompiledNode,
    args: &Vec<NumericValue>,
    indices: &mut Vec<NumericValue>,
    b: &B,
) -> (r: Result<NumericValue, EvalError>)
    requires
        is_backend(*b),
        node is Sum || node is Product,
        node_wf(node@, args@.len(), below(old(indices)@.len())),
    ensures
        eval_outcome(r) == spec_run(node@, args@, old(indices)@, *b).0,
        final(indices)@ == spec_run(node@, args@, old(indices)@, *b).1,
    decreases node, 1int, 0int,
{
    let is_sum = match node {
        CompiledNode::Sum { .. } => true,
        _ => false,
    };
    match node {
        CompiledNode::Sum { index, lower, upper, body } | CompiledNode::Product { index, lower, upper, body } => {
            let slot = *index;
            let ghost env0 = indices@;
            while indices.len() <= slot
                invariant
                    indices@.len() >= env0.len(),
                    indices@ =~= env0 + Seq::new(
                        (indices@.len() - env0.len()) as nat,
                        |k: int| NumericValue::Real(ZERO_BITS),
                    ),
                    env0.len() <= slot ==> indices@.len() <= slot + 1,
                    env0.len() > slot ==> indices@ == env0,
                decreases slot + 1 - indices@.len(),
            {
                indices.push(NumericValue::Real(ZERO_BITS));
            }
            let ghost base = indices@;
            proof {
                if slot < env0.len() {
                    assert(base =~= grown(env0, slot));
                } else {
                    assert(base =~= grown(env0, slot));
                }
                assert(decreases_to!(*node => **body));
            }
            let op = if is_sum { BinaryOp::Add } else { BinaryOp::Mul };
            let mut acc = if is_sum { NumericValue::Real(ZERO_BITS) } else { NumericValue::Real(ONE_BITS) };
            let ghost acc0 = acc;
            let lo = *lower;
            let hi = *upper;
            proof {
                assert(spec_run(node@, args@, env0, *b) == spec_run_loop(node@, lo as int, acc0, args@, base, *b));
            }
            if lo <= hi {
                let mut i = lo;
                #[verifier::loop_isolation(false)]
                loop
                    invariant
                        lo <= i <= hi,
                        is_backend(*b),
                        indices@.len() >= base.len(),
                        slot < base.len(),
                        spec_run_loop(node@, lo as int, acc0, args@, base, *b)
                            == spec_run_loop(node@, i as int, acc, args@, indices@, *b),
                        node_wf(body@, args@.len(), below(env0.len()).insert(slot)),
                        node@ matches Node::Sum(s, l, h, bd) || node@ matches Node::Product(s, l, h, bd),
                        node@ is Sum ==> node@ == Node::Sum(slot, lo, hi, Box::new(body@)),
                        node@ is Product ==> node@ == Node::Product(slot, lo, hi, Box::new(body@)),
                        op == (if node@ is Sum { BinaryOp::Add } else { BinaryOp::Mul }),
                    decreases hi - i,
                {
                    let ghost before = indices@;
                    let ghost acc_before = acc;
                    let v = compute(b, NumericOp::FromInteger(i));
                    indices.set(slot, v);
                    proof {
                        assert(below(env0.len()).insert(slot).subset_of(below(indices@.len())));
                        lemma_wf_bound_mono(body@, args@.len(), below(env0.len()).insert(slot), below(indices@.len()));
                        lemma_run_frame(body@, args@, indices@, *b, 0);
                    }
                    let ghost env2 = indices@;
                    let val = match eval_node(body, args, indices, b) {
                        Ok(x) => x,
                        Err(e) => {
                            proof {
                                assert(env2 == before.update(slot as int, value_of(*b, NumericOp::FromInteger(i as i64))));
                                assert(spec_run_loop(node@, i as int, acc_before, args@, before, *b) == (
                                    Err::<NumericValue, EvalFault>(e@),
                                    indices@,
                                ));
                            }
                            return Err(e);
                        },
                    };
                    acc = compute(b, NumericOp::Binary(op, acc, val));
                    proof {
                        assert(spec_run_loop(node@, i as int, acc_before, args@, before, *b) == spec_run_loop(
                            node@,
                            i + 1,
                            acc,
                            args@,
                            indices@,
                            *b,
                        ));
                    }
                    if i == hi {
                        break;
                    }
                    i = i + 1;
                }
            } else {
                assert(spec_run_loop(node@, lo as int, acc0, args@, base, *b) == (
                    Ok::<NumericValue, EvalFault>(acc0),
                    base,
                ));
            }
            Ok(acc)
        },
        _ => Ok(NumericValue::Real(ZERO_BITS)),
    }
}

} // verus!
