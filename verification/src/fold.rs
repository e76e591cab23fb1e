//! The folding pass: binds constants, resolves variables to argument
//! positions and index slots, resolves functions, and evaluates constant
//! subexpressions through the numeric backend.
use vstd::prelude::*;
use crate::ast::{AstBinaryOp, AstUnaryOp, Expr, MathConstant};
use crate::error::{CompileError, CompileFault};
use crate::functions::{arity, resolve, spec_arity, spec_resolve};
use crate::ir::{BinaryOp, BuiltinFn, CompiledExpr, CompiledNode, CompiledView, Node, UnaryOp, node_wf, view_nodes};
use crate::number::{
    UnaryFault, apply_binary, apply_function, apply_unary, ask, compute, is_backend,
    E_BITS, INFINITY_BITS, NAN_BITS, NEG_INFINITY_BITS, ONE_BITS, PI_BITS, ZERO_BITS, NumericOp, NumericReply,
    NumericValue, UnaryFaultView, reply, spec_apply, spec_binary, spec_unary, value_of,
};
use crate::validate::{
    binary_op_rejection, reject_kind, rejection, unary_op_rejection, validate_binary_op, validate_unary_op,
};

verus! {

/// The state the folding pass threads through the tree.
pub struct FoldState {
    /// Names of the free variables met so far, in order of first appearance.
    pub arguments: Seq<Seq<char>>,
    /// Index variables of the enclosing sums and products, innermost last.
    pub scopes: Seq<(Seq<char>, usize)>,
    /// The next unused index slot.
    pub next_slot: nat,
    /// Whether a complex literal or constant has been met.
    pub has_complex: bool,
}

/// The model of a constant table: names with their values.
pub open spec fn constants_view(cs: Seq<(String, NumericValue)>) -> Seq<(Seq<char>, NumericValue)> {
    cs.map_values(|p: (String, NumericValue)| (p.0@, p.1))
}

/// The value of the first constant named `name`, if any.
pub open spec fn constant_lookup(cs: Seq<(Seq<char>, NumericValue)>, name: Seq<char>) -> Option<NumericValue>
    decreases cs.len(),
{
    if cs.len() == 0 {
        None
    } else if cs[0].0 == name {
        Some(cs[0].1)
    } else {
        constant_lookup(cs.subrange(1, cs.len() as int), name)
    }
}

/// The slot of the innermost enclosing index variable named `name`, if any.
pub open spec fn scope_lookup(scopes: Seq<(Seq<char>, usize)>, name: Seq<char>) -> Option<usize>
    decreases scopes.len(),
{
    if scopes.len() == 0 {
        None
    } else if scopes.last().0 == name {
        Some(scopes.last().1)
    } else {
        scope_lookup(scopes.drop_last(), name)
    }
}

/// Whether `p` is the position of the first occurrence of `name` in `names`.
pub open spec fn first_position(names: Seq<Seq<char>>, name: Seq<char>, p: int) -> bool {
    &&& 0 <= p < names.len()
    &&& names[p] == name
    &&& forall|j: int| 0 <= j < p ==> names[j] != name
}

/// The position of the first occurrence of `name` in `names`, if any.
pub open spec fn position_of(names: Seq<Seq<char>>, name: Seq<char>) -> Option<int> {
    if exists|p: int| first_position(names, name, p) {
        Some(choose|p: int| first_position(names, name, p))
    } else {
        None
    }
}

/// What a variable stands for, and the state after meeting it: an enclosing
/// index variable first (innermost wins), then a constant, then an argument
/// (a new one is appended at the end the first time a name is met).
pub open spec fn spec_resolve_variable(
    st: FoldState,
    cs: Seq<(Seq<char>, NumericValue)>,
    name: Seq<char>,
) -> (Node, FoldState) {
    match scope_lookup(st.scopes, name) {
        Some(slot) => (Node::Index(slot), st),
        None => match constant_lookup(cs, name) {
            Some(NumericValue::Real(r)) => (Node::Literal(r), st),
            Some(NumericValue::Complex { re, im }) =>
                (Node::ComplexLiteral(re, im), FoldState { has_complex: true, ..st }),
            None => match position_of(st.arguments, name) {
                Some(p) => (Node::Argument(p as usize), st),
                None => (
                    Node::Argument(st.arguments.len() as usize),
                    FoldState { arguments: st.arguments.push(name), ..st },
                ),
            },
        },
    }
}

/// The value of a literal node, if it is one.
pub open spec fn literal_of(n: Node) -> Option<NumericValue> {
    match n {
        Node::Literal(b) => Some(NumericValue::Real(b)),
        Node::ComplexLiteral(re, im) => Some(NumericValue::Complex { re, im }),
        _ => None,
    }
}

/// The literal node holding a value.
pub open spec fn node_of(v: NumericValue) -> Node {
    match v {
        NumericValue::Real(b) => Node::Literal(b),
        NumericValue::Complex { re, im } => Node::ComplexLiteral(re, im),
    }
}

/// A binary node, evaluated at once when both operands are literals.
pub open spec fn fold_binary<B: Fn(NumericOp) -> NumericReply>(
    b: B,
    op: BinaryOp,
    l: Node,
    r: Node,
) -> Result<Node, CompileFault> {
    match (literal_of(l), literal_of(r)) {
        (Some(lv), Some(rv)) => match spec_binary(b, op, lv, rv) {
            Some(v) => Ok(node_of(v)),
            None => Err(CompileFault::DivisionByZero),
        },
        _ => Ok(Node::Binary(op, Box::new(l), Box::new(r))),
    }
}

/// A unary node, evaluated at once when the operand is a literal.
pub open spec fn fold_unary<B: Fn(NumericOp) -> NumericReply>(
    b: B,
    op: UnaryOp,
    x: Node,
) -> Result<Node, CompileFault> {
    match literal_of(x) {
        Some(v) => match spec_unary(b, op, v) {
            Ok(r) => Ok(node_of(r)),
            Err(UnaryFaultView::ComplexFactorial) =>
                Err(CompileFault::NumericOverflow("factorial of complex number"@)),
            Err(UnaryFaultView::NonInteger(t)) =>
                Err(CompileFault::NumericOverflow("factorial of non-integer "@ + t)),
        },
        None => Ok(Node::Unary(op, Box::new(x))),
    }
}

/// Whether every node of a sequence is a literal.
pub open spec fn all_literal(args: Seq<Node>) -> bool {
    forall|i: int| 0 <= i < args.len() ==> #[trigger] literal_of(args[i]) is Some
}

/// The values of a sequence of literal nodes.
pub open spec fn literal_values(args: Seq<Node>) -> Seq<NumericValue> {
    Seq::new(args.len(), |i: int| literal_of(args[i])->0)
}

/// A function node, evaluated at once when all arguments are literals.
pub open spec fn fold_function<B: Fn(NumericOp) -> NumericReply>(
    b: B,
    kind: BuiltinFn,
    args: Seq<Node>,
) -> Node {
    if all_literal(args) {
        node_of(spec_apply(b, kind, literal_values(args)))
    } else {
        Node::Function(kind, args)
    }
}

/// The evaluator's operator for an input operator, if it has one.
pub open spec fn convert_binary_op(op: AstBinaryOp) -> Option<BinaryOp> {
    match op {
        AstBinaryOp::Add => Some(BinaryOp::Add),
        AstBinaryOp::Sub => Some(BinaryOp::Sub),
        AstBinaryOp::Mul => Some(BinaryOp::Mul),
        AstBinaryOp::Div => Some(BinaryOp::Div),
        AstBinaryOp::Pow => Some(BinaryOp::Pow),
        AstBinaryOp::Mod => Some(BinaryOp::Mod),
        _ => None,
    }
}

/// A named mathematical constant as a compiled node.
pub open spec fn fold_constant(mc: MathConstant, st: FoldState) -> (Result<Node, CompileFault>, FoldState) {
    match mc {
        MathConstant::Pi => (Ok(Node::Literal(PI_BITS)), st),
        MathConstant::E => (Ok(Node::Literal(E_BITS)), st),
        MathConstant::I => (Ok(Node::ComplexLiteral(ZERO_BITS, ONE_BITS)), FoldState { has_complex: true, ..st }),
        MathConstant::Infinity => (Ok(Node::Literal(INFINITY_BITS)), st),
        MathConstant::NegInfinity => (Ok(Node::Literal(NEG_INFINITY_BITS)), st),
        MathConstant::NaN => (Ok(Node::Literal(NAN_BITS)), st),
        MathConstant::J => (
            Err(CompileFault::Unsupported("MathConstant"@, "quaternion basis J not supported in v1"@)),
            st,
        ),
        MathConstant::K => (
            Err(CompileFault::Unsupported("MathConstant"@, "quaternion basis K not supported in v1"@)),
            st,
        ),
    }
}

/// The integer a node stands for as a sum or product bound, if any.
pub open spec fn spec_bound<B: Fn(NumericOp) -> NumericReply>(b: B, n: Node) -> Option<i64> {
    match n {
        Node::Literal(bits) => match reply(b, NumericOp::IntegerBound(bits)) {
            NumericReply::Bound(o) => o,
            _ => None,
        },
        _ => None,
    }
}

/// The result of folding a tree, and the state after it.
pub open spec fn spec_fold<B: Fn(NumericOp) -> NumericReply>(
    e: Expr,
    st: FoldState,
    cs: Seq<(Seq<char>, NumericValue)>,
    b: B,
) -> (Result<Node, CompileFault>, FoldState)
    decreases e, 1int,
{
    match e {
        Expr::Integer(v) => (Ok(node_of(value_of(b, NumericOp::FromInteger(v)))), st),
        Expr::Float(bits) => (Ok(Node::Literal(bits)), st),
        Expr::Rational { numerator, denominator } => {
            let (r1, s1) = spec_fold(*numerator, st, cs, b);
            match r1 {
                Err(x) => (Err(x), s1),
                Ok(n1) => {
                    let (r2, s2) = spec_fold(*denominator, s1, cs, b);
                    match r2 {
                        Err(x) => (Err(x), s2),
                        Ok(n2) => (fold_binary(b, BinaryOp::Div, n1, n2), s2),
                    }
                },
            }
        },
        Expr::Complex { real: re, imaginary: im } => {
            let s0 = FoldState { has_complex: true, ..st };
            let (r1, s1) = spec_fold(*re, s0, cs, b);
            match r1 {
                Err(x) => (Err(x), s1),
                Ok(n1) => {
                    let (r2, s2) = spec_fold(*im, s1, cs, b);
                    match r2 {
                        Err(x) => (Err(x), s2),
                        Ok(n2) => match fold_binary(b, BinaryOp::Mul, n2, Node::ComplexLiteral(ZERO_BITS, ONE_BITS)) {
                            Err(x) => (Err(x), s2),
                            Ok(m) => (fold_binary(b, BinaryOp::Add, n1, m), s2),
                        },
                    }
                },
            }
        },
        Expr::Variable(name) => {
            let (n, s1) = spec_resolve_variable(st, cs, name@);
            (Ok(n), s1)
        },
        Expr::Constant(mc) => fold_constant(mc, st),
        Expr::Binary { op, left, right } => match convert_binary_op(op) {
            None => {
                let x = binary_op_rejection(op)->0;
                (Err(CompileFault::Unsupported(x.0, x.1)), st)
            },
            Some(bop) => {
                let (r1, s1) = spec_fold(*left, st, cs, b);
                match r1 {
                    Err(x) => (Err(x), s1),
                    Ok(n1) => {
                        let (r2, s2) = spec_fold(*right, s1, cs, b);
                        match r2 {
                            Err(x) => (Err(x), s2),
                            Ok(n2) => (fold_binary(b, bop, n1, n2), s2),
                        }
                    },
                }
            },
        },
        Expr::Unary { op, operand } => match op {
            AstUnaryOp::Transpose => {
                let x = unary_op_rejection(op)->0;
                (Err(CompileFault::Unsupported(x.0, x.1)), st)
            },
            _ => {
                let (r1, s1) = spec_fold(*operand, st, cs, b);
                match r1 {
                    Err(x) => (Err(x), s1),
                    Ok(n) => match op {
                        AstUnaryOp::Neg => (fold_unary(b, UnaryOp::Neg, n), s1),
                        AstUnaryOp::Factorial => (fold_unary(b, UnaryOp::Factorial, n), s1),
                        _ => (Ok(n), s1),
                    },
                }
            },
        },
        Expr::Function { name, args } => match spec_resolve(name@) {
            None => (Err(CompileFault::UnknownFunction(name@)), st),
            Some(kind) => if args@.len() != spec_arity(kind) {
                (Err(CompileFault::ArityMismatch(name@, spec_arity(kind) as usize, args@.len() as usize)), st)
            } else {
                let (rs, s1) = spec_fold_list(args@, st, cs, b);
                match rs {
                    Err(x) => (Err(x), s1),
                    Ok(ns) => (Ok(fold_function(b, kind, ns)), s1),
                }
            },
        },
        Expr::Sum { .. } | Expr::Product { .. } => spec_fold_binder(e, st, cs, b),
        Expr::Unsupported(kind) => {
            let x = rejection(kind);
            (Err(CompileFault::Unsupported(x.0, x.1)), st)
        },
    }
}

/// Folding of a sequence of trees, left to right, stopping at the first error.
pub open spec fn spec_fold_list<B: Fn(NumericOp) -> NumericReply>(
    args: Seq<Expr>,
    st: FoldState,
    cs: Seq<(Seq<char>, NumericValue)>,
    b: B,
) -> (Result<Seq<Node>, CompileFault>, FoldState)
    decreases args, 0int,
{
    if args.len() == 0 {
        (Ok(Seq::empty()), st)
    } else {
        let (rs, s1) = spec_fold_list(args.drop_last(), st, cs, b);
        match rs {
            Err(x) => (Err(x), s1),
            Ok(ns) => {
                let (r, s2) = spec_fold(args.last(), s1, cs, b);
                match r {
                    Err(x) => (Err(x), s2),
                    Ok(n) => (Ok(ns.push(n)), s2),
                }
            },
        }
    }
}

/// Folding of a sum or product: its bounds must fold to integers; its index
/// variable gets the next slot and is in scope in the body only.
pub open spec fn spec_fold_binder<B: Fn(NumericOp) -> NumericReply>(
    e: Expr,
    st: FoldState,
    cs: Seq<(Seq<char>, NumericValue)>,
    b: B,
) -> (Result<Node, CompileFault>, FoldState)
    decreases e, 0int,
{
    match e {
        Expr::Sum { index, lower, upper, body, lower_text, upper_text }
        | Expr::Product { index, lower, upper, body, lower_text, upper_text } => {
            let construct = if e is Sum { "sum"@ } else { "product"@ };
            let (rl, s1) = spec_fold(*lower, st, cs, b);
            match rl {
                Err(x) => (Err(x), s1),
                Ok(nl) => {
                    let (ru, s2) = spec_fold(*upper, s1, cs, b);
                    match ru {
                        Err(x) => (Err(x), s2),
                        Ok(nu) => match spec_bound(b, nl) {
                            None => (Err(CompileFault::NonIntegerBounds(construct, lower_text@)), s2),
                            Some(lo) => match spec_bound(b, nu) {
                                None => (Err(CompileFault::NonIntegerBounds(construct, upper_text@)), s2),
                                Some(hi) => {
                                    let slot = s2.next_slot as usize;
                                    let s3 = FoldState {
                                        scopes: s2.scopes.push((index@, slot)),
                                        next_slot: s2.next_slot + 1,
                                        ..s2
                                    };
                                    let (rb, s4) = spec_fold(*body, s3, cs, b);
                                    match rb {
                                        Err(x) => (Err(x), s4),
                                        Ok(nb) => {
                                            let s5 = FoldState { scopes: s4.scopes.drop_last(), ..s4 };
                                            if e is Sum {
                                                (Ok(Node::Sum(slot, lo, hi, Box::new(nb))), s5)
                                            } else {
                                                (Ok(Node::Product(slot, lo, hi, Box::new(nb))), s5)
                                            }
                                        },
                                    }
                                },
                            },
                        },
                    }
                },
            }
        },
        _ => (Err(CompileFault::DivisionByZero), st),
    }
}

/// The number of sums and products in a tree.
pub open spec fn binders(e: Expr) -> nat
    decreases e, 1int,
{
    match e {
        Expr::Rational { numerator, denominator } => binders(*numerator) + binders(*denominator),
        Expr::Complex { real: re, imaginary: im } => binders(*re) + binders(*im),
        Expr::Binary { left, right, .. } => binders(*left) + binders(*right),
        Expr::Unary { operand, .. } => binders(*operand),
        Expr::Function { args, .. } => binders_list(args@),
        Expr::Sum { lower, upper, body, .. } | Expr::Product { lower, upper, body, .. } =>
            1 + binders(*lower) + binders(*upper) + binders(*body),
        _ => 0,
    }
}

/// The number of sums and products in a sequence of trees.
pub open spec fn binders_list(args: Seq<Expr>) -> nat
    decreases args, 0int,
{
    if args.len() == 0 {
        0
    } else {
        binders_list(args.drop_last()) + binders(args.last())
    }
}

/// The slots of a scope stack.
pub open spec fn slots(scopes: Seq<(Seq<char>, usize)>) -> Set<usize> {
    Set::new(|s: usize| exists|i: int| 0 <= i < scopes.len() && scopes[i].1 == s)
}

/// Whether a sequence of names holds no name twice.
pub open spec fn no_duplicates(names: Seq<Seq<char>>) -> bool {
    forall|i: int, j: int| 0 <= i < j < names.len() ==> names[i] != names[j]
}

/// Whether `a` is a prefix of `b`.
pub open spec fn is_prefix(a: Seq<Seq<char>>, b: Seq<Seq<char>>) -> bool {
    a.len() <= b.len() && b.subrange(0, a.len() as int) == a
}

/// The outcome of a folding step as a model.
pub open spec fn outcome(r: Result<CompiledNode, CompileError>) -> Result<Node, CompileFault> {
    match r {
        Ok(n) => Ok(n@),
        Err(e) => Err(e@),
    }
}

proof fn lemma_wf_more_args(n: Node, k1: nat, k2: nat, bound: Set<usize>)
    requires
        node_wf(n, k1, bound),
        k1 <= k2,
    ensures
        node_wf(n, k2, bound),
    decreases n,
{
    match n {
        Node::Binary(_, l, r) => {
            lemma_wf_more_args(*l, k1, k2, bound);
            lemma_wf_more_args(*r, k1, k2, bound);
        },
        Node::Unary(_, x) => lemma_wf_more_args(*x, k1, k2, bound),
        Node::Function(_, args) => {
            assert forall|i: int| 0 <= i < args.len() implies node_wf(#[trigger] args[i], k2, bound) by {
                lemma_wf_more_args(args[i], k1, k2, bound);
            }
        },
        Node::Sum(slot, _, _, body) | Node::Product(slot, _, _, body) =>
            lemma_wf_more_args(*body, k1, k2, bound.insert(slot)),
        _ => {},
    }
}

proof fn lemma_slots_push(scopes: Seq<(Seq<char>, usize)>, x: (Seq<char>, usize))
    ensures
        slots(scopes.push(x)) == slots(scopes).insert(x.1),
{
    let a = slots(scopes.push(x));
    let b = slots(scopes).insert(x.1);
    assert forall|s: usize| a.contains(s) <==> b.contains(s) by {
        if a.contains(s) {
            let i = choose|i: int| 0 <= i < scopes.push(x).len() && scopes.push(x)[i].1 == s;
            if i < scopes.len() {
                assert(scopes[i].1 == s);
            }
        }
        if slots(scopes).contains(s) {
            let i = choose|i: int| 0 <= i < scopes.len() && scopes[i].1 == s;
            assert(scopes.push(x)[i].1 == s);
        }
        if s == x.1 {
            assert(scopes.push(x)[scopes.len() as int].1 == s);
        }
    }
    assert(a =~= b);
}

proof fn lemma_binders_prefix(args: Seq<Expr>, k: int)
    requires
        0 <= k <= args.len(),
    ensures
        binders_list(args.take(k)) <= binders_list(args),
    decreases args.len() - k,
{
    if k < args.len() {
        lemma_binders_prefix(args, k + 1);
        assert(args.take(k + 1).drop_last() =~= args.take(k));
    } else {
        assert(args.take(k) =~= args);
    }
}

proof fn lemma_fold_list_error<B: Fn(NumericOp) -> NumericReply>(
    args: Seq<Expr>,
    k: int,
    st: FoldState,
    cs: Seq<(Seq<char>, NumericValue)>,
    b: B,
)
    requires
        0 <= k <= args.len(),
        spec_fold_list(args.take(k), st, cs, b).0 is Err,
    ensures
        spec_fold_list(args, st, cs, b) == spec_fold_list(args.take(k), st, cs, b),
    decreases args.len() - k,
{
    if k < args.len() {
        assert(args.take(k + 1).drop_last() =~= args.take(k));
        lemma_fold_list_error(args, k + 1, st, cs, b);
    } else {
        assert(args.take(k) =~= args);
    }
}

proof fn lemma_function_view(kind: BuiltinFn, args: Vec<CompiledNode>)
    ensures
        (CompiledNode::Function { kind, args })@ == Node::Function(kind, view_nodes(args@)),
{
    let n = CompiledNode::Function { kind, args };
    if let Node::Function(k, s) = n@ {
        assert(s =~= view_nodes(args@));
    }
}

/// Context for the folding pass: constants, arguments met so far in order
/// of first appearance, the stack of index variables in scope, the next
/// index slot, and whether anything complex was met.
struct FoldContext<'a> {
    constants: &'a Vec<(String, NumericValue)>,
    arguments: Vec<String>,
    index_scopes: Vec<(String, usize)>,
    next_index_slot: usize,
    has_complex: bool,
}

impl<'a> View for FoldContext<'a> {
    type V = FoldState;

    closed spec fn view(&self) -> FoldState {
        FoldState {
            arguments: self.arguments@.map_values(|s: String| s@),
            scopes: self.index_scopes@.map_values(|p: (String, usize)| (p.0@, p.1)),
            next_slot: self.next_index_slot as nat,
            has_complex: self.has_complex,
        }
    }
}

impl<'a> FoldContext<'a> {
    fn new(constants: &'a Vec<(String, NumericValue)>) -> (r: Self)
        ensures
            r.constants == constants,
            r@ == (FoldState {
                arguments: Seq::empty(),
                scopes: Seq::empty(),
                next_slot: 0,
                has_complex: false,
            }),
    {
        let r = FoldContext {
            constants,
            arguments: Vec::new(),
            index_scopes: Vec::new(),
            next_index_slot: 0,
            has_complex: false,
        };
        assert(r@.arguments =~= Seq::<Seq<char>>::empty());
        assert(r@.scopes =~= Seq::<(Seq<char>, usize)>::empty());
        r
    }

    fn push_index_scope(&mut self, name: &String) -> (slot: usize)
        requires
            old(self).next_index_slot < usize::MAX,
        ensures
            slot == old(self).next_index_slot,
            final(self)@ == (FoldState {
                scopes: old(self)@.scopes.push((name@, slot)),
                next_slot: old(self)@.next_slot + 1,
                ..old(self)@
            }),
            final(self).constants == old(self).constants,
            final(self).next_index_slot == old(self).next_index_slot + 1,
    {
        let slot = self.next_index_slot;
        self.next_index_slot = self.next_index_slot + 1;
        self.index_scopes.push((name.clone(), slot));
        proof {
            assert(self@.scopes =~= old(self)@.scopes.push((name@, slot)));
        }
        slot
    }

    fn pop_index_scope(&mut self)
        requires
            old(self).index_scopes@.len() > 0,
        ensures
            final(self)@ == (FoldState { scopes: old(self)@.scopes.drop_last(), ..old(self)@ }),
            final(self).constants == old(self).constants,
            final(self).next_index_slot == old(self).next_index_slot,
    {
        self.index_scopes.pop();
        proof {
            assert(self@.scopes =~= old(self)@.scopes.drop_last());
        }
    }

    /// Looks a variable up: first in the index scopes (innermost first),
    /// then in the constants, then among the arguments (assigning a new
    /// argument position the first time a name is met).
    fn resolve_variable(&mut self, name: &String) -> (n: CompiledNode)
        ensures
            (n@, final(self)@) == spec_resolve_variable(old(self)@, constants_view(old(self).constants@), name@),
            final(self).constants == old(self).constants,
            final(self).next_index_slot == old(self).next_index_slot,
            final(self)@.scopes == old(self)@.scopes,
            is_prefix(old(self)@.arguments, final(self)@.arguments),
            no_duplicates(old(self)@.arguments) ==> no_duplicates(final(self)@.arguments),
            node_wf(n@, final(self)@.arguments.len(), slots(old(self)@.scopes)),
    {
        let ghost scopes = self@.scopes;
        let mut i = self.index_scopes.len();
        assert(scopes.take(i as int) =~= scopes);
        while i > 0
            invariant
                i <= self.index_scopes@.len(),
                scopes == self@.scopes,
                *self == *old(self),
                scope_lookup(scopes, name@) == scope_lookup(scopes.take(i as int), name@),
            decreases i,
        {
            i = i - 1;
            proof {
                assert(scopes.take(i + 1).drop_last() =~= scopes.take(i as int));
                assert(scopes.take(i + 1).last() == scopes[i as int]);
            }
            if self.index_scopes[i].0 == *name {
                assert(scopes[i as int].1 == self.index_scopes@[i as int].1);
                assert(old(self)@.arguments.subrange(0, old(self)@.arguments.len() as int) =~= old(self)@.arguments);
                return CompiledNode::Index(self.index_scopes[i].1);
            }
        }
        let ghost cs = constants_view(self.constants@);
        let mut k: usize = 0;
        assert(cs.subrange(0, cs.len() as int) =~= cs);
        while k < self.constants.len()
            invariant
                k <= self.constants@.len(),
                cs == constants_view(self.constants@),
                *self == *old(self),
                scopes == self@.scopes,
                scope_lookup(scopes, name@) is None,
                constant_lookup(cs, name@) == constant_lookup(cs.subrange(k as int, cs.len() as int), name@),
            decreases self.constants@.len() - k,
        {
            proof {
                let rest = cs.subrange(k as int, cs.len() as int);
                assert(rest.subrange(1, rest.len() as int) =~= cs.subrange(k + 1, cs.len() as int));
                assert(rest[0] == cs[k as int]);
            }
            if self.constants[k].0 == *name {
                match self.constants[k].1 {
                    NumericValue::Real(r) => {
                        assert(old(self)@.arguments.subrange(0, old(self)@.arguments.len() as int) =~= old(self)@.arguments);
                        return CompiledNode::Literal(r);
                    },
                    NumericValue::Complex { re, im } => {
                        self.has_complex = true;
                        assert(old(self)@.arguments.subrange(0, old(self)@.arguments.len() as int) =~= old(self)@.arguments);
                        return CompiledNode::ComplexLiteral { re, im };
                    },
                }
            }
            k = k + 1;
        }
        let ghost names = self@.arguments;
        let mut p: usize = 0;
        while p < self.arguments.len()
            invariant
                p <= self.arguments@.len(),
                names == self@.arguments,
                scopes == self@.scopes,
                *self == *old(self),
                cs == constants_view(self.constants@),
                scope_lookup(scopes, name@) is None,
                constant_lookup(cs, name@) is None,
                forall|j: int| 0 <= j < p ==> names[j] != name@,
            decreases self.arguments@.len() - p,
        {
            if self.arguments[p] == *name {
                proof {
                    assert(names[p as int] == self.arguments@[p as int]@);
                    assert(first_position(names, name@, p as int));
                    assert forall|q: int| first_position(names, name@, q) implies q == p by {
                        if q < p {
                            assert(names[q] != name@);
                        } else if q > p {
                            assert(names[p as int] != name@);
                        }
                    }
                }
                proof {
                    let c = choose|q: int| first_position(names, name@, q);
                    assert(first_position(names, name@, c));
                    assert(c == p);
                    assert(old(self)@.arguments.subrange(0, old(self)@.arguments.len() as int) =~= old(self)@.arguments);
                }
                return CompiledNode::Argument(p);
            }
            p = p + 1;
        }
        let pos = self.arguments.len();
        self.arguments.push(name.clone());
        proof {
            assert(!(exists|q: int| first_position(names, name@, q)));
            assert(self@.arguments =~= names.push(name@));
            assert(self@.arguments.subrange(0, names.len() as int) =~= names);
        }
        CompiledNode::Argument(pos)
    }
}

proof fn lemma_prefix_trans(a: Seq<Seq<char>>, b: Seq<Seq<char>>, c: Seq<Seq<char>>)
    requires
        is_prefix(a, b),
        is_prefix(b, c),
    ensures
        is_prefix(a, c),
{
    assert(c.subrange(0, a.len() as int) =~= c.subrange(0, b.len() as int).subrange(0, a.len() as int));
}

proof fn lemma_prefix_refl(a: Seq<Seq<char>>)
    ensures
        is_prefix(a, a),
{
    assert(a.subrange(0, a.len() as int) =~= a);
}

fn node_to_numeric(node: &CompiledNode) -> (r: Option<NumericValue>)
    ensures
        r == literal_of(node@),
{
    match node {
        CompiledNode::Literal(v) => Some(NumericValue::Real(*v)),
        CompiledNode::ComplexLiteral { re, im } => Some(NumericValue::Complex { re: *re, im: *im }),
        _ => None,
    }
}

fn numeric_to_node(v: NumericValue) -> (n: CompiledNode)
    ensures
        n@ == node_of(v),
{
    match v {
        NumericValue::Real(r) => CompiledNode::Literal(r),
        NumericValue::Complex { re, im } => CompiledNode::ComplexLiteral { re, im },
    }
}

/// Folds a binary operation at compile time when both operands are literals.
fn try_fold_binary<B: Fn(NumericOp) -> NumericReply>(
    op: BinaryOp,
    left: CompiledNode,
    right: CompiledNode,
    b: &B,
) -> (r: Result<CompiledNode, CompileError>)
    requires
        is_backend(*b),
    ensures
        outcome(r) == fold_binary(*b, op, left@, right@),
{
    if let (Some(lv), Some(rv)) = (node_to_numeric(&left), node_to_numeric(&right)) {
        match apply_binary(b, op, lv, rv) {
            Some(v) => Ok(numeric_to_node(v)),
            None => Err(CompileError::DivisionByZero),
        }
    } else {
        Ok(CompiledNode::Binary { op, left: Box::new(left), right: Box::new(right) })
    }
}

/// Folds a unary operation at compile time when the operand is a literal.
fn try_fold_unary<B: Fn(NumericOp) -> NumericReply>(
    op: UnaryOp,
    operand: CompiledNode,
    b: &B,
) -> (r: Result<CompiledNode, CompileError>)
    requires
        is_backend(*b),
    ensures
        outcome(r) == fold_unary(*b, op, operand@),
{
    if let Some(val) = node_to_numeric(&operand) {
        match apply_unary(b, op, val) {
            Ok(v) => Ok(numeric_to_node(v)),
            Err(UnaryFault::ComplexFactorial) => Err(
                CompileError::NumericOverflow { context: String::from_str("factorial of complex number") },
            ),
            Err(UnaryFault::NonInteger(text)) => {
                let mut context = String::from_str("factorial of non-integer ");
                context.append(text.as_str());
                Err(CompileError::NumericOverflow { context })
            },
        }
    } else {
        Ok(CompiledNode::Unary { op, operand: Box::new(operand) })
    }
}

/// Folds a function call at compile time when all arguments are literals.
fn try_fold_function<B: Fn(NumericOp) -> NumericReply>(
    kind: BuiltinFn,
    args: Vec<CompiledNode>,
    b: &B,
) -> (r: CompiledNode)
    requires
        is_backend(*b),
        args@.len() == spec_arity(kind),
    ensures
        r@ == fold_function(*b, kind, view_nodes(args@)),
{
    let ghost nodes = view_nodes(args@);
    let mut vals: Vec<NumericValue> = Vec::new();
    let mut i: usize = 0;
    while i < args.len()
        invariant
            i <= args@.len(),
            nodes == view_nodes(args@),
            vals@.len() == i,
            forall|j: int| 0 <= j < i ==> literal_of(nodes[j]) == Some(#[trigger] vals@[j]),
        decreases args@.len() - i,
    {
        match node_to_numeric(&args[i]) {
            Some(v) => {
                vals.push(v);
            },
            None => {
                proof {
                    assert(literal_of(nodes[i as int]) is None);
                    assert(!all_literal(nodes));
                    lemma_function_view(kind, args);
                }
                return CompiledNode::Function { kind, args };
            },
        }
        i = i + 1;
    }
    proof {
        assert forall|j: int| 0 <= j < nodes.len() implies #[trigger] literal_of(nodes[j]) is Some by {
            assert(literal_of(nodes[j]) == Some(vals@[j]));
        }
        assert(all_literal(nodes));
        assert forall|j: int| 0 <= j < nodes.len() implies vals@[j] == literal_values(nodes)[j] by {
            assert(literal_of(nodes[j]) == Some(vals@[j]));
        }
        assert(vals@ =~= literal_values(nodes));
    }
    numeric_to_node(apply_function(b, kind, &vals))
}

proof fn lemma_fold_binary_wf<B: Fn(NumericOp) -> NumericReply>(
    b: B,
    op: BinaryOp,
    l: Node,
    r: Node,
    k: nat,
    bound: Set<usize>,
)
    requires
        node_wf(l, k, bound),
        node_wf(r, k, bound),
    ensures
        fold_binary(b, op, l, r) matches Ok(n) ==> node_wf(n, k, bound),
{
}

proof fn lemma_fold_unary_wf<B: Fn(NumericOp) -> NumericReply>(
    b: B,
    op: UnaryOp,
    x: Node,
    k: nat,
    bound: Set<usize>,
)
    requires
        node_wf(x, k, bound),
    ensures
        fold_unary(b, op, x) matches Ok(n) ==> node_wf(n, k, bound),
{
}

/// A named mathematical constant as a compiled node.
fn fold_math_constant(mc: MathConstant, ctx: &mut FoldContext) -> (r: Result<CompiledNode, CompileError>)
    ensures
        outcome(r) == fold_constant(mc, old(ctx)@).0,
        final(ctx)@ == fold_constant(mc, old(ctx)@).1,
        final(ctx).constants == old(ctx).constants,
        final(ctx).next_index_slot == old(ctx).next_index_slot,
{
    match mc {
        MathConstant::Pi => Ok(CompiledNode::Literal(PI_BITS)),
        MathConstant::E => Ok(CompiledNode::Literal(E_BITS)),
        MathConstant::I => {
            ctx.has_complex = true;
            Ok(CompiledNode::ComplexLiteral { re: ZERO_BITS, im: ONE_BITS })
        },
        MathConstant::Infinity => Ok(CompiledNode::Literal(INFINITY_BITS)),
        MathConstant::NegInfinity => Ok(CompiledNode::Literal(NEG_INFINITY_BITS)),
        MathConstant::NaN => Ok(CompiledNode::Literal(NAN_BITS)),
        MathConstant::J => Err(CompileError::UnsupportedExpression {
            variant: "MathConstant",
            context: String::from_str("quaternion basis J not supported in v1"),
        }),
        MathConstant::K => Err(CompileError::UnsupportedExpression {
            variant: "MathConstant",
            context: String::from_str("quaternion basis K not supported in v1"),
        }),
    }
}

fn convert_op(op: AstBinaryOp) -> (r: Option<BinaryOp>)
    ensures
        r == convert_binary_op(op),
{
    match op {
        AstBinaryOp::Add => Some(BinaryOp::Add),
        AstBinaryOp::Sub => Some(BinaryOp::Sub),
        AstBinaryOp::Mul => Some(BinaryOp::Mul),
        AstBinaryOp::Div => Some(BinaryOp::Div),
        AstBinaryOp::Pow => Some(BinaryOp::Pow),
        AstBinaryOp::Mod => Some(BinaryOp::Mod),
        _ => None,
    }
}

/// The integer a node stands for as a sum or product bound, if any.
fn extract_integer<B: Fn(NumericOp) -> NumericReply>(node: &CompiledNode, b: &B) -> (r: Option<i64>)
    requires
        is_backend(*b),
    ensures
        r == spec_bound(*b, node@),
{
    match node {
        CompiledNode::Literal(bits) => match ask(b, NumericOp::IntegerBound(*bits)) {
            NumericReply::Bound(o) => o,
            _ => None,
        },
        _ => None,
    }
}

/// What a folding step promises: its outcome and final state are those of
/// `spec_fold`, the constants are untouched, at most one slot is used per
/// sum or product, arguments are only appended (never twice the same name),
/// and a successful step restores the scopes and yields a well-formed node.
spec fn fold_post<B: Fn(NumericOp) -> NumericReply>(
    e: Expr,
    b: B,
    old_ctx: FoldContext,
    new_ctx: FoldContext,
    r: Result<CompiledNode, CompileError>,
) -> bool {
    let (sr, ss) = spec_fold(e, old_ctx@, constants_view(old_ctx.constants@), b);
    &&& outcome(r) == sr
    &&& new_ctx@ == ss
    &&& new_ctx.constants == old_ctx.constants
    &&& new_ctx.next_index_slot <= old_ctx.next_index_slot + binders(e)
    &&& is_prefix(old_ctx@.arguments, new_ctx@.arguments)
    &&& (no_duplicates(old_ctx@.arguments) ==> no_duplicates(new_ctx@.arguments))
    &&& (r matches Ok(n) ==> new_ctx@.scopes == old_ctx@.scopes && node_wf(
        n@,
        new_ctx@.arguments.len(),
        slots(old_ctx@.scopes),
    ))
}

/// Folds one tree node.
fn fold_node<B: Fn(NumericOp) -> NumericReply>(
    ast: &Expr,
    ctx: &mut FoldContext,
    b: &B,
) -> (r: Result<CompiledNode, CompileError>)
    requires
        is_backend(*b),
        old(ctx).next_index_slot + binders(*ast) <= usize::MAX,
    ensures
        fold_post(*ast, *b, *old(ctx), *final(ctx), r),
    decreases ast, 1int,
{
    let ghost st0 = ctx@;
    proof {
        lemma_prefix_refl(st0.arguments);
    }
    match ast {
        Expr::Integer(v) => Ok(numeric_to_node(compute(b, NumericOp::FromInteger(*v)))),
        Expr::Float(bits) => Ok(CompiledNode::Literal(*bits)),
        Expr::Rational { numerator, denominator } => {
            let num = fold_node(numerator, ctx, b)?;
            let ghost st1 = ctx@;
            let den = match fold_node(denominator, ctx, b) {
                Ok(n) => n,
                Err(e) => {
                    proof {
                        lemma_prefix_trans(st0.arguments, st1.arguments, ctx@.arguments);
                    }
                    return Err(e);
                },
            };
            proof {
                lemma_prefix_trans(st0.arguments, st1.arguments, ctx@.arguments);
                lemma_wf_more_args(num@, st1.arguments.len(), ctx@.arguments.len(), slots(st0.scopes));
                lemma_fold_binary_wf(*b, BinaryOp::Div, num@, den@, ctx@.arguments.len(), slots(st0.scopes));
            }
            try_fold_binary(BinaryOp::Div, num, den, b)
        },
        Expr::Complex { real: re, imaginary: im } => {
            ctx.has_complex = true;
            let ghost st0b = ctx@;
            proof {
                lemma_prefix_refl(st0b.arguments);
            }
            let re_node = fold_node(re, ctx, b)?;
            let ghost st1 = ctx@;
            let im_node = match fold_node(im, ctx, b) {
                Ok(n) => n,
                Err(e) => {
                    proof {
                        lemma_prefix_trans(st0.arguments, st1.arguments, ctx@.arguments);
                    }
                    return Err(e);
                },
            };
            let i_unit = CompiledNode::ComplexLiteral { re: ZERO_BITS, im: ONE_BITS };
            proof {
                lemma_prefix_trans(st0.arguments, st1.arguments, ctx@.arguments);
                lemma_wf_more_args(re_node@, st1.arguments.len(), ctx@.arguments.len(), slots(st0.scopes));
                lemma_fold_binary_wf(*b, BinaryOp::Mul, im_node@, i_unit@, ctx@.arguments.len(), slots(st0.scopes));
            }
            let im_part = try_fold_binary(BinaryOp::Mul, im_node, i_unit, b)?;
            proof {
                lemma_fold_binary_wf(*b, BinaryOp::Add, re_node@, im_part@, ctx@.arguments.len(), slots(st0.scopes));
            }
            try_fold_binary(BinaryOp::Add, re_node, im_part, b)
        },
        Expr::Variable(name) => Ok(ctx.resolve_variable(name)),
        Expr::Constant(mc) => fold_math_constant(*mc, ctx),
        Expr::Binary { op, left, right } => {
            let bin_op = match convert_op(*op) {
                Some(o) => o,
                None => {
                    return match validate_binary_op(*op) {
                        Err(e) => Err(e),
                        Ok(()) => Err(CompileError::DivisionByZero),
                    };
                },
            };
            let l = fold_node(left, ctx, b)?;
            let ghost st1 = ctx@;
            let r = match fold_node(right, ctx, b) {
                Ok(n) => n,
                Err(e) => {
                    proof {
                        lemma_prefix_trans(st0.arguments, st1.arguments, ctx@.arguments);
                    }
                    return Err(e);
                },
            };
            proof {
                lemma_prefix_trans(st0.arguments, st1.arguments, ctx@.arguments);
                lemma_wf_more_args(l@, st1.arguments.len(), ctx@.arguments.len(), slots(st0.scopes));
                lemma_fold_binary_wf(*b, bin_op, l@, r@, ctx@.arguments.len(), slots(st0.scopes));
            }
            try_fold_binary(bin_op, l, r, b)
        },
        Expr::Unary { op, operand } => {
            if let AstUnaryOp::Transpose = op {
                return match validate_unary_op(*op) {
                    Err(e) => Err(e),
                    Ok(()) => Err(CompileError::DivisionByZero),
                };
            }
            let node = fold_node(operand, ctx, b)?;
            proof {
                lemma_fold_unary_wf(*b, UnaryOp::Neg, node@, ctx@.arguments.len(), slots(st0.scopes));
                lemma_fold_unary_wf(*b, UnaryOp::Factorial, node@, ctx@.arguments.len(), slots(st0.scopes));
            }
            match op {
                AstUnaryOp::Neg => try_fold_unary(UnaryOp::Neg, node, b),
                AstUnaryOp::Factorial => try_fold_unary(UnaryOp::Factorial, node, b),
                _ => Ok(node),
            }
        },
        Expr::Function { name, args } => {
            let kind = match resolve(name.as_str()) {
                Some(k) => k,
                None => {
                    return Err(CompileError::UnknownFunction { name: name.clone() });
                },
            };
            let expected = arity(kind);
            if args.len() != expected {
                return Err(CompileError::ArityMismatch { function: name.clone(), expected, got: args.len() });
            }
            let ghost cs = constants_view(ctx.constants@);
            let mut compiled: Vec<CompiledNode> = Vec::new();
            let mut i: usize = 0;
            proof {
                assert(args@.take(0) =~= Seq::<Expr>::empty());
                assert(view_nodes(compiled@) =~= Seq::<Node>::empty());
            }
            #[verifier::loop_isolation(false)]
            while i < args.len()
                invariant
                    i <= args@.len(),
                    args@.len() == spec_arity(kind),
                    is_backend(*b),
                    st0 == old(ctx)@,
                    ctx.constants == old(ctx).constants,
                    cs == constants_view(old(ctx).constants@),
                    spec_fold_list(args@.take(i as int), st0, cs, *b)
                        == (Ok::<Seq<Node>, CompileFault>(view_nodes(compiled@)), ctx@),
                    ctx.next_index_slot <= st0.next_slot + binders_list(args@.take(i as int)),
                    old(ctx).next_index_slot + binders(*ast) <= usize::MAX,
                    binders(*ast) == binders_list(args@),
                    is_prefix(st0.arguments, ctx@.arguments),
                    no_duplicates(st0.arguments) ==> no_duplicates(ctx@.arguments),
                    ctx@.scopes == st0.scopes,
                    compiled@.len() == i,
                    forall|j: int|
                        0 <= j < i ==> node_wf(
                            #[trigger] view_nodes(compiled@)[j],
                            ctx@.arguments.len(),
                            slots(st0.scopes),
                        ),
                decreases args@.len() - i,
            {
                proof {
                    lemma_binders_prefix(args@, i + 1);
                    assert(args@.take(i + 1).drop_last() =~= args@.take(i as int));
                    assert(args@.take(i + 1).last() == args@[i as int]);
                }
                let ghost before = ctx@;
                let ghost old_compiled = view_nodes(compiled@);
                assert(decreases_to!(*ast => args@[i as int]));
                let n = match fold_node(&args[i], ctx, b) {
                    Ok(n) => n,
                    Err(e) => {
                        proof {
                            lemma_fold_list_error(args@, i + 1, st0, cs, *b);
                            lemma_prefix_trans(st0.arguments, before.arguments, ctx@.arguments);
                        }
                        return Err(e);
                    },
                };
                proof {
                    lemma_prefix_trans(st0.arguments, before.arguments, ctx@.arguments);
                    assert forall|j: int| 0 <= j < i implies node_wf(
                        #[trigger] old_compiled[j],
                        ctx@.arguments.len(),
                        slots(st0.scopes),
                    ) by {
                        lemma_wf_more_args(old_compiled[j], before.arguments.len(), ctx@.arguments.len(), slots(st0.scopes));
                    }
                }
                compiled.push(n);
                proof {
                    assert(view_nodes(compiled@) =~= old_compiled.push(n@));
                }
                i = i + 1;
            }
            proof {
                assert(args@.take(args@.len() as int) =~= args@);
            }
            let r = try_fold_function(kind, compiled, b);
            Ok(r)
        },
        Expr::Sum { .. } | Expr::Product { .. } => fold_sum_product(ast, ctx, b),
        Expr::Unsupported(kind) => Err(reject_kind(*kind)),
    }
}

/// Folds a sum or product: bounds first (they must fold to integers), then
/// the body with the index variable in scope under a fresh slot.
fn fold_sum_product<B: Fn(NumericOp) -> NumericReply>(
    ast: &Expr,
    ctx: &mut FoldContext,
    b: &B,
) -> (r: Result<CompiledNode, CompileError>)
    requires
        is_backend(*b),
        old(ctx).next_index_slot + binders(*ast) <= usize::MAX,
        ast is Sum || ast is Product,
    ensures
        fold_post(*ast, *b, *old(ctx), *final(ctx), r),
    decreases ast, 0int,
{
    let ghost st0 = ctx@;
    proof {
        lemma_prefix_refl(st0.arguments);
        assert(spec_fold(*ast, st0, constants_view(ctx.constants@), *b)
            == spec_fold_binder(*ast, st0, constants_view(ctx.constants@), *b));
    }
    let is_sum = match ast {
        Expr::Sum { .. } => true,
        _ => false,
    };
    match ast {
        Expr::Sum { index, lower, upper, body, lower_text, upper_text }
        | Expr::Product { index, lower, upper, body, lower_text, upper_text } => {
            let lower_node = fold_node(lower, ctx, b)?;
            let ghost st1 = ctx@;
            let upper_node = match fold_node(upper, ctx, b) {
                Ok(n) => n,
                Err(e) => {
                    proof {
                        lemma_prefix_trans(st0.arguments, st1.arguments, ctx@.arguments);
                    }
                    return Err(e);
                },
            };
            proof {
                lemma_prefix_trans(st0.arguments, st1.arguments, ctx@.arguments);
            }
            let lower_val = match extract_integer(&lower_node, b) {
                Some(v) => v,
                None => {
                    return Err(CompileError::NonIntegerBounds {
                        construct: if is_sum { "sum" } else { "product" },
                        bound: lower_text.clone(),
                    });
                },
            };
            let upper_val = match extract_integer(&upper_node, b) {
                Some(v) => v,
                None => {
                    return Err(CompileError::NonIntegerBounds {
                        construct: if is_sum { "sum" } else { "product" },
                        bound: upper_text.clone(),
                    });
                },
            };
            let ghost st2 = ctx@;
            let slot = ctx.push_index_scope(index);
            let ghost st3 = ctx@;
            proof {
                lemma_slots_push(st2.scopes, (index@, slot));
                lemma_prefix_refl(st3.arguments);
            }
            let body_node = match fold_node(body, ctx, b) {
                Ok(n) => n,
                Err(e) => {
                    proof {
                        lemma_prefix_trans(st0.arguments, st2.arguments, ctx@.arguments);
                    }
                    return Err(e);
                },
            };
            ctx.pop_index_scope();
            proof {
                lemma_prefix_trans(st0.arguments, st2.arguments, ctx@.arguments);
                assert(st3.scopes.drop_last() =~= st2.scopes);
            }
            if is_sum {
                Ok(CompiledNode::Sum { index: slot, lower: lower_val, upper: upper_val, body: Box::new(body_node) })
            } else {
                Ok(CompiledNode::Product { index: slot, lower: lower_val, upper: upper_val, body: Box::new(body_node) })
            }
        },
        _ => Err(CompileError::DivisionByZero),
    }
}

/// Whether no two entries have the same name.
pub open spec fn distinct_keys<T>(entries: Seq<(Seq<char>, T)>) -> bool {
    forall|i: int, j: int| 0 <= i < entries.len() && 0 <= j < entries.len() && i != j ==> entries[i].0 != entries[j].0
}

/// The state in which folding starts.
pub open spec fn initial_state() -> FoldState {
    FoldState { arguments: Seq::empty(), scopes: Seq::empty(), next_slot: 0, has_complex: false }
}

/// The compiled expression that folding a tree yields, or its error.
pub open spec fn spec_fold_expr<B: Fn(NumericOp) -> NumericReply>(
    e: Expr,
    cs: Seq<(Seq<char>, NumericValue)>,
    b: B,
) -> Result<CompiledView, CompileFault> {
    let (r, st) = spec_fold(e, initial_state(), cs, b);
    match r {
        Ok(root) => Ok(CompiledView { root, argument_names: st.arguments, is_complex: st.has_complex }),
        Err(x) => Err(x),
    }
}

/// Folds a tree into a compiled expression.
///
/// The argument names are the free variables in order of first appearance,
/// each once; the expression is complex when a complex literal, the
/// imaginary unit or a complex constant occurs.
pub fn fold<B: Fn(NumericOp) -> NumericReply>(
    ast: &Expr,
    constants: &Vec<(String, NumericValue)>,
    b: &B,
) -> (r: Result<CompiledExpr, CompileError>)
    requires
        is_backend(*b),
        binders(*ast) <= usize::MAX,
        distinct_keys(constants_view(constants@)),
    ensures
        match r {
            Ok(c) => spec_fold_expr(*ast, constants_view(constants@), *b) == Ok::<CompiledView, CompileFault>(c@),
            Err(e) => spec_fold_expr(*ast, constants_view(constants@), *b) == Err::<CompiledView, CompileFault>(e@),
        },
        r matches Ok(c) ==> no_duplicates(c@.argument_names),
{
    let mut ctx = FoldContext::new(constants);
    let root = fold_node(ast, &mut ctx, b)?;
    proof {
        assert(slots(Seq::<(Seq<char>, usize)>::empty()) =~= Set::<usize>::empty());
    }
    Ok(CompiledExpr::new(root, ctx.arguments, ctx.has_complex))
}

} // verus!
