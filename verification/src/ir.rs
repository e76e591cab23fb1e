//! The compiled representation of an expression.
use vstd::prelude::*;
use crate::functions::{arity, spec_arity};

verus! {

/// Binary arithmetic operators supported by the evaluator.
#[derive(Clone, Copy, Debug, PartialEq, Eq, Structural)]
pub enum BinaryOp {
    Add,
    Sub,
    Mul,
    Div,
    Pow,
    Mod,
}

/// Unary operators supported by the evaluator.
#[derive(Clone, Copy, Debug, PartialEq, Eq, Structural)]
pub enum UnaryOp {
    Neg,
    Factorial,
}

/// Built-in math functions recognized by the compiler.
#[derive(Clone, Copy, Debug, PartialEq, Eq, Structural)]
pub enum BuiltinFn {
    Sin,
    Cos,
    Tan,
    Asin,
    Acos,
    Atan,
    Atan2,
    Sinh,
    Cosh,
    Tanh,
    Exp,
    Ln,
    Log2,
    Log10,
    /// log(base, value)
    Log,
    Sqrt,
    Cbrt,
    Abs,
    Floor,
    Ceil,
    Round,
    Min,
    Max,
}

/// A node of the compiled representation.
///
/// Literals hold binary64 bit patterns. `Argument` indexes the argument
/// values in declaration order; `Index` names the loop variable of an
/// enclosing sum or product by its slot, an index space of its own.
#[allow(inconsistent_fields)]
#[derive(Debug)]
pub enum CompiledNode {
    /// Real literal (constant-folded)
    Literal(u64),
    /// Complex literal (constant-folded)
    ComplexLiteral { re: u64, im: u64 },
    /// Free variable, by position among the arguments
    Argument(usize),
    /// Bound variable of a sum or product, by slot
    Index(usize),
    Binary { op: BinaryOp, left: Box<CompiledNode>, right: Box<CompiledNode> },
    Unary { op: UnaryOp, operand: Box<CompiledNode> },
    Function { kind: BuiltinFn, args: Vec<CompiledNode> },
    /// Finite summation of `body` for the slot running from `lower` to `upper`
    Sum { index: usize, lower: i64, upper: i64, body: Box<CompiledNode> },
    /// Finite product of `body` for the slot running from `lower` to `upper`
    Product { index: usize, lower: i64, upper: i64, body: Box<CompiledNode> },
}

/// The mathematical model of a compiled node.
pub enum Node {
    Literal(u64),
    ComplexLiteral(u64, u64),
    Argument(usize),
    Index(usize),
    Binary(BinaryOp, Box<Node>, Box<Node>),
    Unary(UnaryOp, Box<Node>),
    Function(BuiltinFn, Seq<Node>),
    Sum(usize, i64, i64, Box<Node>),
    Product(usize, i64, i64, Box<Node>),
}

/// The model of a compiled node.
pub open spec fn view_node(n: CompiledNode) -> Node
    decreases n,
{
    match n {
        CompiledNode::Literal(b) => Node::Literal(b),
        CompiledNode::ComplexLiteral { re, im } => Node::ComplexLiteral(re, im),
        CompiledNode::Argument(i) => Node::Argument(i),
        CompiledNode::Index(s) => Node::Index(s),
        CompiledNode::Binary { op, left, right } =>
            Node::Binary(op, Box::new(view_node(*left)), Box::new(view_node(*right))),
        CompiledNode::Unary { op, operand } => Node::Unary(op, Box::new(view_node(*operand))),
        CompiledNode::Function { kind, args } => Node::Function(
            kind,
            Seq::new(args@.len(), |i: int| if 0 <= i < args@.len() { view_node(args@[i]) } else { Node::Literal(0) }),
        ),
        CompiledNode::Sum { index, lower, upper, body } =>
            Node::Sum(index, lower, upper, Box::new(view_node(*body))),
        CompiledNode::Product { index, lower, upper, body } =>
            Node::Product(index, lower, upper, Box::new(view_node(*body))),
    }
}

/// The models of a sequence of compiled nodes.
pub open spec fn view_nodes(v: Seq<CompiledNode>) -> Seq<Node> {
    Seq::new(v.len(), |i: int| view_node(v[i]))
}

impl View for CompiledNode {
    type V = Node;

    open spec fn view(&self) -> Node {
        view_node(*self)
    }
}

/// Well-formedness of a compiled node with `nargs` arguments, inside
/// sums and products whose slots are `bound`: every argument position
/// is below `nargs`, every index slot belongs to an enclosing sum or
/// product, and every function call has the arity of its function.
pub open spec fn node_wf(n: Node, nargs: nat, bound: Set<usize>) -> bool
    decreases n,
{
    match n {
        Node::Literal(_) | Node::ComplexLiteral(_, _) => true,
        Node::Argument(i) => i < nargs,
        Node::Index(s) => bound.contains(s),
        Node::Binary(_, l, r) => node_wf(*l, nargs, bound) && node_wf(*r, nargs, bound),
        Node::Unary(_, x) => node_wf(*x, nargs, bound),
        Node::Function(kind, args) => args.len() == spec_arity(kind) && forall|i: int|
            0 <= i < args.len() ==> node_wf(#[trigger] args[i], nargs, bound),
        Node::Sum(slot, _, _, body) | Node::Product(slot, _, _, body) =>
            node_wf(*body, nargs, bound.insert(slot)),
    }
}

impl CompiledNode {
    /// A copy of the node.
    pub fn duplicate(&self) -> (r: CompiledNode)
        ensures
            r@ == self@,
        decreases self,
    {
        match self {
            CompiledNode::Literal(v) => CompiledNode::Literal(*v),
            CompiledNode::ComplexLiteral { re, im } => CompiledNode::ComplexLiteral { re: *re, im: *im },
            CompiledNode::Argument(i) => CompiledNode::Argument(*i),
            CompiledNode::Index(s) => CompiledNode::Index(*s),
            CompiledNode::Binary { op, left, right } => CompiledNode::Binary {
                op: *op,
                left: Box::new((**left).duplicate()),
                right: Box::new((**right).duplicate()),
            },
            CompiledNode::Unary { op, operand } => CompiledNode::Unary {
                op: *op,
                operand: Box::new((**operand).duplicate()),
            },
            CompiledNode::Function { kind, args } => {
                let mut copied: Vec<CompiledNode> = Vec::new();
                let mut i: usize = 0;
                #[verifier::loop_isolation(false)]
                while i < args.len()
                    invariant
                        i <= args@.len(),
                        copied@.len() == i,
                        forall|j: int| 0 <= j < i ==> #[trigger] copied@[j]@ == args@[j]@,
                    decreases args@.len() - i,
                {
                    assert(decreases_to!(*self => args@[i as int]));
                    copied.push(args[i].duplicate());
                    i = i + 1;
                }
                let r = CompiledNode::Function { kind: *kind, args: copied };
                proof {
                    if let Node::Function(_, s1) = r@ {
                        if let Node::Function(_, s2) = self@ {
                            assert forall|j: int| 0 <= j < s1.len() implies s1[j] == s2[j] by {
                                assert(copied@[j]@ == args@[j]@);
                            }
                            assert(s1 =~= s2);
                        }
                    }
                }
                r
            },
            CompiledNode::Sum { index, lower, upper, body } => CompiledNode::Sum {
                index: *index,
                lower: *lower,
                upper: *upper,
                body: Box::new((**body).duplicate()),
            },
            CompiledNode::Product { index, lower, upper, body } => CompiledNode::Product {
                index: *index,
                lower: *lower,
                upper: *upper,
                body: Box::new((**body).duplicate()),
            },
        }
    }
}

/// Whether `slot` is one of `slots`.
fn has_slot(slots: &Vec<usize>, slot: usize) -> (r: bool)
    ensures
        r == slots@.contains(slot),
{
    let mut i: usize = 0;
    while i < slots.len()
        invariant
            i <= slots@.len(),
            forall|j: int| 0 <= j < i ==> slots@[j] != slot,
        decreases slots@.len() - i,
    {
        if slots[i] == slot {
            return true;
        }
        i = i + 1;
    }
    false
}

/// Whether a node is well formed with `nargs` arguments, inside sums and
/// products whose slots are `slots`.
fn check_node(n: &CompiledNode, nargs: usize, slots: &mut Vec<usize>) -> (r: bool)
    ensures
        r == node_wf(n@, nargs as nat, old(slots)@.to_set()),
        final(slots)@ == old(slots)@,
    decreases n,
{
    let ghost bound = slots@.to_set();
    match n {
        CompiledNode::Literal(_) | CompiledNode::ComplexLiteral { .. } => true,
        CompiledNode::Argument(i) => *i < nargs,
        CompiledNode::Index(s) => has_slot(slots, *s),
        CompiledNode::Binary { left, right, .. } => {
            if !check_node(left, nargs, slots) {
                return false;
            }
            check_node(right, nargs, slots)
        },
        CompiledNode::Unary { operand, .. } => check_node(operand, nargs, slots),
        CompiledNode::Function { kind, args } => {
            proof {
                if let Node::Function(_, s) = n@ {
                    assert(s =~= view_nodes(args@));
                }
            }
            if args.len() != arity(*kind) {
                return false;
            }
            let ghost nodes = view_nodes(args@);
            let ghost start = slots@;
            let mut i: usize = 0;
            #[verifier::loop_isolation(false)]
            while i < args.len()
                invariant
                    i <= args@.len(),
                    slots@ == start,
                    forall|j: int| 0 <= j < i ==> node_wf(#[trigger] nodes[j], nargs as nat, bound),
                decreases args@.len() - i,
            {
                assert(decreases_to!(*n => args@[i as int]));
                if !check_node(&args[i], nargs, slots) {
                    assert(nodes[i as int] == args@[i as int]@);
                    return false;
                }
                assert(nodes[i as int] == args@[i as int]@);
                i = i + 1;
            }
            true
        },
        CompiledNode::Sum { index, body, .. } | CompiledNode::Product { index, body, .. } => {
            let ghost start = slots@;
            slots.push(*index);
            proof {
                assert(slots@.to_set() =~= bound.insert(*index)) by {
                    assert forall|x: usize| slots@.to_set().contains(x) <==> bound.insert(*index).contains(x) by {
                        if start.contains(x) {
                            let j = choose|j: int| 0 <= j < start.len() && start[j] == x;
                            assert(slots@[j] == x);
                        }
                        if slots@.contains(x) && x != *index {
                            let j = choose|j: int| 0 <= j < slots@.len() && slots@[j] == x;
                            assert(j < start.len());
                            assert(start[j] == x);
                        }
                        assert(slots@[start.len() as int] == *index);
                    }
                }
            }
            let r = check_node(body, nargs, slots);
            slots.pop();
            proof {
                assert(slots@ =~= start);
            }
            r
        },
    }
}

/// The model of a compiled expression.
pub struct CompiledView {
    pub root: Node,
    pub argument_names: Seq<Seq<char>>,
    pub is_complex: bool,
}

/// Compiled expression ready for repeated evaluation.
///
/// Opaque to callers: only inspectable via `argument_names` and `is_complex`.
#[derive(Debug)]
pub struct CompiledExpr {
    root: CompiledNode,
    argument_names: Vec<String>,
    is_complex: bool,
}

impl View for CompiledExpr {
    type V = CompiledView;

    closed spec fn view(&self) -> CompiledView {
        CompiledView {
            root: self.root@,
            argument_names: self.argument_names@.map_values(|s: String| s@),
            is_complex: self.is_complex,
        }
    }
}

impl CompiledExpr {
    /// The compiled tree refers only to its own arguments and to the
    /// slots of enclosing sums and products.
    #[verifier::type_invariant]
    closed spec fn well_formed(self) -> bool {
        node_wf(self.root@, self.argument_names@.len() as nat, Set::empty())
    }

    /// Assembles a compiled expression from a well-formed tree.
    pub(crate) fn new(root: CompiledNode, argument_names: Vec<String>, is_complex: bool) -> (r: Self)
        requires
            node_wf(root@, argument_names@.len() as nat, Set::empty()),
        ensures
            r@ == (CompiledView {
                root: root@,
                argument_names: argument_names@.map_values(|s: String| s@),
                is_complex,
            }),
    {
        CompiledExpr { root, argument_names, is_complex }
    }

    /// A compiled expression assembled from a tree, its argument names and
    /// its complex flag; `None` when the tree is not well formed: when it
    /// refers to an argument position beyond the names or to an index slot
    /// of no enclosing sum or product, or calls a function with another
    /// number of arguments than the function takes.
    pub fn from_parts(root: CompiledNode, argument_names: Vec<String>, is_complex: bool) -> (r: Option<Self>)
        ensures
            match r {
                Some(c) => c@ == (CompiledView {
                    root: root@,
                    argument_names: argument_names@.map_values(|s: String| s@),
                    is_complex,
                }),
                None => !node_wf(root@, argument_names@.len() as nat, Set::empty()),
            },
    {
        let mut slots: Vec<usize> = Vec::new();
        proof {
            assert(slots@.to_set() =~= Set::<usize>::empty());
        }
        if check_node(&root, argument_names.len(), &mut slots) {
            Some(CompiledExpr { root, argument_names, is_complex })
        } else {
            None
        }
    }

    /// A copy of the compiled expression.
    pub fn duplicate(&self) -> (r: Self)
        ensures
            r@ == self@,
    {
        proof {
            use_type_invariant(self);
        }
        let mut names: Vec<String> = Vec::new();
        let mut i: usize = 0;
        while i < self.argument_names.len()
            invariant
                i <= self.argument_names@.len(),
                names@.len() == i,
                forall|j: int| 0 <= j < i ==> #[trigger] names@[j] == self.argument_names@[j],
            decreases self.argument_names@.len() - i,
        {
            names.push(self.argument_names[i].clone());
            i = i + 1;
        }
        proof {
            assert(names@ =~= self.argument_names@);
        }
        CompiledExpr { root: self.root.duplicate(), argument_names: names, is_complex: self.is_complex }
    }

    /// The root of the compiled tree.
    ///
    /// Every compiled expression is well formed: its tree refers only to its
    /// own arguments, to slots of enclosing sums and products, and calls
    /// each function with that function's arity.
    pub fn root(&self) -> (r: &CompiledNode)
        ensures
            r@ == self@.root,
            node_wf(self@.root, self@.argument_names.len() as nat, Set::empty()),
    {
        proof {
            use_type_invariant(self);
        }
        &self.root
    }

    /// Names of free variables (arguments) in declaration order.
    pub fn argument_names(&self) -> (names: &[String])
        ensures
            names@.map_values(|s: String| s@) == self@.argument_names,
    {
        self.argument_names.as_slice()
    }

    /// Whether the expression contains complex literals or the imaginary unit.
    pub fn is_complex(&self) -> (r: bool)
        ensures
            r == self@.is_complex,
    {
        self.is_complex
    }
}

} // verus!
