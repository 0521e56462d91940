use crate::scalar::Scalar;
use vstd::prelude::*;

verus! {

/// How a node came to be: a leaf, or an operation on earlier nodes, which it
/// names by their positions in the graph. The order of two operands is kept.
pub enum Op<T> {
    Leaf,
    Add(usize, usize),
    Mul(usize, usize),
    Neg(usize),
    Pow(usize, T),
    Relu(usize),
}

/// One vertex of the graph: its value, fixed when it is made, the gradient
/// gathered so far, and the operation that made it.
pub struct Node<T> {
    pub value: T,
    pub grad: T,
    pub op: Op<T>,
}

impl<T: Copy> Clone for Op<T> {
    fn clone(&self) -> (r: Self)
        ensures
            r == *self,
    {
        *self
    }
}

impl<T: Copy> Copy for Op<T> {

}

impl<T: Copy> Clone for Node<T> {
    fn clone(&self) -> (r: Self)
        ensures
            r == *self,
    {
        *self
    }
}

impl<T: Copy> Copy for Node<T> {

}

impl<T: Copy> Op<T> {
    /// The nodes that the operation reads, in order.
    pub open spec fn operands(self) -> Seq<int> {
        match self {
            Op::Leaf => seq![],
            Op::Add(a, b) => seq![a as int, b as int],
            Op::Mul(a, b) => seq![a as int, b as int],
            Op::Neg(a) => seq![a as int],
            Op::Pow(a, _) => seq![a as int],
            Op::Relu(a) => seq![a as int],
        }
    }

    /// The tag that names the operation where a node is shown: empty for a
    /// leaf.
    pub open spec fn tag(self) -> Seq<char> {
        match self {
            Op::Leaf => ""@,
            Op::Add(_, _) => "+"@,
            Op::Mul(_, _) => "*"@,
            Op::Neg(_) => "neg"@,
            Op::Pow(_, _) => "pow"@,
            Op::Relu(_) => "ReLU"@,
        }
    }

    /// The tag of the operation, as text.
    pub fn symbol(&self) -> (s: &'static str)
        ensures
            s@ == self.tag(),
    {
        match self {
            Op::Leaf => "",
            Op::Add(_, _) => "+",
            Op::Mul(_, _) => "*",
            Op::Neg(_) => "neg",
            Op::Pow(_, _) => "pow",
            Op::Relu(_) => "ReLU",
        }
    }

    /// The `k`-th operand, if the operation has that many.
    pub fn operand(&self, k: usize) -> (r: Option<usize>)
        ensures
            k < self.operands().len() ==> r == Some(self.operands()[k as int] as usize),
            k >= self.operands().len() ==> r.is_none(),
    {
        match self {
            Op::Leaf => None,
            Op::Add(a, b) | Op::Mul(a, b) => if k == 0 {
                Some(*a)
            } else if k == 1 {
                Some(*b)
            } else {
                None
            },
            Op::Neg(a) | Op::Pow(a, _) | Op::Relu(a) => if k == 0 {
                Some(*a)
            } else {
                None
            },
        }
    }
}

/// A computation graph: nodes in the order in which they were made.
pub struct Graph<T: Scalar> {
    nodes: Vec<Node<T>>,
}

impl<T: Scalar> View for Graph<T> {
    type V = Seq<Node<T>>;

    closed spec fn view(&self) -> Seq<Node<T>> {
        self.nodes@
    }
}

impl<T: Scalar> Graph<T> {
    /// The operands of node `v`, in order.
    pub open spec fn parents(nodes: Seq<Node<T>>, v: int) -> Seq<int> {
        nodes[v].op.operands()
    }

    /// The value that the operation of node `v` gives on its operands' values.
    pub open spec fn computed(nodes: Seq<Node<T>>, v: int) -> T {
        match nodes[v].op {
            Op::Leaf => nodes[v].value,
            Op::Add(a, b) => nodes[a as int].value.add_spec(nodes[b as int].value),
            Op::Mul(a, b) => nodes[a as int].value.mul_spec(nodes[b as int].value),
            Op::Neg(a) => nodes[a as int].value.neg_spec(),
            Op::Pow(a, e) => nodes[a as int].value.pow_spec(e),
            Op::Relu(a) => if nodes[a as int].value.positive_spec() {
                nodes[a as int].value
            } else {
                T::zero_spec()
            },
        }
    }

    /// Node `v` names only nodes made before it and holds the value of its
    /// operation.
    pub open spec fn node_ok(nodes: Seq<Node<T>>, v: int) -> bool {
        &&& forall|k: int|
            0 <= k < Self::parents(nodes, v).len() ==> 0 <= #[trigger] Self::parents(nodes, v)[k]
                < v
        &&& nodes[v].value == Self::computed(nodes, v)
    }

    /// Every node is in order: the graph is acyclic and its values are those
    /// of its operations.
    pub open spec fn well_formed(nodes: Seq<Node<T>>) -> bool {
        forall|v: int| 0 <= v < nodes.len() ==> #[trigger] Self::node_ok(nodes, v)
    }

    /// The graph is well formed. Every graph that this crate hands out is,
    /// and stays so.
    pub open spec fn wf(&self) -> bool {
        Self::well_formed(self@)
    }

    /// `nodes` with one more node: a leaf of value `x`, its gradient zero.
    pub open spec fn with_leaf(nodes: Seq<Node<T>>, x: T) -> Seq<Node<T>> {
        nodes.push(Node { value: x, grad: T::zero_spec(), op: Op::Leaf })
    }

    /// `nodes` with one more node: the sum of nodes `a` and `b`.
    pub open spec fn with_sum(nodes: Seq<Node<T>>, a: int, b: int) -> Seq<Node<T>> {
        nodes.push(
            Node {
                value: nodes[a].value.add_spec(nodes[b].value),
                grad: T::zero_spec(),
                op: Op::Add(a as usize, b as usize),
            },
        )
    }

    /// `nodes` with one more node: the product of nodes `a` and `b`.
    pub open spec fn with_product(nodes: Seq<Node<T>>, a: int, b: int) -> Seq<Node<T>> {
        nodes.push(
            Node {
                value: nodes[a].value.mul_spec(nodes[b].value),
                grad: T::zero_spec(),
                op: Op::Mul(a as usize, b as usize),
            },
        )
    }

    /// `nodes` with one more node: the negation of node `a`.
    pub open spec fn with_negation(nodes: Seq<Node<T>>, a: int) -> Seq<Node<T>> {
        nodes.push(
            Node { value: nodes[a].value.neg_spec(), grad: T::zero_spec(), op: Op::Neg(a as usize) },
        )
    }

    /// `nodes` with one more node: node `a` raised to the power `exp`.
    pub open spec fn with_power(nodes: Seq<Node<T>>, a: int, exp: T) -> Seq<Node<T>> {
        nodes.push(
            Node {
                value: nodes[a].value.pow_spec(exp),
                grad: T::zero_spec(),
                op: Op::Pow(a as usize, exp),
            },
        )
    }

    /// `nodes` with one more node: node `a` where it is positive, else zero.
    pub open spec fn with_relu(nodes: Seq<Node<T>>, a: int) -> Seq<Node<T>> {
        nodes.push(
            Node {
                value: if nodes[a].value.positive_spec() {
                    nodes[a].value
                } else {
                    T::zero_spec()
                },
                grad: T::zero_spec(),
                op: Op::Relu(a as usize),
            },
        )
    }

    /// Two graphs of the same nodes, which differ at most in gradients.
    pub open spec fn same_shape(before: Seq<Node<T>>, after: Seq<Node<T>>) -> bool {
        &&& after.len() == before.len()
        &&& forall|v: int|
            0 <= v < before.len() ==> (#[trigger] after[v]).value == before[v].value && after[v].op
                == before[v].op
    }

    /// `nodes` with the gradient of node `v` replaced by `grad`.
    pub open spec fn with_grad(nodes: Seq<Node<T>>, v: int, grad: T) -> Seq<Node<T>> {
        nodes.update(v, Node { value: nodes[v].value, grad, op: nodes[v].op })
    }

    /// `nodes` with `delta` added to the gradient of node `v`.
    pub open spec fn bumped(nodes: Seq<Node<T>>, v: int, delta: T) -> Seq<Node<T>> {
        Self::with_grad(nodes, v, nodes[v].grad.add_spec(delta))
    }

    /// Gradients play no part in well-formedness.
    pub proof fn lemma_same_shape_well_formed(before: Seq<Node<T>>, after: Seq<Node<T>>)
        requires
            Self::well_formed(before),
            Self::same_shape(before, after),
        ensures
            Self::well_formed(after),
    {
        assert forall|v: int| 0 <= v < after.len() implies #[trigger] Self::node_ok(after, v) by {
            assert(Self::node_ok(before, v));
            assert(Self::parents(after, v) == Self::parents(before, v));
            assert forall|k: int| 0 <= k < Self::parents(before, v).len() implies (
            #[trigger] after[Self::parents(before, v)[k]]).value
                == before[Self::parents(before, v)[k]].value by {
                assert(0 <= Self::parents(before, v)[k] < v);
            }
            Self::lemma_computed_reads_values(before, after, v);
        }
    }

    /// The value of an operation depends on the values of its operands alone.
    pub proof fn lemma_computed_reads_values(before: Seq<Node<T>>, after: Seq<Node<T>>, v: int)
        requires
            after[v].op == before[v].op,
            after[v].value == before[v].value,
            forall|k: int|
                0 <= k < Self::parents(before, v).len() ==> (
                #[trigger] after[Self::parents(before, v)[k]]).value
                    == before[Self::parents(before, v)[k]].value,
        ensures
            Self::computed(after, v) == Self::computed(before, v),
    {
        let ps = Self::parents(before, v);
        match before[v].op {
            Op::Leaf => {},
            Op::Add(a, b) => {
                assert(ps[0] == a && ps[1] == b);
            },
            Op::Mul(a, b) => {
                assert(ps[0] == a && ps[1] == b);
            },
            Op::Neg(a) => {
                assert(ps[0] == a);
            },
            Op::Pow(a, _) => {
                assert(ps[0] == a);
            },
            Op::Relu(a) => {
                assert(ps[0] == a);
            },
        }
    }

    /// A well-formed graph stays so when a node in order is appended.
    pub proof fn lemma_push_well_formed(before: Seq<Node<T>>, node: Node<T>)
        requires
            Self::well_formed(before),
            Self::node_ok(before.push(node), before.len() as int),
        ensures
            Self::well_formed(before.push(node)),
    {
        let after = before.push(node);
        assert forall|v: int| 0 <= v < after.len() implies #[trigger] Self::node_ok(after, v) by {
            if v < before.len() {
                assert(Self::node_ok(before, v));
                assert(Self::parents(after, v) == Self::parents(before, v));
                assert forall|k: int| 0 <= k < Self::parents(before, v).len() implies (
                #[trigger] after[Self::parents(before, v)[k]]).value
                    == before[Self::parents(before, v)[k]].value by {
                    assert(0 <= Self::parents(before, v)[k] < v);
                }
                Self::lemma_computed_reads_values(before, after, v);
            }
        }
    }

    /// An empty graph.
    pub fn new() -> (g: Self)
        ensures
            g@ == Seq::<Node<T>>::empty(),
            g.wf(),
    {
        Graph { nodes: Vec::new() }
    }

    /// The number of nodes made so far.
    pub fn len(&self) -> (n: usize)
        ensures
            n == self@.len(),
    {
        self.nodes.len()
    }

    /// A copy of node `v`.
    pub fn node(&self, v: usize) -> (n: Node<T>)
        requires
            v < self@.len(),
        ensures
            n == self@[v as int],
    {
        self.nodes[v]
    }

    /// Appends `node`; returns its position.
    pub(crate) fn push(&mut self, node: Node<T>) -> (v: usize)
        requires
            old(self).wf(),
            Self::node_ok(old(self)@.push(node), old(self)@.len() as int),
        ensures
            final(self)@ == old(self)@.push(node),
            v == old(self)@.len(),
            final(self).wf(),
    {
        let v: usize = self.nodes.len();
        proof {
            Self::lemma_push_well_formed(self@, node);
        }
        self.nodes.push(node);
        v
    }

    /// Replaces the gradient of node `v`.
    pub(crate) fn put_grad(&mut self, v: usize, grad: T)
        requires
            old(self).wf(),
            v < old(self)@.len(),
        ensures
            final(self)@ == Self::with_grad(old(self)@, v as int, grad),
            final(self).wf(),
    {
        let ghost before = self@;
        let n = self.nodes[v];
        self.nodes.set(v, Node { value: n.value, grad, op: n.op });
        proof {
            Self::lemma_same_shape_well_formed(before, self@);
        }
    }
}

} // verus!
