use crate::graph::{Graph, Node, Op};
use crate::scalar::Scalar;
use crate::value::ValueRef;
use vstd::prelude::*;

verus! {

impl<T: Scalar> Graph<T> {
    /// The derivative of `x` raised to `exp`, with respect to `x`.
    pub open spec fn power_slope(x: T, exp: T) -> T {
        exp.mul_spec(x.pow_spec(exp.add_spec(T::one_spec().neg_spec())))
    }

    /// `nodes` after node `v` has handed its gradient on: each operand of `v`
    /// has gained the gradient of `v` times the derivative of `v` with respect
    /// to it, the first operand before the second.
    pub open spec fn propagated(nodes: Seq<Node<T>>, v: int) -> Seq<Node<T>> {
        let grad = nodes[v].grad;
        match nodes[v].op {
            Op::Leaf => nodes,
            Op::Add(a, b) => Self::bumped(Self::bumped(nodes, a as int, grad), b as int, grad),
            Op::Mul(a, b) => Self::bumped(
                Self::bumped(nodes, a as int, nodes[b as int].value.mul_spec(grad)),
                b as int,
                nodes[a as int].value.mul_spec(grad),
            ),
            Op::Neg(a) => Self::bumped(nodes, a as int, grad.neg_spec()),
            Op::Pow(a, exp) => Self::bumped(
                nodes,
                a as int,
                Self::power_slope(nodes[a as int].value, exp).mul_spec(grad),
            ),
            Op::Relu(a) => Self::bumped(
                nodes,
                a as int,
                if nodes[a as int].value.positive_spec() {
                    grad
                } else {
                    T::zero_spec()
                },
            ),
        }
    }

    /// `nodes` after the nodes that `order` lists from position `k` on have
    /// handed their gradients on, the last of them first.
    pub open spec fn swept(nodes: Seq<Node<T>>, order: Seq<int>, k: int) -> Seq<Node<T>>
        decreases order.len() - k,
    {
        if 0 <= k < order.len() {
            Self::propagated(Self::swept(nodes, order, k + 1), order[k])
        } else {
            nodes
        }
    }

    /// `nodes` with the gradient zero at every node that `root` depends on.
    pub open spec fn cleared(nodes: Seq<Node<T>>, root: int) -> Seq<Node<T>> {
        Seq::new(
            nodes.len(),
            |v: int|
                if Self::reaches(nodes, root, v) {
                    Node { value: nodes[v].value, grad: T::zero_spec(), op: nodes[v].op }
                } else {
                    nodes[v]
                },
        )
    }

    /// A node that hands its gradient on changes gradients only.
    pub proof fn lemma_propagated_same_shape(nodes: Seq<Node<T>>, v: int)
        requires
            Self::well_formed(nodes),
            0 <= v < nodes.len(),
        ensures
            Self::same_shape(nodes, Self::propagated(nodes, v)),
    {
        assert(Self::node_ok(nodes, v));
        let parents = Self::parents(nodes, v);
        match nodes[v].op {
            Op::Leaf => {},
            Op::Add(a, b) => {
                assert(parents[0] == a && parents[1] == b);
            },
            Op::Mul(a, b) => {
                assert(parents[0] == a && parents[1] == b);
            },
            Op::Neg(a) => {
                assert(parents[0] == a);
            },
            Op::Pow(a, _) => {
                assert(parents[0] == a);
            },
            Op::Relu(a) => {
                assert(parents[0] == a);
            },
        }
    }

    /// A node that hands its gradient on leaves every node alone that is not
    /// one of its operands.
    pub proof fn lemma_propagated_elsewhere(nodes: Seq<Node<T>>, v: int, x: int)
        requires
            Self::well_formed(nodes),
            0 <= v < nodes.len(),
            0 <= x < nodes.len(),
            !Self::parents(nodes, v).contains(x),
        ensures
            Self::propagated(nodes, v)[x] == nodes[x],
    {
        assert(Self::node_ok(nodes, v));
        let parents = Self::parents(nodes, v);
        match nodes[v].op {
            Op::Leaf => {},
            Op::Add(a, b) => {
                assert(parents[0] == a && parents[1] == b);
            },
            Op::Mul(a, b) => {
                assert(parents[0] == a && parents[1] == b);
            },
            Op::Neg(a) => {
                assert(parents[0] == a);
            },
            Op::Pow(a, _) => {
                assert(parents[0] == a);
            },
            Op::Relu(a) => {
                assert(parents[0] == a);
            },
        }
    }

    /// Nodes that hand their gradients on change gradients only.
    pub proof fn lemma_swept_same_shape(nodes: Seq<Node<T>>, order: Seq<int>, k: int)
        requires
            Self::well_formed(nodes),
            forall|i: int| 0 <= i < order.len() ==> 0 <= #[trigger] order[i] < nodes.len(),
        ensures
            Self::same_shape(nodes, Self::swept(nodes, order, k)),
            Self::well_formed(Self::swept(nodes, order, k)),
        decreases order.len() - k,
    {
        if 0 <= k < order.len() {
            let inner = Self::swept(nodes, order, k + 1);
            Self::lemma_swept_same_shape(nodes, order, k + 1);
            Self::lemma_propagated_same_shape(inner, order[k]);
            Self::lemma_same_shape_well_formed(nodes, Self::swept(nodes, order, k));
        }
    }

    /// In a sweep over a topological order, the node at position `i` has all
    /// of its gradient when its turn comes: what it holds once the nodes
    /// after it have handed theirs on is what it holds at every later stage.
    pub proof fn lemma_swept_settled(nodes: Seq<Node<T>>, order: Seq<int>, i: int, k: int)
        requires
            Self::well_formed(nodes),
            Self::topological(nodes, order),
            0 <= k <= i + 1 <= order.len(),
        ensures
            Self::swept(nodes, order, k)[order[i]].grad == Self::swept(
                nodes,
                order,
                i + 1,
            )[order[i]].grad,
        decreases i + 1 - k,
    {
        if k < i + 1 {
            let inner = Self::swept(nodes, order, k + 1);
            Self::lemma_swept_settled(nodes, order, i, k + 1);
            Self::lemma_swept_same_shape(nodes, order, k + 1);
            assert(Self::parents(inner, order[k]) == Self::parents(nodes, order[k]));
            if Self::parents(nodes, order[k]).contains(order[i]) {
                let j = choose|j: int|
                    0 <= j < Self::parents(nodes, order[k]).len() && Self::parents(
                        nodes,
                        order[k],
                    )[j] == order[i];
                assert(Self::precedes(order, Self::parents(nodes, order[k])[j], k));
            }
            Self::lemma_propagated_elsewhere(inner, order[k], order[i]);
        }
    }

    /// A sweep over nodes that `root` depends on leaves every node alone that
    /// `root` does not depend on.
    pub proof fn lemma_swept_elsewhere(
        nodes: Seq<Node<T>>,
        root: int,
        order: Seq<int>,
        k: int,
        x: int,
    )
        requires
            Self::well_formed(nodes),
            forall|i: int|
                0 <= i < order.len() ==> 0 <= #[trigger] order[i] < nodes.len() && Self::reaches(
                    nodes,
                    root,
                    order[i],
                ),
            0 <= root,
            0 <= x < nodes.len(),
            !Self::reaches(nodes, root, x),
        ensures
            Self::swept(nodes, order, k)[x] == nodes[x],
        decreases order.len() - k,
    {
        if 0 <= k < order.len() {
            let inner = Self::swept(nodes, order, k + 1);
            Self::lemma_swept_elsewhere(nodes, root, order, k + 1, x);
            Self::lemma_swept_same_shape(nodes, order, k + 1);
            assert(Self::parents(inner, order[k]) == Self::parents(nodes, order[k]));
            if Self::parents(nodes, order[k]).contains(x) {
                let j = choose|j: int|
                    0 <= j < Self::parents(nodes, order[k]).len() && Self::parents(
                        nodes,
                        order[k],
                    )[j] == x;
                assert(Self::node_ok(nodes, order[k]));
                assert(0 <= Self::parents(nodes, order[k])[j] < order[k]);
                Self::lemma_reaches_step(nodes, root, order[k], j);
            }
            Self::lemma_propagated_elsewhere(inner, order[k], x);
        }
    }

    /// What `root` depends on, the operands of that depend on too.
    pub proof fn lemma_reaches_step(nodes: Seq<Node<T>>, root: int, v: int, k: int)
        requires
            0 <= root,
            Self::reaches(nodes, root, v),
            0 <= k < Self::parents(nodes, v).len(),
            0 <= Self::parents(nodes, v)[k] < v,
        ensures
            Self::reaches(nodes, root, Self::parents(nodes, v)[k]),
        decreases root,
    {
        let p = Self::parents(nodes, v)[k];
        if root == v {
            assert(Self::reaches(nodes, p, p));
        } else {
            let j = choose|j: int|
                0 <= j < Self::parents(nodes, root).len() && 0 <= #[trigger] Self::parents(
                    nodes,
                    root,
                )[j] < root && Self::reaches(nodes, Self::parents(nodes, root)[j], v);
            Self::lemma_reaches_step(nodes, Self::parents(nodes, root)[j], v, k);
        }
    }

    /// `nodes` after backpropagation from `root`: the gradients that `root`
    /// depends on are cleared, that of `root` is set to one, and the nodes
    /// hand their gradients on in reverse topological order.
    pub open spec fn backpropagated(nodes: Seq<Node<T>>, root: int) -> Seq<Node<T>> {
        Self::swept(
            Self::with_grad(Self::cleared(nodes, root), root, T::one_spec()),
            Self::order(nodes, root),
            0,
        )
    }
}

/// `nodes` with the gradient zero at the nodes that `order` lists before
/// position `k`.
spec fn zeroed<T: Scalar>(nodes: Seq<Node<T>>, order: Seq<int>, k: int) -> Seq<Node<T>> {
    Seq::new(
        nodes.len(),
        |v: int|
            if Graph::<T>::precedes(order, v, k) {
                Node { value: nodes[v].value, grad: T::zero_spec(), op: nodes[v].op }
            } else {
                nodes[v]
            },
    )
}

impl ValueRef {
    /// Hands the gradient of this node on to its operands, by the rule of its
    /// operation.
    pub fn propagate<T: Scalar>(&self, g: &mut Graph<T>)
        requires
            old(g).wf(),
            self.valid_in(old(g)),
        ensures
            final(g)@ == Graph::<T>::propagated(old(g)@, self@),
            final(g).wf(),
            Graph::<T>::same_shape(old(g)@, final(g)@),
    {
        let node = g.node(self.index());
        let grad = node.grad;
        proof {
            assert(Graph::<T>::node_ok(g@, self@));
            let parents = Graph::<T>::parents(g@, self@);
            assert(parents.len() >= 1 ==> 0 <= parents[0] < self@);
            assert(parents.len() >= 2 ==> 0 <= parents[1] < self@);
        }
        match node.op {
            Op::Leaf => {},
            Op::Add(a, b) => {
                ValueRef::at(a).add_to_grad(g, grad);
                ValueRef::at(b).add_to_grad(g, grad);
            },
            Op::Mul(a, b) => {
                let a_data = g.node(a).value;
                let b_data = g.node(b).value;
                ValueRef::at(a).add_to_grad(g, b_data.times(&grad));
                ValueRef::at(b).add_to_grad(g, a_data.times(&grad));
            },
            Op::Neg(a) => {
                ValueRef::at(a).add_to_grad(g, grad.negated());
            },
            Op::Pow(a, exp) => {
                let a_data = g.node(a).value;
                let lowered = exp.plus(&T::one().negated());
                let slope = exp.times(&a_data.power(&lowered));
                ValueRef::at(a).add_to_grad(g, slope.times(&grad));
            },
            Op::Relu(a) => {
                let a_data = g.node(a).value;
                let passed = if a_data.is_positive() {
                    grad
                } else {
                    T::zero()
                };
                ValueRef::at(a).add_to_grad(g, passed);
            },
        }
    }

    /// Sets the gradient to zero at every node that this one depends on,
    /// itself included. Other nodes keep theirs.
    pub fn clear_grads<T: Scalar>(&self, g: &mut Graph<T>)
        requires
            old(g).wf(),
            self.valid_in(old(g)),
        ensures
            final(g)@ == Graph::<T>::cleared(old(g)@, self@),
            final(g).wf(),
            Graph::<T>::same_shape(old(g)@, final(g)@),
    {
        let topo = self.get_parents_topo_sort(g);
        let ghost before = g@;
        let ghost order = ValueRef::positions(topo@);
        let mut k: usize = 0;
        proof {
            assert(g@ =~= zeroed(before, order, 0));
        }
        while k < topo.len()
            invariant
                k <= topo.len(),
                order == ValueRef::positions(topo@),
                before.len() == g@.len(),
                forall|i: int| 0 <= i < topo@.len() ==> 0 <= (#[trigger] topo@[i])@ < g@.len(),
                g.wf(),
                g@ == zeroed(before, order, k as int),
            decreases topo.len() - k,
        {
            let ghost was = g@;
            topo[k].set_grad(g, T::zero());
            proof {
                let v = topo@[k as int]@;
                assert(order[k as int] == v);
                assert forall|x: int| 0 <= x < before.len() implies g@[x] == zeroed(
                    before,
                    order,
                    k + 1,
                )[x] by {
                    if x == v {
                        assert(Graph::<T>::precedes(order, x, k + 1));
                    } else {
                        if Graph::<T>::precedes(order, x, k + 1) {
                            let j = choose|j: int|
                                0 <= j < k + 1 && j < order.len() && order[j] == x;
                            assert(Graph::<T>::precedes(order, x, k as int));
                        }
                        if Graph::<T>::precedes(order, x, k as int) {
                            let j = choose|j: int| 0 <= j < k && j < order.len() && order[j] == x;
                            assert(Graph::<T>::precedes(order, x, k + 1));
                        }
                    }
                }
                assert(g@ =~= zeroed(before, order, k + 1));
            }
            k += 1;
        }
        proof {
            assert forall|x: int| 0 <= x < before.len() implies g@[x] == Graph::<T>::cleared(
                before,
                self@,
            )[x] by {
                if Graph::<T>::precedes(order, x, k as int) {
                    let j = choose|j: int| 0 <= j < k && j < order.len() && order[j] == x;
                    assert(order.contains(x));
                }
                if order.contains(x) {
                    let j = choose|j: int| 0 <= j < order.len() && order[j] == x;
                    assert(Graph::<T>::precedes(order, x, k as int));
                }
            }
            assert(g@ =~= Graph::<T>::cleared(before, self@));
        }
    }

    /// Backpropagation from this node: clears the gradients of the nodes that
    /// it depends on, sets its own to one, and lets the nodes hand their
    /// gradients on in reverse topological order, so that each has gathered
    /// all of its own before it hands it on.
    pub fn backward<T: Scalar>(&self, g: &mut Graph<T>)
        requires
            old(g).wf(),
            self.valid_in(old(g)),
        ensures
            final(g)@ == Graph::<T>::backpropagated(old(g)@, self@),
            final(g).wf(),
            Graph::<T>::same_shape(old(g)@, final(g)@),
            final(g)@[self@].grad == T::one_spec(),
            forall|x: int|
                0 <= x < old(g)@.len() && !Graph::<T>::reaches(old(g)@, self@, x) ==> (
                #[trigger] final(g)@[x]) == old(g)@[x],
    {
        let ghost before = g@;
        proof {
            Graph::<T>::law_backward_frame(before, self@);
            Graph::<T>::law_root_keeps_seed(before, self@);
        }
        self.clear_grads(g);
        self.set_grad(g, T::one());
        let ghost seeded = g@;
        let topo = self.get_parents_topo_sort(g);
        let ghost order = ValueRef::positions(topo@);
        proof {
            Graph::<T>::lemma_visit_agrees(before, seeded, self@, Seq::empty());
        }
        let mut k: usize = topo.len();
        while k > 0
            invariant
                k <= topo.len(),
                order == ValueRef::positions(topo@),
                forall|i: int| 0 <= i < topo@.len() ==> 0 <= (#[trigger] topo@[i])@ < g@.len(),
                g.wf(),
                g@ == Graph::<T>::swept(seeded, order, k as int),
            decreases k,
        {
            k -= 1;
            proof {
                assert(order[k as int] == topo@[k as int]@);
            }
            topo[k].propagate(g);
            proof {
                Graph::<T>::lemma_propagated_same_shape(
                    Graph::<T>::swept(seeded, order, k + 1),
                    order[k as int],
                );
            }
        }
    }
}

} // verus!
