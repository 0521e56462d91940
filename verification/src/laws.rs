use crate::graph::{Graph, Node, Op};
use crate::scalar::Scalar;
use vstd::prelude::*;

verus! {

impl<T: Scalar> Graph<T> {
    /// Zero added to `x` gives `x`, and `x` times one gives `x`.
    pub open spec fn neutral(x: T) -> bool {
        T::zero_spec().add_spec(x) == x && x.mul_spec(T::one_spec()) == x
    }

    /// The nodes of a graph with every gradient cleared that `root` depends
    /// on, and that of `root` set to one: where backpropagation starts.
    pub open spec fn seeded(nodes: Seq<Node<T>>, root: int) -> Seq<Node<T>> {
        Self::with_grad(Self::cleared(nodes, root), root, T::one_spec())
    }

    /// Where backpropagation starts, only gradients differ from the graph.
    pub proof fn lemma_seeded(nodes: Seq<Node<T>>, root: int)
        requires
            Self::well_formed(nodes),
            0 <= root < nodes.len(),
        ensures
            Self::same_shape(nodes, Self::seeded(nodes, root)),
            Self::well_formed(Self::seeded(nodes, root)),
            Self::backpropagated(nodes, root) == Self::swept(
                Self::seeded(nodes, root),
                Self::order(nodes, root),
                0,
            ),
    {
        Self::lemma_same_shape_well_formed(nodes, Self::seeded(nodes, root));
    }

    /// Backpropagation changes gradients only, and only at nodes that the
    /// root depends on: values and operations stay, and so does the gradient
    /// of every other node.
    pub proof fn law_backward_frame(nodes: Seq<Node<T>>, root: int)
        requires
            Self::well_formed(nodes),
            0 <= root < nodes.len(),
        ensures
            Self::same_shape(nodes, Self::backpropagated(nodes, root)),
            Self::well_formed(Self::backpropagated(nodes, root)),
            forall|x: int|
                0 <= x < nodes.len() && !Self::reaches(nodes, root, x) ==> (
                #[trigger] Self::backpropagated(nodes, root)[x]) == nodes[x],
    {
        let start = Self::seeded(nodes, root);
        let order = Self::order(nodes, root);
        Self::lemma_seeded(nodes, root);
        Self::lemma_order(nodes, root);
        Self::lemma_swept_same_shape(start, order, 0);
        Self::lemma_same_shape_well_formed(nodes, Self::backpropagated(nodes, root));
        assert forall|x: int|
            0 <= x < nodes.len() && !Self::reaches(nodes, root, x) implies (
        #[trigger] Self::backpropagated(nodes, root)[x]) == nodes[x] by {
            assert forall|i: int| 0 <= i < order.len() implies 0 <= #[trigger] order[i]
                < start.len() && Self::reaches(start, root, order[i]) by {
                assert(order.contains(order[i]));
                Self::lemma_reaches_agrees(nodes, start, root, order[i]);
            }
            Self::lemma_reaches_agrees(nodes, start, root, x);
            Self::lemma_swept_elsewhere(start, root, order, 0, x);
            assert(Self::reaches(nodes, root, root));
        }
    }

    /// Every node has gathered all of its gradient before it hands it on: the
    /// gradient that the node at position `i` of the topological order holds
    /// when its turn comes is the one it holds in the end.
    pub proof fn law_gradient_complete_when_handed_on(nodes: Seq<Node<T>>, root: int, i: int)
        requires
            Self::well_formed(nodes),
            0 <= root < nodes.len(),
            0 <= i < Self::order(nodes, root).len(),
        ensures
            Self::backpropagated(nodes, root)[Self::order(nodes, root)[i]].grad == Self::swept(
                Self::seeded(nodes, root),
                Self::order(nodes, root),
                i + 1,
            )[Self::order(nodes, root)[i]].grad,
    {
        let start = Self::seeded(nodes, root);
        let order = Self::order(nodes, root);
        Self::lemma_seeded(nodes, root);
        Self::lemma_order(nodes, root);
        Self::lemma_topological_agrees(nodes, start, order);
        Self::lemma_swept_settled(start, order, i, 0);
    }

    /// The node that backpropagation starts from ends with the gradient one:
    /// nothing is handed on to it.
    pub proof fn law_root_keeps_seed(nodes: Seq<Node<T>>, root: int)
        requires
            Self::well_formed(nodes),
            0 <= root < nodes.len(),
        ensures
            Self::backpropagated(nodes, root)[root].grad == T::one_spec(),
    {
        let order = Self::order(nodes, root);
        Self::lemma_order(nodes, root);
        assert(order.contains(root));
        Self::law_gradient_complete_when_handed_on(nodes, root, order.len() - 1);
    }

    /// An order that is topological for a graph is so for every graph of the
    /// same nodes.
    pub proof fn lemma_topological_agrees(
        before: Seq<Node<T>>,
        after: Seq<Node<T>>,
        order: Seq<int>,
    )
        requires
            Self::same_shape(before, after),
            Self::topological(before, order),
        ensures
            Self::topological(after, order),
    {
        assert forall|i: int, k: int|
            0 <= i < order.len() && 0 <= k < Self::parents(after, order[i]).len()
                implies #[trigger] Self::precedes(order, Self::parents(after, order[i])[k], i) by {
            assert(after[order[i]].op == before[order[i]].op);
            assert(Self::precedes(order, Self::parents(before, order[i])[k], i));
        }
    }

    /// A sweep in which only the last node listed is no leaf comes to that
    /// node handing its gradient on.
    pub proof fn lemma_swept_over_leaves(nodes: Seq<Node<T>>, order: Seq<int>, k: int)
        requires
            Self::well_formed(nodes),
            order.len() >= 1,
            0 <= k < order.len(),
            forall|i: int| 0 <= i < order.len() ==> 0 <= #[trigger] order[i] < nodes.len(),
            forall|i: int| 0 <= i < order.len() - 1 ==> nodes[#[trigger] order[i]].op is Leaf,
        ensures
            Self::swept(nodes, order, k) == Self::propagated(nodes, order.last()),
        decreases order.len() - k,
    {
        if k < order.len() - 1 {
            Self::lemma_swept_over_leaves(nodes, order, k + 1);
            Self::lemma_propagated_same_shape(nodes, order.last());
        } else {
            assert(Self::swept(nodes, order, k + 1) == nodes);
        }
    }

    /// Backpropagation from a node whose operands are all leaves: the
    /// gradients are cleared, that of the node is set to one, and the node
    /// hands it on.
    pub proof fn lemma_backward_over_leaves(nodes: Seq<Node<T>>, root: int)
        requires
            Self::well_formed(nodes),
            0 <= root < nodes.len(),
            forall|k: int|
                0 <= k < Self::parents(nodes, root).len() ==> nodes[#[trigger] Self::parents(
                    nodes,
                    root,
                )[k]].op is Leaf,
        ensures
            Self::backpropagated(nodes, root) == Self::propagated(
                Self::seeded(nodes, root),
                root,
            ),
            Self::same_shape(nodes, Self::seeded(nodes, root)),
            Self::seeded(nodes, root)[root].grad == T::one_spec(),
            forall|k: int|
                0 <= k < Self::parents(nodes, root).len() ==> Self::seeded(
                    nodes,
                    root,
                )[#[trigger] Self::parents(nodes, root)[k]].grad == T::zero_spec(),
    {
        let start = Self::seeded(nodes, root);
        let order = Self::order(nodes, root);
        let parents = Self::parents(nodes, root);
        Self::lemma_seeded(nodes, root);
        Self::lemma_order(nodes, root);
        assert(Self::node_ok(nodes, root));
        assert(order.contains(root));
        assert forall|i: int| 0 <= i < order.len() - 1 implies start[#[trigger] order[i]].op is Leaf by {
            let x = order[i];
            assert(order.contains(x));
            assert(x != order[order.len() - 1]);
            let k = choose|k: int|
                0 <= k < parents.len() && 0 <= #[trigger] parents[k] < root && Self::reaches(
                    nodes,
                    parents[k],
                    x,
                );
            assert(nodes[parents[k]].op is Leaf);
            assert(Self::parents(nodes, parents[k]).len() == 0);
            assert(x == parents[k]);
        }
        Self::lemma_swept_over_leaves(start, order, 0);
        assert forall|k: int| 0 <= k < parents.len() implies start[#[trigger] parents[k]].grad
            == T::zero_spec() by {
            assert(0 <= parents[k] < root);
            assert(Self::reaches(nodes, parents[k], parents[k]));
            assert(Self::reaches(nodes, root, parents[k]));
        }
    }

    /// The sum of two leaves holds the sum of their values. After
    /// backpropagation from it each of two distinct leaves holds the gradient
    /// zero plus one: one, where zero and one are neutral.
    pub proof fn law_sum_of_leaves(nodes: Seq<Node<T>>, a: int, b: int)
        requires
            Self::well_formed(nodes),
            nodes.len() <= usize::MAX,
            0 <= a < nodes.len(),
            0 <= b < nodes.len(),
            a != b,
            nodes[a].op is Leaf,
            nodes[b].op is Leaf,
        ensures
            Self::with_sum(nodes, a, b).last().value == nodes[a].value.add_spec(nodes[b].value),
            Self::backpropagated(Self::with_sum(nodes, a, b), nodes.len() as int)[a].grad
                == T::zero_spec().add_spec(T::one_spec()),
            Self::backpropagated(Self::with_sum(nodes, a, b), nodes.len() as int)[b].grad
                == T::zero_spec().add_spec(T::one_spec()),
            Self::neutral(T::one_spec()) ==> Self::backpropagated(
                Self::with_sum(nodes, a, b),
                nodes.len() as int,
            )[a].grad == T::one_spec() && Self::backpropagated(
                Self::with_sum(nodes, a, b),
                nodes.len() as int,
            )[b].grad == T::one_spec(),
    {
        let made = Self::with_sum(nodes, a, b);
        let root = nodes.len() as int;
        assert(Self::parents(made, root) =~= seq![a, b]);
        Self::lemma_push_well_formed(nodes, made.last());
        assert(Self::parents(made, root)[0] == a && Self::parents(made, root)[1] == b);
        Self::lemma_backward_over_leaves(made, root);
    }

    /// The sum of a leaf and itself: after backpropagation from it the leaf
    /// holds zero plus one plus one, both occurrences counted: one plus one,
    /// where zero and one are neutral.
    pub proof fn law_sum_with_itself(nodes: Seq<Node<T>>, a: int)
        requires
            Self::well_formed(nodes),
            nodes.len() <= usize::MAX,
            0 <= a < nodes.len(),
            nodes[a].op is Leaf,
        ensures
            Self::with_sum(nodes, a, a).last().value == nodes[a].value.add_spec(nodes[a].value),
            Self::backpropagated(Self::with_sum(nodes, a, a), nodes.len() as int)[a].grad
                == T::zero_spec().add_spec(T::one_spec()).add_spec(T::one_spec()),
            Self::neutral(T::one_spec()) ==> Self::backpropagated(
                Self::with_sum(nodes, a, a),
                nodes.len() as int,
            )[a].grad == T::one_spec().add_spec(T::one_spec()),
    {
        let made = Self::with_sum(nodes, a, a);
        let root = nodes.len() as int;
        assert(Self::parents(made, root) =~= seq![a, a]);
        Self::lemma_push_well_formed(nodes, made.last());
        assert(Self::parents(made, root)[0] == a);
        Self::lemma_backward_over_leaves(made, root);
    }

    /// The product of two leaves holds the product of their values. After
    /// backpropagation from it each of two distinct leaves holds zero plus the
    /// value of the other times one: the value of the other, where zero and
    /// one are neutral.
    pub proof fn law_product_of_leaves(nodes: Seq<Node<T>>, a: int, b: int)
        requires
            Self::well_formed(nodes),
            nodes.len() <= usize::MAX,
            0 <= a < nodes.len(),
            0 <= b < nodes.len(),
            a != b,
            nodes[a].op is Leaf,
            nodes[b].op is Leaf,
        ensures
            Self::with_product(nodes, a, b).last().value == nodes[a].value.mul_spec(
                nodes[b].value,
            ),
            Self::backpropagated(Self::with_product(nodes, a, b), nodes.len() as int)[a].grad
                == T::zero_spec().add_spec(nodes[b].value.mul_spec(T::one_spec())),
            Self::backpropagated(Self::with_product(nodes, a, b), nodes.len() as int)[b].grad
                == T::zero_spec().add_spec(nodes[a].value.mul_spec(T::one_spec())),
            Self::neutral(nodes[b].value) ==> Self::backpropagated(
                Self::with_product(nodes, a, b),
                nodes.len() as int,
            )[a].grad == nodes[b].value,
            Self::neutral(nodes[a].value) ==> Self::backpropagated(
                Self::with_product(nodes, a, b),
                nodes.len() as int,
            )[b].grad == nodes[a].value,
    {
        let made = Self::with_product(nodes, a, b);
        let root = nodes.len() as int;
        assert(Self::parents(made, root) =~= seq![a, b]);
        Self::lemma_push_well_formed(nodes, made.last());
        assert(Self::parents(made, root)[0] == a && Self::parents(made, root)[1] == b);
        Self::lemma_backward_over_leaves(made, root);
    }

    /// The product of a leaf and itself: after backpropagation from it the
    /// leaf holds zero plus its value times one, twice over: its value plus
    /// its value, where zero and one are neutral.
    pub proof fn law_product_with_itself(nodes: Seq<Node<T>>, a: int)
        requires
            Self::well_formed(nodes),
            nodes.len() <= usize::MAX,
            0 <= a < nodes.len(),
            nodes[a].op is Leaf,
        ensures
            Self::with_product(nodes, a, a).last().value == nodes[a].value.mul_spec(
                nodes[a].value,
            ),
            Self::backpropagated(Self::with_product(nodes, a, a), nodes.len() as int)[a].grad
                == T::zero_spec().add_spec(nodes[a].value.mul_spec(T::one_spec())).add_spec(
                nodes[a].value.mul_spec(T::one_spec()),
            ),
            Self::neutral(nodes[a].value) ==> Self::backpropagated(
                Self::with_product(nodes, a, a),
                nodes.len() as int,
            )[a].grad == nodes[a].value.add_spec(nodes[a].value),
    {
        let made = Self::with_product(nodes, a, a);
        let root = nodes.len() as int;
        assert(Self::parents(made, root) =~= seq![a, a]);
        Self::lemma_push_well_formed(nodes, made.last());
        assert(Self::parents(made, root)[0] == a);
        Self::lemma_backward_over_leaves(made, root);
    }

    /// The negation of a leaf holds its value negated. After backpropagation
    /// from it the leaf holds zero plus one negated.
    pub proof fn law_negation_of_leaf(nodes: Seq<Node<T>>, a: int)
        requires
            Self::well_formed(nodes),
            nodes.len() <= usize::MAX,
            0 <= a < nodes.len(),
            nodes[a].op is Leaf,
        ensures
            Self::with_negation(nodes, a).last().value == nodes[a].value.neg_spec(),
            Self::backpropagated(Self::with_negation(nodes, a), nodes.len() as int)[a].grad
                == T::zero_spec().add_spec(T::one_spec().neg_spec()),
    {
        let made = Self::with_negation(nodes, a);
        let root = nodes.len() as int;
        assert(Self::parents(made, root) =~= seq![a]);
        Self::lemma_push_well_formed(nodes, made.last());
        assert(Self::parents(made, root)[0] == a);
        Self::lemma_backward_over_leaves(made, root);
    }

    /// A leaf raised to the power `exp` holds that power of its value. After
    /// backpropagation from it the leaf holds zero plus the slope of the power
    /// times one, the slope being `exp` times the value raised to `exp` less
    /// one.
    pub proof fn law_power_of_leaf(nodes: Seq<Node<T>>, a: int, exp: T)
        requires
            Self::well_formed(nodes),
            nodes.len() <= usize::MAX,
            0 <= a < nodes.len(),
            nodes[a].op is Leaf,
        ensures
            Self::with_power(nodes, a, exp).last().value == nodes[a].value.pow_spec(exp),
            Self::backpropagated(Self::with_power(nodes, a, exp), nodes.len() as int)[a].grad
                == T::zero_spec().add_spec(
                Self::power_slope(nodes[a].value, exp).mul_spec(T::one_spec()),
            ),
    {
        let made = Self::with_power(nodes, a, exp);
        let root = nodes.len() as int;
        assert(Self::parents(made, root) =~= seq![a]);
        Self::lemma_push_well_formed(nodes, made.last());
        assert(Self::parents(made, root)[0] == a);
        Self::lemma_backward_over_leaves(made, root);
    }

    /// The rectifier of a leaf holds the value of the leaf where that is
    /// positive, and zero elsewhere. After backpropagation from it the leaf
    /// holds zero plus one where its value is positive, and zero plus zero
    /// elsewhere, at the value zero too.
    pub proof fn law_relu_of_leaf(nodes: Seq<Node<T>>, a: int)
        requires
            Self::well_formed(nodes),
            nodes.len() <= usize::MAX,
            0 <= a < nodes.len(),
            nodes[a].op is Leaf,
        ensures
            Self::with_relu(nodes, a).last().value == if nodes[a].value.positive_spec() {
                nodes[a].value
            } else {
                T::zero_spec()
            },
            Self::backpropagated(Self::with_relu(nodes, a), nodes.len() as int)[a].grad
                == T::zero_spec().add_spec(
                if nodes[a].value.positive_spec() {
                    T::one_spec()
                } else {
                    T::zero_spec()
                },
            ),
            Self::neutral(T::one_spec()) && nodes[a].value.positive_spec()
                ==> Self::backpropagated(Self::with_relu(nodes, a), nodes.len() as int)[a].grad
                == T::one_spec(),
            Self::neutral(T::zero_spec()) && !nodes[a].value.positive_spec()
                ==> Self::backpropagated(Self::with_relu(nodes, a), nodes.len() as int)[a].grad
                == T::zero_spec(),
    {
        let made = Self::with_relu(nodes, a);
        let root = nodes.len() as int;
        assert(Self::parents(made, root) =~= seq![a]);
        Self::lemma_push_well_formed(nodes, made.last());
        assert(Self::parents(made, root)[0] == a);
        Self::lemma_backward_over_leaves(made, root);
    }

    /// Leaves hand nothing on: a sweep may leave out the leaves that the
    /// order begins with.
    pub proof fn lemma_swept_skips_leaves(nodes: Seq<Node<T>>, order: Seq<int>, k: int, m: int)
        requires
            Self::well_formed(nodes),
            0 <= k <= m <= order.len(),
            forall|i: int| 0 <= i < order.len() ==> 0 <= #[trigger] order[i] < nodes.len(),
            forall|i: int| 0 <= i < m ==> nodes[#[trigger] order[i]].op is Leaf,
        ensures
            Self::swept(nodes, order, k) == Self::swept(nodes, order, m),
        decreases m - k,
    {
        if k < m {
            Self::lemma_swept_skips_leaves(nodes, order, k + 1, m);
            Self::lemma_swept_same_shape(nodes, order, m);
            assert(Self::swept(nodes, order, m)[order[k]].op == nodes[order[k]].op);
        }
    }

    /// The difference of two distinct leaves is the sum of the first and the
    /// negation of the second. After backpropagation from it the first holds
    /// zero plus one, and the second zero plus the negation of what the
    /// negation node had gathered, which is zero plus one.
    pub proof fn law_difference_of_leaves(nodes: Seq<Node<T>>, a: int, b: int)
        requires
            Self::well_formed(nodes),
            nodes.len() < usize::MAX,
            0 <= a < nodes.len(),
            0 <= b < nodes.len(),
            a != b,
            nodes[a].op is Leaf,
            nodes[b].op is Leaf,
        ensures
            Self::with_sum(Self::with_negation(nodes, b), a, nodes.len() as int).last().value
                == nodes[a].value.add_spec(nodes[b].value.neg_spec()),
            Self::backpropagated(
                Self::with_sum(Self::with_negation(nodes, b), a, nodes.len() as int),
                nodes.len() as int + 1,
            )[a].grad == T::zero_spec().add_spec(T::one_spec()),
            Self::backpropagated(
                Self::with_sum(Self::with_negation(nodes, b), a, nodes.len() as int),
                nodes.len() as int + 1,
            )[b].grad == T::zero_spec().add_spec(
                T::zero_spec().add_spec(T::one_spec()).neg_spec(),
            ),
    {
        let inner = nodes.len() as int;
        let root = nodes.len() as int + 1;
        let half = Self::with_negation(nodes, b);
        let made = Self::with_sum(half, a, inner);
        assert(Self::parents(half, inner) =~= seq![b]);
        assert(Self::parents(half, inner)[0] == b);
        Self::lemma_push_well_formed(nodes, half.last());
        assert(Self::parents(made, root) =~= seq![a, inner]);
        assert(Self::parents(made, root)[0] == a && Self::parents(made, root)[1] == inner);
        Self::lemma_push_well_formed(half, made.last());
        assert(Self::parents(made, inner) =~= seq![b]);
        let order = Self::order(made, root);
        Self::lemma_visit_binary(made, root, Seq::empty());
        Self::lemma_visit_leaf(made, a, Seq::empty());
        let first = Seq::<int>::empty().push(a);
        Self::lemma_visit_unary(made, inner, first);
        Self::lemma_visit_leaf(made, b, first);
        assert(order =~= seq![a, b, inner, root]);
        Self::lemma_order(made, root);
        assert(order.contains(a) && order.contains(b) && order.contains(inner)) by {
            assert(order[0] == a && order[1] == b && order[2] == inner);
        }
        let start = Self::seeded(made, root);
        Self::lemma_seeded(made, root);
        Self::lemma_swept_skips_leaves(start, order, 0, 2);
        assert(Self::swept(start, order, 4) == start);
        assert(Self::swept(start, order, 3) == Self::propagated(start, root));
        assert(Self::swept(start, order, 2) == Self::propagated(
            Self::propagated(start, root),
            inner,
        ));
    }

    /// The difference of a leaf and itself is the sum of the leaf and its
    /// negation. After backpropagation from it the leaf holds zero plus one
    /// from the sum, plus the negation of what the negation node had gathered.
    pub proof fn law_difference_with_itself(nodes: Seq<Node<T>>, a: int)
        requires
            Self::well_formed(nodes),
            nodes.len() < usize::MAX,
            0 <= a < nodes.len(),
            nodes[a].op is Leaf,
        ensures
            Self::with_sum(Self::with_negation(nodes, a), a, nodes.len() as int).last().value
                == nodes[a].value.add_spec(nodes[a].value.neg_spec()),
            Self::backpropagated(
                Self::with_sum(Self::with_negation(nodes, a), a, nodes.len() as int),
                nodes.len() as int + 1,
            )[a].grad == T::zero_spec().add_spec(T::one_spec()).add_spec(
                T::zero_spec().add_spec(T::one_spec()).neg_spec(),
            ),
    {
        let inner = nodes.len() as int;
        let root = nodes.len() as int + 1;
        let half = Self::with_negation(nodes, a);
        let made = Self::with_sum(half, a, inner);
        assert(Self::parents(half, inner) =~= seq![a]);
        assert(Self::parents(half, inner)[0] == a);
        Self::lemma_push_well_formed(nodes, half.last());
        assert(Self::parents(made, root) =~= seq![a, inner]);
        assert(Self::parents(made, root)[0] == a && Self::parents(made, root)[1] == inner);
        Self::lemma_push_well_formed(half, made.last());
        assert(Self::parents(made, inner) =~= seq![a]);
        let order = Self::order(made, root);
        Self::lemma_visit_binary(made, root, Seq::empty());
        Self::lemma_visit_leaf(made, a, Seq::empty());
        let first = Seq::<int>::empty().push(a);
        Self::lemma_visit_unary(made, inner, first);
        assert(first.contains(a)) by {
            assert(first[0] == a);
        }
        Self::lemma_visit_leaf(made, a, first);
        assert(order =~= seq![a, inner, root]);
        Self::lemma_order(made, root);
        assert(order.contains(a) && order.contains(inner)) by {
            assert(order[0] == a && order[1] == inner);
        }
        let start = Self::seeded(made, root);
        Self::lemma_seeded(made, root);
        Self::lemma_swept_skips_leaves(start, order, 0, 1);
        assert(Self::swept(start, order, 3) == start);
        assert(Self::swept(start, order, 2) == Self::propagated(start, root));
        assert(Self::swept(start, order, 1) == Self::propagated(
            Self::propagated(start, root),
            inner,
        ));
    }

    /// The quotient of two distinct leaves is the product of the first and
    /// the second raised to the power minus one. After backpropagation from
    /// it the first holds zero plus that power times one, and the second zero
    /// plus the slope of the power times what the power node had gathered,
    /// which is zero plus the value of the first times one.
    pub proof fn law_quotient_of_leaves(nodes: Seq<Node<T>>, a: int, b: int)
        requires
            Self::well_formed(nodes),
            nodes.len() < usize::MAX,
            0 <= a < nodes.len(),
            0 <= b < nodes.len(),
            a != b,
            nodes[a].op is Leaf,
            nodes[b].op is Leaf,
        ensures
            Self::with_product(
                Self::with_power(nodes, b, T::one_spec().neg_spec()),
                a,
                nodes.len() as int,
            ).last().value == nodes[a].value.mul_spec(
                nodes[b].value.pow_spec(T::one_spec().neg_spec()),
            ),
            Self::backpropagated(
                Self::with_product(
                    Self::with_power(nodes, b, T::one_spec().neg_spec()),
                    a,
                    nodes.len() as int,
                ),
                nodes.len() as int + 1,
            )[a].grad == T::zero_spec().add_spec(
                nodes[b].value.pow_spec(T::one_spec().neg_spec()).mul_spec(T::one_spec()),
            ),
            Self::backpropagated(
                Self::with_product(
                    Self::with_power(nodes, b, T::one_spec().neg_spec()),
                    a,
                    nodes.len() as int,
                ),
                nodes.len() as int + 1,
            )[b].grad == T::zero_spec().add_spec(
                Self::power_slope(nodes[b].value, T::one_spec().neg_spec()).mul_spec(
                    T::zero_spec().add_spec(nodes[a].value.mul_spec(T::one_spec())),
                ),
            ),
    {
        let inner = nodes.len() as int;
        let root = nodes.len() as int + 1;
        let half = Self::with_power(nodes, b, T::one_spec().neg_spec());
        let made = Self::with_product(half, a, inner);
        assert(Self::parents(half, inner) =~= seq![b]);
        assert(Self::parents(half, inner)[0] == b);
        Self::lemma_push_well_formed(nodes, half.last());
        assert(Self::parents(made, root) =~= seq![a, inner]);
        assert(Self::parents(made, root)[0] == a && Self::parents(made, root)[1] == inner);
        Self::lemma_push_well_formed(half, made.last());
        assert(Self::parents(made, inner) =~= seq![b]);
        let order = Self::order(made, root);
        Self::lemma_visit_binary(made, root, Seq::empty());
        Self::lemma_visit_leaf(made, a, Seq::empty());
        let first = Seq::<int>::empty().push(a);
        Self::lemma_visit_unary(made, inner, first);
        Self::lemma_visit_leaf(made, b, first);
        assert(order =~= seq![a, b, inner, root]);
        Self::lemma_order(made, root);
        assert(order.contains(a) && order.contains(b) && order.contains(inner)) by {
            assert(order[0] == a && order[1] == b && order[2] == inner);
        }
        let start = Self::seeded(made, root);
        Self::lemma_seeded(made, root);
        Self::lemma_swept_skips_leaves(start, order, 0, 2);
        assert(Self::swept(start, order, 4) == start);
        assert(Self::swept(start, order, 3) == Self::propagated(start, root));
        assert(Self::swept(start, order, 2) == Self::propagated(
            Self::propagated(start, root),
            inner,
        ));
    }

    /// The quotient of a leaf and itself is the product of the leaf and
    /// itself raised to the power minus one. After backpropagation from it
    /// the leaf holds zero plus that power times one from the product, plus
    /// the slope of the power times what the power node had gathered.
    pub proof fn law_quotient_with_itself(nodes: Seq<Node<T>>, a: int)
        requires
            Self::well_formed(nodes),
            nodes.len() < usize::MAX,
            0 <= a < nodes.len(),
            nodes[a].op is Leaf,
        ensures
            Self::with_product(
                Self::with_power(nodes, a, T::one_spec().neg_spec()),
                a,
                nodes.len() as int,
            ).last().value == nodes[a].value.mul_spec(
                nodes[a].value.pow_spec(T::one_spec().neg_spec()),
            ),
            Self::backpropagated(
                Self::with_product(
                    Self::with_power(nodes, a, T::one_spec().neg_spec()),
                    a,
                    nodes.len() as int,
                ),
                nodes.len() as int + 1,
            )[a].grad == T::zero_spec().add_spec(
                nodes[a].value.pow_spec(T::one_spec().neg_spec()).mul_spec(T::one_spec()),
            ).add_spec(
                Self::power_slope(nodes[a].value, T::one_spec().neg_spec()).mul_spec(
                    T::zero_spec().add_spec(nodes[a].value.mul_spec(T::one_spec())),
                ),
            ),
    {
        let inner = nodes.len() as int;
        let root = nodes.len() as int + 1;
        let half = Self::with_power(nodes, a, T::one_spec().neg_spec());
        let made = Self::with_product(half, a, inner);
        assert(Self::parents(half, inner) =~= seq![a]);
        assert(Self::parents(half, inner)[0] == a);
        Self::lemma_push_well_formed(nodes, half.last());
        assert(Self::parents(made, root) =~= seq![a, inner]);
        assert(Self::parents(made, root)[0] == a && Self::parents(made, root)[1] == inner);
        Self::lemma_push_well_formed(half, made.last());
        assert(Self::parents(made, inner) =~= seq![a]);
        let order = Self::order(made, root);
        Self::lemma_visit_binary(made, root, Seq::empty());
        Self::lemma_visit_leaf(made, a, Seq::empty());
        let first = Seq::<int>::empty().push(a);
        Self::lemma_visit_unary(made, inner, first);
        assert(first.contains(a)) by {
            assert(first[0] == a);
        }
        Self::lemma_visit_leaf(made, a, first);
        assert(order =~= seq![a, inner, root]);
        Self::lemma_order(made, root);
        assert(order.contains(a) && order.contains(inner)) by {
            assert(order[0] == a && order[1] == inner);
        }
        let start = Self::seeded(made, root);
        Self::lemma_seeded(made, root);
        Self::lemma_swept_skips_leaves(start, order, 0, 1);
        assert(Self::swept(start, order, 3) == start);
        assert(Self::swept(start, order, 2) == Self::propagated(start, root));
        assert(Self::swept(start, order, 1) == Self::propagated(
            Self::propagated(start, root),
            inner,
        ));
    }

    /// Clearing forgets: whatever gradients a graph holds, from earlier
    /// backpropagation or set by hand, after clearing from `root` every node
    /// that `root` depends on holds zero, and every other node what it held.
    /// Two graphs of the same nodes are cleared at the same places.
    pub proof fn law_clear_forgets(before: Seq<Node<T>>, after: Seq<Node<T>>, root: int, x: int)
        requires
            Self::same_shape(before, after),
            0 <= root < before.len(),
            0 <= x < before.len(),
        ensures
            Self::reaches(after, root, x) == Self::reaches(before, root, x),
            Self::reaches(before, root, x) ==> Self::cleared(after, root)[x].grad
                == T::zero_spec(),
            !Self::reaches(before, root, x) ==> Self::cleared(after, root)[x] == after[x],
            Self::same_shape(after, Self::cleared(after, root)),
    {
        Self::lemma_reaches_agrees(before, after, root, x);
    }

    /// Clearing after backpropagation, from whichever node that started,
    /// leaves zero at every node that `root` depends on.
    pub proof fn law_clear_after_backward(nodes: Seq<Node<T>>, earlier: int, root: int, x: int)
        requires
            Self::well_formed(nodes),
            0 <= earlier < nodes.len(),
            0 <= root < nodes.len(),
            0 <= x < nodes.len(),
            Self::reaches(nodes, root, x),
        ensures
            Self::cleared(Self::backpropagated(nodes, earlier), root)[x].grad == T::zero_spec(),
    {
        Self::law_backward_frame(nodes, earlier);
        Self::law_clear_forgets(nodes, Self::backpropagated(nodes, earlier), root, x);
    }

    /// Clearing twice is clearing once.
    pub proof fn law_clear_twice(nodes: Seq<Node<T>>, root: int)
        requires
            0 <= root < nodes.len(),
        ensures
            Self::cleared(Self::cleared(nodes, root), root) == Self::cleared(nodes, root),
    {
        let once = Self::cleared(nodes, root);
        assert forall|x: int| 0 <= x < nodes.len() implies Self::cleared(once, root)[x]
            == once[x] by {
            Self::lemma_reaches_agrees(nodes, once, root, x);
        }
        assert(Self::cleared(once, root) =~= once);
    }

    /// What the gradient `acc` of node `x` becomes when node `v`, holding the
    /// gradient `grad`, hands it on: for each operand of `v` that is `x`, in
    /// order, `grad` times the derivative of `v` with respect to that operand
    /// is added.
    pub open spec fn credited(nodes: Seq<Node<T>>, v: int, x: int, grad: T, acc: T) -> T {
        match nodes[v].op {
            Op::Leaf => acc,
            Op::Add(a, b) => {
                let first = if a == x {
                    acc.add_spec(grad)
                } else {
                    acc
                };
                if b == x {
                    first.add_spec(grad)
                } else {
                    first
                }
            },
            Op::Mul(a, b) => {
                let first = if a == x {
                    acc.add_spec(nodes[b as int].value.mul_spec(grad))
                } else {
                    acc
                };
                if b == x {
                    first.add_spec(nodes[a as int].value.mul_spec(grad))
                } else {
                    first
                }
            },
            Op::Neg(a) => if a == x {
                acc.add_spec(grad.neg_spec())
            } else {
                acc
            },
            Op::Pow(a, exp) => if a == x {
                acc.add_spec(Self::power_slope(nodes[a as int].value, exp).mul_spec(grad))
            } else {
                acc
            },
            Op::Relu(a) => if a == x {
                acc.add_spec(
                    if nodes[a as int].value.positive_spec() {
                        grad
                    } else {
                        T::zero_spec()
                    },
                )
            } else {
                acc
            },
        }
    }

    /// The chain rule as a sum: `seed`, and added to it what node `x` is
    /// handed by the nodes that `order` lists from position `k` on, the last
    /// of them first, each handing on the gradient that `nodes` holds for it.
    pub open spec fn gathered(nodes: Seq<Node<T>>, order: Seq<int>, k: int, x: int, seed: T) -> T
        decreases order.len() - k,
    {
        if 0 <= k < order.len() {
            Self::credited(
                nodes,
                order[k],
                x,
                nodes[order[k]].grad,
                Self::gathered(nodes, order, k + 1, x, seed),
            )
        } else {
            seed
        }
    }

    /// What a node hands on reaches each node as `credited` says.
    pub proof fn lemma_propagated_credits(nodes: Seq<Node<T>>, v: int, x: int)
        requires
            Self::well_formed(nodes),
            0 <= v < nodes.len(),
            0 <= x < nodes.len(),
        ensures
            Self::propagated(nodes, v)[x].grad == Self::credited(
                nodes,
                v,
                x,
                nodes[v].grad,
                nodes[x].grad,
            ),
    {
        assert(Self::node_ok(nodes, v));
        let parents = Self::parents(nodes, v);
        match nodes[v].op {
            Op::Leaf => {},
            Op::Add(a, b) => {
                assert(parents[0] == a && parents[1] == b);
            },
            Op::Mul(a, b) => {
                assert(parents[0] == a && parents[1] == b);
            },
            Op::Neg(a) => {
                assert(parents[0] == a);
            },
            Op::Pow(a, _) => {
                assert(parents[0] == a);
            },
            Op::Relu(a) => {
                assert(parents[0] == a);
            },
        }
    }

    /// What is credited depends on values and operations, not on the
    /// gradients that the graph holds.
    pub proof fn lemma_credited_agrees(
        before: Seq<Node<T>>,
        after: Seq<Node<T>>,
        v: int,
        x: int,
        grad: T,
        acc: T,
    )
        requires
            Self::well_formed(before),
            Self::same_shape(before, after),
            0 <= v < before.len(),
        ensures
            Self::credited(after, v, x, grad, acc) == Self::credited(before, v, x, grad, acc),
    {
        assert(Self::node_ok(before, v));
        let parents = Self::parents(before, v);
        match before[v].op {
            Op::Leaf => {},
            Op::Add(a, b) => {
                assert(parents[0] == a && parents[1] == b);
            },
            Op::Mul(a, b) => {
                assert(parents[0] == a && parents[1] == b);
            },
            Op::Neg(a) => {
                assert(parents[0] == a);
            },
            Op::Pow(a, _) => {
                assert(parents[0] == a);
            },
            Op::Relu(a) => {
                assert(parents[0] == a);
            },
        }
    }

    /// At every stage of a sweep over a topological order, a node holds what
    /// it started with and what the nodes that had their turn handed to it,
    /// counted with the gradients that they hold in the end.
    pub proof fn lemma_swept_gathers(nodes: Seq<Node<T>>, order: Seq<int>, k: int, x: int)
        requires
            Self::well_formed(nodes),
            Self::topological(nodes, order),
            0 <= k <= order.len(),
            0 <= x < nodes.len(),
        ensures
            Self::swept(nodes, order, k)[x].grad == Self::gathered(
                Self::swept(nodes, order, 0),
                order,
                k,
                x,
                nodes[x].grad,
            ),
        decreases order.len() - k,
    {
        if k < order.len() {
            let last = Self::swept(nodes, order, 0);
            let inner = Self::swept(nodes, order, k + 1);
            let v = order[k];
            Self::lemma_swept_gathers(nodes, order, k + 1, x);
            Self::lemma_swept_same_shape(nodes, order, k + 1);
            Self::lemma_swept_same_shape(nodes, order, 0);
            Self::lemma_swept_settled(nodes, order, k, 0);
            Self::lemma_propagated_credits(inner, v, x);
            Self::lemma_credited_agrees(nodes, inner, v, x, inner[v].grad, inner[x].grad);
            Self::lemma_credited_agrees(nodes, last, v, x, inner[v].grad, inner[x].grad);
        }
    }

    /// The chain rule. After backpropagation from `root`, the gradient of a
    /// node is one for `root` and zero for any other node that `root` depends
    /// on, and added to that, for every node that reads it, in reverse
    /// topological order and once for each time it is read, the gradient of
    /// the reading node times the derivative of that node with respect to it.
    pub proof fn law_chain_rule(nodes: Seq<Node<T>>, root: int, x: int)
        requires
            Self::well_formed(nodes),
            0 <= root < nodes.len(),
            0 <= x < nodes.len(),
        ensures
            Self::backpropagated(nodes, root)[x].grad == Self::gathered(
                Self::backpropagated(nodes, root),
                Self::order(nodes, root),
                0,
                x,
                if x == root {
                    T::one_spec()
                } else if Self::reaches(nodes, root, x) {
                    T::zero_spec()
                } else {
                    nodes[x].grad
                },
            ),
    {
        let start = Self::seeded(nodes, root);
        let order = Self::order(nodes, root);
        Self::lemma_seeded(nodes, root);
        Self::lemma_order(nodes, root);
        Self::lemma_topological_agrees(nodes, start, order);
        Self::lemma_swept_gathers(start, order, 0, x);
    }
}

} // verus!
