use crate::graph::{Graph, Node};
use crate::scalar::Scalar;
use crate::value::ValueRef;
use std::collections::HashSet;
use vstd::prelude::*;

verus! {

broadcast use vstd::std_specs::hash::group_hash_axioms;

impl<T: Scalar> Graph<T> {
    /// Depth-first post-order: the order that `done` grows into when node `v`
    /// is visited. A node that `done` lists already adds nothing; any other
    /// has its operands visited one after the other, and then comes itself.
    pub open spec fn visit(nodes: Seq<Node<T>>, v: int, done: Seq<int>) -> Seq<int>
        decreases v, 1int, 0int,
    {
        if v < 0 || done.contains(v) {
            done
        } else {
            Self::visit_rest(nodes, v, 0, done)
        }
    }

    /// The order that `done` grows into when the operands of node `v` from
    /// the `k`-th on are visited one after the other, and `v` is listed then.
    pub open spec fn visit_rest(nodes: Seq<Node<T>>, v: int, k: int, done: Seq<int>) -> Seq<int>
        decreases v, 0int, Self::parents(nodes, v).len() - k,
    {
        let parents = Self::parents(nodes, v);
        if 0 <= k < parents.len() {
            if 0 <= parents[k] < v {
                Self::visit_rest(nodes, v, k + 1, Self::visit(nodes, parents[k], done))
            } else {
                Self::visit_rest(nodes, v, k + 1, done)
            }
        } else {
            done.push(v)
        }
    }

    /// The topological order of the nodes that `root` depends on: depth-first
    /// post-order from `root`.
    pub open spec fn order(nodes: Seq<Node<T>>, root: int) -> Seq<int> {
        Self::visit(nodes, root, Seq::empty())
    }

    /// Node `v` depends on node `x`: `x` is `v` itself, or an operand of `v`
    /// depends on it.
    pub open spec fn reaches(nodes: Seq<Node<T>>, v: int, x: int) -> bool
        decreases v,
    {
        v == x || exists|k: int|
            0 <= k < Self::parents(nodes, v).len() && 0 <= #[trigger] Self::parents(nodes, v)[k]
                < v && Self::reaches(nodes, Self::parents(nodes, v)[k], x)
    }

    /// `x` stands in `order` before position `i`.
    pub open spec fn precedes(order: Seq<int>, x: int, i: int) -> bool {
        exists|j: int| 0 <= j < i && j < order.len() && order[j] == x
    }

    /// `order` lists nodes of `nodes`, none of them twice, and each after all
    /// of its operands.
    pub open spec fn topological(nodes: Seq<Node<T>>, order: Seq<int>) -> bool {
        &&& forall|i: int| 0 <= i < order.len() ==> 0 <= #[trigger] order[i] < nodes.len()
        &&& order.no_duplicates()
        &&& forall|i: int, k: int|
            0 <= i < order.len() && 0 <= k < Self::parents(nodes, order[i]).len()
                ==> #[trigger] Self::precedes(order, Self::parents(nodes, order[i])[k], i)
    }

    /// What a visit of `v` lists depends on the operations of the nodes up to
    /// `v` alone.
    pub proof fn lemma_visit_agrees(
        before: Seq<Node<T>>,
        after: Seq<Node<T>>,
        v: int,
        done: Seq<int>,
    )
        requires
            forall|x: int| 0 <= x <= v ==> (#[trigger] after[x]).op == before[x].op,
        ensures
            Self::visit(after, v, done) == Self::visit(before, v, done),
        decreases v, 1int, 0int,
    {
        if !(v < 0 || done.contains(v)) {
            Self::lemma_visit_rest_agrees(before, after, v, 0, done);
        }
    }

    /// What the rest of a visit of `v` lists depends on the operations of the
    /// nodes up to `v` alone.
    pub proof fn lemma_visit_rest_agrees(
        before: Seq<Node<T>>,
        after: Seq<Node<T>>,
        v: int,
        k: int,
        done: Seq<int>,
    )
        requires
            0 <= v,
            forall|x: int| 0 <= x <= v ==> (#[trigger] after[x]).op == before[x].op,
        ensures
            Self::visit_rest(after, v, k, done) == Self::visit_rest(before, v, k, done),
        decreases v, 0int, Self::parents(before, v).len() - k,
    {
        let parents = Self::parents(before, v);
        assert(after[v].op == before[v].op);
        assert(Self::parents(after, v) == parents);
        if 0 <= k < parents.len() {
            if 0 <= parents[k] < v {
                Self::lemma_visit_agrees(before, after, parents[k], done);
                Self::lemma_visit_rest_agrees(
                    before,
                    after,
                    v,
                    k + 1,
                    Self::visit(before, parents[k], done),
                );
            } else {
                Self::lemma_visit_rest_agrees(before, after, v, k + 1, done);
            }
        }
    }

    /// What a node depends on is settled by the operations of the nodes up to
    /// it.
    pub proof fn lemma_reaches_agrees(before: Seq<Node<T>>, after: Seq<Node<T>>, v: int, x: int)
        requires
            forall|y: int| 0 <= y <= v ==> (#[trigger] after[y]).op == before[y].op,
        ensures
            Self::reaches(after, v, x) == Self::reaches(before, v, x),
        decreases v,
    {
        if 0 <= v {
            assert(after[v].op == before[v].op);
            assert(Self::parents(after, v) == Self::parents(before, v));
            assert forall|k: int|
                0 <= k < Self::parents(before, v).len() && 0 <= #[trigger] Self::parents(
                    before,
                    v,
                )[k] < v implies Self::reaches(after, Self::parents(before, v)[k], x)
                == Self::reaches(before, Self::parents(before, v)[k], x) by {
                Self::lemma_reaches_agrees(before, after, Self::parents(before, v)[k], x);
            }
        }
    }

    /// A visit of a leaf lists the leaf, unless it is listed already.
    pub proof fn lemma_visit_leaf(nodes: Seq<Node<T>>, v: int, done: Seq<int>)
        requires
            0 <= v,
            Self::parents(nodes, v).len() == 0,
        ensures
            Self::visit(nodes, v, done) == if done.contains(v) {
                done
            } else {
                done.push(v)
            },
    {
        assert(Self::visit_rest(nodes, v, 0, done) == done.push(v));
    }

    /// A visit of a node of one operand visits the operand and lists the node.
    pub proof fn lemma_visit_unary(nodes: Seq<Node<T>>, v: int, done: Seq<int>)
        requires
            Self::parents(nodes, v).len() == 1,
            0 <= Self::parents(nodes, v)[0] < v,
            !done.contains(v),
        ensures
            Self::visit(nodes, v, done) == Self::visit(
                nodes,
                Self::parents(nodes, v)[0],
                done,
            ).push(v),
    {
        let first = Self::visit(nodes, Self::parents(nodes, v)[0], done);
        assert(Self::visit_rest(nodes, v, 1, first) == first.push(v));
        assert(Self::visit_rest(nodes, v, 0, done) == Self::visit_rest(nodes, v, 1, first));
    }

    /// A visit of a node of two operands visits the first, then the second,
    /// and lists the node.
    pub proof fn lemma_visit_binary(nodes: Seq<Node<T>>, v: int, done: Seq<int>)
        requires
            Self::parents(nodes, v).len() == 2,
            0 <= Self::parents(nodes, v)[0] < v,
            0 <= Self::parents(nodes, v)[1] < v,
            !done.contains(v),
        ensures
            Self::visit(nodes, v, done) == Self::visit(
                nodes,
                Self::parents(nodes, v)[1],
                Self::visit(nodes, Self::parents(nodes, v)[0], done),
            ).push(v),
    {
        let first = Self::visit(nodes, Self::parents(nodes, v)[0], done);
        let second = Self::visit(nodes, Self::parents(nodes, v)[1], first);
        assert(Self::visit_rest(nodes, v, 2, second) == second.push(v));
        assert(Self::visit_rest(nodes, v, 1, first) == Self::visit_rest(nodes, v, 2, second));
        assert(Self::visit_rest(nodes, v, 0, done) == Self::visit_rest(nodes, v, 1, first));
    }

    /// A node depends only on itself and on nodes made before it.
    pub proof fn lemma_reaches_earlier(nodes: Seq<Node<T>>, v: int, x: int)
        requires
            0 <= v,
            Self::reaches(nodes, v, x),
        ensures
            0 <= x <= v,
        decreases v,
    {
        if v != x {
            let k = choose|k: int|
                0 <= k < Self::parents(nodes, v).len() && 0 <= #[trigger] Self::parents(
                    nodes,
                    v,
                )[k] < v && Self::reaches(nodes, Self::parents(nodes, v)[k], x);
            Self::lemma_reaches_earlier(nodes, Self::parents(nodes, v)[k], x);
        }
    }

    /// A topological order lists, with a node, all that the node depends on.
    pub proof fn lemma_topological_closed(nodes: Seq<Node<T>>, order: Seq<int>, v: int, x: int)
        requires
            Self::topological(nodes, order),
            order.contains(v),
            Self::reaches(nodes, v, x),
        ensures
            order.contains(x),
        decreases v,
    {
        if v != x {
            let k = choose|k: int|
                0 <= k < Self::parents(nodes, v).len() && 0 <= #[trigger] Self::parents(
                    nodes,
                    v,
                )[k] < v && Self::reaches(nodes, Self::parents(nodes, v)[k], x);
            let p = Self::parents(nodes, v)[k];
            let i = choose|i: int| 0 <= i < order.len() && order[i] == v;
            assert(Self::precedes(order, Self::parents(nodes, order[i])[k], i));
            Self::lemma_topological_closed(nodes, order, p, x);
        }
    }

    /// What a visit does to an order: it keeps what was listed, in place, and
    /// lists besides exactly the nodes that `v` depends on, in topological
    /// order, `v` last.
    pub proof fn lemma_visit(nodes: Seq<Node<T>>, v: int, done: Seq<int>)
        requires
            Self::well_formed(nodes),
            0 <= v < nodes.len(),
            Self::topological(nodes, done),
        ensures
            Self::topological(nodes, Self::visit(nodes, v, done)),
            done.is_prefix_of(Self::visit(nodes, v, done)),
            forall|x: int| #[trigger]
                Self::visit(nodes, v, done).contains(x) <==> done.contains(x) || Self::reaches(
                    nodes,
                    v,
                    x,
                ),
            !done.contains(v) ==> Self::visit(nodes, v, done).last() == v,
        decreases v, 1int, 0int,
    {
        let after = Self::visit(nodes, v, done);
        if done.contains(v) {
            assert forall|x: int| #[trigger]
                after.contains(x) <==> done.contains(x) || Self::reaches(nodes, v, x) by {
                if Self::reaches(nodes, v, x) {
                    Self::lemma_topological_closed(nodes, done, v, x);
                }
            }
        } else {
            Self::lemma_visit_rest(nodes, v, 0, done);
            assert(Self::node_ok(nodes, v));
            assert forall|x: int| #[trigger]
                after.contains(x) <==> done.contains(x) || Self::reaches(nodes, v, x) by {
                if Self::reaches(nodes, v, x) && v != x {
                    let k = choose|k: int|
                        0 <= k < Self::parents(nodes, v).len() && 0 <= #[trigger] Self::parents(
                            nodes,
                            v,
                        )[k] < v && Self::reaches(nodes, Self::parents(nodes, v)[k], x);
                    assert(Self::fed_from(nodes, v, 0, x));
                }
                if Self::fed_from(nodes, v, 0, x) {
                    let k = choose|k: int|
                        0 <= k < Self::parents(nodes, v).len() && Self::reaches(
                            nodes,
                            #[trigger] Self::parents(nodes, v)[k],
                            x,
                        );
                    assert(0 <= Self::parents(nodes, v)[k] < v);
                }
            }
        }
    }

    /// An operand of `v` from the `k`-th on depends on `x`.
    pub open spec fn fed_from(nodes: Seq<Node<T>>, v: int, k: int, x: int) -> bool {
        exists|j: int|
            k <= j < Self::parents(nodes, v).len() && Self::reaches(
                nodes,
                #[trigger] Self::parents(nodes, v)[j],
                x,
            )
    }

    /// What visiting the rest of the operands of `v` does to an order.
    pub proof fn lemma_visit_rest(nodes: Seq<Node<T>>, v: int, k: int, done: Seq<int>)
        requires
            Self::well_formed(nodes),
            0 <= v < nodes.len(),
            0 <= k <= Self::parents(nodes, v).len(),
            Self::topological(nodes, done),
            !done.contains(v),
            forall|j: int| 0 <= j < k ==> done.contains(#[trigger] Self::parents(nodes, v)[j]),
        ensures
            Self::topological(nodes, Self::visit_rest(nodes, v, k, done)),
            done.is_prefix_of(Self::visit_rest(nodes, v, k, done)),
            forall|x: int| #[trigger]
                Self::visit_rest(nodes, v, k, done).contains(x) <==> done.contains(x) || x == v
                    || Self::fed_from(nodes, v, k, x),
            Self::visit_rest(nodes, v, k, done).last() == v,
        decreases v, 0int, Self::parents(nodes, v).len() - k,
    {
        let parents = Self::parents(nodes, v);
        let after = Self::visit_rest(nodes, v, k, done);
        assert(Self::node_ok(nodes, v));
        if k < parents.len() {
            let p = parents[k];
            assert(0 <= p < v);
            let mid = Self::visit(nodes, p, done);
            Self::lemma_visit(nodes, p, done);
            if mid.contains(v) {
                Self::lemma_reaches_earlier(nodes, p, v);
            }
            assert forall|j: int| 0 <= j < k + 1 implies mid.contains(
                #[trigger] Self::parents(nodes, v)[j],
            ) by {
                if j < k {
                    assert(done.contains(parents[j]));
                }
            }
            Self::lemma_visit_rest(nodes, v, k + 1, mid);
            assert forall|x: int| #[trigger]
                after.contains(x) <==> done.contains(x) || x == v || Self::fed_from(
                    nodes,
                    v,
                    k,
                    x,
                ) by {
                if Self::fed_from(nodes, v, k + 1, x) {
                    let j = choose|j: int|
                        k + 1 <= j < parents.len() && Self::reaches(
                            nodes,
                            #[trigger] Self::parents(nodes, v)[j],
                            x,
                        );
                    assert(Self::fed_from(nodes, v, k, x));
                }
                if Self::reaches(nodes, p, x) {
                    assert(Self::fed_from(nodes, v, k, x));
                }
                if Self::fed_from(nodes, v, k, x) {
                    let j = choose|j: int|
                        k <= j < parents.len() && Self::reaches(
                            nodes,
                            #[trigger] Self::parents(nodes, v)[j],
                            x,
                        );
                    if j != k {
                        assert(Self::fed_from(nodes, v, k + 1, x));
                    }
                }
            }
        } else {
            assert(after == done.push(v));
            assert forall|i: int, j: int| 0 <= i < j < after.len() implies after[i]
                != after[j] by {
                if j == done.len() {
                    assert(done[i] == after[i]);
                }
            }
            assert forall|i: int, j: int|
                0 <= i < after.len() && 0 <= j < Self::parents(nodes, after[i]).len()
                    implies #[trigger] Self::precedes(
                after,
                Self::parents(nodes, after[i])[j],
                i,
            ) by {
                let q = Self::parents(nodes, after[i])[j];
                if i < done.len() {
                    assert(Self::precedes(done, Self::parents(nodes, done[i])[j], i));
                    let w = choose|w: int| 0 <= w < i && w < done.len() && done[w] == q;
                    assert(after[w] == q);
                } else {
                    assert(done.contains(parents[j]));
                    let w = choose|w: int| 0 <= w < done.len() && done[w] == q;
                    assert(after[w] == q);
                }
            }
            assert forall|x: int| #[trigger]
                after.contains(x) <==> done.contains(x) || x == v || Self::fed_from(
                    nodes,
                    v,
                    k,
                    x,
                ) by {
                if done.contains(x) {
                    let w = choose|w: int| 0 <= w < done.len() && done[w] == x;
                    assert(after[w] == x);
                }
                if x == v {
                    assert(after[done.len() as int] == x);
                }
                if after.contains(x) {
                    let w = choose|w: int| 0 <= w < after.len() && after[w] == x;
                    if w < done.len() {
                        assert(done[w] == x);
                    }
                }
            }
        }
    }

    /// The topological order from `root` lists exactly what `root` depends
    /// on, nothing twice, every node after its operands and `root` last.
    pub proof fn lemma_order(nodes: Seq<Node<T>>, root: int)
        requires
            Self::well_formed(nodes),
            0 <= root < nodes.len(),
        ensures
            Self::topological(nodes, Self::order(nodes, root)),
            forall|x: int| #[trigger]
                Self::order(nodes, root).contains(x) <==> Self::reaches(nodes, root, x),
            Self::order(nodes, root).last() == root,
    {
        Self::lemma_visit(nodes, root, Seq::empty());
    }
}

/// A node that the traversal has entered and not left, with the number of
/// its operands that it has looked at.
#[derive(Clone, Copy)]
struct Frame {
    node: usize,
    next: usize,
}

/// The order that `done` grows into when the traversal works off `frames`,
/// the innermost frame last.
spec fn unwind<T: Scalar>(nodes: Seq<Node<T>>, frames: Seq<Frame>, done: Seq<int>) -> Seq<int>
    decreases frames.len(),
{
    if frames.len() == 0 {
        done
    } else {
        let top = frames.last();
        unwind(
            nodes,
            frames.drop_last(),
            Graph::<T>::visit_rest(nodes, top.node as int, top.next as int, done),
        )
    }
}

/// A bound on the steps that the frames on the stack still take by
/// themselves: one for each operand not looked at, and one to leave.
spec fn pending(frames: Seq<Frame>) -> nat
    decreases frames.len(),
{
    if frames.len() == 0 {
        0
    } else if frames.last().next <= 2 {
        (pending(frames.drop_last()) + 3 - frames.last().next) as nat
    } else {
        pending(frames.drop_last())
    }
}

/// Whether `x` is on the stack.
spec fn holds(frames: Seq<Frame>, x: usize) -> bool {
    exists|i: int| 0 <= i < frames.len() && (#[trigger] frames[i]).node == x
}

/// The positions below `n`.
spec fn below(n: nat) -> Set<usize> {
    Set::new(|x: usize| x < n)
}

proof fn lemma_below(n: nat)
    requires
        n <= usize::MAX + 1,
    ensures
        below(n).finite(),
        below(n).len() == n,
    decreases n,
{
    if n == 0 {
        assert(below(n) =~= Set::empty());
    } else {
        lemma_below((n - 1) as nat);
        assert(below(n) =~= below((n - 1) as nat).insert((n - 1) as usize));
    }
}

/// `visited` holds exactly the nodes that `done` lists, all of them among the
/// first `n`.
pub(crate) open spec fn marked(visited: Set<usize>, done: Seq<int>, n: nat) -> bool {
    &&& visited.finite()
    &&& forall|x: usize| #[trigger] visited.contains(x) ==> x < n && done.contains(x as int)
    &&& forall|i: int|
        0 <= i < done.len() ==> 0 <= #[trigger] done[i] < n && visited.contains(done[i] as usize)
}

/// Visits `root` depth-first, with an explicit stack: appends to `topo` the
/// nodes that `root` depends on and `topo` does not list yet, each after its
/// operands, and `root` last. `visited` holds the nodes entered so far.
pub(crate) fn build_topo<T: Scalar>(
    g: &Graph<T>,
    root: &ValueRef,
    visited: &mut HashSet<usize>,
    topo: &mut Vec<ValueRef>,
)
    requires
        g.wf(),
        root.valid_in(g),
        marked(old(visited)@, ValueRef::positions(old(topo)@), g@.len()),
    ensures
        ValueRef::positions(final(topo)@) == Graph::<T>::visit(
            g@,
            root@,
            ValueRef::positions(old(topo)@),
        ),
        marked(final(visited)@, ValueRef::positions(final(topo)@), g@.len()),
{
    let n: usize = g.len();
    let start: usize = root.index();
    let ghost goal = Graph::<T>::visit(g@, root@, ValueRef::positions(topo@));
    let ghost mut done: Seq<int> = ValueRef::positions(topo@);
    if visited.contains(&start) {
        return ;
    }
    let ghost seen = visited@;
    visited.insert(start);
    let mut stack: Vec<Frame> = Vec::new();
    stack.push(Frame { node: start, next: 0 });
    proof {
        assert(stack@.drop_last() =~= Seq::<Frame>::empty());
        assert(unwind(g@, stack@.drop_last(), goal) == goal);
        assert(unwind(g@, stack@, done) == goal);
        assert(stack@[0].node == start);
        assert forall|x: usize| #[trigger] visited@.contains(x) implies x < n && (done.contains(
            x as int,
        ) || holds(stack@, x)) by {
            if x != start {
                assert(seen.contains(x));
            }
        }
        lemma_below(n as nat);
        vstd::set_lib::lemma_len_subset(visited@, below(n as nat));
    }
    while stack.len() > 0
        invariant
            g.wf(),
            n == g@.len(),
            done == ValueRef::positions(topo@),
            unwind(g@, stack@, done) == goal,
            forall|i: int|
                0 <= i < stack@.len() ==> (#[trigger] stack@[i]).node < n && stack@[i].next
                    <= Graph::<T>::parents(g@, stack@[i].node as int).len(),
            forall|i: int, j: int|
                0 <= i < j < stack@.len() ==> (#[trigger] stack@[i]).node > (
                #[trigger] stack@[j]).node,
            visited@.finite(),
            forall|x: usize| #[trigger]
                visited@.contains(x) ==> x < n && (done.contains(x as int) || holds(stack@, x)),
            forall|i: int|
                0 <= i < done.len() ==> 0 <= #[trigger] done[i] < n && visited@.contains(
                    done[i] as usize,
                ),
            forall|i: int|
                0 <= i < stack@.len() ==> visited@.contains((#[trigger] stack@[i]).node)
                    && !done.contains(stack@[i].node as int),
            visited@.len() <= n,
        decreases n - visited@.len(), pending(stack@),
    {
        let last: usize = stack.len() - 1;
        let frame = stack[last];
        let ghost frames = stack@;
        let ghost rest = stack@.drop_last();
        let ghost parents = Graph::<T>::parents(g@, frame.node as int);
        proof {
            assert(parents.len() <= 2);
            assert(pending(frames) == pending(rest) + 3 - frame.next);
            assert(unwind(g@, frames, done) == unwind(
                g@,
                rest,
                Graph::<T>::visit_rest(g@, frame.node as int, frame.next as int, done),
            ));
        }
        match g.node(frame.node).op.operand(frame.next) {
            None => {
                stack.pop();
                topo.push(ValueRef::at(frame.node));
                proof {
                    assert(stack@ =~= rest);
                    let left = done.push(frame.node as int);
                    assert(ValueRef::positions(topo@) =~= left);
                    assert(Graph::<T>::visit_rest(g@, frame.node as int, frame.next as int, done)
                        == left);
                    assert forall|x: usize| #[trigger] visited@.contains(x) implies x < n && (
                    left.contains(x as int) || holds(stack@, x)) by {
                        if done.contains(x as int) {
                            let i = choose|i: int| 0 <= i < done.len() && done[i] == x as int;
                            assert(left[i] == x as int);
                        } else {
                            assert(holds(frames, x));
                            let i = choose|i: int|
                                0 <= i < frames.len() && (#[trigger] frames[i]).node == x;
                            if i == last {
                                assert(left[done.len() as int] == x as int);
                            } else {
                                assert(stack@[i].node == x);
                            }
                        }
                    }
                    assert forall|i: int| 0 <= i < left.len() implies 0 <= #[trigger] left[i] < n
                        && visited@.contains(left[i] as usize) by {
                        if i < done.len() {
                            assert(left[i] == done[i]);
                        } else {
                            assert(left[i] == frames[last as int].node);
                        }
                    }
                    assert forall|i: int| 0 <= i < stack@.len() implies visited@.contains(
                        (#[trigger] stack@[i]).node,
                    ) && !left.contains(stack@[i].node as int) by {
                        assert(stack@[i] == frames[i]);
                        assert(frames[i].node > frames[last as int].node);
                        if left.contains(stack@[i].node as int) {
                            let j = choose|j: int|
                                0 <= j < left.len() && left[j] == stack@[i].node as int;
                            if j < done.len() {
                                assert(done[j] == stack@[i].node as int);
                            }
                        }
                    }
                    done = left;
                }
            },
            Some(parent) => {
                proof {
                    assert(Graph::<T>::node_ok(g@, frame.node as int));
                    assert(0 <= parents[frame.next as int] < frame.node);
                    assert(Graph::<T>::visit_rest(g@, frame.node as int, frame.next as int, done)
                        == Graph::<T>::visit_rest(
                        g@,
                        frame.node as int,
                        frame.next + 1,
                        Graph::<T>::visit(g@, parent as int, done),
                    ));
                }
                let moved = Frame { node: frame.node, next: frame.next + 1 };
                stack.set(last, moved);
                let ghost advanced = stack@;
                proof {
                    assert(advanced.drop_last() =~= rest);
                    assert(pending(advanced) == pending(rest) + 3 - moved.next);
                    assert(unwind(g@, advanced, done) == unwind(
                        g@,
                        rest,
                        Graph::<T>::visit_rest(g@, frame.node as int, frame.next + 1, done),
                    ));
                    assert forall|x: usize| holds(frames, x) implies #[trigger] holds(
                        advanced,
                        x,
                    ) by {
                        let i = choose|i: int|
                            0 <= i < frames.len() && (#[trigger] frames[i]).node == x;
                        assert(advanced[i].node == x);
                    }
                    assert forall|i: int| 0 <= i < advanced.len() implies (
                    #[trigger] advanced[i]).node == frames[i].node by {}
                }
                if visited.contains(&parent) {
                    proof {
                        if !done.contains(parent as int) {
                            assert(holds(frames, parent));
                            let i = choose|i: int|
                                0 <= i < frames.len() && (#[trigger] frames[i]).node == parent;
                            assert(frames[i].node >= frames[last as int].node);
                        }
                        assert(Graph::<T>::visit(g@, parent as int, done) == done);
                    }
                } else {
                    let ghost seen = visited@;
                    visited.insert(parent);
                    stack.push(Frame { node: parent, next: 0 });
                    proof {
                        assert(stack@.drop_last() =~= advanced);
                        if done.contains(parent as int) {
                            let i = choose|i: int| 0 <= i < done.len() && done[i] == parent as int;
                            assert(seen.contains(done[i] as usize));
                        }
                        assert(Graph::<T>::visit(g@, parent as int, done) == Graph::<
                            T,
                        >::visit_rest(g@, parent as int, 0, done));
                        assert(unwind(g@, stack@, done) == unwind(
                            g@,
                            advanced,
                            Graph::<T>::visit_rest(g@, parent as int, 0, done),
                        ));
                        assert(unwind(
                            g@,
                            advanced,
                            Graph::<T>::visit(g@, parent as int, done),
                        ) == unwind(
                            g@,
                            rest,
                            Graph::<T>::visit_rest(
                                g@,
                                frame.node as int,
                                frame.next + 1,
                                Graph::<T>::visit(g@, parent as int, done),
                            ),
                        ));
                        assert(pending(stack@) == pending(advanced) + 3);
                        assert forall|x: usize| #[trigger] visited@.contains(x) implies x < n && (
                        done.contains(x as int) || holds(stack@, x)) by {
                            if x == parent {
                                assert(stack@[stack@.len() - 1].node == x);
                            } else {
                                assert(seen.contains(x));
                                if holds(frames, x) {
                                    assert(holds(advanced, x));
                                    let i = choose|i: int|
                                        0 <= i < advanced.len() && (#[trigger] advanced[i]).node
                                            == x;
                                    assert(stack@[i].node == x);
                                }
                            }
                        }
                        assert forall|i: int| 0 <= i < stack@.len() implies visited@.contains(
                            (#[trigger] stack@[i]).node,
                        ) && !done.contains(stack@[i].node as int) by {
                            if i < advanced.len() {
                                assert(stack@[i] == advanced[i]);
                                assert(advanced[i].node == frames[i].node);
                            }
                        }
                        assert forall|i: int, j: int| 0 <= i < j < stack@.len() implies (
                        #[trigger] stack@[i]).node > (#[trigger] stack@[j]).node by {
                            assert(stack@[i] == advanced[i]);
                            assert(advanced[i].node == frames[i].node);
                            assert(frames[i].node >= frames[last as int].node);
                            if j < advanced.len() {
                                assert(stack@[j] == advanced[j]);
                                assert(advanced[j].node == frames[j].node);
                            }
                        }
                        assert(visited@.len() == seen.len() + 1);
                        lemma_below(n as nat);
                        vstd::set_lib::lemma_len_subset(visited@, below(n as nat));
                    }
                }
            },
        }
    }
}

impl ValueRef {
    /// The nodes that this one depends on, itself included, in topological
    /// order: depth-first post-order, every node once and after its operands,
    /// this node last. The graph is left as it is.
    pub fn get_parents_topo_sort<T: Scalar>(&self, g: &Graph<T>) -> (topo: Vec<ValueRef>)
        requires
            g.wf(),
            self.valid_in(g),
        ensures
            ValueRef::positions(topo@) == Graph::<T>::order(g@, self@),
            Graph::<T>::topological(g@, ValueRef::positions(topo@)),
            forall|x: int| #[trigger]
                ValueRef::positions(topo@).contains(x) <==> Graph::<T>::reaches(g@, self@, x),
            topo@.len() > 0,
            topo@.last()@ == self@,
            forall|i: int| 0 <= i < topo@.len() ==> (#[trigger] topo@[i]).valid_in(g),
    {
        let mut topo: Vec<ValueRef> = Vec::new();
        let mut visited: HashSet<usize> = HashSet::new();
        proof {
            assert(ValueRef::positions(topo@) =~= Seq::<int>::empty());
        }
        build_topo(g, self, &mut visited, &mut topo);
        proof {
            Graph::<T>::lemma_order(g@, self@);
            assert(ValueRef::positions(topo@).contains(self@));
            assert(ValueRef::positions(topo@).last() == topo@.last()@);
            assert forall|i: int| 0 <= i < topo@.len() implies (#[trigger] topo@[i]).valid_in(
                g,
            ) by {
                assert(ValueRef::positions(topo@)[i] == topo@[i]@);
            }
        }
        topo
    }
}

} // verus!
