use crate::graph::{Graph, Node, Op};
use crate::scalar::Scalar;
use vstd::prelude::*;

verus! {

/// A handle to one node of a graph. Copies of a handle name the same node.
#[derive(Clone, Copy, Debug)]
pub struct ValueRef {
    index: usize,
}

impl View for ValueRef {
    type V = int;

    /// The position of the node in its graph.
    closed spec fn view(&self) -> int {
        self.index as int
    }
}

impl ValueRef {
    /// The handle of the node at `index`.
    pub(crate) fn at(index: usize) -> (r: ValueRef)
        ensures
            r@ == index,
    {
        ValueRef { index }
    }

    /// The position of the node in its graph: its identity among the nodes.
    pub fn index(&self) -> (index: usize)
        ensures
            index == self@,
    {
        self.index
    }

    /// The positions that a sequence of handles names.
    pub open spec fn positions(handles: Seq<ValueRef>) -> Seq<int> {
        handles.map_values(|r: ValueRef| r@)
    }

    /// The handle names a node of `g`.
    pub open spec fn valid_in<T: Scalar>(&self, g: &Graph<T>) -> bool {
        0 <= self@ < g@.len()
    }

    /// Makes a leaf of value `data`.
    pub fn new<T: Scalar>(g: &mut Graph<T>, data: T) -> (r: ValueRef)
        requires
            old(g).wf(),
        ensures
            final(g)@ == Graph::<T>::with_leaf(old(g)@, data),
            r@ == old(g)@.len(),
            final(g).wf(),
    {
        let index = g.push(Node { value: data, grad: T::zero(), op: Op::Leaf });
        ValueRef { index }
    }

    /// The value of the node.
    pub fn data<T: Scalar>(&self, g: &Graph<T>) -> (x: T)
        requires
            self.valid_in(g),
        ensures
            x == g@[self@].value,
    {
        g.node(self.index).value
    }

    /// The gradient that the node holds.
    pub fn grad<T: Scalar>(&self, g: &Graph<T>) -> (x: T)
        requires
            self.valid_in(g),
        ensures
            x == g@[self@].grad,
    {
        g.node(self.index).grad
    }

    /// The operation that made the node.
    pub fn op<T: Scalar>(&self, g: &Graph<T>) -> (op: Op<T>)
        requires
            self.valid_in(g),
        ensures
            op == g@[self@].op,
    {
        g.node(self.index).op
    }

    /// Replaces the gradient of the node.
    pub fn set_grad<T: Scalar>(&self, g: &mut Graph<T>, new_grad: T)
        requires
            old(g).wf(),
            self.valid_in(old(g)),
        ensures
            final(g)@ == Graph::<T>::with_grad(old(g)@, self@, new_grad),
            final(g).wf(),
    {
        g.put_grad(self.index, new_grad);
    }

    /// Adds `sum_to_grad` to the gradient of the node.
    pub fn add_to_grad<T: Scalar>(&self, g: &mut Graph<T>, sum_to_grad: T)
        requires
            old(g).wf(),
            self.valid_in(old(g)),
        ensures
            final(g)@ == Graph::<T>::bumped(old(g)@, self@, sum_to_grad),
            final(g).wf(),
    {
        let grad = self.grad(g);
        self.set_grad(g, grad.plus(&sum_to_grad));
    }

    /// The sum of two nodes, as a new node with them as its operands.
    pub fn add<T: Scalar>(&self, g: &mut Graph<T>, rhs: &ValueRef) -> (r: ValueRef)
        requires
            old(g).wf(),
            self.valid_in(old(g)),
            rhs.valid_in(old(g)),
        ensures
            final(g)@ == Graph::<T>::with_sum(old(g)@, self@, rhs@),
            r@ == old(g)@.len(),
            final(g).wf(),
    {
        let value = self.data(g).plus(&rhs.data(g));
        let index = g.push(Node { value, grad: T::zero(), op: Op::Add(self.index, rhs.index) });
        ValueRef { index }
    }

    /// The product of two nodes, as a new node with them as its operands.
    pub fn mul<T: Scalar>(&self, g: &mut Graph<T>, rhs: &ValueRef) -> (r: ValueRef)
        requires
            old(g).wf(),
            self.valid_in(old(g)),
            rhs.valid_in(old(g)),
        ensures
            final(g)@ == Graph::<T>::with_product(old(g)@, self@, rhs@),
            r@ == old(g)@.len(),
            final(g).wf(),
    {
        let value = self.data(g).times(&rhs.data(g));
        let index = g.push(Node { value, grad: T::zero(), op: Op::Mul(self.index, rhs.index) });
        ValueRef { index }
    }

    /// The negation of a node, as a new node with it as its operand.
    pub fn neg<T: Scalar>(&self, g: &mut Graph<T>) -> (r: ValueRef)
        requires
            old(g).wf(),
            self.valid_in(old(g)),
        ensures
            final(g)@ == Graph::<T>::with_negation(old(g)@, self@),
            r@ == old(g)@.len(),
            final(g).wf(),
    {
        let value = self.data(g).negated();
        let index = g.push(Node { value, grad: T::zero(), op: Op::Neg(self.index) });
        ValueRef { index }
    }

    /// A node raised to the power `exp`, as a new node with it as its operand.
    pub fn pow<T: Scalar>(&self, g: &mut Graph<T>, exp: T) -> (r: ValueRef)
        requires
            old(g).wf(),
            self.valid_in(old(g)),
        ensures
            final(g)@ == Graph::<T>::with_power(old(g)@, self@, exp),
            r@ == old(g)@.len(),
            final(g).wf(),
    {
        let value = self.data(g).power(&exp);
        let index = g.push(Node { value, grad: T::zero(), op: Op::Pow(self.index, exp) });
        ValueRef { index }
    }

    /// A node where it is positive and zero elsewhere, as a new node with it
    /// as its operand.
    pub fn relu<T: Scalar>(&self, g: &mut Graph<T>) -> (r: ValueRef)
        requires
            old(g).wf(),
            self.valid_in(old(g)),
        ensures
            final(g)@ == Graph::<T>::with_relu(old(g)@, self@),
            r@ == old(g)@.len(),
            final(g).wf(),
    {
        let data = self.data(g);
        let value = if data.is_positive() {
            data
        } else {
            T::zero()
        };
        let index = g.push(Node { value, grad: T::zero(), op: Op::Relu(self.index) });
        ValueRef { index }
    }

    /// The difference of two nodes, built as the sum of the first and the
    /// negation of the second: two new nodes, the negation before the sum.
    pub fn sub<T: Scalar>(&self, g: &mut Graph<T>, rhs: &ValueRef) -> (r: ValueRef)
        requires
            old(g).wf(),
            self.valid_in(old(g)),
            rhs.valid_in(old(g)),
        ensures
            final(g)@ == Graph::<T>::with_sum(
                Graph::<T>::with_negation(old(g)@, rhs@),
                self@,
                old(g)@.len() as int,
            ),
            r@ == old(g)@.len() + 1,
            final(g).wf(),
    {
        let negated = rhs.neg(g);
        self.add(g, &negated)
    }

    /// The quotient of two nodes, built as the product of the first and the
    /// second raised to the power minus one: two new nodes, the power before
    /// the product.
    pub fn div<T: Scalar>(&self, g: &mut Graph<T>, rhs: &ValueRef) -> (r: ValueRef)
        requires
            old(g).wf(),
            self.valid_in(old(g)),
            rhs.valid_in(old(g)),
        ensures
            final(g)@ == Graph::<T>::with_product(
                Graph::<T>::with_power(old(g)@, rhs@, T::one_spec().neg_spec()),
                self@,
                old(g)@.len() as int,
            ),
            r@ == old(g)@.len() + 1,
            final(g).wf(),
    {
        let inverse = rhs.pow(g, T::one().negated());
        self.mul(g, &inverse)
    }

    /// The sum of the node and the number `rhs`, which becomes a leaf first.
    pub fn add_scalar<T: Scalar>(&self, g: &mut Graph<T>, rhs: T) -> (r: ValueRef)
        requires
            old(g).wf(),
            self.valid_in(old(g)),
        ensures
            final(g)@ == Graph::<T>::with_sum(
                Graph::<T>::with_leaf(old(g)@, rhs),
                self@,
                old(g)@.len() as int,
            ),
            r@ == old(g)@.len() + 1,
            final(g).wf(),
    {
        let leaf = ValueRef::new(g, rhs);
        self.add(g, &leaf)
    }

    /// The sum of the number `lhs` and the node: the same graph as the sum of
    /// the node and the number.
    pub fn radd<T: Scalar>(&self, g: &mut Graph<T>, lhs: T) -> (r: ValueRef)
        requires
            old(g).wf(),
            self.valid_in(old(g)),
        ensures
            final(g)@ == Graph::<T>::with_sum(
                Graph::<T>::with_leaf(old(g)@, lhs),
                self@,
                old(g)@.len() as int,
            ),
            r@ == old(g)@.len() + 1,
            final(g).wf(),
    {
        self.add_scalar(g, lhs)
    }

    /// The node less the number `rhs`, which becomes a leaf first.
    pub fn sub_scalar<T: Scalar>(&self, g: &mut Graph<T>, rhs: T) -> (r: ValueRef)
        requires
            old(g).wf(),
            self.valid_in(old(g)),
        ensures
            final(g)@ == Graph::<T>::with_sum(
                Graph::<T>::with_negation(
                    Graph::<T>::with_leaf(old(g)@, rhs),
                    old(g)@.len() as int,
                ),
                self@,
                old(g)@.len() as int + 1,
            ),
            r@ == old(g)@.len() + 2,
            final(g).wf(),
    {
        let leaf = ValueRef::new(g, rhs);
        self.sub(g, &leaf)
    }

    /// The number `lhs`, which becomes a leaf first, less the node.
    pub fn rsub<T: Scalar>(&self, g: &mut Graph<T>, lhs: T) -> (r: ValueRef)
        requires
            old(g).wf(),
            self.valid_in(old(g)),
        ensures
            final(g)@ == Graph::<T>::with_sum(
                Graph::<T>::with_negation(Graph::<T>::with_leaf(old(g)@, lhs), self@),
                old(g)@.len() as int,
                old(g)@.len() as int + 1,
            ),
            r@ == old(g)@.len() + 2,
            final(g).wf(),
    {
        let leaf = ValueRef::new(g, lhs);
        leaf.sub(g, self)
    }

    /// The product of the node and the number `rhs`, which becomes a leaf
    /// first.
    pub fn mul_scalar<T: Scalar>(&self, g: &mut Graph<T>, rhs: T) -> (r: ValueRef)
        requires
            old(g).wf(),
            self.valid_in(old(g)),
        ensures
            final(g)@ == Graph::<T>::with_product(
                Graph::<T>::with_leaf(old(g)@, rhs),
                self@,
                old(g)@.len() as int,
            ),
            r@ == old(g)@.len() + 1,
            final(g).wf(),
    {
        let leaf = ValueRef::new(g, rhs);
        self.mul(g, &leaf)
    }

    /// The product of the number `lhs` and the node: the same graph as the
    /// product of the node and the number.
    pub fn rmul<T: Scalar>(&self, g: &mut Graph<T>, lhs: T) -> (r: ValueRef)
        requires
            old(g).wf(),
            self.valid_in(old(g)),
        ensures
            final(g)@ == Graph::<T>::with_product(
                Graph::<T>::with_leaf(old(g)@, lhs),
                self@,
                old(g)@.len() as int,
            ),
            r@ == old(g)@.len() + 1,
            final(g).wf(),
    {
        self.mul_scalar(g, lhs)
    }

    /// The node divided by the number `rhs`, which becomes a leaf first.
    pub fn div_scalar<T: Scalar>(&self, g: &mut Graph<T>, rhs: T) -> (r: ValueRef)
        requires
            old(g).wf(),
            self.valid_in(old(g)),
        ensures
            final(g)@ == Graph::<T>::with_product(
                Graph::<T>::with_power(
                    Graph::<T>::with_leaf(old(g)@, rhs),
                    old(g)@.len() as int,
                    T::one_spec().neg_spec(),
                ),
                self@,
                old(g)@.len() as int + 1,
            ),
            r@ == old(g)@.len() + 2,
            final(g).wf(),
    {
        let leaf = ValueRef::new(g, rhs);
        self.div(g, &leaf)
    }

    /// The number `lhs`, which becomes a leaf first, divided by the node.
    pub fn rdiv<T: Scalar>(&self, g: &mut Graph<T>, lhs: T) -> (r: ValueRef)
        requires
            old(g).wf(),
            self.valid_in(old(g)),
        ensures
            final(g)@ == Graph::<T>::with_product(
                Graph::<T>::with_power(
                    Graph::<T>::with_leaf(old(g)@, lhs),
                    self@,
                    T::one_spec().neg_spec(),
                ),
                old(g)@.len() as int,
                old(g)@.len() as int + 1,
            ),
            r@ == old(g)@.len() + 2,
            final(g).wf(),
    {
        let leaf = ValueRef::new(g, lhs);
        leaf.div(g, self)
    }
}

} // verus!
