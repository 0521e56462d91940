use scalargrad::graph::{Graph, Op};
use scalargrad::render;
use scalargrad::scalar::Scalar;
use scalargrad::value::ValueRef;

#[derive(Clone, Copy, Debug, PartialEq)]
struct Real(f64);

impl Scalar for Real {
    fn zero_spec() -> Real {
        Real(0.0)
    }

    fn one_spec() -> Real {
        Real(1.0)
    }

    fn add_spec(self, rhs: Real) -> Real {
        Real(self.0 + rhs.0)
    }

    fn mul_spec(self, rhs: Real) -> Real {
        Real(self.0 * rhs.0)
    }

    fn neg_spec(self) -> Real {
        Real(-self.0)
    }

    fn pow_spec(self, exp: Real) -> Real {
        Real(self.0.powf(exp.0))
    }

    fn positive_spec(self) -> bool {
        self.0 > 0.0
    }

    fn zero() -> Real {
        Real(0.0)
    }

    fn one() -> Real {
        Real(1.0)
    }

    fn plus(&self, rhs: &Real) -> Real {
        Real(self.0 + rhs.0)
    }

    fn times(&self, rhs: &Real) -> Real {
        Real(self.0 * rhs.0)
    }

    fn negated(&self) -> Real {
        Real(-self.0)
    }

    fn power(&self, exp: &Real) -> Real {
        Real(self.0.powf(exp.0))
    }

    fn is_positive(&self) -> bool {
        self.0 > 0.0
    }
}


fn leaf(g: &mut Graph<Real>, x: f64) -> ValueRef {
    ValueRef::new(g, Real(x))
}

fn indices(handles: &[ValueRef]) -> Vec<usize> {
    handles.iter().map(|h| h.index()).collect()
}

#[test]
fn test_leaf_starts_with_zero_gradient_and_no_operands() {
    let mut g: Graph<Real> = Graph::new();
    let a = leaf(&mut g, 7.5);
    assert_eq!(g.len(), 1);
    assert_eq!(a.index(), 0);
    assert_eq!(a.data(&g).0, 7.5);
    assert_eq!(a.grad(&g).0, 0.0);
    assert!(matches!(a.op(&g), Op::Leaf));
    assert_eq!(a.op(&g).operand(0), None);
}

#[test]
fn test_operations_record_their_operands_in_order() {
    let mut g: Graph<Real> = Graph::new();
    let a = leaf(&mut g, 6.0);
    let b = leaf(&mut g, 2.0);
    let s = a.add(&mut g, &b);
    let p = b.mul(&mut g, &a);
    let n = a.neg(&mut g);
    let w = a.pow(&mut g, Real(2.0));
    let r = b.relu(&mut g);
    assert!(matches!(s.op(&g), Op::Add(0, 1)));
    assert!(matches!(p.op(&g), Op::Mul(1, 0)));
    assert!(matches!(n.op(&g), Op::Neg(0)));
    assert!(matches!(w.op(&g), Op::Pow(0, Real(e)) if e == 2.0));
    assert!(matches!(r.op(&g), Op::Relu(1)));
    assert_eq!(s.op(&g).operand(0), Some(0));
    assert_eq!(s.op(&g).operand(1), Some(1));
    assert_eq!(s.op(&g).operand(2), None);
    assert_eq!(n.op(&g).operand(0), Some(0));
    assert_eq!(n.op(&g).operand(1), None);
    assert_eq!(n.data(&g).0, -6.0);
    assert_eq!(w.data(&g).0, 36.0);
    for v in [s, p, n, w, r] {
        assert_eq!(v.grad(&g).0, 0.0);
    }
}

#[test]
fn test_operation_symbols() {
    let mut g: Graph<Real> = Graph::new();
    let a = leaf(&mut g, 6.0);
    let s = a.add(&mut g, &a);
    let p = a.mul(&mut g, &a);
    let n = a.neg(&mut g);
    let w = a.pow(&mut g, Real(2.0));
    let r = a.relu(&mut g);
    assert_eq!(a.op(&g).symbol(), "");
    assert_eq!(s.op(&g).symbol(), "+");
    assert_eq!(p.op(&g).symbol(), "*");
    assert_eq!(n.op(&g).symbol(), "neg");
    assert_eq!(w.op(&g).symbol(), "pow");
    assert_eq!(r.op(&g).symbol(), "ReLU");
}

#[test]
fn test_sub_builds_negation_then_sum() {
    let mut g: Graph<Real> = Graph::new();
    let a = leaf(&mut g, 5.0);
    let b = leaf(&mut g, 3.0);
    let d = a.sub(&mut g, &b);
    assert_eq!(g.len(), 4);
    assert_eq!(d.index(), 3);
    assert!(matches!(g.node(2).op, Op::Neg(1)));
    assert_eq!(g.node(2).value.0, -3.0);
    assert!(matches!(d.op(&g), Op::Add(0, 2)));
    assert_eq!(d.data(&g).0, 2.0);
}

#[test]
fn test_div_builds_power_then_product() {
    let mut g: Graph<Real> = Graph::new();
    let a = leaf(&mut g, 6.0);
    let b = leaf(&mut g, 2.0);
    let q = a.div(&mut g, &b);
    assert_eq!(g.len(), 4);
    assert!(matches!(g.node(2).op, Op::Pow(1, Real(e)) if e == -1.0));
    assert_eq!(g.node(2).value.0, 0.5);
    assert!(matches!(q.op(&g), Op::Mul(0, 2)));
    assert_eq!(q.data(&g).0, 3.0);
}

#[test]
fn test_literals_become_leaves() {
    let mut g: Graph<Real> = Graph::new();
    let a = leaf(&mut g, 3.0);
    let s = a.add_scalar(&mut g, Real(2.0));
    assert_eq!(g.len(), 3);
    assert!(matches!(g.node(1).op, Op::Leaf));
    assert_eq!(g.node(1).value.0, 2.0);
    assert!(matches!(s.op(&g), Op::Add(0, 1)));
    let r = a.radd(&mut g, Real(4.0));
    assert!(matches!(r.op(&g), Op::Add(0, 3)));
    assert_eq!(r.data(&g).0, 7.0);
    let d = a.rsub(&mut g, Real(10.0));
    assert_eq!(d.data(&g).0, 7.0);
    assert!(matches!(d.op(&g), Op::Add(5, 6)));
    assert!(matches!(g.node(6).op, Op::Neg(0)));
    let q = a.rdiv(&mut g, Real(1.5));
    assert_eq!(q.data(&g).0, 1.5 * 3.0f64.powf(-1.0));
    assert!(matches!(q.op(&g), Op::Mul(8, 9)));
    assert!(matches!(g.node(9).op, Op::Pow(0, _)));
    let m = a.rmul(&mut g, Real(0.5));
    assert_eq!(m.data(&g).0, 1.5);
    let t = a.sub_scalar(&mut g, Real(0.5));
    assert_eq!(t.data(&g).0, 2.5);
    let u = a.div_scalar(&mut g, Real(4.0));
    assert_eq!(u.data(&g).0, 0.75);
    let v = a.mul_scalar(&mut g, Real(4.0));
    assert_eq!(v.data(&g).0, 12.0);
}

#[test]
fn test_gradient_reaches_a_literal() {
    let mut g: Graph<Real> = Graph::new();
    let a = leaf(&mut g, 3.0);
    let p = a.mul_scalar(&mut g, Real(2.0));
    p.backward(&mut g);
    assert_eq!(a.grad(&g).0, 2.0);
    assert_eq!(g.node(1).grad.0, 3.0);
}

#[test]
fn test_set_grad_and_add_to_grad() {
    let mut g: Graph<Real> = Graph::new();
    let a = leaf(&mut g, 1.0);
    let b = leaf(&mut g, 2.0);
    a.set_grad(&mut g, Real(4.0));
    assert_eq!(a.grad(&g).0, 4.0);
    assert_eq!(b.grad(&g).0, 0.0);
    a.add_to_grad(&mut g, Real(0.5));
    a.add_to_grad(&mut g, Real(0.25));
    assert_eq!(a.grad(&g).0, 4.75);
    assert_eq!(a.data(&g).0, 1.0);
    assert_eq!(b.grad(&g).0, 0.0);
}

#[test]
fn test_topo_sort_of_a_leaf() {
    let mut g: Graph<Real> = Graph::new();
    let _other = leaf(&mut g, 1.0);
    let a = leaf(&mut g, 2.0);
    assert_eq!(indices(&a.get_parents_topo_sort(&g)), vec![1]);
}

#[test]
fn test_topo_sort_is_depth_first_post_order() {
    let mut g: Graph<Real> = Graph::new();
    let a = leaf(&mut g, 1.0);
    let b = leaf(&mut g, 2.0);
    let c = leaf(&mut g, 3.0);
    let bc = b.mul(&mut g, &c);
    let ab = a.add(&mut g, &b);
    let root = bc.add(&mut g, &ab);
    assert_eq!(indices(&root.get_parents_topo_sort(&g)), vec![1, 2, 3, 0, 4, 5]);
    assert_eq!(indices(&ab.get_parents_topo_sort(&g)), vec![0, 1, 4]);
    assert_eq!(indices(&root.get_parents_topo_sort(&g)), vec![1, 2, 3, 0, 4, 5]);
}

#[test]
fn test_topo_sort_lists_a_shared_node_once() {
    let mut g: Graph<Real> = Graph::new();
    let a = leaf(&mut g, 3.0);
    let twice = a.add(&mut g, &a);
    let square = a.mul(&mut g, &a);
    let root = twice.mul(&mut g, &square);
    assert_eq!(indices(&twice.get_parents_topo_sort(&g)), vec![0, 1]);
    assert_eq!(indices(&root.get_parents_topo_sort(&g)), vec![0, 1, 2, 3]);
}

#[test]
fn test_topo_sort_tells_nodes_of_equal_value_apart() {
    let mut g: Graph<Real> = Graph::new();
    let a = leaf(&mut g, 1.0);
    let b = leaf(&mut g, 1.0);
    let s = a.add(&mut g, &b);
    assert_eq!(indices(&s.get_parents_topo_sort(&g)), vec![0, 1, 2]);
    s.backward(&mut g);
    assert_eq!(a.grad(&g).0, 1.0);
    assert_eq!(b.grad(&g).0, 1.0);
}

#[test]
fn test_topo_sort_leaves_the_graph_alone() {
    let mut g: Graph<Real> = Graph::new();
    let a = leaf(&mut g, 1.0);
    let b = a.add(&mut g, &a);
    b.backward(&mut g);
    let _ = b.get_parents_topo_sort(&g);
    assert_eq!(g.len(), 2);
    assert_eq!(a.grad(&g).0, 2.0);
    assert_eq!(b.grad(&g).0, 1.0);
}

#[test]
fn test_propagate_each_rule() {
    let mut g: Graph<Real> = Graph::new();
    let a = leaf(&mut g, 3.0);
    let b = leaf(&mut g, -4.0);
    let s = a.add(&mut g, &b);
    let p = a.mul(&mut g, &b);
    let n = a.neg(&mut g);
    let w = a.pow(&mut g, Real(3.0));
    let r = a.relu(&mut g);
    let q = b.relu(&mut g);

    s.set_grad(&mut g, Real(2.0));
    s.propagate(&mut g);
    assert_eq!((a.grad(&g).0, b.grad(&g).0), (2.0, 2.0));

    p.set_grad(&mut g, Real(10.0));
    p.propagate(&mut g);
    assert_eq!((a.grad(&g).0, b.grad(&g).0), (2.0 + -4.0 * 10.0, 2.0 + 3.0 * 10.0));

    a.set_grad(&mut g, Real(0.0));
    b.set_grad(&mut g, Real(0.0));
    n.set_grad(&mut g, Real(5.0));
    n.propagate(&mut g);
    assert_eq!(a.grad(&g).0, -5.0);

    a.set_grad(&mut g, Real(1.0));
    w.set_grad(&mut g, Real(2.0));
    w.propagate(&mut g);
    assert_eq!(a.grad(&g).0, 1.0 + 3.0 * 9.0 * 2.0);

    a.set_grad(&mut g, Real(0.5));
    r.set_grad(&mut g, Real(7.0));
    r.propagate(&mut g);
    assert_eq!(a.grad(&g).0, 7.5);

    b.set_grad(&mut g, Real(0.5));
    q.set_grad(&mut g, Real(7.0));
    q.propagate(&mut g);
    assert_eq!(b.grad(&g).0, 0.5);

    a.set_grad(&mut g, Real(9.0));
    a.propagate(&mut g);
    assert_eq!(a.grad(&g).0, 9.0);
    assert_eq!(s.grad(&g).0, 2.0);
}

#[test]
fn test_end_to_end() {
    let mut g: Graph<Real> = Graph::new();
    let x = leaf(&mut g, 2.0);
    let w = leaf(&mut g, 1.0);
    let b = leaf(&mut g, 3.0);
    let xw = x.mul(&mut g, &w);
    let y = xw.add(&mut g, &b);
    assert_eq!(y.data(&g).0, 5.0);

    let i = leaf(&mut g, 1.5);
    let j = leaf(&mut g, 4.0);
    let ij = i.mul(&mut g, &j);
    let xx = x.mul(&mut g, &x);
    let k = ij.add(&mut g, &xx);
    assert_eq!(k.data(&g).0, 10.0);

    let result = k.mul(&mut g, &y);
    assert_eq!(result.data(&g).0, 50.0);

    result.backward(&mut g);

    assert_eq!(x.grad(&g).0, 30.0);
    assert_eq!(w.grad(&g).0, 20.0);
    assert_eq!(b.grad(&g).0, 10.0);
    assert_eq!(i.grad(&g).0, 20.0);
    assert_eq!(j.grad(&g).0, 7.5);
    assert_eq!(result.grad(&g).0, 1.0);
    assert_eq!(k.grad(&g).0, 5.0);
    assert_eq!(y.grad(&g).0, 10.0);
}

#[test]
fn test_backward_twice_gives_the_same() {
    let mut g: Graph<Real> = Graph::new();
    let a = leaf(&mut g, 3.0);
    let b = leaf(&mut g, 4.0);
    let ab = a.mul(&mut g, &b);
    let c = ab.add(&mut g, &a);
    c.backward(&mut g);
    assert_eq!((a.grad(&g).0, b.grad(&g).0), (5.0, 3.0));
    c.backward(&mut g);
    assert_eq!((a.grad(&g).0, b.grad(&g).0), (5.0, 3.0));
    ab.backward(&mut g);
    assert_eq!((a.grad(&g).0, b.grad(&g).0), (4.0, 3.0));
    assert_eq!(ab.grad(&g).0, 1.0);
}

#[test]
fn test_backward_leaves_other_nodes_alone() {
    let mut g: Graph<Real> = Graph::new();
    let a = leaf(&mut g, 3.0);
    let b = leaf(&mut g, 4.0);
    let aside = leaf(&mut g, 5.0);
    let ab = a.mul(&mut g, &b);
    let above = ab.add(&mut g, &aside);
    aside.set_grad(&mut g, Real(0.125));
    above.set_grad(&mut g, Real(0.25));
    ab.backward(&mut g);
    assert_eq!(aside.grad(&g).0, 0.125);
    assert_eq!(above.grad(&g).0, 0.25);
    assert_eq!(ab.grad(&g).0, 1.0);
    assert_eq!(a.grad(&g).0, 4.0);
    assert_eq!(a.data(&g).0, 3.0);
    assert_eq!(ab.data(&g).0, 12.0);
    assert_eq!(g.len(), 5);
}

#[test]
fn test_backward_of_a_leaf() {
    let mut g: Graph<Real> = Graph::new();
    let a = leaf(&mut g, 3.0);
    a.backward(&mut g);
    assert_eq!(a.grad(&g).0, 1.0);
}

#[test]
fn test_diamond_gathers_before_handing_on() {
    let mut g: Graph<Real> = Graph::new();
    let a = leaf(&mut g, 2.0);
    let m = a.mul_scalar(&mut g, Real(3.0));
    let left = m.mul(&mut g, &m);
    let right = m.add_scalar(&mut g, Real(1.0));
    let root = left.add(&mut g, &right);
    assert_eq!(root.data(&g).0, 43.0);
    root.backward(&mut g);
    assert_eq!(m.grad(&g).0, 13.0);
    assert_eq!(a.grad(&g).0, 39.0);
}

#[test]
fn test_clear_grads_after_backward() {
    let mut g: Graph<Real> = Graph::new();
    let a = leaf(&mut g, 1.0);
    let b = leaf(&mut g, 2.0);
    let s = a.add(&mut g, &b);
    let c = s.mul(&mut g, &a);
    c.backward(&mut g);
    assert_eq!(a.grad(&g).0, 4.0);
    c.clear_grads(&mut g);
    for v in [a, b, s, c] {
        assert_eq!(v.grad(&g).0, 0.0);
    }
    c.clear_grads(&mut g);
    for v in [a, b, s, c] {
        assert_eq!(v.grad(&g).0, 0.0);
    }
    assert_eq!(c.data(&g).0, 3.0);
}

#[test]
fn test_clear_grads_keeps_what_the_root_does_not_read() {
    let mut g: Graph<Real> = Graph::new();
    let a = leaf(&mut g, 1.0);
    let b = leaf(&mut g, 2.0);
    let s = a.add(&mut g, &b);
    let c = s.mul(&mut g, &a);
    c.backward(&mut g);
    a.clear_grads(&mut g);
    assert_eq!(a.grad(&g).0, 0.0);
    assert_eq!(b.grad(&g).0, 1.0);
    assert_eq!(s.grad(&g).0, 1.0);
    assert_eq!(c.grad(&g).0, 1.0);
}

#[test]
fn test_relu_at_zero() {
    let mut g: Graph<Real> = Graph::new();
    let a = leaf(&mut g, 0.0);
    let r = a.relu(&mut g);
    assert_eq!(r.data(&g).0, 0.0);
    r.backward(&mut g);
    assert_eq!(a.grad(&g).0, 0.0);
    assert_eq!(r.grad(&g).0, 1.0);
}

#[test]
fn test_neg_backward() {
    let mut g: Graph<Real> = Graph::new();
    let a = leaf(&mut g, 2.0);
    let n = a.neg(&mut g);
    let r = n.mul_scalar(&mut g, Real(3.0));
    assert_eq!(r.data(&g).0, -6.0);
    r.backward(&mut g);
    assert_eq!(a.grad(&g).0, -3.0);
}

#[test]
fn test_pow_backward() {
    let mut g: Graph<Real> = Graph::new();
    let a = leaf(&mut g, 3.0);
    let p = a.pow(&mut g, Real(2.0));
    assert_eq!(p.data(&g).0, 9.0);
    p.backward(&mut g);
    assert_eq!(a.grad(&g).0, 6.0);
}

#[test]
fn test_pow_minus_one_is_the_reciprocal() {
    let mut g: Graph<Real> = Graph::new();
    let a = leaf(&mut g, 4.0);
    let p = a.pow(&mut g, Real(-1.0));
    assert_eq!(p.data(&g).0, 1.0 / 4.0);
    p.backward(&mut g);
    assert_eq!(a.grad(&g).0, -0.0625);
}

#[test]
fn test_sub_backward() {
    let mut g: Graph<Real> = Graph::new();
    let a = leaf(&mut g, 5.0);
    let b = leaf(&mut g, 3.0);
    let d = a.sub(&mut g, &b);
    d.backward(&mut g);
    assert_eq!(a.grad(&g).0, 1.0);
    assert_eq!(b.grad(&g).0, -1.0);
}

#[test]
fn test_sub_of_itself_backward() {
    let mut g: Graph<Real> = Graph::new();
    let a = leaf(&mut g, 5.0);
    let d = a.sub(&mut g, &a);
    assert_eq!(d.data(&g).0, 0.0);
    d.backward(&mut g);
    assert_eq!(a.grad(&g).0, 0.0);
}

#[test]
fn test_div_backward() {
    let mut g: Graph<Real> = Graph::new();
    let a = leaf(&mut g, 6.0);
    let b = leaf(&mut g, 2.0);
    let q = a.div(&mut g, &b);
    assert_eq!(q.data(&g).0, 3.0);
    q.backward(&mut g);
    assert_eq!(a.grad(&g).0, 0.5);
    assert_eq!(b.grad(&g).0, -1.5);
}

#[test]
fn test_div_of_itself_backward() {
    let mut g: Graph<Real> = Graph::new();
    let a = leaf(&mut g, 2.0);
    let q = a.div(&mut g, &a);
    assert_eq!(q.data(&g).0, 1.0);
    q.backward(&mut g);
    assert_eq!(a.grad(&g).0, 0.0);
}

#[test]
fn test_div_of_itself_need_not_be_one() {
    let mut g: Graph<Real> = Graph::new();
    let a = leaf(&mut g, 49.0);
    let q = a.div(&mut g, &a);
    assert_eq!(q.data(&g).0, 49.0 * 49.0f64.powf(-1.0));
    assert_eq!(q.data(&g).0, 0.9999999999999999);
}

#[test]
fn test_division_by_zero_is_infinite() {
    let mut g: Graph<Real> = Graph::new();
    let a = leaf(&mut g, 1.0);
    let z = leaf(&mut g, 0.0);
    let q = a.div(&mut g, &z);
    assert_eq!(q.data(&g).0, f64::INFINITY);
    q.backward(&mut g);
    assert_eq!(a.grad(&g).0, f64::INFINITY);
    assert_eq!(z.grad(&g).0, f64::NEG_INFINITY);
}

#[test]
fn test_power_of_negative_base_is_not_a_number() {
    let mut g: Graph<Real> = Graph::new();
    let a = leaf(&mut g, -8.0);
    let p = a.pow(&mut g, Real(0.5));
    assert!(p.data(&g).0.is_nan());
    let s = p.add_scalar(&mut g, Real(1.0));
    assert!(s.data(&g).0.is_nan());
    s.backward(&mut g);
    assert!(a.grad(&g).0.is_nan());
    assert_eq!(p.grad(&g).0, 1.0);
}

#[test]
fn test_deep_chain() {
    let mut g: Graph<Real> = Graph::new();
    let a = leaf(&mut g, 1.0);
    let mut top = a;
    for _ in 0..200_000 {
        top = top.add(&mut g, &a);
    }
    assert_eq!(top.data(&g).0, 200_001.0);
    assert_eq!(top.get_parents_topo_sort(&g).len(), 200_001);
    top.backward(&mut g);
    assert_eq!(a.grad(&g).0, 200_001.0);
}

#[test]
fn test_modulo_two_values() {
    assert!(!<bool as Scalar>::zero());
    assert!(<bool as Scalar>::one());
    for a in [false, true] {
        assert_eq!(a.negated(), a);
        assert_eq!(a.is_positive(), a);
        assert_eq!(a.power(&false), true);
        assert_eq!(a.power(&true), a);
        for b in [false, true] {
            assert_eq!(a.plus(&b), a ^ b);
            assert_eq!(a.times(&b), a & b);
        }
    }
}

#[test]
fn test_modulo_two_gradients() {
    let mut g: Graph<bool> = Graph::new();
    let a = ValueRef::new(&mut g, true);
    let b = ValueRef::new(&mut g, false);
    let s = a.add(&mut g, &b);
    assert_eq!(s.data(&g), true);
    s.backward(&mut g);
    assert_eq!((a.grad(&g), b.grad(&g)), (true, true));

    let twice = a.add(&mut g, &a);
    assert_eq!(twice.data(&g), false);
    twice.backward(&mut g);
    assert_eq!(a.grad(&g), false);
    assert_eq!(b.grad(&g), true);

    let p = a.mul(&mut g, &b);
    assert_eq!(p.data(&g), false);
    p.backward(&mut g);
    assert_eq!((a.grad(&g), b.grad(&g)), (false, true));

    let q = b.div(&mut g, &a);
    assert_eq!(q.data(&g), false);
    let r = a.relu(&mut g);
    r.backward(&mut g);
    assert_eq!(a.grad(&g), true);
}

#[test]
fn test_render_short() {
    assert_eq!(render::short("2", "30"), "Value { data: 2, grad: 30 }");
    assert_eq!(render::short("", ""), "Value { data: , grad:  }");
}

#[test]
fn test_render_full_of_a_leaf() {
    assert_eq!(render::full("1.5", "20", "", &vec![]), "Value { data: 1.5, grad: 20, op: '' } }");
}

#[test]
fn test_render_full_with_operands() {
    let parents = vec![String::from("10"), String::from("5")];
    assert_eq!(
        render::full("50", "1", "*", &parents),
        "Value { data: 50, grad: 1, op: '*' }, parents: [ 10, 5, ] }"
    );
    let one = vec![String::from("-2")];
    assert_eq!(
        render::full("0", "0", "ReLU", &one),
        "Value { data: 0, grad: 0, op: 'ReLU' }, parents: [ -2, ] }"
    );
}

#[test]
fn test_render_a_node_after_backward() {
    let mut g: Graph<Real> = Graph::new();
    let k = leaf(&mut g, 10.0);
    let y = leaf(&mut g, 5.0);
    let result = k.mul(&mut g, &y);
    result.backward(&mut g);
    let op = result.op(&g);
    let mut parents = Vec::new();
    let mut n = 0;
    while let Some(parent) = op.operand(n) {
        parents.push(g.node(parent).value.0.to_string());
        n += 1;
    }
    let data = result.data(&g).0.to_string();
    let grad = result.grad(&g).0.to_string();
    assert_eq!(
        render::full(&data, &grad, op.symbol(), &parents),
        "Value { data: 50, grad: 1, op: '*' }, parents: [ 10, 5, ] }"
    );
    assert_eq!(
        render::short(&k.data(&g).0.to_string(), &k.grad(&g).0.to_string()),
        "Value { data: 10, grad: 5 }"
    );
}
