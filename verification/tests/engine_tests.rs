use scalargrad::graph::Graph;
use scalargrad::scalar::Scalar;
use scalargrad::value::ValueRef;

#[derive(Clone, Copy, Debug, PartialEq)]
struct Real(f64);

impl Scalar for Real {
    fn zero_spec() -> Real {
        Real(0.0)
    }

    fn one_spec() -> Real {
        Real(1.0)
    }

    fn add_spec(self, rhs: Real) -> Real {
        Real(self.0 + rhs.0)
    }

    fn mul_spec(self, rhs: Real) -> Real {
        Real(self.0 * rhs.0)
    }

    fn neg_spec(self) -> Real {
        Real(-self.0)
    }

    fn pow_spec(self, exp: Real) -> Real {
        Real(self.0.powf(exp.0))
    }

    fn positive_spec(self) -> bool {
        self.0 > 0.0
    }

    fn zero() -> Real {
        Real(0.0)
    }

    fn one() -> Real {
        Real(1.0)
    }

    fn plus(&self, rhs: &Real) -> Real {
        Real(self.0 + rhs.0)
    }

    fn times(&self, rhs: &Real) -> Real {
        Real(self.0 * rhs.0)
    }

    fn negated(&self) -> Real {
        Real(-self.0)
    }

    fn power(&self, exp: &Real) -> Real {
        Real(self.0.powf(exp.0))
    }

    fn is_positive(&self) -> bool {
        self.0 > 0.0
    }
}

#[test]
fn test_valueref_data() {
    let mut g: Graph<Real> = Graph::new();
    let x = ValueRef::new(&mut g, Real(3.14));
    assert_eq!(x.data(&g).0, 3.14);
}

#[test]
fn test_valueref_sum() {
    let mut g: Graph<Real> = Graph::new();
    let a = ValueRef::new(&mut g, Real(1.0));
    let b = ValueRef::new(&mut g, Real(2.0));
    let c = a.add(&mut g, &b);
    assert_eq!(c.data(&g).0, 3.0);
}

#[test]
fn test_valueref_sum_backward() {
    let mut g: Graph<Real> = Graph::new();
    let a = ValueRef::new(&mut g, Real(1.0));
    let b = ValueRef::new(&mut g, Real(2.0));
    let c = a.add(&mut g, &b);

    c.backward(&mut g);

    assert_eq!(a.grad(&g).0, 1.0);
    assert_eq!(b.grad(&g).0, 1.0);
}

#[test]
fn test_valueref_sum_of_equal_values_backward() {
    let mut g: Graph<Real> = Graph::new();
    let a = ValueRef::new(&mut g, Real(1.0));
    let c = a.add(&mut g, &a);

    c.backward(&mut g);

    assert_eq!(a.grad(&g).0, 2.0);
}

#[test]
fn test_value_sum_with_float() {
    let mut g: Graph<Real> = Graph::new();
    let a = ValueRef::new(&mut g, Real(1.0));
    let b = a.add_scalar(&mut g, Real(2.0));
    assert_eq!(b.data(&g).0, 3.0);
    let c = a.radd(&mut g, Real(2.0));
    assert_eq!(c.data(&g).0, 3.0);
}

#[test]
fn test_value_mul() {
    let mut g: Graph<Real> = Graph::new();
    let a = ValueRef::new(&mut g, Real(2.0));
    let b = ValueRef::new(&mut g, Real(3.0));
    let c = a.mul(&mut g, &b);
    assert_eq!(c.data(&g).0, 6.0);
}

#[test]
fn test_valueref_mul_backward() {
    let mut g: Graph<Real> = Graph::new();
    let a = ValueRef::new(&mut g, Real(1.0));
    let b = ValueRef::new(&mut g, Real(2.0));
    let c = a.mul(&mut g, &b);

    c.backward(&mut g);

    assert_eq!(a.grad(&g).0, 2.0);
    assert_eq!(b.grad(&g).0, 1.0);
}

#[test]
fn test_valueref_mul_of_equal_values_backward() {
    let mut g: Graph<Real> = Graph::new();
    let a = ValueRef::new(&mut g, Real(3.0));
    let c = a.mul(&mut g, &a);

    c.backward(&mut g);

    assert_eq!(a.grad(&g).0, 6.0);
}

#[test]
fn test_value_mul_with_float() {
    let mut g: Graph<Real> = Graph::new();
    let a = ValueRef::new(&mut g, Real(3.0));
    let b = a.mul_scalar(&mut g, Real(2.0));
    assert_eq!(b.data(&g).0, 6.0);
    let c = a.rmul(&mut g, Real(2.0));
    assert_eq!(c.data(&g).0, 6.0);
}

#[test]
fn test_valueref_clear_grads() {
    let mut g: Graph<Real> = Graph::new();
    let a = ValueRef::new(&mut g, Real(1.0));
    let b = ValueRef::new(&mut g, Real(2.0));
    let s = a.add(&mut g, &b);
    let c = s.mul(&mut g, &a);

    c.clear_grads(&mut g);

    assert_eq!(a.grad(&g).0, 0.0);
    assert_eq!(b.grad(&g).0, 0.0);
    assert_eq!(c.grad(&g).0, 0.0);
}
