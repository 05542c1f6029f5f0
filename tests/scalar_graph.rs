use rust_autograd::backward_ops::compute_broadcasted_gradients;
use rust_autograd::graph::{Context, Var};
use rust_autograd::traits::AutogradError;
use rust_autograd::variable::get_value;

fn leaf(c: &mut Context<i64>, v: i64) -> Var {
    Var::new(c, v)
}

#[test]
fn test_topo_sort() {
    let mut c = Context::new();
    let x = c.var(1i64);
    let y = c.var(2);
    let z = x.add(&y, &mut c);
    let a = z.add(&z, &mut c);

    let sorted = c.topological_sort(&a, false);
    assert_eq!(sorted.len(), 4);
    assert!(sorted[0] == x);
    assert!(sorted[1] == y);
    assert!(sorted[2] == z);
    assert!(sorted[3] == a);

    let sorted = c.topological_sort(&a, true);
    assert_eq!(sorted.len(), 7);
    assert!(sorted[0] == x);
    assert!(sorted[1] == y);
    assert!(sorted[2] == z);
    assert!(sorted[3] == x);
    assert!(sorted[4] == y);
    assert!(sorted[5] == z);
    assert!(sorted[6] == a);
}

#[test]
fn test_arith() {
    let mut c = Context::new();
    let x = c.var(4i64);
    let y = c.var(2);

    let z = x.add(&y, &mut c);
    assert!(c.value_of(&z) == Ok(6));

    let z = x.sub(&y, &mut c);
    assert!(c.value_of(&z) == Ok(2));

    let z = x.mul(&y, &mut c);
    assert!(c.value_of(&z) == Ok(8));

    let z = x.div(&y, &mut c);
    assert!(c.value_of(&z) == Ok(2));
}

#[test]
fn test_var_requires_grad() {
    let mut c = Context::new();
    let x = c.var(1i64);
    let y = c.var(2);
    y.set_requires_grad(&mut c, true).unwrap();

    let z = x.add(&y, &mut c);
    c.eval_graph(&z).unwrap();

    assert!(y.requires_grad(&c));
    assert!(z.requires_grad(&c));
    assert!(!x.requires_grad(&c));
    // evaluation computes data only; gradients stay empty until a backward pass
    assert!(c.grad_of(&y) == None);
    assert!(c.grad_of(&x) == None);
    assert!(c.grad_of(&z) == None);
    assert!(z.data(&c) == Some(3));
}

#[test]
fn test_backward() {
    let mut c = Context::new();
    let x = c.var(1i64);
    x.set_requires_grad(&mut c, true).unwrap();
    let y = c.var(2);
    let z = x.add(&y, &mut c);
    c.backward(&z).unwrap();

    assert!(z.requires_grad(&c));
    assert!(c.grad_of(&x) == Some(1));

    let z = x.add(&x, &mut c).add(&x, &mut c);
    c.reset_grad(&z);
    c.backward(&z).unwrap();
    assert!(c.grad_of(&x) == Some(3));
}

#[test]
fn test_variable2_eval() {
    let mut c = Context::new();
    let x = leaf(&mut c, 1);
    let z = x.add(&x, &mut c).add(&x, &mut c);
    let a = z.add(&z, &mut c);

    assert!(c.value_of(&z) == Ok(3));
    assert!(c.value_of(&z) == Ok(3)); // a second time
    assert!(c.value_of(&a) == Ok(6));
}

#[test]
fn variable2_test_add_backward() {
    let mut c = Context::new();
    let x = leaf(&mut c, 2);
    x.set_requires_grad(&mut c, true).unwrap();
    let y = leaf(&mut c, 3);
    let z = x.add(&y, &mut c);

    z.backward(&mut c).unwrap();

    assert!(z.requires_grad(&c)); // when x requires grad, z must also require grad
    assert!(x.grad(&c) == Some(1));

    z.reset_grad(&mut c);
    let z = x.add(&x, &mut c); // z = 2x, so dz/dx = 2
    z.backward(&mut c).unwrap();
    assert!(x.grad(&c) == Some(2));
}

#[test]
fn backward_basic_arith_test_eval() {
    let mut c = Context::new();
    let x = Var::new(&mut c, 1i64);
    let z = x.add(&x, &mut c).add(&x, &mut c);
    let a = z.add(&z, &mut c);

    z.eval(&mut c).unwrap();
    a.eval(&mut c).unwrap();

    assert!(z.data(&c).unwrap() == 3);
    assert!(a.data(&c).unwrap() == 6);
}

#[test]
fn backward_basic_arith_test_add_backward() {
    let mut c = Context::new();
    let x = Var::new(&mut c, 2i64);
    x.set_requires_grad(&mut c, true).unwrap();
    let y = Var::new(&mut c, 3);
    let z = x.add(&y, &mut c);

    z.backward(&mut c).unwrap();
    assert!(z.requires_grad(&c));
    assert!(x.grad(&c).unwrap() == 1);

    z.reset_grad(&mut c);

    let z = x.add(&x, &mut c);
    z.backward(&mut c).unwrap();
    assert!(x.grad(&c).unwrap() == 2);
}

#[test]
fn backward_basic_arith_test_mul_backward() {
    let mut c = Context::new();
    let x = Var::new(&mut c, 2i64);
    x.set_requires_grad(&mut c, true).unwrap();
    let y = Var::new(&mut c, 3);

    // z = x * y
    let z = x.mul(&y, &mut c);
    z.backward(&mut c).unwrap();
    assert!(x.grad(&c).unwrap() == 3);

    z.reset_grad(&mut c);

    // z = x^3 + y
    let z = x.mul(&x, &mut c).mul(&x, &mut c).add(&y, &mut c);
    z.backward(&mut c).unwrap();
    assert!(x.grad(&c).unwrap() == 12);
}

#[test]
fn scenario_eval_shared_sum() {
    let mut c = Context::new();
    let x = leaf(&mut c, 1);
    let y = leaf(&mut c, 2);
    let z = x.add(&y, &mut c);
    let a = z.add(&z, &mut c);
    a.eval(&mut c).unwrap();
    assert_eq!(a.data(&c), Some(6));
    assert_eq!(c.topological_sort(&a, false).len(), 4);
}

#[test]
fn scenario_add_gradient_is_one() {
    let mut c = Context::new();
    let x = leaf(&mut c, 2);
    x.set_requires_grad(&mut c, true).unwrap();
    let y = leaf(&mut c, 3);
    let z = x.add(&y, &mut c);
    z.backward(&mut c).unwrap();
    assert_eq!(x.grad(&c), Some(1));
    // y was never marked, so it receives nothing
    assert_eq!(y.grad(&c), None);
}

#[test]
fn scenario_cube_gradient() {
    let mut c = Context::new();
    let x = leaf(&mut c, 2);
    x.set_requires_grad(&mut c, true).unwrap();
    let z = x.mul(&x, &mut c).mul(&x, &mut c);
    z.backward(&mut c).unwrap();
    assert_eq!(z.data(&c), Some(8));
    assert_eq!(x.grad(&c), Some(12));
}

#[test]
fn repeated_sum_gradient_counts_copies() {
    for n in 1..7i64 {
        let mut c = Context::new();
        let x = leaf(&mut c, 5);
        x.set_requires_grad(&mut c, true).unwrap();
        let mut y = x;
        for _ in 1..n {
            y = y.add(&x, &mut c);
        }
        y.backward(&mut c).unwrap();
        assert_eq!(x.grad(&c), Some(n));
    }
}

#[test]
fn repeated_product_gradient_is_power_rule() {
    for n in 1..6u32 {
        let mut c = Context::new();
        let x = leaf(&mut c, 3);
        x.set_requires_grad(&mut c, true).unwrap();
        let mut y = x;
        for _ in 1..n {
            y = y.mul(&x, &mut c);
        }
        y.backward(&mut c).unwrap();
        assert_eq!(x.grad(&c), Some((n as i64) * 3i64.pow(n - 1)));
    }
}

#[test]
fn sub_div_neg_gradients() {
    let mut c = Context::new();
    let a = leaf(&mut c, 12);
    let b = leaf(&mut c, 2);
    a.set_requires_grad(&mut c, true).unwrap();
    b.set_requires_grad(&mut c, true).unwrap();

    let d = a.sub(&b, &mut c);
    d.backward(&mut c).unwrap();
    assert_eq!(a.grad(&c), Some(1));
    assert_eq!(b.grad(&c), Some(-1));
    d.reset_grad(&mut c);

    // q = a / b: dq/da = 1 / b, dq/db = -a / (b * b)
    let q = a.div(&b, &mut c);
    q.backward(&mut c).unwrap();
    assert_eq!(q.data(&c), Some(6));
    assert_eq!(a.grad(&c), Some(0));
    assert_eq!(b.grad(&c), Some(-3));
    q.reset_grad(&mut c);

    let n = a.neg(&mut c);
    n.backward(&mut c).unwrap();
    assert_eq!(n.data(&c), Some(-12));
    assert_eq!(a.grad(&c), Some(-1));
}

#[test]
fn reset_grad_clears_every_reachable_node() {
    let mut c = Context::new();
    let x = leaf(&mut c, 2);
    x.set_requires_grad(&mut c, true).unwrap();
    let y = leaf(&mut c, 5);
    y.set_requires_grad(&mut c, true).unwrap();
    let z = x.mul(&y, &mut c).add(&x, &mut c);
    z.backward(&mut c).unwrap();
    assert_eq!(x.grad(&c), Some(6));
    assert_eq!(y.grad(&c), Some(2));
    z.reset_grad(&mut c);
    for v in c.topological_sort(&z, false) {
        assert_eq!(v.grad(&c), None);
    }
}

#[test]
fn gradients_accumulate_without_reset() {
    let mut c = Context::new();
    let x = leaf(&mut c, 4);
    x.set_requires_grad(&mut c, true).unwrap();
    let z = x.add(&x, &mut c);
    z.backward(&mut c).unwrap();
    z.backward(&mut c).unwrap();
    assert_eq!(x.grad(&c), Some(4));
}

#[test]
fn requires_grad_is_or_of_operands() {
    let mut c = Context::new();
    let a = leaf(&mut c, 1);
    let b = leaf(&mut c, 1);
    assert!(!a.add(&b, &mut c).requires_grad(&c));
    b.set_requires_grad(&mut c, true).unwrap();
    assert!(a.mul(&b, &mut c).requires_grad(&c));
    assert!(b.neg(&mut c).requires_grad(&c));
    assert!(!a.neg(&mut c).requires_grad(&c));
}

#[test]
fn flag_set_after_composition_affects_later_nodes_only() {
    let mut c = Context::new();
    let x = leaf(&mut c, 2);
    let y = leaf(&mut c, 3);
    let early = x.add(&y, &mut c);
    x.set_requires_grad(&mut c, true).unwrap();
    let late = x.add(&y, &mut c);
    assert!(!early.requires_grad(&c));
    assert!(late.requires_grad(&c));
    early.backward(&mut c).unwrap();
    assert_eq!(x.grad(&c), None);
    late.backward(&mut c).unwrap();
    assert_eq!(x.grad(&c), Some(1));
}

#[test]
fn set_requires_grad_on_operation_is_refused() {
    let mut c = Context::new();
    let x = leaf(&mut c, 2);
    let z = x.add(&x, &mut c);
    assert_eq!(z.set_requires_grad(&mut c, true), Err(AutogradError::InvalidRequiresGradTarget));
    assert!(!z.requires_grad(&c));
}

#[test]
fn evaluation_errors_surface() {
    let mut c = Context::new();
    let a = leaf(&mut c, 1);
    let zero = leaf(&mut c, 0);
    let q = a.div(&zero, &mut c);
    assert_eq!(q.eval(&mut c), Err(AutogradError::DivisionByZero));
    assert_eq!(c.value_of(&q), Err(AutogradError::DivisionByZero));

    let big = leaf(&mut c, i64::MAX);
    let s = big.add(&a, &mut c);
    assert_eq!(s.eval(&mut c), Err(AutogradError::Overflow));
    assert_eq!(s.backward(&mut c), Err(AutogradError::Overflow));
}

#[test]
fn dot_of_scalars_is_product() {
    let mut c = Context::new();
    let x = leaf(&mut c, 3);
    let y = leaf(&mut c, 7);
    x.set_requires_grad(&mut c, true).unwrap();
    y.set_requires_grad(&mut c, true).unwrap();
    let z = x.dot(&y, &mut c);
    z.backward(&mut c).unwrap();
    assert_eq!(z.data(&c), Some(21));
    assert_eq!(x.grad(&c), Some(7));
    assert_eq!(y.grad(&c), Some(3));
}

#[test]
fn handles_expose_structure() {
    let mut c = Context::new();
    let x = leaf(&mut c, 2);
    let y = leaf(&mut c, 3);
    let z = x.sub(&y, &mut c);
    assert_eq!(z.deps(&c), vec![x, y]);
    assert!(x.deps(&c).is_empty());
    assert_eq!(c.len(), 3);
    assert!(c.owns(&z));
    let other: Context<i64> = Context::new();
    assert!(!other.owns(&z));
    assert_eq!(z.data(&c), None);
    z.set_data(&mut c, 9);
    assert_eq!(z.data(&c), Some(9));
    z.set_grad(&mut c, 4);
    assert_eq!(z.grad(&c), Some(4));
    assert_eq!(get_value(&Some(5i64)), Some(5));
}

#[test]
fn scalar_unbroadcast_is_identity() {
    assert_eq!(compute_broadcasted_gradients(&3i64, &8i64), 8);
}

#[test]
fn mixed_expression_gradient_matches_derivative() {
    // f(x) = (x * x - x) * (-x) + x . c, so f'(x) = -(3x^2 - 2x) + c
    let mut c = Context::new();
    let x = leaf(&mut c, 3);
    x.set_requires_grad(&mut c, true).unwrap();
    let k = leaf(&mut c, 5);
    let sq = x.mul(&x, &mut c);
    let diff = sq.sub(&x, &mut c);
    let negx = x.neg(&mut c);
    let prod = diff.mul(&negx, &mut c);
    let lin = x.dot(&k, &mut c);
    let f = prod.add(&lin, &mut c);
    f.backward(&mut c).unwrap();
    assert_eq!(f.data(&c), Some(-18 + 15));
    assert_eq!(x.grad(&c), Some(-21 + 5));
    // the constant was never marked, so it gets nothing
    assert_eq!(k.grad(&c), None);
}
