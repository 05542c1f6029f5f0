use ndarray::{ArrayD, Axis, Ix2, IxDyn};
use rust_autograd::backward_ops::compute_broadcasted_gradients;
use rust_autograd::graph::{Context, Var};
use rust_autograd::traits::{ArithmeticOps, AutogradError, Dot, HasGrad, Reduce, Shape, Transpose};

/// A dynamically shaped array of `f64`, as the engine's element type.
#[derive(Clone, Debug, PartialEq)]
struct Nd(ArrayD<f64>);

fn nd(shape: &[usize], values: &[f64]) -> Nd {
    Nd(ArrayD::from_shape_vec(IxDyn(shape), values.to_vec()).unwrap())
}

fn broadcast_shape(a: &[usize], b: &[usize]) -> Option<Vec<usize>> {
    let n = a.len().max(b.len());
    let mut out = vec![0; n];
    for i in 0..n {
        let x = if i + a.len() >= n { a[i + a.len() - n] } else { 1 };
        let y = if i + b.len() >= n { b[i + b.len() - n] } else { 1 };
        out[i] = if x == y || y == 1 {
            x
        } else if x == 1 {
            y
        } else {
            return None;
        };
    }
    Some(out)
}

impl Nd {
    fn zip(&self, other: &Nd, f: fn(f64, f64) -> f64) -> Result<Nd, AutogradError> {
        let shape = broadcast_shape(self.0.shape(), other.0.shape()).ok_or(AutogradError::ShapeMismatch)?;
        let a = self.0.broadcast(IxDyn(&shape)).unwrap();
        let b = other.0.broadcast(IxDyn(&shape)).unwrap();
        let mut out = a.to_owned();
        out.zip_mut_with(&b, |x, y| *x = f(*x, *y));
        Ok(Nd(out))
    }
}

impl ArithmeticOps for Nd {
    fn add(&self, other: &Nd) -> Result<Nd, AutogradError> {
        self.zip(other, |x, y| x + y)
    }

    fn sub(&self, other: &Nd) -> Result<Nd, AutogradError> {
        self.zip(other, |x, y| x - y)
    }

    fn mul(&self, other: &Nd) -> Result<Nd, AutogradError> {
        self.zip(other, |x, y| x * y)
    }

    fn div(&self, other: &Nd) -> Result<Nd, AutogradError> {
        self.zip(other, |x, y| x / y)
    }

    fn neg(&self) -> Result<Nd, AutogradError> {
        Ok(Nd(self.0.mapv(|x| -x)))
    }

    fn duplicate(&self) -> Nd {
        self.clone()
    }
}

impl HasGrad for Nd {
    fn get_zero_grad(&self) -> Nd {
        Nd(ArrayD::zeros(self.0.shape()))
    }

    fn get_default_init_grad(&self) -> Nd {
        Nd(ArrayD::ones(self.0.shape()))
    }
}

impl Shape for Nd {
    fn shape(&self) -> &[usize] {
        self.0.shape()
    }

    fn ndim(&self) -> usize {
        self.0.ndim()
    }
}

impl Reduce for Nd {
    fn sum_axis(&self, axis: usize) -> Nd {
        Nd(self.0.sum_axis(Axis(axis)))
    }

    fn sum_axis_keep(&self, axis: usize) -> Nd {
        Nd(self.0.sum_axis(Axis(axis)).insert_axis(Axis(axis)))
    }
}

impl Dot for Nd {
    fn dot(&self, other: &Nd) -> Result<Nd, AutogradError> {
        let a = self.0.view().into_dimensionality::<Ix2>().map_err(|_| AutogradError::DotRankMismatch)?;
        let b = other.0.view().into_dimensionality::<Ix2>().map_err(|_| AutogradError::DotRankMismatch)?;
        if a.ncols() != b.nrows() {
            return Err(AutogradError::DotRankMismatch);
        }
        Ok(Nd(a.dot(&b).into_dyn()))
    }
}

impl Transpose for Nd {
    fn t(&self) -> Nd {
        Nd(self.0.t().to_owned())
    }
}

fn leaf(c: &mut Context<Nd>, shape: &[usize], values: &[f64]) -> Var {
    Var::new(c, nd(shape, values))
}

#[test]
fn backward_basic_ops_test_eval() {
    let mut c = Context::new();
    let x = leaf(&mut c, &[1], &[1.]);
    let z = x.add(&x, &mut c).add(&x, &mut c);
    let a = z.add(&z, &mut c);

    z.eval(&mut c).unwrap();
    a.eval(&mut c).unwrap();

    assert!(z.data(&c).unwrap() == nd(&[1], &[3.0]));
    assert!(a.data(&c).unwrap() == nd(&[1], &[6.0]));
}

#[test]
fn backward_basic_ops_test_add_backward() {
    let mut c = Context::new();
    let x = leaf(&mut c, &[2], &[2., 2.]);
    x.set_requires_grad(&mut c, true).unwrap();
    let y = leaf(&mut c, &[2], &[3., 3.]);
    let z = x.add(&y, &mut c);

    z.backward(&mut c).unwrap();
    assert!(z.requires_grad(&c));
    assert!(x.grad(&c).unwrap() == nd(&[2], &[1., 1.]));

    z.reset_grad(&mut c);

    let z = x.add(&x, &mut c);
    z.backward(&mut c).unwrap();
    assert!(x.grad(&c).unwrap() == nd(&[2], &[2., 2.]));
}

#[test]
fn backward_basic_ops_test_mul_backward() {
    let mut c = Context::new();
    let x = leaf(&mut c, &[1], &[2.0]);
    x.set_requires_grad(&mut c, true).unwrap();
    let y = leaf(&mut c, &[1], &[3.0]);

    // z = x * y
    let z = x.mul(&y, &mut c);
    z.backward(&mut c).unwrap();
    assert!(x.grad(&c).unwrap() == nd(&[1], &[3.]));

    z.reset_grad(&mut c);

    // z = x^3 + y
    let z = x.mul(&x, &mut c).mul(&x, &mut c).add(&y, &mut c);
    z.backward(&mut c).unwrap();
    assert!(x.grad(&c).unwrap() == nd(&[1], &[12.]));
}

#[test]
fn test_eval_dot() {
    let mut c = Context::new();
    let x = leaf(&mut c, &[2, 2], &[1., 1., 2., 2.]);
    let y = leaf(&mut c, &[2, 1], &[3., 5.]);
    let z = x.dot(&y, &mut c);
    z.eval(&mut c).unwrap();

    assert!(z.data(&c).unwrap() == nd(&[2, 1], &[8., 16.]));
}

#[test]
fn test_dot_backward() {
    let mut c = Context::new();
    let x = leaf(&mut c, &[2, 2], &[1., 1., 2., 2.]);
    let y = leaf(&mut c, &[2, 1], &[3., 5.]);
    x.set_requires_grad(&mut c, true).unwrap();
    y.set_requires_grad(&mut c, true).unwrap();
    let z = x.dot(&y, &mut c);

    z.backward(&mut c).unwrap();

    assert!(x.grad(&c).unwrap() == nd(&[2, 2], &[3., 5., 3., 5.]));
    assert!(y.grad(&c).unwrap() == nd(&[2, 1], &[3., 3.]));
}

#[test]
fn scenario_elementwise_self_sum() {
    let mut c = Context::new();
    let x = leaf(&mut c, &[2], &[2., 2.]);
    x.set_requires_grad(&mut c, true).unwrap();
    let _y = leaf(&mut c, &[2], &[3., 3.]);
    let z = x.add(&x, &mut c);
    z.backward(&mut c).unwrap();
    assert_eq!(x.grad(&c).unwrap(), nd(&[2], &[2., 2.]));
}

#[test]
fn scenario_broadcast_row_gradient() {
    let mut c = Context::new();
    let x = leaf(&mut c, &[1, 3], &[1., 2., 3.]);
    x.set_requires_grad(&mut c, true).unwrap();
    let y = leaf(&mut c, &[2, 3], &[1., 1., 1., 1., 1., 1.]);
    let z = x.mul(&y, &mut c);
    z.backward(&mut c).unwrap();
    let g = x.grad(&c).unwrap();
    assert_eq!(g.shape(), &[1, 3]);
    assert_eq!(g, nd(&[1, 3], &[2., 2., 2.]));
}

#[test]
fn broadcast_gradients_take_operand_shapes() {
    let mut c = Context::new();
    let a = leaf(&mut c, &[3], &[1., 2., 3.]);
    let b = leaf(&mut c, &[2, 1, 3], &[1., 1., 1., 2., 2., 2.]);
    let s = leaf(&mut c, &[1, 4, 1], &[1., 1., 1., 1.]);
    a.set_requires_grad(&mut c, true).unwrap();
    b.set_requires_grad(&mut c, true).unwrap();
    s.set_requires_grad(&mut c, true).unwrap();
    let z = a.add(&b, &mut c).mul(&s, &mut c);
    z.backward(&mut c).unwrap();
    assert_eq!(z.data(&c).unwrap().shape(), &[2, 4, 3]);
    assert_eq!(a.grad(&c).unwrap(), nd(&[3], &[8., 8., 8.]));
    assert_eq!(b.grad(&c).unwrap(), nd(&[2, 1, 3], &[4., 4., 4., 4., 4., 4.]));
    assert_eq!(s.grad(&c).unwrap(), nd(&[1, 4, 1], &[21., 21., 21., 21.]));
}

#[test]
fn unbroadcast_sums_added_and_stretched_axes() {
    let g = nd(&[2, 2, 3], &[1., 2., 3., 4., 5., 6., 7., 8., 9., 10., 11., 12.]);
    let r = compute_broadcasted_gradients(&nd(&[1, 3], &[0., 0., 0.]), &g);
    assert_eq!(r, nd(&[1, 3], &[22., 26., 30.]));
    let r = compute_broadcasted_gradients(&nd(&[2, 1], &[0., 0.]), &nd(&[2, 3], &[1., 2., 3., 4., 5., 6.]));
    assert_eq!(r, nd(&[2, 1], &[6., 15.]));
}

#[test]
fn dot_gradients_are_transposed_products() {
    // Z = X · Y with X of shape [2, 3] and Y of shape [3, 2]; the seed is ones
    let mut c = Context::new();
    let x = leaf(&mut c, &[2, 3], &[1., 2., 3., 4., 5., 6.]);
    let y = leaf(&mut c, &[3, 2], &[1., 0., 2., 1., 0., 3.]);
    x.set_requires_grad(&mut c, true).unwrap();
    y.set_requires_grad(&mut c, true).unwrap();
    let z = x.dot(&y, &mut c);
    z.backward(&mut c).unwrap();
    let dz = nd(&[2, 2], &[1., 1., 1., 1.]);
    let xv = x.data(&c).unwrap();
    let yv = y.data(&c).unwrap();
    assert_eq!(x.grad(&c).unwrap(), dz.dot(&yv.t()).unwrap());
    assert_eq!(y.grad(&c).unwrap(), xv.t().dot(&dz).unwrap());
    assert_eq!(x.grad(&c).unwrap(), nd(&[2, 3], &[1., 3., 3., 1., 3., 3.]));
}

#[test]
fn mismatched_shapes_are_reported() {
    let mut c = Context::new();
    let a = leaf(&mut c, &[2], &[1., 2.]);
    let b = leaf(&mut c, &[3], &[1., 2., 3.]);
    let z = a.add(&b, &mut c);
    assert_eq!(z.eval(&mut c), Err(AutogradError::ShapeMismatch));

    let m = leaf(&mut c, &[2, 2], &[1., 2., 3., 4.]);
    let v = leaf(&mut c, &[3, 1], &[1., 2., 3.]);
    let p = m.dot(&v, &mut c);
    assert_eq!(p.eval(&mut c), Err(AutogradError::DotRankMismatch));
    let q = a.dot(&m, &mut c);
    assert_eq!(q.backward(&mut c), Err(AutogradError::DotRankMismatch));
}
