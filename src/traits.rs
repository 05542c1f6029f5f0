use vstd::prelude::*;

verus! {

/// Why building, evaluating or differentiating a graph failed.
#[derive(Clone, Copy, Debug, PartialEq, Eq, Structural)]
pub enum AutogradError {
    /// Evaluation met a leaf whose data was never set.
    UnsetLeaf,
    /// `set_requires_grad` on a node that is not a leaf.
    InvalidRequiresGradTarget,
    /// The operand shapes cannot be broadcast together.
    ShapeMismatch,
    /// `dot` on an operand that is not rank 2, or inner extents that disagree.
    DotRankMismatch,
    /// The result does not fit the element's number type.
    Overflow,
    /// A division by zero.
    DivisionByZero,
}

// The spec functions of these traits are each type's mathematical model.
// They default to an unspecified value so that element types written outside
// verified code (an n-dimensional array of floats, say) can implement the
// traits; the types verified here give their own model, and the engine's
// contracts are stated over it.

/// Closed arithmetic on element values. Each operation produces a fresh
/// value, or the reason it cannot.
pub trait ArithmeticOps: Sized {
    open spec fn add_spec(&self, other: &Self) -> Result<Self, AutogradError> {
        arbitrary()
    }

    open spec fn sub_spec(&self, other: &Self) -> Result<Self, AutogradError> {
        arbitrary()
    }

    open spec fn mul_spec(&self, other: &Self) -> Result<Self, AutogradError> {
        arbitrary()
    }

    open spec fn div_spec(&self, other: &Self) -> Result<Self, AutogradError> {
        arbitrary()
    }

    open spec fn neg_spec(&self) -> Result<Self, AutogradError> {
        arbitrary()
    }

    fn add(&self, other: &Self) -> (r: Result<Self, AutogradError>)
        ensures
            r == self.add_spec(other),
    ;

    fn sub(&self, other: &Self) -> (r: Result<Self, AutogradError>)
        ensures
            r == self.sub_spec(other),
    ;

    fn mul(&self, other: &Self) -> (r: Result<Self, AutogradError>)
        ensures
            r == self.mul_spec(other),
    ;

    fn div(&self, other: &Self) -> (r: Result<Self, AutogradError>)
        ensures
            r == self.div_spec(other),
    ;

    fn neg(&self) -> (r: Result<Self, AutogradError>)
        ensures
            r == self.neg_spec(),
    ;

    /// A second value equal to this one.
    fn duplicate(&self) -> (r: Self)
        ensures
            r == *self,
    ;
}

/// The zero and the one of an element's shape: the empty gradient and the
/// default backward seed.
pub trait HasGrad: Sized {
    open spec fn zero_spec(&self) -> Self {
        arbitrary()
    }

    open spec fn one_spec(&self) -> Self {
        arbitrary()
    }

    fn get_zero_grad(&self) -> (r: Self)
        ensures
            r == self.zero_spec(),
    ;

    fn get_default_init_grad(&self) -> (r: Self)
        ensures
            r == self.one_spec(),
    ;
}

/// The extents of an element's axes; scalars have none.
pub trait Shape {
    open spec fn shape_spec(&self) -> Seq<usize> {
        arbitrary()
    }

    fn shape(&self) -> (r: &[usize])
        ensures
            r@ == self.shape_spec(),
    ;

    fn ndim(&self) -> (r: usize)
        ensures
            r == self.shape_spec().len(),
    ;
}

/// Summation along one axis.
pub trait Reduce: Sized + Shape {
    /// The sum along `axis`, that axis removed.
    open spec fn sum_axis_spec(&self, axis: int) -> Self {
        arbitrary()
    }

    /// The sum along `axis`, that axis kept with extent 1.
    open spec fn sum_axis_keep_spec(&self, axis: int) -> Self {
        arbitrary()
    }

    fn sum_axis(&self, axis: usize) -> (r: Self)
        requires
            axis < self.shape_spec().len(),
        ensures
            r == self.sum_axis_spec(axis as int),
            r.shape_spec() == self.shape_spec().remove(axis as int),
    ;

    fn sum_axis_keep(&self, axis: usize) -> (r: Self)
        requires
            axis < self.shape_spec().len(),
        ensures
            r == self.sum_axis_keep_spec(axis as int),
            r.shape_spec() == self.shape_spec().update(axis as int, 1),
    ;
}

/// Matrix product.
pub trait Dot: Sized {
    open spec fn dot_spec(&self, other: &Self) -> Result<Self, AutogradError> {
        arbitrary()
    }

    fn dot(&self, other: &Self) -> (r: Result<Self, AutogradError>)
        ensures
            r == self.dot_spec(other),
    ;
}

/// Axis reversal.
pub trait Transpose: Sized {
    open spec fn t_spec(&self) -> Self {
        arbitrary()
    }

    fn t(&self) -> (r: Self)
        ensures
            r == self.t_spec(),
    ;
}

} // verus!
