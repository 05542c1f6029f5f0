use vstd::prelude::*;
use crate::traits::{ArithmeticOps, Dot, HasGrad, AutogradError, Reduce, Shape, Transpose};

verus! {

/// Integer scalars: exact arithmetic, with overflow reported as an error.
pub open spec fn scalar_result(v: int) -> Result<i64, AutogradError> {
    if i64::MIN <= v <= i64::MAX {
        Ok(v as i64)
    } else {
        Err(AutogradError::Overflow)
    }
}

/// Rust's `i64::checked_div` as an element result: `None` means overflow.
pub open spec fn checked_result(r: Option<i64>) -> Result<i64, AutogradError> {
    match r {
        Some(v) => Ok(v),
        None => Err(AutogradError::Overflow),
    }
}

fn from_checked(r: Option<i64>) -> (out: Result<i64, AutogradError>)
    ensures
        out == checked_result(r),
{
    match r {
        Some(v) => Ok(v),
        None => Err(AutogradError::Overflow),
    }
}

impl ArithmeticOps for i64 {
    open spec fn add_spec(&self, other: &i64) -> Result<i64, AutogradError> {
        scalar_result(*self + *other)
    }

    open spec fn sub_spec(&self, other: &i64) -> Result<i64, AutogradError> {
        scalar_result(*self - *other)
    }

    open spec fn mul_spec(&self, other: &i64) -> Result<i64, AutogradError> {
        scalar_result(*self * *other)
    }

    open spec fn div_spec(&self, other: &i64) -> Result<i64, AutogradError> {
        if *other == 0 {
            Err(AutogradError::DivisionByZero)
        } else {
            checked_result(self.checked_div(*other))
        }
    }

    open spec fn neg_spec(&self) -> Result<i64, AutogradError> {
        scalar_result(-*self)
    }

    fn add(&self, other: &i64) -> (r: Result<i64, AutogradError>) {
        from_checked(self.checked_add(*other))
    }

    fn sub(&self, other: &i64) -> (r: Result<i64, AutogradError>) {
        from_checked(self.checked_sub(*other))
    }

    fn mul(&self, other: &i64) -> (r: Result<i64, AutogradError>) {
        from_checked(self.checked_mul(*other))
    }

    fn div(&self, other: &i64) -> (r: Result<i64, AutogradError>) {
        if *other == 0 {
            Err(AutogradError::DivisionByZero)
        } else {
            from_checked(self.checked_div(*other))
        }
    }

    fn neg(&self) -> (r: Result<i64, AutogradError>) {
        from_checked(0i64.checked_sub(*self))
    }

    fn duplicate(&self) -> (r: i64) {
        *self
    }
}

impl HasGrad for i64 {
    open spec fn zero_spec(&self) -> i64 {
        0
    }

    open spec fn one_spec(&self) -> i64 {
        1
    }

    fn get_zero_grad(&self) -> (r: i64) {
        0
    }

    fn get_default_init_grad(&self) -> (r: i64) {
        1
    }
}

impl Shape for i64 {
    open spec fn shape_spec(&self) -> Seq<usize> {
        Seq::empty()
    }

    fn shape(&self) -> (r: &[usize]) {
        &[]
    }

    fn ndim(&self) -> (r: usize) {
        0
    }
}

impl Reduce for i64 {
    open spec fn sum_axis_spec(&self, axis: int) -> i64 {
        *self
    }

    open spec fn sum_axis_keep_spec(&self, axis: int) -> i64 {
        *self
    }

    fn sum_axis(&self, axis: usize) -> (r: i64) {
        *self
    }

    fn sum_axis_keep(&self, axis: usize) -> (r: i64) {
        *self
    }
}

/// For scalars the matrix product is the product.
impl Dot for i64 {
    open spec fn dot_spec(&self, other: &i64) -> Result<i64, AutogradError> {
        self.mul_spec(other)
    }

    fn dot(&self, other: &i64) -> (r: Result<i64, AutogradError>) {
        ArithmeticOps::mul(self, other)
    }
}

impl Transpose for i64 {
    open spec fn t_spec(&self) -> i64 {
        *self
    }

    fn t(&self) -> (r: i64) {
        *self
    }
}

} // verus!
