//! N-dimensional arrays of results, held by `ndarray`.
use vstd::prelude::*;
use ndarray::{ArrayD, ShapeError};
use crate::broadcasting::spec_product;
use crate::number::NumericValue;

verus! {

/// The error of `ndarray`'s shape checks.
#[verifier::external_type_specification]
#[verifier::external_body]
pub struct ExShapeError(ShapeError);

/// An N-dimensional array of values, held by an `ndarray` array. Its
/// contents are known to verification only through `array_values` and
/// `array_shape`, as `array_from_shape_vec` states them.
#[verifier::external_body]
pub struct ResultArray {
    pub array: ArrayD<NumericValue>,
}

/// The elements of an array, in row-major order.
pub uninterp spec fn array_values(a: ResultArray) -> Seq<NumericValue>;

/// The axis lengths of an array.
pub uninterp spec fn array_shape(a: ResultArray) -> Seq<usize>;

/// The product of the non-zero axis lengths of a shape.
pub open spec fn nonzero_product(shape: Seq<usize>) -> nat
    decreases shape.len(),
{
    if shape.len() == 0 {
        1
    } else if shape.last() == 0 {
        nonzero_product(shape.drop_last())
    } else {
        nonzero_product(shape.drop_last()) * (shape.last() as nat)
    }
}

/// `ArrayD::from_shape_vec` of ndarray: an array of the shape `shape` whose
/// elements in row-major order are `values`. Its source refuses, with a
/// `ShapeError`, exactly a shape whose product of non-zero axis lengths
/// exceeds `isize::MAX` and a shape whose number of elements differs from
/// the number of values.
#[verifier::external_body]
pub(crate) fn array_from_shape_vec(shape: Vec<usize>, values: Vec<NumericValue>) -> (r: Result<ResultArray, ShapeError>)
    ensures
        (r is Ok) == (nonzero_product(shape@) <= isize::MAX && spec_product(shape@) == values@.len()),
        r matches Ok(a) ==> array_values(a) == values@ && array_shape(a) == shape@,
{
    ArrayD::from_shape_vec(shape, values).map(|array| ResultArray { array })
}

} // verus!
