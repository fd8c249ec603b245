//! A 4x4 matrix stored as sixteen values in column-major order.
use vstd::prelude::*;

verus! {

/// A 4x4 matrix: sixteen values in column-major order.
#[derive(Clone, Debug)]
pub struct Matrix4<T>(pub [T; 16]);

impl<T> Matrix4<T> {
    /// The sixteen values, in storage order.
    pub open spec fn data(&self) -> Seq<T> {
        self.0@
    }

    /// The matrix with the given values.
    pub fn new(data: [T; 16]) -> (r: Matrix4<T>)
        ensures
            r.data() == data@,
    {
        Matrix4(data)
    }

    /// The matrix whose every value is a clone of `value`.
    pub fn fill(value: T) -> (r: Matrix4<T>)
        where
            T: Clone,
        ensures
            r.data().len() == 16,
            forall|i: int| 0 <= i < 16 ==> cloned(value, #[trigger] r.data()[i]),
    {
        let data = [
            value.clone(),
            value.clone(),
            value.clone(),
            value.clone(),
            value.clone(),
            value.clone(),
            value.clone(),
            value.clone(),
            value.clone(),
            value.clone(),
            value.clone(),
            value.clone(),
            value.clone(),
            value.clone(),
            value.clone(),
            value.clone(),
        ];
        Matrix4(data)
    }
}

} // verus!
