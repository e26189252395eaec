//! Vectors of the plane.

use vstd::prelude::*;
use vstd::std_specs::convert::IntoSpec;
use vstd::std_specs::ops::{AddSpec, MulSpec, SubSpec};

verus! {

/// A vector of the plane, given by its two components.
#[derive(Clone, Copy, PartialEq, Eq, Hash)]
pub struct Vector2D<T>(T, T);

impl<T> View for Vector2D<T> {
    type V = (T, T);

    /// The components, `x` first.
    closed spec fn view(&self) -> (T, T) {
        (self.0, self.1)
    }
}

/// Creates the vector whose components are `x` and `y` converted to `T`.
pub fn v2<T: Copy, U: Into<T>>(x: U, y: U) -> (res: Vector2D<T>)
    ensures
        U::obeys_into_spec() ==> res@ == (x.into_spec(), y.into_spec()),
{
    Vector2D::new(x.into(), y.into())
}

impl<T: Copy> Vector2D<T> {
    /// Creates the vector with components `x` and `y`.
    pub fn new(x: T, y: T) -> (res: Self)
        ensures
            res@ == (x, y),
    {
        Self(x, y)
    }

    /// Returns the first component.
    pub fn x(&self) -> (res: T)
        ensures
            res == self@.0,
    {
        self.0
    }

    /// Returns the second component.
    pub fn y(&self) -> (res: T)
        ensures
            res == self@.1,
    {
        self.1
    }
}

impl<T: Copy + Default> Vector2D<T> {
    /// Returns the vector both of whose components are the default value
    /// of `T`.
    pub fn zero() -> (res: Self)
        ensures
            call_ensures(T::default, (), res@.0),
            call_ensures(T::default, (), res@.1),
    {
        Vector2D(T::default(), T::default())
    }
}

impl<
    T: Copy + std::ops::Add<Output = T> + std::ops::Sub<Output = T> + std::ops::Neg<
        Output = T,
    > + std::ops::Mul<Output = T>,
> Vector2D<T> {
    /// Returns `x * y + rhs.x * rhs.y`: the sum, over both vectors, of the
    /// product of a vector's own components.
    pub fn inner(&self, rhs: Self) -> (res: T)
        requires
            self@.0.mul_req(self@.1),
            rhs@.0.mul_req(rhs@.1),
            T::obeys_mul_spec() ==> self@.0.mul_spec(self@.1).add_req(rhs@.0.mul_spec(rhs@.1)),
            !T::obeys_mul_spec() ==> forall|a: T, b: T| a.add_req(b),
        ensures
            T::obeys_mul_spec() && T::obeys_add_spec() ==> res == self@.0.mul_spec(
                self@.1,
            ).add_spec(rhs@.0.mul_spec(rhs@.1)),
    {
        self.x() * self.y() + rhs.x() * rhs.y()
    }

    /// Returns the outer product `x * rhs.y - y * rhs.x`.
    pub fn outer(&self, rhs: Self) -> (res: T)
        requires
            self@.0.mul_req(rhs@.1),
            self@.1.mul_req(rhs@.0),
            T::obeys_mul_spec() ==> self@.0.mul_spec(rhs@.1).sub_req(self@.1.mul_spec(rhs@.0)),
            !T::obeys_mul_spec() ==> forall|a: T, b: T| a.sub_req(b),
        ensures
            T::obeys_mul_spec() && T::obeys_sub_spec() ==> res == self@.0.mul_spec(
                rhs@.1,
            ).sub_spec(self@.1.mul_spec(rhs@.0)),
    {
        self.x() * rhs.y() - self.y() * rhs.x()
    }
}

} // verus!
