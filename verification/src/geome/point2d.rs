//! Points of the plane.

use vstd::prelude::*;
use vstd::std_specs::convert::IntoSpec;
use vstd::std_specs::ops::SubSpec;
use crate::geome::vector2d::Vector2D;

verus! {

/// A point of the plane, given by its two coordinates.
#[derive(Clone, Copy, PartialEq, Eq, Hash)]
pub struct Point2D<T>(T, T);

impl<T> View for Point2D<T> {
    type V = (T, T);

    /// The coordinates, `x` first.
    closed spec fn view(&self) -> (T, T) {
        (self.0, self.1)
    }
}

/// Creates the point whose coordinates are `x` and `y` converted to `T`.
pub fn p2<T: Copy, U: Into<T>>(x: U, y: U) -> (res: Point2D<T>)
    ensures
        U::obeys_into_spec() ==> res@ == (x.into_spec(), y.into_spec()),
{
    Point2D::new(x.into(), y.into())
}

impl<T: Copy> Point2D<T> {
    /// Creates the point with coordinates `x` and `y`.
    pub fn new(x: T, y: T) -> (res: Self)
        ensures
            res@ == (x, y),
    {
        Self(x, y)
    }

    /// Returns the first coordinate.
    pub fn x(&self) -> (res: T)
        ensures
            res == self@.0,
    {
        self.0
    }

    /// Returns the second coordinate.
    pub fn y(&self) -> (res: T)
        ensures
            res == self@.1,
    {
        self.1
    }
}

impl<T: Copy + Default> Point2D<T> {
    /// Returns the point both of whose coordinates are the default value
    /// of `T`.
    pub fn zero() -> (res: Self)
        ensures
            call_ensures(T::default, (), res@.0),
            call_ensures(T::default, (), res@.1),
    {
        Point2D(T::default(), T::default())
    }
}

impl<
    T: Copy + std::ops::Add<Output = T> + std::ops::Sub<Output = T> + std::ops::Neg<Output = T>,
> Point2D<T> {
    /// Returns the vector that leads from `self` to `rhs`.
    pub fn to(&self, rhs: Self) -> (res: Vector2D<T>)
        requires
            rhs@.0.sub_req(self@.0),
            rhs@.1.sub_req(self@.1),
        ensures
            T::obeys_sub_spec() ==> res@ == (rhs@.0.sub_spec(self@.0), rhs@.1.sub_spec(self@.1)),
    {
        Vector2D::new(rhs.x() - self.x(), rhs.y() - self.y())
    }
}

} // verus!
