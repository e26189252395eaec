//! The order of vectors by their argument, the angle they make with the
//! positive x-axis.

use std::cmp::Ordering;
use vstd::prelude::*;
use vstd::std_specs::cmp::OrdSpec;
use vstd::std_specs::ops::MulSpec;
use crate::geome::vector2d::Vector2D;

verus! {

/// The vector `v` lies below the x-axis or on its negative half, where `z`
/// is zero: its argument, counted from zero, is at least a half turn.
pub open spec fn in_lower_half<T: Ord>(v: (T, T), z: T) -> bool {
    match v.1.cmp_spec(&z) {
        Ordering::Less => true,
        Ordering::Equal => v.0.cmp_spec(&z) == Ordering::Less,
        Ordering::Greater => false,
    }
}

/// The vector `v` lies on or above the x-axis, where `z` is zero.
pub open spec fn in_upper_part<T: Ord>(v: (T, T), z: T) -> bool {
    v.1.cmp_spec(&z) != Ordering::Less
}

/// The vector `v` lies on the negative half of the x-axis, where `z` is
/// zero.
pub open spec fn on_negative_axis<T: Ord>(v: (T, T), z: T) -> bool {
    v.1.cmp_spec(&z) == Ordering::Equal && v.0.cmp_spec(&z) == Ordering::Less
}

/// The order of `false` and `true`, `false` first.
pub open spec fn flag_order(a: bool, b: bool) -> Ordering {
    if a == b {
        Ordering::Equal
    } else if b {
        Ordering::Less
    } else {
        Ordering::Greater
    }
}

/// The order of `o.x * s.y` and `s.x * o.y`: for two vectors within a half
/// turn of each other, `Less` when `s` comes first counter-clockwise.
pub open spec fn turn_order<T: Ord + std::ops::Mul<Output = T>>(s: (T, T), o: (T, T)) -> Ordering {
    o.0.mul_spec(s.1).cmp_spec(&s.0.mul_spec(o.1))
}

/// The order of `s` and `o` by argument in `[0, 2 pi)`, where `z` is zero.
pub open spec fn unsigned_arg_order<T: Ord + std::ops::Mul<Output = T>>(
    s: (T, T),
    o: (T, T),
    z: T,
) -> Ordering {
    match flag_order(in_lower_half(s, z), in_lower_half(o, z)) {
        Ordering::Equal => turn_order(s, o),
        other => other,
    }
}

/// The order of `s` and `o` by argument in `(-pi, pi]`, where `z` is zero.
pub open spec fn signed_arg_order<T: Ord + std::ops::Mul<Output = T>>(
    s: (T, T),
    o: (T, T),
    z: T,
) -> Ordering {
    match flag_order(in_upper_part(s, z), in_upper_part(o, z)) {
        Ordering::Equal => match flag_order(on_negative_axis(s, z), on_negative_axis(o, z)) {
            Ordering::Equal => turn_order(s, o),
            other => other,
        },
        other => other,
    }
}

/// Neither component of `v` is to be multiplied out of range when `v` is
/// compared with `o`.
pub open spec fn turn_defined<T: Ord + std::ops::Mul<Output = T>>(s: (T, T), o: (T, T)) -> bool {
    o.0.mul_req(s.1) && s.0.mul_req(o.1)
}

/// Returns the order of two flags, `false` first.
fn order_flags(a: bool, b: bool) -> (res: Ordering)
    ensures
        res == flag_order(a, b),
{
    if a == b {
        Ordering::Equal
    } else if b {
        Ordering::Less
    } else {
        Ordering::Greater
    }
}

impl<T: Ord + std::ops::Mul<Output = T> + Copy + Default> Vector2D<T> {
    /// Returns whether `a` is less than `z`.
    fn is_below(a: T, z: T) -> (res: bool)
        ensures
            T::obeys_cmp_spec() ==> res == (a.cmp_spec(&z) == Ordering::Less),
    {
        match a.cmp(&z) {
            Ordering::Less => true,
            _ => false,
        }
    }

    /// Returns whether `a` equals `z` in the order of `T`.
    fn is_level(a: T, z: T) -> (res: bool)
        ensures
            T::obeys_cmp_spec() ==> res == (a.cmp_spec(&z) == Ordering::Equal),
    {
        match a.cmp(&z) {
            Ordering::Equal => true,
            _ => false,
        }
    }

    /// Compares `o.x * s.y` with `s.x * o.y`.
    fn turn(&self, other: &Self) -> (res: Ordering)
        requires
            turn_defined(self@, other@),
        ensures
            T::obeys_cmp_spec() && T::obeys_mul_spec() ==> res == turn_order(self@, other@),
    {
        (other.x() * self.y()).cmp(&(self.x() * other.y()))
    }

    /// Compares `self` and `other` by their argument (polar angle).  The
    /// argument is measured counter-clockwise from the positive x-axis,
    /// ranging over `[0, 2 pi)`.  The positive x-axis has argument 0.
    pub fn arg_cmp_unsigned(&self, other: &Self) -> (res: Ordering)
        requires
            forall|z: T|
                call_ensures(T::default, (), z) ==> !(self@ == (z, z)) && !(other@ == (z, z)) && (
                !T::obeys_cmp_spec() || in_lower_half(self@, z) == in_lower_half(other@, z)
                    ==> turn_defined(self@, other@)),
        ensures
            T::obeys_cmp_spec() && T::obeys_mul_spec() ==> exists|z: T|
                call_ensures(T::default, (), z) && res == unsigned_arg_order(self@, other@, z),
    {
        let z = T::default();
        let a = Self::is_below(self.y(), z) || (Self::is_level(self.y(), z) && Self::is_below(
            self.x(),
            z,
        ));
        let b = Self::is_below(other.y(), z) || (Self::is_level(other.y(), z) && Self::is_below(
            other.x(),
            z,
        ));
        let res = match order_flags(a, b) {
            Ordering::Equal => self.turn(other),
            first => first,
        };
        proof {
            if T::obeys_cmp_spec() && T::obeys_mul_spec() {
                assert(call_ensures(T::default, (), z) && res == unsigned_arg_order(
                    self@,
                    other@,
                    z,
                ));
            }
        }
        res
    }

    /// Compares `self` and `other` by their argument (polar angle).  The
    /// argument is measured counter-clockwise from the positive x-axis,
    /// ranging over `(-pi, pi]`.  The positive x-axis has argument 0.
    pub fn arg_cmp_signed(&self, other: &Self) -> (res: Ordering)
        requires
            forall|z: T|
                call_ensures(T::default, (), z) ==> !(self@ == (z, z)) && !(other@ == (z, z)) && (
                !T::obeys_cmp_spec() || (in_upper_part(self@, z) == in_upper_part(other@, z)
                    && on_negative_axis(self@, z) == on_negative_axis(other@, z)) ==> turn_defined(
                    self@,
                    other@,
                )),
        ensures
            T::obeys_cmp_spec() && T::obeys_mul_spec() ==> exists|z: T|
                call_ensures(T::default, (), z) && res == signed_arg_order(self@, other@, z),
    {
        let z = T::default();
        let a1 = !Self::is_below(self.y(), z);
        let b1 = !Self::is_below(other.y(), z);
        let a2 = Self::is_level(self.y(), z) && Self::is_below(self.x(), z);
        let b2 = Self::is_level(other.y(), z) && Self::is_below(other.x(), z);
        let res = match order_flags(a1, b1) {
            Ordering::Equal => match order_flags(a2, b2) {
                Ordering::Equal => self.turn(other),
                second => second,
            },
            first => first,
        };
        proof {
            if T::obeys_cmp_spec() && T::obeys_mul_spec() {
                assert(call_ensures(T::default, (), z) && res == signed_arg_order(
                    self@,
                    other@,
                    z,
                ));
            }
        }
        res
    }
}

} // verus!
