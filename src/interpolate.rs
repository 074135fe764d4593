use vstd::prelude::*;

verus! {

/// Data that can be linearly interpolated along a simplex edge.
///
/// `a` and `b` are the (level-shifted) field samples at the ends `self` and `other` of the edge;
/// the result stands at parameter `x = a / (a - b)` on the way from `self` to `other`, that is
/// `(1 - x) * self + x * other`. Callers only interpolate across edges whose samples lie on
/// opposite sides of the level, so `a != b`.
pub trait Interpolate<T>: Sized {
    /// The interpolated value, as a mathematical function of its arguments.
    spec fn interpolated(&self, other: &Self, a: T, b: T) -> Self;

    fn interpolate(&self, other: &Self, a: T, b: T) -> (r: Self)
        ensures
            r == self.interpolated(other, a, b),
    ;
}

/// An empty payload interpolates to itself.
impl<T> Interpolate<T> for () {
    open spec fn interpolated(&self, other: &Self, a: T, b: T) -> Self {
        ()
    }

    fn interpolate(&self, other: &Self, a: T, b: T) -> (r: Self) {
        ()
    }
}

/// A pair interpolates component by component, with the same weights.
impl<T: Copy, U: Interpolate<T>, V: Interpolate<T>> Interpolate<T> for (U, V) {
    open spec fn interpolated(&self, other: &Self, a: T, b: T) -> Self {
        (self.0.interpolated(&other.0, a, b), self.1.interpolated(&other.1, a, b))
    }

    fn interpolate(&self, other: &Self, a: T, b: T) -> (r: Self) {
        (self.0.interpolate(&other.0, a, b), self.1.interpolate(&other.1, a, b))
    }
}

} // verus!
