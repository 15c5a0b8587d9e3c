use vstd::prelude::*;

verus! {

/// The field that matrix and vector coefficients are drawn from.
///
/// Each operation is a function of its arguments alone; the `*_spec`
/// functions name those results, and every executable operation returns
/// exactly what its spec function names. An implementation for IEEE-754
/// doubles maps them onto the machine operations one for one.
pub trait Scalar: Copy + Sized {
    spec fn zero_spec() -> Self;

    spec fn ratio_spec(num: u32, den: u32) -> Self;

    spec fn plus_spec(self, other: Self) -> Self;

    spec fn minus_spec(self, other: Self) -> Self;

    spec fn times_spec(self, other: Self) -> Self;

    spec fn over_spec(self, other: Self) -> Self;

    spec fn negated_spec(self) -> Self;

    spec fn magnitude_spec(self) -> Self;

    spec fn square_root_spec(self) -> Self;

    spec fn larger_spec(self, other: Self) -> Self;

    spec fn less_than_spec(self, other: Self) -> bool;

    spec fn is_zero_spec(self) -> bool;

    spec fn is_normal_spec(self) -> bool;

    spec fn is_finite_spec(self) -> bool;

    /// The additive identity.
    fn zero() -> (r: Self)
        ensures
            r == Self::zero_spec(),
    ;

    /// The value nearest to `num / den`.
    fn ratio(num: u32, den: u32) -> (r: Self)
        ensures
            r == Self::ratio_spec(num, den),
    ;

    fn plus(self, other: Self) -> (r: Self)
        ensures
            r == self.plus_spec(other),
    ;

    fn minus(self, other: Self) -> (r: Self)
        ensures
            r == self.minus_spec(other),
    ;

    fn times(self, other: Self) -> (r: Self)
        ensures
            r == self.times_spec(other),
    ;

    fn over(self, other: Self) -> (r: Self)
        ensures
            r == self.over_spec(other),
    ;

    fn negated(self) -> (r: Self)
        ensures
            r == self.negated_spec(),
    ;

    fn magnitude(self) -> (r: Self)
        ensures
            r == self.magnitude_spec(),
    ;

    fn square_root(self) -> (r: Self)
        ensures
            r == self.square_root_spec(),
    ;

    /// The larger of the two values.
    fn larger(self, other: Self) -> (r: Self)
        ensures
            r == self.larger_spec(other),
    ;

    fn less_than(self, other: Self) -> (r: bool)
        ensures
            r == self.less_than_spec(other),
    ;

    fn is_zero(self) -> (r: bool)
        ensures
            r == self.is_zero_spec(),
    ;

    /// Whether the value is neither zero, subnormal, infinite nor undefined.
    fn is_normal(self) -> (r: bool)
        ensures
            r == self.is_normal_spec(),
    ;

    /// Whether the value is neither infinite nor undefined.
    fn is_finite(self) -> (r: bool)
        ensures
            r == self.is_finite_spec(),
    ;
}

} // verus!
