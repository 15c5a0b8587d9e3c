use vstd::prelude::*;
use crate::scalar::Scalar;

verus! {

/// The sum of the products `a[q] * b[q]` for `q < i`, accumulated from
/// index 0 upward, starting from zero.
pub open spec fn dot_upto<T: Scalar>(a: Seq<T>, b: Seq<T>, i: int) -> T
    decreases i,
{
    if i <= 0 {
        T::zero_spec()
    } else {
        dot_upto(a, b, i - 1).plus_spec(a[i - 1].times_spec(b[i - 1]))
    }
}

/// The dot product of two vectors of equal length.
pub open spec fn dot_spec<T: Scalar>(a: Seq<T>, b: Seq<T>) -> T {
    dot_upto(a, b, a.len() as int)
}

/// The largest magnitude among `a[q]` for `q < i`, folded from index 0
/// upward, starting from zero.
pub open spec fn largest_upto<T: Scalar>(a: Seq<T>, i: int) -> T
    decreases i,
{
    if i <= 0 {
        T::zero_spec()
    } else {
        largest_upto(a, i - 1).magnitude_spec().larger_spec(a[i - 1].magnitude_spec())
    }
}

/// The largest magnitude of an element; zero for an empty sequence.
pub open spec fn largest_spec<T: Scalar>(a: Seq<T>) -> T {
    largest_upto(a, a.len() as int)
}

/// The element-wise sum of two sequences.
pub open spec fn sum_spec<T: Scalar>(a: Seq<T>, b: Seq<T>) -> Seq<T> {
    Seq::new(a.len(), |i: int| a[i].plus_spec(b[i]))
}

/// Every element of `a` multiplied by `factor`.
pub open spec fn scaled_spec<T: Scalar>(a: Seq<T>, factor: T) -> Seq<T> {
    Seq::new(a.len(), |i: int| a[i].times_spec(factor))
}

/// `n` zeros.
pub open spec fn zeros_spec<T: Scalar>(n: nat) -> Seq<T> {
    Seq::new(n, |i: int| T::zero_spec())
}

/// Every element is finite.
pub open spec fn all_finite<T: Scalar>(a: Seq<T>) -> bool {
    forall|i: int| 0 <= i < a.len() ==> (#[trigger] a[i]).is_finite_spec()
}

/// A dense vector of fixed length.
#[derive(Clone, Debug)]
pub struct Vector<T>(pub Vec<T>);

impl<T: Scalar> Vector<T> {
    pub open spec fn len_spec(&self) -> nat {
        self.0@.len()
    }

    /// A vector of `n` zeros.
    pub fn zeros(n: usize) -> (r: Vector<T>)
        ensures
            r.len_spec() == n,
            forall|i: int| 0 <= i < n ==> #[trigger] r.0@[i] == T::zero_spec(),
            r.0@ == zeros_spec::<T>(n as nat),
    {
        let z = T::zero();
        let mut v: Vec<T> = Vec::with_capacity(n);
        let mut i: usize = 0;
        while i < n
            invariant
                i <= n,
                v@.len() == i,
                z == T::zero_spec(),
                forall|q: int| 0 <= q < i ==> #[trigger] v@[q] == T::zero_spec(),
            decreases n - i,
        {
            v.push(z);
            i = i + 1;
        }
        assert(v@ =~= zeros_spec::<T>(n as nat));
        Vector(v)
    }

    /// Whether every element is finite.
    pub fn is_finite(&self) -> (r: bool)
        ensures
            r == all_finite(self.0@),
    {
        let mut i: usize = 0;
        while i < self.0.len()
            invariant
                i <= self.0@.len(),
                forall|q: int| 0 <= q < i ==> (#[trigger] self.0@[q]).is_finite_spec(),
            decreases self.0@.len() - i,
        {
            if !self.0[i].is_finite() {
                return false;
            }
            i = i + 1;
        }
        true
    }

    /// An element-for-element copy.
    pub fn copied(&self) -> (r: Vector<T>)
        ensures
            r.0@ == self.0@,
    {
        let mut v: Vec<T> = Vec::with_capacity(self.0.len());
        let mut i: usize = 0;
        while i < self.0.len()
            invariant
                i <= self.0@.len(),
                v@ == self.0@.subrange(0, i as int),
            decreases self.0@.len() - i,
        {
            v.push(self.0[i]);
            i = i + 1;
            assert(v@ =~= self.0@.subrange(0, i as int));
        }
        assert(self.0@.subrange(0, i as int) =~= self.0@);
        Vector(v)
    }

    /// The largest magnitude of an element; zero for an empty vector. The
    /// elements must be finite.
    pub fn largest_absolute_value(&self) -> (r: T)
        requires
            all_finite(self.0@),
        ensures
            r == largest_spec(self.0@),
    {
        let mut acc = T::zero();
        let mut i: usize = 0;
        while i < self.0.len()
            invariant
                i <= self.0@.len(),
                acc == largest_upto(self.0@, i as int),
            decreases self.0@.len() - i,
        {
            acc = acc.magnitude().larger(self.0[i].magnitude());
            i = i + 1;
        }
        acc
    }

    /// The sum of the element-wise products, accumulated from the first
    /// element to the last. Both vectors must be finite and of one length.
    pub fn dot(&self, other: &Vector<T>) -> (r: T)
        requires
            self.len_spec() == other.len_spec(),
            all_finite(self.0@),
            all_finite(other.0@),
        ensures
            r == dot_spec(self.0@, other.0@),
    {
        let mut acc = T::zero();
        let mut i: usize = 0;
        while i < self.0.len()
            invariant
                i <= self.0@.len(),
                self.0@.len() == other.0@.len(),
                acc == dot_upto(self.0@, other.0@, i as int),
            decreases self.0@.len() - i,
        {
            acc = acc.plus(self.0[i].times(other.0[i]));
            i = i + 1;
        }
        acc
    }

    /// Every element multiplied by `factor`. The vector and the factor must
    /// be finite; zero and subnormal factors are accepted.
    pub fn scale(&self, factor: T) -> (r: Vector<T>)
        requires
            all_finite(self.0@),
            factor.is_finite_spec(),
        ensures
            r.len_spec() == self.len_spec(),
            forall|i: int| 0 <= i < self.len_spec() ==> #[trigger] r.0@[i] == self.0@[i].times_spec(
                factor,
            ),
            r.0@ == scaled_spec(self.0@, factor),
    {
        let mut v: Vec<T> = Vec::with_capacity(self.0.len());
        let mut i: usize = 0;
        while i < self.0.len()
            invariant
                i <= self.0@.len(),
                v@.len() == i,
                forall|q: int| 0 <= q < i ==> #[trigger] v@[q] == self.0@[q].times_spec(factor),
            decreases self.0@.len() - i,
        {
            v.push(self.0[i].times(factor));
            i = i + 1;
        }
        assert(v@ =~= scaled_spec(self.0@, factor));
        Vector(v)
    }

    /// The element-wise sum. Both vectors must be finite and of one length.
    pub fn add(&self, other: &Vector<T>) -> (r: Vector<T>)
        requires
            self.len_spec() == other.len_spec(),
            all_finite(self.0@),
            all_finite(other.0@),
        ensures
            r.len_spec() == self.len_spec(),
            forall|i: int| 0 <= i < self.len_spec() ==> #[trigger] r.0@[i] == self.0@[i].plus_spec(
                other.0@[i],
            ),
            r.0@ == sum_spec(self.0@, other.0@),
    {
        let mut v: Vec<T> = Vec::with_capacity(self.0.len());
        let mut i: usize = 0;
        while i < self.0.len()
            invariant
                i <= self.0@.len(),
                self.0@.len() == other.0@.len(),
                v@.len() == i,
                forall|q: int| 0 <= q < i ==> #[trigger] v@[q] == self.0@[q].plus_spec(other.0@[q]),
            decreases self.0@.len() - i,
        {
            v.push(self.0[i].plus(other.0[i]));
            i = i + 1;
        }
        assert(v@ =~= sum_spec(self.0@, other.0@));
        Vector(v)
    }
}

} // verus!
