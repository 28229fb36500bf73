//! The numeric interface that coordinates must offer, and its instances for
//! the signed machine integers.

use vstd::prelude::*;

verus! {

/// Half of `v`, rounded towards zero.
pub open spec fn half(v: int) -> int {
    if v >= 0 {
        v / 2
    } else {
        -((-v) / 2)
    }
}

/// The distance of `v` from zero.
pub open spec fn magnitude(v: int) -> nat {
    if v >= 0 {
        v as nat
    } else {
        (-v) as nat
    }
}

/// An ordered numeric type that stands for a bounded range of the integers.
pub trait Scalar: Copy + Sized {
    /// The integer that this value stands for.
    spec fn value(self) -> int;

    /// The smallest integer that the type can hold.
    spec fn lowest() -> int;

    /// The largest integer that the type can hold.
    spec fn highest() -> int;

    /// Every value lies within the range of its type, and so does zero.
    proof fn lemma_range(self)
        ensures
            Self::lowest() <= self.value() <= Self::highest(),
            Self::lowest() <= 0 <= Self::highest(),
    ;

    /// The value that stands for zero.
    fn zero() -> (z: Self)
        ensures
            z.value() == 0,
    ;

    /// Whether `self` is strictly below `other`.
    fn less(self, other: Self) -> (below: bool)
        ensures
            below == (self.value() < other.value()),
    ;

    /// The sum of two values, or `None` where the type cannot hold it.
    fn checked_plus(self, other: Self) -> (sum: Option<Self>)
        ensures
            match sum {
                Some(s) => s.value() == self.value() + other.value(),
                None => !(Self::lowest() <= self.value() + other.value() <= Self::highest()),
            },
    ;

    /// The difference of two values, or `None` where the type cannot hold it.
    fn checked_minus(self, other: Self) -> (difference: Option<Self>)
        ensures
            match difference {
                Some(d) => d.value() == self.value() - other.value(),
                None => !(Self::lowest() <= self.value() - other.value() <= Self::highest()),
            },
    ;

    /// Half of the value, rounded towards zero.
    fn halved(self) -> (h: Self)
        ensures
            h.value() == half(self.value()),
    ;
}

/// Whether the integer `v` lies within the range of `T`.
pub open spec fn representable<T: Scalar>(v: int) -> bool {
    T::lowest() <= v <= T::highest()
}

/// The sum of two values, where the type can hold it.
pub fn plus<T: Scalar>(a: T, b: T) -> (sum: T)
    requires
        representable::<T>(a.value() + b.value()),
    ensures
        sum.value() == a.value() + b.value(),
{
    a.checked_plus(b).unwrap()
}

/// The difference of two values, where the type can hold it.
pub fn minus<T: Scalar>(a: T, b: T) -> (difference: T)
    requires
        representable::<T>(a.value() - b.value()),
    ensures
        difference.value() == a.value() - b.value(),
{
    a.checked_minus(b).unwrap()
}

impl Scalar for i64 {
    open spec fn value(self) -> int {
        self as int
    }

    open spec fn lowest() -> int {
        i64::MIN as int
    }

    open spec fn highest() -> int {
        i64::MAX as int
    }

    proof fn lemma_range(self) {
    }

    fn zero() -> (z: Self) {
        0
    }

    fn less(self, other: Self) -> (below: bool) {
        self < other
    }

    fn checked_plus(self, other: Self) -> (sum: Option<Self>) {
        self.checked_add(other)
    }

    fn checked_minus(self, other: Self) -> (difference: Option<Self>) {
        self.checked_sub(other)
    }

    fn halved(self) -> (h: Self) {
        self / 2
    }
}

impl Scalar for i32 {
    open spec fn value(self) -> int {
        self as int
    }

    open spec fn lowest() -> int {
        i32::MIN as int
    }

    open spec fn highest() -> int {
        i32::MAX as int
    }

    proof fn lemma_range(self) {
    }

    fn zero() -> (z: Self) {
        0
    }

    fn less(self, other: Self) -> (below: bool) {
        self < other
    }

    fn checked_plus(self, other: Self) -> (sum: Option<Self>) {
        self.checked_add(other)
    }

    fn checked_minus(self, other: Self) -> (difference: Option<Self>) {
        self.checked_sub(other)
    }

    fn halved(self) -> (h: Self) {
        self / 2
    }
}

} // verus!
