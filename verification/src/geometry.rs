//! Points and axis-aligned rectangles, with the half-open containment test
//! and the intersection of two rectangles.

use vstd::prelude::*;
use crate::scalar::{magnitude, minus, plus, representable, Scalar};

verus! {

/// A position in the plane, as a pair of integers.
pub struct Point {
    pub x: int,
    pub y: int,
}

/// An axis-aligned rectangle in the plane: one corner and two signed sides.
pub struct Region {
    pub left: int,
    pub top: int,
    pub width: int,
    pub height: int,
}

/// The smaller of two integers.
pub open spec fn lesser(a: int, b: int) -> int {
    if a < b {
        a
    } else {
        b
    }
}

/// The larger of two integers.
pub open spec fn greater(a: int, b: int) -> int {
    if a > b {
        a
    } else {
        b
    }
}

/// Whether `v` lies in the half-open interval between `start` and
/// `start + extent`, whichever of the two is the lower end.
pub open spec fn within(start: int, extent: int, v: int) -> bool {
    lesser(start, start + extent) <= v < greater(start, start + extent)
}

impl Region {
    /// The lower end of the rectangle on the horizontal axis.
    pub open spec fn min_x(self) -> int {
        lesser(self.left, self.left + self.width)
    }

    /// The upper end of the rectangle on the horizontal axis.
    pub open spec fn max_x(self) -> int {
        greater(self.left, self.left + self.width)
    }

    /// The lower end of the rectangle on the vertical axis.
    pub open spec fn min_y(self) -> int {
        lesser(self.top, self.top + self.height)
    }

    /// The upper end of the rectangle on the vertical axis.
    pub open spec fn max_y(self) -> int {
        greater(self.top, self.top + self.height)
    }

    /// Whether the point lies in the rectangle. The lower edges belong to
    /// the rectangle, the upper edges do not.
    pub open spec fn contains(self, p: Point) -> bool {
        &&& self.min_x() <= p.x < self.max_x()
        &&& self.min_y() <= p.y < self.max_y()
    }

    /// The test whether a point lies in the rectangle, as a predicate.
    pub open spec fn holds(self) -> spec_fn(Point) -> bool {
        |p: Point| self.contains(p)
    }

    /// Whether every point of the sequence lies in the rectangle.
    pub open spec fn holds_each(self, points: Seq<Point>) -> bool {
        forall|i: int| 0 <= i < points.len() ==> self.contains(#[trigger] points[i])
    }

    /// The same area with sides that are not negative.
    pub open spec fn normalized(self) -> Region {
        Region {
            left: self.min_x(),
            top: self.min_y(),
            width: self.max_x() - self.min_x(),
            height: self.max_y() - self.min_y(),
        }
    }

    /// The area that two rectangles share, if that area is not empty.
    pub open spec fn overlap(self, other: Region) -> Option<Region> {
        let left = greater(self.min_x(), other.min_x());
        let top = greater(self.min_y(), other.min_y());
        let right = lesser(self.max_x(), other.max_x());
        let bottom = lesser(self.max_y(), other.max_y());
        if left < right && top < bottom {
            Some(Region { left, top, width: right - left, height: bottom - top })
        } else {
            None
        }
    }

    /// Whether all corners and the lengths of both sides lie between `lo`
    /// and `hi`.
    pub open spec fn fits(self, lo: int, hi: int) -> bool {
        &&& lo <= self.left <= hi
        &&& lo <= self.top <= hi
        &&& lo <= self.left + self.width <= hi
        &&& lo <= self.top + self.height <= hi
        &&& magnitude(self.width) <= hi
        &&& magnitude(self.height) <= hi
    }
}

/// A position in the plane.
#[derive(Debug, Clone, Copy, Ord, PartialOrd, Eq, PartialEq)]
pub struct Vector2<T> {
    pub x: T,
    pub y: T,
}

impl<T> Vector2<T> {
    /// The position with the given coordinates.
    pub fn new(x: T, y: T) -> (v: Self)
        ensures
            v.x == x,
            v.y == y,
    {
        Vector2 { x, y }
    }
}

impl<T: Scalar> View for Vector2<T> {
    type V = Point;

    open spec fn view(&self) -> Point {
        Point { x: self.x.value(), y: self.y.value() }
    }
}

/// An axis-aligned rectangle: the corner `(left, top)` and two sides that
/// may be negative. A rectangle with a negative side covers the same area
/// as the one that starts at the other end of that side.
#[derive(Debug, Clone, Copy, Ord, PartialOrd, Eq, PartialEq)]
pub struct Rect<T> {
    pub left: T,
    pub top: T,
    pub width: T,
    pub height: T,
}

impl<T: Scalar> View for Rect<T> {
    type V = Region;

    open spec fn view(&self) -> Region {
        Region {
            left: self.left.value(),
            top: self.top.value(),
            width: self.width.value(),
            height: self.height.value(),
        }
    }
}

/// The first argument if it is below the second, else the second.
pub fn min<T: Scalar>(i: T, n: T) -> (m: T)
    ensures
        m == (if i.value() < n.value() { i } else { n }),
{
    if i.less(n) {
        i
    } else {
        n
    }
}

/// The first argument if it is above the second, else the second.
pub fn max<T: Scalar>(i: T, n: T) -> (m: T)
    ensures
        m == (if i.value() > n.value() { i } else { n }),
{
    if n.less(i) {
        i
    } else {
        n
    }
}

/// Whether `v` lies between `start` and `start + extent`, lower end
/// included and upper end excluded, also where the type cannot hold
/// `start + extent`.
fn span_contains<T: Scalar>(start: T, extent: T, v: T) -> (inside: bool)
    ensures
        inside == within(start.value(), extent.value(), v.value()),
{
    proof {
        v.lemma_range();
        start.lemma_range();
    }
    match start.checked_plus(extent) {
        Some(end) => !v.less(min(start, end)) && v.less(max(start, end)),
        None => {
            if T::zero().less(extent) {
                !v.less(start)
            } else {
                v.less(start)
            }
        },
    }
}

/// Whether the type can hold `start + extent`.
fn corner_fits<T: Scalar>(start: T, extent: T) -> (ok: bool)
    ensures
        ok == representable::<T>(start.value() + extent.value()),
{
    match start.checked_plus(extent) {
        Some(end) => {
            proof {
                end.lemma_range();
            }
            true
        },
        None => false,
    }
}

/// Whether the type can hold the distance of `extent` from zero.
fn length_fits<T: Scalar>(extent: T) -> (ok: bool)
    ensures
        ok == (magnitude(extent.value()) <= T::highest()),
{
    proof {
        extent.lemma_range();
    }
    if extent.less(T::zero()) {
        match T::zero().checked_minus(extent) {
            Some(length) => {
                proof {
                    length.lemma_range();
                }
                true
            },
            None => false,
        }
    } else {
        true
    }
}

impl<T: Scalar> Rect<T> {
    /// The rectangle with the given corner and sides.
    pub fn new(left: T, top: T, width: T, height: T) -> (r: Self)
        ensures
            r == (Rect { left, top, width, height }),
    {
        Rect { left, top, width, height }
    }

    /// The rectangle with the corner `position` and the sides `size`.
    pub fn from_points(position: Vector2<T>, size: Vector2<T>) -> (r: Self)
        ensures
            r == (Rect { left: position.x, top: position.y, width: size.x, height: size.y }),
    {
        Rect { left: position.x, top: position.y, width: size.x, height: size.y }
    }

    /// Whether the type `T` can hold all corners of the rectangle and the
    /// lengths of its sides.
    pub open spec fn valid(self) -> bool {
        self@.fits(T::lowest(), T::highest())
    }

    /// Whether the rectangle is valid, tested at run time.
    pub fn is_valid(self) -> (ok: bool)
        ensures
            ok == self.valid(),
    {
        proof {
            self.left.lemma_range();
            self.top.lemma_range();
        }
        corner_fits(self.left, self.width) && corner_fits(self.top, self.height)
            && length_fits(self.width) && length_fits(self.height)
    }

    /// Whether the point lies in the rectangle. The lower edge on each axis
    /// belongs to the rectangle, the upper edge does not.
    pub fn contains(self, position: Vector2<T>) -> (inside: bool)
        ensures
            inside == self@.contains(position@),
    {
        span_contains(self.left, self.width, position.x)
            && span_contains(self.top, self.height, position.y)
    }

    /// The area that the two rectangles share, with positive sides, or
    /// `None` where they share none. Rectangles that only touch share
    /// none.
    pub fn overlap(self, rect: Rect<T>) -> (common: Option<Rect<T>>)
        requires
            self.valid(),
            rect.valid(),
        ensures
            match common {
                Some(c) => self@.overlap(rect@) == Some(c@),
                None => self@.overlap(rect@) is None,
            },
    {
        let s_end_x = plus(self.left, self.width);
        let s_end_y = plus(self.top, self.height);
        let r_end_x = plus(rect.left, rect.width);
        let r_end_y = plus(rect.top, rect.height);
        let (s_min_x, s_max_x) = (min(self.left, s_end_x), max(self.left, s_end_x));
        let (s_min_y, s_max_y) = (min(self.top, s_end_y), max(self.top, s_end_y));
        let (r_min_x, r_max_x) = (min(rect.left, r_end_x), max(rect.left, r_end_x));
        let (r_min_y, r_max_y) = (min(rect.top, r_end_y), max(rect.top, r_end_y));

        let left = max(s_min_x, r_min_x);
        let top = max(s_min_y, r_min_y);
        let right = min(s_max_x, r_max_x);
        let bottom = min(s_max_y, r_max_y);

        if left.less(right) && top.less(bottom) {
            proof {
                left.lemma_range();
            }
            return Some(Rect::new(left, top, minus(right, left), minus(bottom, top)));
        }
        None
    }
}

} // verus!
