//! Axis-aligned rectangles on the integer pixel grid and their overlap.

use vstd::prelude::*;

verus! {

/// Numerator of the overlap threshold: two rectangles overlap too much when
/// their intersection is more than 45/100 of their union.
pub const IOU_THRESHOLD_NUMERATOR: i128 = 45;

/// Denominator of the overlap threshold.
pub const IOU_THRESHOLD_DENOMINATOR: i128 = 100;

/// A rectangle: its top-left corner and its extent, in pixels.  A rectangle
/// whose width or height is not positive covers nothing.
#[derive(Debug, Clone, Copy, PartialEq, Eq, Structural)]
pub struct Rect {
    pub x: i32,
    pub y: i32,
    pub width: i32,
    pub height: i32,
}

/// Length of the intersection of the intervals `[a, a + a_len)` and
/// `[b, b + b_len)`.
pub open spec fn shared_length(a: int, a_len: int, b: int, b_len: int) -> int {
    let low = if a >= b { a } else { b };
    let high = if a + a_len <= b + b_len { a + a_len } else { b + b_len };
    if high > low { high - low } else { 0 }
}

impl Rect {
    /// Whether the rectangle covers at least one pixel.
    pub open spec fn has_area(self) -> bool {
        self.width > 0 && self.height > 0
    }

    /// Number of pixels that the rectangle covers.
    pub open spec fn area(self) -> int {
        if self.has_area() {
            self.width * self.height
        } else {
            0
        }
    }

    /// Number of pixels that both rectangles cover.
    pub open spec fn intersection_area(self, other: Rect) -> int {
        if self.has_area() && other.has_area() {
            shared_length(self.x as int, self.width as int, other.x as int, other.width as int)
                * shared_length(
                self.y as int,
                self.height as int,
                other.y as int,
                other.height as int,
            )
        } else {
            0
        }
    }

    /// Number of pixels that at least one of the rectangles covers.
    pub open spec fn union_area(self, other: Rect) -> int {
        self.area() + other.area() - self.intersection_area(other)
    }

    /// Whether the intersection over union of the two rectangles exceeds
    /// the threshold 45/100.  Stated without a division, so that a pair
    /// with an empty union does not overlap.
    pub open spec fn overlaps(self, other: Rect) -> bool {
        IOU_THRESHOLD_DENOMINATOR * self.intersection_area(other) > IOU_THRESHOLD_NUMERATOR
            * self.union_area(other)
    }

    /// Computes `area`.
    pub fn pixel_count(&self) -> (count: i64)
        ensures
            count == self.area(),
            0 <= count <= 0x3fff_ffff_0000_0001,
    {
        if self.width > 0 && self.height > 0 {
            let w: i64 = self.width as i64;
            let h: i64 = self.height as i64;
            assert(0 < w * h <= 0x7fff_ffff * 0x7fff_ffff) by (nonlinear_arith)
                requires
                    0 < w <= 0x7fff_ffff,
                    0 < h <= 0x7fff_ffff,
            ;
            w * h
        } else {
            0
        }
    }

    /// Computes `intersection_area`.
    pub fn shared_pixel_count(&self, other: &Rect) -> (count: i64)
        ensures
            count == self.intersection_area(*other),
            0 <= count <= self.area(),
            count <= other.area(),
    {
        if self.width > 0 && self.height > 0 && other.width > 0 && other.height > 0 {
            let w: i64 = shared_extent(self.x, self.width, other.x, other.width);
            let h: i64 = shared_extent(self.y, self.height, other.y, other.height);
            proof {
                lemma_product_bounded(w as int, h as int, self.width as int, self.height as int);
                lemma_product_bounded(w as int, h as int, other.width as int, other.height as int);
                lemma_product_bounded(
                    self.width as int,
                    self.height as int,
                    0x7fff_ffff,
                    0x7fff_ffff,
                );
            }
            w * h
        } else {
            0
        }
    }

    /// Computes `overlaps`.
    pub fn overlaps_with(&self, other: &Rect) -> (over: bool)
        ensures
            over == self.overlaps(*other),
    {
        let shared: i128 = self.shared_pixel_count(other) as i128;
        let joint: i128 = self.pixel_count() as i128 + other.pixel_count() as i128 - shared;
        IOU_THRESHOLD_DENOMINATOR * shared > IOU_THRESHOLD_NUMERATOR * joint
    }

    /// The intersection is part of either rectangle, so the intersection
    /// over union never exceeds one.
    pub proof fn lemma_intersection_bounded(self, other: Rect)
        ensures
            0 <= self.intersection_area(other) <= self.area(),
            self.intersection_area(other) <= other.area(),
            self.intersection_area(other) <= self.union_area(other),
    {
        if self.has_area() && other.has_area() {
            let w = shared_length(
                self.x as int,
                self.width as int,
                other.x as int,
                other.width as int,
            );
            let h = shared_length(
                self.y as int,
                self.height as int,
                other.y as int,
                other.height as int,
            );
            lemma_product_bounded(w, h, self.width as int, self.height as int);
            lemma_product_bounded(w, h, other.width as int, other.height as int);
        }
    }

    /// Overlap does not depend on the order of the two rectangles.
    pub proof fn lemma_overlap_symmetric(self, other: Rect)
        ensures
            self.intersection_area(other) == other.intersection_area(self),
            self.union_area(other) == other.union_area(self),
            self.overlaps(other) == other.overlaps(self),
    {
    }

    /// A rectangle that covers a pixel overlaps itself; one that covers
    /// nothing overlaps no rectangle.
    pub proof fn lemma_overlap_needs_area(self, other: Rect)
        ensures
            self.has_area() ==> self.overlaps(self),
            !self.has_area() ==> !self.overlaps(other) && !other.overlaps(self),
    {
        self.lemma_intersection_bounded(other);
        other.lemma_intersection_bounded(self);
        if self.has_area() {
            assert(self.width * self.height > 0) by (nonlinear_arith)
                requires
                    self.width > 0,
                    self.height > 0,
            ;
        }
    }
}

/// A product of two bounded factors is bounded by the product of the bounds.
proof fn lemma_product_bounded(a: int, b: int, a_max: int, b_max: int)
    requires
        0 <= a <= a_max,
        0 <= b <= b_max,
    ensures
        0 <= a * b <= a_max * b_max,
{
    assert(0 <= a * b <= a_max * b_max) by (nonlinear_arith)
        requires
            0 <= a <= a_max,
            0 <= b <= b_max,
    ;
}

/// Computes `shared_length` for an interval pair with positive lengths.
fn shared_extent(a: i32, a_len: i32, b: i32, b_len: i32) -> (len: i64)
    requires
        a_len > 0,
        b_len > 0,
    ensures
        len == shared_length(a as int, a_len as int, b as int, b_len as int),
        0 <= len <= a_len,
        len <= b_len,
{
    let low: i64 = if a >= b { a as i64 } else { b as i64 };
    let a_end: i64 = a as i64 + a_len as i64;
    let b_end: i64 = b as i64 + b_len as i64;
    let high: i64 = if a_end <= b_end { a_end } else { b_end };
    if high > low {
        high - low
    } else {
        0
    }
}

} // verus!
