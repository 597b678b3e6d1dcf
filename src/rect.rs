//! Rectangles and points on an integer grid, and how a rectangle is cut in two.

use vstd::arithmetic::div_mod::{lemma_div_is_ordered, lemma_div_multiples_vanish};
use vstd::arithmetic::mul::{lemma_mul_inequality, lemma_mul_is_distributive_sub, lemma_mul_upper_bound};
use vstd::prelude::*;

verus! {

/// An axis-aligned rectangle on an integer grid.
///
/// `x` and `y` are the top-left corner, `w` and `h` the extent. Coordinates are
/// grid units chosen by the caller (pixels, or a finer fixed-point resolution).
#[derive(Clone, Copy, Debug, PartialEq, Eq, Structural)]
pub struct Rect {
    pub x: u32,
    pub y: u32,
    pub w: u32,
    pub h: u32,
}

/// A point on the same grid as `Rect`.
#[derive(Clone, Copy, Debug, PartialEq, Eq, Structural)]
pub struct Point {
    pub x: u32,
    pub y: u32,
}

impl Rect {
    /// The rectangle's right and bottom edges stay on the grid.
    pub open spec fn fits(self) -> bool {
        self.x + self.w <= u32::MAX && self.y + self.h <= u32::MAX
    }

    pub open spec fn area(self) -> int {
        self.w * self.h
    }

    pub open spec fn spec_contains(self, p: Point) -> bool {
        self.x <= p.x && p.x < self.x + self.w && self.y <= p.y && p.y < self.y + self.h
    }

    pub fn new(x: u32, y: u32, w: u32, h: u32) -> (r: Rect)
        ensures
            r == (Rect { x, y, w, h }),
    {
        Rect { x, y, w, h }
    }

    /// Half-open containment: the left and top edges belong to the rectangle,
    /// the right and bottom edges do not.
    pub fn contains(&self, p: Point) -> (r: bool)
        ensures
            r == self.spec_contains(p),
    {
        let px = p.x as u64;
        let py = p.y as u64;
        self.x as u64 <= px && px < self.x as u64 + self.w as u64 && self.y as u64 <= py && py
            < self.y as u64 + self.h as u64
    }

    pub fn area_of(&self) -> (r: u64)
        ensures
            r == self.area(),
    {
        proof {
            lemma_mul_upper_bound(
                self.w as int,
                u32::MAX as int,
                self.h as int,
                u32::MAX as int,
            );
        }
        self.w as u64 * self.h as u64
    }
}


/// A fraction `num / den` between zero and one.
#[derive(Clone, Copy, Debug, PartialEq, Eq, Structural)]
pub struct Ratio {
    pub num: u64,
    pub den: u64,
}

impl Ratio {
    pub open spec fn valid(self) -> bool {
        0 < self.den && self.num <= self.den
    }
}

/// `len * r`, rounded down to the grid.
pub open spec fn scaled(len: u32, r: Ratio) -> int {
    (len * r.num) / (r.den as int)
}

pub proof fn lemma_scaled_bounds(len: u32, r: Ratio)
    requires
        r.valid(),
    ensures
        0 <= scaled(len, r) <= len,
{
    lemma_mul_inequality(r.num as int, r.den as int, len as int);
    assert(len * r.num <= len * r.den) by (nonlinear_arith)
        requires
            r.num <= r.den,
    ;
    lemma_div_is_ordered(len * r.num, len * r.den, r.den as int);
    lemma_div_multiples_vanish(len as int, r.den as int);
    assert(len * r.num >= 0) by (nonlinear_arith);
    vstd::arithmetic::div_mod::lemma_div_pos_is_pos(len * r.num, r.den as int);
}

/// The left part of `rect` that keeps the fraction `r` of its width, and the rest.
pub open spec fn split_columns(rect: Rect, r: Ratio) -> (Rect, Rect) {
    let w1 = scaled(rect.w, r) as u32;
    (
        Rect { x: rect.x, y: rect.y, w: w1, h: rect.h },
        Rect { x: (rect.x + w1) as u32, y: rect.y, w: (rect.w - w1) as u32, h: rect.h },
    )
}

/// The top part of `rect` that keeps the fraction `r` of its height, and the rest.
pub open spec fn split_rows(rect: Rect, r: Ratio) -> (Rect, Rect) {
    let h1 = scaled(rect.h, r) as u32;
    (
        Rect { x: rect.x, y: rect.y, w: rect.w, h: h1 },
        Rect { x: rect.x, y: (rect.y + h1) as u32, w: rect.w, h: (rect.h - h1) as u32 },
    )
}

/// Splitting a rectangle in two loses no area and keeps both parts on the grid.
pub proof fn lemma_split_conserves_area(rect: Rect, r: Ratio)
    requires
        r.valid(),
        rect.fits(),
    ensures
        split_columns(rect, r).0.fits(),
        split_columns(rect, r).1.fits(),
        split_columns(rect, r).0.area() + split_columns(rect, r).1.area() == rect.area(),
        split_rows(rect, r).0.fits(),
        split_rows(rect, r).1.fits(),
        split_rows(rect, r).0.area() + split_rows(rect, r).1.area() == rect.area(),
{
    lemma_scaled_bounds(rect.w, r);
    lemma_scaled_bounds(rect.h, r);
    let w1 = scaled(rect.w, r);
    let h1 = scaled(rect.h, r);
    lemma_mul_is_distributive_sub(rect.h as int, rect.w as int, w1);
    lemma_mul_is_distributive_sub(rect.w as int, rect.h as int, h1);
    assert(w1 * rect.h + (rect.w - w1) * rect.h == rect.w * rect.h) by (nonlinear_arith);
    assert(rect.w * h1 + rect.w * (rect.h - h1) == rect.w * rect.h) by (nonlinear_arith);
}

fn scale(len: u32, r: Ratio) -> (out: u32)
    requires
        r.valid(),
    ensures
        out == scaled(len, r),
{
    proof {
        lemma_scaled_bounds(len, r);
        lemma_mul_upper_bound(len as int, u32::MAX as int, r.num as int, u64::MAX as int);
    }
    let prod: u128 = len as u128 * r.num as u128;
    (prod / r.den as u128) as u32
}

impl Rect {
    /// Side by side: the left part keeps the fraction `r` of the width.
    pub fn divide_horizontally(&self, r: Ratio) -> (out: (Rect, Rect))
        requires
            r.valid(),
            self.fits(),
        ensures
            out == split_columns(*self, r),
    {
        proof {
            lemma_scaled_bounds(self.w, r);
        }
        let w1 = scale(self.w, r);
        (
            Rect { x: self.x, y: self.y, w: w1, h: self.h },
            Rect { x: self.x + w1, y: self.y, w: self.w - w1, h: self.h },
        )
    }

    /// Stacked: the top part keeps the fraction `r` of the height.
    pub fn divide_vertically(&self, r: Ratio) -> (out: (Rect, Rect))
        requires
            r.valid(),
            self.fits(),
        ensures
            out == split_rows(*self, r),
    {
        proof {
            lemma_scaled_bounds(self.h, r);
        }
        let h1 = scale(self.h, r);
        (
            Rect { x: self.x, y: self.y, w: self.w, h: h1 },
            Rect { x: self.x, y: self.y + h1, w: self.w, h: self.h - h1 },
        )
    }
}

/// How close a rectangle is to a square: `min(w, h) / max(w, h)`, and zero
/// when it has no height.
pub open spec fn squareness_of(rect: Rect) -> Ratio {
    if rect.h == 0 {
        Ratio { num: 0, den: 1 }
    } else if rect.w <= rect.h {
        Ratio { num: rect.w as u64, den: rect.h as u64 }
    } else {
        Ratio { num: rect.h as u64, den: rect.w as u64 }
    }
}

pub fn squareness(rect: &Rect) -> (r: Ratio)
    ensures
        r == squareness_of(*rect),
        r.valid(),
{
    if rect.h == 0 {
        Ratio { num: 0, den: 1 }
    } else if rect.w <= rect.h {
        Ratio { num: rect.w as u64, den: rect.h as u64 }
    } else {
        Ratio { num: rect.h as u64, den: rect.w as u64 }
    }
}

} // verus!
