//! Rectangles in the logical (DPI-independent) integer coordinate space,
//! their mathematical model, and the inner-gap inset operation.

use vstd::prelude::*;

verus! {

/// Largest coordinate or dimension magnitude the engine accepts. Keeping all
/// inputs within this bound guarantees that every intermediate sum or
/// difference the solver computes fits in an `i32`.
pub const MAX_DIM: i32 = 0x0FFF_FFFF;

/// An axis-aligned rectangle: location `(x, y)` plus size `(w, h)`.
/// Immutable value type.
#[derive(Clone, Copy, Debug, PartialEq, Eq, Structural)]
pub struct Rect {
    pub x: i32,
    pub y: i32,
    pub w: i32,
    pub h: i32,
}

/// The mathematical model of a rectangle: the same four components as
/// unbounded integers.
pub ghost struct GRect {
    pub x: int,
    pub y: int,
    pub w: int,
    pub h: int,
}

impl Rect {
    /// The model of this rectangle.
    pub open spec fn view(self) -> GRect {
        GRect { x: self.x as int, y: self.y as int, w: self.w as int, h: self.h as int }
    }
}

/// Whether the point `(px, py)` lies inside `r` (origin inclusive, far
/// edges exclusive).
pub open spec fn in_rect(r: GRect, px: int, py: int) -> bool {
    &&& r.x <= px < r.x + r.w
    &&& r.y <= py < r.y + r.h
}

/// `r` shrunk by the inner gap `g` on all four sides: the origin moves
/// inward by `g` and each dimension loses `2 g`.
pub open spec fn shrink(r: GRect, g: int) -> GRect {
    GRect { x: r.x + g, y: r.y + g, w: r.w - 2 * g, h: r.h - 2 * g }
}

/// All four components of `r` lie within `b` in magnitude.
pub open spec fn rect_bounded(r: GRect, b: int) -> bool {
    &&& -b <= r.x <= b
    &&& -b <= r.y <= b
    &&& -b <= r.w <= b
    &&& -b <= r.h <= b
}

/// Two rectangles lie side by side with `a`'s right edge on `b`'s left edge:
/// their interiors touch along a vertical line.
pub open spec fn adjacent_horizontal(a: GRect, b: GRect) -> bool {
    a.x + a.w == b.x
}

/// Two rectangles are stacked with `a`'s bottom edge on `b`'s top edge.
pub open spec fn adjacent_vertical(a: GRect, b: GRect) -> bool {
    a.y + a.h == b.y
}

/// Horizontally adjacent rectangles, once each is shrunk by the inner gap
/// `g`, show a separation of exactly `2 g` between `a`'s right boundary and
/// `b`'s left boundary: `g` contributed by each side.
pub proof fn lemma_gap_separation_horizontal(a: GRect, b: GRect, g: int)
    requires
        adjacent_horizontal(a, b),
    ensures
        shrink(b, g).x - (shrink(a, g).x + shrink(a, g).w) == 2 * g,
{
}

/// Vertically adjacent rectangles, once each is shrunk by the inner gap `g`,
/// show a separation of exactly `2 g` between `a`'s bottom boundary and `b`'s
/// top boundary.
pub proof fn lemma_gap_separation_vertical(a: GRect, b: GRect, g: int)
    requires
        adjacent_vertical(a, b),
    ensures
        shrink(b, g).y - (shrink(a, g).y + shrink(a, g).h) == 2 * g,
{
}

} // verus!
