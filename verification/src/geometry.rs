//! Integer pixel rectangles.
use vstd::prelude::*;

verus! {

/// Largest magnitude a coordinate handed to a layout pass may have. Every
/// intermediate value of a layout pass then fits in 64 bits.
pub const COORD_LIMIT: i64 = 0x1000_0000_0000_0000;

/// An axis-aligned rectangle in whole pixels. `w` and `h` may be zero or
/// negative: such a rectangle contains no point.
#[derive(Clone, Copy, Debug, PartialEq, Eq, Structural)]
pub struct Rect {
    pub x: i64,
    pub y: i64,
    pub w: i64,
    pub h: i64,
}

impl Rect {
    /// The point `(px, py)` lies inside: left and top edges belong to the
    /// rectangle, right and bottom edges do not.
    pub open spec fn spec_contains(self, px: int, py: int) -> bool {
        &&& self.x <= px < self.x + self.w
        &&& self.y <= py < self.y + self.h
    }

    /// Signed area, `w * h`.
    pub open spec fn area(self) -> int {
        self.w * self.h
    }

    /// Both corners lie within `COORD_LIMIT` of the origin on each axis.
    pub open spec fn bounded(self) -> bool {
        &&& -COORD_LIMIT <= self.x <= COORD_LIMIT
        &&& -COORD_LIMIT <= self.y <= COORD_LIMIT
        &&& -COORD_LIMIT <= self.x + self.w <= COORD_LIMIT
        &&& -COORD_LIMIT <= self.y + self.h <= COORD_LIMIT
    }

    pub fn new(x: i64, y: i64, w: i64, h: i64) -> (r: Rect)
        ensures
            r == (Rect { x, y, w, h }),
    {
        Rect { x, y, w, h }
    }

    /// Hit test. The point is taken in 128 bits so that a probe computed
    /// from any rectangle and any gap can be passed without wrapping.
    pub fn contains(&self, px: i128, py: i128) -> (hit: bool)
        ensures
            hit == self.spec_contains(px as int, py as int),
    {
        let right: i128 = self.x as i128 + self.w as i128;
        let bottom: i128 = self.y as i128 + self.h as i128;
        self.x as i128 <= px && px < right && self.y as i128 <= py && py < bottom
    }

    /// Whether `bounded` holds, for callers that must test before a layout
    /// pass.
    pub fn is_bounded(&self) -> (ok: bool)
        ensures
            ok == self.bounded(),
    {
        let right: i128 = self.x as i128 + self.w as i128;
        let bottom: i128 = self.y as i128 + self.h as i128;
        let lim: i128 = COORD_LIMIT as i128;
        -lim <= self.x as i128 && self.x as i128 <= lim && -lim <= self.y as i128 && self.y as i128
            <= lim && -lim <= right && right <= lim && -lim <= bottom && bottom <= lim
    }
}

impl Default for Rect {
    fn default() -> (r: Rect)
        ensures
            r == (Rect { x: 0, y: 0, w: 0, h: 0 }),
    {
        Rect { x: 0, y: 0, w: 0, h: 0 }
    }
}

} // verus!
