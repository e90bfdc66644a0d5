//! What a layout pass guarantees: the windows of a tree tile the area they
//! were laid out in.
use crate::frame::split::first_area;
use crate::frame::split::inset;
use crate::frame::split::second_area;
use crate::frame::split::Ratio;
use crate::frame::split::Split;
use crate::frame::split::SplitDirection;
use crate::frame::window::Window;
use crate::geometry::Rect;
use vstd::prelude::*;

verus! {

/// The sum of the signed areas of `windows`.
pub open spec fn total_area(windows: Seq<Window>) -> int
    decreases windows.len(),
{
    if windows.len() == 0 {
        0
    } else {
        total_area(windows.drop_last()) + windows.last().dimensions.area()
    }
}

/// How many of `windows` contain the point `(px, py)`.
pub open spec fn hits(windows: Seq<Window>, px: int, py: int) -> nat
    decreases windows.len(),
{
    if windows.len() == 0 {
        0
    } else {
        hits(windows.drop_last(), px, py) + if windows.last().dimensions.spec_contains(px, py) {
            1nat
        } else {
            0nat
        }
    }
}

/// `total_area` and `hits` add up over concatenation.
pub proof fn lemma_concat(a: Seq<Window>, b: Seq<Window>, px: int, py: int)
    ensures
        total_area(a + b) == total_area(a) + total_area(b),
        hits(a + b, px, py) == hits(a, px, py) + hits(b, px, py),
    decreases b.len(),
{
    if b.len() == 0 {
        assert(a + b =~= a);
    } else {
        assert((a + b).drop_last() =~= a + b.drop_last());
        assert((a + b).last() == b.last());
        lemma_concat(a, b.drop_last(), px, py);
    }
}

/// The two parts of a divided area stay within the coordinate limit, add up
/// to the area, and between them contain exactly the points of the area,
/// none of them twice.
pub proof fn lemma_parts(area: Rect, ratio: Ratio, direction: SplitDirection, px: int, py: int)
    requires
        area.bounded(),
        ratio.wf(),
    ensures
        first_area(area, ratio, direction).bounded(),
        second_area(area, ratio, direction).bounded(),
        first_area(area, ratio, direction).area() + second_area(area, ratio, direction).area()
            == area.area(),
        area.spec_contains(px, py) <==> (first_area(area, ratio, direction).spec_contains(px, py)
            || second_area(area, ratio, direction).spec_contains(px, py)),
        !(first_area(area, ratio, direction).spec_contains(px, py) && second_area(
            area,
            ratio,
            direction,
        ).spec_contains(px, py)),
{
    let extent: int = match direction {
        SplitDirection::Horizontal => area.w as int,
        SplitDirection::Vertical => area.h as int,
    };
    let part = ratio.share(extent);
    if extent >= 0 {
        crate::frame::split::lemma_share_bounds(extent, ratio.num as int, ratio.den as int);
        assert(0 <= part <= extent);
    } else {
        crate::frame::split::lemma_share_bounds(-extent, ratio.num as int, ratio.den as int);
        assert(extent <= part <= 0);
    }
    let other: int = match direction {
        SplitDirection::Horizontal => area.h as int,
        SplitDirection::Vertical => area.w as int,
    };
    assert(part * other + (extent - part) * other == extent * other) by (nonlinear_arith);
    assert(other * part + other * (extent - part) == other * extent) by (nonlinear_arith);
}

impl Split {
    /// A layout pass keeps the splits, the number of windows and the buffer
    /// each window shows.
    pub proof fn lemma_resized_keeps(self, area: Rect, gap: i64)
        ensures
            self.resized(area, gap).wf() == self.wf(),
            self.resized(area, gap).count() == self.count(),
            forall|i: int|
                0 <= i < self.count() ==> (#[trigger] self.resized(area, gap).windows()[i]).buffer_index
                    == self.windows()[i].buffer_index,
        decreases self,
    {
        match self {
            Split::Window(_) => {},
            Split::Split(first, second, ratio, direction) => {
                first.lemma_resized_keeps(first_area(area, ratio, direction), gap);
                second.lemma_resized_keeps(second_area(area, ratio, direction), gap);
            },
        }
    }

    /// Tiling: with no gap, the windows' areas add up to the area laid out,
    /// and a point lies in exactly one window if it lies in the area and in
    /// none otherwise. So the windows cover the area without gaps or
    /// overlaps.
    pub proof fn lemma_tiling(self, area: Rect, px: int, py: int)
        requires
            self.wf(),
            area.bounded(),
        ensures
            total_area(self.resized(area, 0).windows()) == area.area(),
            hits(self.resized(area, 0).windows(), px, py) == (if area.spec_contains(px, py) {
                1nat
            } else {
                0nat
            }),
        decreases self,
    {
        match self {
            Split::Window(w) => {
                assert(inset(area, 0) == area);
                let ws = self.resized(area, 0).windows();
                assert(ws.drop_last() =~= Seq::<Window>::empty());
                assert(total_area(ws.drop_last()) == 0);
                assert(hits(ws.drop_last(), px, py) == 0);
            },
            Split::Split(first, second, ratio, direction) => {
                let a = first_area(area, ratio, direction);
                let b = second_area(area, ratio, direction);
                lemma_parts(area, ratio, direction, px, py);
                first.lemma_tiling(a, px, py);
                second.lemma_tiling(b, px, py);
                lemma_concat(first.resized(a, 0).windows(), second.resized(b, 0).windows(), px, py);
            },
        }
    }
}

} // verus!
