//! A tab: one split tree, the window selected in it, and a count of its
//! windows.
use crate::frame::split::doubled;
use crate::frame::split::Split;
use crate::frame::split::SplitDirection;
use crate::frame::window::Window;
use crate::geometry::Rect;
use crate::geometry::COORD_LIMIT;
use vstd::prelude::*;

verus! {

/// One tab of the frame: a split tree under a name. `windows` counts the
/// windows of the tree, and `selected` is the ordinal of the window that
/// takes the input.
pub struct Tab {
    pub name: String,
    pub inner: Split,
    /// The number of windows in `inner`.
    pub windows: usize,
    /// The ordinal of the selected window.
    pub selected: usize,
}

/// `index` is the first window, by ordinal, that contains the point.
pub open spec fn is_first_hit(windows: Seq<Window>, px: int, py: int, index: int) -> bool {
    &&& 0 <= index < windows.len()
    &&& windows[index].dimensions.spec_contains(px, py)
    &&& forall|j: int| 0 <= j < index ==> !(#[trigger] windows[j]).dimensions.spec_contains(px, py)
}

/// No window contains the point.
pub open spec fn no_hit(windows: Seq<Window>, px: int, py: int) -> bool {
    forall|j: int| 0 <= j < windows.len() ==> !(#[trigger] windows[j]).dimensions.spec_contains(px, py)
}

/// The point probed by a move up from `r`: a little right of the left edge
/// and above the top edge, beyond the gap.
pub open spec fn probe_up(r: Rect, gap: i64) -> (int, int) {
    (r.x + 2, r.y - 2 * gap - 4)
}

/// The point probed by a move down from `r`.
pub open spec fn probe_down(r: Rect, gap: i64) -> (int, int) {
    (r.x + 2, r.y + r.h + 2 * gap + 4)
}

/// The point probed by a move left from `r`.
pub open spec fn probe_left(r: Rect, gap: i64) -> (int, int) {
    (r.x - 2 * gap - 4, r.y + 2)
}

/// The point probed by a move right from `r`.
pub open spec fn probe_right(r: Rect, gap: i64) -> (int, int) {
    (r.x + r.w + 2 * gap + 4, r.y + 2)
}

impl Tab {
    /// The count matches the tree and the selection names a window.
    pub open spec fn wf(self) -> bool {
        &&& self.inner.wf()
        &&& self.windows == self.inner.count()
        &&& self.selected < self.windows
    }

    /// The selected window.
    pub open spec fn selected_window(self) -> Window {
        self.inner.windows()[self.selected as int]
    }

    /// The tab after the selected window was divided along `direction`.
    pub open spec fn after_split(self, direction: SplitDirection) -> Tab {
        Tab {
            name: self.name,
            inner: self.inner.replaced(
                self.selected as int,
                doubled(self.selected_window(), direction),
            ),
            windows: (self.windows + 1) as usize,
            selected: self.selected,
        }
    }

    /// The tab after the selected window was removed; the tab itself if it
    /// has one window only.
    pub open spec fn after_kill(self) -> Tab {
        if self.windows > 1 {
            Tab {
                name: self.name,
                inner: self.inner.killed(self.selected as int),
                windows: (self.windows - 1) as usize,
                selected: if self.selected >= self.windows - 1 {
                    (self.windows - 2) as usize
                } else {
                    self.selected
                },
            }
        } else {
            self
        }
    }

    /// The tab with its selection moved to the first window that contains
    /// `probe`, or unchanged if none does.
    pub open spec fn moved_to(self, other: Tab, probe: (int, int)) -> bool {
        &&& other.name == self.name
        &&& other.inner == self.inner
        &&& other.windows == self.windows
        &&& if no_hit(self.inner.windows(), probe.0, probe.1) {
            other.selected == self.selected
        } else {
            is_first_hit(self.inner.windows(), probe.0, probe.1, other.selected as int)
        }
    }

    /// A tab of one window that shows the buffer at `buffer_index`.
    pub fn new(name: String, buffer_index: usize) -> (tab: Tab)
        ensures
            tab.wf(),
            tab.name == name,
            tab.inner == Split::Window(
                Window { dimensions: Rect { x: 0, y: 0, w: 0, h: 0 }, buffer_index },
            ),
            tab.windows == 1,
            tab.selected == 0,
    {
        Tab {
            name,
            inner: Split::Window(Window::new(Rect::default(), buffer_index)),
            windows: 1,
            selected: 0,
        }
    }

    /// Lays the tab's tree out over `dimensions`.
    pub fn resize(&mut self, dimensions: Rect, gap_size: i64)
        requires
            old(self).wf(),
            dimensions.bounded(),
            -COORD_LIMIT <= gap_size <= COORD_LIMIT,
        ensures
            final(self).inner == old(self).inner.resized(dimensions, gap_size),
            final(self).name == old(self).name,
            final(self).windows == old(self).windows,
            final(self).selected == old(self).selected,
            final(self).wf(),
    {
        proof {
            self.inner.lemma_resized_keeps(dimensions, gap_size);
        }
        self.inner.resize(dimensions, gap_size);
    }

    /// Removes the selected window, unless it is the tab's last. The
    /// selection keeps its ordinal, or moves to the new last window if the
    /// one removed was last.
    pub fn kill_pane(&mut self)
        requires
            old(self).wf(),
        ensures
            final(self).wf(),
            *final(self) == old(self).after_kill(),
    {
        if self.windows > 1 {
            proof {
                self.inner.lemma_killed(self.selected as int);
            }
            self.inner.kill_pane(self.selected);
            self.windows -= 1;
            if self.selected >= self.windows {
                self.selected = self.windows - 1;
            }
        }
    }

    /// Divides the selected window in two along `direction`. Both halves
    /// show the buffer the window showed; the selection stays on the first.
    pub fn split(&mut self, direction: SplitDirection)
        requires
            old(self).wf(),
            old(self).windows < usize::MAX,
        ensures
            final(self).wf(),
            *final(self) == old(self).after_split(direction),
    {
        proof {
            Split::lemma_doubled(self.selected_window(), direction);
            self.inner.lemma_replaced(
                self.selected as int,
                doubled(self.selected_window(), direction),
            );
        }
        let res = self.inner.split(self.selected, direction);
        assert(res is Ok);
        self.windows += 1;
    }

    /// Selects the first window, by ordinal, that contains `(px, py)`.
    fn select_at(&mut self, px: i128, py: i128)
        requires
            old(self).wf(),
        ensures
            old(self).moved_to(*final(self), (px as int, py as int)),
    {
        let ghost all = self.inner.windows();
        let mut walk = self.inner.iter();
        let mut ordinal: usize = 0;
        let mut hit: Option<usize> = None;
        loop
            invariant_except_break
                walk@ == all.skip(ordinal as int),
                hit is None,
            invariant
                self.wf(),
                all == self.inner.windows(),
                ordinal <= all.len(),
                forall|j: int|
                    0 <= j < ordinal ==> !(#[trigger] all[j]).dimensions.spec_contains(
                        px as int,
                        py as int,
                    ),
            ensures
                hit is None ==> no_hit(all, px as int, py as int),
                hit matches Some(found) ==> is_first_hit(all, px as int, py as int, found as int),
            decreases all.len() - ordinal,
        {
            match walk.next() {
                None => {
                    break ;
                },
                Some(window) => {
                    assert(*window == all[ordinal as int]);
                    if window.dimensions.contains(px, py) {
                        hit = Some(ordinal);
                        break ;
                    }
                    assert(all.skip(ordinal as int).skip(1) =~= all.skip(ordinal + 1));
                    ordinal += 1;
                },
            }
        }
        match hit {
            Some(found) => {
                self.selected = found;
            },
            None => {},
        }
    }

    /// Moves the selection to the window above the selected one: the first
    /// window, by ordinal, that contains `probe_up` of the selected window.
    /// The selection stays where it is if no window does.
    pub fn move_up(&mut self, window_gaps: i64)
        requires
            old(self).wf(),
        ensures
            old(self).moved_to(
                *final(self),
                probe_up(old(self).selected_window().dimensions, window_gaps),
            ),
    {
        let dims: Rect = match self.inner.idx(self.selected) {
            Some(window) => window.dimensions,
            None => {
                return ;
            },
        };
        let px: i128 = dims.x as i128 + 2;
        let py: i128 = dims.y as i128 - (window_gaps as i128) * 2 - 4;
        self.select_at(px, py);
    }

    /// Moves the selection to the window below the selected one: the first
    /// window, by ordinal, that contains `probe_down` of the selected
    /// window. The selection stays where it is if no window does.
    pub fn move_down(&mut self, window_gaps: i64)
        requires
            old(self).wf(),
        ensures
            old(self).moved_to(
                *final(self),
                probe_down(old(self).selected_window().dimensions, window_gaps),
            ),
    {
        let dims: Rect = match self.inner.idx(self.selected) {
            Some(window) => window.dimensions,
            None => {
                return ;
            },
        };
        let px: i128 = dims.x as i128 + 2;
        let py: i128 = dims.y as i128 + dims.h as i128 + (window_gaps as i128) * 2 + 4;
        self.select_at(px, py);
    }

    /// Moves the selection to the window right of the selected one: the
    /// first window, by ordinal, that contains `probe_right` of the selected
    /// window. The selection stays where it is if no window does.
    pub fn move_right(&mut self, window_gaps: i64)
        requires
            old(self).wf(),
        ensures
            old(self).moved_to(
                *final(self),
                probe_right(old(self).selected_window().dimensions, window_gaps),
            ),
    {
        let dims: Rect = match self.inner.idx(self.selected) {
            Some(window) => window.dimensions,
            None => {
                return ;
            },
        };
        let px: i128 = dims.x as i128 + dims.w as i128 + (window_gaps as i128) * 2 + 4;
        let py: i128 = dims.y as i128 + 2;
        self.select_at(px, py);
    }

    /// Moves the selection to the window left of the selected one: the
    /// first window, by ordinal, that contains `probe_left` of the selected
    /// window. The selection stays where it is if no window does.
    pub fn move_left(&mut self, window_gaps: i64)
        requires
            old(self).wf(),
        ensures
            old(self).moved_to(
                *final(self),
                probe_left(old(self).selected_window().dimensions, window_gaps),
            ),
    {
        let dims: Rect = match self.inner.idx(self.selected) {
            Some(window) => window.dimensions,
            None => {
                return ;
            },
        };
        let px: i128 = dims.x as i128 - (window_gaps as i128) * 2 - 4;
        let py: i128 = dims.y as i128 + 2;
        self.select_at(px, py);
    }

    /// Points the selected window at the buffer `n` places on, cyclically
    /// among `buf_len` buffers: at `(buffer_index + n) mod buf_len`, which
    /// for a negative sum counts back from the end.
    pub fn switch_buffer(&mut self, n: i32, buf_len: usize)
        requires
            old(self).wf(),
            buf_len > 0,
        ensures
            final(self).wf(),
            final(self).name == old(self).name,
            final(self).windows == old(self).windows,
            final(self).selected == old(self).selected,
            final(self).inner == old(self).inner.replaced(
                old(self).selected as int,
                Split::Window(
                    Window {
                        dimensions: old(self).selected_window().dimensions,
                        buffer_index: ((old(self).selected_window().buffer_index + n) % (
                        buf_len as int)) as usize,
                    },
                ),
            ),
    {
        let idx: usize = self.selected;
        let ghost before = self.inner;
        match self.inner.idx_mut(idx) {
            Some(window) => {
                window.buffer_index = cycle(window.buffer_index, n, buf_len);
            },
            None => {},
        }
        proof {
            let shown = Window {
                dimensions: before.windows()[idx as int].dimensions,
                buffer_index: ((before.windows()[idx as int].buffer_index + n) % (
                buf_len as int)) as usize,
            };
            before.lemma_replaced(idx as int, Split::Window(shown));
        }
    }
}

/// One structural edit of a tab.
pub enum TabEdit {
    Split(SplitDirection),
    Kill,
}

impl Tab {
    /// The tab after one edit.
    pub open spec fn after_edit(self, edit: TabEdit) -> Tab {
        match edit {
            TabEdit::Split(direction) => self.after_split(direction),
            TabEdit::Kill => self.after_kill(),
        }
    }

    /// The tab after a sequence of edits, applied first to last.
    pub open spec fn after_edits(self, edits: Seq<TabEdit>) -> Tab
        decreases edits.len(),
    {
        if edits.len() == 0 {
            self
        } else {
            self.after_edits(edits.drop_last()).after_edit(edits.last())
        }
    }

    /// How many of `edits` are splits.
    pub open spec fn splits_in(edits: Seq<TabEdit>) -> nat
        decreases edits.len(),
    {
        if edits.len() == 0 {
            0
        } else {
            Self::splits_in(edits.drop_last()) + if edits.last() is Split {
                1nat
            } else {
                0nat
            }
        }
    }

    /// How many of `edits` are kills that remove a window: those that find
    /// more than one window in the tab when their turn comes.
    pub open spec fn kills_in(self, edits: Seq<TabEdit>) -> nat
        decreases edits.len(),
    {
        if edits.len() == 0 {
            0
        } else {
            self.kills_in(edits.drop_last()) + if edits.last() is Kill && self.after_edits(
                edits.drop_last(),
            ).windows > 1 {
                1nat
            } else {
                0nat
            }
        }
    }

    /// A split keeps the tab well formed, with one window more.
    pub proof fn lemma_after_split(self, direction: SplitDirection)
        requires
            self.wf(),
            self.windows < usize::MAX,
        ensures
            self.after_split(direction).wf(),
            self.after_split(direction).windows == self.windows + 1,
    {
        Split::lemma_doubled(self.selected_window(), direction);
        self.inner.lemma_replaced(self.selected as int, doubled(self.selected_window(), direction));
    }

    /// A kill keeps the tab well formed, with one window fewer unless it
    /// had only one.
    pub proof fn lemma_after_kill(self)
        requires
            self.wf(),
        ensures
            self.after_kill().wf(),
            self.after_kill().windows == (if self.windows > 1 {
                self.windows - 1
            } else {
                1
            }),
    {
        if self.windows > 1 {
            self.inner.lemma_killed(self.selected as int);
        }
    }

    /// Window count conservation and selection bound: after any sequence of
    /// splits and kills, the tab is well formed, so that its selection
    /// names one of its windows, and it has as many windows as it had
    /// before, plus the splits, minus the kills that removed a window.
    pub proof fn lemma_window_count(self, edits: Seq<TabEdit>)
        requires
            self.wf(),
            self.windows + Self::splits_in(edits) <= usize::MAX,
        ensures
            self.after_edits(edits).wf(),
            self.after_edits(edits).selected < self.after_edits(edits).windows,
            self.after_edits(edits).windows == self.windows + Self::splits_in(edits)
                - self.kills_in(edits),
        decreases edits.len(),
    {
        if edits.len() > 0 {
            self.lemma_window_count(edits.drop_last());
            let before = self.after_edits(edits.drop_last());
            match edits.last() {
                TabEdit::Split(direction) => {
                    before.lemma_after_split(direction);
                },
                TabEdit::Kill => {
                    before.lemma_after_kill();
                },
            }
        }
    }

    /// Selection bound under moves: wherever a move leaves the selection,
    /// it names a window of the tab.
    pub proof fn lemma_moved_in_bounds(self, after: Tab, probe: (int, int))
        requires
            self.wf(),
            self.moved_to(after, probe),
        ensures
            after.wf(),
            after.selected < after.windows,
    {
    }

    /// Round trip: dividing the selected window and then removing the
    /// selected half gives back the tab as it was, the window's rectangle
    /// included.
    pub proof fn lemma_split_kill_round_trip(self, direction: SplitDirection)
        requires
            self.wf(),
            self.windows < usize::MAX,
        ensures
            self.after_split(direction).after_kill() == self,
    {
        self.lemma_after_split(direction);
        self.inner.lemma_split_then_kill(self.selected as int, direction, 0);
    }
}

/// The index `delta` places on from `index`, cyclically among `len`:
/// `(index + delta) mod len`, which for a negative sum counts back from the
/// end.
pub fn cycle(index: usize, delta: i32, len: usize) -> (r: usize)
    requires
        len > 0,
    ensures
        r == (index + delta) % (len as int),
        r < len,
{
    let sum: i128 = index as i128 + delta as i128;
    let len: i128 = len as i128;
    proof {
        lemma_wrap(sum as int, len as int);
    }
    let target: i128 = if sum >= 0 {
        sum % len
    } else {
        let back: i128 = (-sum) % len;
        if back == 0 {
            0
        } else {
            len - back
        }
    };
    target as usize
}

/// The remainder of a negative sum, from the remainder of its magnitude.
pub proof fn lemma_wrap(sum: int, len: int)
    requires
        len > 0,
    ensures
        0 <= sum % len < len,
        sum < 0 && (-sum) % len == 0 ==> sum % len == 0,
        sum < 0 && (-sum) % len != 0 ==> sum % len == len - (-sum) % len,
{
    if sum < 0 {
        vstd::arithmetic::div_mod::lemma_fundamental_div_mod(-sum, len);
        vstd::arithmetic::div_mod::lemma_fundamental_div_mod(sum, len);
        let q = (-sum) / len;
        let r = (-sum) % len;
        if r == 0 {
            assert(sum == len * (-q) + 0) by (nonlinear_arith)
                requires
                    -sum == len * q + r,
                    r == 0,
            ;
            vstd::arithmetic::div_mod::lemma_fundamental_div_mod_converse(sum, len, -q, 0);
        } else {
            assert(sum == len * (-q - 1) + (len - r)) by (nonlinear_arith)
                requires
                    -sum == len * q + r,
            ;
            vstd::arithmetic::div_mod::lemma_fundamental_div_mod_converse(
                sum,
                len,
                -q - 1,
                len - r,
            );
        }
    }
}

} // verus!
