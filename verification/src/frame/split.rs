//! The split tree: a binary partition of a rectangle into windows.
use crate::frame::window::Window;
use crate::geometry::Rect;
use crate::geometry::COORD_LIMIT;
use vstd::prelude::*;

verus! {

/// The axis a split divides. `Horizontal` places its two children side by
/// side and divides the width; `Vertical` stacks them and divides the height.
#[derive(Debug, Clone, Copy, PartialEq, Eq, Structural)]
pub enum SplitDirection {
    Vertical,
    Horizontal,
}

/// The share of a split's extent that goes to its first child, as the
/// fraction `num / den`.
#[derive(Debug, Clone, Copy, PartialEq, Eq, Structural)]
pub struct Ratio {
    pub num: u32,
    pub den: u32,
}

impl Ratio {
    /// Strictly between 0 and 1, so that neither child is squeezed onto an
    /// edge.
    pub open spec fn wf(self) -> bool {
        0 < self.num < self.den
    }

    /// The part of `extent` that goes to the first child: `extent * num /
    /// den`, rounded toward zero.
    pub open spec fn share(self, extent: int) -> int {
        if extent >= 0 {
            (extent * self.num) / (self.den as int)
        } else {
            -(((-extent) * self.num) / (self.den as int))
        }
    }

    /// One half.
    pub fn half() -> (r: Ratio)
        ensures
            r == (Ratio { num: 1, den: 2 }),
            r.wf(),
    {
        Ratio { num: 1, den: 2 }
    }

    /// `Some` ratio `num / den` if that lies strictly between 0 and 1.
    pub fn new(num: u32, den: u32) -> (r: Option<Ratio>)
        ensures
            r == (if 0 < num < den {
                Some(Ratio { num, den })
            } else {
                None
            }),
    {
        if 0 < num && num < den {
            Some(Ratio { num, den })
        } else {
            None
        }
    }

    /// Computes `share`.
    pub fn apply(&self, extent: i64) -> (part: i64)
        requires
            self.wf(),
        ensures
            part == self.share(extent as int),
            extent >= 0 ==> 0 <= part <= extent,
            extent <= 0 ==> extent <= part <= 0,
    {
        let mag: i128 = if extent >= 0 {
            extent as i128
        } else {
            -(extent as i128)
        };
        proof {
            lemma_share_bounds(mag as int, self.num as int, self.den as int);
            assert(mag * self.num <= 0x8000_0000_0000_0000 * 0x1_0000_0000) by (nonlinear_arith)
                requires
                    0 <= mag <= 0x8000_0000_0000_0000,
                    0 <= self.num <= 0x1_0000_0000,
            ;
        }
        let q: i128 = (mag * (self.num as i128)) / (self.den as i128);
        if extent >= 0 {
            q as i64
        } else {
            (-q) as i64
        }
    }
}

/// For `0 < num < den` and `mag >= 0`, `mag * num / den` lies in `0..=mag`.
pub proof fn lemma_share_bounds(mag: int, num: int, den: int)
    requires
        0 <= mag,
        0 < num < den,
    ensures
        0 <= mag * num,
        mag * num <= mag * den,
        0 <= (mag * num) / den <= mag,
{
    assert(0 <= mag * num && mag * num <= mag * den) by (nonlinear_arith)
        requires
            0 <= mag,
            0 < num < den,
    ;
    let p = mag * num;
    assert(0 <= p / den <= mag) by (nonlinear_arith)
        requires
            0 <= p <= mag * den,
            0 < den,
            0 <= mag,
    ;
}

/// A split tree: either one window, or a division of a region between two
/// subtrees along an axis. The first subtree takes the left or upper part.
///
/// Windows are numbered from 0 in the order in which a walk meets them when
/// it visits the first subtree of every split before the second. That
/// number is a window's ordinal.
pub enum Split {
    Window(Window),
    Split(Box<Split>, Box<Split>, Ratio, SplitDirection),
}

/// What a removal found in a subtree.
enum Removal {
    /// The subtree does not hold the ordinal.
    Missing,
    /// The subtree is the window to remove; its parent must give way.
    Target,
    /// The window was removed somewhere inside the subtree.
    Removed,
}

/// The index at which a window finds its buffer once the buffer at
/// `removed` is gone: one lower for that buffer and all later ones, except
/// that index 0 stays.
pub open spec fn shifted_index(index: usize, removed: usize) -> usize {
    if index >= removed && index > 0 {
        (index - 1) as usize
    } else {
        index
    }
}

/// Why a split was refused.
#[derive(Debug, Clone, Copy, PartialEq, Eq, Structural)]
pub enum SplitError {
    /// The ordinal names no window of the tree.
    InvalidTarget,
}

/// The split that takes a window's place when it is divided: two copies of
/// the window, showing the same buffer, at equal shares.
pub open spec fn doubled(window: Window, direction: SplitDirection) -> Split {
    Split::Split(
        Box::new(Split::Window(window)),
        Box::new(Split::Window(window)),
        Ratio { num: 1, den: 2 },
        direction,
    )
}

/// The region of a split's first child: the left or upper part of `area`.
pub open spec fn first_area(area: Rect, ratio: Ratio, direction: SplitDirection) -> Rect {
    match direction {
        SplitDirection::Horizontal => Rect {
            x: area.x,
            y: area.y,
            w: ratio.share(area.w as int) as i64,
            h: area.h,
        },
        SplitDirection::Vertical => Rect {
            x: area.x,
            y: area.y,
            w: area.w,
            h: ratio.share(area.h as int) as i64,
        },
    }
}

/// The region of a split's second child: what `first_area` leaves of `area`.
pub open spec fn second_area(area: Rect, ratio: Ratio, direction: SplitDirection) -> Rect {
    match direction {
        SplitDirection::Horizontal => Rect {
            x: (area.x + ratio.share(area.w as int)) as i64,
            y: area.y,
            w: (area.w - ratio.share(area.w as int)) as i64,
            h: area.h,
        },
        SplitDirection::Vertical => Rect {
            x: area.x,
            y: (area.y + ratio.share(area.h as int)) as i64,
            w: area.w,
            h: (area.h - ratio.share(area.h as int)) as i64,
        },
    }
}

/// `area` drawn in by half of `gap` on the left and top, and made smaller
/// by `gap` in each direction.
pub open spec fn inset(area: Rect, gap: i64) -> Rect {
    let half: int = if gap >= 0 {
        gap as int / 2
    } else {
        -((-gap) / 2)
    };
    Rect {
        x: (area.x + half) as i64,
        y: (area.y + half) as i64,
        w: (area.w - gap) as i64,
        h: (area.h - gap) as i64,
    }
}

impl Split {
    /// Every ratio in the tree lies strictly between 0 and 1.
    pub open spec fn wf(self) -> bool
        decreases self,
    {
        match self {
            Split::Window(_) => true,
            Split::Split(first, second, ratio, _) => ratio.wf() && first.wf() && second.wf(),
        }
    }

    /// The windows of the tree, by ordinal.
    pub open spec fn windows(self) -> Seq<Window>
        decreases self,
    {
        match self {
            Split::Window(w) => seq![w],
            Split::Split(first, second, _, _) => first.windows() + second.windows(),
        }
    }

    /// The number of windows.
    pub open spec fn count(self) -> nat {
        self.windows().len()
    }

    /// The tree after a layout pass over `area`: the same splits, each
    /// window holding its part of `area` drawn in by `gap`.
    pub open spec fn resized(self, area: Rect, gap: i64) -> Split
        decreases self,
    {
        match self {
            Split::Window(w) => Split::Window(
                Window { dimensions: inset(area, gap), buffer_index: w.buffer_index },
            ),
            Split::Split(first, second, ratio, direction) => Split::Split(
                Box::new(first.resized(first_area(area, ratio, direction), gap)),
                Box::new(second.resized(second_area(area, ratio, direction), gap)),
                ratio,
                direction,
            ),
        }
    }

    /// The tree with the window at `ordinal` replaced by `subtree`.
    pub open spec fn replaced(self, ordinal: int, subtree: Split) -> Split
        decreases self,
    {
        match self {
            Split::Window(_) => if ordinal == 0 {
                subtree
            } else {
                self
            },
            Split::Split(first, second, ratio, direction) => if ordinal < first.count() {
                Split::Split(Box::new(first.replaced(ordinal, subtree)), second, ratio, direction)
            } else {
                Split::Split(
                    first,
                    Box::new(second.replaced(ordinal - first.count(), subtree)),
                    ratio,
                    direction,
                )
            },
        }
    }

    /// The tree with the window at `ordinal` removed: the split that held it
    /// gives way to its other child, which keeps its own structure. A tree
    /// of one window, and an ordinal that names no window, leave the tree
    /// as it is.
    pub open spec fn killed(self, ordinal: int) -> Split
        decreases self,
    {
        match self {
            Split::Window(_) => self,
            Split::Split(first, second, ratio, direction) => if ordinal < 0 || ordinal
                >= self.count() {
                self
            } else if ordinal < first.count() {
                if *first is Window {
                    *second
                } else {
                    Split::Split(Box::new(first.killed(ordinal)), second, ratio, direction)
                }
            } else {
                if *second is Window {
                    *first
                } else {
                    Split::Split(
                        first,
                        Box::new(second.killed(ordinal - first.count())),
                        ratio,
                        direction,
                    )
                }
            },
        }
    }

    /// A tree has at least one window.
    pub proof fn lemma_count_positive(self)
        ensures
            self.count() >= 1,
        decreases self,
    {
        match self {
            Split::Window(_) => {},
            Split::Split(first, second, _, _) => {
                first.lemma_count_positive();
                second.lemma_count_positive();
            },
        }
    }

    /// Lays the tree out over `dimensions`. A split gives the leading
    /// `ratio` share of its width (`Horizontal`) or height (`Vertical`) to
    /// its first child and the remainder to its second; a window takes its
    /// region drawn in by the gap. A region narrower than the gap yields a
    /// window of zero or negative size, which is accepted.
    pub fn resize(&mut self, dimensions: Rect, gap_size: i64)
        requires
            old(self).wf(),
            dimensions.bounded(),
            -COORD_LIMIT <= gap_size <= COORD_LIMIT,
        ensures
            *final(self) == old(self).resized(dimensions, gap_size),
        decreases *old(self),
    {
        match self {
            Split::Window(window) => {
                let half: i64 = if gap_size >= 0 {
                    gap_size / 2
                } else {
                    -((-gap_size) / 2)
                };
                window.dimensions =
                Rect {
                    x: dimensions.x + half,
                    y: dimensions.y + half,
                    w: dimensions.w - gap_size,
                    h: dimensions.h - gap_size,
                };
            },
            Split::Split(up, down, ratio, SplitDirection::Vertical) => {
                let height: i64 = ratio.apply(dimensions.h);
                let up_dimensions = Rect {
                    x: dimensions.x,
                    y: dimensions.y,
                    w: dimensions.w,
                    h: height,
                };
                let down_dimensions = Rect {
                    x: dimensions.x,
                    y: dimensions.y + height,
                    w: dimensions.w,
                    h: dimensions.h - height,
                };
                up.resize(up_dimensions, gap_size);
                down.resize(down_dimensions, gap_size);
            },
            Split::Split(left, right, ratio, SplitDirection::Horizontal) => {
                let width: i64 = ratio.apply(dimensions.w);
                let left_dimensions = Rect {
                    x: dimensions.x,
                    y: dimensions.y,
                    w: width,
                    h: dimensions.h,
                };
                let right_dimensions = Rect {
                    x: dimensions.x + width,
                    y: dimensions.y,
                    w: dimensions.w - width,
                    h: dimensions.h,
                };
                left.resize(left_dimensions, gap_size);
                right.resize(right_dimensions, gap_size);
            },
        }
    }

    /// Walks the tree by ordinal with a running count in `idx`, which holds
    /// the ordinal of this subtree's first window.
    fn find(&self, wanted: usize, idx: &mut usize) -> (found: Option<&Window>)
        requires
            *old(idx) <= wanted,
        ensures
            wanted - *old(idx) < self.count() ==> found == Some(
                &self.windows()[wanted - *old(idx)],
            ) && *final(idx) == wanted,
            wanted - *old(idx) >= self.count() ==> found is None && *final(idx) == *old(idx)
                + self.count(),
        decreases self,
    {
        match self {
            Split::Split(first, second, _, _) => {
                let found = first.find(wanted, idx);
                match found {
                    Some(_) => found,
                    None => second.find(wanted, idx),
                }
            },
            Split::Window(window) => {
                if *idx == wanted {
                    return Some(window);
                }
                *idx += 1;
                None
            },
        }
    }

    /// The window at `wanted`, or `None` if the tree has no such ordinal.
    pub fn idx(&self, wanted: usize) -> (found: Option<&Window>)
        ensures
            found == (if wanted < self.count() {
                Some(&self.windows()[wanted as int])
            } else {
                None
            }),
    {
        let mut counter: usize = 0;
        self.find(wanted, &mut counter)
    }


    /// As `find`, handing the window out for writing.
    fn find_mut(&mut self, wanted: usize, idx: &mut usize) -> (found: Option<&mut Window>)
        requires
            *old(idx) <= wanted,
        ensures
            wanted - *old(idx) < old(self).count() ==> found is Some && *found.unwrap() == old(
                self,
            ).windows()[wanted - *old(idx)] && *final(idx) == wanted && *final(self) == old(
                self,
            ).replaced(wanted - *old(idx), Split::Window(*final(found.unwrap()))),
            wanted - *old(idx) >= old(self).count() ==> found is None && *final(idx) == *old(idx)
                + old(self).count() && *final(self) == *old(self),
        decreases *old(self),
    {
        match self {
            Split::Window(window) => {
                if *idx == wanted {
                    Some(window)
                } else {
                    *idx += 1;
                    None
                }
            },
            Split::Split(first, second, _, _) => {
                let found = first.find_mut(wanted, idx);
                if found.is_some() {
                    found
                } else {
                    second.find_mut(wanted, idx)
                }
            },
        }
    }

    /// The window at `wanted`, for writing, or `None` if the tree has no
    /// such ordinal. What the caller leaves in the window is what the tree
    /// then holds at `wanted`; nothing else changes.
    pub fn idx_mut(&mut self, wanted: usize) -> (found: Option<&mut Window>)
        ensures
            wanted < old(self).count() ==> found is Some && *found.unwrap() == old(
                self,
            ).windows()[wanted as int] && *final(self) == old(self).replaced(
                wanted as int,
                Split::Window(*final(found.unwrap())),
            ),
            wanted >= old(self).count() ==> found is None && *final(self) == *old(self),
    {
        let mut counter: usize = 0;
        self.find_mut(wanted, &mut counter)
    }

    /// Divides the window at `wanted`, counting from `idx` as `find` does.
    fn divide(&mut self, wanted: usize, idx: &mut usize, direction: SplitDirection) -> (done:
        bool)
        requires
            *old(idx) <= wanted,
        ensures
            done == (wanted - *old(idx) < old(self).count()),
            done ==> *final(self) == old(self).replaced(
                wanted - *old(idx),
                doubled(old(self).windows()[wanted - *old(idx)], direction),
            ),
            !done ==> *final(self) == *old(self) && *final(idx) == *old(idx) + old(self).count(),
        decreases *old(self),
    {
        match self {
            Split::Window(window) => {
                if *idx == wanted {
                    let copy: Window = *window;
                    *self =
                    Split::Split(
                        Box::new(Split::Window(copy)),
                        Box::new(Split::Window(copy)),
                        Ratio::half(),
                        direction,
                    );
                    true
                } else {
                    *idx += 1;
                    false
                }
            },
            Split::Split(first, second, _, _) => {
                if first.divide(wanted, idx, direction) {
                    true
                } else {
                    second.divide(wanted, idx, direction)
                }
            },
        }
    }

    /// Divides the window at `wanted` in two along `direction`: a split at
    /// ratio one half takes its place, whose two children are copies of the
    /// window and show the same buffer. Fails, leaving the tree as it was,
    /// exactly when `wanted` names no window.
    pub fn split(&mut self, wanted: usize, direction: SplitDirection) -> (res: Result<
        (),
        SplitError,
    >)
        ensures
            res is Ok <==> wanted < old(self).count(),
            res is Ok ==> *final(self) == old(self).replaced(
                wanted as int,
                doubled(old(self).windows()[wanted as int], direction),
            ),
            res is Err ==> *final(self) == *old(self) && res == Err::<(), SplitError>(
                SplitError::InvalidTarget,
            ),
    {
        let mut counter: usize = 0;
        if self.divide(wanted, &mut counter, direction) {
            Ok(())
        } else {
            Err(SplitError::InvalidTarget)
        }
    }

    /// A window counts one; a split counts at least two.
    pub proof fn lemma_count_by_kind(self)
        ensures
            self is Window ==> self.count() == 1,
            self is Split ==> self.count() >= 2,
    {
        match self {
            Split::Window(_) => {},
            Split::Split(first, second, _, _) => {
                first.lemma_count_positive();
                second.lemma_count_positive();
            },
        }
    }

    /// Removes the window at `wanted`, counting from `idx` as `find` does. A
    /// subtree that is itself the window reports `Target` and stays as it
    /// is: only its parent can drop it.
    fn remove(&mut self, wanted: usize, idx: &mut usize) -> (outcome: Removal)
        requires
            *old(idx) <= wanted,
        ensures
            wanted - *old(idx) >= old(self).count() ==> outcome is Missing && *final(self) == *old(
                self,
            ) && *final(idx) == *old(idx) + old(self).count(),
            wanted - *old(idx) < old(self).count() && *old(self) is Window ==> outcome is Target
                && *final(self) == *old(self),
            wanted - *old(idx) < old(self).count() && *old(self) is Split ==> outcome is Removed
                && *final(self) == old(self).killed(wanted - *old(idx)),
        decreases *old(self),
    {
        let mut keep_first: bool = false;
        let mut keep_second: bool = false;
        let outcome = match self {
            Split::Window(_) => {
                if *idx == wanted {
                    Removal::Target
                } else {
                    *idx += 1;
                    Removal::Missing
                }
            },
            Split::Split(first, second, _, _) => {
                match first.remove(wanted, idx) {
                    Removal::Target => {
                        keep_second = true;
                        Removal::Removed
                    },
                    Removal::Removed => Removal::Removed,
                    Removal::Missing => match second.remove(wanted, idx) {
                        Removal::Target => {
                            keep_first = true;
                            Removal::Removed
                        },
                        Removal::Removed => Removal::Removed,
                        Removal::Missing => Removal::Missing,
                    },
                }
            },
        };
        if keep_first || keep_second {
            let mut taken = Split::Window(Window::default());
            core::mem::swap(self, &mut taken);
            match taken {
                Split::Window(window) => {
                    *self = Split::Window(window);
                },
                Split::Split(first, second, _, _) => {
                    if keep_first {
                        *self = *first;
                    } else {
                        *self = *second;
                    }
                },
            }
        }
        outcome
    }

    /// Removes the window at `wanted`: the split that holds it is replaced
    /// by its other child, which moves up one level with its structure
    /// intact. Returns whether a window was removed. The last window of a
    /// tree cannot be removed, and an ordinal that names no window removes
    /// nothing.
    pub fn kill_pane(&mut self, wanted: usize) -> (removed: bool)
        ensures
            removed == (old(self).count() > 1 && wanted < old(self).count()),
            *final(self) == old(self).killed(wanted as int),
    {
        proof {
            self.lemma_count_by_kind();
        }
        let mut counter: usize = 0;
        match self.remove(wanted, &mut counter) {
            Removal::Removed => true,
            _ => false,
        }
    }

    /// A fresh walk over the windows, by ordinal.
    pub fn iter(&self) -> (it: SplitIterator<'_>)
        ensures
            it@ == self.windows(),
    {
        SplitIterator::new(self)
    }

    /// A fresh walk over the windows, by ordinal, that hands them out for
    /// writing.
    pub fn iter_mut(&mut self) -> (it: SplitIteratorMut<'_>)
        ensures
            it@ == old(self).windows(),
    {
        SplitIteratorMut::new(self)
    }
}

/// The windows of the subtrees on a walk's stack, in the order in which the
/// walk will meet them: the top of the stack first.
pub open spec fn pending_windows(stack: Seq<&Split>) -> Seq<Window>
    decreases stack.len(),
{
    if stack.len() == 0 {
        Seq::empty()
    } else {
        stack.last().windows() + pending_windows(stack.drop_last())
    }
}

/// The number of tree nodes on a walk's stack.
pub open spec fn pending_nodes(stack: Seq<&Split>) -> nat
    decreases stack.len(),
{
    if stack.len() == 0 {
        0
    } else {
        (2 * stack.last().count() - 1) as nat + pending_nodes(stack.drop_last())
    }
}

/// Pushing a subtree puts its windows at the front of the walk.
pub proof fn lemma_pending_push(stack: Seq<&Split>, top: &Split)
    ensures
        pending_windows(stack.push(top)) == top.windows() + pending_windows(stack),
        pending_nodes(stack.push(top)) == (2 * top.count() - 1) as nat + pending_nodes(stack),
{
    assert(stack.push(top).drop_last() =~= stack);
    assert(stack.push(top).last() == top);
}

/// A walk over the windows of a tree, by ordinal. It borrows the tree and
/// keeps no state in it: every walk starts afresh.
pub struct SplitIterator<'a> {
    stack: Vec<&'a Split>,
}

impl<'a> View for SplitIterator<'a> {
    type V = Seq<Window>;

    /// The windows still to come, next first.
    closed spec fn view(&self) -> Seq<Window> {
        pending_windows(self.stack@)
    }
}

impl<'a> SplitIterator<'a> {
    pub fn new(root: &'a Split) -> (it: Self)
        ensures
            it@ == root.windows(),
    {
        let mut stack: Vec<&'a Split> = Vec::new();
        stack.push(root);
        proof {
            lemma_pending_push(Seq::<&Split>::empty(), root);
            assert(stack@ =~= Seq::<&Split>::empty().push(root));
            assert(pending_windows(stack@) =~= root.windows());
        }
        SplitIterator { stack }
    }

    /// The next window of the walk, or `None` once all have been handed
    /// out.
    pub fn next(&mut self) -> (item: Option<&'a Window>)
        ensures
            old(self)@.len() == 0 ==> item is None && final(self)@.len() == 0,
            old(self)@.len() > 0 ==> item == Some(&old(self)@[0]) && final(self)@ == old(
                self,
            )@.skip(1),
    {
        loop
            invariant
                pending_windows(self.stack@) == old(self)@,
            decreases pending_nodes(self.stack@),
        {
            let ghost before = self.stack@;
            match self.stack.pop() {
                None => {
                    return None;
                },
                Some(split) => {
                    assert(self.stack@ == before.drop_last());
                    assert(split == before.last());
                    match split {
                        Split::Window(window) => {
                            assert(old(self)@ =~= seq![*window] + pending_windows(self.stack@));
                            assert(pending_windows(self.stack@) =~= old(self)@.skip(1));
                            return Some(window);
                        },
                        Split::Split(first, second, _, _) => {
                            let ghost rest = self.stack@;
                            self.stack.push(&**second);
                            self.stack.push(&**first);
                            proof {
                                first.lemma_count_positive();
                                second.lemma_count_positive();
                                lemma_pending_push(rest, &**second);
                                lemma_pending_push(rest.push(&**second), &**first);
                                assert(pending_windows(self.stack@) =~= first.windows() + (
                                second.windows() + pending_windows(rest)));
                            }
                        },
                    }
                },
            }
        }
    }
}

impl Split {
    /// Replacing a window puts the subtree's windows in its place and
    /// leaves the others where they were.
    pub proof fn lemma_replaced(self, ordinal: int, subtree: Split)
        requires
            0 <= ordinal < self.count(),
        ensures
            self.replaced(ordinal, subtree).windows() == self.windows().subrange(0, ordinal)
                + subtree.windows() + self.windows().subrange(ordinal + 1, self.count() as int),
            self.replaced(ordinal, subtree).count() == self.count() + subtree.count() - 1,
            self.wf() && subtree.wf() ==> self.replaced(ordinal, subtree).wf(),
        decreases self,
    {
        match self {
            Split::Window(_) => {
                assert(self.replaced(ordinal, subtree).windows() =~= self.windows().subrange(
                    0,
                    ordinal,
                ) + subtree.windows() + self.windows().subrange(ordinal + 1, self.count() as int));
            },
            Split::Split(first, second, _, _) => {
                if ordinal < first.count() {
                    first.lemma_replaced(ordinal, subtree);
                } else {
                    second.lemma_replaced(ordinal - first.count(), subtree);
                }
                assert(self.replaced(ordinal, subtree).windows() =~= self.windows().subrange(
                    0,
                    ordinal,
                ) + subtree.windows() + self.windows().subrange(ordinal + 1, self.count() as int));
            },
        }
    }

    /// Removing a window takes it out of the sequence of windows and leaves
    /// the others in order.
    pub proof fn lemma_killed(self, ordinal: int)
        requires
            0 <= ordinal < self.count(),
            self.count() > 1,
        ensures
            self.killed(ordinal).windows() == self.windows().remove(ordinal),
            self.killed(ordinal).count() == self.count() - 1,
            self.wf() ==> self.killed(ordinal).wf(),
        decreases self,
    {
        match self {
            Split::Window(_) => {},
            Split::Split(first, second, _, _) => {
                first.lemma_count_by_kind();
                second.lemma_count_by_kind();
                if ordinal < first.count() {
                    if !(*first is Window) {
                        first.lemma_killed(ordinal);
                    }
                } else {
                    if !(*second is Window) {
                        second.lemma_killed(ordinal - first.count());
                    }
                }
                assert(self.killed(ordinal).windows() =~= self.windows().remove(ordinal));
            },
        }
    }

    /// The split that replaces a divided window is well formed and holds
    /// the window twice.
    pub proof fn lemma_doubled(window: Window, direction: SplitDirection)
        ensures
            doubled(window, direction).wf(),
            doubled(window, direction).windows() == seq![window, window],
            doubled(window, direction).count() == 2,
    {
        reveal_with_fuel(Split::wf, 2);
        reveal_with_fuel(Split::windows, 2);
        assert(doubled(window, direction).windows() =~= seq![window, window]);
    }

    /// Dividing a window and then removing either half gives the tree back.
    pub proof fn lemma_split_then_kill(self, ordinal: int, direction: SplitDirection, half: int)
        requires
            0 <= ordinal < self.count(),
            half == 0 || half == 1,
        ensures
            self.replaced(ordinal, doubled(self.windows()[ordinal], direction)).killed(
                ordinal + half,
            ) == self,
        decreases self,
    {
        match self {
            Split::Window(_) => {},
            Split::Split(first, second, _, _) => {
                let sub = doubled(self.windows()[ordinal], direction);
                first.lemma_count_by_kind();
                second.lemma_count_by_kind();
                if ordinal < first.count() {
                    first.lemma_replaced(ordinal, sub);
                    first.lemma_split_then_kill(ordinal, direction, half);
                    first.replaced(ordinal, sub).lemma_count_by_kind();
                } else {
                    second.lemma_replaced(ordinal - first.count(), sub);
                    second.lemma_split_then_kill(ordinal - first.count(), direction, half);
                    second.replaced(ordinal - first.count(), sub).lemma_count_by_kind();
                }
            },
        }
    }

    /// The tree with every window re-pointed for the removal of the buffer
    /// at `removed`.
    pub open spec fn shifted(self, removed: usize) -> Split
        decreases self,
    {
        match self {
            Split::Window(w) => Split::Window(
                Window {
                    dimensions: w.dimensions,
                    buffer_index: shifted_index(w.buffer_index, removed),
                },
            ),
            Split::Split(first, second, ratio, direction) => Split::Split(
                Box::new(first.shifted(removed)),
                Box::new(second.shifted(removed)),
                ratio,
                direction,
            ),
        }
    }

    /// Every window shows a buffer whose index is below `limit`.
    pub open spec fn refs_below(self, limit: int) -> bool {
        forall|i: int| 0 <= i < self.count() ==> (#[trigger] self.windows()[i]).buffer_index < limit
    }

    /// Re-points every window for the removal of the buffer at `removed`:
    /// a window that showed that buffer or a later one now shows the one
    /// before it, and the first buffer if there is none before.
    pub fn shift_buffers(&mut self, removed: usize)
        ensures
            *final(self) == old(self).shifted(removed),
        decreases *old(self),
    {
        match self {
            Split::Window(window) => {
                if window.buffer_index >= removed && window.buffer_index > 0 {
                    window.buffer_index = window.buffer_index - 1;
                }
            },
            Split::Split(first, second, _, _) => {
                first.shift_buffers(removed);
                second.shift_buffers(removed);
            },
        }
    }

    /// Re-pointing keeps the splits, the windows' number and rectangles,
    /// and moves each buffer index by `shifted_index`. Indices that were
    /// below `limit` are below `limit - 1` afterwards, if a buffer is left.
    pub proof fn lemma_shifted(self, removed: usize, limit: int)
        ensures
            self.shifted(removed).wf() == self.wf(),
            self.shifted(removed).count() == self.count(),
            forall|i: int|
                0 <= i < self.count() ==> #[trigger] self.shifted(removed).windows()[i] == (Window {
                    dimensions: self.windows()[i].dimensions,
                    buffer_index: shifted_index(self.windows()[i].buffer_index, removed),
                }),
            self.refs_below(limit) && removed < limit && limit >= 2 ==> self.shifted(
                removed,
            ).refs_below(limit - 1),
        decreases self,
    {
        match self {
            Split::Window(_) => {},
            Split::Split(first, second, _, _) => {
                first.lemma_shifted(removed, limit);
                second.lemma_shifted(removed, limit);
            },
        }
        if self.refs_below(limit) && removed < limit && limit >= 2 {
            assert forall|i: int| 0 <= i < self.shifted(removed).count() implies (
            #[trigger] self.shifted(removed).windows()[i]).buffer_index < limit - 1 by {
                assert(self.windows()[i].buffer_index < limit);
            }
        }
    }

    /// Replacing a window keeps the buffer indices below `limit` if the
    /// subtree's are.
    pub proof fn lemma_refs_replaced(self, ordinal: int, subtree: Split, limit: int)
        requires
            0 <= ordinal < self.count(),
            self.refs_below(limit),
            subtree.refs_below(limit),
        ensures
            self.replaced(ordinal, subtree).refs_below(limit),
    {
        self.lemma_replaced(ordinal, subtree);
        let after = self.replaced(ordinal, subtree).windows();
        assert forall|i: int| 0 <= i < after.len() implies (#[trigger] after[i]).buffer_index
            < limit by {
            if i < ordinal {
                assert(after[i] == self.windows()[i]);
            } else if i < ordinal + subtree.count() {
                assert(after[i] == subtree.windows()[i - ordinal]);
            } else {
                assert(after[i] == self.windows()[i - subtree.count() + 1]);
            }
        }
    }

    /// Removing a window keeps the buffer indices below `limit`.
    pub proof fn lemma_refs_killed(self, ordinal: int, limit: int)
        requires
            0 <= ordinal < self.count(),
            self.count() > 1,
            self.refs_below(limit),
        ensures
            self.killed(ordinal).refs_below(limit),
    {
        self.lemma_killed(ordinal);
        let after = self.killed(ordinal).windows();
        assert forall|i: int| 0 <= i < after.len() implies (#[trigger] after[i]).buffer_index
            < limit by {
            if i < ordinal {
                assert(after[i] == self.windows()[i]);
            } else {
                assert(after[i] == self.windows()[i + 1]);
            }
        }
    }

    /// A layout pass keeps the buffer indices below `limit`.
    pub proof fn lemma_refs_resized(self, area: Rect, gap: i64, limit: int)
        requires
            self.refs_below(limit),
        ensures
            self.resized(area, gap).refs_below(limit),
    {
        self.lemma_resized_keeps(area, gap);
        let after = self.resized(area, gap).windows();
        assert forall|i: int| 0 <= i < after.len() implies (#[trigger] after[i]).buffer_index
            < limit by {
            assert(self.windows()[i].buffer_index < limit);
        }
    }
}

impl SplitDirection {
    /// The letter that stands for the direction: `V` or `H`.
    pub open spec fn letter(self) -> Seq<char> {
        match self {
            SplitDirection::Vertical => seq!['V'],
            SplitDirection::Horizontal => seq!['H'],
        }
    }

    /// The direction's letter as a string.
    pub fn to_string(&self) -> (s: String)
        ensures
            s@ == self.letter(),
    {
        proof {
            reveal_strlit("V");
            reveal_strlit("H");
        }
        let s = match self {
            SplitDirection::Vertical => String::from_str("V"),
            SplitDirection::Horizontal => String::from_str("H"),
        };
        assert(s@ =~= self.letter());
        s
    }
}

impl Split {
    /// The tree written out, one line for each node: `Window` for a
    /// window, `Split` and the direction's letter for a split, which is
    /// followed by its two subtrees, each line of them two spaces further
    /// in. Every line begins with `pad`.
    pub open spec fn outline(self, pad: Seq<char>) -> Seq<char>
        decreases self,
    {
        match self {
            Split::Window(_) => pad + "Window\n"@,
            Split::Split(first, second, _, direction) => pad + "Split "@ + direction.letter()
                + "\n"@ + first.outline(pad + "  "@) + second.outline(pad + "  "@),
        }
    }

    /// Appends the tree's outline to `out`.
    fn write_outline(&self, out: &mut String, pad: &str)
        ensures
            final(out)@ == old(out)@ + self.outline(pad@),
        decreases self,
    {
        out.append(pad);
        match self {
            Split::Window(_) => {
                out.append("Window\n");
                assert(out@ =~= old(out)@ + self.outline(pad@));
            },
            Split::Split(first, second, _, direction) => {
                out.append("Split ");
                let letter: String = direction.to_string();
                out.append(letter.as_str());
                out.append("\n");
                let mut deeper: String = String::from_str(pad);
                deeper.append("  ");
                first.write_outline(out, deeper.as_str());
                second.write_outline(out, deeper.as_str());
                assert(out@ =~= old(out)@ + self.outline(pad@));
            },
        }
    }

    /// The tree's outline, from the left margin.
    pub fn to_string(&self) -> (s: String)
        ensures
            s@ == self.outline(Seq::empty()),
    {
        let mut s: String = String::new();
        let pad: String = String::new();
        self.write_outline(&mut s, pad.as_str());
        assert(s@ =~= self.outline(Seq::empty()));
        s
    }
}

/// The windows of the subtrees on a writing walk's stack, as they are now,
/// in the order in which the walk will meet them: the top of the stack
/// first.
pub open spec fn pending_windows_mut(stack: Seq<&mut Split>) -> Seq<Window>
    decreases stack.len(),
{
    if stack.len() == 0 {
        Seq::empty()
    } else {
        (*stack.last()).windows() + pending_windows_mut(stack.drop_last())
    }
}

/// The number of tree nodes on a writing walk's stack.
pub open spec fn pending_nodes_mut(stack: Seq<&mut Split>) -> nat
    decreases stack.len(),
{
    if stack.len() == 0 {
        0
    } else {
        (2 * (*stack.last()).count() - 1) as nat + pending_nodes_mut(stack.drop_last())
    }
}

/// A walk over the windows of a tree, by ordinal, that hands them out for
/// writing.
pub struct SplitIteratorMut<'a> {
    stack: Vec<&'a mut Split>,
}

impl<'a> View for SplitIteratorMut<'a> {
    type V = Seq<Window>;

    /// The windows still to come, as they are now, next first.
    closed spec fn view(&self) -> Seq<Window> {
        pending_windows_mut(self.stack@)
    }
}

impl<'a> SplitIteratorMut<'a> {
    pub fn new(root: &'a mut Split) -> (it: Self)
        ensures
            it@ == old(root).windows(),
    {
        let ghost all = root.windows();
        let mut stack: Vec<&'a mut Split> = Vec::new();
        stack.push(root);
        assert(stack@.drop_last() =~= Seq::<&mut Split>::empty());
        assert(pending_windows_mut(stack@.drop_last()) =~= Seq::<Window>::empty());
        assert(pending_windows_mut(stack@) =~= all);
        SplitIteratorMut { stack }
    }

    /// The next window of the walk, for writing, or `None` once all have
    /// been handed out.
    pub fn next(&mut self) -> (item: Option<&'a mut Window>)
        ensures
            old(self)@.len() == 0 ==> item is None && final(self)@.len() == 0,
            old(self)@.len() > 0 ==> item is Some && *item.unwrap() == old(self)@[0] && final(self)@
                == old(self)@.skip(1),
    {
        loop
            invariant
                pending_windows_mut(self.stack@) == old(self)@,
            decreases pending_nodes_mut(self.stack@),
        {
            let ghost before = self.stack@;
            match self.stack.pop() {
                None => {
                    return None;
                },
                Some(node) => {
                    assert(self.stack@ == before.drop_last());
                    let ghost rest = self.stack@;
                    match node {
                        Split::Window(window) => {
                            assert(old(self)@ =~= seq![*window] + pending_windows_mut(rest));
                            assert(pending_windows_mut(rest) =~= old(self)@.skip(1));
                            return Some(window);
                        },
                        Split::Split(first, second, _, _) => {
                            let ghost left = first.windows();
                            let ghost right = second.windows();
                            proof {
                                first.lemma_count_positive();
                                second.lemma_count_positive();
                            }
                            let below: &'a mut Split = &mut **second;
                            self.stack.push(below);
                            let ghost mid = self.stack@;
                            assert(mid.drop_last() =~= rest);
                            assert(pending_windows_mut(mid) =~= right + pending_windows_mut(rest));
                            assert(pending_nodes_mut(mid) == (2 * right.len() - 1)
                                + pending_nodes_mut(rest));
                            let above: &'a mut Split = &mut **first;
                            self.stack.push(above);
                            assert(self.stack@.drop_last() =~= mid);
                            assert(pending_windows_mut(self.stack@) =~= left + (right
                                + pending_windows_mut(rest)));
                            assert(pending_nodes_mut(self.stack@) == (2 * left.len() - 1) + (2
                                * right.len() - 1) + pending_nodes_mut(rest));
                        },
                    }
                },
            }
        }
    }
}

} // verus!
