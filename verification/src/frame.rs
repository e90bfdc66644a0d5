//! The frame: tabs, the buffers their windows show, and the commands that
//! act on them.
pub mod split;
pub mod tab;
pub mod tiling;
pub mod window;

use crate::frame::split::doubled;
use crate::frame::split::Split;
use crate::frame::split::SplitDirection;
use crate::frame::tab::cycle;
use crate::frame::tab::Tab;
use crate::frame::window::buffer::Buffer;
use crate::frame::window::Window;
use crate::geometry::Rect;
use crate::input::Clipboard;
use crate::input::Input;
use crate::input::Key;
use crate::settings::Metrics;
use crate::settings::Settings;
use crate::sudoku::commands::clipboard_ok;
use crate::text::decimal;
use crate::text::push_decimal;
use vstd::prelude::*;

verus! {

/// Whether keys go to the selected buffer or pick a buffer command.
#[derive(Debug, Clone, Copy, PartialEq, Eq, Structural)]
pub enum Mode {
    Buffer,
    Normal,
}

/// What can be asked of a frame once a key is resolved.
#[derive(Debug, Clone, Copy, PartialEq, Eq, Structural)]
pub enum Command {
    SplitHorizontal,
    SplitVertical,
    KillPane,
    MoveUp,
    MoveDown,
    MoveLeft,
    MoveRight,
    NewTab,
    CloseTab,
    NextTab,
    PrevTab,
    NewBuffer,
    /// Show the buffer that many places on, cyclically.
    SwitchBuffer(i32),
    KillBuffer,
}

/// The top of the layout: the tabs, the tab that is shown, and the buffers
/// that the windows of all tabs refer to by index.
pub struct Frame {
    pub tabs: Vec<Tab>,
    pub curr_tab: usize,
    pub buffers: Vec<Buffer>,
    pub mode: Mode,
    /// How many tabs were ever opened; the next tab's name is made from it.
    pub tabn: usize,
    /// The settings, shared by all tabs and buffers.
    pub settings: Settings,
    /// The size of the output area, width first.
    pub size: (i32, i32),
}

/// The part of an output area of `size` that is left for the windows: the
/// area without its margins, the tab line at the top and the status and
/// command lines at the bottom.
pub open spec fn drawable(size: (i32, i32), metrics: Metrics) -> Rect {
    Rect {
        x: metrics.outer_gaps as i64,
        y: (metrics.outer_gaps + metrics.tabline_size) as i64,
        w: (size.0 - 2 * metrics.outer_gaps) as i64,
        h: (size.1 - 2 * metrics.outer_gaps - metrics.tabline_size - metrics.cmd_size) as i64,
    }
}

/// `tabs` with the tree of the tab at `current` laid out over `area`.
pub open spec fn relaid(tabs: Seq<Tab>, current: int, area: Rect, gap: i64) -> Seq<Tab> {
    tabs.update(
        current,
        Tab {
            name: tabs[current].name,
            inner: tabs[current].inner.resized(area, gap),
            windows: tabs[current].windows,
            selected: tabs[current].selected,
        },
    )
}

impl Frame {
    /// There is a tab and a buffer, the current tab exists, every tab is
    /// well formed, and every window of every tab shows a buffer that
    /// exists.
    pub open spec fn wf(self) -> bool {
        &&& self.tabs@.len() > 0
        &&& self.curr_tab < self.tabs@.len()
        &&& self.buffers@.len() > 0
        &&& forall|i: int|
            0 <= i < self.tabs@.len() ==> (#[trigger] self.tabs@[i]).wf() && self.tabs@[i].inner.refs_below(
                self.buffers@.len() as int,
            )
        &&& forall|i: int| 0 <= i < self.buffers@.len() ==> (#[trigger] self.buffers@[i]).data.wf()
    }

    /// The counters have room for one more tab and, in every tab, one more
    /// window.
    pub open spec fn has_room(self) -> bool {
        &&& self.tabn < usize::MAX
        &&& forall|i: int| 0 <= i < self.tabs@.len() ==> (#[trigger] self.tabs@[i]).windows < usize::MAX
    }

    /// The area the current tab is laid out in.
    pub open spec fn area(self) -> Rect {
        drawable(self.size, self.settings.metrics)
    }

    /// The current tab.
    pub open spec fn current(self) -> Tab {
        self.tabs@[self.curr_tab as int]
    }

    /// Only the tabs differ between `self` and `other`.
    pub open spec fn same_but_tabs(self, other: Frame) -> bool {
        &&& other.curr_tab == self.curr_tab
        &&& other.buffers@ == self.buffers@
        &&& other.mode == self.mode
        &&& other.tabn == self.tabn
        &&& other.settings == self.settings
        &&& other.size == self.size
    }

    /// A frame of one tab with one window, which shows the frame's one
    /// buffer. Nothing is laid out yet: the output area has size zero.
    pub fn new(settings: Settings) -> (frame: Frame)
        ensures
            frame.wf(),
            frame.tabs@.len() == 1,
            frame.tabs@[0].name@ == tab_name(1),
            frame.tabs@[0].inner == Split::Window(
                Window { dimensions: Rect { x: 0, y: 0, w: 0, h: 0 }, buffer_index: 0 },
            ),
            frame.tabs@[0].windows == 1,
            frame.tabs@[0].selected == 0,
            frame.curr_tab == 0,
            frame.buffers@.len() == 1,
            frame.buffers@[0].data.is_fresh(settings.opts.auto_fill_candidates),
            frame.mode == Mode::Normal,
            frame.tabn == 1,
            frame.settings == settings,
            frame.size == (0i32, 0i32),
    {
        let mut tabs: Vec<Tab> = Vec::new();
        tabs.push(Tab::new(make_tab_name(1), 0));
        let mut buffers: Vec<Buffer> = Vec::new();
        buffers.push(Buffer::new(settings.opts.auto_fill_candidates));
        Frame {
            mode: Mode::Normal,
            tabs,
            tabn: 1,
            curr_tab: 0,
            buffers,
            settings,
            size: (0, 0),
        }
    }

    /// What `set_size` leaves.
    pub open spec fn sized(self, after: Frame, width: i32, height: i32) -> bool {
        &&& after.curr_tab == self.curr_tab
        &&& after.buffers@ == self.buffers@
        &&& after.mode == self.mode
        &&& after.tabn == self.tabn
        &&& after.settings == self.settings
        &&& after.size == (width, height)
        &&& self.size == (width, height) ==> after.tabs@ == self.tabs@
        &&& self.size != (width, height) ==> after.tabs@ == relaid(
                self.tabs@,
                self.curr_tab as int,
                drawable((width, height), self.settings.metrics),
                self.settings.metrics.window_gaps as i64,
            )
    }

    /// Takes note of the size of the output area and lays the current tab
    /// out again if it has changed.
    pub fn set_size(&mut self, width: i32, height: i32)
        requires
            old(self).wf(),
        ensures
            final(self).wf(),
            old(self).sized(*final(self), width, height),
    {
        if self.size.0 != width || self.size.1 != height {
            self.size = (width, height);
            self.resize();
        }
    }

    /// What `new_tab` leaves.
    pub open spec fn tab_opened(self, after: Frame) -> bool {
        &&& after.tabn == self.tabn + 1
        &&& after.curr_tab == self.tabs@.len()
        &&& after.tabs@.len() == self.tabs@.len() + 1
        &&& after.tabs@.subrange(0, self.tabs@.len() as int) == self.tabs@
        &&& after.current().name@ == tab_name(after.tabn as nat)
        &&& after.current().inner == Split::Window(
                Window {
                    dimensions: Rect { x: 0, y: 0, w: 0, h: 0 },
                    buffer_index: self.buffers@.len() as usize,
                },
            ).resized(self.area(), self.settings.metrics.window_gaps as i64)
        &&& after.current().windows == 1
        &&& after.current().selected == 0
        &&& after.buffers@.len() == self.buffers@.len() + 1
        &&& after.buffers@.subrange(0, self.buffers@.len() as int) == self.buffers@
        &&& after.buffers@.last().data.is_fresh(self.settings.opts.auto_fill_candidates)
        &&& after.mode == self.mode
        &&& after.settings == self.settings
        &&& after.size == self.size
    }

    /// Opens a tab of one window on a new buffer, makes it the current tab
    /// and lays it out.
    pub fn new_tab(&mut self)
        requires
            old(self).wf(),
            old(self).tabn < usize::MAX,
        ensures
            final(self).wf(),
            old(self).tab_opened(*final(self)),
    {
        self.tabn += 1;
        self.tabs.push(Tab::new(make_tab_name(self.tabn), self.buffers.len()));
        self.curr_tab = self.tabs.len() - 1;
        self.buffers.push(Buffer::new(self.settings.opts.auto_fill_candidates));
        proof {
            let limit = self.buffers@.len() as int;
            assert forall|i: int| 0 <= i < self.tabs@.len() implies (#[trigger] self.tabs@[i]).wf()
                && self.tabs@[i].inner.refs_below(limit) by {
                if i < old(self).tabs@.len() {
                    assert(self.tabs@[i] == old(self).tabs@[i]);
                    assert(old(self).tabs@[i].inner.refs_below(limit - 1));
                }
            }
        }
        self.resize();
        assert(self.tabs@.subrange(0, old(self).tabs@.len() as int) =~= old(self).tabs@);
        assert(self.buffers@.subrange(0, old(self).buffers@.len() as int) =~= old(self).buffers@);
    }

    /// What `close_tab` leaves.
    pub open spec fn tab_closed(self, after: Frame) -> bool {
        &&& after.buffers@ == self.buffers@
        &&& after.mode == self.mode
        &&& after.tabn == self.tabn
        &&& after.settings == self.settings
        &&& after.size == self.size
        &&& self.tabs@.len() <= 1 ==> after.curr_tab == self.curr_tab && after.tabs@ == relaid(
                self.tabs@,
                self.curr_tab as int,
                self.area(),
                self.settings.metrics.window_gaps as i64,
            )
        &&& self.tabs@.len() > 1 ==> after.curr_tab == (if self.curr_tab >= self.tabs@.len() - 1 {
                self.tabs@.len() - 2
            } else {
                self.curr_tab as int
            }) && after.tabs@ == relaid(
                self.tabs@.remove(self.curr_tab as int),
                after.curr_tab as int,
                self.area(),
                self.settings.metrics.window_gaps as i64,
            )
    }

    /// Closes the current tab, unless it is the only one, and lays out the
    /// tab that is current then: the one that took the closed tab's place,
    /// or the last tab if the closed one was last.
    pub fn close_tab(&mut self)
        requires
            old(self).wf(),
        ensures
            final(self).wf(),
            old(self).tab_closed(*final(self)),
    {
        let mut len: usize = self.tabs.len();
        if len > 1 {
            self.tabs.remove(self.curr_tab);
            len -= 1;
            if self.curr_tab >= len {
                self.curr_tab = len - 1;
            }
            proof {
                let gone = old(self).curr_tab as int;
                assert forall|i: int| 0 <= i < self.tabs@.len() implies (
                #[trigger] self.tabs@[i]).wf() && self.tabs@[i].inner.refs_below(
                    self.buffers@.len() as int,
                ) by {
                    if i < gone {
                        assert(self.tabs@[i] == old(self).tabs@[i]);
                    } else {
                        assert(self.tabs@[i] == old(self).tabs@[i + 1]);
                    }
                }
            }
        }
        self.resize();
    }

    /// What `switch_tab` leaves.
    pub open spec fn tab_switched(self, after: Frame, n: i32) -> bool {
        &&& after.curr_tab == (self.curr_tab + n) % (self.tabs@.len() as int)
        &&& after.tabs@ == relaid(
                self.tabs@,
                after.curr_tab as int,
                self.area(),
                self.settings.metrics.window_gaps as i64,
            )
        &&& after.buffers@ == self.buffers@
        &&& after.mode == self.mode
        &&& after.tabn == self.tabn
        &&& after.settings == self.settings
        &&& after.size == self.size
    }

    /// Makes the tab `n` places on the current one, cyclically, and lays it
    /// out: the tab at `(curr_tab + n) mod` the number of tabs.
    pub fn switch_tab(&mut self, n: i32)
        requires
            old(self).wf(),
        ensures
            final(self).wf(),
            old(self).tab_switched(*final(self), n),
    {
        self.curr_tab = cycle(self.curr_tab, n, self.tabs.len());
        self.resize();
    }

    /// What `split` leaves.
    pub open spec fn did_split(self, after: Frame, direction: SplitDirection) -> bool {
        &&& self.same_but_tabs(after)
        &&& after.tabs@ == relaid(
                self.tabs@.update(
                    self.curr_tab as int,
                    self.current().after_split(direction),
                ),
                self.curr_tab as int,
                self.area(),
                self.settings.metrics.window_gaps as i64,
            )
    }

    /// Divides the selected window of the current tab and lays the tab out.
    pub fn split(&mut self, direction: SplitDirection)
        requires
            old(self).wf(),
            old(self).current().windows < usize::MAX,
        ensures
            final(self).wf(),
            old(self).did_split(*final(self), direction),
    {
        let current: usize = self.curr_tab;
        proof {
            let tab = self.tabs@[current as int];
            Split::lemma_doubled(tab.selected_window(), direction);
            assert(doubled(tab.selected_window(), direction).refs_below(
                self.buffers@.len() as int,
            )) by {
                assert(tab.inner.windows()[tab.selected as int].buffer_index
                    < self.buffers@.len());
            }
            tab.inner.lemma_refs_replaced(
                tab.selected as int,
                doubled(tab.selected_window(), direction),
                self.buffers@.len() as int,
            );
        }
        self.tabs[current].split(direction);
        assert(self.tabs@ =~= old(self).tabs@.update(
            current as int,
            old(self).current().after_split(direction),
        ));
        self.resize();
    }

    /// What `kill_pane` leaves.
    pub open spec fn pane_killed(self, after: Frame) -> bool {
        &&& self.same_but_tabs(after)
        &&& after.tabs@ == relaid(
                self.tabs@.update(self.curr_tab as int, self.current().after_kill()),
                self.curr_tab as int,
                self.area(),
                self.settings.metrics.window_gaps as i64,
            )
    }

    /// Removes the selected window of the current tab, unless it is the
    /// tab's last, and lays the tab out.
    pub fn kill_pane(&mut self)
        requires
            old(self).wf(),
        ensures
            final(self).wf(),
            old(self).pane_killed(*final(self)),
    {
        let current: usize = self.curr_tab;
        proof {
            let tab = self.tabs@[current as int];
            if tab.windows > 1 {
                tab.inner.lemma_refs_killed(tab.selected as int, self.buffers@.len() as int);
            }
        }
        self.tabs[current].kill_pane();
        assert(self.tabs@ =~= old(self).tabs@.update(
            current as int,
            old(self).current().after_kill(),
        ));
        self.resize();
    }

    /// What `buffer_mode` leaves.
    pub open spec fn in_buffer_mode(self, after: Frame) -> bool {
        &&& after.mode == Mode::Buffer
        &&& after.tabs@ == self.tabs@
        &&& after.curr_tab == self.curr_tab
        &&& after.buffers@ == self.buffers@
        &&& after.tabn == self.tabn
        &&& after.settings == self.settings
        &&& after.size == self.size
    }

    /// Lets the next key pick a buffer command.
    pub fn buffer_mode(&mut self)
        ensures
            old(self).in_buffer_mode(*final(self)),
    {
        self.mode = Mode::Buffer;
    }

    /// What `new_buffer` leaves.
    pub open spec fn buffer_opened(self, after: Frame) -> bool {
        &&& after.tabs@ == self.tabs@.update(
                self.curr_tab as int,
                Tab {
                    name: self.current().name,
                    inner: self.current().inner.replaced(
                        self.current().selected as int,
                        Split::Window(
                            Window {
                                dimensions: self.current().selected_window().dimensions,
                                buffer_index: self.buffers@.len() as usize,
                            },
                        ),
                    ),
                    windows: self.current().windows,
                    selected: self.current().selected,
                },
            )
        &&& after.buffers@.len() == self.buffers@.len() + 1
        &&& after.buffers@.subrange(0, self.buffers@.len() as int) == self.buffers@
        &&& after.buffers@.last().data.is_fresh(self.settings.opts.auto_fill_candidates)
        &&& after.curr_tab == self.curr_tab
        &&& after.mode == self.mode
        &&& after.tabn == self.tabn
        &&& after.settings == self.settings
        &&& after.size == self.size
    }

    /// Opens a new buffer and shows it in the selected window. Other
    /// windows keep the buffer they show, also those that showed the same
    /// buffer as the selected one.
    pub fn new_buffer(&mut self)
        requires
            old(self).wf(),
        ensures
            final(self).wf(),
            old(self).buffer_opened(*final(self)),
    {
        let current: usize = self.curr_tab;
        let idx: usize = self.tabs[current].selected;
        let fresh: usize = self.buffers.len();
        let ghost tab = self.tabs@[current as int];
        let ghost shown = Window {
            dimensions: tab.selected_window().dimensions,
            buffer_index: fresh,
        };
        match self.tabs[current].inner.idx_mut(idx) {
            Some(window) => {
                window.buffer_index = fresh;
            },
            None => {},
        }
        self.buffers.push(Buffer::new(self.settings.opts.auto_fill_candidates));
        proof {
            let limit = self.buffers@.len() as int;
            tab.inner.lemma_replaced(idx as int, Split::Window(shown));
            assert(tab.inner.refs_below(limit)) by {
                assert(tab.inner.refs_below(limit - 1));
            }
            tab.inner.lemma_refs_replaced(idx as int, Split::Window(shown), limit);
            assert forall|i: int| 0 <= i < self.tabs@.len() implies (#[trigger] self.tabs@[i]).wf()
                && self.tabs@[i].inner.refs_below(limit) by {
                if i != current {
                    assert(self.tabs@[i] == old(self).tabs@[i]);
                    assert(old(self).tabs@[i].inner.refs_below(limit - 1));
                }
            }
            assert(self.buffers@.subrange(0, old(self).buffers@.len() as int) =~= old(self).buffers@);
        }
    }

    /// What `switch_buffer` leaves.
    pub open spec fn buffer_switched(self, after: Frame, n: i32) -> bool {
        &&& self.same_but_tabs(after)
        &&& after.tabs@ == self.tabs@.update(
                self.curr_tab as int,
                Tab {
                    name: self.current().name,
                    inner: self.current().inner.replaced(
                        self.current().selected as int,
                        Split::Window(
                            Window {
                                dimensions: self.current().selected_window().dimensions,
                                buffer_index: ((self.current().selected_window().buffer_index
                                    + n) % (self.buffers@.len() as int)) as usize,
                            },
                        ),
                    ),
                    windows: self.current().windows,
                    selected: self.current().selected,
                },
            )
    }

    /// Points the selected window at the buffer `n` places on, cyclically.
    pub fn switch_buffer(&mut self, n: i32)
        requires
            old(self).wf(),
        ensures
            final(self).wf(),
            old(self).buffer_switched(*final(self), n),
    {
        let current: usize = self.curr_tab;
        let len: usize = self.buffers.len();
        proof {
            let tab = self.tabs@[current as int];
            let target = ((tab.selected_window().buffer_index + n) % (len as int)) as usize;
            vstd::arithmetic::div_mod::lemma_mod_bound(
                tab.selected_window().buffer_index + n,
                len as int,
            );
            let shown = Window {
                dimensions: tab.selected_window().dimensions,
                buffer_index: target,
            };
            tab.inner.lemma_refs_replaced(tab.selected as int, Split::Window(shown), len as int);
        }
        self.tabs[current].switch_buffer(n, len);
        assert(self.tabs@ =~= old(self).tabs@.update(current as int, self.tabs@[current as int]));
    }

    /// What `kill_buffer` leaves.
    pub open spec fn buffer_killed(self, after: Frame) -> bool {
        &&& after.curr_tab == self.curr_tab
        &&& after.mode == self.mode
        &&& after.tabn == self.tabn
        &&& after.settings == self.settings
        &&& after.size == self.size
        &&& self.buffers@.len() <= 1 ==> after.tabs@ == self.tabs@ && after.buffers@ == self.buffers@
        &&& self.buffers@.len() > 1 ==> after.buffers@ == self.buffers@.remove(
                self.current().selected_window().buffer_index as int,
            ) && after.tabs@.len() == self.tabs@.len() && forall|i: int|
                0 <= i < self.tabs@.len() ==> #[trigger] after.tabs@[i] == (Tab {
                    name: self.tabs@[i].name,
                    inner: self.tabs@[i].inner.shifted(
                        self.current().selected_window().buffer_index,
                    ),
                    windows: self.tabs@[i].windows,
                    selected: self.tabs@[i].selected,
                })
    }

    /// Removes the buffer that the selected window shows, unless it is the
    /// only buffer, and re-points every window of every tab: a window that
    /// showed the removed buffer or a later one now shows the one before
    /// it (the first buffer, if the removed one was first), so that every
    /// window again shows a buffer that exists.
    pub fn kill_buffer(&mut self)
        requires
            old(self).wf(),
        ensures
            final(self).wf(),
            old(self).buffer_killed(*final(self)),
    {
        let len: usize = self.buffers.len();
        if len > 1 {
            let current: usize = self.curr_tab;
            let win_idx: usize = self.tabs[current].selected;
            let removed: usize = match self.tabs[current].inner.idx(win_idx) {
                Some(window) => window.buffer_index,
                None => {
                    return ;
                },
            };
            self.buffers.remove(removed);
            let mut i: usize = 0;
            while i < self.tabs.len()
                invariant
                    i <= self.tabs@.len(),
                    self.tabs@.len() == old(self).tabs@.len(),
                    len == old(self).buffers@.len(),
                    len > 1,
                    removed < len,
                    old(self).wf(),
                    removed == old(self).current().selected_window().buffer_index,
                    self.buffers@ == old(self).buffers@.remove(removed as int),
                    self.curr_tab == old(self).curr_tab,
                    self.mode == old(self).mode,
                    self.tabn == old(self).tabn,
                    self.settings == old(self).settings,
                    self.size == old(self).size,
                    forall|j: int|
                        0 <= j < i ==> #[trigger] self.tabs@[j] == (Tab {
                            name: old(self).tabs@[j].name,
                            inner: old(self).tabs@[j].inner.shifted(removed),
                            windows: old(self).tabs@[j].windows,
                            selected: old(self).tabs@[j].selected,
                        }),
                    forall|j: int|
                        i <= j < self.tabs@.len() ==> #[trigger] self.tabs@[j] == old(self).tabs@[j],
                decreases self.tabs@.len() - i,
            {
                let ghost before = self.tabs@;
                self.tabs[i].inner.shift_buffers(removed);
                assert(forall|j: int|
                    0 <= j < self.tabs@.len() && j != i ==> #[trigger] self.tabs@[j] == before[j]);
                i += 1;
            }
            proof {
                assert forall|j: int| 0 <= j < self.tabs@.len() implies (
                #[trigger] self.tabs@[j]).wf() && self.tabs@[j].inner.refs_below(
                    self.buffers@.len() as int,
                ) by {
                    let was = old(self).tabs@[j];
                    assert(was.wf());
                    was.inner.lemma_shifted(removed, len as int);
                }
            }
        }
    }

    /// What a key leaves in buffer mode, and whether the typed character
    /// was taken. The tab key shows the next buffer in the selected window
    /// and leaves the character. Else the escape key leaves buffer mode, and
    /// a typed character picks a buffer command and leaves buffer mode
    /// too: `l` and `h` show the next and the previous buffer, `n` opens
    /// a buffer, `k` removes one. Any other character keeps buffer mode.
    pub open spec fn buffer_keyed(self, after: Frame, input: Input, taken: bool) -> bool {
        if input.last_key == Some(Key::Tab) {
            !taken && self.buffer_switched(after, 1i32)
        } else {
            let escaped = self.with_mode(
                if input.last_key == Some(Key::Escape) {
                    Mode::Normal
                } else {
                    self.mode
                },
            );
            match input.ch {
                None => !taken && escaped.same_as(after),
                Some(c) => taken && (if c == 'l' {
                    escaped.with_mode(Mode::Normal).buffer_switched(after, 1i32)
                } else if c == 'h' {
                    escaped.with_mode(Mode::Normal).buffer_switched(after, -1i32)
                } else if c == 'n' {
                    escaped.with_mode(Mode::Normal).buffer_opened(after)
                } else if c == 'k' {
                    escaped.with_mode(Mode::Normal).buffer_killed(after)
                } else {
                    escaped.with_mode(Mode::Buffer).same_as(after)
                }),
            }
        }
    }

    /// The frame in the mode `mode`.
    pub open spec fn with_mode(self, mode: Mode) -> Frame {
        Frame {
            tabs: self.tabs,
            curr_tab: self.curr_tab,
            buffers: self.buffers,
            mode,
            tabn: self.tabn,
            settings: self.settings,
            size: self.size,
        }
    }

    /// Both frames hold the same.
    pub open spec fn same_as(self, other: Frame) -> bool {
        &&& self.same_but_tabs(other)
        &&& other.tabs@ == self.tabs@
    }

    /// Takes a key in buffer mode: see `buffer_keyed`.
    pub fn handle_input_buffer(&mut self, input: &Input) -> (taken: bool)
        requires
            old(self).wf(),
        ensures
            final(self).wf(),
            old(self).buffer_keyed(*final(self), *input, taken),
    {
        match input.last_key {
            Some(Key::Tab) => {
                self.switch_buffer(1);
                return false;
            },
            Some(Key::Escape) => {
                self.mode = Mode::Normal;
            },
            _ => {},
        }
        match input.ch {
            Some(c) => {
                self.mode = Mode::Normal;
                if c == 'l' {
                    self.switch_buffer(1);
                } else if c == 'h' {
                    self.switch_buffer(-1);
                } else if c == 'n' {
                    self.new_buffer();
                } else if c == 'k' {
                    self.kill_buffer();
                } else {
                    self.mode = Mode::Buffer;
                }
                true
            },
            None => false,
        }
    }

    /// What the selected window of the current tab leaves when its tab
    /// moves the selection by `probe`.
    pub open spec fn selection_moved(self, after: Frame, probe: (int, int)) -> bool {
        &&& self.same_but_tabs(after)
        &&& after.tabs@.len() == self.tabs@.len()
        &&& forall|i: int|
            0 <= i < self.tabs@.len() && i != self.curr_tab ==> after.tabs@[i] == self.tabs@[i]
        &&& self.current().moved_to(after.current(), probe)
    }

    /// What a typed character leaves while the control key is down. The
    /// backslash and the minus sign divide the selected window, `h`, `j`,
    /// `k` and `l` move the selection, `x` removes the selected window,
    /// `t` opens and `w` closes a tab, `b` enters buffer mode. Any other
    /// character does nothing.
    pub open spec fn frame_char_keyed(self, after: Frame, ch: char) -> bool {
        let gap = self.settings.metrics.window_gaps as i64;
        let here = self.current().selected_window().dimensions;
        if ch == '\\' {
            self.did_split(after, SplitDirection::Vertical)
        } else if ch == '-' {
            self.did_split(after, SplitDirection::Horizontal)
        } else if ch == 'h' {
            self.selection_moved(after, crate::frame::tab::probe_left(here, gap))
        } else if ch == 'l' {
            self.selection_moved(after, crate::frame::tab::probe_right(here, gap))
        } else if ch == 'k' {
            self.selection_moved(after, crate::frame::tab::probe_up(here, gap))
        } else if ch == 'j' {
            self.selection_moved(after, crate::frame::tab::probe_down(here, gap))
        } else if ch == 'x' {
            self.pane_killed(after)
        } else if ch == 't' {
            self.tab_opened(after)
        } else if ch == 'w' {
            self.tab_closed(after)
        } else if ch == 'b' {
            self.in_buffer_mode(after)
        } else {
            self.same_as(after)
        }
    }

    /// What a command leaves: what the method that it names leaves.
    pub open spec fn commanded(self, after: Frame, command: Command) -> bool {
        let gap = self.settings.metrics.window_gaps as i64;
        let here = self.current().selected_window().dimensions;
        match command {
            Command::SplitHorizontal => self.did_split(after, SplitDirection::Horizontal),
            Command::SplitVertical => self.did_split(after, SplitDirection::Vertical),
            Command::KillPane => self.pane_killed(after),
            Command::MoveUp => self.selection_moved(after, crate::frame::tab::probe_up(here, gap)),
            Command::MoveDown => self.selection_moved(
                after,
                crate::frame::tab::probe_down(here, gap),
            ),
            Command::MoveLeft => self.selection_moved(
                after,
                crate::frame::tab::probe_left(here, gap),
            ),
            Command::MoveRight => self.selection_moved(
                after,
                crate::frame::tab::probe_right(here, gap),
            ),
            Command::NewTab => self.tab_opened(after),
            Command::CloseTab => self.tab_closed(after),
            Command::NextTab => self.tab_switched(after, 1i32),
            Command::PrevTab => self.tab_switched(after, -1i32),
            Command::NewBuffer => self.buffer_opened(after),
            Command::SwitchBuffer(n) => self.buffer_switched(after, n),
            Command::KillBuffer => self.buffer_killed(after),
        }
    }

    /// Runs a command: see `commanded`.
    pub fn dispatch(&mut self, command: Command)
        requires
            old(self).wf(),
            old(self).has_room(),
        ensures
            final(self).wf(),
            old(self).commanded(*final(self), command),
    {
        let current: usize = self.curr_tab;
        let gap: i64 = self.settings.metrics.window_gaps as i64;
        match command {
            Command::SplitHorizontal => self.split(SplitDirection::Horizontal),
            Command::SplitVertical => self.split(SplitDirection::Vertical),
            Command::KillPane => self.kill_pane(),
            Command::MoveUp => {
                self.tabs[current].move_up(gap);
            },
            Command::MoveDown => {
                self.tabs[current].move_down(gap);
            },
            Command::MoveLeft => {
                self.tabs[current].move_left(gap);
            },
            Command::MoveRight => {
                self.tabs[current].move_right(gap);
            },
            Command::NewTab => self.new_tab(),
            Command::CloseTab => self.close_tab(),
            Command::NextTab => self.switch_tab(1),
            Command::PrevTab => self.switch_tab(-1),
            Command::NewBuffer => self.new_buffer(),
            Command::SwitchBuffer(n) => self.switch_buffer(n),
            Command::KillBuffer => self.kill_buffer(),
        }
    }

    /// What the keys leave while the control key is down, and whether the
    /// typed character was taken: the tab key switches to the next tab, or
    /// to the previous one if the shift key is down; then a typed
    /// character does what `frame_char_keyed` says.
    pub open spec fn frame_keyed(self, after: Frame, input: Input, taken: bool) -> bool {
        exists|mid: Frame|
            #![trigger mid.wf()]
            mid.wf() && (if input.last_key == Some(Key::Tab) {
                self.tab_switched(
                    mid,
                    if input.shift_down {
                        -1i32
                    } else {
                        1i32
                    },
                )
            } else {
                self.same_as(mid)
            }) && (match input.ch {
                None => !taken && mid.same_as(after),
                Some(ch) => taken && mid.frame_char_keyed(after, ch),
            })
    }

    /// Takes the keys while the control key is down: see `frame_keyed`.
    pub fn handle_frame_input(&mut self, input: &Input) -> (taken: bool)
        requires
            old(self).wf(),
            old(self).has_room(),
        ensures
            final(self).wf(),
            old(self).frame_keyed(*final(self), *input, taken),
    {
        match input.last_key {
            Some(Key::Tab) => {
                self.switch_tab(
                    if input.shift_down {
                        -1
                    } else {
                        1
                    },
                );
            },
            _ => (),
        }
        let ghost mid = *self;
        assert(mid.wf());
        proof {
            assert forall|i: int| 0 <= i < mid.tabs@.len() implies (#[trigger] mid.tabs@[i]).windows
                < usize::MAX by {
                assert(old(self).tabs@[i].windows < usize::MAX);
            }
        }
        let current: usize = self.curr_tab;
        let gap: i64 = self.settings.metrics.window_gaps as i64;
        match input.ch {
            Some(ch) => {
                if ch == '\\' {
                    self.split(SplitDirection::Vertical);
                } else if ch == '-' {
                    self.split(SplitDirection::Horizontal);
                } else if ch == 'h' {
                    self.tabs[current].move_left(gap);
                } else if ch == 'l' {
                    self.tabs[current].move_right(gap);
                } else if ch == 'k' {
                    self.tabs[current].move_up(gap);
                } else if ch == 'j' {
                    self.tabs[current].move_down(gap);
                } else if ch == 'x' {
                    self.kill_pane();
                } else if ch == 't' {
                    self.new_tab();
                } else if ch == 'w' {
                    self.close_tab();
                } else if ch == 'b' {
                    self.buffer_mode();
                }
                true
            },
            None => false,
        }
    }

    /// What one tick's input leaves in normal mode, and whether the typed
    /// character was taken. With the control key down the keys act on the
    /// frame. Else they go to the buffer that the selected window of the
    /// current tab shows, and to no other.
    pub open spec fn normal_keyed(
        self,
        after: Frame,
        input: Input,
        clipboard: Clipboard,
        taken: bool,
    ) -> bool {
        if input.ctrl_down {
            self.frame_keyed(after, input, taken)
        } else {
            let shown = self.current().selected_window().buffer_index as int;
            &&& after.tabs@ == self.tabs@
            &&& after.curr_tab == self.curr_tab
            &&& after.mode == self.mode
            &&& after.tabn == self.tabn
            &&& after.settings.keymaps == self.settings.keymaps
            &&& after.settings.metrics == self.settings.metrics
            &&& after.size == self.size
            &&& after.buffers@.len() == self.buffers@.len()
            &&& forall|i: int|
                0 <= i < self.buffers@.len() && i != shown ==> after.buffers@[i] == self.buffers@[i]
            &&& self.buffers@[shown].data.handled(
                after.buffers@[shown].data,
                input,
                self.settings.keymaps,
                self.settings.opts,
                after.settings.opts,
                clipboard,
                taken,
            )
        }
    }

    /// Takes one tick's input in normal mode: see `normal_keyed`.
    pub fn handle_input_normal(&mut self, input: &Input, clipboard: &Clipboard) -> (taken: bool)
        requires
            old(self).wf(),
            old(self).has_room(),
            clipboard_ok(*clipboard),
        ensures
            final(self).wf(),
            old(self).normal_keyed(*final(self), *input, *clipboard, taken),
    {
        if input.ctrl_down {
            self.handle_frame_input(input)
        } else {
            let current: usize = self.curr_tab;
            let selected: usize = self.tabs[current].selected;
            let selected_win: Window = match self.tabs[current].inner.idx(selected) {
                Some(window) => *window,
                None => {
                    return false;
                },
            };
            assert(self.tabs@[current as int].inner.windows()[selected as int].buffer_index
                < self.buffers@.len());
            let shown: usize = selected_win.buffer_index;
            let taken = selected_win.update(
                &mut self.buffers[shown],
                input,
                &self.settings.keymaps,
                &mut self.settings.opts,
                clipboard,
            );
            taken
        }
    }

    /// What one tick's input leaves, and whether the typed character was
    /// taken.
    pub open spec fn keyed(self, after: Frame, input: Input, clipboard: Clipboard, taken: bool) -> bool {
        match self.mode {
            Mode::Buffer => self.buffer_keyed(after, input, taken),
            Mode::Normal => self.normal_keyed(after, input, clipboard, taken),
        }
    }

    /// Takes one tick's input: see `keyed`.
    pub fn handle_input(&mut self, input: &Input, clipboard: &Clipboard) -> (taken: bool)
        requires
            old(self).wf(),
            old(self).has_room(),
            clipboard_ok(*clipboard),
        ensures
            final(self).wf(),
            old(self).keyed(*final(self), *input, *clipboard, taken),
    {
        match self.mode {
            Mode::Buffer => self.handle_input_buffer(input),
            Mode::Normal => self.handle_input_normal(input, clipboard),
        }
    }

    /// What one tick leaves: the frame takes note of the size of the
    /// output area, lays the current tab out if the size has changed, and
    /// then takes the tick's input.
    pub open spec fn updated(
        self,
        after: Frame,
        width: i32,
        height: i32,
        input: Input,
        clipboard: Clipboard,
        taken: bool,
    ) -> bool {
        exists|mid: Frame|
            #![trigger self.sized(mid, width, height)]
            self.sized(mid, width, height) && mid.keyed(after, input, clipboard, taken)
    }

    /// One tick: see `updated`. Returns whether the typed character was
    /// taken; if not, it is to be offered again at the next tick.
    pub fn update(
        &mut self,
        width: i32,
        height: i32,
        input: &Input,
        clipboard: &Clipboard,
    ) -> (taken: bool)
        requires
            old(self).wf(),
            old(self).has_room(),
            clipboard_ok(*clipboard),
        ensures
            final(self).wf(),
            old(self).updated(*final(self), width, height, *input, *clipboard, taken),
    {
        self.set_size(width, height);
        let ghost mid = *self;
        assert(old(self).sized(mid, width, height));
        proof {
            assert forall|i: int| 0 <= i < mid.tabs@.len() implies (#[trigger] mid.tabs@[i]).windows
                < usize::MAX by {
                assert(old(self).tabs@[i].windows < usize::MAX);
            }
        }
        self.handle_input(input, clipboard)
    }

    /// Buffer index validity: once a buffer is removed, every window of
    /// every tab shows a buffer that exists, and every tab's selection
    /// names one of its windows.
    pub proof fn lemma_buffer_killed_refs(self, after: Frame)
        requires
            self.wf(),
            self.buffer_killed(after),
        ensures
            forall|t: int, w: int|
                0 <= t < after.tabs@.len() && 0 <= w < after.tabs@[t].inner.count() ==> (
                #[trigger] after.tabs@[t].inner.windows()[w]).buffer_index < after.buffers@.len(),
            forall|t: int|
                0 <= t < after.tabs@.len() ==> (#[trigger] after.tabs@[t]).selected
                    < after.tabs@[t].inner.count(),
            after.buffers@.len() >= 1,
    {
        if self.buffers@.len() > 1 {
            let removed = self.current().selected_window().buffer_index;
            assert(self.tabs@[self.curr_tab as int].wf());
            assert(self.current().inner.refs_below(self.buffers@.len() as int));
            assert(removed < self.buffers@.len());
            assert forall|t: int| 0 <= t < after.tabs@.len() implies (
            #[trigger] after.tabs@[t]).selected < after.tabs@[t].inner.count()
                && after.tabs@[t].inner.refs_below(after.buffers@.len() as int) by {
                assert(self.tabs@[t].wf());
                self.tabs@[t].inner.lemma_shifted(removed, self.buffers@.len() as int);
            }
            assert forall|t: int, w: int|
                0 <= t < after.tabs@.len() && 0 <= w < after.tabs@[t].inner.count() implies (
            #[trigger] after.tabs@[t].inner.windows()[w]).buffer_index
                < after.buffers@.len() by {
                assert(after.tabs@[t].inner.refs_below(after.buffers@.len() as int));
            }
        } else {
            assert forall|t: int, w: int|
                0 <= t < after.tabs@.len() && 0 <= w < after.tabs@[t].inner.count() implies (
            #[trigger] after.tabs@[t].inner.windows()[w]).buffer_index
                < after.buffers@.len() by {
                assert(self.tabs@[t].wf());
                assert(self.tabs@[t].inner.refs_below(self.buffers@.len() as int));
            }
            assert forall|t: int| 0 <= t < after.tabs@.len() implies (
            #[trigger] after.tabs@[t]).selected < after.tabs@[t].inner.count() by {
                assert(self.tabs@[t].wf());
            }
        }
    }

    /// What `resize` leaves.
    pub open spec fn relaid_out(self, after: Frame) -> bool {
        &&& self.same_but_tabs(after)
        &&& after.tabs@ == relaid(
                self.tabs@,
                self.curr_tab as int,
                self.area(),
                self.settings.metrics.window_gaps as i64,
            )
    }

    /// Lays the current tab out over the drawable part of the output area.
    pub fn resize(&mut self)
        requires
            old(self).wf(),
        ensures
            final(self).wf(),
            old(self).relaid_out(*final(self)),
    {
        let gaps: i64 = self.settings.metrics.outer_gaps as i64;
        let tabline_size: i64 = self.settings.metrics.tabline_size as i64;
        let cmd_size: i64 = self.settings.metrics.cmd_size as i64;
        let dimensions = Rect {
            x: gaps,
            y: gaps + tabline_size,
            w: self.size.0 as i64 - gaps * 2,
            h: self.size.1 as i64 - gaps * 2 - tabline_size - cmd_size,
        };
        let gap: i64 = self.settings.metrics.window_gaps as i64;
        let current: usize = self.curr_tab;
        proof {
            self.tabs@[current as int].inner.lemma_refs_resized(
                dimensions,
                gap,
                self.buffers@.len() as int,
            );
        }
        self.tabs[current].resize(dimensions, gap);
        assert(self.tabs@ =~= relaid(old(self).tabs@, current as int, dimensions, gap));
    }
}

/// The name of the `n`th tab opened: `Tab #` and `n` in decimal.
pub open spec fn tab_name(n: nat) -> Seq<char> {
    seq!['T', 'a', 'b', ' ', '#'] + decimal(n)
}

/// Makes the name of the `n`th tab opened.
pub fn make_tab_name(n: usize) -> (name: String)
    ensures
        name@ == tab_name(n as nat),
{
    proof {
        reveal_strlit("Tab #");
    }
    let mut name = String::from_str("Tab #");
    push_decimal(&mut name, n);
    assert(name@ =~= tab_name(n as nat));
    name
}

} // verus!
