//! A window: one leaf of a split tree.
pub mod buffer;

use crate::frame::window::buffer::Buffer;
use crate::geometry::Rect;
use crate::input::Clipboard;
use crate::input::Input;
use crate::settings::opts::Opts;
use crate::settings::Keymaps;
use crate::sudoku::commands::clipboard_ok;
use vstd::prelude::*;

verus! {

/// A rectangular pane bound to one buffer. `buffer_index` is a position in
/// the owning frame's buffer list, not an owner of the buffer: several
/// windows may show the same buffer.
#[derive(Debug, Clone, Copy, PartialEq, Eq, Structural)]
pub struct Window {
    pub dimensions: Rect,
    pub buffer_index: usize,
}

impl Window {
    pub fn new(dimensions: Rect, buffer_index: usize) -> (w: Window)
        ensures
            w == (Window { dimensions, buffer_index }),
    {
        Window { dimensions, buffer_index }
    }
}

impl Window {
    /// Hands one tick's input to the buffer that the window shows, and
    /// says whether the typed character was taken.
    pub fn update(
        &self,
        buffer: &mut Buffer,
        input: &Input,
        keymaps: &Keymaps,
        opts: &mut Opts,
        clipboard: &Clipboard,
    ) -> (taken: bool)
        requires
            old(buffer).data.wf(),
            clipboard_ok(*clipboard),
        ensures
            final(buffer).data.wf(),
            old(buffer).data.handled(
                final(buffer).data,
                *input,
                *keymaps,
                *old(opts),
                *final(opts),
                *clipboard,
                taken,
            ),
    {
        buffer.update(input, keymaps, opts, clipboard)
    }
}

impl Default for Window {
    fn default() -> (w: Window)
        ensures
            w == (Window { dimensions: Rect { x: 0, y: 0, w: 0, h: 0 }, buffer_index: 0 }),
    {
        Window { dimensions: Rect { x: 0, y: 0, w: 0, h: 0 }, buffer_index: 0 }
    }
}

} // verus!
