//! A buffer: what one or more windows show.
use crate::input::Clipboard;
use crate::input::Input;
use crate::settings::opts::Opts;
use crate::settings::Keymaps;
use crate::sudoku::commands::clipboard_ok;
use crate::sudoku::Sudoku;
use vstd::prelude::*;

verus! {

/// One board with its editor. Windows refer to buffers by their index in
/// the frame's list; a buffer may be shown in several windows at once.
pub struct Buffer {
    pub data: Sudoku,
}

impl Buffer {
    /// A buffer with a new editor in it.
    pub fn new(auto_fill_candidates: bool) -> (b: Buffer)
        ensures
            b.data.is_fresh(auto_fill_candidates),
            b.data.wf(),
    {
        Buffer { data: Sudoku::new(auto_fill_candidates) }
    }

    /// Hands one tick's input to the editor, and says whether the typed
    /// character was taken.
    pub fn update(
        &mut self,
        input: &Input,
        keymaps: &Keymaps,
        opts: &mut Opts,
        clipboard: &Clipboard,
    ) -> (taken: bool)
        requires
            old(self).data.wf(),
            clipboard_ok(*clipboard),
        ensures
            final(self).data.wf(),
            old(self).data.handled(
                final(self).data,
                *input,
                *keymaps,
                *old(opts),
                *final(opts),
                *clipboard,
                taken,
            ),
    {
        self.data.update(input, keymaps, opts, clipboard)
    }
}

} // verus!
