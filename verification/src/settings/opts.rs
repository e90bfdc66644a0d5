//! The options of the editors.
use vstd::prelude::*;

verus! {

/// What the editors do on input. One set of options is shared by all
/// buffers of a frame.
#[derive(Debug, Clone, Copy, PartialEq, Eq, Structural)]
pub struct Opts {
    /// Entering a digit clears it from the notes of its row, column and
    /// box.
    pub auto_candidate_elimination: bool,
    /// New and imported boards start with every note set.
    pub auto_fill_candidates: bool,
    /// A digit that rules out every solution is refused.
    pub check_input: bool,
    pub highlight_square_instead_of_note: bool,
}

impl Default for Opts {
    fn default() -> (o: Opts)
        ensures
            o == (Opts {
                auto_candidate_elimination: false,
                auto_fill_candidates: false,
                check_input: true,
                highlight_square_instead_of_note: false,
            }),
    {
        Opts {
            auto_candidate_elimination: false,
            auto_fill_candidates: false,
            check_input: true,
            highlight_square_instead_of_note: false,
        }
    }
}

} // verus!
