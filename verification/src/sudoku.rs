//! What a buffer shows: a sudoku board and the state of its editor.
pub mod commands;
pub mod editing;
pub mod history;
pub mod mode;
pub mod sudoku_board;

use crate::sudoku::history::Change;
use crate::sudoku::history::History;
use crate::sudoku::sudoku_board::is_digit;
use crate::sudoku::sudoku_board::is_open;
use crate::sudoku::mode::Mode;
use crate::sudoku::sudoku_board::SudokuBoard;
use vstd::prelude::*;

verus! {

/// Bit of a cell that marks it as holding notes rather than a digit.
pub const NOTE_FLAG: u16 = 15;

/// A cell holding all nine notes.
pub const ALL_NOTES: u16 = 0b1000000111111111;

/// The cell holds notes: bit `NOTE_FLAG` is set, which makes it at least
/// `0x8000`.
pub open spec fn is_note_cell(num: u16) -> bool {
    num >= 0x8000
}

/// Whether the cell holds notes.
pub fn is_note(num: u16) -> (note: bool)
    ensures
        note == is_note_cell(num),
{
    assert((num & (1u16 << 15u16) != 0) == (num >= 0x8000)) by (bit_vector);
    num & (1 << NOTE_FLAG) != 0
}

/// `num` with bit `bit` cleared.
pub open spec fn without_bit(num: u16, bit: u16) -> u16 {
    num & !(1u16 << bit)
}

/// Flips bit `bit` of `num`.
pub fn toggle_bit(num: &mut u16, bit: u16)
    requires
        bit < 16,
    ensures
        *final(num) == *old(num) ^ (1u16 << bit),
{
    *num = *num ^ (1u16 << bit);
}

/// Clears bit `bit` of `num`.
pub fn n_bit_off(num: &mut u16, bit: u16)
    requires
        bit < 16,
    ensures
        *final(num) == without_bit(*old(num), bit),
{
    *num = *num & !(1u16 << bit);
}

/// Sets bit `bit` of `num`.
pub fn n_bit_on(num: &mut u16, bit: u16)
    requires
        bit < 16,
    ensures
        *final(num) == *old(num) | (1u16 << bit),
{
    *num = *num | (1u16 << bit);
}

/// Clearing a note keeps a cell of notes a cell of notes, and clearing it
/// twice is clearing it once.
pub proof fn lemma_without_bit(num: u16, bit: u16)
    requires
        bit < 9,
    ensures
        is_note_cell(without_bit(num, bit)) == is_note_cell(num),
        without_bit(without_bit(num, bit), bit) == without_bit(num, bit),
{
    assert(((num & !(1u16 << bit)) >= 0x8000) == (num >= 0x8000)) by (bit_vector)
        requires
            bit < 9,
    ;
    assert((num & !(1u16 << bit)) & !(1u16 << bit) == num & !(1u16 << bit)) by (bit_vector);
}

/// The cell of notes `num` holds the note of the digit `digit`.
pub open spec fn has_note(num: u16, digit: int) -> bool {
    num & (1u16 << ((digit - 1) as u16)) != 0
}

/// The cell holds no bit that `ALL_NOTES` lacks.
pub open spec fn only_notes(num: u16) -> bool {
    num & !ALL_NOTES == 0
}

/// `ALL_NOTES` is a cell of notes that holds every note.
pub proof fn lemma_all_notes(digit: int)
    requires
        1 <= digit <= 9,
    ensures
        is_note_cell(ALL_NOTES),
        only_notes(ALL_NOTES),
        has_note(ALL_NOTES, digit),
{
    let bit = (digit - 1) as u16;
    assert(0b1000000111111111u16 & (1u16 << bit) != 0) by (bit_vector)
        requires
            bit < 9,
    ;
    assert(0b1000000111111111u16 & !0b1000000111111111u16 == 0) by (bit_vector);
}

/// Clearing the note of one digit leaves the notes of the others, and adds
/// no bit.
pub proof fn lemma_without_note(num: u16, bit: u16, digit: int)
    requires
        bit < 9,
        1 <= digit <= 9,
    ensures
        has_note(without_bit(num, bit), digit) == (has_note(num, digit) && digit - 1 != bit),
        only_notes(num) ==> only_notes(without_bit(num, bit)),
{
    let other = (digit - 1) as u16;
    assert(((num & !(1u16 << bit)) & (1u16 << other) != 0) == ((num & (1u16 << other) != 0)
        && other != bit)) by (bit_vector)
        requires
            bit < 9,
            other < 9,
    ;
    assert(num & !0b1000000111111111u16 == 0 ==> (num & !(1u16 << bit)) & !0b1000000111111111u16
        == 0) by (bit_vector);
}

/// The cells marked for a joint edit, one bit mask per row.
pub struct Selection(pub [u16; 9]);

impl Selection {
    /// The cell `(y, x)` is marked.
    pub open spec fn marked(self, y: int, x: int) -> bool {
        self.0@[y] & (1u16 << (x as u16)) != 0
    }

    /// Marks the cell `(y, x)` if it is not marked, and unmarks it if it
    /// is.
    pub fn toggle(&mut self, y: usize, x: usize)
        requires
            y < 9,
            x < 9,
        ensures
            final(self).0@ == old(self).0@.update(
                y as int,
                old(self).0@[y as int] ^ (1u16 << (x as u16)),
            ),
    {
        self.0[y] = self.0[y] ^ (1u16 << (x as u16));
        assert(self.0@ =~= old(self).0@.update(
            y as int,
            old(self).0@[y as int] ^ (1u16 << (x as u16)),
        ));
    }

    /// Whether the cell `(y, x)` is marked.
    pub fn get(&self, y: usize, x: usize) -> (is_marked: bool)
        requires
            y < 9,
            x < 9,
        ensures
            is_marked == self.marked(y as int, x as int),
    {
        let mask: u16 = 1u16 << (x as u16);
        let row: u16 = self.0[y];
        assert((row & mask > 0) == (row & mask != 0)) by (bit_vector);
        row & mask > 0
    }

    /// Unmarks every cell.
    pub fn clear(&mut self)
        ensures
            forall|y: int| 0 <= y < 9 ==> #[trigger] final(self).0@[y] == 0,
    {
        let mut y: usize = 0;
        while y < 9
            invariant
                y <= 9,
                forall|k: int| 0 <= k < y ==> #[trigger] self.0@[k] == 0,
            decreases 9 - y,
        {
            self.0[y] = 0;
            y += 1;
        }
    }
}

/// A logged change names a cell of the board and holds cell values.
pub open spec fn change_ok(change: Change) -> bool {
    &&& change.pos.0 < 9
    &&& change.pos.1 < 9
    &&& (is_open(change.before) || is_digit(change.before))
    &&& (is_open(change.after) || is_digit(change.after))
}

/// Every change of an edit is `change_ok`.
pub open spec fn changes_ok(changes: Seq<Change>) -> bool {
    forall|k: int| 0 <= k < changes.len() ==> change_ok(#[trigger] changes[k])
}

/// Every edit of a log is `changes_ok`.
pub open spec fn log_ok(log: Seq<Seq<Change>>) -> bool {
    forall|i: int| 0 <= i < log.len() ==> changes_ok(#[trigger] log[i])
}

/// One board and the state of its editor.
pub struct Sudoku {
    pub board: SudokuBoard,
    /// The board's solution, once it is known to be the only one.
    pub only_solution: Option<SudokuBoard>,
    pub mode: Mode,
    /// The command line: what is being typed, or the last message.
    pub cmd: String,
    pub history: History,
    pub selected: Selection,
    /// The keys typed so far of a key binding.
    pub curr_keybind: String,
    /// The count typed before a command; 0 for none.
    pub repeat: u8,
    pub col: u8,
    pub row: u8,
}

impl Sudoku {
    /// The board holds cell values, the cursor is on the board, and the
    /// log holds changes of cells of the board.
    pub open spec fn wf(self) -> bool {
        &&& self.board.wf()
        &&& self.row < 9
        &&& self.col < 9
        &&& log_ok(self.history@.undo)
        &&& log_ok(self.history@.redo)
    }

    /// A new editor: the cursor is in the middle of the board, nothing is
    /// selected or logged, and every cell is empty, or holds all nine
    /// notes if `auto_fill_candidates` is set.
    pub open spec fn is_fresh(self, auto_fill_candidates: bool) -> bool {
        &&& forall|y: int, x: int|
            0 <= y < 9 && 0 <= x < 9 ==> #[trigger] self.board.cell(y, x) == (if auto_fill_candidates {
                ALL_NOTES
            } else {
                0
            })
        &&& self.only_solution is None
        &&& self.mode is Normal
        &&& self.cmd@.len() == 0
        &&& self.history@.undo.len() == 0
        &&& self.history@.redo.len() == 0
        &&& forall|y: int| 0 <= y < 9 ==> #[trigger] self.selected.0@[y] == 0
        &&& self.curr_keybind@.len() == 0
        &&& self.repeat == 0
        &&& self.col == 4
        &&& self.row == 4
    }

    pub fn new(auto_fill_candidates: bool) -> (s: Sudoku)
        ensures
            s.is_fresh(auto_fill_candidates),
            s.wf(),
    {
        proof {
            lemma_all_notes(1);
        }
        let fill: u16 = if auto_fill_candidates {
            ALL_NOTES
        } else {
            0
        };
        Sudoku {
            history: History::default(),
            only_solution: None,
            board: SudokuBoard([[fill; 9]; 9]),
            mode: Mode::Normal,
            selected: Selection([0; 9]),
            cmd: String::new(),
            curr_keybind: String::new(),
            repeat: 0,
            col: 4,
            row: 4,
        }
    }
}

} // verus!
