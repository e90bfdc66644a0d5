//! The editor's commands.
use crate::input::Clipboard;
use crate::settings::opts::Opts;
use crate::sudoku::changes_ok;
use crate::sudoku::history::Change;
use crate::sudoku::change_ok;
use crate::sudoku::is_note;
use crate::sudoku::lemma_without_bit;
use crate::sudoku::log_ok;
use crate::sudoku::n_bit_on;
use crate::sudoku::toggle_bit;
use crate::text::trim;
use crate::text::trimmed;
use crate::sudoku::is_note_cell;
use crate::sudoku::mode::Mode;
use crate::sudoku::sudoku_board::all_digits;
use crate::sudoku::sudoku_board::is_digit;
use crate::sudoku::sudoku_board::is_digit_char;
use crate::sudoku::sudoku_board::spelled;
use crate::sudoku::sudoku_board::is_open;
use crate::sudoku::sudoku_board::on_board;
use crate::sudoku::sudoku_board::BacktrackResult;
use crate::sudoku::sudoku_board::SudokuBoard;
use crate::sudoku::Sudoku;
use crate::text::find_char;
use crate::text::position_of;
use crate::text::same_text;
use vstd::prelude::*;

verus! {

impl Sudoku {
    /// The board and its known solution are the same in both.
    pub open spec fn same_board(self, other: Sudoku) -> bool {
        other.board == self.board && other.only_solution == self.only_solution
    }

    /// The cursor is at the same cell in both.
    pub open spec fn same_cursor(self, other: Sudoku) -> bool {
        other.row == self.row && other.col == self.col
    }

    /// The pending key binding and count are the same in both.
    pub open spec fn same_keys(self, other: Sudoku) -> bool {
        other.curr_keybind@ == self.curr_keybind@ && other.repeat == self.repeat
    }

    /// The log and the marks are the same in both.
    pub open spec fn same_log_and_marks(self, other: Sudoku) -> bool {
        other.history@ == self.history@ && other.selected == self.selected
    }

    /// Only the cursor and the command line may differ.
    pub open spec fn same_but_cursor_and_cmd(self, other: Sudoku) -> bool {
        &&& self.same_board(other)
        &&& self.same_keys(other)
        &&& self.same_log_and_marks(other)
        &&& other.mode == self.mode
    }

    /// Only the mode may differ.
    pub open spec fn same_but_mode(self, other: Sudoku) -> bool {
        &&& self.same_board(other)
        &&& self.same_keys(other)
        &&& self.same_log_and_marks(other)
        &&& self.same_cursor(other)
        &&& other.cmd@ == self.cmd@
    }

    /// Shows `err_msg` in the command line.
    pub fn cmd_log(&mut self, err_msg: String)
        ensures
            final(self).cmd == err_msg,
            old(self).same_but_cursor_and_cmd(*final(self)),
            old(self).same_cursor(*final(self)),
    {
        self.cmd = err_msg;
    }

    /// Forgets the keys and the count typed so far.
    pub fn flush(&mut self)
        ensures
            final(self).curr_keybind@.len() == 0,
            final(self).repeat == 0,
            old(self).same_board(*final(self)),
            old(self).same_log_and_marks(*final(self)),
            old(self).same_cursor(*final(self)),
            final(self).mode == old(self).mode,
            final(self).cmd@ == old(self).cmd@,
    {
        self.curr_keybind = String::new();
        self.repeat = 0;
    }

    /// What `mov` leaves: the cursor `repeat` cells on in the direction
    /// that `args` names (one cell if there is no count), but no further
    /// than the edge of the board; or, if `args` names no direction, a
    /// message in the command line.
    pub open spec fn moved(self, after: Sudoku, args: Seq<char>, repeat: Option<u8>) -> bool {
        let steps: int = match repeat {
            Some(n) => n as int,
            None => 1,
        };
        &&& self.same_but_cursor_and_cmd(after)
        &&& if args == "u"@ || args == "up"@ {
            &&& after.row == (if self.row >= steps {
                self.row - steps
            } else {
                0
            })
            &&& after.col == self.col
            &&& after.cmd@ == self.cmd@
        } else if args == "d"@ || args == "down"@ {
            &&& after.row == (if self.row + steps <= 8 {
                self.row + steps
            } else {
                8
            })
            &&& after.col == self.col
            &&& after.cmd@ == self.cmd@
        } else if args == "l"@ || args == "left"@ {
            &&& after.col == (if self.col >= steps {
                self.col - steps
            } else {
                0
            })
            &&& after.row == self.row
            &&& after.cmd@ == self.cmd@
        } else if args == "r"@ || args == "right"@ {
            &&& after.col == (if self.col + steps <= 8 {
                self.col + steps
            } else {
                8
            })
            &&& after.row == self.row
            &&& after.cmd@ == self.cmd@
        } else {
            &&& after.row == self.row
            &&& after.col == self.col
            &&& after.cmd@ == "Invalid usage: mov u/d/l/r"@
        }
    }

    /// Moves the cursor: see `moved`.
    pub fn mov(&mut self, args: &str, repeat: Option<u8>)
        requires
            old(self).wf(),
        ensures
            final(self).wf(),
            old(self).moved(*final(self), args@, repeat),
    {
        proof {
            reveal_strlit("u");
            reveal_strlit("up");
            reveal_strlit("d");
            reveal_strlit("down");
            reveal_strlit("l");
            reveal_strlit("left");
            reveal_strlit("r");
            reveal_strlit("right");
        }
        let spaced: bool = find_char(args, ' ').is_some();
        proof {
            crate::text::lemma_position_of(args@, ' ');
            if spaced {
                let at = position_of(args@, ' ');
                assert(args@[at] == ' ');
                assert(args@ != "u"@ && args@ != "up"@ && args@ != "d"@ && args@ != "down"@);
                assert(args@ != "l"@ && args@ != "left"@ && args@ != "r"@ && args@ != "right"@);
            }
        }
        if spaced {
            self.cmd_log(String::from_str("Invalid usage: mov u/d/l/r"));
        }
        let repeat: u8 = match repeat {
            Some(n) => n,
            None => 1,
        };
        if same_text(args, "u") || same_text(args, "up") {
            let mut done: u8 = 0;
            while done < repeat
                invariant
                    done <= repeat,
                    self.row == (if old(self).row >= done {
                        old(self).row - done
                    } else {
                        0
                    }),
                    old(self).same_but_cursor_and_cmd(*self),
                    self.col == old(self).col,
                    self.cmd@ == old(self).cmd@,
                    old(self).wf(),
                ensures
                    done == repeat,
                decreases repeat - done,
            {
                if self.row > 0 {
                    self.row -= 1;
                } else {
                    proof {
                        assert(old(self).row <= done);
                    }
                    done = repeat;
                    break ;
                }
                done += 1;
            }
        } else if same_text(args, "d") || same_text(args, "down") {
            let mut done: u8 = 0;
            while done < repeat
                invariant
                    done <= repeat,
                    self.row == (if old(self).row + done <= 8 {
                        old(self).row + done
                    } else {
                        8
                    }),
                    old(self).same_but_cursor_and_cmd(*self),
                    self.col == old(self).col,
                    self.cmd@ == old(self).cmd@,
                    old(self).wf(),
                ensures
                    done == repeat,
                decreases repeat - done,
            {
                if self.row < 8 {
                    self.row += 1;
                } else {
                    done = repeat;
                    break ;
                }
                done += 1;
            }
        } else if same_text(args, "l") || same_text(args, "left") {
            let mut done: u8 = 0;
            while done < repeat
                invariant
                    done <= repeat,
                    self.col == (if old(self).col >= done {
                        old(self).col - done
                    } else {
                        0
                    }),
                    old(self).same_but_cursor_and_cmd(*self),
                    self.row == old(self).row,
                    self.cmd@ == old(self).cmd@,
                    old(self).wf(),
                ensures
                    done == repeat,
                decreases repeat - done,
            {
                if self.col > 0 {
                    self.col -= 1;
                } else {
                    done = repeat;
                    break ;
                }
                done += 1;
            }
        } else if same_text(args, "r") || same_text(args, "right") {
            let mut done: u8 = 0;
            while done < repeat
                invariant
                    done <= repeat,
                    self.col == (if old(self).col + done <= 8 {
                        old(self).col + done
                    } else {
                        8
                    }),
                    old(self).same_but_cursor_and_cmd(*self),
                    self.row == old(self).row,
                    self.cmd@ == old(self).cmd@,
                    old(self).wf(),
                ensures
                    done == repeat,
                decreases repeat - done,
            {
                if self.col < 8 {
                    self.col += 1;
                } else {
                    done = repeat;
                    break ;
                }
                done += 1;
            }
        } else {
            self.cmd_log(String::from_str("Invalid usage: mov u/d/l/r"));
        }
    }

    /// What `go` leaves: without a count, the mode in which the next two
    /// digits name a cell; with the count `yx`, the cursor in row `y` and
    /// column `x`, both counted from 1, or a message if `yx` names no cell.
    pub open spec fn gone(self, after: Sudoku, repeat: Option<u8>) -> bool {
        &&& self.same_board(after)
        &&& self.same_keys(after)
        &&& self.same_log_and_marks(after)
        &&& match repeat {
            None => after.mode == Mode::Go(0) && self.same_cursor(after) && after.cmd@
                == self.cmd@,
            Some(goto) => after.mode == self.mode && (if 1 <= goto / 10 <= 9 && goto % 10 >= 1 {
                after.row == goto / 10 - 1 && after.col == goto % 10 - 1 && after.cmd@
                    == self.cmd@
            } else {
                self.same_cursor(after) && after.cmd@ == "Invalid usage: <y><x>go"@
            }),
        }
    }

    /// Moves the cursor to a named cell: see `gone`.
    pub fn go(&mut self, repeat: Option<u8>)
        requires
            old(self).wf(),
        ensures
            final(self).wf(),
            old(self).gone(*final(self), repeat),
    {
        match repeat {
            Some(goto) => {
                let y: u8 = goto / 10;
                let x: u8 = goto % 10;
                if y <= 0 || y > 9 || x <= 0 {
                    self.cmd_log(String::from_str("Invalid usage: <y><x>go"));
                    return ;
                }
                self.row = y - 1;
                self.col = x - 1;
            },
            None => {
                self.mode = Mode::Go(0);
            },
        }
    }

    /// What `highlight` leaves.
    pub open spec fn highlighted(self, after: Sudoku, repeat: Option<u8>) -> bool {
        &&& after.mode == Mode::Highlight(
                    match repeat {
                        Some(n) => n,
                        None => 0,
                    },
                )
        &&& self.same_but_mode(after)
    }

    /// Enters the mode that highlights the digit `repeat`, or none if
    /// there is no count.
    pub fn highlight(&mut self, repeat: Option<u8>)
        ensures
            old(self).highlighted(*final(self), repeat),
    {
        self.mode = Mode::Highlight(
            match repeat {
                Some(n) => n,
                None => 0,
            },
        );
    }

    /// What `mode` leaves.
    pub open spec fn mode_set(self, after: Sudoku, mode: Seq<char>) -> bool {
        &&& after.mode matches Mode::Custom(name) && name@ == mode
        &&& self.same_but_mode(after)
    }

    /// Enters the custom mode named `mode`.
    pub fn mode(&mut self, mode: &str)
        ensures
            old(self).mode_set(*final(self), mode@),
    {
        self.mode = Mode::Custom(String::from_str(mode));
    }

    /// What `mark` leaves.
    pub open spec fn marked_at(self, after: Sudoku) -> bool {
        &&& after.selected.0@ == self.selected.0@.update(
                    self.row as int,
                    self.selected.0@[self.row as int] ^ (1u16 << (self.col as u16)),
                )
        &&& self.same_board(after)
        &&& self.same_keys(after)
        &&& self.same_cursor(after)
        &&& after.history@ == self.history@
        &&& after.mode == self.mode
        &&& after.cmd@ == self.cmd@
    }

    /// Marks the cell under the cursor, or unmarks it if it is marked.
    pub fn mark(&mut self)
        requires
            old(self).wf(),
        ensures
            final(self).wf(),
            old(self).marked_at(*final(self)),
    {
        self.selected.toggle(self.row as usize, self.col as usize);
    }
}

impl SudokuBoard {
    /// The changes that clearing notes around a cell logs are changes of
    /// cells of the board.
    pub proof fn lemma_fix_changes_ok(self, y: int, x: int, bit: u16, k: int)
        requires
            self.wf(),
            on_board(y, x),
            bit < 9,
            0 <= k <= 9,
        ensures
            changes_ok(self.box_changes(y, x, bit, k)),
            changes_ok(self.line_changes(y, x, bit, k)),
        decreases k,
    {
        if k > 0 {
            self.lemma_fix_changes_ok(y, x, bit, k - 1);
            let i = (y / 3) * 3 + (k - 1) / 3;
            let j = (x / 3) * 3 + (k - 1) % 3;
            lemma_without_bit(self.cell(i, j), bit);
            lemma_without_bit(self.cell(y, k - 1), bit);
            lemma_without_bit(self.cell(k - 1, x), bit);
            lemma_without_bit(self.box_value(y, k - 1, y, x, bit), bit);
            lemma_without_bit(self.box_value(k - 1, x, y, x, bit), bit);
            assert(is_open(self.cell(i, j)) || is_digit(self.cell(i, j)));
            assert(is_open(self.cell(y, k - 1)) || is_digit(self.cell(y, k - 1)));
            assert(is_open(self.cell(k - 1, x)) || is_digit(self.cell(k - 1, x)));
        }
    }

    /// The log of a pass over all cells between two boards of cell values
    /// holds changes of cells of the board.
    pub proof fn lemma_all_changes_ok(self, after: SudokuBoard)
        requires
            self.wf(),
            after.wf(),
        ensures
            changes_ok(self.all_changes(after)),
    {
        assert forall|k: int| 0 <= k < self.all_changes(after).len() implies change_ok(
            #[trigger] self.all_changes(after)[k],
        ) by {
            assert(is_open(self.cell(k / 9, k % 9)) || is_digit(self.cell(k / 9, k % 9)));
            assert(is_open(after.cell(k / 9, k % 9)) || is_digit(after.cell(k / 9, k % 9)));
        }
    }

    /// The cell `(i, j)` after the first `k` of `changes` were replayed in
    /// order: backward, each putting its `before` into its cell, if
    /// `back` is set, and forward, each putting its `after`, if not.
    pub open spec fn replayed(self, changes: Seq<Change>, k: int, back: bool, i: int, j: int) -> u16
        decreases k,
    {
        if k <= 0 {
            self.cell(i, j)
        } else if changes[k - 1].pos.0 == i && changes[k - 1].pos.1 == j {
            if back {
                changes[k - 1].before
            } else {
                changes[k - 1].after
            }
        } else {
            self.replayed(changes, k - 1, back, i, j)
        }
    }

    /// Replays `changes` on the board: see `replayed`.
    pub fn replay(&mut self, changes: &Vec<Change>, back: bool)
        requires
            old(self).wf(),
            changes_ok(changes@),
        ensures
            final(self).wf(),
            forall|i: int, j: int|
                on_board(i, j) ==> #[trigger] final(self).cell(i, j) == old(self).replayed(
                    changes@,
                    changes@.len() as int,
                    back,
                    i,
                    j,
                ),
    {
        let mut k: usize = 0;
        while k < changes.len()
            invariant
                k <= changes@.len(),
                changes_ok(changes@),
                self.wf(),
                forall|i: int, j: int|
                    on_board(i, j) ==> #[trigger] self.cell(i, j) == old(self).replayed(
                        changes@,
                        k as int,
                        back,
                        i,
                        j,
                    ),
            decreases changes@.len() - k,
        {
            let change: Change = changes[k];
            assert(change_ok(changes@[k as int]));
            let ghost prev = *self;
            let value: u16 = if back {
                change.before
            } else {
                change.after
            };
            self.set(change.pos.0 as usize, change.pos.1 as usize, value);
            proof {
                prev.lemma_with_cell(change.pos.0 as int, change.pos.1 as int, value);
            }
            k += 1;
        }
    }
}

/// A cell of notes with the note of the digit `note` flipped; an empty
/// cell becomes a cell of notes first.
pub open spec fn with_note_flipped(cell: u16, note: u8) -> u16 {
    (cell | (1u16 << 15u16)) ^ (1u16 << ((note - 1) as u16))
}

/// Flipping a note leaves a cell of notes.
pub proof fn lemma_note_flipped(cell: u16, note: u8)
    requires
        1 <= note <= 9,
    ensures
        is_note_cell(with_note_flipped(cell, note)),
{
    let bit = (note - 1) as u16;
    assert(((cell | (1u16 << 15u16)) ^ (1u16 << bit)) >= 0x8000) by (bit_vector)
        requires
            bit < 9,
    ;
}

impl Sudoku {
    /// The board with the digit `num` entered under the cursor.
    pub open spec fn entered(self, num: u8) -> SudokuBoard {
        self.board.with_cell(self.row as int, self.col as int, num as u16)
    }

    /// Whether `insert` refuses the digit `num`: input is checked, and the
    /// known solution holds another digit there, or no solution is known
    /// and the board with the digit entered has none.
    pub open spec fn refuses(self, num: u8, opts: Opts) -> bool {
        opts.check_input && match self.only_solution {
            Some(solution) => solution.cell(self.row as int, self.col as int) != num,
            None => self.entered(num).unsolvable(),
        }
    }

    /// What `insert` logs for the digit `num`: the change under the cursor
    /// and, if notes are cleared with it, the changes of that.
    pub open spec fn insert_changes(self, num: u8, opts: Opts) -> Seq<Change> {
        seq![
            Change {
                pos: (self.row, self.col),
                before: self.board.cell(self.row as int, self.col as int),
                after: num as u16,
            },
        ] + (if opts.auto_candidate_elimination {
            self.entered(num).box_changes(self.row as int, self.col as int, (num - 1) as u16, 9)
                + self.entered(num).line_changes(
                self.row as int,
                self.col as int,
                (num - 1) as u16,
                9,
            )
        } else {
            Seq::empty()
        })
    }

    /// What `insert` leaves. Without a count: insert mode. With a count
    /// that is no digit from 1 to 9: a message. With a digit that is
    /// refused: no change. Otherwise the digit is entered under the
    /// cursor, the notes of that digit around it are cleared if the
    /// options say so, the edit is logged, and the board's solution is
    /// remembered if the check found it to be the only one.
    pub open spec fn inserted(self, after: Sudoku, repeat: Option<u8>, opts: Opts) -> bool {
        match repeat {
            None => after.mode == Mode::Insert && self.same_but_mode(after),
            Some(num) => if !(1 <= num <= 9) {
                &&& after.cmd@ == "Invalid usage: <num>insert"@
                &&& self.same_but_cursor_and_cmd(after)
                &&& self.same_cursor(after)
            } else if self.refuses(num, opts) {
                after == self
            } else {
                &&& self.same_cursor(after)
                &&& self.same_keys(after)
                &&& after.selected == self.selected
                &&& after.mode == self.mode
                &&& after.cmd@ == self.cmd@
                &&& forall|i: int, j: int|
                    on_board(i, j) ==> #[trigger] after.board.cell(i, j) == (
                    if opts.auto_candidate_elimination {
                        self.entered(num).fixed_value(
                            i,
                            j,
                            self.row as int,
                            self.col as int,
                            (num - 1) as u16,
                        )
                    } else {
                        self.entered(num).cell(i, j)
                    })
                &&& after.history@.undo == self.history@.undo.push(self.insert_changes(num, opts))
                &&& after.history@.redo.len() == 0
                &&& if opts.check_input && self.only_solution is None {
                    match after.only_solution {
                        Some(solution) => self.entered(num).only_solution(solution),
                        None => self.entered(num).ambiguous(),
                    }
                } else {
                    after.only_solution == self.only_solution
                }
            },
        }
    }

    /// Enters a digit under the cursor: see `inserted`.
    pub fn insert(&mut self, repeat: Option<u8>, opts: &Opts)
        requires
            old(self).wf(),
        ensures
            final(self).wf(),
            old(self).inserted(*final(self), repeat, *opts),
    {
        match repeat {
            Some(num) => {
                if !(1 <= num && num <= 9) {
                    self.cmd = String::from_str("Invalid usage: <num>insert");
                    return ;
                }
                let row: usize = self.row as usize;
                let col: usize = self.col as usize;
                let before: u16 = self.board.0[row][col];
                assert(before == self.board.cell(row as int, col as int));
                let ghost origin = self.board;
                self.board.set(row, col, num as u16);
                let ghost entered = self.board;
                proof {
                    origin.lemma_with_cell(row as int, col as int, num as u16);
                }
                if opts.check_input {
                    match &self.only_solution {
                        Some(solution) => {
                            if solution.0[row][col] != num as u16 {
                                self.board.set(row, col, before);
                                proof {
                                    entered.lemma_with_cell(row as int, col as int, before);
                                    assert(self.board.same_cells(origin));
                                    self.board.lemma_same_cells(origin);
                                }
                                return ;
                            }
                        },
                        None => {
                            let mut clone: SudokuBoard = self.board;
                            match clone.solve() {
                                BacktrackResult::NoSolution => {
                                    self.board.set(row, col, before);
                                    proof {
                                        entered.lemma_with_cell(row as int, col as int, before);
                                        assert(self.board.same_cells(origin));
                                        self.board.lemma_same_cells(origin);
                                    }
                                    return ;
                                },
                                BacktrackResult::OneSolution(solution) => {
                                    self.only_solution = Some(solution);
                                },
                                BacktrackResult::MoreSolutions => (),
                            }
                        },
                    }
                }
                let mut changes: Vec<Change> = Vec::new();
                changes.push(Change { pos: (self.row, self.col), before, after: num as u16 });
                if opts.auto_candidate_elimination {
                    self.board.fix_notes_around(self.row, self.col, &mut changes);
                    proof {
                        entered.lemma_fix_changes_ok(row as int, col as int, (num - 1) as u16, 9);
                    }
                }
                proof {
                    assert(changes@ =~= old(self).insert_changes(num, *opts));
                    assert(is_open(before) || is_digit(before));
                    assert(changes_ok(changes@));
                }
                let ghost log = self.history@;
                self.history.record_change(changes);
                proof {
                    assert(log_ok(self.history@.undo)) by {
                        assert forall|i: int| 0 <= i < self.history@.undo.len() implies changes_ok(
                            #[trigger] self.history@.undo[i],
                        ) by {
                            if i < log.undo.len() {
                                assert(self.history@.undo[i] == log.undo[i]);
                            }
                        }
                    }
                }
            },
            None => {
                self.mode = Mode::Insert;
            },
        }
    }

    /// What `undo` leaves.
    pub open spec fn undone(self, after: Sudoku) -> bool {
        &&& self.same_cursor(after)
        &&& self.same_keys(after)
        &&& after.selected == self.selected
        &&& after.mode == self.mode
        &&& after.cmd@ == self.cmd@
        &&& after.only_solution == self.only_solution
        &&& self.history@.undo.len() == 0 ==> after.board == self.board && after.history@ == self.history@
        &&& self.history@.undo.len() > 0 ==> after.history@.undo == self.history@.undo.drop_last() && after.history@.redo == self.history@.redo.push(
                    self.history@.undo.last(),
                ) && forall|i: int, j: int|
                    on_board(i, j) ==> #[trigger] after.board.cell(i, j) == self.board.replayed(
                        self.history@.undo.last(),
                        self.history@.undo.last().len() as int,
                        true,
                        i,
                        j,
                    )
    }

    /// Takes back the latest edit: replays its changes backward, first to
    /// last. Nothing happens if the log holds no edit.
    pub fn undo(&mut self)
        requires
            old(self).wf(),
        ensures
            final(self).wf(),
            old(self).undone(*final(self)),
    {
        match self.history.undo() {
            Some(changes) => {
                assert(changes_ok(old(self).history@.undo.last()));
                self.board.replay(&changes, true);
                proof {
                    assert forall|i: int| 0 <= i < self.history@.undo.len() implies changes_ok(
                        #[trigger] self.history@.undo[i],
                    ) by {
                        assert(self.history@.undo[i] == old(self).history@.undo[i]);
                    }
                    assert forall|i: int| 0 <= i < self.history@.redo.len() implies changes_ok(
                        #[trigger] self.history@.redo[i],
                    ) by {
                        if i < old(self).history@.redo.len() {
                            assert(self.history@.redo[i] == old(self).history@.redo[i]);
                        }
                    }
                }
            },
            None => {},
        }
    }

    /// What `redo` leaves.
    pub open spec fn redone(self, after: Sudoku) -> bool {
        &&& self.same_cursor(after)
        &&& self.same_keys(after)
        &&& after.selected == self.selected
        &&& after.mode == self.mode
        &&& after.cmd@ == self.cmd@
        &&& after.only_solution == self.only_solution
        &&& self.history@.redo.len() == 0 ==> after.board == self.board && after.history@ == self.history@
        &&& self.history@.redo.len() > 0 ==> after.history@.redo == self.history@.redo.drop_last() && after.history@.undo == self.history@.undo.push(
                    self.history@.redo.last(),
                ) && forall|i: int, j: int|
                    on_board(i, j) ==> #[trigger] after.board.cell(i, j) == self.board.replayed(
                        self.history@.redo.last(),
                        self.history@.redo.last().len() as int,
                        false,
                        i,
                        j,
                    )
    }

    /// Applies again the edit that was undone last: replays its changes
    /// forward. Nothing happens if no edit was undone.
    pub fn redo(&mut self)
        requires
            old(self).wf(),
        ensures
            final(self).wf(),
            old(self).redone(*final(self)),
    {
        match self.history.redo() {
            Some(changes) => {
                assert(changes_ok(old(self).history@.redo.last()));
                self.board.replay(&changes, false);
                proof {
                    assert forall|i: int| 0 <= i < self.history@.redo.len() implies changes_ok(
                        #[trigger] self.history@.redo[i],
                    ) by {
                        assert(self.history@.redo[i] == old(self).history@.redo[i]);
                    }
                    assert forall|i: int| 0 <= i < self.history@.undo.len() implies changes_ok(
                        #[trigger] self.history@.undo[i],
                    ) by {
                        if i < old(self).history@.undo.len() {
                            assert(self.history@.undo[i] == old(self).history@.undo[i]);
                        }
                    }
                }
            },
            None => {},
        }
    }
}

impl Sudoku {
    /// Whether `note` flips the note in the cell `(i, j)`: the cell is
    /// marked or under the cursor, and holds no digit.
    pub open spec fn takes_note(self, i: int, j: int) -> bool {
        (self.selected.marked(i, j) || (i == self.row && j == self.col)) && is_open(
            self.board.cell(i, j),
        )
    }

    /// The changes that `note` logs for the first `k` cells in reading
    /// order: one for each marked cell that holds no digit.
    pub open spec fn marked_changes(self, note: u8, k: int) -> Seq<Change>
        decreases k,
    {
        if k <= 0 {
            Seq::empty()
        } else {
            let i = (k - 1) / 9;
            let j = (k - 1) % 9;
            self.marked_changes(note, k - 1) + (if self.selected.marked(i, j) && is_open(
                self.board.cell(i, j),
            ) {
                seq![
                    Change {
                        pos: (i as u8, j as u8),
                        before: self.board.cell(i, j),
                        after: with_note_flipped(self.board.cell(i, j), note),
                    },
                ]
            } else {
                Seq::empty()
            })
        }
    }

    /// The changes that `note` logs: that of the cell under the cursor
    /// first, if it is not marked and holds no digit, then those of the
    /// marked cells.
    pub open spec fn note_changes(self, note: u8) -> Seq<Change> {
        (if !self.selected.marked(self.row as int, self.col as int) && is_open(
            self.board.cell(self.row as int, self.col as int),
        ) {
            seq![
                Change {
                    pos: (self.row, self.col),
                    before: self.board.cell(self.row as int, self.col as int),
                    after: with_note_flipped(
                        self.board.cell(self.row as int, self.col as int),
                        note,
                    ),
                },
            ]
        } else {
            Seq::empty()
        }) + self.marked_changes(note, 81)
    }

    /// What `note` leaves. Without a count: note mode. With a count that
    /// is no digit from 1 to 9: a message. Otherwise the note of the digit
    /// is flipped in the cell under the cursor and in every marked cell, as
    /// far as they hold no digit; the edit is logged if it changed a cell;
    /// and a message tells if the cell under the cursor, not being
    /// marked, holds a digit.
    pub open spec fn noted(self, after: Sudoku, repeat: Option<u8>) -> bool {
        match repeat {
            None => after.mode == Mode::Note && self.same_but_mode(after),
            Some(note) => if !(1 <= note <= 9) {
                &&& after.cmd@ == "Invalid usage: <note>note"@
                &&& self.same_but_cursor_and_cmd(after)
                &&& self.same_cursor(after)
            } else {
                &&& self.same_cursor(after)
                &&& self.same_keys(after)
                &&& after.selected == self.selected
                &&& after.mode == self.mode
                &&& after.only_solution == self.only_solution
                &&& after.cmd@ == (if !self.selected.marked(self.row as int, self.col as int)
                    && !is_open(self.board.cell(self.row as int, self.col as int)) {
                    "Err: Cell is already filled with a number"@
                } else {
                    self.cmd@
                })
                &&& forall|i: int, j: int|
                    on_board(i, j) ==> #[trigger] after.board.cell(i, j) == (if self.takes_note(
                        i,
                        j,
                    ) {
                        with_note_flipped(self.board.cell(i, j), note)
                    } else {
                        self.board.cell(i, j)
                    })
                &&& if self.note_changes(note).len() > 0 {
                    after.history@.undo == self.history@.undo.push(self.note_changes(note))
                        && after.history@.redo.len() == 0
                } else {
                    after.history@ == self.history@
                }
            },
        }
    }

    /// Flips a note under the cursor and in the marked cells: see `noted`.
    pub fn note(&mut self, repeat: Option<u8>)
        requires
            old(self).wf(),
        ensures
            final(self).wf(),
            old(self).noted(*final(self), repeat),
    {
        match repeat {
            Some(note) => {
                let mut changes: Vec<Change> = Vec::new();
                if !(1 <= note && note <= 9) {
                    self.cmd = String::from_str("Invalid usage: <note>note");
                    return ;
                }
                let ghost origin = *self;
                let row: usize = self.row as usize;
                let col: usize = self.col as usize;
                if !self.selected.get(row, col) {
                    let mut cell: u16 = self.board.0[row][col];
                    assert(cell == self.board.cell(row as int, col as int));
                    if cell == 0 || is_note(cell) {
                        let n: u16 = cell;
                        n_bit_on(&mut cell, 15);
                        toggle_bit(&mut cell, (note - 1) as u16);
                        proof {
                            lemma_note_flipped(n, note);
                            self.board.lemma_with_cell(row as int, col as int, cell);
                        }
                        self.board.set(row, col, cell);
                        changes.push(Change { pos: (self.row, self.col), before: n, after: cell });
                    } else {
                        self.cmd_log(String::from_str("Err: Cell is already filled with a number"));
                    }
                }
                let ghost first = changes@;
                let mut i: usize = 0;
                while i < 9
                    invariant
                        i <= 9,
                        1 <= note <= 9,
                        origin.wf(),
                        self.board.wf(),
                        first.len() <= 1,
                        first + origin.marked_changes(note, 81) == origin.note_changes(note),
                        changes@ == first + origin.marked_changes(note, i * 9),
                        changes_ok(changes@),
                        forall|a: int, b: int|
                            on_board(a, b) ==> #[trigger] self.board.cell(a, b) == (if ((a < i
                                && origin.selected.marked(a, b)) || (a == origin.row && b
                                == origin.col && !origin.selected.marked(a, b)))
                                && origin.takes_note(a, b) {
                                with_note_flipped(origin.board.cell(a, b), note)
                            } else {
                                origin.board.cell(a, b)
                            }),
                        self.selected == origin.selected,
                        self.row == origin.row,
                        self.col == origin.col,
                        self.curr_keybind@ == origin.curr_keybind@,
                        self.repeat == origin.repeat,
                        self.mode == origin.mode,
                        self.only_solution == origin.only_solution,
                        self.history@ == origin.history@,
                        self.cmd@ == (if !origin.selected.marked(
                            origin.row as int,
                            origin.col as int,
                        ) && !is_open(origin.board.cell(origin.row as int, origin.col as int)) {
                            "Err: Cell is already filled with a number"@
                        } else {
                            origin.cmd@
                        }),
                    decreases 9 - i,
                {
                    let marks: u16 = self.selected.0[i];
                    let mut j: usize = 0;
                    while j < 9
                        invariant
                            i < 9,
                            j <= 9,
                            1 <= note <= 9,
                            origin.wf(),
                            self.board.wf(),
                            marks == origin.selected.0@[i as int],
                            changes@ == first + origin.marked_changes(note, i * 9 + j),
                            changes_ok(changes@),
                            forall|a: int, b: int|
                                on_board(a, b) ==> #[trigger] self.board.cell(a, b) == (if (((a
                                    < i || (a == i && b < j)) && origin.selected.marked(a, b)) || (
                                a == origin.row && b == origin.col && !origin.selected.marked(
                                    a,
                                    b,
                                ))) && origin.takes_note(a, b) {
                                    with_note_flipped(origin.board.cell(a, b), note)
                                } else {
                                    origin.board.cell(a, b)
                                }),
                            self.selected == origin.selected,
                            self.row == origin.row,
                            self.col == origin.col,
                            self.curr_keybind@ == origin.curr_keybind@,
                            self.repeat == origin.repeat,
                            self.mode == origin.mode,
                            self.only_solution == origin.only_solution,
                            self.history@ == origin.history@,
                            self.cmd@ == (if !origin.selected.marked(
                                origin.row as int,
                                origin.col as int,
                            ) && !is_open(origin.board.cell(origin.row as int, origin.col as int)) {
                                "Err: Cell is already filled with a number"@
                            } else {
                                origin.cmd@
                            }),
                        decreases 9 - j,
                    {
                        let ghost k = i * 9 + j;
                        assert(k / 9 == i && k % 9 == j);
                        let mask: u16 = 1u16 << (j as u16);
                        assert((marks & mask > 0) == (marks & mask != 0)) by (bit_vector);
                        if marks & mask > 0 {
                            let mut cell: u16 = self.board.0[i][j];
                            assert(cell == self.board.cell(i as int, j as int));
                            assert(cell == origin.board.cell(i as int, j as int));
                            if cell == 0 || is_note(cell) {
                                let n: u16 = cell;
                                n_bit_on(&mut cell, 15);
                                toggle_bit(&mut cell, (note - 1) as u16);
                                proof {
                                    lemma_note_flipped(n, note);
                                    self.board.lemma_with_cell(i as int, j as int, cell);
                                }
                                self.board.set(i, j, cell);
                                changes.push(
                                    Change { pos: (i as u8, j as u8), before: n, after: cell },
                                );
                            }
                        }
                        assert(changes@ =~= first + origin.marked_changes(note, k + 1));
                        j += 1;
                    }
                    i += 1;
                }
                if !changes.is_empty() {
                    let ghost log = self.history@;
                    self.history.record_change(changes);
                    proof {
                        assert forall|e: int| 0 <= e < self.history@.undo.len() implies changes_ok(
                            #[trigger] self.history@.undo[e],
                        ) by {
                            if e < log.undo.len() {
                                assert(self.history@.undo[e] == log.undo[e]);
                            }
                        }
                    }
                }
            },
            None => {
                self.mode = Mode::Note;
            },
        }
    }

    /// The options after `set` with `args`. `args` is `name=value`; the
    /// name is one of `candidate-elimination`, `check-input` and
    /// `highlight-square`, white space around it aside, and the value is
    /// `true` or `false`. Anything else leaves the options as they are.
    pub open spec fn options_set(opts: Opts, args: Seq<char>) -> Opts {
        let eq = position_of(args, '=');
        let property = trimmed(args.take(eq));
        let value = args.skip(eq + 1);
        if eq < 0 || (value != "true"@ && value != "false"@) {
            opts
        } else if property == "candidate-elimination"@ {
            Opts {
                auto_candidate_elimination: value == "true"@,
                auto_fill_candidates: opts.auto_fill_candidates,
                check_input: opts.check_input,
                highlight_square_instead_of_note: opts.highlight_square_instead_of_note,
            }
        } else if property == "check-input"@ {
            Opts {
                auto_candidate_elimination: opts.auto_candidate_elimination,
                auto_fill_candidates: opts.auto_fill_candidates,
                check_input: value == "true"@,
                highlight_square_instead_of_note: opts.highlight_square_instead_of_note,
            }
        } else if property == "highlight-square"@ {
            Opts {
                auto_candidate_elimination: opts.auto_candidate_elimination,
                auto_fill_candidates: opts.auto_fill_candidates,
                check_input: opts.check_input,
                highlight_square_instead_of_note: value == "true"@,
            }
        } else {
            opts
        }
    }

    /// Sets an option: see `options_set`. The editor itself is not
    /// touched.
    pub fn set(&mut self, args: &str, opts: &mut Opts)
        ensures
            *final(self) == *old(self),
            *final(opts) == Self::options_set(*old(opts), args@),
    {
        proof {
            crate::text::lemma_position_of(args@, '=');
        }
        let idx: usize = match find_char(args, '=') {
            Some(idx) => idx,
            None => {
                return ;
            },
        };
        let len: usize = args.unicode_len();
        let head = args.substring_char(0, idx);
        assert(head@ =~= args@.take(idx as int));
        let property = trim(head);
        let value = args.substring_char(idx + 1, len);
        assert(value@ =~= args@.skip(idx + 1));
        let flag: bool = if same_text(value, "true") {
            true
        } else if same_text(value, "false") {
            false
        } else {
            return ;
        };
        if same_text(property, "candidate-elimination") {
            opts.auto_candidate_elimination = flag;
        } else if same_text(property, "check-input") {
            opts.check_input = flag;
        } else if same_text(property, "highlight-square") {
            opts.highlight_square_instead_of_note = flag;
        }
    }

    /// What `fill` leaves.
    pub open spec fn filled(self, after: Sudoku) -> bool {
        &&& self.board.filled_upto(after.board, 9, 0)
        &&& after.history@.undo == self.history@.undo.push(
                    self.board.all_changes(after.board),
                )
        &&& after.history@.redo.len() == 0
        &&& self.same_cursor(after)
        &&& self.same_keys(after)
        &&& after.selected == self.selected
        &&& after.mode == self.mode
        &&& after.cmd@ == self.cmd@
        &&& after.only_solution == self.only_solution
    }

    /// Fills in the candidates of the board and logs the edit.
    pub fn fill(&mut self)
        requires
            old(self).wf(),
        ensures
            final(self).wf(),
            old(self).filled(*final(self)),
    {
        let mut changes: Vec<Change> = Vec::new();
        self.board.fill_cell_candidates(&mut changes);
        proof {
            old(self).board.lemma_all_changes_ok(self.board);
            assert(changes@ =~= old(self).board.all_changes(self.board));
        }
        let ghost log = self.history@;
        self.history.record_change(changes);
        proof {
            assert forall|e: int| 0 <= e < self.history@.undo.len() implies changes_ok(
                #[trigger] self.history@.undo[e],
            ) by {
                if e < log.undo.len() {
                    assert(self.history@.undo[e] == log.undo[e]);
                }
            }
        }
    }
}

/// How many characters at the start of `text` are digits.
pub open spec fn leading_digits(text: Seq<char>) -> int
    decreases text.len(),
{
    if text.len() > 0 && is_digit_char(text[0]) {
        1 + leading_digits(text.skip(1))
    } else {
        0
    }
}

/// The count that the first `k` characters of `text`, all digits, spell:
/// their decimal value, except that a digit which would take the count
/// beyond 255 is passed over.
pub open spec fn count_of(text: Seq<char>, k: int) -> int
    decreases k,
{
    if k <= 0 {
        0
    } else {
        let so_far = count_of(text, k - 1);
        let digit = text[k - 1] as int - '0' as int;
        if so_far * 10 + digit <= 255 {
            so_far * 10 + digit
        } else {
            so_far
        }
    }
}

/// The count in front of a command: `None` if there is none or it is 0.
pub open spec fn command_count(text: Seq<char>) -> Option<u8> {
    let count = count_of(text, leading_digits(text));
    if count == 0 {
        None
    } else {
        Some(count as u8)
    }
}

/// A command without its count. A command that is all digits keeps them.
pub open spec fn command_body(text: Seq<char>) -> Seq<char> {
    if leading_digits(text) < text.len() {
        text.skip(leading_digits(text))
    } else {
        text
    }
}

/// The name of a command: its body up to the first space.
pub open spec fn command_name(body: Seq<char>) -> Seq<char> {
    if position_of(body, ' ') < 0 {
        body
    } else {
        body.take(position_of(body, ' '))
    }
}

/// The arguments of a command: what follows the name, without the white
/// space around it.
pub open spec fn command_args(body: Seq<char>) -> Seq<char> {
    if position_of(body, ' ') < 0 {
        Seq::empty()
    } else {
        trimmed(body.skip(position_of(body, ' ')))
    }
}

/// The bounds of `leading_digits` and `count_of`.
pub proof fn lemma_leading_digits(text: Seq<char>)
    ensures
        0 <= leading_digits(text) <= text.len(),
        forall|k: int| 0 <= k < leading_digits(text) ==> is_digit_char(#[trigger] text[k]),
        leading_digits(text) < text.len() ==> !is_digit_char(text[leading_digits(text)]),
    decreases text.len(),
{
    if text.len() > 0 && is_digit_char(text[0]) {
        let rest = text.skip(1);
        lemma_leading_digits(rest);
        assert forall|k: int| 0 <= k < leading_digits(text) implies is_digit_char(
            #[trigger] text[k],
        ) by {
            if k > 0 {
                assert(text[k] == rest[k - 1]);
            }
        }
        if leading_digits(text) < text.len() {
            assert(text[leading_digits(text)] == rest[leading_digits(rest)]);
        }
    }
}

impl Sudoku {
    /// What `import_text` leaves. Text that is not all digits: a message.
    /// Otherwise the text is read as a board and solved. If it has no
    /// solution, a message says so and the board in the editor stays, with
    /// its candidates filled in if the options say so. Else the board read
    /// takes its place, likewise with its candidates filled in; its
    /// solution is remembered if it is the only one, and a message tells
    /// if it is not.
    pub open spec fn imported(self, after: Sudoku, text: Seq<char>, opts: Opts) -> bool {
        &&& self.same_cursor(after)
        &&& self.same_keys(after)
        &&& self.same_log_and_marks(after)
        &&& after.mode == self.mode
        &&& if !all_digits(text) {
            &&& after.cmd@ == "Invalid sudoku"@
            &&& self.same_board(after)
        } else if spelled(text).unsolvable() {
            &&& after.cmd@ == "Board has no solution."@
            &&& after.only_solution == self.only_solution
            &&& if opts.auto_fill_candidates {
                self.board.filled_upto(after.board, 9, 0)
            } else {
                after.board == self.board
            }
        } else {
            &&& if opts.auto_fill_candidates {
                spelled(text).filled_upto(after.board, 9, 0)
            } else {
                after.board == spelled(text)
            }
            &&& if spelled(text).ambiguous() {
                after.cmd@ == "Note: Sudoku has multiple solutions."@ && after.only_solution
                    == self.only_solution
            } else {
                after.cmd@ == self.cmd@ && (after.only_solution matches Some(solution) && spelled(
                    text,
                ).only_solution(solution))
            }
        }
    }

    /// Takes a board from text, as it comes from the clipboard: see
    /// `imported`. A text of more than 81 digits is no input.
    pub fn import_text(&mut self, text: &str, opts: &Opts)
        requires
            old(self).wf(),
            text@.len() <= 81 || exists|k: int| 0 <= k <= 81 && !is_digit_char(text@[k]),
        ensures
            final(self).wf(),
            old(self).imported(*final(self), text@, *opts),
    {
        let new: SudokuBoard = match self.board.from_str(text) {
            Some(board) => board,
            None => {
                self.cmd_log(String::from_str("Invalid sudoku"));
                return ;
            },
        };
        if opts.auto_fill_candidates {
            let mut scratch: Vec<Change> = Vec::new();
            self.board.fill_cell_candidates(&mut scratch);
        }
        let mut new_new: SudokuBoard = new;
        proof {
            new.lemma_outcomes();
        }
        match new_new.solve() {
            BacktrackResult::NoSolution => {
                self.cmd_log(String::from_str("Board has no solution."));
                return ;
            },
            BacktrackResult::OneSolution(solution) => {
                self.only_solution = Some(solution);
            },
            BacktrackResult::MoreSolutions => {
                self.cmd_log(String::from_str("Note: Sudoku has multiple solutions."));
            },
        }
        self.board = new;
        if opts.auto_fill_candidates {
            let mut scratch: Vec<Change> = Vec::new();
            self.board.fill_cell_candidates(&mut scratch);
        }
    }
}

/// The clipboard holds nothing that `import_clipboard` cannot take: no
/// text of more than 81 digits.
pub open spec fn clipboard_ok(clipboard: Clipboard) -> bool {
    clipboard matches Clipboard::Text(text) ==> (text@.len() <= 81 || exists|k: int|
        0 <= k <= 81 && !is_digit_char(text@[k]))
}

impl Sudoku {
    /// Only the command line may differ.
    pub open spec fn same_but_cmd(self, other: Sudoku) -> bool {
        self.same_but_cursor_and_cmd(other) && self.same_cursor(other)
    }

    /// What `import_clipboard` leaves: a message if the clipboard gave no
    /// text, else what `import_text` leaves for the text.
    pub open spec fn imported_from(self, after: Sudoku, clipboard: Clipboard, opts: Opts) -> bool {
        match clipboard {
            Clipboard::Closed => after.cmd@ == "Couldn't open clipboard."@ && self.same_but_cmd(
                after,
            ),
            Clipboard::Failed(reason) => after.cmd@ == reason@ && self.same_but_cmd(after),
            Clipboard::Text(text) => self.imported(after, text@, opts),
        }
    }

    /// Takes a board from the clipboard: see `imported_from`.
    pub fn import_clipboard(&mut self, clipboard: &Clipboard, opts: &Opts)
        requires
            old(self).wf(),
            clipboard_ok(*clipboard),
        ensures
            final(self).wf(),
            old(self).imported_from(*final(self), *clipboard, *opts),
    {
        match clipboard {
            Clipboard::Closed => {
                self.cmd_log(String::from_str("Couldn't open clipboard."));
            },
            Clipboard::Failed(reason) => {
                self.cmd_log(reason.clone());
            },
            Clipboard::Text(text) => {
                self.import_text(text.as_str(), opts);
            },
        }
    }

    /// What the command `name` leaves when it is run with `args` and the
    /// count `repeat`.
    pub open spec fn dispatched(
        self,
        after: Sudoku,
        name: Seq<char>,
        args: Seq<char>,
        repeat: Option<u8>,
        opts: Opts,
        opts_after: Opts,
        clipboard: Clipboard,
    ) -> bool {
        &&& opts_after == (if name == "set"@ || name == "se"@ {
            Self::options_set(opts, args)
        } else {
            opts
        })
        &&& if name == "insert"@ || name == "i"@ {
            self.inserted(after, repeat, opts)
        } else if name == "note"@ || name == "n"@ {
            self.noted(after, repeat)
        } else if name == "go"@ || name == "g"@ {
            self.gone(after, repeat)
        } else if name == "move"@ || name == "mov"@ {
            self.moved(after, args, repeat)
        } else if name == "mode"@ {
            self.mode_set(after, args)
        } else if name == "mark"@ {
            self.marked_at(after)
        } else if name == "fill"@ {
            self.filled(after)
        } else if name == "import"@ {
            self.imported_from(after, clipboard, opts)
        } else if name == "highlight"@ {
            self.highlighted(after, repeat)
        } else if name == "set"@ || name == "se"@ {
            after == self
        } else if name == "undo"@ {
            self.undone(after)
        } else if name == "redo"@ {
            self.redone(after)
        } else {
            after.cmd@ == "Invalid command: "@ + name && self.same_but_cmd(after)
        }
    }

    /// `after` is `self`, back in normal mode if `self` is in command
    /// mode.
    pub open spec fn left_command_mode(self, after: Sudoku) -> bool {
        &&& self.same_but_mode(after)
        &&& after.mode == (if self.mode is Command {
            Mode::Normal
        } else {
            self.mode
        })
    }

    /// What `process_cmd` leaves: what the command that `cmd` names leaves,
    /// back in normal mode if that is in command mode. `cmd` is read
    /// without the white space around it: a count, the command's name up
    /// to the first space, and its arguments.
    pub open spec fn processed(
        self,
        after: Sudoku,
        cmd: Seq<char>,
        opts: Opts,
        opts_after: Opts,
        clipboard: Clipboard,
    ) -> bool {
        let text = trimmed(cmd);
        let body = command_body(text);
        exists|mid: Sudoku|
            #![auto]
            self.dispatched(
                mid,
                command_name(body),
                command_args(body),
                command_count(text),
                opts,
                opts_after,
                clipboard,
            ) && mid.left_command_mode(after)
    }

    /// Runs a command line: see `processed`.
    pub fn process_cmd(&mut self, cmd: &str, opts: &mut Opts, clipboard: &Clipboard)
        requires
            old(self).wf(),
            clipboard_ok(*clipboard),
        ensures
            final(self).wf(),
            old(self).processed(*final(self), cmd@, *old(opts), *final(opts), *clipboard),
    {
        let mut trim: &str = crate::text::trim(cmd);
        let ghost text = trim@;
        let len: usize = trim.unicode_len();
        let mut repeat: u8 = 0;
        let mut repeat_end: usize = 0;
        let mut i: usize = 0;
        proof {
            lemma_leading_digits(text);
        }
        while i < len
            invariant_except_break
                repeat_end == 0,
            invariant
                len == text.len(),
                trim@ == text,
                i <= len,
                i <= leading_digits(text),
                repeat == count_of(text, i as int),
                forall|k: int| 0 <= k < leading_digits(text) ==> is_digit_char(#[trigger] text[k]),
                leading_digits(text) < text.len() ==> !is_digit_char(text[leading_digits(text)]),
                leading_digits(text) <= text.len(),
            ensures
                i == leading_digits(text),
                repeat == count_of(text, leading_digits(text)),
                repeat_end == (if leading_digits(text) < text.len() {
                    leading_digits(text)
                } else {
                    0
                }),
            decreases len - i,
        {
            let c: char = trim.get_char(i);
            if !(c >= '0' && c <= '9') {
                repeat_end = i;
                break ;
            }
            assert(is_digit_char(text[i as int]));
            match repeat.checked_mul(10) {
                Some(first) => match first.checked_add(c as u8 - 48u8) {
                    Some(val) => {
                        repeat = val;
                    },
                    None => {},
                },
                None => {},
            }
            i += 1;
        }
        trim = trim.substring_char(repeat_end, len);
        let ghost body = trim@;
        assert(body =~= command_body(text));
        let body_len: usize = trim.unicode_len();
        proof {
            crate::text::lemma_position_of(body, ' ');
        }
        let mut args: &str = trim.substring_char(0, 0);
        let name: &str = match find_char(trim, ' ') {
            Some(space) => {
                args = crate::text::trim(trim.substring_char(space, body_len));
                trim.substring_char(0, space)
            },
            None => trim,
        };
        assert(args@ =~= command_args(body));
        assert(name@ =~= command_name(body));
        let repeat: Option<u8> = if repeat == 0 {
            None
        } else {
            Some(repeat)
        };
        assert(repeat == command_count(text));
        proof {
            reveal_strlit("insert");
            reveal_strlit("i");
            reveal_strlit("note");
            reveal_strlit("n");
            reveal_strlit("go");
            reveal_strlit("g");
            reveal_strlit("move");
            reveal_strlit("mov");
            reveal_strlit("mode");
            reveal_strlit("mark");
            reveal_strlit("fill");
            reveal_strlit("import");
            reveal_strlit("highlight");
            reveal_strlit("set");
            reveal_strlit("se");
            reveal_strlit("undo");
            reveal_strlit("redo");
            assert("go"@[0] != "se"@[0]);
            assert("mov"@[0] != "set"@[0]);
        }
        if same_text(name, "insert") || same_text(name, "i") {
            self.insert(repeat, opts);
        } else if same_text(name, "note") || same_text(name, "n") {
            self.note(repeat);
        } else if same_text(name, "go") || same_text(name, "g") {
            self.go(repeat);
        } else if same_text(name, "move") || same_text(name, "mov") {
            self.mov(args, repeat);
        } else if same_text(name, "mode") {
            self.mode(args);
        } else if same_text(name, "mark") {
            self.mark();
        } else if same_text(name, "fill") {
            self.fill();
        } else if same_text(name, "import") {
            self.import_clipboard(clipboard, opts);
        } else if same_text(name, "highlight") {
            self.highlight(repeat);
        } else if same_text(name, "set") || same_text(name, "se") {
            self.set(args, opts);
        } else if same_text(name, "undo") {
            self.undo();
        } else if same_text(name, "redo") {
            self.redo();
        } else {
            let mut message = String::from_str("Invalid command: ");
            message.append(name);
            self.cmd_log(message);
        }
        let ghost mid = *self;
        assert(old(self).dispatched(
            mid,
            command_name(body),
            command_args(body),
            command_count(text),
            *old(opts),
            *opts,
            *clipboard,
        ));
        match self.mode {
            Mode::Command => {
                self.mode = Mode::Normal;
            },
            _ => {},
        }
        assert(mid.left_command_mode(*self));
    }
}

} // verus!
