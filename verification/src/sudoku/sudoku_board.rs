//! The board, its validity check and its solver.
use crate::sudoku::history::Change;
use crate::sudoku::has_note;
use crate::sudoku::is_note;
use crate::sudoku::lemma_all_notes;
use crate::sudoku::lemma_without_note;
use crate::sudoku::only_notes;
use crate::sudoku::lemma_without_bit;
use crate::sudoku::n_bit_off;
use crate::sudoku::without_bit;
use crate::sudoku::is_note_cell;
use crate::sudoku::ALL_NOTES;
use vstd::prelude::*;

verus! {

/// A 9 by 9 board, row by row. A cell holds 0 if it is empty, a digit from
/// 1 to 9, or a set of notes: bit 15 set, and bit `d - 1` for each noted
/// digit `d`.
#[derive(PartialEq, Eq, Clone, Copy)]
pub struct SudokuBoard(pub [[u16; 9]; 9]);

/// What a search for solutions found.
#[derive(PartialEq, Eq, Clone, Copy)]
pub enum BacktrackResult {
    OneSolution(SudokuBoard),
    MoreSolutions,
    NoSolution,
}

/// The cell holds no digit: it is empty or holds notes.
pub open spec fn is_open(cell: u16) -> bool {
    cell == 0 || is_note_cell(cell)
}

/// The cell holds a digit from 1 to 9.
pub open spec fn is_digit(cell: u16) -> bool {
    1 <= cell <= 9
}

/// The character is one of `0` to `9`.
pub open spec fn is_digit_char(c: char) -> bool {
    '0' <= c <= '9'
}

/// The board that `text` spells.
pub open spec fn spelled(text: Seq<char>) -> SudokuBoard {
    choose|board: SudokuBoard| board.spells(text)
}

/// Every character of `text` is a digit.
pub open spec fn all_digits(text: Seq<char>) -> bool {
    forall|k: int| 0 <= k < text.len() ==> is_digit_char(#[trigger] text[k])
}

/// Two different cells that may not hold the same digit: they share a
/// row, a column or a box.
pub open spec fn peers(y1: int, x1: int, y2: int, x2: int) -> bool {
    &&& !(y1 == y2 && x1 == x2)
    &&& (y1 == y2 || x1 == x2 || (y1 / 3 == y2 / 3 && x1 / 3 == x2 / 3))
}

/// The cell `(y, x)` is on the board.
pub open spec fn on_board(y: int, x: int) -> bool {
    0 <= y < 9 && 0 <= x < 9
}

/// The cell `(y, x)` comes before `(i, j)` in reading order.
pub open spec fn before(y: int, x: int, i: int, j: int) -> bool {
    on_board(y, x) && (y < i || (y == i && x < j))
}

impl SudokuBoard {
    /// The cell in row `y`, column `x`.
    pub open spec fn cell(self, y: int, x: int) -> u16 {
        self.0@[y]@[x]
    }

    /// The board with `value` in the cell `(y, x)`.
    pub open spec fn with_cell(self, y: int, x: int, value: u16) -> SudokuBoard {
        SudokuBoard(
            vstd::array::spec_array_update(
                self.0,
                y,
                vstd::array::spec_array_update(self.0@[y], x, value),
            ),
        )
    }

    /// `with_cell` changes the one cell.
    pub proof fn lemma_with_cell(self, y: int, x: int, value: u16)
        requires
            on_board(y, x),
        ensures
            self.with_cell(y, x, value).cell(y, x) == value,
            forall|i: int, j: int|
                on_board(i, j) && !(i == y && j == x) ==> #[trigger] self.with_cell(
                    y,
                    x,
                    value,
                ).cell(i, j) == self.cell(i, j),
            (is_open(value) || is_digit(value)) && self.wf() ==> self.with_cell(y, x, value).wf(),
    {
        broadcast use vstd::array::group_array_axioms;

        let after = self.with_cell(y, x, value);
        assert(after.cell(y, x) == value);
        assert forall|i: int, j: int| on_board(i, j) && !(i == y && j == x) implies #[trigger] after.cell(
            i,
            j,
        ) == self.cell(i, j) by {}
        if (is_open(value) || is_digit(value)) && self.wf() {
            assert forall|i: int, j: int| on_board(i, j) implies is_open(#[trigger] after.cell(i, j))
                || is_digit(after.cell(i, j)) by {
                if !(i == y && j == x) {
                    assert(after.cell(i, j) == self.cell(i, j));
                }
            }
        }
    }

    /// Boards that hold the same in every cell are equal.
    pub proof fn lemma_same_cells(self, other: SudokuBoard)
        requires
            self.same_cells(other),
        ensures
            self == other,
    {
        broadcast use vstd::array::group_array_axioms;

        assert(self.0 =~= other.0) by {
            assert forall|i: int| 0 <= i < 9 implies self.0[i] == other.0[i] by {
                assert(self.0[i] =~= other.0[i]) by {
                    assert forall|j: int| 0 <= j < 9 implies self.0[i][j] == other.0[i][j] by {
                        assert(self.cell(i, j) == other.cell(i, j));
                    }
                }
            }
        }
    }

    /// Writes `value` into the cell `(y, x)`.
    pub fn set(&mut self, y: usize, x: usize, value: u16)
        requires
            y < 9,
            x < 9,
        ensures
            *final(self) == old(self).with_cell(y as int, x as int, value),
    {
        self.0[y][x] = value;
        proof {
            old(self).lemma_with_cell(y as int, x as int, value);
            let target = old(self).with_cell(y as int, x as int, value);
            assert(self.same_cells(target)) by {
                assert forall|i: int, j: int| on_board(i, j) implies #[trigger] self.cell(i, j)
                    == target.cell(i, j) by {
                    if !(i == y && j == x) {
                        assert(self.cell(i, j) == old(self).cell(i, j));
                    }
                }
            }
            self.lemma_same_cells(target);
        }
    }

    /// Every cell is empty, a digit or a set of notes.
    pub open spec fn wf(self) -> bool {
        forall|y: int, x: int|
            on_board(y, x) ==> is_open(#[trigger] self.cell(y, x)) || is_digit(self.cell(y, x))
    }

    /// No digit occurs twice in a row, a column or a box.
    pub open spec fn spec_valid(self) -> bool {
        forall|y1: int, x1: int, y2: int, x2: int|
            on_board(y1, x1) && on_board(y2, x2) && peers(y1, x1, y2, x2) && is_digit(
                #[trigger] self.cell(y1, x1),
            ) ==> self.cell(y1, x1) != #[trigger] self.cell(y2, x2)
    }

    /// No digit occurs twice in a row, a column or a box among the cells
    /// before `(i, j)`.
    pub open spec fn valid_before(self, i: int, j: int) -> bool {
        forall|y1: int, x1: int, y2: int, x2: int|
            before(y1, x1, i, j) && before(y2, x2, i, j) && peers(y1, x1, y2, x2) && is_digit(
                #[trigger] self.cell(y1, x1),
            ) ==> self.cell(y1, x1) != #[trigger] self.cell(y2, x2)
    }

    /// Row `r` holds the digit `d` before `(i, j)`.
    pub open spec fn row_has(self, r: int, d: int, i: int, j: int) -> bool {
        exists|x: int| before(r, x, i, j) && #[trigger] self.cell(r, x) == d
    }

    /// Column `c` holds the digit `d` before `(i, j)`.
    pub open spec fn col_has(self, c: int, d: int, i: int, j: int) -> bool {
        exists|y: int| before(y, c, i, j) && #[trigger] self.cell(y, c) == d
    }

    /// Box `b` holds the digit `d` before `(i, j)`.
    pub open spec fn box_has(self, b: int, d: int, i: int, j: int) -> bool {
        exists|y: int, x: int|
            before(y, x, i, j) && (y / 3) * 3 + x / 3 == b && #[trigger] self.cell(y, x) == d
    }

    /// Every cell holds a digit.
    pub open spec fn complete(self) -> bool {
        forall|y: int, x: int| on_board(y, x) ==> is_digit(#[trigger] self.cell(y, x))
    }

    /// The first cell in reading order that holds no digit is `(y, x)`.
    pub open spec fn first_open_at(self, y: int, x: int) -> bool {
        &&& on_board(y, x)
        &&& is_open(self.cell(y, x))
        &&& forall|i: int, j: int| before(i, j, y, x) ==> !is_open(#[trigger] self.cell(i, j))
    }

    /// No cell is open.
    pub open spec fn none_open(self) -> bool {
        forall|y: int, x: int| on_board(y, x) ==> !is_open(#[trigger] self.cell(y, x))
    }

    /// Whether no digit occurs twice in a row, a column or a box. Empty
    /// cells and notes do not count.
    pub fn is_valid(&self) -> (ok: bool)
        requires
            self.wf(),
        ensures
            ok == self.spec_valid(),
    {
        let mut rows: [[bool; 9]; 9] = [[false; 9]; 9];
        let mut cols: [[bool; 9]; 9] = [[false; 9]; 9];
        let mut boxes: [[bool; 9]; 9] = [[false; 9]; 9];
        let mut i: usize = 0;
        while i < 9
            invariant
                i <= 9,
                self.wf(),
                self.seen(rows, cols, boxes, i as int, 0),
            decreases 9 - i,
        {
            let mut j: usize = 0;
            while j < 9
                invariant
                    i < 9,
                    j <= 9,
                    self.wf(),
                    self.seen(rows, cols, boxes, i as int, j as int),
                decreases 9 - j,
            {
                let n: u16 = self.0[i][j];
                assert(n == self.cell(i as int, j as int));
                if !(n == 0 || is_note(n)) {
                    let num: usize = n as usize - 1;
                    let box_index: usize = get_box_index(i, j);
                    if rows[i][num] || cols[j][num] || boxes[box_index][num] {
                        proof {
                            self.lemma_seen_clash(rows, cols, boxes, i as int, j as int);
                        }
                        return false;
                    }
                    let ghost rows0 = rows;
                    let ghost cols0 = cols;
                    let ghost boxes0 = boxes;
                    rows[i][num] = true;
                    cols[j][num] = true;
                    boxes[box_index][num] = true;
                    proof {
                        self.lemma_seen_digit(
                            rows0,
                            cols0,
                            boxes0,
                            rows,
                            cols,
                            boxes,
                            i as int,
                            j as int,
                        );
                    }
                } else {
                    proof {
                        self.lemma_seen_open(rows, cols, boxes, i as int, j as int);
                    }
                }
                j += 1;
            }
            proof {
                self.lemma_seen_next_row(rows, cols, boxes, i as int);
            }
            i += 1;
        }
        proof {
            assert(self.valid_before(9, 0));
            assert forall|y1: int, x1: int, y2: int, x2: int|
                on_board(y1, x1) && on_board(y2, x2) && peers(y1, x1, y2, x2) && is_digit(
                    #[trigger] self.cell(y1, x1),
                ) implies self.cell(y1, x1) != #[trigger] self.cell(y2, x2) by {
                assert(before(y1, x1, 9, 0) && before(y2, x2, 9, 0));
            }
        }
        true
    }

    /// The first cell in reading order that holds no digit, or `None` if
    /// every cell holds one.
    pub fn find_empty_space(&self) -> (found: Option<(usize, usize)>)
        ensures
            found is None ==> self.none_open(),
            found matches Some((y, x)) ==> self.first_open_at(y as int, x as int),
    {
        let mut i: usize = 0;
        while i < 9
            invariant
                i <= 9,
                forall|y: int, x: int| before(y, x, i as int, 0) ==> !is_open(#[trigger] self.cell(y, x)),
            decreases 9 - i,
        {
            let mut j: usize = 0;
            while j < 9
                invariant
                    i < 9,
                    j <= 9,
                    forall|y: int, x: int|
                        before(y, x, i as int, j as int) ==> !is_open(#[trigger] self.cell(y, x)),
                decreases 9 - j,
            {
                let cell: u16 = self.0[i][j];
                if cell == 0 || is_note(cell) {
                    return Some((i, j));
                }
                j += 1;
            }
            i += 1;
        }
        None
    }

    /// The board that `text` spells: its characters are the cells in
    /// reading order, and cells beyond the end of `text` are empty.
    pub open spec fn spells(self, text: Seq<char>) -> bool {
        forall|y: int, x: int|
            on_board(y, x) ==> #[trigger] self.cell(y, x) == (if y * 9 + x < text.len() {
                (text[y * 9 + x] as int - '0' as int) as u16
            } else {
                0u16
            })
    }

    /// Reading text gives cell values, and one board only.
    pub proof fn lemma_spells(self, other: SudokuBoard, text: Seq<char>)
        requires
            self.spells(text),
            other.spells(text),
        ensures
            self == other,
    {
        assert(self.same_cells(other));
        self.lemma_same_cells(other);
    }

    /// Reads a board from a string of digits, one per cell in reading
    /// order, `0` for an empty cell. A shorter string leaves the remaining
    /// cells empty. `None` if a character is not a digit. A string of more
    /// than 81 digits is no input. The board that the call is made on is
    /// not touched.
    pub fn from_str(&mut self, str: &str) -> (parsed: Option<SudokuBoard>)
        requires
            str@.len() <= 81 || exists|k: int| 0 <= k <= 81 && !is_digit_char(str@[k]),
        ensures
            *final(self) == *old(self),
            parsed is Some <==> all_digits(str@),
            parsed matches Some(board) ==> board.spells(str@) && board.wf() && board == spelled(str@),
    {
        let mut new = SudokuBoard([[0; 9]; 9]);
        let len: usize = str.unicode_len();
        let mut i: usize = 0;
        while i < len
            invariant
                len == str@.len(),
                i <= len,
                i <= 81,
                str@.len() <= 81 || exists|k: int| 0 <= k <= 81 && !is_digit_char(str@[k]),
                forall|k: int| 0 <= k < i ==> is_digit_char(#[trigger] str@[k]),
                forall|y: int, x: int|
                    on_board(y, x) ==> #[trigger] new.cell(y, x) == (if y * 9 + x < i {
                        (str@[y * 9 + x] as int - '0' as int) as u16
                    } else {
                        0u16
                    }),
            decreases len - i,
        {
            let x: char = str.get_char(i);
            if !(x >= '0' && x <= '9') {
                return None;
            }
            assert(i < 81);
            let digit: u16 = (x as u8 - 48u8) as u16;
            let row: usize = i / 9;
            let col: usize = i % 9;
            let ghost prev = new;
            new.0[row][col] = digit;
            proof {
                assert forall|y: int, x: int| on_board(y, x) implies #[trigger] new.cell(y, x) == (
                if y * 9 + x < i + 1 {
                    (str@[y * 9 + x] as int - '0' as int) as u16
                } else {
                    0u16
                }) by {
                    if y == row && x == col {
                        assert(y * 9 + x == i);
                    } else {
                        assert(y * 9 + x != i);
                        assert(new.cell(y, x) == prev.cell(y, x));
                    }
                }
            }
            i += 1;
        }
        proof {
            assert(new.spells(str@));
            new.lemma_spells(spelled(str@), str@);
        }
        Some(new)
    }

    /// `self` is a solution of `puzzle`: every cell holds a digit, no digit
    /// occurs twice in a row, a column or a box, and the digits of
    /// `puzzle` are kept.
    pub open spec fn solves(self, puzzle: SudokuBoard) -> bool {
        &&& self.complete()
        &&& self.spec_valid()
        &&& self.keeps_digits_of(puzzle)
    }

    /// Every digit of `puzzle` stands in `self` too.
    pub open spec fn keeps_digits_of(self, puzzle: SudokuBoard) -> bool {
        forall|y: int, x: int|
            on_board(y, x) && is_digit(#[trigger] puzzle.cell(y, x)) ==> self.cell(y, x)
                == puzzle.cell(y, x)
    }

    /// Both boards hold the same in every cell.
    pub open spec fn same_cells(self, other: SudokuBoard) -> bool {
        forall|y: int, x: int| on_board(y, x) ==> #[trigger] self.cell(y, x) == other.cell(y, x)
    }

    /// The board has no solution.
    pub open spec fn unsolvable(self) -> bool {
        forall|s: SudokuBoard| !#[trigger] s.solves(self)
    }

    /// `s` is the board's one solution.
    pub open spec fn only_solution(self, s: SudokuBoard) -> bool {
        &&& s.solves(self)
        &&& forall|t: SudokuBoard| #[trigger] t.solves(self) ==> t.same_cells(s)
    }

    /// The board has two solutions that differ.
    pub open spec fn ambiguous(self) -> bool {
        exists|s: SudokuBoard, t: SudokuBoard|
            #[trigger] s.solves(self) && #[trigger] t.solves(self) && !s.same_cells(t)
    }

    /// The board is `origin` with the digit `n` entered at `(y, x)`.
    pub open spec fn enters(self, origin: SudokuBoard, y: int, x: int, n: u16) -> bool {
        &&& self.cell(y, x) == n
        &&& forall|i: int, j: int|
            on_board(i, j) && !(i == y && j == x) ==> #[trigger] self.cell(i, j) == origin.cell(i, j)
    }

    /// How far the first open cell at or after the `k`th is from the end
    /// of the board; 0 if there is none.
    pub open spec fn rest(self, k: int) -> int
        decreases 81 - k,
    {
        if k < 0 || k >= 81 {
            0
        } else if is_open(self.cell(k / 9, k % 9)) {
            81 - k
        } else {
            self.rest(k + 1)
        }
    }

    /// Counts the solutions up to two. `NoSolution` if the board has none;
    /// `OneSolution` with the solution if it has exactly one;
    /// `MoreSolutions` if it has at least two. A solution fills every cell
    /// that holds no digit, notes included. The board is left as it was,
    /// except that after `MoreSolutions` some of its open cells may hold
    /// digits.
    pub fn solve(&mut self) -> (found: BacktrackResult)
        requires
            old(self).wf(),
        ensures
            final(self).wf(),
            found is NoSolution <==> old(self).unsolvable(),
            found matches BacktrackResult::OneSolution(s) ==> old(self).only_solution(s),
            found is MoreSolutions <==> old(self).ambiguous(),
            !(found is MoreSolutions) ==> *final(self) == *old(self),
            final(self).keeps_digits_of(*old(self)),
    {
        let mut solve_state = BacktrackResult::NoSolution;
        let found = self.backtrack(&mut solve_state);
        proof {
            old(self).lemma_outcomes();
        }
        found
    }

    /// The search behind `solve`. `solve_state` holds what the search has
    /// found so far outside this board: nothing, or one solution.
    fn backtrack(&mut self, solve_state: &mut BacktrackResult) -> (found: BacktrackResult)
        requires
            old(self).wf(),
            !(*old(solve_state) is MoreSolutions),
            *old(solve_state) matches BacktrackResult::OneSolution(p) ==> !p.solves(*old(self)),
        ensures
            final(self).wf(),
            !(found is MoreSolutions) ==> *final(self) == *old(self),
            final(self).keeps_digits_of(*old(self)),
            found is NoSolution ==> *final(solve_state) is NoSolution,
            !(*final(solve_state) is MoreSolutions),
            *old(solve_state) is NoSolution ==> (found is NoSolution <==> old(self).unsolvable()),
            *old(solve_state) is NoSolution ==> (found matches BacktrackResult::OneSolution(s)
                ==> old(self).only_solution(s)),
            *old(solve_state) is NoSolution ==> (found is MoreSolutions ==> old(self).ambiguous()),
            *old(solve_state) is OneSolution ==> (if old(self).unsolvable() {
                found == *old(solve_state)
            } else {
                found is MoreSolutions
            }),
        decreases old(self).rest(0),
    {
        let ghost origin = *self;
        let ghost state_in = *solve_state;
        if !self.is_valid() {
            proof {
                assert forall|t: SudokuBoard| !#[trigger] t.solves(origin) by {
                    if t.solves(origin) {
                        origin.lemma_solvable_is_valid(t);
                    }
                }
            }
            return *solve_state;
        }
        match self.find_empty_space() {
            Some((y, x)) => {
                let before: u16 = self.0[y][x];
                let mut num: u16 = 1;
                while num <= 9
                    invariant
                        1 <= num <= 10,
                        y < 9,
                        x < 9,
                        origin.wf(),
                        origin == *old(self),
                        state_in == *old(solve_state),
                        origin.first_open_at(y as int, x as int),
                        before == origin.cell(y as int, x as int),
                        self.wf(),
                        forall|i: int, j: int|
                            on_board(i, j) && !(i == y && j == x) ==> #[trigger] self.cell(i, j)
                                == origin.cell(i, j),
                        !(*solve_state is MoreSolutions),
                        state_in is OneSolution ==> *solve_state == state_in,
                        state_in matches BacktrackResult::OneSolution(p) ==> !p.solves(origin),
                        !(state_in is MoreSolutions),
                        state_in is OneSolution || *solve_state is NoSolution ==> forall|
                            t: SudokuBoard,
                        |
                            #[trigger] t.solves(origin) ==> t.cell(y as int, x as int) >= num,
                        state_in is NoSolution ==> (*solve_state matches BacktrackResult::OneSolution(
                            s,
                        ) ==> s.solves(origin) && s.cell(y as int, x as int) < num && forall|
                            t: SudokuBoard,
                        |
                            #[trigger] t.solves(origin) && t.cell(y as int, x as int) < num
                                ==> t.same_cells(s)),
                    decreases 10 - num,
                {
                    let ghost prev = *self;
                    self.0[y][x] = num;
                    let ghost entered = *self;
                    let ghost state_now = *solve_state;
                    proof {
                        assert(entered.enters(origin, y as int, x as int, num)) by {
                            assert forall|i: int, j: int|
                                on_board(i, j) && !(i == y && j == x) implies #[trigger] entered.cell(
                                i,
                                j,
                            ) == origin.cell(i, j) by {
                                assert(entered.cell(i, j) == prev.cell(i, j));
                            }
                        }
                        assert(entered.wf()) by {
                            assert forall|i: int, j: int| on_board(i, j) implies is_open(
                                #[trigger] entered.cell(i, j),
                            ) || is_digit(entered.cell(i, j)) by {
                                if !(i == y && j == x) {
                                    assert(entered.cell(i, j) == origin.cell(i, j));
                                }
                            }
                        }
                        origin.lemma_rest_shrinks(entered, y as int, x as int, num);
                        entered.lemma_rest_bound(0);
                        match state_now {
                            BacktrackResult::OneSolution(q) => {
                                origin.lemma_enter(entered, y as int, x as int, num, q);
                            },
                            _ => {},
                        }
                    }
                    let outcome = self.backtrack(solve_state);
                    proof {
                        assert forall|t: SudokuBoard| #[trigger]
                            t.solves(origin) && t.cell(y as int, x as int) == num implies t.solves(
                            entered,
                        ) by {
                            origin.lemma_enter(entered, y as int, x as int, num, t);
                        }
                        assert forall|t: SudokuBoard| #[trigger] t.solves(entered) implies t.solves(
                            origin,
                        ) && t.cell(y as int, x as int) == num by {
                            origin.lemma_enter(entered, y as int, x as int, num, t);
                        }
                    }
                    match outcome {
                        BacktrackResult::NoSolution => {},
                        BacktrackResult::MoreSolutions => {
                            proof {
                                assert forall|i: int, j: int|
                                    on_board(i, j) && is_digit(
                                        #[trigger] origin.cell(i, j),
                                    ) implies self.cell(i, j) == origin.cell(i, j) by {
                                    assert(entered.cell(i, j) == origin.cell(i, j));
                                }
                                if state_in is NoSolution {
                                    match state_now {
                                        BacktrackResult::OneSolution(q) => {
                                            assert(!entered.unsolvable());
                                            let t = choose|t: SudokuBoard| t.solves(entered);
                                            assert(t.solves(origin));
                                            assert(q.solves(origin));
                                            assert(t.cell(y as int, x as int) != q.cell(
                                                y as int,
                                                x as int,
                                            ));
                                            assert(!t.same_cells(q));
                                            assert(origin.ambiguous());
                                        },
                                        _ => {
                                            assert(state_now is NoSolution);
                                            assert(entered.ambiguous());
                                            let (s, t) = choose|s: SudokuBoard, t: SudokuBoard|
                                                #[trigger] s.solves(entered) && #[trigger] t.solves(
                                                    entered,
                                                ) && !s.same_cells(t);
                                            assert(s.solves(origin) && t.solves(origin));
                                            assert(origin.ambiguous());
                                        },
                                    }
                                    assert(!origin.unsolvable());
                                } else {
                                    assert(state_now == state_in);
                                    assert(!entered.unsolvable());
                                    let t = choose|t: SudokuBoard| t.solves(entered);
                                    assert(t.solves(origin));
                                    assert(!origin.unsolvable());
                                }
                            }
                            return BacktrackResult::MoreSolutions;
                        },
                        solved => {
                            *solve_state = solved;
                        },
                    }
                    num += 1;
                }
                let ghost last = *self;
                self.0[y][x] = before;
                proof {
                    assert(self.0 =~= origin.0) by {
                        assert forall|i: int| 0 <= i < 9 implies self.0@[i] =~= origin.0@[i] by {
                            assert forall|j: int| 0 <= j < 9 implies self.0@[i]@[j]
                                == origin.0@[i]@[j] by {
                                if !(i == y && j == x) {
                                    assert(self.cell(i, j) == last.cell(i, j));
                                    assert(last.cell(i, j) == origin.cell(i, j));
                                }
                            }
                        }
                    }
                    assert forall|t: SudokuBoard| #[trigger] t.solves(origin) implies 1
                        <= t.cell(y as int, x as int) <= 9 by {
                        assert(is_digit(t.cell(y as int, x as int)));
                    }
                }
                return *solve_state;
            },
            None => {
                proof {
                    origin.lemma_complete_solves_itself();
                }
                return match *solve_state {
                    BacktrackResult::OneSolution(_) => BacktrackResult::MoreSolutions,
                    _ => BacktrackResult::OneSolution(*self),
                };
            },
        }
    }

    /// A board with a solution is valid.
    proof fn lemma_solvable_is_valid(self, t: SudokuBoard)
        requires
            self.wf(),
            t.solves(self),
        ensures
            self.spec_valid(),
    {
        assert forall|y1: int, x1: int, y2: int, x2: int|
            on_board(y1, x1) && on_board(y2, x2) && peers(y1, x1, y2, x2) && is_digit(
                #[trigger] self.cell(y1, x1),
            ) implies self.cell(y1, x1) != #[trigger] self.cell(y2, x2) by {
            if self.cell(y1, x1) == self.cell(y2, x2) {
                assert(t.cell(y1, x1) == self.cell(y1, x1));
                assert(t.cell(y2, x2) == self.cell(y2, x2));
                assert(is_digit(t.cell(y1, x1)));
            }
        }
    }

    /// A valid board without open cells is its own one solution.
    proof fn lemma_complete_solves_itself(self)
        requires
            self.wf(),
            self.spec_valid(),
            self.none_open(),
        ensures
            self.only_solution(self),
    {
        assert forall|y: int, x: int| on_board(y, x) implies is_digit(#[trigger] self.cell(y, x)) by {
            assert(!is_open(self.cell(y, x)));
        }
        assert forall|t: SudokuBoard| #[trigger] t.solves(self) implies t.same_cells(self) by {
            assert forall|y: int, x: int| on_board(y, x) implies #[trigger] t.cell(y, x)
                == self.cell(y, x) by {
                assert(is_digit(self.cell(y, x)));
            }
        }
    }

    /// The solutions of a board with a digit entered in an open cell are
    /// the solutions of the board that hold that digit there.
    proof fn lemma_enter(self, entered: SudokuBoard, y: int, x: int, n: u16, t: SudokuBoard)
        requires
            on_board(y, x),
            is_open(self.cell(y, x)),
            is_digit(n),
            entered.enters(self, y, x, n),
        ensures
            t.solves(entered) <==> t.solves(self) && t.cell(y, x) == n,
    {
        if t.solves(entered) {
            assert(is_digit(entered.cell(y, x)));
            assert forall|i: int, j: int|
                on_board(i, j) && is_digit(#[trigger] self.cell(i, j)) implies t.cell(i, j)
                == self.cell(i, j) by {
                assert(entered.cell(i, j) == self.cell(i, j));
            }
        }
        if t.solves(self) && t.cell(y, x) == n {
            assert forall|i: int, j: int|
                on_board(i, j) && is_digit(#[trigger] entered.cell(i, j)) implies t.cell(i, j)
                == entered.cell(i, j) by {
                if !(i == y && j == x) {
                    assert(entered.cell(i, j) == self.cell(i, j));
                }
            }
        }
    }

    /// From the `k`th cell on, a board whose cells before `(y, x)` hold
    /// digits has its first open cell no earlier than `(y, x)`.
    proof fn lemma_rest_at(self, k: int, y: int, x: int)
        requires
            on_board(y, x),
            0 <= k <= y * 9 + x,
            forall|i: int, j: int| before(i, j, y, x) ==> !is_open(#[trigger] self.cell(i, j)),
        ensures
            is_open(self.cell(y, x)) ==> self.rest(k) == 81 - (y * 9 + x),
            !is_open(self.cell(y, x)) ==> self.rest(k) < 81 - (y * 9 + x),
        decreases y * 9 + x - k,
    {
        if k < y * 9 + x {
            assert(before(k / 9, k % 9, y, x));
            self.lemma_rest_at(k + 1, y, x);
        } else {
            assert(k / 9 == y && k % 9 == x);
            if !is_open(self.cell(y, x)) {
                self.lemma_rest_bound(k + 1);
            }
        }
    }

    /// The first open cell at or after the `k`th is at or after the `k`th.
    proof fn lemma_rest_bound(self, k: int)
        requires
            0 <= k,
        ensures
            0 <= self.rest(k) <= 81 - k || (k > 81 && self.rest(k) == 0),
        decreases 81 - k,
    {
        if k < 81 && !is_open(self.cell(k / 9, k % 9)) {
            self.lemma_rest_bound(k + 1);
        }
    }

    /// Entering a digit in the first open cell moves the first open cell
    /// toward the end.
    proof fn lemma_rest_shrinks(self, entered: SudokuBoard, y: int, x: int, n: u16)
        requires
            self.first_open_at(y, x),
            is_digit(n),
            entered.enters(self, y, x, n),
        ensures
            entered.rest(0) < self.rest(0),
    {
        self.lemma_rest_at(0, y, x);
        assert forall|i: int, j: int| before(i, j, y, x) implies !is_open(
            #[trigger] entered.cell(i, j),
        ) by {
            assert(entered.cell(i, j) == self.cell(i, j));
        }
        entered.lemma_rest_at(0, y, x);
    }

    /// A board has no solution, or one, or two that differ, and only one
    /// of the three.
    pub proof fn lemma_outcomes(self)
        ensures
            self.ambiguous() ==> !self.unsolvable(),
            forall|s: SudokuBoard| #[trigger]
                self.only_solution(s) ==> !self.unsolvable() && !self.ambiguous(),
    {
        assert forall|s: SudokuBoard| #[trigger] self.only_solution(s) implies !self.unsolvable()
            && !self.ambiguous() by {
            if self.ambiguous() {
                let (a, b) = choose|a: SudokuBoard, b: SudokuBoard|
                    #[trigger] a.solves(self) && #[trigger] b.solves(self) && !a.same_cells(b);
                assert(a.same_cells(s) && b.same_cells(s));
                assert(a.same_cells(b));
            }
        }
        if self.ambiguous() {
            let (a, b) = choose|a: SudokuBoard, b: SudokuBoard|
                #[trigger] a.solves(self) && #[trigger] b.solves(self) && !a.same_cells(b);
            assert(a.solves(self));
        }
    }

    /// The cell `(i, j)` once the note of bit `bit` is cleared in the box
    /// of `(y, x)`.
    pub open spec fn box_value(self, i: int, j: int, y: int, x: int, bit: u16) -> u16 {
        if is_note_cell(self.cell(i, j)) && i / 3 == y / 3 && j / 3 == x / 3 {
            without_bit(self.cell(i, j), bit)
        } else {
            self.cell(i, j)
        }
    }

    /// The cell `(i, j)` once the note of bit `bit` is cleared in the row,
    /// the column and the box of `(y, x)`.
    pub open spec fn fixed_value(self, i: int, j: int, y: int, x: int, bit: u16) -> u16 {
        if is_note_cell(self.cell(i, j)) && (i == y || j == x || (i / 3 == y / 3 && j / 3 == x
            / 3)) {
            without_bit(self.cell(i, j), bit)
        } else {
            self.cell(i, j)
        }
    }

    /// The changes logged while the first `k` cells of the box of `(y, x)`
    /// are cleared of the note, in reading order: one for each cell that
    /// holds notes.
    pub open spec fn box_changes(self, y: int, x: int, bit: u16, k: int) -> Seq<Change>
        decreases k,
    {
        if k <= 0 {
            Seq::empty()
        } else {
            let i = (y / 3) * 3 + (k - 1) / 3;
            let j = (x / 3) * 3 + (k - 1) % 3;
            self.box_changes(y, x, bit, k - 1) + (if is_note_cell(self.cell(i, j)) {
                seq![
                    Change {
                        pos: (i as u8, j as u8),
                        before: self.cell(i, j),
                        after: without_bit(self.cell(i, j), bit),
                    },
                ]
            } else {
                Seq::empty()
            })
        }
    }

    /// The changes logged while, after the box, the first `k` cells of the
    /// row and of the column of `(y, x)` are cleared of the note, a cell of
    /// the row and one of the column in turn: one for each cell that holds
    /// notes. A cell that the box pass has cleared is logged again, as
    /// unchanged.
    pub open spec fn line_changes(self, y: int, x: int, bit: u16, k: int) -> Seq<Change>
        decreases k,
    {
        if k <= 0 {
            Seq::empty()
        } else {
            let n = k - 1;
            let in_row = self.box_value(y, n, y, x, bit);
            let in_col = self.box_value(n, x, y, x, bit);
            self.line_changes(y, x, bit, k - 1) + (if is_note_cell(in_row) {
                seq![
                    Change {
                        pos: (y as u8, n as u8),
                        before: in_row,
                        after: without_bit(in_row, bit),
                    },
                ]
            } else {
                Seq::empty()
            }) + (if is_note_cell(in_col) {
                seq![
                    Change {
                        pos: (n as u8, x as u8),
                        before: in_col,
                        after: without_bit(in_col, bit),
                    },
                ]
            } else {
                Seq::empty()
            })
        }
    }

    /// After a digit was entered at `(y, x)`: clears the note of that digit
    /// from every cell of notes in the same row, column or box, and logs
    /// each cell it visits that holds notes. Does nothing if `(y, x)` holds
    /// no digit.
    pub fn fix_notes_around(&mut self, y: u8, x: u8, history_changes: &mut Vec<Change>)
        requires
            old(self).wf(),
            y < 9,
            x < 9,
        ensures
            final(self).wf(),
            is_open(old(self).cell(y as int, x as int)) ==> *final(self) == *old(self) && final(history_changes)@ == old(history_changes)@,
            is_digit(old(self).cell(y as int, x as int)) ==> (forall|i: int, j: int|
                on_board(i, j) ==> #[trigger] final(self).cell(i, j) == old(self).fixed_value(
                    i,
                    j,
                    y as int,
                    x as int,
                    (old(self).cell(y as int, x as int) - 1) as u16,
                )) && final(history_changes)@ == old(history_changes)@ + old(self).box_changes(
                y as int,
                x as int,
                (old(self).cell(y as int, x as int) - 1) as u16,
                9,
            ) + old(self).line_changes(
                y as int,
                x as int,
                (old(self).cell(y as int, x as int) - 1) as u16,
                9,
            ),
    {
        let ghost origin = *self;
        let ghost log0 = history_changes@;
        let ghost yi = y as int;
        let ghost xi = x as int;
        let mut num: u16 = self.0[y as usize][x as usize];
        assert(num == origin.cell(yi, xi));
        if num == 0 || is_note(num) {
            return ;
        }
        assert(is_digit(num));
        num -= 1;
        let y0: u8 = (y / 3) * 3;
        let x0: u8 = (x / 3) * 3;
        proof {
            assert forall|i: int, j: int| on_board(i, j) implies #[trigger] self.cell(i, j) == (if i
                / 3 == yi / 3 && j / 3 == xi / 3 && (i - y0) * 3 + (j - x0) < 0 {
                origin.box_value(i, j, yi, xi, num)
            } else {
                origin.cell(i, j)
            }) by {
                if i / 3 == yi / 3 && j / 3 == xi / 3 {
                    assert(i >= y0 && j >= x0);
                }
            }
        }
        // check in boxes
        let mut by: u8 = y0;
        while by < y0 + 3
            invariant
                y < 9,
                x < 9,
                yi == y,
                xi == x,
                y0 == (y / 3) * 3,
                x0 == (x / 3) * 3,
                y0 <= by <= y0 + 3,
                num < 9,
                num == origin.cell(yi, xi) - 1,
                origin.wf(),
                forall|i: int, j: int|
                    on_board(i, j) ==> #[trigger] self.cell(i, j) == (if i / 3 == yi / 3 && j / 3
                        == xi / 3 && (i - y0) * 3 + (j - x0) < (by - y0) * 3 {
                        origin.box_value(i, j, yi, xi, num)
                    } else {
                        origin.cell(i, j)
                    }),
                history_changes@ == log0 + origin.box_changes(yi, xi, num, (by - y0) * 3),
            decreases y0 + 3 - by,
        {
            let mut bx: u8 = x0;
            while bx < x0 + 3
                invariant
                    y < 9,
                    x < 9,
                    yi == y,
                    xi == x,
                    y0 == (y / 3) * 3,
                    x0 == (x / 3) * 3,
                    y0 <= by < y0 + 3,
                    x0 <= bx <= x0 + 3,
                    num < 9,
                    num == origin.cell(yi, xi) - 1,
                    origin.wf(),
                    forall|i: int, j: int|
                        on_board(i, j) ==> #[trigger] self.cell(i, j) == (if i / 3 == yi / 3 && j
                            / 3 == xi / 3 && (i - y0) * 3 + (j - x0) < (by - y0) * 3 + (bx - x0) {
                            origin.box_value(i, j, yi, xi, num)
                        } else {
                            origin.cell(i, j)
                        }),
                    history_changes@ == log0 + origin.box_changes(
                        yi,
                        xi,
                        num,
                        (by - y0) * 3 + (bx - x0),
                    ),
                decreases x0 + 3 - bx,
            {
                let ghost k = (by - y0) * 3 + (bx - x0);
                let ghost prev = *self;
                let n: u16 = self.0[by as usize][bx as usize];
                assert(n == self.cell(by as int, bx as int));
                assert(n == origin.cell(by as int, bx as int));
                assert((yi / 3) * 3 + k / 3 == by && (xi / 3) * 3 + k % 3 == bx);
                if is_note(n) {
                    // turn n bit off
                    self.0[by as usize][bx as usize] = n & !(1u16 << num);
                    history_changes.push(
                        Change { pos: (by, bx), before: n, after: self.0[by as usize][bx as usize] },
                    );
                }
                proof {
                    assert(history_changes@ =~= log0 + origin.box_changes(yi, xi, num, k + 1));
                    assert forall|i: int, j: int| on_board(i, j) implies #[trigger] self.cell(i, j)
                        == (if i / 3 == yi / 3 && j / 3 == xi / 3 && (i - y0) * 3 + (j - x0) < k
                        + 1 {
                        origin.box_value(i, j, yi, xi, num)
                    } else {
                        origin.cell(i, j)
                    }) by {
                        if !(i == by && j == bx) {
                            assert(self.cell(i, j) == prev.cell(i, j));
                        }
                    }
                }
                bx += 1;
            }
            by += 1;
        }
        proof {
            assert forall|i: int, j: int| on_board(i, j) implies #[trigger] self.cell(i, j)
                == origin.box_value(i, j, yi, xi, num) by {}
        }
        let mut n: u8 = 0;
        while n < 9
            invariant
                y < 9,
                x < 9,
                yi == y,
                xi == x,
                n <= 9,
                num < 9,
                num == origin.cell(yi, xi) - 1,
                origin.wf(),
                is_digit(origin.cell(yi, xi)),
                forall|i: int, j: int|
                    on_board(i, j) ==> #[trigger] self.cell(i, j) == (if (i == yi && j < n) || (j
                        == xi && i < n) {
                        origin.fixed_value(i, j, yi, xi, num)
                    } else {
                        origin.box_value(i, j, yi, xi, num)
                    }),
                history_changes@ == log0 + origin.box_changes(yi, xi, num, 9) + origin.line_changes(
                    yi,
                    xi,
                    num,
                    n as int,
                ),
            decreases 9 - n,
        {
            let ghost prev = *self;
            // check in row
            let row_n: u16 = self.0[y as usize][n as usize];
            proof {
                lemma_without_bit(origin.cell(yi, n as int), num);
                lemma_without_bit(origin.cell(n as int, xi), num);
                assert(row_n == self.cell(yi, n as int));
                assert(!is_note_cell(origin.cell(yi, xi)));
                assert(row_n == origin.box_value(yi, n as int, yi, xi, num));
            }
            if is_note(row_n) {
                n_bit_off(&mut self.0[y as usize][n as usize], num);
                history_changes.push(
                    Change { pos: (y, n), before: row_n, after: self.0[y as usize][n as usize] },
                );
            }
            let ghost mid = *self;
            let col_n: u16 = self.0[n as usize][x as usize];
            proof {
                if !(n == y && x == n) {
                    assert(mid.cell(n as int, xi) == prev.cell(n as int, xi));
                }
                assert(col_n == origin.box_value(n as int, xi, yi, xi, num));
            }
            // check in col
            if is_note(col_n) {
                n_bit_off(&mut self.0[n as usize][x as usize], num);
                history_changes.push(
                    Change { pos: (n, x), before: col_n, after: self.0[n as usize][x as usize] },
                );
            }
            proof {
                assert(history_changes@ =~= log0 + origin.box_changes(yi, xi, num, 9)
                    + origin.line_changes(yi, xi, num, n + 1));
                assert forall|i: int, j: int| on_board(i, j) implies #[trigger] self.cell(i, j) == (
                if (i == yi && j < n + 1) || (j == xi && i < n + 1) {
                    origin.fixed_value(i, j, yi, xi, num)
                } else {
                    origin.box_value(i, j, yi, xi, num)
                }) by {
                    if !(i == n && j == x) {
                        assert(self.cell(i, j) == mid.cell(i, j));
                    }
                    if !(i == y && j == n) {
                        assert(mid.cell(i, j) == prev.cell(i, j));
                    }
                }
            }
            n += 1;
        }
        proof {
            assert forall|i: int, j: int| on_board(i, j) implies #[trigger] self.cell(i, j)
                == origin.fixed_value(i, j, yi, xi, num) by {}
            assert forall|i: int, j: int| on_board(i, j) implies is_open(
                #[trigger] self.cell(i, j),
            ) || is_digit(self.cell(i, j)) by {
                lemma_without_bit(origin.cell(i, j), num);
                assert(is_open(origin.cell(i, j)) || is_digit(origin.cell(i, j)));
            }
        }
    }

    /// A cell before `(yl, xl)` that shares a row, a column or a box with
    /// `(i, j)` holds the digit `d`.
    pub open spec fn peer_holds(self, i: int, j: int, d: int, yl: int, xl: int) -> bool {
        exists|y: int, x: int|
            before(y, x, yl, xl) && peers(i, j, y, x) && #[trigger] self.cell(y, x) == d
    }

    /// The cell `value` holds the candidates of the open cell `(i, j)` as
    /// far as the cells before `(yl, xl)` decide: it is a cell of notes
    /// that holds the note of a digit exactly if no such cell that shares a
    /// row, a column or a box with `(i, j)` holds that digit.
    pub open spec fn candidates_upto(self, i: int, j: int, value: u16, yl: int, xl: int) -> bool {
        &&& is_note_cell(value)
        &&& only_notes(value)
        &&& forall|d: int|
            1 <= d <= 9 ==> (#[trigger] has_note(value, d) <==> !self.peer_holds(i, j, d, yl, xl))
    }

    /// `filled` is `self` with its candidates filled in, as far as the
    /// cells before `(yl, xl)` decide: digits are kept, and every other
    /// cell holds its candidates.
    pub open spec fn filled_upto(self, filled: SudokuBoard, yl: int, xl: int) -> bool {
        forall|i: int, j: int|
            on_board(i, j) ==> (if is_digit(self.cell(i, j)) {
                #[trigger] filled.cell(i, j) == self.cell(i, j)
            } else {
                self.candidates_upto(i, j, filled.cell(i, j), yl, xl)
            })
    }

    /// The log of a pass over all cells in reading order: what each cell
    /// held in `self` and what it holds in `after`.
    pub open spec fn all_changes(self, after: SudokuBoard) -> Seq<Change> {
        Seq::new(
            81,
            |k: int|
                Change {
                    pos: ((k / 9) as u8, (k % 9) as u8),
                    before: self.cell(k / 9, k % 9),
                    after: after.cell(k / 9, k % 9),
                },
        )
    }

    /// Fills in the candidates: every cell that holds no digit comes to
    /// hold notes, with the note of a digit exactly if no cell in the same
    /// row, column or box holds that digit. Notes that were there are
    /// overwritten. Logs one change for each of the 81 cells, in reading
    /// order, whether the cell changed or not.
    pub fn fill_cell_candidates(&mut self, changes: &mut Vec<Change>)
        requires
            old(self).wf(),
        ensures
            final(self).wf(),
            old(self).filled_upto(*final(self), 9, 0),
            final(changes)@ == old(changes)@ + old(self).all_changes(*final(self)),
    {
        let bbefore = *self;
        let ghost log0 = changes@;
        let mut row: usize = 0;
        while row < 9
            invariant
                row <= 9,
                bbefore.wf(),
                forall|i: int, j: int|
                    on_board(i, j) ==> #[trigger] self.cell(i, j) == (if before(i, j, row as int, 0)
                        && is_open(bbefore.cell(i, j)) {
                        ALL_NOTES
                    } else {
                        bbefore.cell(i, j)
                    }),
            decreases 9 - row,
        {
            let mut col: usize = 0;
            while col < 9
                invariant
                    row < 9,
                    col <= 9,
                    bbefore.wf(),
                    forall|i: int, j: int|
                        on_board(i, j) ==> #[trigger] self.cell(i, j) == (if before(
                            i,
                            j,
                            row as int,
                            col as int,
                        ) && is_open(bbefore.cell(i, j)) {
                            ALL_NOTES
                        } else {
                            bbefore.cell(i, j)
                        }),
                decreases 9 - col,
            {
                let ghost prev = *self;
                let value: u16 = self.0[row][col];
                assert(value == self.cell(row as int, col as int));
                if value == 0 || is_note(value) {
                    self.0[row][col] = ALL_NOTES;
                }
                proof {
                    assert forall|i: int, j: int| on_board(i, j) implies #[trigger] self.cell(i, j)
                        == (if before(i, j, row as int, col + 1) && is_open(bbefore.cell(i, j)) {
                        ALL_NOTES
                    } else {
                        bbefore.cell(i, j)
                    }) by {
                        if !(i == row && j == col) {
                            assert(self.cell(i, j) == prev.cell(i, j));
                        }
                    }
                }
                col += 1;
            }
            row += 1;
        }
        proof {
            bbefore.lemma_filled_start(*self);
        }
        let mut y: u8 = 0;
        while y < 9
            invariant
                y <= 9,
                bbefore.wf(),
                self.wf(),
                bbefore.filled_upto(*self, y as int, 0),
                changes@ == log0,
            decreases 9 - y,
        {
            let mut x: u8 = 0;
            while x < 9
                invariant
                    y < 9,
                    x <= 9,
                    bbefore.wf(),
                    self.wf(),
                    bbefore.filled_upto(*self, y as int, x as int),
                    changes@ == log0,
                decreases 9 - x,
            {
                let ghost prev = *self;
                let mut scratch: Vec<Change> = Vec::new();
                self.fix_notes_around(y, x, &mut scratch);
                proof {
                    bbefore.lemma_filled_step(prev, *self, y as int, x as int);
                }
                x += 1;
            }
            proof {
                bbefore.lemma_filled_next_row(*self, y as int);
            }
            y += 1;
        }
        let mut i: usize = 0;
        while i < 9
            invariant
                i <= 9,
                changes@ == log0 + bbefore.all_changes(*self).subrange(0, i * 9),
            decreases 9 - i,
        {
            let mut j: usize = 0;
            while j < 9
                invariant
                    i < 9,
                    j <= 9,
                    changes@ == log0 + bbefore.all_changes(*self).subrange(0, i * 9 + j),
                decreases 9 - j,
            {
                let before: u16 = bbefore.0[i][j];
                let after: u16 = self.0[i][j];
                changes.push(Change { pos: (i as u8, j as u8), before, after });
                proof {
                    let k = i * 9 + j;
                    assert(k / 9 == i && k % 9 == j);
                    assert(bbefore.all_changes(*self).subrange(0, k + 1) =~= bbefore.all_changes(
                        *self,
                    ).subrange(0, k as int).push(bbefore.all_changes(*self)[k as int]));
                    assert(changes@ =~= log0 + bbefore.all_changes(*self).subrange(0, k + 1));
                }
                j += 1;
            }
            i += 1;
        }
        proof {
            assert(bbefore.all_changes(*self).subrange(0, 81) =~= bbefore.all_changes(*self));
        }
    }

    /// With every open cell set to all notes, the candidates are filled in
    /// as far as no cell decides.
    proof fn lemma_filled_start(self, filled: SudokuBoard)
        requires
            self.wf(),
            forall|i: int, j: int|
                on_board(i, j) ==> #[trigger] filled.cell(i, j) == (if is_open(self.cell(i, j)) {
                    ALL_NOTES
                } else {
                    self.cell(i, j)
                }),
        ensures
            self.filled_upto(filled, 0, 0),
            filled.wf(),
    {
        lemma_all_notes(1);
        assert forall|i: int, j: int| on_board(i, j) implies (if is_digit(self.cell(i, j)) {
            #[trigger] filled.cell(i, j) == self.cell(i, j)
        } else {
            self.candidates_upto(i, j, filled.cell(i, j), 0, 0)
        }) by {
            assert(is_open(self.cell(i, j)) || is_digit(self.cell(i, j)));
            if !is_digit(self.cell(i, j)) {
                assert forall|d: int| 1 <= d <= 9 implies (#[trigger] has_note(filled.cell(i, j), d)
                    <==> !self.peer_holds(i, j, d, 0, 0)) by {
                    lemma_all_notes(d);
                }
            }
        }
        assert forall|i: int, j: int| on_board(i, j) implies is_open(#[trigger] filled.cell(i, j))
            || is_digit(filled.cell(i, j)) by {
            assert(is_open(self.cell(i, j)) || is_digit(self.cell(i, j)));
        }
    }

    /// One step of filling in the candidates: clearing the notes around
    /// `(y, x)` takes the board from what the cells before `(y, x)` decide
    /// to what the cells up to `(y, x)` decide.
    proof fn lemma_filled_step(self, prev: SudokuBoard, next: SudokuBoard, y: int, x: int)
        requires
            on_board(y, x),
            self.wf(),
            self.filled_upto(prev, y, x),
            is_open(prev.cell(y, x)) ==> next == prev,
            is_digit(prev.cell(y, x)) ==> forall|i: int, j: int|
                on_board(i, j) ==> #[trigger] next.cell(i, j) == prev.fixed_value(
                    i,
                    j,
                    y,
                    x,
                    (prev.cell(y, x) - 1) as u16,
                ),
        ensures
            self.filled_upto(next, y, x + 1),
    {
        assert(is_open(self.cell(y, x)) || is_digit(self.cell(y, x)));
        assert(is_digit(self.cell(y, x)) ==> prev.cell(y, x) == self.cell(y, x));
        assert(!is_digit(self.cell(y, x)) ==> self.candidates_upto(y, x, prev.cell(y, x), y, x));
        let held = prev.cell(y, x);
        assert forall|i: int, j: int| on_board(i, j) implies (if is_digit(self.cell(i, j)) {
            #[trigger] next.cell(i, j) == self.cell(i, j)
        } else {
            self.candidates_upto(i, j, next.cell(i, j), y, x + 1)
        }) by {
            assert(is_open(self.cell(i, j)) || is_digit(self.cell(i, j)));
            if is_digit(self.cell(i, j)) {
                assert(prev.cell(i, j) == self.cell(i, j));
            } else {
                let was = prev.cell(i, j);
                let now = next.cell(i, j);
                assert(self.candidates_upto(i, j, was, y, x));
                assert forall|d: int| 1 <= d <= 9 implies (#[trigger] has_note(now, d)
                    <==> !self.peer_holds(i, j, d, y, x + 1)) by {
                    assert(has_note(was, d) <==> !self.peer_holds(i, j, d, y, x));
                    if self.peer_holds(i, j, d, y, x) {
                        let (a, b) = choose|a: int, b: int|
                            before(a, b, y, x) && peers(i, j, a, b) && #[trigger] self.cell(a, b)
                                == d;
                        assert(before(a, b, y, x + 1));
                    }
                    if self.peer_holds(i, j, d, y, x + 1) {
                        let (a, b) = choose|a: int, b: int|
                            before(a, b, y, x + 1) && peers(i, j, a, b) && #[trigger] self.cell(
                                a,
                                b,
                            ) == d;
                        if !(a == y && b == x) {
                            assert(before(a, b, y, x));
                        }
                    }
                    if is_digit(held) {
                        let bit = (held - 1) as u16;
                        lemma_without_note(was, bit, d);
                        if peers(i, j, y, x) && held == d {
                            assert(before(y, x, y, x + 1) && self.cell(y, x) == d);
                        }
                    }
                }
                if is_digit(held) {
                    let bit = (held - 1) as u16;
                    lemma_without_note(was, bit, 1);
                    lemma_without_bit(was, bit);
                }
            }
        }
    }

    /// The end of one row is the start of the next.
    proof fn lemma_filled_next_row(self, filled: SudokuBoard, y: int)
        requires
            0 <= y < 9,
            self.filled_upto(filled, y, 9),
        ensures
            self.filled_upto(filled, y + 1, 0),
    {
        assert forall|i: int, j: int| on_board(i, j) implies (if is_digit(self.cell(i, j)) {
            #[trigger] filled.cell(i, j) == self.cell(i, j)
        } else {
            self.candidates_upto(i, j, filled.cell(i, j), y + 1, 0)
        }) by {
            if !is_digit(self.cell(i, j)) {
                let value = filled.cell(i, j);
                assert(self.candidates_upto(i, j, value, y, 9));
                assert forall|d: int| 1 <= d <= 9 implies (#[trigger] has_note(value, d)
                    <==> !self.peer_holds(i, j, d, y + 1, 0)) by {
                    assert(has_note(value, d) <==> !self.peer_holds(i, j, d, y, 9));
                    if self.peer_holds(i, j, d, y, 9) {
                        let (a, b) = choose|a: int, b: int|
                            before(a, b, y, 9) && peers(i, j, a, b) && #[trigger] self.cell(a, b)
                                == d;
                        assert(before(a, b, y + 1, 0));
                    }
                    if self.peer_holds(i, j, d, y + 1, 0) {
                        let (a, b) = choose|a: int, b: int|
                            before(a, b, y + 1, 0) && peers(i, j, a, b) && #[trigger] self.cell(
                                a,
                                b,
                            ) == d;
                        assert(before(a, b, y, 9));
                    }
                }
            }
        }
    }

    /// The board as 81 digits in reading order: a cell's digit, and `0`
    /// for a cell that holds none.
    pub open spec fn digits(self) -> Seq<char> {
        Seq::new(
            81,
            |k: int|
                crate::text::digit_char(
                    if self.cell(k / 9, k % 9) <= 9 {
                        self.cell(k / 9, k % 9) as nat
                    } else {
                        0
                    },
                ),
        )
    }

    /// The board's `digits` as a string.
    pub fn to_string(&self) -> (s: String)
        ensures
            s@ == self.digits(),
    {
        let mut s: String = String::new();
        let mut y: usize = 0;
        while y < 9
            invariant
                y <= 9,
                s@ == self.digits().take(y * 9),
            decreases 9 - y,
        {
            let mut x: usize = 0;
            while x < 9
                invariant
                    y < 9,
                    x <= 9,
                    s@ == self.digits().take(y * 9 + x),
                decreases 9 - x,
            {
                let cell: u16 = self.0[y][x];
                let shown: usize = if cell <= 9 {
                    cell as usize
                } else {
                    0
                };
                s.append(crate::text::digit_str(shown));
                proof {
                    let k = y * 9 + x;
                    assert(k / 9 == y && k % 9 == x);
                    assert(self.digits().take(k + 1) =~= self.digits().take(k as int).push(
                        self.digits()[k as int],
                    ));
                    assert(s@ =~= self.digits().take(k + 1));
                }
                x += 1;
            }
            y += 1;
        }
        assert(self.digits().take(81) =~= self.digits());
        s
    }

    /// What the three tables of `is_valid` record when it has read the
    /// cells before `(i, j)` and met no digit twice.
    pub open spec fn seen(
        self,
        rows: [[bool; 9]; 9],
        cols: [[bool; 9]; 9],
        boxes: [[bool; 9]; 9],
        i: int,
        j: int,
    ) -> bool {
        &&& self.valid_before(i, j)
        &&& forall|r: int, n: int|
            0 <= r < 9 && 0 <= n < 9 ==> (#[trigger] rows@[r]@[n] <==> self.row_has(r, n + 1, i, j))
        &&& forall|c: int, n: int|
            0 <= c < 9 && 0 <= n < 9 ==> (#[trigger] cols@[c]@[n] <==> self.col_has(c, n + 1, i, j))
        &&& forall|b: int, n: int|
            0 <= b < 9 && 0 <= n < 9 ==> (#[trigger] boxes@[b]@[n] <==> self.box_has(
                b,
                n + 1,
                i,
                j,
            ))
    }
}

impl SudokuBoard {
    /// A digit at `(i, j)` that a table already holds occurs twice.
    proof fn lemma_seen_clash(
        self,
        rows: [[bool; 9]; 9],
        cols: [[bool; 9]; 9],
        boxes: [[bool; 9]; 9],
        i: int,
        j: int,
    )
        requires
            on_board(i, j),
            self.seen(rows, cols, boxes, i, j),
            is_digit(self.cell(i, j)),
            rows@[i]@[self.cell(i, j) - 1] || cols@[j]@[self.cell(i, j) - 1] || boxes@[(i / 3) * 3
                + j / 3]@[self.cell(i, j) - 1],
        ensures
            !self.spec_valid(),
    {
        let d = self.cell(i, j) as int;
        let b = (i / 3) * 3 + j / 3;
        if rows@[i]@[d - 1] {
            assert(self.row_has(i, d, i, j));
            let x = choose|x: int| before(i, x, i, j) && #[trigger] self.cell(i, x) == d;
            assert(peers(i, j, i, x));
            assert(self.cell(i, j) == self.cell(i, x));
        } else if cols@[j]@[d - 1] {
            assert(self.col_has(j, d, i, j));
            let y = choose|y: int| before(y, j, i, j) && #[trigger] self.cell(y, j) == d;
            assert(peers(i, j, y, j));
            assert(self.cell(i, j) == self.cell(y, j));
        } else {
            assert(self.box_has(b, d, i, j));
            let (y, x) = choose|y: int, x: int|
                before(y, x, i, j) && (y / 3) * 3 + x / 3 == b && #[trigger] self.cell(y, x) == d;
            assert(peers(i, j, y, x));
            assert(self.cell(i, j) == self.cell(y, x));
        }
    }

    /// Reading a cell that holds no digit leaves the tables right.
    proof fn lemma_seen_open(
        self,
        rows: [[bool; 9]; 9],
        cols: [[bool; 9]; 9],
        boxes: [[bool; 9]; 9],
        i: int,
        j: int,
    )
        requires
            on_board(i, j),
            self.seen(rows, cols, boxes, i, j),
            is_open(self.cell(i, j)),
        ensures
            self.seen(rows, cols, boxes, i, j + 1),
    {
        assert forall|r: int, n: int| 0 <= r < 9 && 0 <= n < 9 implies (#[trigger] rows@[r]@[n]
            <==> self.row_has(r, n + 1, i, j + 1)) by {
            if self.row_has(r, n + 1, i, j + 1) {
                let x = choose|x: int| before(r, x, i, j + 1) && #[trigger] self.cell(r, x) == n + 1;
                assert(before(r, x, i, j));
            }
            if self.row_has(r, n + 1, i, j) {
                let x = choose|x: int| before(r, x, i, j) && #[trigger] self.cell(r, x) == n + 1;
                assert(before(r, x, i, j + 1));
            }
        }
        assert forall|c: int, n: int| 0 <= c < 9 && 0 <= n < 9 implies (#[trigger] cols@[c]@[n]
            <==> self.col_has(c, n + 1, i, j + 1)) by {
            if self.col_has(c, n + 1, i, j + 1) {
                let y = choose|y: int| before(y, c, i, j + 1) && #[trigger] self.cell(y, c) == n + 1;
                assert(before(y, c, i, j));
            }
            if self.col_has(c, n + 1, i, j) {
                let y = choose|y: int| before(y, c, i, j) && #[trigger] self.cell(y, c) == n + 1;
                assert(before(y, c, i, j + 1));
            }
        }
        assert forall|b: int, n: int| 0 <= b < 9 && 0 <= n < 9 implies (#[trigger] boxes@[b]@[n]
            <==> self.box_has(b, n + 1, i, j + 1)) by {
            if self.box_has(b, n + 1, i, j + 1) {
                let (y, x) = choose|y: int, x: int|
                    before(y, x, i, j + 1) && (y / 3) * 3 + x / 3 == b && #[trigger] self.cell(y, x)
                        == n + 1;
                assert(before(y, x, i, j));
            }
            if self.box_has(b, n + 1, i, j) {
                let (y, x) = choose|y: int, x: int|
                    before(y, x, i, j) && (y / 3) * 3 + x / 3 == b && #[trigger] self.cell(y, x)
                        == n + 1;
                assert(before(y, x, i, j + 1));
            }
        }
        assert forall|y1: int, x1: int, y2: int, x2: int|
            before(y1, x1, i, j + 1) && before(y2, x2, i, j + 1) && peers(y1, x1, y2, x2)
                && is_digit(#[trigger] self.cell(y1, x1)) implies self.cell(y1, x1)
            != #[trigger] self.cell(y2, x2) by {
            if y2 == i && x2 == j {
            } else {
                assert(before(y1, x1, i, j) && before(y2, x2, i, j));
            }
        }
    }

    /// Reading a digit that no table holds yet, and entering it in all
    /// three, leaves the tables right.
    proof fn lemma_seen_digit(
        self,
        rows0: [[bool; 9]; 9],
        cols0: [[bool; 9]; 9],
        boxes0: [[bool; 9]; 9],
        rows: [[bool; 9]; 9],
        cols: [[bool; 9]; 9],
        boxes: [[bool; 9]; 9],
        i: int,
        j: int,
    )
        requires
            on_board(i, j),
            self.seen(rows0, cols0, boxes0, i, j),
            is_digit(self.cell(i, j)),
            !rows0@[i]@[self.cell(i, j) - 1],
            !cols0@[j]@[self.cell(i, j) - 1],
            !boxes0@[(i / 3) * 3 + j / 3]@[self.cell(i, j) - 1],
            forall|r: int, n: int|
                0 <= r < 9 && 0 <= n < 9 ==> #[trigger] rows@[r]@[n] == (rows0@[r]@[n] || (r == i
                    && n == self.cell(i, j) - 1)),
            forall|c: int, n: int|
                0 <= c < 9 && 0 <= n < 9 ==> #[trigger] cols@[c]@[n] == (cols0@[c]@[n] || (c == j
                    && n == self.cell(i, j) - 1)),
            forall|b: int, n: int|
                0 <= b < 9 && 0 <= n < 9 ==> #[trigger] boxes@[b]@[n] == (boxes0@[b]@[n] || (b == (
                i / 3) * 3 + j / 3 && n == self.cell(i, j) - 1)),
        ensures
            self.seen(rows, cols, boxes, i, j + 1),
    {
        let d = self.cell(i, j) as int;
        let bx = (i / 3) * 3 + j / 3;
        assert forall|r: int, n: int| 0 <= r < 9 && 0 <= n < 9 implies (#[trigger] rows@[r]@[n]
            <==> self.row_has(r, n + 1, i, j + 1)) by {
            assert(rows0@[r]@[n] <==> self.row_has(r, n + 1, i, j));
            if self.row_has(r, n + 1, i, j + 1) {
                let x = choose|x: int| before(r, x, i, j + 1) && #[trigger] self.cell(r, x) == n + 1;
                if !(r == i && x == j) {
                    assert(before(r, x, i, j));
                }
            }
            if self.row_has(r, n + 1, i, j) {
                let x = choose|x: int| before(r, x, i, j) && #[trigger] self.cell(r, x) == n + 1;
                assert(before(r, x, i, j + 1));
            }
            if r == i && n == d - 1 {
                assert(before(i, j, i, j + 1) && self.cell(i, j) == n + 1);
            }
        }
        assert forall|c: int, n: int| 0 <= c < 9 && 0 <= n < 9 implies (#[trigger] cols@[c]@[n]
            <==> self.col_has(c, n + 1, i, j + 1)) by {
            assert(cols0@[c]@[n] <==> self.col_has(c, n + 1, i, j));
            if self.col_has(c, n + 1, i, j + 1) {
                let y = choose|y: int| before(y, c, i, j + 1) && #[trigger] self.cell(y, c) == n + 1;
                if !(y == i && c == j) {
                    assert(before(y, c, i, j));
                }
            }
            if self.col_has(c, n + 1, i, j) {
                let y = choose|y: int| before(y, c, i, j) && #[trigger] self.cell(y, c) == n + 1;
                assert(before(y, c, i, j + 1));
            }
            if c == j && n == d - 1 {
                assert(before(i, j, i, j + 1) && self.cell(i, j) == n + 1);
            }
        }
        assert forall|b: int, n: int| 0 <= b < 9 && 0 <= n < 9 implies (#[trigger] boxes@[b]@[n]
            <==> self.box_has(b, n + 1, i, j + 1)) by {
            assert(boxes0@[b]@[n] <==> self.box_has(b, n + 1, i, j));
            if self.box_has(b, n + 1, i, j + 1) {
                let (y, x) = choose|y: int, x: int|
                    before(y, x, i, j + 1) && (y / 3) * 3 + x / 3 == b && #[trigger] self.cell(y, x)
                        == n + 1;
                if !(y == i && x == j) {
                    assert(before(y, x, i, j));
                }
            }
            if self.box_has(b, n + 1, i, j) {
                let (y, x) = choose|y: int, x: int|
                    before(y, x, i, j) && (y / 3) * 3 + x / 3 == b && #[trigger] self.cell(y, x)
                        == n + 1;
                assert(before(y, x, i, j + 1));
            }
            if b == bx && n == d - 1 {
                assert(before(i, j, i, j + 1) && self.cell(i, j) == n + 1);
            }
        }
        assert forall|y1: int, x1: int, y2: int, x2: int|
            before(y1, x1, i, j + 1) && before(y2, x2, i, j + 1) && peers(y1, x1, y2, x2)
                && is_digit(#[trigger] self.cell(y1, x1)) implies self.cell(y1, x1)
            != #[trigger] self.cell(y2, x2) by {
            if y1 == i && x1 == j {
                assert(before(y2, x2, i, j));
                if self.cell(y2, x2) == d {
                    if y2 == i {
                        assert(self.row_has(i, d, i, j));
                    } else if x2 == j {
                        assert(self.col_has(j, d, i, j));
                    } else {
                        assert((y2 / 3) * 3 + x2 / 3 == bx);
                        assert(self.box_has(bx, d, i, j));
                    }
                }
            } else if y2 == i && x2 == j {
                assert(before(y1, x1, i, j));
                if self.cell(y1, x1) == d {
                    if y1 == i {
                        assert(self.row_has(i, d, i, j));
                    } else if x1 == j {
                        assert(self.col_has(j, d, i, j));
                    } else {
                        assert((y1 / 3) * 3 + x1 / 3 == bx);
                        assert(self.box_has(bx, d, i, j));
                    }
                }
            } else {
                assert(before(y1, x1, i, j) && before(y2, x2, i, j));
            }
        }
    }

    /// The end of one row is the start of the next.
    proof fn lemma_seen_next_row(
        self,
        rows: [[bool; 9]; 9],
        cols: [[bool; 9]; 9],
        boxes: [[bool; 9]; 9],
        i: int,
    )
        requires
            0 <= i < 9,
            self.seen(rows, cols, boxes, i, 9),
        ensures
            self.seen(rows, cols, boxes, i + 1, 0),
    {
        assert forall|r: int, n: int| 0 <= r < 9 && 0 <= n < 9 implies (#[trigger] rows@[r]@[n]
            <==> self.row_has(r, n + 1, i + 1, 0)) by {
            if self.row_has(r, n + 1, i + 1, 0) {
                let x = choose|x: int| before(r, x, i + 1, 0) && #[trigger] self.cell(r, x) == n + 1;
                assert(before(r, x, i, 9));
            }
            if self.row_has(r, n + 1, i, 9) {
                let x = choose|x: int| before(r, x, i, 9) && #[trigger] self.cell(r, x) == n + 1;
                assert(before(r, x, i + 1, 0));
            }
        }
        assert forall|c: int, n: int| 0 <= c < 9 && 0 <= n < 9 implies (#[trigger] cols@[c]@[n]
            <==> self.col_has(c, n + 1, i + 1, 0)) by {
            if self.col_has(c, n + 1, i + 1, 0) {
                let y = choose|y: int| before(y, c, i + 1, 0) && #[trigger] self.cell(y, c) == n + 1;
                assert(before(y, c, i, 9));
            }
            if self.col_has(c, n + 1, i, 9) {
                let y = choose|y: int| before(y, c, i, 9) && #[trigger] self.cell(y, c) == n + 1;
                assert(before(y, c, i + 1, 0));
            }
        }
        assert forall|b: int, n: int| 0 <= b < 9 && 0 <= n < 9 implies (#[trigger] boxes@[b]@[n]
            <==> self.box_has(b, n + 1, i + 1, 0)) by {
            if self.box_has(b, n + 1, i + 1, 0) {
                let (y, x) = choose|y: int, x: int|
                    before(y, x, i + 1, 0) && (y / 3) * 3 + x / 3 == b && #[trigger] self.cell(y, x)
                        == n + 1;
                assert(before(y, x, i, 9));
            }
            if self.box_has(b, n + 1, i, 9) {
                let (y, x) = choose|y: int, x: int|
                    before(y, x, i, 9) && (y / 3) * 3 + x / 3 == b && #[trigger] self.cell(y, x)
                        == n + 1;
                assert(before(y, x, i + 1, 0));
            }
        }
        assert forall|y1: int, x1: int, y2: int, x2: int|
            before(y1, x1, i + 1, 0) && before(y2, x2, i + 1, 0) && peers(y1, x1, y2, x2)
                && is_digit(#[trigger] self.cell(y1, x1)) implies self.cell(y1, x1)
            != #[trigger] self.cell(y2, x2) by {
            assert(before(y1, x1, i, 9) && before(y2, x2, i, 9));
        }
    }
}

/// The number of the box that holds the cell `(y, x)`: boxes are numbered
/// in reading order from 0.
pub fn get_box_index(y: usize, x: usize) -> (b: usize)
    requires
        y < 9,
        x < 9,
    ensures
        b == (y / 3) * 3 + x / 3,
        b < 9,
{
    (y / 3) * 3 + (x / 3)
}

} // verus!
