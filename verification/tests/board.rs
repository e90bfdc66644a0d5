use sucocku::sudoku::history::{Change, History};
use sucocku::sudoku::sudoku_board::{get_box_index, BacktrackResult, SudokuBoard};
use sucocku::sudoku::{is_note, n_bit_off, n_bit_on, toggle_bit, Selection, ALL_NOTES, NOTE_FLAG};

const SOLVED: &str =
    "534678912672195348198342567859761423426853791713924856961537284287419635345286179";
const PUZZLE: &str =
    "530070000600195000098000060800060003400803001700020006060000280000419005000080079";

fn board(text: &str) -> SudokuBoard {
    let mut scratch = SudokuBoard([[0; 9]; 9]);
    scratch.from_str(text).unwrap()
}

fn notes(digits: &[u16]) -> u16 {
    let mut cell = 1u16 << NOTE_FLAG;
    for d in digits {
        cell |= 1 << (d - 1);
    }
    cell
}

#[test]
fn from_str_reads_digits_in_reading_order() {
    let mut scratch = SudokuBoard([[7; 9]; 9]);
    let parsed = scratch.from_str("12").unwrap();
    assert!(scratch == SudokuBoard([[7; 9]; 9]));
    assert_eq!(parsed.0[0][0], 1);
    assert_eq!(parsed.0[0][1], 2);
    assert_eq!(parsed.0[0][2], 0);
    assert_eq!(parsed.0[8][8], 0);
    let full = board(PUZZLE);
    assert_eq!(full.0[0], [5, 3, 0, 0, 7, 0, 0, 0, 0]);
    assert_eq!(full.0[1], [6, 0, 0, 1, 9, 5, 0, 0, 0]);
    assert_eq!(full.0[8], [0, 0, 0, 0, 8, 0, 0, 7, 9]);
    assert!(scratch.from_str("") == Some(SudokuBoard([[0; 9]; 9])));
}

#[test]
fn from_str_refuses_what_is_no_digit() {
    let mut scratch = SudokuBoard([[0; 9]; 9]);
    assert!(scratch.from_str("12a").is_none());
    assert!(scratch.from_str(" ").is_none());
    assert!(scratch.from_str("١").is_none());
    let long = format!("{SOLVED}x");
    assert!(scratch.from_str(&long).is_none());
    let early = format!("x{SOLVED}{SOLVED}");
    assert!(scratch.from_str(&early).is_none());
}

#[test]
fn board_to_string_shows_digits_only() {
    assert_eq!(board(PUZZLE).to_string(), PUZZLE);
    let mut b = board(SOLVED);
    b.0[0][0] = ALL_NOTES;
    b.0[8][8] = 0;
    let text = b.to_string();
    assert_eq!(&text[..3], "034");
    assert_eq!(&text[78..], "170");
    assert_eq!(text.len(), 81);
}

#[test]
fn box_index_counts_boxes_in_reading_order() {
    assert_eq!(get_box_index(0, 0), 0);
    assert_eq!(get_box_index(2, 8), 2);
    assert_eq!(get_box_index(4, 4), 4);
    assert_eq!(get_box_index(5, 0), 3);
    assert_eq!(get_box_index(8, 8), 8);
    assert_eq!(get_box_index(6, 5), 7);
}

#[test]
fn is_valid_finds_a_digit_twice() {
    assert!(board(PUZZLE).is_valid());
    assert!(board(SOLVED).is_valid());
    assert!(board("").is_valid());
    assert!(!board("11").is_valid());
    assert!(!board("1000000001").is_valid());
    assert!(!board("10000000000100").is_valid());
    assert!(board("1000000000001").is_valid());
    let mut noted = board("1");
    noted.0[0][5] = notes(&[1]);
    noted.0[5][0] = ALL_NOTES;
    assert!(noted.is_valid());
}

#[test]
fn find_empty_space_finds_the_first_open_cell() {
    assert_eq!(board(PUZZLE).find_empty_space(), Some((0, 2)));
    assert_eq!(board(SOLVED).find_empty_space(), None);
    assert_eq!(board("").find_empty_space(), Some((0, 0)));
    let mut b = board(SOLVED);
    b.0[7][3] = ALL_NOTES;
    b.0[8][0] = 0;
    assert_eq!(b.find_empty_space(), Some((7, 3)));
}

#[test]
fn solve_finds_the_one_solution() {
    let mut b = board(PUZZLE);
    match b.solve() {
        BacktrackResult::OneSolution(solution) => assert!(solution == board(SOLVED)),
        _ => panic!("the puzzle has one solution"),
    }
    assert!(b == board(PUZZLE));
    let mut done = board(SOLVED);
    assert!(done.solve() == BacktrackResult::OneSolution(board(SOLVED)));
}

#[test]
fn solve_fills_notes_too() {
    let mut b = board(PUZZLE);
    b.0[0][2] = notes(&[1, 2]);
    b.0[4][4] = ALL_NOTES;
    let before = b;
    assert!(b.solve() == BacktrackResult::OneSolution(board(SOLVED)));
    assert!(b == before);
}

#[test]
fn solve_tells_no_solution() {
    let mut clash = board("11");
    assert!(clash.solve() == BacktrackResult::NoSolution);
    assert!(clash == board("11"));
    // Valid as it stands, but the first cell has no digit left.
    let mut stuck = board("012345678000000000000000000900000000");
    assert!(stuck.is_valid());
    assert!(stuck.solve() == BacktrackResult::NoSolution);
    assert!(stuck == board("012345678000000000000000000900000000"));
}

#[test]
fn solve_tells_more_solutions() {
    let mut open = board(SOLVED);
    open.0[0][0] = 0;
    open.0[1][0] = 0;
    assert!(open.solve() == BacktrackResult::OneSolution(board(SOLVED)));
    // Rows 0 and 3 hold 6 and 7 in columns 3 and 4, crosswise: they can change places.
    let mut twofold = board(SOLVED);
    twofold.0[0][3] = 0;
    twofold.0[0][4] = 0;
    twofold.0[3][3] = 0;
    twofold.0[3][4] = 0;
    assert!(twofold.solve() == BacktrackResult::MoreSolutions);
    let mut empty = board("");
    assert!(empty.solve() == BacktrackResult::MoreSolutions);
}

#[test]
fn fix_notes_clears_the_digit_around_a_cell() {
    let mut b = SudokuBoard([[ALL_NOTES; 9]; 9]);
    b.0[4][4] = 5;
    b.0[4][0] = 7;
    b.0[0][0] = 0;
    let mut log = Vec::new();
    b.fix_notes_around(4, 4, &mut log);
    let without5 = notes(&[1, 2, 3, 4, 6, 7, 8, 9]);
    for y in 0..9 {
        for x in 0..9 {
            let expected = if (y, x) == (4, 4) {
                5
            } else if (y, x) == (4, 0) {
                7
            } else if (y, x) == (0, 0) {
                0
            } else if y == 4 || x == 4 || (y / 3 == 1 && x / 3 == 1) {
                without5
            } else {
                ALL_NOTES
            };
            assert_eq!(b.0[y][x], expected, "cell {y},{x}");
        }
    }
    // 8 cells of the box, then 7 of the row and 8 of the column, one after the other.
    assert_eq!(log.len(), 8 + 7 + 8);
    assert_eq!(log[0].pos, (3, 3));
    assert_eq!(log[0].before, ALL_NOTES);
    assert_eq!(log[0].after, without5);
    assert_eq!(log[7].pos, (5, 5));
    assert_eq!(log[8].pos, (0, 4));
    assert_eq!(log[8].before, ALL_NOTES);
    assert_eq!(log[9].pos, (4, 1));
    assert_eq!(log[9].after, without5);
    // A cell of the box comes again with the row, unchanged.
    let again = log.iter().filter(|c| c.pos == (4, 3)).collect::<Vec<_>>();
    assert_eq!(again.len(), 2);
    assert_eq!(again[1].before, without5);
    assert_eq!(again[1].after, without5);
}

#[test]
fn fix_notes_ignores_a_cell_without_digit() {
    let mut b = SudokuBoard([[ALL_NOTES; 9]; 9]);
    b.0[2][2] = 0;
    let before = b;
    let mut log = vec![Change { pos: (1, 1), before: 0, after: 1 }];
    b.fix_notes_around(2, 2, &mut log);
    b.fix_notes_around(3, 3, &mut log);
    assert!(b == before);
    assert_eq!(log.len(), 1);
}

#[test]
fn fill_cell_candidates_leaves_what_peers_allow() {
    let mut b = board(PUZZLE);
    b.0[0][2] = notes(&[9]);
    let before = b;
    let mut log = Vec::new();
    b.fill_cell_candidates(&mut log);
    assert_eq!(b.0[0][0], 5);
    assert_eq!(b.0[0][2], notes(&[1, 2, 4]));
    assert_eq!(b.0[0][3], notes(&[2, 6]));
    assert_eq!(b.0[4][4], notes(&[5]));
    assert_eq!(b.0[8][0], notes(&[1, 2, 3]));
    assert_eq!(log.len(), 81);
    for (k, change) in log.iter().enumerate() {
        assert_eq!(change.pos, ((k / 9) as u8, (k % 9) as u8));
        assert_eq!(change.before, before.0[k / 9][k % 9]);
        assert_eq!(change.after, b.0[k / 9][k % 9]);
    }
    let mut empty = board("");
    empty.fill_cell_candidates(&mut log);
    assert!(empty == SudokuBoard([[ALL_NOTES; 9]; 9]));
    assert_eq!(log.len(), 162);
}

#[test]
fn note_bits() {
    assert!(is_note(ALL_NOTES));
    assert!(is_note(0x8000));
    assert!(!is_note(0));
    assert!(!is_note(9));
    assert!(!is_note(0x7fff));
    assert_eq!(ALL_NOTES, 0x81ff);
    let mut cell = 0u16;
    n_bit_on(&mut cell, NOTE_FLAG);
    assert_eq!(cell, 0x8000);
    toggle_bit(&mut cell, 3);
    assert_eq!(cell, 0x8008);
    toggle_bit(&mut cell, 3);
    assert_eq!(cell, 0x8000);
    cell = ALL_NOTES;
    n_bit_off(&mut cell, 0);
    assert_eq!(cell, 0x81fe);
    n_bit_off(&mut cell, 0);
    assert_eq!(cell, 0x81fe);
}

#[test]
fn selection_marks_cells() {
    let mut marks = Selection([0; 9]);
    assert!(!marks.get(3, 4));
    marks.toggle(3, 4);
    marks.toggle(3, 8);
    marks.toggle(0, 0);
    assert!(marks.get(3, 4));
    assert!(marks.get(3, 8));
    assert!(marks.get(0, 0));
    assert!(!marks.get(4, 3));
    assert_eq!(marks.0[3], (1 << 4) | (1 << 8));
    marks.toggle(3, 4);
    assert!(!marks.get(3, 4));
    assert!(marks.get(3, 8));
    marks.clear();
    assert_eq!(marks.0, [0; 9]);
}

fn change(n: u16) -> Change {
    Change { pos: (n as u8, 0), before: n, after: n + 1 }
}

fn first(changes: &Option<Vec<Change>>) -> Option<u16> {
    changes.as_ref().map(|c| c[0].before)
}

#[test]
fn history_undoes_and_redoes_in_order() {
    let mut h = History::default();
    assert!(h.undo().is_none());
    assert!(h.redo().is_none());
    h.record_change(vec![change(1), change(10)]);
    h.record_change(vec![change(2)]);
    h.record_change(vec![change(3)]);
    let undone = h.undo();
    assert_eq!(first(&undone), Some(3));
    assert_eq!(first(&h.undo()), Some(2));
    assert_eq!(first(&h.redo()), Some(2));
    assert_eq!(first(&h.redo()), Some(3));
    assert!(h.redo().is_none());
    assert_eq!(first(&h.undo()), Some(3));
    assert_eq!(first(&h.undo()), Some(2));
    let both = h.undo().unwrap();
    assert_eq!(both.len(), 2);
    assert_eq!(both[1].after, 11);
    assert_eq!(both[1].pos, (10, 0));
    assert!(h.undo().is_none());
    assert_eq!(first(&h.redo()), Some(1));
}

#[test]
fn recording_forgets_what_was_undone() {
    let mut h = History::default();
    h.record_change(vec![change(1)]);
    h.record_change(vec![change(2)]);
    h.undo();
    h.record_change(vec![change(3)]);
    assert!(h.redo().is_none());
    assert_eq!(first(&h.undo()), Some(3));
    assert_eq!(first(&h.undo()), Some(1));
    assert!(h.undo().is_none());
}
