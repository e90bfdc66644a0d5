use sucocku::input::{Clipboard, Input, Key};
use sucocku::settings::opts::Opts;
use sucocku::settings::{default_keymaps, parse_config_keymaps, Keymaps};
use sucocku::sudoku::mode::Mode;
use sucocku::sudoku::sudoku_board::SudokuBoard;
use sucocku::sudoku::{Sudoku, ALL_NOTES};

const SOLVED: &str =
    "534678912672195348198342567859761423426853791713924856961537284287419635345286179";
const PUZZLE: &str =
    "530070000600195000098000060800060003400803001700020006060000280000419005000080079";

fn run(s: &mut Sudoku, opts: &mut Opts, cmd: &str) {
    s.process_cmd(cmd, opts, &Clipboard::Closed);
}

fn quiet() -> Input {
    Input { escape_down: false, ctrl_down: false, shift_down: false, last_key: None, ch: None }
}

fn typed(ch: char) -> Input {
    Input { ch: Some(ch), last_key: Some(Key::Other), ..quiet() }
}

fn key(k: Key) -> Input {
    Input { last_key: Some(k), ..quiet() }
}

fn type_all(s: &mut Sudoku, keymaps: &Keymaps, opts: &mut Opts, text: &str) {
    for ch in text.chars() {
        assert!(s.update(&typed(ch), keymaps, opts, &Clipboard::Closed));
    }
}

fn mode_name(s: &Sudoku) -> String {
    s.mode.to_string()
}

#[test]
fn display_mode_works() {
    assert_eq!("command".to_string(), Mode::Command.to_string());
    assert_eq!("go".to_string(), Mode::Go(4).to_string());
    assert_eq!("banana".to_string(), Mode::Custom("banana".to_string()).to_string());
}

#[test]
fn mode_names() {
    assert_eq!(Mode::Normal.to_string(), "normal");
    assert_eq!(Mode::Insert.to_string(), "insert");
    assert_eq!(Mode::Note.to_string(), "note");
    assert_eq!(Mode::Highlight(3).to_string(), "highlight(3)");
    assert_eq!(Mode::Highlight(0).to_string(), "highlight(0)");
    assert_eq!(Mode::Highlight(255).to_string(), "highlight(255)");
    assert_eq!(Mode::Go(0).to_string(), "go");
}

#[test]
fn parse_config_keymaps_works() {
    let mut keymaps = Vec::new();
    keymaps.push(("banana,insert,philza;gr,ah".to_string(), "k".to_string()));
    keymaps.push(("pizda;pilgrim".to_string(), "e".to_string()));
    let new_keymaps = parse_config_keymaps(&keymaps).unwrap();
    let mut expected = Keymaps::new();
    expected.insert("banana".to_string(), "gr,ah".to_string(), "k".to_string());
    expected.insert("insert".to_string(), "gr,ah".to_string(), "k".to_string());
    expected.insert("philza".to_string(), "gr,ah".to_string(), "k".to_string());
    expected.insert("pizda".to_string(), "pilgrim".to_string(), "e".to_string());
    assert_eq!(new_keymaps.entries.len(), expected.entries.len());
    for entry in &expected.entries {
        assert_eq!(new_keymaps.get(&entry.mode, &entry.keybind), Some(&entry.action));
    }
    for entry in &new_keymaps.entries {
        assert_eq!(expected.get(&entry.mode, &entry.keybind), Some(&entry.action));
    }
}

#[test]
fn parse_config_keymaps_needs_a_semicolon() {
    let keymaps = vec![("a;b".to_string(), "x".to_string()), ("normal".to_string(), "y".to_string())];
    assert_eq!(parse_config_keymaps(&keymaps).err(), Some("No mode/keybind specified"));
    let odd = vec![(";".to_string(), "x".to_string()), ("a,;b;c".to_string(), "y".to_string())];
    let parsed = parse_config_keymaps(&odd).unwrap();
    assert_eq!(parsed.get("", ""), Some(&"x".to_string()));
    assert_eq!(parsed.get("a", "b"), Some(&"y".to_string()));
    assert_eq!(parsed.get("", "b"), Some(&"y".to_string()));
    assert_eq!(parsed.get("a", "b;c"), None);
    assert_eq!(parsed.entries.len(), 3);
}

#[test]
fn keymaps_later_binding_wins() {
    let mut keymaps = Keymaps::new();
    assert_eq!(keymaps.get("normal", "h"), None);
    keymaps.insert("normal".to_string(), "gh".to_string(), "one".to_string());
    keymaps.insert("normal".to_string(), "gh".to_string(), "two".to_string());
    keymaps.insert("note".to_string(), "x".to_string(), "three".to_string());
    assert_eq!(keymaps.get("normal", "gh"), Some(&"two".to_string()));
    assert_eq!(keymaps.get("note", "gh"), None);
    assert!(keymaps.has_prefix("normal", "g"));
    assert!(keymaps.has_prefix("normal", "gh"));
    assert!(keymaps.has_prefix("normal", ""));
    assert!(!keymaps.has_prefix("normal", "ghi"));
    assert!(!keymaps.has_prefix("normal", "x"));
    assert!(!keymaps.has_prefix("insert", ""));
}

#[test]
fn default_keymaps_hold_the_table() {
    let keymaps = default_keymaps();
    assert_eq!(keymaps.entries.len(), 26);
    assert_eq!(keymaps.get("normal", "h"), Some(&"move left".to_string()));
    assert_eq!(keymaps.get("note", "j"), Some(&"move down".to_string()));
    assert_eq!(keymaps.get("insert", "k"), Some(&"move up".to_string()));
    assert_eq!(keymaps.get("insert", "l"), Some(&"move right".to_string()));
    assert_eq!(keymaps.get("go", " "), Some(&"mark".to_string()));
    assert_eq!(keymaps.get("go", "h"), None);
    assert_eq!(keymaps.get("normal", "g"), Some(&"go".to_string()));
    assert_eq!(keymaps.get("normal", "i"), Some(&"insert".to_string()));
    assert_eq!(keymaps.get("visual", "n"), Some(&"note".to_string()));
    assert_eq!(keymaps.get("note", "v"), Some(&"mode visual".to_string()));
    assert_eq!(keymaps.get("visual", "l"), Some(&"mark; move right".to_string()));
    assert_eq!(keymaps.get("insert", "v"), None);
}

#[test]
fn new_editor_starts_in_the_middle() {
    let s = Sudoku::new(false);
    assert_eq!((s.row, s.col), (4, 4));
    assert!(s.board == SudokuBoard([[0; 9]; 9]));
    assert!(matches!(s.mode, Mode::Normal));
    assert_eq!(s.cmd, "");
    assert_eq!(s.repeat, 0);
    assert!(s.only_solution.is_none());
    let filled = Sudoku::new(true);
    assert!(filled.board == SudokuBoard([[ALL_NOTES; 9]; 9]));
}

#[test]
fn mov_stops_at_the_edge() {
    let mut s = Sudoku::new(false);
    s.mov("u", None);
    assert_eq!((s.row, s.col), (3, 4));
    s.mov("up", Some(2));
    assert_eq!((s.row, s.col), (1, 4));
    s.mov("u", Some(200));
    assert_eq!((s.row, s.col), (0, 4));
    s.mov("down", Some(3));
    assert_eq!((s.row, s.col), (3, 4));
    s.mov("d", Some(255));
    assert_eq!((s.row, s.col), (8, 4));
    s.mov("l", Some(4));
    assert_eq!((s.row, s.col), (8, 0));
    s.mov("left", None);
    assert_eq!((s.row, s.col), (8, 0));
    s.mov("r", Some(0));
    assert_eq!((s.row, s.col), (8, 0));
    s.mov("right", Some(9));
    assert_eq!((s.row, s.col), (8, 8));
    assert_eq!(s.cmd, "");
    s.mov("sideways", None);
    assert_eq!(s.cmd, "Invalid usage: mov u/d/l/r");
    assert_eq!((s.row, s.col), (8, 8));
    s.cmd.clear();
    s.mov("u p", None);
    assert_eq!(s.cmd, "Invalid usage: mov u/d/l/r");
}

#[test]
fn go_takes_row_and_column_from_one() {
    let mut s = Sudoku::new(false);
    s.go(Some(11));
    assert_eq!((s.row, s.col), (0, 0));
    s.go(Some(93));
    assert_eq!((s.row, s.col), (8, 2));
    s.go(Some(99));
    assert_eq!((s.row, s.col), (8, 8));
    s.go(Some(100));
    assert_eq!(s.cmd, "Invalid usage: <y><x>go");
    assert_eq!((s.row, s.col), (8, 8));
    s.cmd.clear();
    s.go(Some(5));
    assert_eq!(s.cmd, "Invalid usage: <y><x>go");
    s.cmd.clear();
    s.go(Some(30));
    assert_eq!(s.cmd, "Invalid usage: <y><x>go");
    s.cmd.clear();
    s.go(None);
    assert!(matches!(s.mode, Mode::Go(0)));
    assert_eq!(s.cmd, "");
}

#[test]
fn insert_enters_and_logs_a_digit() {
    let mut s = Sudoku::new(false);
    let opts = Opts { check_input: false, ..Opts::default() };
    s.insert(Some(5), &opts);
    assert_eq!(s.board.0[4][4], 5);
    s.insert(Some(0), &opts);
    assert_eq!(s.cmd, "Invalid usage: <num>insert");
    s.cmd.clear();
    s.insert(Some(10), &opts);
    assert_eq!(s.cmd, "Invalid usage: <num>insert");
    assert_eq!(s.board.0[4][4], 5);
    s.insert(None, &opts);
    assert!(matches!(s.mode, Mode::Insert));
    s.undo();
    assert_eq!(s.board.0[4][4], 0);
    s.redo();
    assert_eq!(s.board.0[4][4], 5);
    s.undo();
    s.undo();
    assert_eq!(s.board.0[4][4], 0);
}

#[test]
fn insert_checks_against_the_solution() {
    let mut s = Sudoku::new(false);
    let opts = Opts::default();
    s.import_text(PUZZLE, &opts);
    assert!(s.only_solution == Some(SudokuBoard::clone(&solved())));
    s.row = 0;
    s.col = 2;
    s.insert(Some(1), &opts);
    assert_eq!(s.board.0[0][2], 0);
    s.insert(Some(4), &opts);
    assert_eq!(s.board.0[0][2], 4);
    let unchecked = Opts { check_input: false, ..opts };
    s.col = 3;
    s.insert(Some(2), &unchecked);
    assert_eq!(s.board.0[0][3], 2);
}

fn solved() -> SudokuBoard {
    let mut scratch = SudokuBoard([[0; 9]; 9]);
    scratch.from_str(SOLVED).unwrap()
}

#[test]
fn insert_refuses_what_leaves_no_solution() {
    let mut s = Sudoku::new(false);
    let opts = Opts::default();
    s.insert(Some(5), &opts);
    assert_eq!(s.board.0[4][4], 5);
    assert!(s.only_solution.is_none());
    s.col = 5;
    s.insert(Some(5), &opts);
    assert_eq!(s.board.0[4][5], 0);
    s.insert(Some(6), &opts);
    assert_eq!(s.board.0[4][5], 6);
    // Undo takes back the 6, then the first 5: the refused digit was not logged.
    s.undo();
    assert_eq!(s.board.0[4][5], 0);
    s.undo();
    assert_eq!(s.board.0[4][4], 0);
}

#[test]
fn insert_finds_the_only_solution() {
    let mut s = Sudoku::new(false);
    let opts = Opts::default();
    s.board = solved();
    s.board.0[0][0] = 0;
    s.row = 0;
    s.col = 0;
    s.insert(Some(5), &opts);
    assert_eq!(s.board.0[0][0], 5);
    assert!(s.only_solution == Some(solved()));
}

#[test]
fn insert_clears_notes_when_asked() {
    let mut s = Sudoku::new(true);
    let opts =
        Opts { check_input: false, auto_candidate_elimination: true, ..Opts::default() };
    s.insert(Some(9), &opts);
    assert_eq!(s.board.0[4][4], 9);
    assert_eq!(s.board.0[4][0], ALL_NOTES & !(1 << 8));
    assert_eq!(s.board.0[0][4], ALL_NOTES & !(1 << 8));
    assert_eq!(s.board.0[3][3], ALL_NOTES & !(1 << 8));
    assert_eq!(s.board.0[0][0], ALL_NOTES);
    // Undo replays the changes of an edit first to last, so that a cell which the edit
    // logged twice keeps what the second change found.
    s.undo();
    assert_eq!(s.board.0[4][4], ALL_NOTES);
    assert_eq!(s.board.0[0][4], ALL_NOTES);
    assert_eq!(s.board.0[4][0], ALL_NOTES);
    assert_eq!(s.board.0[3][3], ALL_NOTES);
    assert_eq!(s.board.0[4][3], ALL_NOTES & !(1 << 8));
    assert_eq!(s.board.0[5][4], ALL_NOTES & !(1 << 8));
}

#[test]
fn note_flips_under_cursor_and_marks() {
    let mut s = Sudoku::new(false);
    s.note(Some(3));
    assert_eq!(s.board.0[4][4], 0x8000 | (1 << 2));
    s.note(Some(3));
    assert_eq!(s.board.0[4][4], 0x8000);
    s.note(Some(0));
    assert_eq!(s.cmd, "Invalid usage: <note>note");
    s.cmd.clear();
    s.note(Some(10));
    assert_eq!(s.cmd, "Invalid usage: <note>note");
    s.cmd.clear();
    s.note(None);
    assert!(matches!(s.mode, Mode::Note));
    s.board.0[1][1] = 7;
    s.row = 1;
    s.col = 1;
    s.note(Some(2));
    assert_eq!(s.cmd, "Err: Cell is already filled with a number");
    assert_eq!(s.board.0[1][1], 7);
    s.cmd.clear();
    s.mark();
    s.row = 8;
    s.col = 8;
    s.mark();
    s.row = 0;
    s.col = 0;
    s.note(Some(9));
    assert_eq!(s.cmd, "");
    assert_eq!(s.board.0[0][0], 0x8000 | (1 << 8));
    assert_eq!(s.board.0[8][8], 0x8000 | (1 << 8));
    assert_eq!(s.board.0[1][1], 7);
    s.undo();
    assert_eq!(s.board.0[0][0], 0);
    assert_eq!(s.board.0[8][8], 0);
    // Nothing to log: the one marked cell holds a digit, and the cursor is on it.
    s.row = 8;
    s.col = 8;
    s.mark();
    s.row = 1;
    s.col = 1;
    let before = s.board;
    s.note(Some(1));
    assert!(s.board == before);
    assert_eq!(s.cmd, "");
    // So the edit that undo takes back is the second flip under the first cursor.
    s.undo();
    assert_eq!(s.board.0[4][4], 0x8000 | (1 << 2));
}

#[test]
fn set_changes_an_option() {
    let mut s = Sudoku::new(false);
    let mut opts = Opts::default();
    s.set("candidate-elimination=true", &mut opts);
    assert!(opts.auto_candidate_elimination);
    s.set(" check-input =false", &mut opts);
    assert!(!opts.check_input);
    s.set("check-input= true", &mut opts);
    assert!(!opts.check_input);
    s.set("highlight-square=true", &mut opts);
    assert!(opts.highlight_square_instead_of_note);
    s.set("highlight-square=false", &mut opts);
    assert!(!opts.highlight_square_instead_of_note);
    s.set("candidate-elimination=no", &mut opts);
    s.set("candidate-elimination", &mut opts);
    s.set("fill=false", &mut opts);
    s.set("candidate-elimination=false=", &mut opts);
    assert!(opts.auto_candidate_elimination);
    assert!(!opts.auto_fill_candidates);
}

#[test]
fn import_text_takes_a_board() {
    let mut s = Sudoku::new(false);
    let opts = Opts::default();
    s.import_text("12x", &opts);
    assert_eq!(s.cmd, "Invalid sudoku");
    assert!(s.board == SudokuBoard([[0; 9]; 9]));
    s.cmd.clear();
    s.import_text("11", &opts);
    assert_eq!(s.cmd, "Board has no solution.");
    assert!(s.board == SudokuBoard([[0; 9]; 9]));
    s.cmd.clear();
    s.import_text("1", &opts);
    assert_eq!(s.cmd, "Note: Sudoku has multiple solutions.");
    assert_eq!(s.board.0[0][0], 1);
    assert!(s.only_solution.is_none());
    s.cmd.clear();
    s.import_text(PUZZLE, &opts);
    assert_eq!(s.cmd, "");
    assert!(s.only_solution == Some(solved()));
    assert_eq!(s.board.to_string(), PUZZLE);
    let filling = Opts { auto_fill_candidates: true, ..opts };
    s.import_text(PUZZLE, &filling);
    assert_eq!(s.board.0[0][0], 5);
    assert_eq!(s.board.0[4][4], 0x8000 | (1 << 4));
    s.import_text("11", &filling);
    assert_eq!(s.cmd, "Board has no solution.");
    assert_eq!(s.board.0[4][4], 0x8000 | (1 << 4));
}

#[test]
fn import_clipboard_reports_a_clipboard_without_text() {
    let mut s = Sudoku::new(false);
    let opts = Opts::default();
    s.import_clipboard(&Clipboard::Closed, &opts);
    assert_eq!(s.cmd, "Couldn't open clipboard.");
    s.import_clipboard(&Clipboard::Failed("no text there".to_string()), &opts);
    assert_eq!(s.cmd, "no text there");
    s.import_clipboard(&Clipboard::Text(SOLVED.to_string()), &opts);
    assert!(s.board == solved());
    let mut opts = opts;
    s.board = SudokuBoard([[0; 9]; 9]);
    s.process_cmd("import", &mut opts, &Clipboard::Text(PUZZLE.to_string()));
    assert_eq!(s.board.to_string(), PUZZLE);
}

#[test]
fn process_cmd_reads_count_name_and_arguments() {
    let mut s = Sudoku::new(false);
    let mut opts = Opts { check_input: false, ..Opts::default() };
    run(&mut s, &mut opts, "  3move   left  ");
    assert_eq!((s.row, s.col), (4, 1));
    run(&mut s, &mut opts, "mov r");
    assert_eq!((s.row, s.col), (4, 2));
    run(&mut s, &mut opts, "0mov d");
    assert_eq!((s.row, s.col), (5, 2));
    run(&mut s, &mut opts, "7i");
    assert_eq!(s.board.0[5][2], 7);
    run(&mut s, &mut opts, "11g");
    assert_eq!((s.row, s.col), (0, 0));
    run(&mut s, &mut opts, "4note");
    assert_eq!(s.board.0[0][0], 0x8000 | (1 << 3));
    run(&mut s, &mut opts, "undo");
    assert_eq!(s.board.0[0][0], 0);
    run(&mut s, &mut opts, "redo");
    assert_eq!(s.board.0[0][0], 0x8000 | (1 << 3));
    run(&mut s, &mut opts, "mark");
    assert!(s.selected.get(0, 0));
    run(&mut s, &mut opts, "6highlight");
    assert!(matches!(s.mode, Mode::Highlight(6)));
    run(&mut s, &mut opts, "highlight");
    assert!(matches!(s.mode, Mode::Highlight(0)));
    run(&mut s, &mut opts, "mode   visual ");
    assert_eq!(mode_name(&s), "visual");
    run(&mut s, &mut opts, "se check-input=true");
    assert!(opts.check_input);
    run(&mut s, &mut opts, "set candidate-elimination=true");
    assert!(opts.auto_candidate_elimination);
    run(&mut s, &mut opts, "fill");
    assert_eq!(s.board.0[5][2], 7);
    assert_eq!(s.board.0[5][3], ALL_NOTES & !(1 << 6));
    assert_eq!(s.board.0[0][8], ALL_NOTES);
    run(&mut s, &mut opts, "undo");
    assert_eq!(s.board.0[5][3], 0);
    assert_eq!(s.cmd, "");
    run(&mut s, &mut opts, "banana split");
    assert_eq!(s.cmd, "Invalid command: banana");
    run(&mut s, &mut opts, "");
    assert_eq!(s.cmd, "Invalid command: ");
    // A line of digits only keeps them as its name.
    run(&mut s, &mut opts, "12");
    assert_eq!(s.cmd, "Invalid command: 12");
    // A digit that would take the count beyond 255 is passed over: 2, 25, 25, 255.
    run(&mut s, &mut opts, "2595highlight");
    assert!(matches!(s.mode, Mode::Highlight(255)));
    run(&mut s, &mut opts, "300highlight");
    assert!(matches!(s.mode, Mode::Highlight(30)));
}

#[test]
fn process_cmd_leaves_command_mode() {
    let mut s = Sudoku::new(false);
    let mut opts = Opts::default();
    s.mode = Mode::Command;
    run(&mut s, &mut opts, "mov u");
    assert!(matches!(s.mode, Mode::Normal));
    s.mode = Mode::Command;
    run(&mut s, &mut opts, "insert");
    assert!(matches!(s.mode, Mode::Insert));
    run(&mut s, &mut opts, "mov u");
    assert!(matches!(s.mode, Mode::Insert));
}

#[test]
fn keys_run_their_bindings() {
    let mut s = Sudoku::new(false);
    let keymaps = default_keymaps();
    let mut opts = Opts { check_input: false, ..Opts::default() };
    type_all(&mut s, &keymaps, &mut opts, "3h");
    assert_eq!((s.row, s.col), (4, 1));
    assert_eq!(s.repeat, 0);
    assert_eq!(s.curr_keybind, "");
    type_all(&mut s, &keymaps, &mut opts, "j");
    assert_eq!((s.row, s.col), (5, 1));
    type_all(&mut s, &keymaps, &mut opts, "z");
    assert_eq!(s.curr_keybind, "");
    type_all(&mut s, &keymaps, &mut opts, "i7");
    assert!(matches!(s.mode, Mode::Insert));
    assert_eq!(s.board.0[5][1], 7);
    type_all(&mut s, &keymaps, &mut opts, "l");
    assert_eq!((s.row, s.col), (5, 2));
    assert!(!s.update(&quiet(), &keymaps, &mut opts, &Clipboard::Closed));
    let escape = Input { escape_down: true, ch: Some('x'), ..quiet() };
    assert!(!s.update(&escape, &keymaps, &mut opts, &Clipboard::Closed));
    assert!(matches!(s.mode, Mode::Normal));
    type_all(&mut s, &keymaps, &mut opts, "v");
    assert_eq!(mode_name(&s), "visual");
    type_all(&mut s, &keymaps, &mut opts, "2l");
    assert_eq!((s.row, s.col), (5, 4));
    assert!(s.selected.get(5, 2));
    assert!(s.selected.get(5, 3));
    assert!(!s.selected.get(5, 4));
    type_all(&mut s, &keymaps, &mut opts, "n4");
    assert!(matches!(s.mode, Mode::Note));
    assert_eq!(s.board.0[5][2], 0x8000 | (1 << 3));
    assert_eq!(s.board.0[5][3], 0x8000 | (1 << 3));
    assert_eq!(s.board.0[5][4], 0x8000 | (1 << 3));
    assert!(!s.update(&escape, &keymaps, &mut opts, &Clipboard::Closed));
    assert!(!s.selected.get(5, 2));
}

#[test]
fn longer_bindings_wait_for_their_keys() {
    let mut s = Sudoku::new(false);
    let mut keymaps = Keymaps::new();
    keymaps.insert("normal".to_string(), "gg".to_string(), "11go".to_string());
    keymaps.insert("normal".to_string(), "é".to_string(), "mov u".to_string());
    let mut opts = Opts::default();
    type_all(&mut s, &keymaps, &mut opts, "5g");
    assert_eq!(s.curr_keybind, "g");
    assert_eq!(s.repeat, 5);
    assert!(s.matching_keymap_exists(&keymaps));
    assert!(!s.try_keybind(&keymaps, &mut opts, &Clipboard::Closed));
    assert_eq!(s.curr_keybind, "g");
    type_all(&mut s, &keymaps, &mut opts, "g");
    // The count goes in front of the action: 511go, whose count stops at 51.
    assert_eq!((s.row, s.col), (4, 0));
    assert_eq!(s.cmd, "");
    assert_eq!(s.curr_keybind, "");
    assert_eq!(s.repeat, 0);
    type_all(&mut s, &keymaps, &mut opts, "gg");
    assert_eq!((s.row, s.col), (0, 0));
    type_all(&mut s, &keymaps, &mut opts, "gx");
    assert_eq!(s.curr_keybind, "");
    s.row = 3;
    type_all(&mut s, &keymaps, &mut opts, "é");
    assert_eq!(s.row, 2);
    type_all(&mut s, &keymaps, &mut opts, "99999");
    assert_eq!(s.repeat, 255);
}

#[test]
fn go_mode_takes_two_digits() {
    let mut s = Sudoku::new(false);
    let keymaps = default_keymaps();
    let mut opts = Opts::default();
    type_all(&mut s, &keymaps, &mut opts, "g");
    assert!(matches!(s.mode, Mode::Go(0)));
    type_all(&mut s, &keymaps, &mut opts, "0");
    assert!(matches!(s.mode, Mode::Go(0)));
    type_all(&mut s, &keymaps, &mut opts, "3");
    assert!(matches!(s.mode, Mode::Go(3)));
    // The second digit goes with the cursor's row, counted from 0, in front of it.
    type_all(&mut s, &keymaps, &mut opts, "7");
    assert_eq!((s.row, s.col), (3, 6));
    type_all(&mut s, &keymaps, &mut opts, " ");
    assert!(s.selected.get(3, 6));
    s.row = 0;
    type_all(&mut s, &keymaps, &mut opts, "7");
    assert_eq!(s.cmd, "Invalid usage: <y><x>go");
}

#[test]
fn highlight_mode_takes_a_digit() {
    let mut s = Sudoku::new(false);
    let keymaps = default_keymaps();
    let mut opts = Opts::default();
    s.highlight(None);
    type_all(&mut s, &keymaps, &mut opts, "8");
    assert!(matches!(s.mode, Mode::Highlight(8)));
    type_all(&mut s, &keymaps, &mut opts, "0");
    assert!(matches!(s.mode, Mode::Highlight(0)));
}

#[test]
fn command_line_edits_and_runs() {
    let mut s = Sudoku::new(false);
    let keymaps = default_keymaps();
    let mut opts = Opts::default();
    let clip = Clipboard::Closed;
    s.cmd = "old".to_string();
    type_all(&mut s, &keymaps, &mut opts, ":");
    assert!(matches!(s.mode, Mode::Command));
    assert_eq!(s.cmd, "");
    type_all(&mut s, &keymaps, &mut opts, "mov löx");
    assert_eq!(s.cmd, "mov lx");
    // A character with no key pressed stays where it is.
    let stray = Input { ch: Some('y'), ..quiet() };
    assert!(!s.update(&stray, &keymaps, &mut opts, &clip));
    assert_eq!(s.cmd, "mov lx");
    assert!(!s.update(&key(Key::Backspace), &keymaps, &mut opts, &clip));
    assert_eq!(s.cmd, "mov l");
    let word = Input { ctrl_down: true, ..key(Key::Backspace) };
    assert!(!s.update(&word, &keymaps, &mut opts, &clip));
    assert_eq!(s.cmd, "mov");
    assert!(!s.update(&word, &keymaps, &mut opts, &clip));
    assert_eq!(s.cmd, "");
    assert!(!s.update(&word, &keymaps, &mut opts, &clip));
    assert!(!s.update(&key(Key::Backspace), &keymaps, &mut opts, &clip));
    assert_eq!(s.cmd, "");
    type_all(&mut s, &keymaps, &mut opts, "a_b'c d");
    assert!(!s.update(&word, &keymaps, &mut opts, &clip));
    assert_eq!(s.cmd, "a_b'c");
    assert!(!s.update(&word, &keymaps, &mut opts, &clip));
    assert_eq!(s.cmd, "a_b");
    assert!(!s.update(&word, &keymaps, &mut opts, &clip));
    assert_eq!(s.cmd, "a");
    assert!(!s.update(&word, &keymaps, &mut opts, &clip));
    type_all(&mut s, &keymaps, &mut opts, "2mov d");
    let enter = Input { ch: Some('q'), ..key(Key::Enter) };
    assert!(!s.update(&enter, &keymaps, &mut opts, &clip));
    assert_eq!((s.row, s.col), (6, 4));
    assert!(matches!(s.mode, Mode::Normal));
    assert_eq!(s.cmd, "2mov d");
}
