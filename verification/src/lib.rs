//! A tiling pane layout for a multi-board sudoku editor.
//!
//! The `frame` module holds the layout engine: a binary split tree of
//! windows, tabs that own one tree each, and the frame that owns the tabs
//! and the buffers the windows show. The `sudoku` module holds what a
//! buffer shows: a board with its solver, its undo history and the modal
//! editor that works on it. `geometry` holds the integer rectangles of the
//! layout, `input` what the keyboard and the clipboard report for one tick,
//! `settings` the options, sizes and key bindings, and `text` the string
//! operations that the command line needs.
//!
//! Nothing here draws or reads a device: a program around the library
//! hands it the size of the output area and the input of each tick, and
//! draws what the frame then holds.
pub mod frame;
pub mod geometry;
pub mod input;
pub mod settings;
pub mod sudoku;
pub mod text;
