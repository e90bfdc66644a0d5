use sucocku::frame::split::{Split, SplitDirection};
use sucocku::frame::{make_tab_name, Command, Frame, Mode};
use sucocku::geometry::Rect;
use sucocku::input::{Clipboard, Input, Key};
use sucocku::settings::opts::Opts;
use sucocku::settings::{default_keymaps, Metrics, Settings};

fn metrics() -> Metrics {
    Metrics { outer_gaps: 4, window_gaps: 2, tabline_size: 34, cmd_size: 44 }
}

fn settings() -> Settings {
    Settings { opts: Opts::default(), metrics: metrics(), keymaps: default_keymaps() }
}

fn frame() -> Frame {
    let mut frame = Frame::new(settings());
    frame.set_size(800, 600);
    frame
}

fn shown(frame: &Frame, tab: usize) -> Vec<usize> {
    let mut out = Vec::new();
    let mut walk = frame.tabs[tab].inner.iter();
    while let Some(window) = walk.next() {
        out.push(window.buffer_index);
    }
    out
}

fn quiet() -> Input {
    Input { escape_down: false, ctrl_down: false, shift_down: false, last_key: None, ch: None }
}

fn typed(ch: char) -> Input {
    Input { ch: Some(ch), last_key: Some(Key::Other), ..quiet() }
}

fn with_ctrl(ch: char) -> Input {
    Input { ctrl_down: true, ..typed(ch) }
}

#[test]
fn new_frame_has_one_tab_window_and_buffer() {
    let frame = Frame::new(settings());
    assert_eq!(frame.tabs.len(), 1);
    assert_eq!(frame.tabs[0].name, "Tab #1");
    assert_eq!(frame.tabs[0].windows, 1);
    assert_eq!(frame.tabs[0].selected, 0);
    assert_eq!(frame.curr_tab, 0);
    assert_eq!(frame.buffers.len(), 1);
    assert_eq!(frame.mode, Mode::Normal);
    assert_eq!(frame.tabn, 1);
    assert_eq!(frame.size, (0, 0));
    assert_eq!(shown(&frame, 0), vec![0]);
    assert_eq!(frame.tabs[0].inner.idx(0).unwrap().dimensions, Rect::new(0, 0, 0, 0));
}

#[test]
fn new_settings_are_the_defaults() {
    let settings = Settings::new();
    assert_eq!(settings.opts, Opts::default());
    assert!(settings.opts.check_input);
    assert!(!settings.opts.auto_fill_candidates);
    assert_eq!(settings.metrics, Metrics::default());
    assert_eq!(settings.metrics, Metrics { outer_gaps: 4, window_gaps: 4, tabline_size: 34, cmd_size: 44 });
    assert!(settings.keymaps.entries.is_empty());
}

#[test]
fn resize_leaves_room_for_margins_and_bars() {
    let frame = frame();
    // x = 4, y = 4 + 34, w = 800 - 8, h = 600 - 8 - 34 - 44, drawn in by half the gap of 2.
    assert_eq!(frame.tabs[0].inner.idx(0).unwrap().dimensions, Rect::new(5, 39, 790, 512));
    assert_eq!(frame.size, (800, 600));
}

#[test]
fn set_size_lays_out_only_on_change() {
    let mut frame = frame();
    frame.tabs[0].inner.idx_mut(0).unwrap().dimensions = Rect::new(1, 2, 3, 4);
    frame.set_size(800, 600);
    assert_eq!(frame.tabs[0].inner.idx(0).unwrap().dimensions, Rect::new(1, 2, 3, 4));
    frame.set_size(400, 300);
    assert_eq!(frame.tabs[0].inner.idx(0).unwrap().dimensions, Rect::new(5, 39, 390, 212));
    frame.set_size(2, 2);
    assert_eq!(frame.tabs[0].inner.idx(0).unwrap().dimensions, Rect::new(5, 39, -8, -86));
}

#[test]
fn switch_tab_is_cyclic() {
    let mut frame = frame();
    frame.new_tab();
    frame.new_tab();
    assert_eq!(frame.tabs.len(), 3);
    assert_eq!(frame.curr_tab, 2);
    frame.switch_tab(1);
    assert_eq!(frame.curr_tab, 0);
    frame.switch_tab(-1);
    assert_eq!(frame.curr_tab, 2);
    frame.switch_tab(-2);
    assert_eq!(frame.curr_tab, 0);
    frame.switch_tab(7);
    assert_eq!(frame.curr_tab, 1);
}

#[test]
fn new_tab_gets_a_name_a_buffer_and_a_layout() {
    let mut frame = frame();
    frame.new_tab();
    assert_eq!(frame.tabs[1].name, "Tab #2");
    assert_eq!(frame.tabn, 2);
    assert_eq!(frame.curr_tab, 1);
    assert_eq!(frame.buffers.len(), 2);
    assert_eq!(shown(&frame, 1), vec![1]);
    assert_eq!(shown(&frame, 0), vec![0]);
    assert_eq!(frame.tabs[1].inner.idx(0).unwrap().dimensions, Rect::new(5, 39, 790, 512));
    frame.close_tab();
    frame.new_tab();
    assert_eq!(frame.tabs[1].name, "Tab #3");
    assert_eq!(make_tab_name(0), "Tab #0");
    assert_eq!(make_tab_name(10), "Tab #10");
    assert_eq!(make_tab_name(4095), "Tab #4095");
}

#[test]
fn close_tab_keeps_the_last_tab() {
    let mut frame = frame();
    frame.close_tab();
    assert_eq!(frame.tabs.len(), 1);
    assert_eq!(frame.curr_tab, 0);
    frame.new_tab();
    frame.new_tab();
    frame.switch_tab(-1);
    assert_eq!(frame.curr_tab, 1);
    frame.close_tab();
    assert_eq!(frame.tabs.len(), 2);
    assert_eq!(frame.curr_tab, 1);
    assert_eq!(frame.tabs[1].name, "Tab #3");
    frame.close_tab();
    assert_eq!(frame.tabs.len(), 1);
    assert_eq!(frame.curr_tab, 0);
    assert_eq!(frame.tabs[0].name, "Tab #1");
}

#[test]
fn split_and_kill_lay_the_tab_out() {
    let mut frame = frame();
    frame.split(SplitDirection::Horizontal);
    assert_eq!(frame.tabs[0].windows, 2);
    assert_eq!(frame.tabs[0].inner.idx(0).unwrap().dimensions, Rect::new(5, 39, 394, 512));
    assert_eq!(frame.tabs[0].inner.idx(1).unwrap().dimensions, Rect::new(401, 39, 394, 512));
    frame.kill_pane();
    assert_eq!(frame.tabs[0].windows, 1);
    assert_eq!(frame.tabs[0].inner.idx(0).unwrap().dimensions, Rect::new(5, 39, 790, 512));
    frame.kill_pane();
    assert_eq!(frame.tabs[0].windows, 1);
}

#[test]
fn new_buffer_redirects_the_selected_window_only() {
    let mut frame = frame();
    frame.split(SplitDirection::Vertical);
    frame.new_buffer();
    assert_eq!(frame.buffers.len(), 2);
    assert_eq!(shown(&frame, 0), vec![1, 0]);
}

#[test]
fn switch_buffer_cycles_through_the_buffers() {
    let mut frame = frame();
    frame.new_buffer();
    frame.new_buffer();
    assert_eq!(shown(&frame, 0), vec![2]);
    frame.switch_buffer(1);
    assert_eq!(shown(&frame, 0), vec![0]);
    frame.switch_buffer(-1);
    assert_eq!(shown(&frame, 0), vec![2]);
}

#[test]
fn kill_buffer_fixes_every_index_in_every_tab() {
    let mut frame = frame();
    frame.split(SplitDirection::Horizontal);
    frame.new_buffer();
    frame.new_tab();
    frame.split(SplitDirection::Vertical);
    frame.new_buffer();
    // Tab 0 shows buffers 1 and 0, tab 1 shows 3 and 2.
    assert_eq!(shown(&frame, 0), vec![1, 0]);
    assert_eq!(shown(&frame, 1), vec![3, 2]);
    frame.switch_tab(1);
    frame.buffers[1].data.row = 7;
    frame.buffers[2].data.row = 8;
    frame.kill_buffer();
    assert_eq!(frame.buffers.len(), 3);
    assert_eq!(frame.buffers[1].data.row, 8);
    assert_eq!(shown(&frame, 0), vec![0, 0]);
    assert_eq!(shown(&frame, 1), vec![2, 1]);
    for tab in 0..frame.tabs.len() {
        for index in shown(&frame, tab) {
            assert!(index < frame.buffers.len());
        }
    }
    frame.kill_buffer();
    frame.kill_buffer();
    assert_eq!(frame.buffers.len(), 1);
    assert_eq!(shown(&frame, 0), vec![0, 0]);
    assert_eq!(shown(&frame, 1), vec![0, 0]);
    frame.kill_buffer();
    assert_eq!(frame.buffers.len(), 1);
}

#[test]
fn control_keys_act_on_the_frame() {
    let mut frame = frame();
    let clip = Clipboard::Closed;
    assert!(frame.update(800, 600, &with_ctrl('-'), &clip));
    assert_eq!(frame.tabs[0].windows, 2);
    assert!(matches!(&frame.tabs[0].inner, Split::Split(_, _, _, SplitDirection::Horizontal)));
    assert!(frame.update(800, 600, &with_ctrl('l'), &clip));
    assert_eq!(frame.tabs[0].selected, 1);
    assert!(frame.update(800, 600, &with_ctrl('\\'), &clip));
    assert_eq!(frame.tabs[0].windows, 3);
    assert!(frame.update(800, 600, &with_ctrl('j'), &clip));
    assert_eq!(frame.tabs[0].selected, 2);
    assert!(frame.update(800, 600, &with_ctrl('k'), &clip));
    assert_eq!(frame.tabs[0].selected, 1);
    assert!(frame.update(800, 600, &with_ctrl('h'), &clip));
    assert_eq!(frame.tabs[0].selected, 0);
    assert!(frame.update(800, 600, &with_ctrl('x'), &clip));
    assert_eq!(frame.tabs[0].windows, 2);
    assert!(frame.update(800, 600, &with_ctrl('t'), &clip));
    assert_eq!(frame.tabs.len(), 2);
    assert_eq!(frame.curr_tab, 1);
    let tab_key = Input { ctrl_down: true, last_key: Some(Key::Tab), ..quiet() };
    assert!(!frame.update(800, 600, &tab_key, &clip));
    assert_eq!(frame.curr_tab, 0);
    let back = Input { shift_down: true, ..tab_key };
    assert!(!frame.update(800, 600, &back, &clip));
    assert_eq!(frame.curr_tab, 1);
    assert!(frame.update(800, 600, &with_ctrl('w'), &clip));
    assert_eq!(frame.tabs.len(), 1);
    assert!(frame.update(800, 600, &with_ctrl('z'), &clip));
    assert_eq!(frame.tabs.len(), 1);
    assert!(frame.update(800, 600, &with_ctrl('b'), &clip));
    assert_eq!(frame.mode, Mode::Buffer);
}

#[test]
fn buffer_mode_picks_a_buffer_command() {
    let mut frame = frame();
    let clip = Clipboard::Closed;
    frame.buffer_mode();
    assert!(frame.update(800, 600, &typed('n'), &clip));
    assert_eq!(frame.buffers.len(), 2);
    assert_eq!(frame.mode, Mode::Normal);
    assert_eq!(shown(&frame, 0), vec![1]);
    frame.buffer_mode();
    assert!(frame.update(800, 600, &typed('l'), &clip));
    assert_eq!(shown(&frame, 0), vec![0]);
    frame.buffer_mode();
    assert!(frame.update(800, 600, &typed('h'), &clip));
    assert_eq!(shown(&frame, 0), vec![1]);
    frame.buffer_mode();
    assert!(frame.update(800, 600, &typed('q'), &clip));
    assert_eq!(frame.mode, Mode::Buffer);
    let tab_key = Input { last_key: Some(Key::Tab), ch: Some('l'), ..quiet() };
    assert!(!frame.update(800, 600, &tab_key, &clip));
    assert_eq!(shown(&frame, 0), vec![0]);
    assert_eq!(frame.mode, Mode::Buffer);
    assert!(frame.update(800, 600, &typed('k'), &clip));
    assert_eq!(frame.buffers.len(), 1);
    assert_eq!(frame.mode, Mode::Normal);
    frame.buffer_mode();
    let escape = Input { last_key: Some(Key::Escape), ..quiet() };
    assert!(!frame.update(800, 600, &escape, &clip));
    assert_eq!(frame.mode, Mode::Normal);
}

#[test]
fn plain_keys_go_to_the_selected_buffer_only() {
    let mut frame = frame();
    let clip = Clipboard::Closed;
    frame.split(SplitDirection::Horizontal);
    frame.new_buffer();
    assert_eq!(shown(&frame, 0), vec![1, 0]);
    assert!(frame.update(800, 600, &typed('h'), &clip));
    assert_eq!(frame.buffers[1].data.col, 3);
    assert_eq!(frame.buffers[0].data.col, 4);
    assert!(!frame.update(800, 600, &quiet(), &clip));
    assert_eq!(frame.buffers[1].data.col, 3);
}

#[test]
fn dispatch_runs_the_named_command() {
    let mut frame = frame();
    frame.dispatch(Command::SplitHorizontal);
    frame.dispatch(Command::MoveRight);
    assert_eq!(frame.tabs[0].selected, 1);
    frame.dispatch(Command::SplitVertical);
    frame.dispatch(Command::MoveDown);
    assert_eq!(frame.tabs[0].selected, 2);
    frame.dispatch(Command::MoveUp);
    assert_eq!(frame.tabs[0].selected, 1);
    frame.dispatch(Command::MoveLeft);
    assert_eq!(frame.tabs[0].selected, 0);
    frame.dispatch(Command::NewBuffer);
    frame.dispatch(Command::NewBuffer);
    assert_eq!(shown(&frame, 0), vec![2, 0, 0]);
    frame.dispatch(Command::SwitchBuffer(-1));
    assert_eq!(shown(&frame, 0), vec![1, 0, 0]);
    frame.dispatch(Command::KillBuffer);
    assert_eq!(frame.buffers.len(), 2);
    assert_eq!(shown(&frame, 0), vec![0, 0, 0]);
    frame.dispatch(Command::KillPane);
    assert_eq!(frame.tabs[0].windows, 2);
    frame.dispatch(Command::NewTab);
    frame.dispatch(Command::NewTab);
    assert_eq!(frame.curr_tab, 2);
    frame.dispatch(Command::NextTab);
    assert_eq!(frame.curr_tab, 0);
    frame.dispatch(Command::PrevTab);
    assert_eq!(frame.curr_tab, 2);
    frame.dispatch(Command::CloseTab);
    assert_eq!(frame.tabs.len(), 2);
    assert_eq!(frame.curr_tab, 1);
}
