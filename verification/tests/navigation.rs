use sucocku::frame::split::SplitDirection;
use sucocku::frame::tab::{cycle, Tab};
use sucocku::geometry::Rect;

/// Four windows in a 2 by 2 grid over 800 by 600, gap 2:
/// ordinal 0 top left, 1 bottom left, 2 top right, 3 bottom right.
fn grid() -> Tab {
    let mut tab = Tab::new("grid".to_string(), 0);
    tab.split(SplitDirection::Horizontal);
    tab.split(SplitDirection::Vertical);
    tab.selected = 2;
    tab.split(SplitDirection::Vertical);
    tab.selected = 0;
    tab.resize(Rect::new(0, 0, 800, 600), 2);
    tab
}

#[test]
fn grid_rects_are_as_expected() {
    let tab = grid();
    assert_eq!(tab.windows, 4);
    assert_eq!(tab.inner.idx(0).unwrap().dimensions, Rect::new(1, 1, 398, 298));
    assert_eq!(tab.inner.idx(1).unwrap().dimensions, Rect::new(1, 301, 398, 298));
    assert_eq!(tab.inner.idx(2).unwrap().dimensions, Rect::new(401, 1, 398, 298));
    assert_eq!(tab.inner.idx(3).unwrap().dimensions, Rect::new(401, 301, 398, 298));
}

#[test]
fn move_right_at_the_right_edge_keeps_selection() {
    let mut tab = grid();
    tab.selected = 2;
    tab.move_right(2);
    assert_eq!(tab.selected, 2);
    tab.selected = 3;
    tab.move_right(2);
    assert_eq!(tab.selected, 3);
}

#[test]
fn moves_select_the_neighbour() {
    let mut tab = grid();
    tab.move_right(2);
    assert_eq!(tab.selected, 2);
    tab.move_down(2);
    assert_eq!(tab.selected, 3);
    tab.move_left(2);
    assert_eq!(tab.selected, 1);
    tab.move_up(2);
    assert_eq!(tab.selected, 0);
    tab.move_up(2);
    assert_eq!(tab.selected, 0);
    tab.move_left(2);
    assert_eq!(tab.selected, 0);
    tab.selected = 1;
    tab.move_down(2);
    assert_eq!(tab.selected, 1);
}

#[test]
fn probe_lands_beyond_the_gap() {
    // From (1, 1, 398, 298) a move right probes x = 1 + 398 + 2 * gap + 4.
    let mut tab = grid();
    tab.move_right(0);
    assert_eq!(tab.selected, 2);
    tab.selected = 0;
    // 1 + 398 + 2 * 197 + 4 = 797: the last column but one of the right window.
    tab.move_right(197);
    assert_eq!(tab.selected, 2);
    tab.selected = 0;
    // One more and the probe, at 799, leaves every window.
    tab.move_right(198);
    assert_eq!(tab.selected, 0);
    // A negative gap pulls the probe back into the window itself.
    tab.move_right(-10);
    assert_eq!(tab.selected, 0);
    tab.selected = 3;
    // 301 - 2 * 148 - 4 = 1: the first row of the window above.
    tab.move_up(148);
    assert_eq!(tab.selected, 2);
    tab.selected = 3;
    tab.move_up(149);
    assert_eq!(tab.selected, 3);
}

#[test]
fn first_window_in_order_wins() {
    // Two windows that were never laid out share the rectangle of the one they came from.
    let mut tab = Tab::new("t".to_string(), 0);
    tab.resize(Rect::new(0, 0, 100, 100), 0);
    tab.split(SplitDirection::Horizontal);
    tab.selected = 1;
    // The probe of a move up from (0, 0, 100, 100) with gap -3 is (2, 2).
    tab.move_up(-3);
    assert_eq!(tab.selected, 0);
}

#[test]
fn switch_buffer_wraps_both_ways() {
    let mut tab = Tab::new("t".to_string(), 1);
    tab.switch_buffer(1, 2);
    assert_eq!(tab.inner.idx(0).unwrap().buffer_index, 0);
    tab.switch_buffer(-1, 2);
    assert_eq!(tab.inner.idx(0).unwrap().buffer_index, 1);
    tab.switch_buffer(-4, 3);
    assert_eq!(tab.inner.idx(0).unwrap().buffer_index, 0);
    tab.switch_buffer(7, 3);
    assert_eq!(tab.inner.idx(0).unwrap().buffer_index, 1);
    assert_eq!(cycle(0, -1, 3), 2);
    assert_eq!(cycle(2, 1, 3), 0);
    assert_eq!(cycle(1, i32::MIN, 5), 3);
    assert_eq!(cycle(usize::MAX, i32::MAX, 7), ((usize::MAX as u128 + i32::MAX as u128) % 7) as usize);
}

#[test]
fn switch_content_touches_the_selected_window_only() {
    let mut tab = Tab::new("t".to_string(), 0);
    tab.split(SplitDirection::Vertical);
    tab.switch_buffer(1, 2);
    assert_eq!(tab.selected, 0);
    assert_eq!(tab.inner.idx(0).unwrap().buffer_index, 1);
    assert_eq!(tab.inner.idx(1).unwrap().buffer_index, 0);
}
