use sucocku::frame::split::{Ratio, Split, SplitDirection, SplitError, SplitIterator};
use sucocku::frame::tab::Tab;
use sucocku::frame::window::Window;
use sucocku::geometry::Rect;

fn leaf(buffer_index: usize) -> Split {
    Split::Window(Window::new(Rect::default(), buffer_index))
}

fn pair(first: Split, second: Split, direction: SplitDirection) -> Split {
    Split::Split(Box::new(first), Box::new(second), Ratio::half(), direction)
}

fn buffers(tree: &Split) -> Vec<usize> {
    let mut out = Vec::new();
    let mut walk = tree.iter();
    while let Some(window) = walk.next() {
        out.push(window.buffer_index);
    }
    out
}

fn rects(tree: &Split) -> Vec<Rect> {
    let mut out = Vec::new();
    let mut walk = SplitIterator::new(tree);
    while let Some(window) = walk.next() {
        out.push(window.dimensions);
    }
    out
}

#[test]
fn resize_two_windows_side_by_side() {
    let mut tree = pair(leaf(0), leaf(0), SplitDirection::Horizontal);
    tree.resize(Rect::new(0, 0, 800, 600), 0);
    assert_eq!(tree.idx(0).unwrap().dimensions, Rect::new(0, 0, 400, 600));
    assert_eq!(tree.idx(1).unwrap().dimensions, Rect::new(400, 0, 400, 600));
    assert!(tree.idx(2).is_none());
}

#[test]
fn resize_two_windows_stacked() {
    let mut tree = pair(leaf(0), leaf(1), SplitDirection::Vertical);
    tree.resize(Rect::new(10, 20, 800, 601), 0);
    assert_eq!(rects(&tree), vec![Rect::new(10, 20, 800, 300), Rect::new(10, 320, 800, 301)]);
}

#[test]
fn resize_insets_each_window_by_the_gap() {
    let mut tree = pair(leaf(0), leaf(1), SplitDirection::Horizontal);
    tree.resize(Rect::new(0, 0, 800, 600), 10);
    assert_eq!(rects(&tree), vec![Rect::new(5, 5, 390, 590), Rect::new(405, 5, 390, 590)]);
    let mut one = leaf(0);
    one.resize(Rect::new(0, 0, 100, 50), 7);
    assert_eq!(rects(&one), vec![Rect::new(3, 3, 93, 43)]);
}

#[test]
fn resize_uses_the_ratio() {
    let mut tree = Split::Split(
        Box::new(leaf(0)),
        Box::new(leaf(1)),
        Ratio::new(1, 3).unwrap(),
        SplitDirection::Horizontal,
    );
    tree.resize(Rect::new(0, 0, 100, 10), 0);
    assert_eq!(rects(&tree), vec![Rect::new(0, 0, 33, 10), Rect::new(33, 0, 67, 10)]);
    tree.resize(Rect::new(0, 0, -100, 10), 0);
    assert_eq!(rects(&tree), vec![Rect::new(0, 0, -33, 10), Rect::new(-33, 0, -67, 10)]);
}

#[test]
fn ratio_must_lie_between_zero_and_one() {
    assert!(Ratio::new(0, 2).is_none());
    assert!(Ratio::new(2, 2).is_none());
    assert!(Ratio::new(3, 2).is_none());
    assert!(Ratio::new(1, 0).is_none());
    assert_eq!(Ratio::new(1, 2), Some(Ratio::half()));
    assert_eq!(Ratio::half().apply(7), 3);
    assert_eq!(Ratio::half().apply(-7), -3);
}

#[test]
fn area_smaller_than_gap_gives_negative_size() {
    let mut one = leaf(0);
    one.resize(Rect::new(0, 0, 4, 4), 10);
    assert_eq!(rects(&one), vec![Rect::new(5, 5, -6, -6)]);
    assert!(!one.idx(0).unwrap().dimensions.contains(5, 5));
}

#[test]
fn windows_tile_the_area_without_gap() {
    let mut tree = pair(
        pair(leaf(0), leaf(1), SplitDirection::Vertical),
        pair(leaf(2), pair(leaf(3), leaf(4), SplitDirection::Horizontal), SplitDirection::Vertical),
        SplitDirection::Horizontal,
    );
    let area = Rect::new(3, 5, 801, 599);
    tree.resize(area, 0);
    let all = rects(&tree);
    assert_eq!(all.len(), 5);
    let sum: i64 = all.iter().map(|r| r.w * r.h).sum();
    assert_eq!(sum, 801 * 599);
    for px in [3i128, 4, 200, 403, 404, 803, 2, 804] {
        for py in [5i128, 6, 304, 305, 603, 4, 604] {
            let hits = all.iter().filter(|r| r.contains(px, py)).count();
            let expected = if area.contains(px, py) { 1 } else { 0 };
            assert_eq!(hits, expected, "point {px},{py}");
        }
    }
}

#[test]
fn ordinals_run_first_child_first() {
    let tree = pair(
        pair(leaf(10), leaf(11), SplitDirection::Vertical),
        leaf(12),
        SplitDirection::Horizontal,
    );
    assert_eq!(buffers(&tree), vec![10, 11, 12]);
    assert_eq!(tree.idx(0).unwrap().buffer_index, 10);
    assert_eq!(tree.idx(1).unwrap().buffer_index, 11);
    assert_eq!(tree.idx(2).unwrap().buffer_index, 12);
    assert!(tree.idx(3).is_none());
    let mut again = tree.iter();
    assert_eq!(again.next().unwrap().buffer_index, 10);
    let mut fresh = tree.iter();
    assert_eq!(fresh.next().unwrap().buffer_index, 10);
    assert_eq!(again.next().unwrap().buffer_index, 11);
    assert_eq!(again.next().unwrap().buffer_index, 12);
    assert!(again.next().is_none());
    assert!(again.next().is_none());
}

#[test]
fn idx_mut_writes_one_window() {
    let mut tree = pair(leaf(0), pair(leaf(1), leaf(2), SplitDirection::Vertical), SplitDirection::Horizontal);
    tree.idx_mut(1).unwrap().buffer_index = 7;
    assert_eq!(buffers(&tree), vec![0, 7, 2]);
    assert!(tree.idx_mut(3).is_none());
    assert_eq!(buffers(&tree), vec![0, 7, 2]);
}

#[test]
fn iter_mut_hands_out_every_window_in_order() {
    let mut tree = pair(leaf(0), pair(leaf(1), leaf(2), SplitDirection::Vertical), SplitDirection::Horizontal);
    let mut seen = Vec::new();
    let mut walk = tree.iter_mut();
    while let Some(window) = walk.next() {
        seen.push(window.buffer_index);
        window.buffer_index += 10;
        window.dimensions = Rect::new(seen.len() as i64, 0, 1, 1);
    }
    assert_eq!(seen, vec![0, 1, 2]);
    assert_eq!(buffers(&tree), vec![10, 11, 12]);
    assert_eq!(rects(&tree)[2], Rect::new(3, 0, 1, 1));
    let mut one = leaf(5);
    let mut walk = sucocku::frame::split::SplitIteratorMut::new(&mut one);
    walk.next().unwrap().buffer_index = 6;
    assert!(walk.next().is_none());
    assert_eq!(buffers(&one), vec![6]);
}

#[test]
fn split_doubles_the_window() {
    let mut tree = pair(leaf(4), leaf(5), SplitDirection::Horizontal);
    tree.resize(Rect::new(0, 0, 100, 100), 0);
    assert_eq!(tree.split(1, SplitDirection::Vertical), Ok(()));
    assert_eq!(buffers(&tree), vec![4, 5, 5]);
    assert_eq!(rects(&tree)[1], Rect::new(50, 0, 50, 100));
    assert_eq!(rects(&tree)[2], Rect::new(50, 0, 50, 100));
    match &tree {
        Split::Split(_, second, _, _) => match &**second {
            Split::Split(_, _, ratio, direction) => {
                assert_eq!(*ratio, Ratio::half());
                assert_eq!(*direction, SplitDirection::Vertical);
            }
            Split::Window(_) => panic!("the second window was not divided"),
        },
        Split::Window(_) => panic!("the tree lost its root"),
    }
}

#[test]
fn split_refuses_an_ordinal_without_window() {
    let mut tree = pair(leaf(4), leaf(5), SplitDirection::Horizontal);
    assert_eq!(tree.split(2, SplitDirection::Vertical), Err(SplitError::InvalidTarget));
    assert_eq!(buffers(&tree), vec![4, 5]);
}

#[test]
fn kill_promotes_the_sibling() {
    let mut tree = pair(
        leaf(0),
        pair(leaf(1), pair(leaf(2), leaf(3), SplitDirection::Horizontal), SplitDirection::Vertical),
        SplitDirection::Horizontal,
    );
    assert!(tree.kill_pane(1));
    assert_eq!(buffers(&tree), vec![0, 2, 3]);
    match &tree {
        Split::Split(_, second, _, direction) => {
            assert_eq!(*direction, SplitDirection::Horizontal);
            match &**second {
                Split::Split(_, _, _, inner) => assert_eq!(*inner, SplitDirection::Horizontal),
                Split::Window(_) => panic!("the sibling lost its structure"),
            }
        }
        Split::Window(_) => panic!("too much was removed"),
    }
    assert!(tree.kill_pane(0));
    assert_eq!(buffers(&tree), vec![2, 3]);
    assert!(!tree.kill_pane(2));
    assert_eq!(buffers(&tree), vec![2, 3]);
    assert!(tree.kill_pane(1));
    assert_eq!(buffers(&tree), vec![2]);
    assert!(!tree.kill_pane(0));
    assert_eq!(buffers(&tree), vec![2]);
}

#[test]
fn kill_on_single_window_tab_changes_nothing() {
    let mut tab = Tab::new("Tab #1".to_string(), 0);
    tab.resize(Rect::new(0, 0, 800, 600), 4);
    tab.kill_pane();
    assert_eq!(tab.windows, 1);
    assert_eq!(tab.selected, 0);
    assert!(matches!(tab.inner, Split::Window(_)));
    assert_eq!(tab.inner.idx(0).unwrap().dimensions, Rect::new(2, 2, 796, 596));
}

#[test]
fn split_then_kill_restores_the_window() {
    let mut tab = Tab::new("Tab #1".to_string(), 3);
    tab.resize(Rect::new(0, 0, 800, 600), 0);
    tab.split(SplitDirection::Horizontal);
    assert_eq!(tab.windows, 2);
    assert_eq!(tab.selected, 0);
    tab.kill_pane();
    assert_eq!(tab.windows, 1);
    assert_eq!(tab.selected, 0);
    match &tab.inner {
        Split::Window(window) => {
            assert_eq!(window.dimensions, Rect::new(0, 0, 800, 600));
            assert_eq!(window.buffer_index, 3);
        }
        Split::Split(..) => panic!("the split is still there"),
    }
}

#[test]
fn window_count_follows_splits_and_kills() {
    let mut tab = Tab::new("t".to_string(), 0);
    let mut splits = 0;
    let mut kills = 0;
    let plan = [true, true, false, true, false, false, false, false, true, true, true, false];
    for (step, split) in plan.iter().enumerate() {
        if *split {
            let direction =
                if step % 2 == 0 { SplitDirection::Horizontal } else { SplitDirection::Vertical };
            tab.split(direction);
            splits += 1;
        } else {
            if tab.windows > 1 {
                kills += 1;
            }
            tab.kill_pane();
        }
        assert_eq!(tab.windows, 1 + splits - kills);
        assert!(tab.selected < tab.windows);
        assert_eq!(buffers(&tab.inner).len(), tab.windows);
    }
    assert_eq!(tab.windows, 3);
}

#[test]
fn kill_of_last_window_moves_selection_back() {
    let mut tab = Tab::new("t".to_string(), 0);
    tab.split(SplitDirection::Horizontal);
    tab.split(SplitDirection::Vertical);
    tab.selected = 2;
    tab.kill_pane();
    assert_eq!(tab.windows, 2);
    assert_eq!(tab.selected, 1);
    tab.selected = 0;
    tab.kill_pane();
    assert_eq!(tab.windows, 1);
    assert_eq!(tab.selected, 0);
}

#[test]
fn tree_outline_lists_every_node() {
    let tree = pair(leaf(0), pair(leaf(1), leaf(2), SplitDirection::Vertical), SplitDirection::Horizontal);
    assert_eq!(tree.to_string(), "Split H\n  Window\n  Split V\n    Window\n    Window\n");
    assert_eq!(leaf(0).to_string(), "Window\n");
    assert_eq!(SplitDirection::Vertical.to_string(), "V");
    assert_eq!(SplitDirection::Horizontal.to_string(), "H");
}

#[test]
fn shift_buffers_closes_the_gap() {
    let mut tree = pair(leaf(0), pair(leaf(2), leaf(3), SplitDirection::Vertical), SplitDirection::Horizontal);
    tree.shift_buffers(2);
    assert_eq!(buffers(&tree), vec![0, 1, 2]);
    tree.shift_buffers(0);
    assert_eq!(buffers(&tree), vec![0, 0, 1]);
}

#[test]
fn rect_contains_left_and_top_edges_only() {
    let r = Rect::new(10, 20, 30, 40);
    assert!(r.contains(10, 20));
    assert!(r.contains(39, 59));
    assert!(!r.contains(40, 20));
    assert!(!r.contains(10, 60));
    assert!(!r.contains(9, 20));
    assert!(!r.contains(10, 19));
    assert!(r.is_bounded());
    assert!(!Rect::new(i64::MAX, 0, 1, 1).is_bounded());
    assert_eq!(Rect::default(), Rect::new(0, 0, 0, 0));
}
