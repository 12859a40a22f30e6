use rine::controller::{Command, LayoutController};
use rine::geometry::{Direction, Rect};
use rine::pane::Pane;
use rine::tree::{Axis, Node};

fn two_pane_controller() -> LayoutController {
    // One vertical split: leaf 0 (Editor) on the left, leaf 2 (Project) on
    // the right, under split 1.
    let mut c = LayoutController::new(Pane::Editor);
    c.apply(Command::Split { target: 0, axis: Axis::Vertical, content: Pane::Project });
    c
}

#[test]
fn split_single_leaf_vertical() {
    let mut c = LayoutController::new(Pane::Editor);
    assert_eq!(c.leaf_count(), 1);
    assert_eq!(c.focus(), Some(0));
    c.apply(Command::Split { target: 0, axis: Axis::Vertical, content: Pane::Project });
    assert_eq!(c.leaf_count(), 2);
    let leaves = c.leaves();
    assert_eq!(leaves, vec![(0, Pane::Editor), (2, Pane::Project)]);
    let expected = Node::Split {
        id: 1,
        axis: Axis::Vertical,
        ratio: 5000,
        first: Box::new(Node::Leaf { id: 0, content: Pane::Editor }),
        second: Box::new(Node::Leaf { id: 2, content: Pane::Project }),
    };
    assert_eq!(c.tree().root(), &expected);
    assert_eq!(c.focus(), Some(2));
}

#[test]
fn split_again_horizontal() {
    let mut c = two_pane_controller();
    c.apply(Command::Split { target: 0, axis: Axis::Horizontal, content: Pane::Hub });
    assert_eq!(c.leaf_count(), 3);
    let expected = Node::Split {
        id: 1,
        axis: Axis::Vertical,
        ratio: 5000,
        first: Box::new(Node::Split {
            id: 3,
            axis: Axis::Horizontal,
            ratio: 5000,
            first: Box::new(Node::Leaf { id: 0, content: Pane::Editor }),
            second: Box::new(Node::Leaf { id: 4, content: Pane::Hub }),
        }),
        second: Box::new(Node::Leaf { id: 2, content: Pane::Project }),
    };
    assert_eq!(c.tree().root(), &expected);
    assert_eq!(c.focus(), Some(4));
}

#[test]
fn close_focused_leaf_clears_focus() {
    let mut c = two_pane_controller();
    // focus is on leaf 2, the one being closed
    assert_eq!(c.focus(), Some(2));
    c.apply(Command::Close { target: 2 });
    assert_eq!(c.leaf_count(), 1);
    assert_eq!(c.leaves(), vec![(0, Pane::Editor)]);
    // the focus pointer must not dangle on the removed leaf
    assert_eq!(c.focus(), None);
}

#[test]
fn swap_exchanges_contents_and_twice_restores() {
    let mut c = two_pane_controller();
    c.apply(Command::Dropped { source: 0, target: 2 });
    assert_eq!(c.leaves(), vec![(0, Pane::Project), (2, Pane::Editor)]);
    c.apply(Command::Dropped { source: 0, target: 2 });
    assert_eq!(c.leaves(), vec![(0, Pane::Editor), (2, Pane::Project)]);
}

#[test]
fn adjacency_in_a_vertical_split() {
    let c = two_pane_controller();
    assert_eq!(c.adjacent(0, Direction::Right), Some(2));
    assert_eq!(c.adjacent(2, Direction::Right), None);
    assert_eq!(c.adjacent(0, Direction::Down), None);
    assert_eq!(c.adjacent(2, Direction::Left), Some(0));
}

#[test]
fn swap_adjacent_without_neighbour_moves_to_edge() {
    let mut c = two_pane_controller();
    // focus leaf 2 (Project, right-hand pane); it has no neighbour above
    c.apply(Command::Clicked { target: 2 });
    assert_eq!(c.focus(), Some(2));
    c.apply(Command::SwapAdjacent { direction: Direction::Up });
    // the pane is pushed to the top edge: a fresh horizontal root split with
    // the moved leaf first and the rest of the layout second
    let expected = Node::Split {
        id: 3,
        axis: Axis::Horizontal,
        ratio: 5000,
        first: Box::new(Node::Leaf { id: 2, content: Pane::Project }),
        second: Box::new(Node::Leaf { id: 0, content: Pane::Editor }),
    };
    assert_eq!(c.tree().root(), &expected);
    assert_eq!(c.focus(), Some(2));
    assert_eq!(c.leaf_count(), 2);
}

#[test]
fn swap_adjacent_with_neighbour_swaps() {
    let mut c = two_pane_controller();
    c.apply(Command::Clicked { target: 0 });
    c.apply(Command::SwapAdjacent { direction: Direction::Right });
    assert_eq!(c.leaves(), vec![(0, Pane::Project), (2, Pane::Editor)]);
    assert_eq!(c.focus(), Some(0));
}

#[test]
fn focus_adjacent_moves_and_sticks_at_edge() {
    let mut c = two_pane_controller();
    c.apply(Command::Clicked { target: 0 });
    c.apply(Command::FocusAdjacent { direction: Direction::Right });
    assert_eq!(c.focus(), Some(2));
    c.apply(Command::FocusAdjacent { direction: Direction::Right });
    assert_eq!(c.focus(), Some(2));
}

#[test]
fn restore_when_nothing_maximized_changes_nothing() {
    let mut c = two_pane_controller();
    assert_eq!(c.maximized(), None);
    let before = format!("{:?}", c.tree().root());
    let focus_before = c.focus();
    c.apply(Command::Restore);
    assert_eq!(c.maximized(), None);
    assert_eq!(c.focus(), focus_before);
    assert_eq!(format!("{:?}", c.tree().root()), before);
}

#[test]
fn maximize_and_restore_leave_tree_shape_alone() {
    let mut c = two_pane_controller();
    let before = format!("{:?}", c.tree().root());
    c.apply(Command::Maximize { target: 0 });
    assert_eq!(c.maximized(), Some(0));
    assert_eq!(format!("{:?}", c.tree().root()), before);
    c.apply(Command::Restore);
    assert_eq!(c.maximized(), None);
    assert_eq!(format!("{:?}", c.tree().root()), before);
}

#[test]
fn close_invalid_id_changes_nothing() {
    let mut c = two_pane_controller();
    let before = format!("{:?}", c.tree().root());
    let focus_before = c.focus();
    c.apply(Command::Close { target: 99 });
    assert_eq!(format!("{:?}", c.tree().root()), before);
    assert_eq!(c.focus(), focus_before);
}

#[test]
fn close_last_pane_is_ignored() {
    let mut c = LayoutController::new(Pane::Hub);
    c.apply(Command::Close { target: 0 });
    assert_eq!(c.leaf_count(), 1);
    assert_eq!(c.leaves(), vec![(0, Pane::Hub)]);
}

#[test]
fn clicked_invalid_id_keeps_focus() {
    let mut c = two_pane_controller();
    c.apply(Command::Clicked { target: 0 });
    c.apply(Command::Clicked { target: 77 });
    assert_eq!(c.focus(), Some(0));
}

#[test]
fn resize_command_reshapes_geometry() {
    let mut c = two_pane_controller();
    c.apply(Command::Resize { target: 1, ratio: 2500 });
    let rects = c.geometry(Rect { x: 0, y: 0, w: 1000, h: 600 });
    assert_eq!(rects[0], (0, Rect { x: 0, y: 0, w: 250, h: 600 }));
    assert_eq!(rects[1], (2, Rect { x: 250, y: 0, w: 750, h: 600 }));
}

#[test]
fn dropped_with_invalid_id_changes_nothing() {
    let mut c = two_pane_controller();
    c.apply(Command::Dropped { source: 0, target: 55 });
    assert_eq!(c.leaves(), vec![(0, Pane::Editor), (2, Pane::Project)]);
}

#[test]
fn maximize_invalid_id_is_ignored() {
    let mut c = two_pane_controller();
    c.apply(Command::Maximize { target: 9 });
    assert_eq!(c.maximized(), None);
}

#[test]
fn navigation_without_focus_changes_nothing() {
    let mut c = two_pane_controller();
    c.apply(Command::Close { target: 2 });
    assert_eq!(c.focus(), None);
    let before = format!("{:?}", c.tree().root());
    c.apply(Command::FocusAdjacent { direction: Direction::Left });
    c.apply(Command::SwapAdjacent { direction: Direction::Left });
    assert_eq!(c.focus(), None);
    assert_eq!(format!("{:?}", c.tree().root()), before);
}

#[test]
fn pane_titles() {
    assert_eq!(Pane::Editor.title(), "Editor");
    assert_eq!(Pane::Project.title(), "Project");
    assert_eq!(Pane::Hub.title(), "Hub");
    assert_eq!(rine::editor::title(), "Editor");
    assert_eq!(rine::project::title(), "Project");
    assert_eq!(rine::hub::title(), "Hub");
}
