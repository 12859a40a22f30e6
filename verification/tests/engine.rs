use rine::geometry::{Direction, Rect};
use rine::pane::Pane;
use rine::tree::{clamp_ratio, Axis, Edge, Fail, Node, PaneTree, RATIO_MIN, RATIO_UNIT};

fn two_pane_tree() -> PaneTree {
    let mut t = PaneTree::new(Pane::Editor);
    let new_id = t.split(0, Axis::Vertical, Pane::Project).unwrap();
    assert_eq!(new_id, 2);
    t
}

#[test]
fn clamp_keeps_ratio_in_band() {
    assert_eq!(clamp_ratio(0), RATIO_MIN);
    assert_eq!(clamp_ratio(u32::MAX), RATIO_UNIT - RATIO_MIN);
    assert_eq!(clamp_ratio(RATIO_MIN), RATIO_MIN);
    assert_eq!(clamp_ratio(5000), 5000);
    assert_eq!(clamp_ratio(RATIO_UNIT), RATIO_UNIT - RATIO_MIN);
}

#[test]
fn resize_clamps_under_and_overshoot() {
    let mut t = two_pane_tree();
    // wildly small and large requests both land inside the band
    assert_eq!(t.resize(1, 0), Ok(()));
    match t.root() {
        Node::Split { ratio, .. } => assert_eq!(*ratio, RATIO_MIN),
        Node::Leaf { .. } => panic!("root must be a split"),
    }
    assert_eq!(t.resize(1, 4_000_000_000), Ok(()));
    match t.root() {
        Node::Split { ratio, .. } => assert_eq!(*ratio, RATIO_UNIT - RATIO_MIN),
        Node::Leaf { .. } => panic!("root must be a split"),
    }
}

#[test]
fn resize_wrong_id_fails_not_found() {
    let mut t = two_pane_tree();
    // leaf ids and unknown ids are both refused
    assert_eq!(t.resize(0, 5000), Err(Fail::NotFound));
    assert_eq!(t.resize(42, 5000), Err(Fail::NotFound));
}

#[test]
fn split_wrong_id_fails_not_found() {
    let mut t = two_pane_tree();
    assert_eq!(t.split(1, Axis::Vertical, Pane::Hub), Err(Fail::NotFound));
    assert_eq!(t.split(9, Axis::Vertical, Pane::Hub), Err(Fail::NotFound));
}

#[test]
fn close_sole_leaf_is_protected() {
    let mut t = PaneTree::new(Pane::Editor);
    assert_eq!(t.close(0), Err(Fail::LastPaneProtected));
    assert_eq!(t.close(5), Err(Fail::NotFound));
}

#[test]
fn split_then_close_new_leaf_restores_tree() {
    let mut t = two_pane_tree();
    let before = format!("{:?}", t.root());
    let leaves_before = t.leaves();
    let n = t.split(0, Axis::Horizontal, Pane::Hub).unwrap();
    assert_eq!(t.leaf_count(), 3);
    assert_eq!(t.close(n), Ok(()));
    assert_eq!(t.leaf_count(), 2);
    assert_eq!(t.leaves(), leaves_before);
    assert_eq!(format!("{:?}", t.root()), before);
}

#[test]
fn swap_is_content_only() {
    let mut t = two_pane_tree();
    assert_eq!(t.swap(0, 2), Ok(()));
    assert_eq!(t.leaves(), vec![(0, Pane::Project), (2, Pane::Editor)]);
    // same id twice is a no-op
    assert_eq!(t.swap(0, 0), Ok(()));
    assert_eq!(t.leaves(), vec![(0, Pane::Project), (2, Pane::Editor)]);
    assert_eq!(t.swap(0, 7), Err(Fail::NotFound));
}

#[test]
fn geometry_divides_the_viewport() {
    let t = two_pane_tree();
    let rects = t.geometry(Rect { x: 0, y: 0, w: 1000, h: 600 });
    assert_eq!(
        rects,
        vec![
            (0, Rect { x: 0, y: 0, w: 500, h: 600 }),
            (2, Rect { x: 500, y: 0, w: 500, h: 600 }),
        ]
    );
}

#[test]
fn geometry_follows_the_ratio() {
    let mut t = two_pane_tree();
    assert_eq!(t.resize(1, 2500), Ok(()));
    let rects = t.geometry(Rect { x: 0, y: 0, w: 1000, h: 600 });
    assert_eq!(
        rects,
        vec![
            (0, Rect { x: 0, y: 0, w: 250, h: 600 }),
            (2, Rect { x: 250, y: 0, w: 750, h: 600 }),
        ]
    );
}

#[test]
fn geometry_horizontal_split_divides_height() {
    let mut t = PaneTree::new(Pane::Editor);
    let n = t.split(0, Axis::Horizontal, Pane::Hub).unwrap();
    let rects = t.geometry(Rect { x: 10, y: 20, w: 100, h: 80 });
    assert_eq!(
        rects,
        vec![
            (0, Rect { x: 10, y: 20, w: 100, h: 40 }),
            (n, Rect { x: 10, y: 60, w: 100, h: 40 }),
        ]
    );
}

#[test]
fn move_to_edge_on_sole_leaf_is_noop() {
    let mut t = PaneTree::new(Pane::Editor);
    let before = format!("{:?}", t.root());
    let id = t.move_to_edge(0, Edge::Top);
    assert_eq!(id, 0);
    assert_eq!(format!("{:?}", t.root()), before);
    assert_eq!(t.leaf_count(), 1);
}

#[test]
fn move_to_edge_regrafts_at_root() {
    let mut t = two_pane_tree();
    let id = t.move_to_edge(0, Edge::Bottom);
    assert_eq!(id, 0);
    let expected = Node::Split {
        id: 3,
        axis: Axis::Horizontal,
        ratio: 5000,
        first: Box::new(Node::Leaf { id: 2, content: Pane::Project }),
        second: Box::new(Node::Leaf { id: 0, content: Pane::Editor }),
    };
    assert_eq!(t.root(), &expected);
}

#[test]
fn adjacency_three_panes() {
    // Split(V, .5, Split(H, .5, L0, L4), L2): editor above hub on the left,
    // project filling the right half.
    let mut t = two_pane_tree();
    let hub = t.split(0, Axis::Horizontal, Pane::Hub).unwrap();
    assert_eq!(t.adjacent(0, Direction::Down), Some(hub));
    assert_eq!(t.adjacent(hub, Direction::Up), Some(0));
    assert_eq!(t.adjacent(0, Direction::Right), Some(2));
    assert_eq!(t.adjacent(hub, Direction::Right), Some(2));
    assert_eq!(t.adjacent(2, Direction::Left), Some(0));
    assert_eq!(t.adjacent(2, Direction::Up), None);
    assert_eq!(t.adjacent(9, Direction::Up), None);
}

#[test]
fn leaf_queries() {
    let t = two_pane_tree();
    assert!(t.contains_leaf(0));
    assert!(t.contains_leaf(2));
    assert!(!t.contains_leaf(1));
    assert!(t.contains_split(1));
    assert!(!t.contains_split(0));
    assert_eq!(t.pane_of(0), Pane::Editor);
    assert_eq!(t.pane_of(2), Pane::Project);
}
