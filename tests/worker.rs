use laffy::geometry::LayoutBox;
use laffy::worker::{LayoutError, Worker};
use taffy::geometry::Size;
use taffy::style::{AvailableSpace, FlexDirection, Style};
use taffy::style_helpers::TaffyMaxContent;

fn square() -> Style {
    Style { size: Size::from_points(100.0, 100.0), ..Default::default() }
}

fn unconstrained() -> Size<AvailableSpace> {
    Size::MAX_CONTENT
}

#[test]
fn single_leaf_is_measured_at_origin() {
    let mut w = Worker::new();
    w.insert(1, square()).unwrap();
    let changes = w.measure(1, unconstrained()).unwrap();
    let expected = LayoutBox { x: 0, y: 0, width: 100, height: 100, order: 0 };
    assert_eq!(changes, vec![(1, expected)]);
    assert_eq!(w.layout_of(1), Ok(expected));
}

#[test]
fn two_children_do_not_overlap_and_remeasure_is_empty() {
    let mut w = Worker::new();
    w.insert(1, Style::default()).unwrap();
    w.insert(2, square()).unwrap();
    w.insert(3, square()).unwrap();
    w.add_child(1, 2).unwrap();
    w.add_child(1, 3).unwrap();
    let first = w.measure(1, unconstrained()).unwrap();
    assert_eq!(first.len(), 3);
    let a = w.layout_of(2).unwrap();
    let b = w.layout_of(3).unwrap();
    assert!(a.x + a.width <= b.x);
    assert_eq!(b.x, 100);
    assert_eq!(w.layout_of(1).unwrap().width, 200);
    let second = w.measure(1, unconstrained()).unwrap();
    assert!(second.is_empty());
}

#[test]
fn child_added_after_measure_is_reported() {
    let mut w = Worker::new();
    w.insert(1, Style::default()).unwrap();
    w.insert(2, square()).unwrap();
    w.add_child(1, 2).unwrap();
    w.measure(1, unconstrained()).unwrap();
    w.insert(3, square()).unwrap();
    w.add_child(1, 3).unwrap();
    let changes = w.measure(1, unconstrained()).unwrap();
    let ids: Vec<u64> = changes.iter().map(|c| c.0).collect();
    assert!(ids.contains(&3));
    assert!(ids.contains(&1));
    assert!(!ids.contains(&2));
    let c = changes.iter().find(|c| c.0 == 3).unwrap().1;
    assert_eq!((c.x, c.y, c.width, c.height), (100, 0, 100, 100));
}

#[test]
fn nested_positions_accumulate() {
    let column = Style { flex_direction: FlexDirection::Column, ..Default::default() };
    let mut w = Worker::new();
    w.insert(1, Style::default()).unwrap();
    w.insert(2, square()).unwrap();
    w.insert(3, column).unwrap();
    w.insert(4, square()).unwrap();
    w.insert(5, square()).unwrap();
    w.add_child(1, 2).unwrap();
    w.add_child(1, 3).unwrap();
    w.add_child(3, 4).unwrap();
    w.add_child(3, 5).unwrap();
    w.measure(1, unconstrained()).unwrap();
    let inner = w.layout_of(3).unwrap();
    assert_eq!((inner.x, inner.y), (100, 0));
    let deep = w.layout_of(5).unwrap();
    assert_eq!((deep.x, deep.y, deep.width, deep.height), (100, 100, 100, 100));
}

#[test]
fn removed_child_is_not_reported() {
    let mut w = Worker::new();
    w.insert(1, Style::default()).unwrap();
    w.insert(2, square()).unwrap();
    w.insert(3, square()).unwrap();
    w.add_child(1, 2).unwrap();
    w.add_child(1, 3).unwrap();
    w.measure(1, unconstrained()).unwrap();
    w.remove_child(1, 2).unwrap();
    let changes = w.measure(1, unconstrained()).unwrap();
    assert!(changes.iter().all(|c| c.0 != 2));
    assert!(changes.iter().any(|c| c.0 == 3));
    assert_eq!(w.remove_child(1, 2), Err(LayoutError::NotAChild));
}

#[test]
fn removed_node_lookups_fail() {
    let mut w = Worker::new();
    w.insert(1, Style::default()).unwrap();
    w.insert(2, square()).unwrap();
    w.insert(3, square()).unwrap();
    w.add_child(1, 2).unwrap();
    w.add_child(2, 3).unwrap();
    w.measure(1, unconstrained()).unwrap();
    assert_eq!(w.remove(2), Ok(()));
    assert_eq!(w.layout_of(2), Err(LayoutError::InvalidNodeId));
    assert_eq!(w.measure(2, unconstrained()), Err(LayoutError::InvalidNodeId));
    assert_eq!(w.add_child(1, 2), Err(LayoutError::InvalidNodeId));
    assert_eq!(w.remove(2), Err(LayoutError::InvalidNodeId));
    // the former grandchild is a root again and can be attached elsewhere
    assert_eq!(w.add_child(1, 3), Ok(()));
}

#[test]
fn duplicate_insert_is_refused() {
    let mut w = Worker::new();
    assert_eq!(w.insert(7, square()), Ok(()));
    assert_eq!(w.insert(7, square()), Err(LayoutError::InvalidNodeId));
}

#[test]
fn attach_policy() {
    let mut w = Worker::new();
    for id in 1..=3 {
        w.insert(id, square()).unwrap();
    }
    assert_eq!(w.add_child(1, 1), Err(LayoutError::WouldCycle));
    w.add_child(1, 2).unwrap();
    assert_eq!(w.add_child(3, 2), Err(LayoutError::AlreadyAttached));
    w.add_child(2, 3).unwrap();
    w.remove_child(1, 2).unwrap();
    assert_eq!(w.add_child(3, 2), Err(LayoutError::WouldCycle));
    assert_eq!(w.add_child(1, 9), Err(LayoutError::InvalidNodeId));
    assert_eq!(w.remove_child(9, 2), Err(LayoutError::InvalidNodeId));
}
