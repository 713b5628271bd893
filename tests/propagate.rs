use laffy::children::take_child;
use laffy::geometry::{add_coord, LayoutBox};
use laffy::propagate::{absolute_boxes, record_changes, LayoutRecord, Visit};
use laffy::worker::LayoutError;
use std::collections::HashMap;

fn bx(x: i64, y: i64, w: i64, h: i64) -> LayoutBox {
    LayoutBox { x, y, width: w, height: h, order: 0 }
}

#[test]
fn absolute_adds_ancestor_offsets() {
    let visits = vec![
        Visit { id: 1, parent: None, local: bx(5, 7, 300, 300) },
        Visit { id: 2, parent: Some(0), local: bx(10, 20, 100, 100) },
        Visit { id: 3, parent: Some(1), local: bx(1, 2, 10, 10) },
        Visit { id: 4, parent: Some(0), local: bx(100, 0, 50, 50) },
    ];
    let abs = absolute_boxes(&visits);
    assert_eq!(abs, vec![bx(5, 7, 300, 300), bx(15, 27, 100, 100), bx(16, 29, 10, 10), bx(105, 7, 50, 50)]);
}

#[test]
fn coordinates_saturate() {
    assert_eq!(add_coord(i64::MAX, 1), i64::MAX);
    assert_eq!(add_coord(i64::MIN, -1), i64::MIN);
    assert_eq!(add_coord(-3, 5), 2);
    let moved = bx(1, 2, 3, 4).offset_by(&bx(10, 20, 0, 0));
    assert_eq!(moved, bx(11, 22, 3, 4));
}

#[test]
fn differs_looks_at_every_field() {
    let a = bx(1, 2, 3, 4);
    assert!(!a.differs(&a));
    assert!(a.differs(&LayoutBox { order: 1, ..a }));
    assert!(a.differs(&bx(1, 2, 3, 5)));
    assert_eq!(LayoutBox::zero(), bx(0, 0, 0, 0));
}

#[test]
fn changes_are_reported_once() {
    let mut records = HashMap::new();
    records.insert(1, LayoutRecord { engine: 11, last: bx(0, 0, 0, 0) });
    records.insert(2, LayoutRecord { engine: 12, last: bx(5, 5, 5, 5) });
    let ids = vec![1, 2, 3];
    let boxes = vec![bx(1, 1, 1, 1), bx(5, 5, 5, 5), bx(9, 9, 9, 9)];
    let first = record_changes(&mut records, &ids, &boxes);
    assert_eq!(first, vec![(1, bx(1, 1, 1, 1))]);
    assert_eq!(records[&1], LayoutRecord { engine: 11, last: bx(1, 1, 1, 1) });
    assert!(!records.contains_key(&3));
    let second = record_changes(&mut records, &ids, &boxes);
    assert!(second.is_empty());
}

#[test]
fn take_child_by_index() {
    let mut kids = vec![10, 20, 30];
    assert_eq!(take_child(&mut kids, 1), Ok(20));
    assert_eq!(kids, vec![10, 30]);
    assert_eq!(take_child(&mut kids, 2), Err(LayoutError::IndexOutOfRange));
    assert_eq!(kids, vec![10, 30]);
}
