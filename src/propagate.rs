//! From engine-local boxes to absolute boxes, and from absolute boxes to the
//! set of changes against the boxes recorded at the previous measurement.
use crate::geometry::LayoutBox;
use std::collections::HashMap;
use vstd::prelude::*;

verus! {

broadcast use vstd::std_specs::hash::group_hash_axioms;

/// One node reached by a pre-order walk of a measured subtree: its id, the
/// position in the walk of its parent (none for the measured root), and its
/// box relative to that parent.
#[derive(Clone, Copy, Debug, PartialEq, Eq, Structural)]
pub struct Visit {
    pub id: u64,
    pub parent: Option<usize>,
    pub local: LayoutBox,
}

/// What the worker keeps per node: the engine's key for it and the absolute
/// box computed for it at the last measurement.
#[derive(Clone, Copy, Debug, PartialEq, Eq, Structural)]
pub struct LayoutRecord {
    pub engine: u64,
    pub last: LayoutBox,
}

/// Every parent of a visit comes earlier in the walk.
pub open spec fn walk_ordered(v: Seq<Visit>) -> bool {
    forall|i: int|
        0 <= i < v.len() ==> match (#[trigger] v[i]).parent {
            Some(p) => p < i,
            None => true,
        }
}

/// The absolute box of visit `i`: its local box moved by the absolute box of
/// its parent.
pub open spec fn absolute(v: Seq<Visit>, i: int) -> LayoutBox
    decreases i,
{
    if 0 <= i < v.len() {
        match v[i].parent {
            Some(p) => if p < i {
                v[i].local.spec_offset(absolute(v, p as int))
            } else {
                v[i].local
            },
            None => v[i].local,
        }
    } else {
        LayoutBox::spec_zero()
    }
}

/// The absolute box of each visit, in walk order.
pub fn absolute_boxes(visits: &Vec<Visit>) -> (r: Vec<LayoutBox>)
    requires
        walk_ordered(visits@),
    ensures
        r.len() == visits.len(),
        forall|i: int| 0 <= i < r.len() ==> r[i] == absolute(visits@, i),
{
    let mut r: Vec<LayoutBox> = Vec::new();
    let n = visits.len();
    let mut i: usize = 0;
    while i < n
        invariant
            n == visits.len(),
            i <= n,
            walk_ordered(visits@),
            r.len() == i,
            forall|j: int| 0 <= j < i ==> r[j] == absolute(visits@, j),
        decreases n - i,
    {
        let v = visits[i];
        assert(match v.parent { Some(p) => p < i, None => true }) by {
            assert(visits@[i as int] == v);
        }
        let b = match v.parent {
            Some(p) => v.local.offset_by(&r[p]),
            None => v.local,
        };
        r.push(b);
        i = i + 1;
    }
    r
}

/// The records and the change list after comparing the first `n` boxes with
/// the records, in order: a node whose recorded box differs from its new box
/// takes the new box and is reported with it; a node without a record is
/// passed over.
pub open spec fn diff_upto(
    m: Map<u64, LayoutRecord>,
    ids: Seq<u64>,
    boxes: Seq<LayoutBox>,
    n: nat,
) -> (Map<u64, LayoutRecord>, Seq<(u64, LayoutBox)>)
    decreases n,
{
    if n == 0 {
        (m, seq![])
    } else {
        let prev = diff_upto(m, ids, boxes, (n - 1) as nat);
        let id = ids[n - 1];
        let b = boxes[n - 1];
        if prev.0.contains_key(id) && prev.0[id].last != b {
            (prev.0.insert(id, LayoutRecord { last: b, ..prev.0[id] }), prev.1.push((id, b)))
        } else {
            prev
        }
    }
}

/// Compares each new box with the record of its node and returns the
/// changes, in order; the records take the new boxes.
pub fn record_changes(
    records: &mut HashMap<u64, LayoutRecord>,
    ids: &Vec<u64>,
    boxes: &Vec<LayoutBox>,
) -> (r: Vec<(u64, LayoutBox)>)
    requires
        ids.len() == boxes.len(),
    ensures
        (final(records)@, r@) == diff_upto(old(records)@, ids@, boxes@, ids.len() as nat),
{
    let mut r: Vec<(u64, LayoutBox)> = Vec::new();
    let n = ids.len();
    let mut i: usize = 0;
    while i < n
        invariant
            n == ids.len(),
            n == boxes.len(),
            i <= n,
            (records@, r@) == diff_upto(old(records)@, ids@, boxes@, i as nat),
        decreases n - i,
    {
        let id = ids[i];
        let b = boxes[i];
        let found = match records.get(&id) {
            Some(rec) => Some(*rec),
            None => None,
        };
        match found {
            Some(rec) => {
                if rec.last.differs(&b) {
                    records.insert(id, LayoutRecord { engine: rec.engine, last: b });
                    r.push((id, b));
                }
            },
            None => {},
        }
        i = i + 1;
    }
    r
}

/// Horizontal offset of visit `i` plus those of all its ancestors in the walk.
pub open spec fn chain_x(v: Seq<Visit>, i: int) -> int
    decreases i,
{
    if 0 <= i < v.len() {
        v[i].local.x + match v[i].parent {
            Some(p) => if p < i {
                chain_x(v, p as int)
            } else {
                0
            },
            None => 0,
        }
    } else {
        0
    }
}

/// Vertical offset of visit `i` plus those of all its ancestors in the walk.
pub open spec fn chain_y(v: Seq<Visit>, i: int) -> int
    decreases i,
{
    if 0 <= i < v.len() {
        v[i].local.y + match v[i].parent {
            Some(p) => if p < i {
                chain_y(v, p as int)
            } else {
                0
            },
            None => 0,
        }
    } else {
        0
    }
}

/// Every partial sum of offsets on the way from the root to visit `i` fits
/// in `i64`.
pub open spec fn chain_fits(v: Seq<Visit>, i: int) -> bool
    decreases i,
{
    0 <= i < v.len() && i64::MIN <= chain_x(v, i) <= i64::MAX && i64::MIN <= chain_y(v, i)
        <= i64::MAX && match v[i].parent {
        Some(p) => p < i ==> chain_fits(v, p as int),
        None => true,
    }
}

/// A node's absolute position is its own engine-local offset plus the
/// offsets of all its ancestors up to the measured root; its size and order
/// are those the engine gave it.
pub proof fn absolute_is_sum_of_offsets(v: Seq<Visit>, i: int)
    requires
        walk_ordered(v),
        chain_fits(v, i),
    ensures
        absolute(v, i).x == chain_x(v, i),
        absolute(v, i).y == chain_y(v, i),
        absolute(v, i).width == v[i].local.width,
        absolute(v, i).height == v[i].local.height,
        absolute(v, i).order == v[i].local.order,
    decreases i,
{
    assert(match v[i].parent { Some(p) => p < i, None => true });
    match v[i].parent {
        Some(p) => {
            absolute_is_sum_of_offsets(v, p as int);
        },
        None => {},
    }
}

/// Comparing boxes never adds or drops a record, nor changes an engine key.
pub proof fn lemma_diff_keeps_domain(m: Map<u64, LayoutRecord>, ids: Seq<u64>, boxes: Seq<LayoutBox>, n: nat)
    ensures
        diff_upto(m, ids, boxes, n).0.dom() == m.dom(),
        forall|k: u64| #[trigger] m.contains_key(k) ==> diff_upto(m, ids, boxes, n).0[k].engine == m[k].engine,
    decreases n,
{
    if n > 0 {
        lemma_diff_keeps_domain(m, ids, boxes, (n - 1) as nat);
    }
}

/// The ids of a walk, in order.
pub open spec fn walk_ids(v: Seq<Visit>) -> Seq<u64> {
    Seq::new(v.len(), |i: int| v[i].id)
}

/// The absolute boxes of a walk, in order.
pub open spec fn walk_boxes(v: Seq<Visit>) -> Seq<LayoutBox> {
    Seq::new(v.len(), |i: int| absolute(v, i))
}

/// `v` is a walk of the subtree of node `id`, starting at `id`, and comparing
/// its absolute boxes with the records `before` gives the records `after` and
/// the change list `changes`.
pub open spec fn measured_by(
    before: Map<u64, LayoutRecord>,
    id: u64,
    v: Seq<Visit>,
    after: Map<u64, LayoutRecord>,
    changes: Seq<(u64, LayoutBox)>,
) -> bool {
    &&& v.len() > 0
    &&& v[0].id == id
    &&& v[0].parent is None
    &&& walk_ordered(v)
    &&& (after, changes) == diff_upto(before, walk_ids(v), walk_boxes(v), v.len())
}

/// After comparing boxes of distinct nodes, each node that has a record
/// holds its new box.
pub proof fn lemma_diff_records_boxes(m: Map<u64, LayoutRecord>, ids: Seq<u64>, boxes: Seq<LayoutBox>, n: nat)
    requires
        ids.no_duplicates(),
        n <= ids.len(),
        ids.len() == boxes.len(),
    ensures
        forall|j: int|
            0 <= j < n && #[trigger] diff_upto(m, ids, boxes, n).0.contains_key(ids[j])
                ==> diff_upto(m, ids, boxes, n).0[ids[j]].last == boxes[j],
    decreases n,
{
    if n > 0 {
        lemma_diff_records_boxes(m, ids, boxes, (n - 1) as nat);
        lemma_diff_keeps_domain(m, ids, boxes, (n - 1) as nat);
        lemma_diff_keeps_domain(m, ids, boxes, n);
        let prev = diff_upto(m, ids, boxes, (n - 1) as nat);
        assert forall|j: int|
            0 <= j < n && #[trigger] diff_upto(m, ids, boxes, n).0.contains_key(ids[j])
                implies diff_upto(m, ids, boxes, n).0[ids[j]].last == boxes[j] by {
            if j < n - 1 {
                assert(ids[j] != ids[n - 1]);
                assert(prev.0.contains_key(ids[j]));
            }
        }
    }
}

/// Records that already hold the new boxes give no change.
pub proof fn lemma_diff_quiet(m: Map<u64, LayoutRecord>, ids: Seq<u64>, boxes: Seq<LayoutBox>, k: nat)
    requires
        k <= ids.len(),
        ids.len() == boxes.len(),
        forall|j: int| 0 <= j < ids.len() && #[trigger] m.contains_key(ids[j]) ==> m[ids[j]].last == boxes[j],
    ensures
        diff_upto(m, ids, boxes, k) == (m, Seq::<(u64, LayoutBox)>::empty()),
    decreases k,
{
    if k > 0 {
        lemma_diff_quiet(m, ids, boxes, (k - 1) as nat);
        let j = k - 1;
        if m.contains_key(ids[j]) {
            assert(m[ids[j]].last == boxes[j]);
        }
    }
}

/// Comparing the same boxes of distinct nodes a second time, against the
/// records the first comparison left, reports no change and leaves the
/// records as they were.
pub proof fn second_diff_is_empty(m: Map<u64, LayoutRecord>, ids: Seq<u64>, boxes: Seq<LayoutBox>)
    requires
        ids.no_duplicates(),
        ids.len() == boxes.len(),
    ensures
        ({
            let first = diff_upto(m, ids, boxes, ids.len() as nat);
            let second = diff_upto(first.0, ids, boxes, ids.len() as nat);
            second.1.len() == 0 && second.0 == first.0
        }),
{
    lemma_diff_records_boxes(m, ids, boxes, ids.len() as nat);
    let first = diff_upto(m, ids, boxes, ids.len() as nat);
    lemma_diff_quiet(first.0, ids, boxes, ids.len() as nat);
}

} // verus!
