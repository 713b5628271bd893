//! The box-layout engine (taffy) as this library sees it: its node topology is
//! modelled by two maps over node keys, written as `u64`.
use crate::geometry::LayoutBox;
use vstd::prelude::*;

verus! {

#[verifier::external_type_specification]
#[verifier::external_body]
pub struct ExTaffy(taffy::Taffy);

#[verifier::external_type_specification]
#[verifier::external_body]
pub struct ExStyle(taffy::style::Style);

#[verifier::external_type_specification]
#[verifier::external_body]
pub struct ExAvailableSpace(taffy::style::AvailableSpace);

#[verifier::external_type_specification]
#[verifier::external_body]
#[verifier::reject_recursive_types(T)]
pub struct ExSize<T>(taffy::geometry::Size<T>);

/// The ordered children of every live engine node; its domain is the set of
/// live nodes.
pub uninterp spec fn engine_children(t: taffy::Taffy) -> Map<u64, Seq<u64>>;

/// The parent link of every engine node that has one.
pub uninterp spec fn engine_parents(t: taffy::Taffy) -> Map<u64, u64>;

/// Following parent links from `x` reaches a node without a parent within
/// `n` steps.
pub open spec fn climbs(pa: Map<u64, u64>, x: u64, n: nat) -> bool
    decreases n,
{
    !pa.contains_key(x) || (n > 0 && climbs(pa, pa[x], (n - 1) as nat))
}

/// Following parent links from `x` ends.
pub open spec fn grounded_at(pa: Map<u64, u64>, x: u64) -> bool {
    exists|n: nat| climbs(pa, x, n)
}

/// No chain of parent links is cyclic.
pub open spec fn grounded(pa: Map<u64, u64>) -> bool {
    forall|x: u64| #[trigger] grounded_at(pa, x)
}

/// Every parent link points at a live node.
pub open spec fn parents_live(ch: Map<u64, Seq<u64>>, pa: Map<u64, u64>) -> bool {
    forall|x: u64| #[trigger] pa.contains_key(x) ==> ch.contains_key(x) && ch.contains_key(pa[x])
}

/// Children lists and parent links describe the same forest: a node is listed
/// under `q`, once, exactly when its parent link is `q`.
pub open spec fn linked(ch: Map<u64, Seq<u64>>, pa: Map<u64, u64>) -> bool {
    &&& parents_live(ch, pa)
    &&& forall|q: u64| #[trigger] ch.contains_key(q) ==> ch[q].no_duplicates()
    &&& forall|q: u64, c: u64|
        ch.contains_key(q) && #[trigger] ch[q].contains(c) ==> pa.contains_key(c) && pa[c] == q
    &&& forall|c: u64| #[trigger] pa.contains_key(c) ==> ch[pa[c]].contains(c)
}

/// The last computed box of every engine node, relative to its parent.
pub uninterp spec fn engine_layouts(t: taffy::Taffy) -> Map<u64, LayoutBox>;

/// Relies on taffy::Taffy::new: an engine with no nodes.
#[verifier::external_body]
pub(crate) fn engine_new() -> (r: taffy::Taffy)
    ensures
        engine_children(r).dom() == Set::<u64>::empty(),
        engine_parents(r).dom() == Set::<u64>::empty(),
{
    taffy::Taffy::new()
}

/// Relies on taffy::Taffy::new_leaf: always succeeds and adds a fresh node
/// with no children and no parent.
#[verifier::external_body]
pub(crate) fn engine_new_leaf(t: &mut taffy::Taffy, style: taffy::style::Style) -> (r: Option<u64>)
    ensures
        r is Some && !engine_children(*old(t)).contains_key(r->0),
        engine_children(*final(t)) == engine_children(*old(t)).insert(r->0, seq![]),
        engine_parents(*final(t)) == engine_parents(*old(t)).remove(r->0),
{
    t.new_leaf(style).ok().map(|k| slotmap::Key::data(&k).as_ffi())
}

/// Relies on taffy::Taffy::add_child: appends `child` to the children of
/// `parent` and sets its parent link. It indexes both nodes and then marks
/// dirty every node up the new parent chain from `parent`, which needs that
/// chain to end at live nodes.
#[verifier::external_body]
pub(crate) fn engine_add_child(t: &mut taffy::Taffy, parent: u64, child: u64)
    requires
        engine_children(*old(t)).contains_key(parent),
        engine_children(*old(t)).contains_key(child),
        grounded(engine_parents(*old(t)).insert(child, parent)),
        parents_live(engine_children(*old(t)), engine_parents(*old(t))),
    ensures
        engine_children(*final(t)) == engine_children(*old(t)).insert(
            parent,
            engine_children(*old(t))[parent].push(child),
        ),
        engine_parents(*final(t)) == engine_parents(*old(t)).insert(child, parent),
{
    let _ = t.add_child(slotmap::KeyData::from_ffi(parent).into(), slotmap::KeyData::from_ffi(child).into());
}

/// Relies on taffy::Taffy::remove_child: takes the first occurrence of
/// `child` out of the children of `parent` (it panics when there is none)
/// and clears the child's parent link, then marks dirty up from `parent`.
#[verifier::external_body]
pub(crate) fn engine_remove_child(t: &mut taffy::Taffy, parent: u64, child: u64)
    requires
        engine_children(*old(t)).contains_key(parent),
        engine_children(*old(t)).contains_key(child),
        engine_children(*old(t))[parent].contains(child),
        grounded(engine_parents(*old(t)).remove(child)),
        parents_live(engine_children(*old(t)), engine_parents(*old(t))),
    ensures
        exists|i: int|
            0 <= i < engine_children(*old(t))[parent].len() && engine_children(*old(t))[parent][i]
                == child && engine_children(*final(t)) == engine_children(*old(t)).insert(
                parent,
                engine_children(*old(t))[parent].remove(i),
            ),
        engine_parents(*final(t)) == engine_parents(*old(t)).remove(child),
{
    let _ = t.remove_child(slotmap::KeyData::from_ffi(parent).into(), slotmap::KeyData::from_ffi(child).into());
}

/// Relies on taffy::Taffy::remove, for a node with no parent and no children:
/// the node leaves the engine and nothing else changes.
#[verifier::external_body]
pub(crate) fn engine_remove(t: &mut taffy::Taffy, node: u64)
    requires
        engine_children(*old(t)).contains_key(node),
        engine_children(*old(t))[node].len() == 0,
        !engine_parents(*old(t)).contains_key(node),
    ensures
        engine_children(*final(t)) == engine_children(*old(t)).remove(node),
        engine_parents(*final(t)) == engine_parents(*old(t)),
{
    let _ = t.remove(slotmap::KeyData::from_ffi(node).into());
}

/// Relies on taffy::Taffy::children: a copy of the node's children, in order.
#[verifier::external_body]
pub(crate) fn engine_children_of(t: &taffy::Taffy, node: u64) -> (r: Vec<u64>)
    requires
        engine_children(*t).contains_key(node),
    ensures
        r@ == engine_children(*t)[node],
{
    let ks = t.children(slotmap::KeyData::from_ffi(node).into()).unwrap_or_default();
    ks.iter().map(|k| slotmap::Key::data(k).as_ffi()).collect()
}

/// Relies on taffy::Taffy::layout: the node's last computed box, relative to
/// its parent. Layouts are rounded to whole pixels by the engine.
#[verifier::external_body]
pub(crate) fn engine_layout(t: &taffy::Taffy, node: u64) -> (r: LayoutBox)
    requires
        engine_children(*t).contains_key(node),
    ensures
        r == engine_layouts(*t)[node],
{
    let l = t.layout(slotmap::KeyData::from_ffi(node).into()).copied().unwrap_or(taffy::layout::Layout::new());
    LayoutBox {
        x: l.location.x as i64,
        y: l.location.y as i64,
        width: l.size.width as i64,
        height: l.size.height as i64,
        order: l.order,
    }
}

/// Relies on taffy::Taffy::compute_layout: lays out the subtree of `root`,
/// recursing through children, and leaves the topology as it was.
#[verifier::external_body]
pub(crate) fn engine_compute(
    t: &mut taffy::Taffy,
    root: u64,
    space: taffy::geometry::Size<taffy::style::AvailableSpace>,
)
    requires
        engine_children(*old(t)).contains_key(root),
        linked(engine_children(*old(t)), engine_parents(*old(t))),
        grounded(engine_parents(*old(t))),
    ensures
        engine_children(*final(t)) == engine_children(*old(t)),
        engine_parents(*final(t)) == engine_parents(*old(t)),
{
    let _ = t.compute_layout(slotmap::KeyData::from_ffi(root).into(), space);
}

} // verus!
