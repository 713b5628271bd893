//! The single owner of the layout engine and of the per-node layout records.
//! Requests are applied one at a time, in the order they were made.
use crate::engine::{
    climbs, engine_add_child, engine_children, engine_children_of, engine_compute, engine_layout,
    engine_layouts, engine_new, engine_new_leaf, engine_parents, engine_remove, engine_remove_child, grounded,
    grounded_at, linked,
};
use crate::geometry::LayoutBox;
use crate::propagate::{
    absolute, absolute_boxes, lemma_diff_keeps_domain, lemma_diff_quiet, lemma_diff_records_boxes, measured_by, record_changes, walk_boxes, walk_ids,
    walk_ordered, LayoutRecord, Visit,
};
use crate::topology::{
    above, is_above, lemma_above_root, lemma_above_step, lemma_above_submap, lemma_grounded_insert,
    lemma_grounded_submap, lemma_parent_not_below,
};
use std::collections::HashMap;
use vstd::prelude::*;

verus! {

broadcast use vstd::std_specs::hash::group_hash_axioms;

/// Walk step `i` visits a node with a record and a live engine node; every
/// step but the first has an earlier parent step, whose engine node lists this
/// one among its children.
pub open spec fn follows_at(
    ch: Map<u64, Seq<u64>>,
    recs: Map<u64, LayoutRecord>,
    v: Seq<Visit>,
    i: int,
) -> bool {
    &&& recs.contains_key(v[i].id)
    &&& ch.contains_key(recs[v[i].id].engine)
    &&& i > 0 ==> match v[i].parent {
        Some(p) => p < i && ch[recs[v[p as int].id].engine].contains(recs[v[i].id].engine),
        None => false,
    }
}

/// The walk `v` follows the engine's children lists.
pub open spec fn follows_engine(ch: Map<u64, Seq<u64>>, recs: Map<u64, LayoutRecord>, v: Seq<Visit>) -> bool {
    forall|i: int| 0 <= i < v.len() ==> #[trigger] follows_at(ch, recs, v, i)
}

/// The engine key of the node that walk step `i` visits.
pub open spec fn walk_key(recs: Map<u64, LayoutRecord>, v: Seq<Visit>, i: int) -> u64 {
    recs[v[i].id].engine
}

/// The walk `v` visits each engine node at most once and, with each node,
/// all of its children: from its first step it covers the whole subtree.
pub open spec fn walk_complete(ch: Map<u64, Seq<u64>>, recs: Map<u64, LayoutRecord>, v: Seq<Visit>) -> bool {
    &&& forall|a: int, b: int|
        0 <= a < v.len() && 0 <= b < v.len() && a != b ==> #[trigger] walk_key(recs, v, a)
            != #[trigger] walk_key(recs, v, b)
    &&& forall|a: int, c: u64|
        0 <= a < v.len() && #[trigger] ch[walk_key(recs, v, a)].contains(c) ==> exists|b: int|
            0 <= b < v.len() && #[trigger] walk_key(recs, v, b) == c
}

/// The parent links left when node `e` goes: its own link and those of its
/// children are dropped.
pub open spec fn links_without(pa: Map<u64, u64>, e: u64) -> Map<u64, u64> {
    Map::new(|x: u64| pa.contains_key(x) && x != e && pa[x] != e, |x: u64| pa[x])
}

/// Each visit of the walk `v` carries the engine's box for its node.
pub open spec fn locals_from(lay: Map<u64, LayoutBox>, recs: Map<u64, LayoutRecord>, v: Seq<Visit>) -> bool {
    forall|i: int| 0 <= i < v.len() ==> (#[trigger] v[i]).local == lay[recs[v[i].id].engine]
}

/// Why a request on the layout tree was refused.
#[derive(Clone, Copy, Debug, PartialEq, Eq, Structural)]
pub enum LayoutError {
    /// The id names no live node.
    InvalidNodeId,
    /// The worker is gone; the tree can no longer be used.
    ChannelClosed,
    /// A child index past the end of a children list.
    IndexOutOfRange,
    /// The node to attach already has a parent.
    AlreadyAttached,
    /// The node to attach is the parent itself or one of its ancestors.
    WouldCycle,
    /// The node to detach is not a child of the given parent.
    NotAChild,
}

/// The worker's state: the engine, the record of each node (by node id), the
/// node id of each engine node, and a copy of the engine's parent links.
pub struct Worker {
    engine: taffy::Taffy,
    records: HashMap<u64, LayoutRecord>,
    owners: HashMap<u64, u64>,
    up: HashMap<u64, u64>,
}

impl Worker {
    /// The record of each live node, by node id.
    pub closed spec fn records(&self) -> Map<u64, LayoutRecord> {
        self.records@
    }

    /// The engine's children lists, by engine key.
    pub closed spec fn children(&self) -> Map<u64, Seq<u64>> {
        engine_children(self.engine)
    }

    /// The engine's last computed boxes, by engine key, relative to parents.
    pub closed spec fn layouts(&self) -> Map<u64, LayoutBox> {
        engine_layouts(self.engine)
    }

    /// The engine's parent links, by engine key.
    pub closed spec fn links(&self) -> Map<u64, u64> {
        engine_parents(self.engine)
    }

    /// The worker's invariant: the engine keys that have an owner are the
    /// live engine nodes, the copied parent links match the engine's, the
    /// engine's nodes form a forest, and each record's engine node is owned by
    /// that record's node.
    pub closed spec fn wf(&self) -> bool {
        &&& self.owners@.dom() == engine_children(self.engine).dom()
        &&& self.up@ == engine_parents(self.engine)
        &&& linked(engine_children(self.engine), engine_parents(self.engine))
        &&& grounded(engine_parents(self.engine))
        &&& forall|id: u64| #[trigger]
            self.records@.contains_key(id) ==> self.owners@.contains_key(self.records@[id].engine)
                && self.owners@[self.records@[id].engine] == id
        &&& forall|k: u64| #[trigger]
            self.owners@.contains_key(k) ==> self.records@.contains_key(self.owners@[k])
                && self.records@[self.owners@[k]].engine == k
    }

    /// A worker with no nodes.
    pub fn new() -> (r: Worker)
        ensures
            r.wf(),
            r.records() == Map::<u64, LayoutRecord>::empty(),
            r.children() == Map::<u64, Seq<u64>>::empty(),
            r.links() == Map::<u64, u64>::empty(),
    {
        let engine = engine_new();
        let w = Worker { engine, records: HashMap::new(), owners: HashMap::new(), up: HashMap::new() };
        proof {
            assert(w.records@ =~= Map::<u64, LayoutRecord>::empty());
            assert(engine_children(w.engine) =~= Map::<u64, Seq<u64>>::empty());
            assert(engine_parents(w.engine) =~= Map::<u64, u64>::empty());
            assert(w.owners@.dom() =~= engine_children(w.engine).dom());
            assert(w.up@ =~= engine_parents(w.engine));
            assert forall|x: u64| #[trigger] grounded_at(engine_parents(w.engine), x) by {
                assert(climbs(engine_parents(w.engine), x, 0));
            }
        }
        w
    }

    /// Adds an engine leaf with `style` for the new node `id`; its recorded box
    /// starts at zero. An id that already has a record is refused.
    pub fn insert(&mut self, id: u64, style: taffy::style::Style) -> (r: Result<(), LayoutError>)
        requires
            old(self).wf(),
        ensures
            final(self).wf(),
            old(self).records().contains_key(id) ==> r == Err::<(), LayoutError>(
                LayoutError::InvalidNodeId,
            ) && final(self).records() == old(self).records(),
            !old(self).records().contains_key(id) ==> r is Ok && final(self).records() == old(
                self,
            ).records().insert(
                id,
                (LayoutRecord { engine: final(self).records()[id].engine, last: LayoutBox::spec_zero() }),
            ) && !old(self).children().contains_key(final(self).records()[id].engine)
                && final(self).children() == old(self).children().insert(
                final(self).records()[id].engine,
                seq![],
            ),
            r is Err ==> final(self).children() == old(self).children(),
            final(self).links() == old(self).links(),
    {
        if self.records.contains_key(&id) {
            return Err(LayoutError::InvalidNodeId);
        }
        let ghost ch0 = engine_children(self.engine);
        let ghost pa0 = engine_parents(self.engine);
        let k = match engine_new_leaf(&mut self.engine, style) {
            Some(k) => k,
            None => {
                return Err(LayoutError::InvalidNodeId);
            },
        };
        let ghost ch = engine_children(self.engine);
        let ghost pa = engine_parents(self.engine);
        proof {
            assert(!pa0.contains_key(k));
            assert(pa =~= pa0);
        }
        self.owners.insert(k, id);
        self.records.insert(id, LayoutRecord { engine: k, last: LayoutBox::zero() });
        proof {
            assert(self.owners@.dom() =~= ch.dom());
            assert forall|q: u64| #[trigger] ch.contains_key(q) implies ch[q].no_duplicates() by {
                if q != k {
                    assert(ch0.contains_key(q));
                }
            }
            assert forall|q: u64, c: u64|
                ch.contains_key(q) && #[trigger] ch[q].contains(c) implies pa.contains_key(c)
                    && pa[c] == q by {
                assert(q != k);
                assert(ch[q] == ch0[q]);
            }
            assert forall|c: u64| #[trigger] pa.contains_key(c) implies ch[pa[c]].contains(c) by {
                assert(ch0.contains_key(pa0[c]));
                assert(ch[pa[c]] == ch0[pa0[c]]);
            }
            assert forall|x: u64| #[trigger] pa.contains_key(x) implies ch.contains_key(x)
                && ch.contains_key(pa[x]) by {
                assert(ch0.contains_key(x));
            }
            assert forall|x: u64| #[trigger] self.records@.contains_key(x) implies self.owners@.contains_key(
                self.records@[x].engine,
            ) && self.owners@[self.records@[x].engine] == x by {
                if x != id {
                    assert(old(self).records@.contains_key(x));
                    assert(old(self).owners@.contains_key(old(self).records@[x].engine));
                }
            }
        }
        Ok(())
    }

    /// Takes engine node `c` out of the children of `p`.
    fn detach(&mut self, p: u64, c: u64)
        requires
            old(self).wf(),
            old(self).children().contains_key(p),
            old(self).children()[p].contains(c),
        ensures
            final(self).wf(),
            final(self).records() == old(self).records(),
            final(self).links() == old(self).links().remove(c),
            exists|i: int|
                0 <= i < old(self).children()[p].len() && old(self).children()[p][i] == c
                    && final(self).children() == old(self).children().insert(
                    p,
                    old(self).children()[p].remove(i),
                ),
    {
        let ghost ch0 = engine_children(self.engine);
        let ghost pa0 = engine_parents(self.engine);
        proof {
            assert(pa0.contains_key(c) && pa0[c] == p);
            assert(pa0.remove(c).submap_of(pa0));
            lemma_grounded_submap(pa0, pa0.remove(c));
        }
        engine_remove_child(&mut self.engine, p, c);
        self.up.remove(&c);
        let ghost ch = engine_children(self.engine);
        let ghost pa = engine_parents(self.engine);
        proof {
            let i = choose|i: int|
                0 <= i < ch0[p].len() && ch0[p][i] == c && ch == ch0.insert(p, ch0[p].remove(i));
            assert(self.owners@.dom() =~= ch.dom());
            assert(pa.submap_of(pa0));
            lemma_grounded_submap(pa0, pa);
            assert forall|x: u64| ch0[p].remove(i).contains(x) <==> (ch0[p].contains(x) && x != c) by {
                if ch0[p].remove(i).contains(x) {
                    let j = choose|j: int| 0 <= j < ch0[p].remove(i).len() && ch0[p].remove(i)[j] == x;
                    if j < i {
                        assert(ch0[p][j] == x);
                    } else {
                        assert(ch0[p][j + 1] == x);
                    }
                }
                if ch0[p].contains(x) && x != c {
                    let j = choose|j: int| 0 <= j < ch0[p].len() && ch0[p][j] == x;
                    if j < i {
                        assert(ch0[p].remove(i)[j] == x);
                    } else {
                        assert(j != i);
                        assert(ch0[p].remove(i)[j - 1] == x);
                    }
                }
            }
            assert forall|q: u64| #[trigger] ch.contains_key(q) implies ch[q].no_duplicates() by {
                if q == p {
                    assert forall|a: int, b: int|
                        0 <= a < ch[q].len() && 0 <= b < ch[q].len() && a != b implies ch[q][a]
                        != ch[q][b] by {
                        let a0 = if a < i { a } else { a + 1 };
                        let b0 = if b < i { b } else { b + 1 };
                        assert(ch[q][a] == ch0[p][a0]);
                        assert(ch[q][b] == ch0[p][b0]);
                    }
                }
            }
            assert forall|q: u64, x: u64|
                ch.contains_key(q) && #[trigger] ch[q].contains(x) implies pa.contains_key(x)
                    && pa[x] == q by {
                if q == p {
                    assert(ch[q] == ch0[p].remove(i));
                    assert(ch0[p].contains(x) && x != c);
                } else {
                    assert(ch0.contains_key(q));
                    assert(ch[q] == ch0[q]);
                    assert(pa0[x] == q);
                }
            }
            assert forall|x: u64| #[trigger] pa.contains_key(x) implies ch[pa[x]].contains(x) by {
                assert(pa0.contains_key(x) && x != c);
                if pa0[x] != p {
                    assert(ch0.contains_key(pa0[x]));
                    assert(ch[pa[x]] == ch0[pa0[x]]);
                }
            }
        }
    }

    /// Attaches node `child` as the last child of node `parent`. Refused when
    /// either id is unknown, when the child already has a parent, and when the
    /// child is the parent itself or above it.
    pub fn add_child(&mut self, parent: u64, child: u64) -> (r: Result<(), LayoutError>)
        requires
            old(self).wf(),
        ensures
            final(self).wf(),
            final(self).records() == old(self).records(),
            !(old(self).records().contains_key(parent) && old(self).records().contains_key(child))
                ==> r == Err::<(), LayoutError>(LayoutError::InvalidNodeId),
            old(self).records().contains_key(parent) && old(self).records().contains_key(child)
                ==> ({
                let pe = old(self).records()[parent].engine;
                let ce = old(self).records()[child].engine;
                &&& old(self).links().contains_key(ce) ==> r == Err::<(), LayoutError>(
                    LayoutError::AlreadyAttached,
                )
                &&& !old(self).links().contains_key(ce) && is_above(old(self).links(), pe, ce)
                    ==> r == Err::<(), LayoutError>(LayoutError::WouldCycle)
                &&& !old(self).links().contains_key(ce) && !is_above(old(self).links(), pe, ce)
                    ==> r is Ok && final(self).children() == old(self).children().insert(
                    pe,
                    old(self).children()[pe].push(ce),
                ) && final(self).links() == old(self).links().insert(ce, pe)
            }),
            r is Err ==> final(self).children() == old(self).children() && final(self).links()
                == old(self).links(),
    {
        let pe = match self.records.get(&parent) {
            Some(rec) => rec.engine,
            None => {
                return Err(LayoutError::InvalidNodeId);
            },
        };
        let ce = match self.records.get(&child) {
            Some(rec) => rec.engine,
            None => {
                return Err(LayoutError::InvalidNodeId);
            },
        };
        if self.up.contains_key(&ce) {
            return Err(LayoutError::AlreadyAttached);
        }
        let ghost ch0 = engine_children(self.engine);
        let ghost pa0 = engine_parents(self.engine);
        proof {
            assert(self.records@.contains_key(parent));
            assert(self.records@.contains_key(child));
        }
        let mut cur = pe;
        let ghost mut fuel: nat = 0;
        proof {
            assert(grounded_at(pa0, pe));
            fuel = choose|n: nat| climbs(pa0, pe, n);
        }
        while cur != ce && self.up.contains_key(&cur)
            invariant
                self.wf(),
                self.up@ == pa0,
                engine_children(self.engine) == ch0,
                engine_parents(self.engine) == pa0,
                self.records@ == old(self).records@,
                climbs(pa0, cur, fuel),
                is_above(pa0, pe, ce) == is_above(pa0, cur, ce),
            decreases fuel,
        {
            proof {
                lemma_above_step(pa0, cur, ce);
            }
            cur = match self.up.get(&cur) {
                Some(q) => *q,
                None => cur,
            };
            proof {
                fuel = (fuel - 1) as nat;
            }
        }
        if cur == ce {
            proof {
                assert(above(pa0, cur, ce, 0));
            }
            return Err(LayoutError::WouldCycle);
        }
        proof {
            lemma_above_root(pa0, cur, ce);
            lemma_grounded_insert(pa0, ce, pe);
        }
        engine_add_child(&mut self.engine, pe, ce);
        self.up.insert(ce, pe);
        let ghost ch = engine_children(self.engine);
        let ghost pa = engine_parents(self.engine);
        proof {
            assert(self.owners@.dom() =~= ch.dom());
            assert(!ch0[pe].contains(ce));
            assert forall|q: u64| #[trigger] ch.contains_key(q) implies ch[q].no_duplicates() by {
                if q == pe {
                    assert forall|a: int, b: int|
                        0 <= a < ch[q].len() && 0 <= b < ch[q].len() && a != b implies ch[q][a]
                        != ch[q][b] by {
                        if a < ch0[pe].len() && b < ch0[pe].len() {
                            assert(ch[q][a] == ch0[pe][a]);
                            assert(ch[q][b] == ch0[pe][b]);
                        } else if a < ch0[pe].len() {
                            assert(ch0[pe].contains(ch[q][a]));
                        } else {
                            assert(ch0[pe].contains(ch[q][b]));
                        }
                    }
                }
            }
            assert forall|q: u64, x: u64|
                ch.contains_key(q) && #[trigger] ch[q].contains(x) implies pa.contains_key(x)
                    && pa[x] == q by {
                if q == pe {
                    assert(ch[q] == ch0[pe].push(ce));
                    if x != ce {
                        let j = choose|j: int| 0 <= j < ch[q].len() && ch[q][j] == x;
                        assert(j < ch0[pe].len());
                        assert(ch0[pe][j] == x);
                        assert(ch0[pe].contains(x));
                    }
                } else {
                    assert(ch0.contains_key(q));
                    assert(ch[q] == ch0[q]);
                }
            }
            assert forall|x: u64| #[trigger] pa.contains_key(x) implies ch[pa[x]].contains(x) by {
                if x == ce {
                    assert(ch[pe][ch0[pe].len() as int] == ce);
                } else {
                    assert(pa0.contains_key(x));
                    if pa0[x] == pe {
                        let j = choose|j: int| 0 <= j < ch0[pe].len() && ch0[pe][j] == x;
                        assert(ch[pe][j] == x);
                    } else {
                        assert(ch0.contains_key(pa0[x]));
                        assert(ch[pa[x]] == ch0[pa0[x]]);
                    }
                }
            }
        }
        Ok(())
    }

    /// Detaches node `child` from node `parent`. Refused when either id is
    /// unknown, and when `child` is not a child of `parent`.
    pub fn remove_child(&mut self, parent: u64, child: u64) -> (r: Result<(), LayoutError>)
        requires
            old(self).wf(),
        ensures
            final(self).wf(),
            final(self).records() == old(self).records(),
            !(old(self).records().contains_key(parent) && old(self).records().contains_key(child))
                ==> r == Err::<(), LayoutError>(LayoutError::InvalidNodeId),
            old(self).records().contains_key(parent) && old(self).records().contains_key(child)
                ==> ({
                let pe = old(self).records()[parent].engine;
                let ce = old(self).records()[child].engine;
                &&& !old(self).children()[pe].contains(ce) ==> r == Err::<(), LayoutError>(
                    LayoutError::NotAChild,
                )
                &&& old(self).children()[pe].contains(ce) ==> r is Ok && old(self).links().contains_key(ce)
                    && old(self).links()[ce] == pe && final(self).links()
                    == old(self).links().remove(ce) && exists|i: int|
                    0 <= i < old(self).children()[pe].len() && old(self).children()[pe][i] == ce
                        && final(self).children() == old(self).children().insert(
                        pe,
                        old(self).children()[pe].remove(i),
                    )
            }),
            r is Err ==> final(self).children() == old(self).children() && final(self).links()
                == old(self).links(),
    {
        let pe = match self.records.get(&parent) {
            Some(rec) => rec.engine,
            None => {
                return Err(LayoutError::InvalidNodeId);
            },
        };
        let ce = match self.records.get(&child) {
            Some(rec) => rec.engine,
            None => {
                return Err(LayoutError::InvalidNodeId);
            },
        };
        proof {
            assert(self.records@.contains_key(parent));
            assert(self.records@.contains_key(child));
        }
        let attached = match self.up.get(&ce) {
            Some(q) => *q == pe,
            None => false,
        };
        if !attached {
            return Err(LayoutError::NotAChild);
        }
        self.detach(pe, ce);
        Ok(())
    }

    /// Removes node `id`: it is detached from its parent, its children are
    /// detached from it and become roots, and its engine node and record are
    /// dropped.
    pub fn remove(&mut self, id: u64) -> (r: Result<(), LayoutError>)
        requires
            old(self).wf(),
        ensures
            final(self).wf(),
            !old(self).records().contains_key(id) ==> r == Err::<(), LayoutError>(
                LayoutError::InvalidNodeId,
            ) && final(self).records() == old(self).records() && final(self).children() == old(
                self,
            ).children(),
            old(self).records().contains_key(id) ==> r is Ok && final(self).records() == old(
                self,
            ).records().remove(id) && ({
                let e = old(self).records()[id].engine;
                &&& final(self).children().dom() == old(self).children().dom().remove(e)
                &&& final(self).links() == links_without(old(self).links(), e)
                &&& forall|q: u64|
                    #[trigger] final(self).children().contains_key(q) && !(old(self).links().contains_key(e)
                        && q == old(self).links()[e]) ==> final(self).children()[q] == old(self).children()[q]
                &&& old(self).links().contains_key(e) ==> exists|i: int|
                    0 <= i < old(self).children()[old(self).links()[e]].len()
                        && old(self).children()[old(self).links()[e]][i] == e
                        && final(self).children()[old(self).links()[e]] == old(self).children()[old(
                        self,
                    ).links()[e]].remove(i)
            }),
    {
        let e = match self.records.get(&id) {
            Some(rec) => rec.engine,
            None => {
                return Err(LayoutError::InvalidNodeId);
            },
        };
        proof {
            assert(self.records@.contains_key(id));
        }
        let up = match self.up.get(&e) {
            Some(q) => Some(*q),
            None => None,
        };
        let ghost ch_old = engine_children(self.engine);
        let ghost pa_old = engine_parents(self.engine);
        proof {
            if pa_old.contains_key(e) {
                lemma_parent_not_below(pa_old, e);
                if pa_old[e] == e {
                    assert(above(pa_old, pa_old[e], e, 0));
                }
            }
        }
        match up {
            Some(q) => {
                self.detach(q, e);
            },
            None => {},
        }
        let ghost ch1 = engine_children(self.engine);
        proof {
            assert(ch1[e] == ch_old[e]);
        }
        let mut kids = engine_children_of(&self.engine, e);
        while kids.len() > 0
            invariant
                self.wf(),
                engine_children(self.engine).dom() == ch1.dom(),
                forall|q: u64| q != e ==> #[trigger] engine_children(self.engine)[q] == ch1[q],
                forall|x: u64|
                    #[trigger] engine_parents(self.engine).contains_key(x) <==> (pa_old.contains_key(x) && x
                        != e && (pa_old[x] != e || engine_children(self.engine)[e].contains(x))),
                forall|x: u64|
                    #[trigger] engine_parents(self.engine).contains_key(x) ==> engine_parents(self.engine)[x]
                        == pa_old[x],
                self.records@ == old(self).records@,
                self.records@.contains_key(id),
                self.records@[id].engine == e,
                engine_children(self.engine).contains_key(e),
                !engine_parents(self.engine).contains_key(e),
                kids@ == engine_children(self.engine)[e],
            decreases kids.len(),
        {
            let c = kids[0];
            let ghost chb = engine_children(self.engine);
            let ghost pab = engine_parents(self.engine);
            proof {
                assert(kids@[0] == c);
                assert(chb[e].contains(c));
            }
            self.detach(e, c);
            kids = engine_children_of(&self.engine, e);
            proof {
                let ch2 = engine_children(self.engine);
                let i = choose|i: int|
                    0 <= i < chb[e].len() && chb[e][i] == c && ch2 == chb.insert(e, chb[e].remove(i));
                assert(chb[e].no_duplicates());
                assert(i == 0);
                assert(ch2[e] =~= chb[e].subrange(1, chb[e].len() as int));
                assert forall|x: u64| x != c implies (ch2[e].contains(x) <==> chb[e].contains(x)) by {
                    if chb[e].contains(x) {
                        let t = choose|t: int| 0 <= t < chb[e].len() && chb[e][t] == x;
                        assert(t != 0);
                        assert(ch2[e][t - 1] == x);
                    }
                    if ch2[e].contains(x) {
                        let t = choose|t: int| 0 <= t < ch2[e].len() && ch2[e][t] == x;
                        assert(chb[e][t + 1] == x);
                    }
                }
                assert forall|q: u64| q != e implies #[trigger] ch2[q] == ch1[q] by {
                    assert(chb[q] == ch1[q]);
                }
                assert forall|x: u64| #[trigger] engine_parents(self.engine).contains_key(x) <==> (
                    pa_old.contains_key(x) && x != e && (pa_old[x] != e || ch2[e].contains(x))) by {
                    assert(pab.contains_key(x) <==> (pa_old.contains_key(x) && x != e && (pa_old[x] != e
                        || chb[e].contains(x))));
                    if x == c {
                        assert(pab.contains_key(c) && pab[c] == e);
                    }
                }
            }
        }
        proof {
            let chz = engine_children(self.engine);
            assert forall|x: u64| #[trigger] engine_parents(self.engine).contains_key(x) <==> links_without(
                pa_old,
                e,
            ).contains_key(x) by {
                assert(!chz[e].contains(x));
            }
            assert(engine_parents(self.engine) =~= links_without(pa_old, e));
        }
        let ghost ch0 = engine_children(self.engine);
        let ghost pa0 = engine_parents(self.engine);
        engine_remove(&mut self.engine, e);
        self.owners.remove(&e);
        self.records.remove(&id);
        let ghost ch = engine_children(self.engine);
        let ghost pa = engine_parents(self.engine);
        proof {
            assert(self.owners@.dom() =~= ch.dom());
            assert forall|x: u64| #[trigger] pa.contains_key(x) implies ch.contains_key(x)
                && ch.contains_key(pa[x]) by {
                assert(ch0[pa0[x]].contains(x));
                if pa0[x] == e {
                    assert(ch0[e].len() == 0);
                }
                assert(x != e);
            }
            assert forall|q: u64, x: u64|
                ch.contains_key(q) && #[trigger] ch[q].contains(x) implies pa.contains_key(x)
                    && pa[x] == q by {
                assert(ch0[q] == ch[q]);
            }
            assert forall|x: u64| #[trigger] pa.contains_key(x) implies ch[pa[x]].contains(x) by {
                assert(ch0[pa0[x]].contains(x));
                assert(pa0[x] != e);
            }
            assert forall|x: u64| #[trigger] self.records@.contains_key(x) implies self.owners@.contains_key(
                self.records@[x].engine,
            ) && self.owners@[self.records@[x].engine] == x by {
                assert(old(self).records@.contains_key(x));
                assert(x != id);
            }
        }
        Ok(())
    }

    /// Lays out the subtree of node `id` within `space`, walks it in
    /// pre-order, and returns, in walk order, each node whose absolute box
    /// differs from its record, with that box; the records take the new boxes.
    /// The walk starts at the node, follows the engine's children lists,
    /// visits every node of the subtree exactly once and reads each node's
    /// box from the engine.
    pub fn measure(
        &mut self,
        id: u64,
        space: taffy::geometry::Size<taffy::style::AvailableSpace>,
    ) -> (r: Result<Vec<(u64, LayoutBox)>, LayoutError>)
        requires
            old(self).wf(),
        ensures
            final(self).wf(),
            final(self).children() == old(self).children(),
            final(self).links() == old(self).links(),
            !old(self).records().contains_key(id) ==> r == Err::<Vec<(u64, LayoutBox)>, LayoutError>(
                LayoutError::InvalidNodeId,
            ) && final(self).records() == old(self).records(),
            old(self).records().contains_key(id) ==> r is Ok && exists|v: Seq<Visit>|
                measured_by(old(self).records(), id, v, final(self).records(), r->Ok_0@)
                    && follows_engine(old(self).children(), old(self).records(), v)
                    && locals_from(final(self).layouts(), old(self).records(), v)
                    && walk_complete(old(self).children(), old(self).records(), v),
    {
        let e = match self.records.get(&id) {
            Some(rec) => rec.engine,
            None => {
                return Err(LayoutError::InvalidNodeId);
            },
        };
        proof {
            assert(self.records@.contains_key(id));
        }
        engine_compute(&mut self.engine, e, space);
        let budget = self.owners.len();
        let ghost ch0 = engine_children(self.engine);
        let ghost pa0 = engine_parents(self.engine);
        let ghost recs = self.records@;
        let ghost lay0 = engine_layouts(self.engine);
        let ghost mut vk: Seq<u64> = seq![];
        let mut stack: Vec<(u64, Option<usize>)> = vec![(e, None)];
        let mut visits: Vec<Visit> = Vec::new();
        proof {
            assert(budget == self.owners@.dom().len());
            assert(is_above(pa0, e, e)) by {
                assert(above(pa0, e, e, 0));
            }
        }
        while stack.len() > 0 && visits.len() <= budget
            invariant
                self.wf(),
                self.records@ == old(self).records@,
                self.records@ == recs,
                engine_children(self.engine) == ch0,
                engine_parents(self.engine) == pa0,
                engine_layouts(self.engine) == lay0,
                ch0 == old(self).children(),
                pa0 == old(self).links(),
                budget == self.owners@.dom().len(),
                locals_from(lay0, recs, visits@),
                recs.contains_key(id),
                recs[id].engine == e,
                walk_ordered(visits@),
                follows_engine(ch0, recs, visits@),
                visits.len() <= budget,
                vk.len() == visits.len(),
                forall|i: int| 0 <= i < vk.len() ==> #[trigger] vk[i] == walk_key(recs, visits@, i),
                vk.no_duplicates(),
                forall|i: int, j: int|
                    0 <= i < vk.len() && 0 <= j < stack.len() ==> #[trigger] vk[i] != #[trigger] stack[j].0,
                forall|a: int, b: int|
                    0 <= a < stack.len() && 0 <= b < stack.len() && a != b ==> #[trigger] stack[a].0
                        != #[trigger] stack[b].0,
                forall|i: int| 0 <= i < vk.len() ==> is_above(pa0, #[trigger] vk[i], e),
                forall|j: int|
                    0 <= j < stack.len() ==> is_above(pa0, (#[trigger] stack[j]).0, e) && ch0.contains_key(
                        stack[j].0,
                    ),
                forall|i: int, c: u64|
                    0 <= i < vk.len() && #[trigger] ch0[vk[i]].contains(c) ==> vk.contains(c) || exists|
                        j: int,
                    | 0 <= j < stack.len() && #[trigger] stack[j].0 == c,
                forall|j: int|
                    0 <= j < stack.len() ==> match (#[trigger] stack[j]).1 {
                        Some(p) => p < visits.len() && ch0[recs[visits[p as int].id].engine].contains(
                            stack[j].0,
                        ),
                        None => visits.len() == 0,
                    },
                visits.len() == 0 ==> stack@ == seq![(e, None::<usize>)],
                visits.len() > 0 ==> visits[0].id == id && visits[0].parent is None,
            decreases budget + 1 - visits.len(), stack.len(),
        {
            let ghost st = stack@;
            let top = stack.pop();
            let (k, par) = match top {
                Some(t) => t,
                None => (e, None),
            };
            let ghost st1 = stack@;
            proof {
                assert(st[st.len() - 1] == (k, par));
                assert(st1 =~= st.drop_last());
                assert(ch0.contains_key(k));
                assert(self.owners@.contains_key(k));
                if visits.len() == 0 {
                    assert(k == e);
                }
            }
            let owner = match self.owners.get(&k) {
                Some(n) => match self.records.get(n) {
                    Some(rec) => if rec.engine == k {
                        Some(*n)
                    } else {
                        None
                    },
                    None => None,
                },
                None => None,
            };
            match owner {
                Some(nid) => {
                    let local = engine_layout(&self.engine, k);
                    let idx = visits.len();
                    let ghost vs0 = visits@;
                    let ghost vk0 = vk;
                    visits.push(Visit { id: nid, parent: par, local });
                    proof {
                        vk = vk.push(k);
                        assert(visits@ == vs0.push(Visit { id: nid, parent: par, local }));
                        assert forall|i: int| 0 <= i < visits.len() implies (#[trigger] visits@[i]).local
                            == lay0[recs[visits@[i].id].engine] by {
                            if i < idx {
                                assert(visits@[i] == vs0[i]);
                            }
                        }
                        assert forall|i: int| 0 <= i < visits.len() implies match (#[trigger] visits@[i]).parent {
                            Some(p) => p < i,
                            None => true,
                        } by {
                            if i < idx {
                                assert(visits@[i] == vs0[i]);
                            }
                        }
                        assert forall|i: int| 0 <= i < visits.len() implies #[trigger] follows_at(
                            ch0,
                            recs,
                            visits@,
                            i,
                        ) by {
                            if i < idx {
                                assert(follows_at(ch0, recs, vs0, i));
                                assert(visits@[i] == vs0[i]);
                                match vs0[i].parent {
                                    Some(p) => {
                                        assert(visits@[p as int] == vs0[p as int]);
                                    },
                                    None => {},
                                }
                            } else {
                                match par {
                                    Some(p) => {
                                        assert(visits@[p as int] == vs0[p as int]);
                                    },
                                    None => {},
                                }
                            }
                        }
                        assert forall|i: int| 0 <= i < vk.len() implies #[trigger] vk[i] == walk_key(recs, visits@, i) by {
                            if i < idx {
                                assert(vk[i] == vk0[i]);
                                assert(visits@[i] == vs0[i]);
                            }
                        }
                        assert forall|a: int, b: int| 0 <= a < vk.len() && 0 <= b < vk.len() && a != b implies vk[a] != vk[b] by {
                            if a == idx {
                                assert(vk0[b] != st[st.len() - 1].0);
                            } else if b == idx {
                                assert(vk0[a] != st[st.len() - 1].0);
                            } else {
                                assert(vk[a] == vk0[a] && vk[b] == vk0[b]);
                            }
                        }
                        assert(vk.to_set().subset_of(self.owners@.dom())) by {
                            assert forall|x: u64| vk.to_set().contains(x) implies self.owners@.dom().contains(x) by {
                                let i = choose|i: int| 0 <= i < vk.len() && vk[i] == x;
                                if i < idx {
                                    assert(vk[i] == vk0[i]);
                                    assert(follows_at(ch0, recs, vs0, i));
                                }
                            }
                        }
                        vk.unique_seq_to_set();
                        vstd::set_lib::lemma_len_subset(vk.to_set(), self.owners@.dom());
                    }
                    let kids = engine_children_of(&self.engine, k);
                    let mut j = kids.len();
                    while j > 0
                        invariant
                            j <= kids.len(),
                            idx < visits.len(),
                            visits.len() > 0,
                            kids@ == ch0[k],
                            recs[visits[idx as int].id].engine == k,
                            stack.len() == st1.len() + (kids.len() - j),
                            forall|m: int| 0 <= m < st1.len() ==> #[trigger] stack[m] == st1[m],
                            forall|m: int|
                                st1.len() <= m < stack.len() ==> #[trigger] stack[m] == (
                                    kids[kids.len() - 1 - (m - st1.len())],
                                    Some(idx),
                                ),
                        decreases j,
                    {
                        j = j - 1;
                        stack.push((kids[j], Some(idx)));
                    }
                    proof {
                        let n = kids.len() as int;
                        let b0 = st1.len() as int;
                        assert(ch0[k].no_duplicates());
                        assert(is_above(pa0, k, e));
                        assert forall|m: int| b0 <= m < stack.len() implies pa0.contains_key(#[trigger] stack[m].0)
                            && pa0[stack[m].0] == k && ch0.contains_key(stack[m].0) && ch0[k].contains(stack[m].0) by {
                            assert(stack[m].0 == kids[n - 1 - (m - b0)]);
                            assert(ch0[k].contains(kids[n - 1 - (m - b0)]));
                        }
                        // keys of visits and of the stack stay apart
                        assert forall|i: int, m: int|
                            0 <= i < vk.len() && 0 <= m < stack.len() implies #[trigger] vk[i] != #[trigger] stack[m].0 by {
                            if m < b0 {
                                assert(stack[m] == st1[m] && st1[m] == st[m]);
                                if i == idx {
                                    assert(st[m].0 != st[st.len() - 1].0);
                                } else {
                                    assert(vk[i] == vk0[i]);
                                }
                            } else {
                                let c = stack[m].0;
                                if vk[i] == c {
                                    if i == idx {
                                        lemma_parent_not_below(pa0, k);
                                        assert(above(pa0, pa0[k], k, 0));
                                    } else if i == 0 {
                                        assert(vk[0] == e) by {
                                            assert(visits@[0].id == id);
                                        }
                                        lemma_parent_not_below(pa0, e);
                                    } else {
                                        assert(follows_at(ch0, recs, visits@, i));
                                        let p = visits@[i].parent->0 as int;
                                        assert(follows_at(ch0, recs, visits@, p));
                                        assert(vk[p] == walk_key(recs, visits@, p));
                                        assert(ch0[vk[p]].contains(vk[i]));
                                        assert(pa0[vk[i]] == vk[p]);
                                        assert(vk[p] == vk[idx as int]);
                                    }
                                }
                            }
                        }
                        assert forall|a: int, b: int|
                            0 <= a < stack.len() && 0 <= b < stack.len() && a != b implies #[trigger] stack[a].0
                                != #[trigger] stack[b].0 by {
                            if a < b0 && b < b0 {
                                assert(stack[a] == st[a] && stack[b] == st[b]);
                            } else if a >= b0 && b >= b0 {
                                assert(stack[a].0 == ch0[k][n - 1 - (a - b0)]);
                                assert(stack[b].0 == ch0[k][n - 1 - (b - b0)]);
                            } else {
                                let (o, w) = if a < b0 { (a, b) } else { (b, a) };
                                assert(stack[o] == st[o]);
                                assert(visits.len() > 1 || idx == 0);
                                if idx > 0 {
                                    let p = st[o].1->0 as int;
                                    assert(p < idx);
                                    assert(follows_at(ch0, recs, visits@, p));
                                    assert(vk[p] == walk_key(recs, visits@, p));
                                    assert(ch0[vk[p]].contains(st[o].0));
                                    if stack[o].0 == stack[w].0 {
                                        assert(pa0[st[o].0] == vk[p]);
                                        assert(vk[p] == k);
                                        assert(vk0[p] != st[st.len() - 1].0);
                                    }
                                } else {
                                    assert(st.len() == 1);
                                }
                            }
                        }
                        assert forall|m: int| 0 <= m < stack.len() implies is_above(pa0, (#[trigger] stack[m]).0, e)
                            && ch0.contains_key(stack[m].0) by {
                            if m < b0 {
                                assert(stack[m] == st[m]);
                            } else {
                                let c = stack[m].0;
                                if c != e {
                                    lemma_above_step(pa0, c, e);
                                }
                                if c == e {
                                    assert(above(pa0, c, e, 0));
                                }
                            }
                        }
                        assert forall|i: int| 0 <= i < vk.len() implies is_above(pa0, #[trigger] vk[i], e) by {
                            if i < idx {
                                assert(vk[i] == vk0[i]);
                            }
                        }
                        assert forall|i: int, c: u64|
                            0 <= i < vk.len() && #[trigger] ch0[vk[i]].contains(c) implies vk.contains(c) || exists|
                                jj: int,
                            | 0 <= jj < stack.len() && #[trigger] stack[jj].0 == c by {
                            if i == idx {
                                let t = choose|t: int| 0 <= t < n && ch0[k][t] == c;
                                let m = b0 + (n - 1 - t);
                                assert(stack[m].0 == c);
                            } else {
                                assert(vk[i] == vk0[i]);
                                if vk0.contains(c) {
                                    let q = choose|q: int| 0 <= q < vk0.len() && vk0[q] == c;
                                    assert(vk[q] == c);
                                } else {
                                    let jj = choose|jj: int| 0 <= jj < st.len() && st[jj].0 == c;
                                    if jj == st.len() - 1 {
                                        assert(vk[idx as int] == c);
                                    } else {
                                        assert(stack[jj] == st[jj]);
                                    }
                                }
                            }
                        }
                        assert forall|m: int| 0 <= m < stack.len() implies match (#[trigger] stack[m]).1 {
                            Some(p) => p < visits.len() && ch0[recs[visits[p as int].id].engine].contains(
                                stack[m].0,
                            ),
                            None => visits.len() == 0,
                        } by {
                            if m < b0 {
                                assert(stack[m] == st[m]);
                                match st[m].1 {
                                    Some(p) => {
                                        assert(visits@[p as int] == vs0[p as int]);
                                    },
                                    None => {},
                                }
                            }
                        }
                    }
                },
                None => {
                    proof {
                        assert(false);
                    }
                },
            }
        }
        proof {
            if stack.len() > 0 {
                assert(visits.len() > budget);
            }
            assert forall|a: int, b: int|
                0 <= a < visits.len() && 0 <= b < visits.len() && a != b implies #[trigger] walk_key(
                    recs,
                    visits@,
                    a,
                ) != #[trigger] walk_key(recs, visits@, b) by {
                assert(vk[a] == walk_key(recs, visits@, a));
                assert(vk[b] == walk_key(recs, visits@, b));
            }
            assert forall|a: int, c: u64|
                0 <= a < visits.len() && #[trigger] ch0[walk_key(recs, visits@, a)].contains(c) implies exists|
                    b: int,
                | 0 <= b < visits.len() && #[trigger] walk_key(recs, visits@, b) == c by {
                assert(vk[a] == walk_key(recs, visits@, a));
                assert(ch0[vk[a]].contains(c));
                assert(vk.contains(c));
                let b = choose|b: int| 0 <= b < vk.len() && vk[b] == c;
                assert(vk[b] == walk_key(recs, visits@, b));
            }
            assert(walk_complete(ch0, recs, visits@));
        }
        let mut ids: Vec<u64> = Vec::new();
        let mut i: usize = 0;
        while i < visits.len()
            invariant
                i <= visits.len(),
                ids@ == walk_ids(visits@).take(i as int),
            decreases visits.len() - i,
        {
            ids.push(visits[i].id);
            i = i + 1;
        }
        let boxes = absolute_boxes(&visits);
        let ghost before = self.records@;
        let changes = record_changes(&mut self.records, &ids, &boxes);
        proof {
            assert(ids@ =~= walk_ids(visits@));
            assert(boxes@ =~= walk_boxes(visits@));
            lemma_diff_keeps_domain(before, ids@, boxes@, ids.len() as nat);
            assert forall|x: u64| #[trigger] self.records@.contains_key(x) implies self.owners@.contains_key(
                self.records@[x].engine,
            ) && self.owners@[self.records@[x].engine] == x by {
                assert(before.contains_key(x));
            }
            assert(measured_by(before, id, visits@, self.records@, changes@));
            assert(before == old(self).records());
            assert(measured_by(old(self).records(), id, visits@, self.records(), changes@));
        }
        let r: Result<Vec<(u64, LayoutBox)>, LayoutError> = Ok(changes);
        assert(r->Ok_0@ == changes@);
        assert(measured_by(old(self).records(), id, visits@, self.records(), r->Ok_0@)
            && follows_engine(old(self).children(), old(self).records(), visits@)
            && locals_from(self.layouts(), old(self).records(), visits@)
            && walk_complete(old(self).children(), old(self).records(), visits@));
        r
    }

    /// The box recorded for node `id` at the last measurement.
    pub fn layout_of(&self, id: u64) -> (r: Result<LayoutBox, LayoutError>)
        ensures
            r == (if self.records().contains_key(id) {
                Ok::<LayoutBox, LayoutError>(self.records()[id].last)
            } else {
                Err(LayoutError::InvalidNodeId)
            }),
    {
        match self.records.get(&id) {
            Some(rec) => Ok(rec.last),
            None => Err(LayoutError::InvalidNodeId),
        }
    }
}

proof fn lemma_walk_avoids(after: Worker, ce: u64, v: Seq<Visit>, i: int)
    requires
        after.wf(),
        !after.links().contains_key(ce),
        0 <= i < v.len(),
        follows_engine(after.children(), after.records(), v),
        !is_above(after.links(), after.records()[v[0].id].engine, ce),
    ensures
        !is_above(after.links(), after.records()[v[i].id].engine, ce),
    decreases i,
{
    if i > 0 {
        assert(follows_at(after.children(), after.records(), v, i));
        let p = v[i].parent->0 as int;
        lemma_walk_avoids(after, ce, v, p);
        let k = after.records()[v[i].id].engine;
        let kp = after.records()[v[p].id].engine;
        assert(follows_at(after.children(), after.records(), v, p));
        assert(engine_children(after.engine).contains_key(kp));
        assert(engine_children(after.engine)[kp].contains(k));
        assert(after.links().contains_key(k) && after.links()[k] == kp);
        lemma_above_step(after.links(), k, ce);
    }
}

/// After a child is detached from its parent, a measurement of the former
/// parent walks none of the detached subtree: for a walk that starts at the
/// parent and follows the children lists, the detached child is at or above
/// none of the nodes visited.
pub proof fn detached_subtree_is_not_walked(before: Worker, after: Worker, ce: u64, v: Seq<Visit>)
    requires
        before.wf(),
        after.wf(),
        before.links().contains_key(ce),
        after.links() == before.links().remove(ce),
        v.len() > 0,
        follows_engine(after.children(), after.records(), v),
        after.records()[v[0].id].engine == before.links()[ce],
    ensures
        forall|i: int|
            0 <= i < v.len() ==> !is_above(after.links(), #[trigger] after.records()[v[i].id].engine, ce),
{
    let pa = before.links();
    let pe = pa[ce];
    lemma_parent_not_below(pa, ce);
    if is_above(after.links(), pe, ce) {
        let n = choose|n: nat| above(after.links(), pe, ce, n);
        assert(after.links().submap_of(pa));
        lemma_above_submap(after.links(), pa, pe, ce, n);
    }
    assert forall|i: int|
        0 <= i < v.len() implies !is_above(after.links(), #[trigger] after.records()[v[i].id].engine, ce) by {
        lemma_walk_avoids(after, ce, v, i);
    }
}

/// The record table gives each engine node to at most one node id.
pub open spec fn engines_distinct(recs: Map<u64, LayoutRecord>) -> bool {
    forall|a: u64, b: u64|
        recs.contains_key(a) && recs.contains_key(b) && #[trigger] recs[a].engine
            == #[trigger] recs[b].engine ==> a == b
}

proof fn lemma_same_walk_boxes(
    ch: Map<u64, Seq<u64>>,
    pa: Map<u64, u64>,
    lay: Map<u64, LayoutBox>,
    r0: Map<u64, LayoutRecord>,
    r1: Map<u64, LayoutRecord>,
    v1: Seq<Visit>,
    v2: Seq<Visit>,
    j: int,
)
    requires
        linked(ch, pa),
        engines_distinct(r0),
        r1.dom() == r0.dom(),
        forall|k: u64| #[trigger] r0.contains_key(k) ==> r1[k].engine == r0[k].engine,
        v1.len() > 0,
        v2.len() > 0,
        v1[0].parent is None,
        v2[0].parent is None,
        v1[0].id == v2[0].id,
        walk_ordered(v1),
        walk_ordered(v2),
        follows_engine(ch, r0, v1),
        follows_engine(ch, r1, v2),
        locals_from(lay, r0, v1),
        locals_from(lay, r1, v2),
        walk_complete(ch, r0, v1),
        walk_complete(ch, r1, v2),
        0 <= j < v2.len(),
    ensures
        exists|i: int| 0 <= i < v1.len() && v1[i].id == v2[j].id && absolute(v1, i) == absolute(v2, j),
    decreases j,
{
    assert(follows_at(ch, r1, v2, j));
    assert(follows_at(ch, r0, v1, 0));
    if j == 0 {
        assert(v1[0].local == lay[r0[v1[0].id].engine]);
        assert(v2[0].local == lay[r1[v2[0].id].engine]);
        assert(absolute(v1, 0) == absolute(v2, 0));
    } else {
        let p = v2[j].parent->0 as int;
        assert(follows_at(ch, r1, v2, p));
        lemma_same_walk_boxes(ch, pa, lay, r0, r1, v1, v2, p);
        let ip = choose|i: int|
            0 <= i < v1.len() && v1[i].id == v2[p].id && absolute(v1, i) == absolute(v2, p);
        let kj = r1[v2[j].id].engine;
        let kp = r1[v2[p].id].engine;
        assert(walk_key(r0, v1, ip) == kp);
        assert(follows_at(ch, r0, v1, ip));
        assert(ch[kp].contains(kj));
        let i = choose|b: int| 0 <= b < v1.len() && #[trigger] walk_key(r0, v1, b) == kj;
        assert(follows_at(ch, r0, v1, i));
        assert(r0.contains_key(v2[j].id));
        assert(v1[i].id == v2[j].id);
        if i == 0 {
            assert(walk_key(r1, v2, 0) == walk_key(r1, v2, j));
        }
        let q = v1[i].parent->0 as int;
        assert(follows_at(ch, r0, v1, q));
        assert(pa[kj] == kp);
        assert(pa[kj] == walk_key(r0, v1, q));
        assert(q == ip);
        assert(v1[i].local == lay[r0[v1[i].id].engine]);
        assert(v2[j].local == lay[r1[v2[j].id].engine]);
        assert(absolute(v1, i) == absolute(v2, j));
    }
}

/// Measuring a node twice, with the same engine topology and the same
/// engine boxes both times, reports no change the second time and leaves
/// the records as the first measurement set them.
pub proof fn second_measure_is_quiet(
    ch: Map<u64, Seq<u64>>,
    pa: Map<u64, u64>,
    lay: Map<u64, LayoutBox>,
    id: u64,
    r0: Map<u64, LayoutRecord>,
    v1: Seq<Visit>,
    r1: Map<u64, LayoutRecord>,
    c1: Seq<(u64, LayoutBox)>,
    v2: Seq<Visit>,
    r2: Map<u64, LayoutRecord>,
    c2: Seq<(u64, LayoutBox)>,
)
    requires
        linked(ch, pa),
        engines_distinct(r0),
        measured_by(r0, id, v1, r1, c1),
        follows_engine(ch, r0, v1),
        locals_from(lay, r0, v1),
        walk_complete(ch, r0, v1),
        measured_by(r1, id, v2, r2, c2),
        follows_engine(ch, r1, v2),
        locals_from(lay, r1, v2),
        walk_complete(ch, r1, v2),
    ensures
        c2.len() == 0,
        r2 == r1,
{
    let ids1 = walk_ids(v1);
    let ids2 = walk_ids(v2);
    lemma_diff_keeps_domain(r0, ids1, walk_boxes(v1), v1.len());
    assert(ids1.no_duplicates()) by {
        assert forall|a: int, b: int| 0 <= a < ids1.len() && 0 <= b < ids1.len() && a != b implies ids1[a]
            != ids1[b] by {
            assert(walk_key(r0, v1, a) != walk_key(r0, v1, b));
        }
    }
    lemma_diff_records_boxes(r0, ids1, walk_boxes(v1), v1.len());
    assert forall|j: int| 0 <= j < ids2.len() && #[trigger] r1.contains_key(ids2[j]) implies r1[ids2[j]].last
        == walk_boxes(v2)[j] by {
        lemma_same_walk_boxes(ch, pa, lay, r0, r1, v1, v2, j);
        let i = choose|i: int| 0 <= i < v1.len() && v1[i].id == v2[j].id && absolute(v1, i) == absolute(v2, j);
        assert(ids1[i] == ids2[j]);
        assert(r1.contains_key(ids1[i]));
    }
    lemma_diff_quiet(r1, ids2, walk_boxes(v2), v2.len());
}

/// A well-formed worker's engine is a forest and gives each engine node to
/// one node id at most.
pub proof fn lemma_worker_shape(w: Worker)
    requires
        w.wf(),
    ensures
        linked(w.children(), w.links()),
        grounded(w.links()),
        engines_distinct(w.records()),
{
    assert forall|a: u64, b: u64|
        w.records().contains_key(a) && w.records().contains_key(b) && #[trigger] w.records()[a].engine
            == #[trigger] w.records()[b].engine implies a == b by {
        assert(w.records@.contains_key(a) && w.records@.contains_key(b));
    }
}

/// Once a node has been removed, every lookup by its id fails with
/// `InvalidNodeId`: its record is gone, and `layout_of`, `measure`,
/// `add_child`, `remove_child` and `remove` all refuse an id without one.
pub proof fn removed_node_is_unknown(before: Worker, after: Worker, id: u64)
    requires
        after.records() == before.records().remove(id),
    ensures
        !after.records().contains_key(id),
{
}

} // verus!
