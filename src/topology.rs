//! Facts about parent links: chains that end, and which nodes lie above
//! which.
use vstd::prelude::*;
use crate::engine::{climbs, grounded, grounded_at};

verus! {

/// Following parent links from `x` meets `c` within `n` steps.
pub open spec fn above(pa: Map<u64, u64>, x: u64, c: u64, n: nat) -> bool
    decreases n,
{
    x == c || (n > 0 && pa.contains_key(x) && above(pa, pa[x], c, (n - 1) as nat))
}

/// `c` is `x` or one of its ancestors.
pub open spec fn is_above(pa: Map<u64, u64>, x: u64, c: u64) -> bool {
    exists|n: nat| above(pa, x, c, n)
}

/// A chain that ends within `n` steps ends within any larger number.
pub proof fn lemma_climbs_more(pa: Map<u64, u64>, x: u64, n: nat, m: nat)
    requires
        climbs(pa, x, n),
        n <= m,
    ensures
        climbs(pa, x, m),
    decreases n,
{
    if pa.contains_key(x) {
        lemma_climbs_more(pa, pa[x], (n - 1) as nat, (m - 1) as nat);
    }
}

/// Dropping parent links keeps every chain finite.
pub proof fn lemma_climbs_submap(pa: Map<u64, u64>, sub: Map<u64, u64>, x: u64, n: nat)
    requires
        climbs(pa, x, n),
        sub.submap_of(pa),
    ensures
        climbs(sub, x, n),
    decreases n,
{
    if sub.contains_key(x) {
        assert(pa.contains_key(x) && sub[x] == pa[x]);
        lemma_climbs_submap(pa, sub, pa[x], (n - 1) as nat);
    }
}

pub proof fn lemma_grounded_submap(pa: Map<u64, u64>, sub: Map<u64, u64>)
    requires
        grounded(pa),
        sub.submap_of(pa),
    ensures
        grounded(sub),
{
    assert forall|x: u64| #[trigger] grounded_at(sub, x) by {
        assert(grounded_at(pa, x));
        let n = choose|n: nat| climbs(pa, x, n);
        lemma_climbs_submap(pa, sub, x, n);
    }
}

/// A chain from `x` that never meets `c` is unchanged by giving `c` a parent.
proof fn lemma_climbs_avoiding(pa: Map<u64, u64>, x: u64, c: u64, p: u64, n: nat)
    requires
        climbs(pa, x, n),
        !is_above(pa, x, c),
    ensures
        climbs(pa.insert(c, p), x, n),
    decreases n,
{
    if x == c {
        assert(above(pa, x, c, 0));
    }
    if pa.contains_key(x) {
        assert(!is_above(pa, pa[x], c)) by {
            if is_above(pa, pa[x], c) {
                let k = choose|k: nat| above(pa, pa[x], c, k);
                assert(above(pa, x, c, k + 1));
            }
        }
        lemma_climbs_avoiding(pa, pa[x], c, p, (n - 1) as nat);
    }
}

proof fn lemma_climbs_insert(pa: Map<u64, u64>, x: u64, c: u64, p: u64, n: nat, m: nat)
    requires
        climbs(pa, x, n),
        climbs(pa.insert(c, p), p, m),
    ensures
        climbs(pa.insert(c, p), x, n + m + 1),
    decreases n,
{
    let pa2 = pa.insert(c, p);
    if x == c {
        lemma_climbs_more(pa2, p, m, n + m);
    } else if pa.contains_key(x) {
        lemma_climbs_insert(pa, pa[x], c, p, (n - 1) as nat, m);
    }
}

/// Making `p` the parent of `c` keeps every chain finite when `c` is not `p`
/// nor above it.
pub proof fn lemma_grounded_insert(pa: Map<u64, u64>, c: u64, p: u64)
    requires
        grounded(pa),
        !is_above(pa, p, c),
    ensures
        grounded(pa.insert(c, p)),
{
    assert(grounded_at(pa, p));
    let m = choose|m: nat| climbs(pa, p, m);
    lemma_climbs_avoiding(pa, p, c, p, m);
    assert forall|x: u64| #[trigger] grounded_at(pa.insert(c, p), x) by {
        assert(grounded_at(pa, x));
        let n = choose|n: nat| climbs(pa, x, n);
        lemma_climbs_insert(pa, x, c, p, n, m);
    }
}

/// One step up from a node other than `c` does not change whether `c` is
/// above.
pub proof fn lemma_above_step(pa: Map<u64, u64>, x: u64, c: u64)
    requires
        x != c,
        pa.contains_key(x),
    ensures
        is_above(pa, x, c) == is_above(pa, pa[x], c),
{
    if is_above(pa, x, c) {
        let n = choose|n: nat| above(pa, x, c, n);
        assert(above(pa, pa[x], c, (n - 1) as nat));
    }
    if is_above(pa, pa[x], c) {
        let n = choose|n: nat| above(pa, pa[x], c, n);
        assert(above(pa, x, c, n + 1));
    }
}

/// From a node other than `c` with no parent, `c` is not above.
pub proof fn lemma_above_root(pa: Map<u64, u64>, x: u64, c: u64)
    requires
        x != c,
        !pa.contains_key(x),
    ensures
        !is_above(pa, x, c),
{
    if is_above(pa, x, c) {
        let n = choose|n: nat| above(pa, x, c, n);
        assert(!above(pa, x, c, n));
    }
}

/// A node met on the way up from `x` is met within the links of any larger
/// map.
pub proof fn lemma_above_submap(sub: Map<u64, u64>, pa: Map<u64, u64>, x: u64, c: u64, n: nat)
    requires
        above(sub, x, c, n),
        sub.submap_of(pa),
    ensures
        above(pa, x, c, n),
    decreases n,
{
    if x != c {
        assert(pa.contains_key(x) && pa[x] == sub[x]);
        lemma_above_submap(sub, pa, sub[x], c, (n - 1) as nat);
    }
}

/// A chain that ends from `x` also ends, no later, from any node on it.
proof fn lemma_climbs_on_chain(pa: Map<u64, u64>, x: u64, c: u64, n: nat, m: nat)
    requires
        above(pa, x, c, n),
        climbs(pa, x, m),
    ensures
        climbs(pa, c, m),
    decreases n,
{
    if x != c {
        lemma_climbs_on_chain(pa, pa[x], c, (n - 1) as nat, (m - 1) as nat);
        lemma_climbs_more(pa, c, (m - 1) as nat, m);
    }
}

proof fn lemma_cycle_never_climbs(pa: Map<u64, u64>, c: u64, n: nat, m: nat)
    requires
        pa.contains_key(c),
        above(pa, pa[c], c, n),
    ensures
        !climbs(pa, c, m),
    decreases m,
{
    if climbs(pa, c, m) {
        lemma_climbs_on_chain(pa, pa[c], c, n, (m - 1) as nat);
        lemma_cycle_never_climbs(pa, c, n, (m - 1) as nat);
    }
}

/// Where chains end, a node is never above its own parent.
pub proof fn lemma_parent_not_below(pa: Map<u64, u64>, c: u64)
    requires
        grounded(pa),
        pa.contains_key(c),
    ensures
        !is_above(pa, pa[c], c),
{
    if is_above(pa, pa[c], c) {
        let n = choose|n: nat| above(pa, pa[c], c, n);
        assert(grounded_at(pa, c));
        let m = choose|m: nat| climbs(pa, c, m);
        lemma_cycle_never_climbs(pa, c, n, m);
    }
}

} // verus!
