//! Pieces of the rollbackable simulation state that stand on their own:
//! the shared rollback cursor, entity keys, and the ghost mirrors a region
//! hosts for its neighbours' entities near the seam.

use vstd::prelude::*;
use std::collections::BTreeMap;
use vstd::std_specs::iter::IteratorSpec;
use vstd::std_specs::cmp::OrdSpec;
use std::sync::Arc;
use std::sync::atomic::AtomicUsize;

use crate::protocol::GHOST_TTL_TICKS;

verus! {

/// The transaction window shared between a simulation and its readers:
/// the current transaction and the oldest one still undoable.
#[derive(Clone, Debug, Default)]
pub struct RollbackInfo {
    pub current: Arc<AtomicUsize>,
    pub oldest: Arc<AtomicUsize>,
}

impl RollbackInfo {
    /// Both counters start at zero, each in its own shared cell.
    pub fn new() -> (r: RollbackInfo) {
        RollbackInfo { current: Arc::new(AtomicUsize::new(0)), oldest: Arc::new(AtomicUsize::new(0)) }
    }
}

/// An entity's key: its slot and the slot's generation when it was
/// handed out.
#[derive(Debug, Clone, Copy, PartialEq, Eq, Structural, PartialOrd, Ord, Hash, Default)]
pub struct EntityKey {
    pub idx: u32,
    pub version: u32,
}

impl EntityKey {
    /// The key as an ordered pair, the form maps are keyed by.
    pub open spec fn spec_pair(self) -> (u32, u32) {
        (self.idx, self.version)
    }

    /// The key as an ordered pair, the form maps are keyed by.
    #[verifier::when_used_as_spec(spec_pair)]
    pub fn pair(self) -> (r: (u32, u32))
        ensures
            r == (self.idx, self.version),
    {
        (self.idx, self.version)
    }
}

/// A live ghost mirror in this region, keyed by its source identity.
/// `last_update_tick` drives the time-to-live reaper.
#[derive(Debug, Clone, Copy, PartialEq, Eq, Structural, Hash, Default)]
pub struct GhostEntry {
    pub entity: EntityKey,
    pub last_update_tick: usize,
}

/// A ghost's source identity: the owning region's coordinates and the
/// entity's key there, as plain pairs.
pub type GhostIdentity = ((i32, i32), (u32, u32));

/// A ghost last refreshed at `last` is stale at tick `tick`: more than
/// `GHOST_TTL_TICKS` ticks have passed (a refresh stamped in the future
/// counts as none passed).
pub open spec fn ghost_stale(tick: usize, last: usize) -> bool {
    (if tick >= last {
        tick - last
    } else {
        0
    }) > GHOST_TTL_TICKS
}

/// Whether the ghost is due for removal at `tick`.
pub fn ghost_expired(tick: usize, entry: &GhostEntry) -> (r: bool)
    ensures
        r == ghost_stale(tick, entry.last_update_tick),
{
    tick.saturating_sub(entry.last_update_tick) > GHOST_TTL_TICKS
}

/// Every stale ghost, with the entity mirroring it, each once: what the
/// reaper removes this tick.
pub fn expired_ghosts(tick: usize, ghosts: &BTreeMap<GhostIdentity, GhostEntry>) -> (r: Vec<
    (GhostIdentity, EntityKey),
>)
    ensures
        forall|i: int|
            0 <= i < r@.len() ==> ghosts@.contains_key((#[trigger] r@[i]).0) && ghost_stale(
                tick,
                ghosts@[r@[i].0].last_update_tick,
            ) && r@[i].1 == ghosts@[r@[i].0].entity,
        forall|k: GhostIdentity|
            #[trigger] ghosts@.contains_key(k) && ghost_stale(tick, ghosts@[k].last_update_tick)
                ==> exists|i: int| 0 <= i < r@.len() && (#[trigger] r@[i]).0 == k,
        forall|a: int, b: int| 0 <= a < b < r@.len() ==> r@[a].0 != r@[b].0,
        forall|a: int, b: int|
            #![trigger r@[a], r@[b]]
            0 <= a < b < r@.len() ==> r@[a].0.cmp_spec(&r@[b].0) is Less,
{
    broadcast use vstd::laws_cmp::group_laws_cmp;
    broadcast use vstd::std_specs::btree::group_btree_axioms;

    let ghost items = vstd::std_specs::btree::spec_btree_map_iter(ghosts).remaining();
    let ghost mut pos: Seq<int> = Seq::empty();
    let entries = ghosts.iter();
    proof {
        let ks = items.map_values(|kv: (&GhostIdentity, &GhostEntry)| *kv.0);
        assert forall|a: int, b: int|
            #![trigger items[a], items[b]]
            0 <= a < b < items.len() implies (*items[a].0).cmp_spec(&*items[b].0) is Less by {
            assert(ks[a] == *items[a].0);
            assert(ks[b] == *items[b].0);
        }
    }
    let ghost mut seen: int = 0;
    let mut out: Vec<(GhostIdentity, EntityKey)> = Vec::new();
    for kv in it: entries
        invariant
            it.seq() == items,
            seen == it.index(),
            items.no_duplicates(),
            items.len() == ghosts@.dom().len(),
            forall|j: int|
                #![trigger ghosts@.contains_key(*items[j].0)]
                0 <= j < items.len() ==> ghosts@.contains_key(*items[j].0) && ghosts@[*items[j].0]
                    == *items[j].1,
            forall|k: GhostIdentity|
                #[trigger] ghosts@.contains_key(k) ==> items.contains((&k, &ghosts@[k])),
            pos.len() == out@.len(),
            forall|i: int|
                0 <= i < out@.len() ==> 0 <= #[trigger] pos[i] < it.index() && out@[i] == (
                *items[pos[i]].0,
                items[pos[i]].1.entity,
            ) && ghost_stale(tick, items[pos[i]].1.last_update_tick),
            forall|a: int, b: int| 0 <= a < b < out@.len() ==> pos[a] < pos[b],
            forall|a: int, b: int|
                #![trigger items[a], items[b]]
                0 <= a < b < items.len() ==> (*items[a].0).cmp_spec(&*items[b].0) is Less,
            forall|j: int|
                0 <= j < it.index() && ghost_stale(tick, items[j].1.last_update_tick) ==> exists|
                    i: int,
                | 0 <= i < out@.len() && #[trigger] pos[i] == j,
    {
        let ghost pos0 = pos;
        let ghost seen0 = seen;
        let (k, g) = kv;
        if ghost_expired(tick, g) {
            proof {
                pos = pos.push(seen);
            }
            out.push((*k, g.entity));
        }
        proof {
            seen = seen + 1;
            assert forall|j: int|
                0 <= j < seen && ghost_stale(tick, items[j].1.last_update_tick) implies exists|i: int|
                0 <= i < out@.len() && #[trigger] pos[i] == j by {
                if j < seen0 {
                    let i = choose|i: int| 0 <= i < pos0.len() && #[trigger] pos0[i] == j;
                    assert(pos[i] == j);
                } else {
                    assert(pos[pos.len() - 1] == j);
                }
            }
        }
    }
    proof {
        assert forall|i: int| 0 <= i < out@.len() implies ghosts@.contains_key(
            (#[trigger] out@[i]).0,
        ) && ghost_stale(tick, ghosts@[out@[i].0].last_update_tick) && out@[i].1
            == ghosts@[out@[i].0].entity by {
            assert(ghosts@.contains_key(*items[pos[i]].0));
        }
        assert forall|k: GhostIdentity|
            #[trigger] ghosts@.contains_key(k) && ghost_stale(
                tick,
                ghosts@[k].last_update_tick,
            ) implies exists|i: int| 0 <= i < out@.len() && (#[trigger] out@[i]).0 == k by {
            assert(items.contains((&k, &ghosts@[k])));
            let j = choose|j: int| 0 <= j < items.len() && items[j] == (&k, &ghosts@[k]);
            let i = choose|i: int| 0 <= i < out@.len() && #[trigger] pos[i] == j;
            assert(out@[i].0 == k);
        }
        assert forall|a: int, b: int|
            #![trigger out@[a], out@[b]]
            0 <= a < b < out@.len() implies out@[a].0.cmp_spec(&out@[b].0) is Less by {
            assert(pos[a] < pos[b]);
            assert(out@[a].0 == *items[pos[a]].0);
            assert(out@[b].0 == *items[pos[b]].0);
        }
        assert forall|a: int, b: int| 0 <= a < b < out@.len() implies out@[a].0 != out@[b].0 by {
            let ja = pos[a];
            let jb = pos[b];
            assert(ja < jb);
            if out@[a].0 == out@[b].0 {
                assert(ghosts@.contains_key(*items[ja].0));
                assert(ghosts@.contains_key(*items[jb].0));
                assert(items[ja] == items[jb]);
            }
        }
    }
    out
}

} // verus!
