//! Causal-stability-based garbage collection of tombstones.
//!
//! A tombstone can only be reclaimed once every known peer has seen the
//! delete, i.e. the global minimum frontier covers its version; otherwise a
//! peer that has not seen the delete could bring the row back.
use vstd::prelude::*;
use crate::ordmap::{OrdMap, DeepCopy};
use crate::storage::StorageEngine;
use crate::tombstone::{TombstoneStore, tombstone_stable, tombstone_key, lists_tombstones};
use crate::types::{Frontier, RowView, Tombstone, TombstoneView};
use crate::utils::{frontier_dominates, frontier_update};

verus! {

/// Storage with the rows of the given (table, row) keys removed.
pub open spec fn storage_without(
    s: Map<Seq<char>, Map<Seq<char>, RowView>>,
    keys: Set<(Seq<char>, Seq<char>)>,
) -> Map<Seq<char>, Map<Seq<char>, RowView>> {
    Map::new(
        |t: Seq<char>| s.contains_key(t),
        |t: Seq<char>| s[t].remove_keys(Set::new(|r: Seq<char>| keys.contains((t, r)))),
    )
}

/// The keys of the tombstones of `m` that are stable under `g`.
pub open spec fn stable_keys(
    m: Map<(Seq<char>, Seq<char>), TombstoneView>,
    g: Map<Seq<char>, u64>,
) -> Set<(Seq<char>, Seq<char>)> {
    m.dom().filter(|k: (Seq<char>, Seq<char>)| tombstone_stable(m[k], g))
}

/// Whether a tombstone is causally stable (safe to collect).
pub fn is_tombstone_stable(tombstone: &Tombstone, global_min_frontier: &Frontier) -> (r: bool)
    ensures
        r == tombstone_stable(tombstone@, global_min_frontier@),
{
    let mut requires_f: Frontier = OrdMap::new();
    frontier_update(&mut requires_f, &tombstone.version.peer_id, tombstone.version.counter);
    let r = frontier_dominates(global_min_frontier, &requires_f);
    assert(requires_f@.contains_key(tombstone.version.peer_id@));
    r
}

/// Partition tombstones into (retained, collected), keeping their order.
pub fn collect_stable_tombstones(tombstones: Vec<Tombstone>, global_min_frontier: &Frontier) -> (r: (
    Vec<Tombstone>,
    Vec<Tombstone>,
))
    ensures
        r.0@.map_values(|t: Tombstone| t@) == tombstones@.map_values(|t: Tombstone| t@).filter(
            |t: TombstoneView| !tombstone_stable(t, global_min_frontier@),
        ),
        r.1@.map_values(|t: Tombstone| t@) == tombstones@.map_values(|t: Tombstone| t@).filter(
            |t: TombstoneView| tombstone_stable(t, global_min_frontier@),
        ),
{
    let ghost tv = tombstones@.map_values(|t: Tombstone| t@);
    let ghost keep = |t: TombstoneView| !tombstone_stable(t, global_min_frontier@);
    let ghost drop = |t: TombstoneView| tombstone_stable(t, global_min_frontier@);
    let mut retained: Vec<Tombstone> = Vec::new();
    let mut collected: Vec<Tombstone> = Vec::new();
    let mut i: usize = 0;
    while i < tombstones.len()
        invariant
            i <= tombstones@.len(),
            tv == tombstones@.map_values(|t: Tombstone| t@),
            keep == (|t: TombstoneView| !tombstone_stable(t, global_min_frontier@)),
            drop == (|t: TombstoneView| tombstone_stable(t, global_min_frontier@)),
            retained@.map_values(|t: Tombstone| t@) == tv.subrange(0, i as int).filter(keep),
            collected@.map_values(|t: Tombstone| t@) == tv.subrange(0, i as int).filter(drop),
        decreases tombstones@.len() - i,
    {
        let ghost r0 = retained@;
        let ghost c0 = collected@;
        let t = &tombstones[i];
        assert(tv[i as int] == t@);
        if is_tombstone_stable(t, global_min_frontier) {
            collected.push(t.deep_copy());
        } else {
            retained.push(t.deep_copy());
        }
        proof {
            let s = tv.subrange(0, i + 1);
            assert(s.drop_last() =~= tv.subrange(0, i as int));
            reveal(Seq::filter);
            assert(retained@.map_values(|t: Tombstone| t@) =~= s.filter(keep));
            assert(collected@.map_values(|t: Tombstone| t@) =~= s.filter(drop));
        }
        i = i + 1;
    }
    assert(tv.subrange(0, tombstones@.len() as int) =~= tv);
    (retained, collected)
}

/// Run GC: remove the stable tombstones from the store, and their rows from
/// storage. Returns the number of tombstones collected.
pub fn run_gc(
    tombstones: &mut TombstoneStore,
    storage: &mut StorageEngine,
    global_min_frontier: &Frontier,
) -> (r: usize)
    ensures
        final(tombstones)@ == old(tombstones)@.restrict(
            Set::new(
                |k: (Seq<char>, Seq<char>)| !tombstone_stable(old(tombstones)@[k], global_min_frontier@),
            ),
        ),
        final(storage)@ == storage_without(
            old(storage)@,
            stable_keys(old(tombstones)@, global_min_frontier@),
        ),
        r == stable_keys(old(tombstones)@, global_min_frontier@).len(),
{
    let all = tombstones.all();
    let ghost av = all@.map_values(|t: Tombstone| t@);
    let ghost m = tombstones@;
    let ghost g = global_min_frontier@;
    let ghost mut done: Set<(Seq<char>, Seq<char>)> = Set::empty();
    let mut collected: usize = 0;
    let mut i: usize = 0;
    proof {
        assert(storage_without(old(storage)@, done) =~= old(storage)@) by {
            assert forall|t: Seq<char>| old(storage)@.contains_key(t) implies old(storage)@[t].remove_keys(
                Set::new(|r: Seq<char>| done.contains((t, r))),
            ) =~= old(storage)@[t] by {}
        }
    }
    while i < all.len()
        invariant
            i <= all@.len(),
            av == all@.map_values(|t: Tombstone| t@),
            m == tombstones@,
            m == old(tombstones)@,
            g == global_min_frontier@,
            lists_tombstones(av, m),
            done.finite(),
            collected == done.len(),
            collected <= i,
            done <= m.dom(),
            forall|k: (Seq<char>, Seq<char>)| #[trigger] done.contains(k) <==> (exists|j: int|
                0 <= j < i && tombstone_key(#[trigger] av[j]) == k && tombstone_stable(av[j], g)),
            storage@ == storage_without(old(storage)@, done),
        decreases all@.len() - i,
    {
        let ts = &all[i];
        let ghost k0 = tombstone_key(ts@);
        assert(av[i as int] == ts@);
        proof {
            assert(!done.contains(k0)) by {
                if done.contains(k0) {
                    let j = choose|j: int| 0 <= j < i && tombstone_key(#[trigger] av[j]) == k0 && tombstone_stable(av[j], g);
                    assert(crate::order::pair_lt(tombstone_key(av[j]), tombstone_key(av[i as int])));
                    crate::order::lemma_str_laws();
                }
            }
        }
        if is_tombstone_stable(ts, global_min_frontier) {
            let ghost s_before = storage@;
            storage.gc_row(&ts.table_id, &ts.row_id);
            proof {
                let d2 = done.insert(k0);
                assert(storage@ =~= storage_without(old(storage)@, d2)) by {
                    assert forall|t: Seq<char>| #[trigger] storage@.contains_key(t) implies storage@[t]
                        =~= old(storage)@[t].remove_keys(Set::new(|r: Seq<char>| d2.contains((t, r)))) by {
                        if t == k0.0 {
                            assert(s_before[t] =~= old(storage)@[t].remove_keys(Set::new(|r: Seq<char>| done.contains((t, r)))));
                        }
                    }
                }
                assert(m.contains_key(k0));
                done = d2;
            }
            collected = collected + 1;
        }
        proof {
            assert forall|k: (Seq<char>, Seq<char>)| #[trigger] done.contains(k) <==> (exists|j: int|
                0 <= j < i + 1 && tombstone_key(#[trigger] av[j]) == k && tombstone_stable(av[j], g)) by {
                if exists|j: int| 0 <= j < i + 1 && tombstone_key(#[trigger] av[j]) == k && tombstone_stable(av[j], g) {
                    let j = choose|j: int| 0 <= j < i + 1 && tombstone_key(#[trigger] av[j]) == k && tombstone_stable(av[j], g);
                    if j < i {
                        assert(exists|j: int| 0 <= j < i && tombstone_key(#[trigger] av[j]) == k && tombstone_stable(av[j], g));
                    }
                }
            }
        }
        i = i + 1;
    }
    proof {
        assert(done =~= stable_keys(m, g)) by {
            assert forall|k: (Seq<char>, Seq<char>)| #[trigger] stable_keys(m, g).contains(k) implies done.contains(k) by {
                let j = choose|j: int| 0 <= j < av.len() && tombstone_key(#[trigger] av[j]) == k;
                assert(m[k] == av[j]);
            }
            assert forall|k: (Seq<char>, Seq<char>)| #[trigger] done.contains(k) implies stable_keys(m, g).contains(k) by {
                let j = choose|j: int| 0 <= j < all@.len() && tombstone_key(#[trigger] av[j]) == k && tombstone_stable(av[j], g);
                assert(m[tombstone_key(av[j])] == av[j]);
            }
        }
    }
    tombstones.collect_stable(global_min_frontier);
    collected
}

} // verus!
