//! Delta extraction and application for the session protocol: on top of the
//! plain application, received tombstones mark their rows deleted, and the
//! losers of received uniqueness claims are claimed too.
use vstd::prelude::*;
use crate::error::CrdtResult;
use crate::ordmap::DeepCopy;
use crate::replication::ReplicaState;
use crate::storage::{table_rows, tables_keyed};
use crate::sync::{
    apply_rows, apply_rows_spec, advance_from, clock_raised, extracted, frontier_after,
    incoming_tombstones, tombstones_of,
};
use crate::tombstone::{lists_tombstones, tombstones_merge_spec};
use crate::types::{
    ClaimView, Frontier, LooserView, Row, RowView, SyncDelta, SyncDeltaView, Tombstone, TombstoneView,
    copy_opt_version, version_lt,
};
use crate::uniqueness::{ClaimKey, UniquenessRegistry, claim_apply, claim_key, registry_merged};

verus! {

/// Storage after one tombstone is received: an existing row it names is
/// marked deleted at the tombstone's version, unless the row is already
/// deleted at a version at least as high.
pub open spec fn mark_spec(s: Map<Seq<char>, Map<Seq<char>, RowView>>, ts: TombstoneView) -> Map<
    Seq<char>,
    Map<Seq<char>, RowView>,
> {
    if s.contains_key(ts.table_id) && s[ts.table_id].contains_key(ts.row_id) {
        let r = s[ts.table_id][ts.row_id];
        if !r.deleted || r.delete_version is None || version_lt(r.delete_version->0, ts.version) {
            s.insert(
                ts.table_id,
                s[ts.table_id].insert(
                    ts.row_id,
                    RowView { deleted: true, delete_version: Some(ts.version), ..r },
                ),
            )
        } else {
            s
        }
    } else {
        s
    }
}

/// Storage after the tombstones are received, in order.
pub open spec fn mark_all_spec(s: Map<Seq<char>, Map<Seq<char>, RowView>>, ts: Seq<TombstoneView>) -> Map<
    Seq<char>,
    Map<Seq<char>, RowView>,
>
    decreases ts.len(),
{
    if ts.len() == 0 {
        s
    } else {
        mark_spec(mark_all_spec(s, ts.drop_last()), ts.last())
    }
}

/// A registry after each loser claims the value of key `k`, in order.
pub open spec fn claim_losers(reg: Map<ClaimKey, ClaimView>, k: ClaimKey, ls: Seq<LooserView>) -> Map<
    ClaimKey,
    ClaimView,
>
    decreases ls.len(),
{
    if ls.len() == 0 {
        reg
    } else {
        claim_apply(claim_losers(reg, k, ls.drop_last()), k, ls.last().row_id, ls.last().version)
    }
}

/// A registry in which each claim's owner, then each of its losers, has
/// claimed its value, in order.
pub open spec fn claims_with_losers_of(cs: Seq<ClaimView>) -> Map<ClaimKey, ClaimView>
    decreases cs.len(),
{
    if cs.len() == 0 {
        Map::empty()
    } else {
        let c = cs.last();
        claim_losers(
            claim_apply(claims_with_losers_of(cs.drop_last()), claim_key(c), c.owner_row, c.version),
            claim_key(c),
            c.losers,
        )
    }
}

/// `after` is `before` with delta `d` applied by the session protocol: rows
/// merged in, tombstones merged, then every row named by a tombstone of the
/// merged store marked deleted at that tombstone's version unless already
/// deleted at a version no lower.
pub open spec fn applied_marking(before: ReplicaState, d: SyncDeltaView, after: ReplicaState) -> bool {
    &&& after.peer_id@ == before.peer_id@
    &&& after.schemas@ == before.schemas@
    &&& after.tombstones@ == tombstones_merge_spec(before.tombstones@, tombstones_of(d.tombstones))
    &&& exists|ls: Seq<TombstoneView>|
        #![trigger lists_tombstones(ls, after.tombstones@)]
        lists_tombstones(ls, after.tombstones@) && after.storage@ == mark_all_spec(
            apply_rows_spec(before.storage@, d.rows),
            ls,
        )
    &&& registry_merged(before.uniqueness@, claims_with_losers_of(d.claims), after.uniqueness@)
    &&& after.clock.peer_id@ == before.clock.peer_id@
    &&& clock_raised(before.clock.counter, after.clock.counter, d.frontier)
    &&& after.frontier@ == frontier_after(before.frontier@, d.frontier, before.peer_id@, after.clock.counter)
}

/// Extract from `source` the rows and tombstones that a peer with
/// `remote_frontier` has not seen, with all uniqueness claims.
pub fn extract_delta(source: &ReplicaState, remote_frontier: &Frontier) -> (r: SyncDelta)
    ensures
        extracted(*source, remote_frontier@, r@),
{
    crate::sync::extract_delta(source, remote_frontier)
}

/// Mark the stored rows named by the tombstones `list` deleted, in order.
fn mark_rows(target: &mut ReplicaState, list: &Vec<Tombstone>)
    ensures
        final(target).storage@ == mark_all_spec(old(target).storage@, list@.map_values(|t: Tombstone| t@)),
        final(target).peer_id == old(target).peer_id,
        final(target).clock == old(target).clock,
        final(target).schemas@ == old(target).schemas@,
        final(target).tombstones@ == old(target).tombstones@,
        final(target).uniqueness@ == old(target).uniqueness@,
        final(target).frontier@ == old(target).frontier@,
{
    let ghost tss = list@.map_values(|t: Tombstone| t@);
    let mut i: usize = 0;
    while i < list.len()
        invariant
            i <= list@.len(),
            tss == list@.map_values(|t: Tombstone| t@),
            target.storage@ == mark_all_spec(old(target).storage@, tss.subrange(0, i as int)),
            target.peer_id == old(target).peer_id,
            target.clock == old(target).clock,
            target.schemas@ == old(target).schemas@,
            target.tombstones@ == old(target).tombstones@,
            target.uniqueness@ == old(target).uniqueness@,
            target.frontier@ == old(target).frontier@,
        decreases list@.len() - i,
    {
        let ts = &list[i];
        assert(tss[i as int] == ts@);
        let ghost s0 = target.storage@;
        let keyed = target.storage.keyed();
        let update: Option<Row> = match target.storage.get_row(ts.table_id.as_str(), ts.row_id.as_str()) {
            Some(existing) => {
                let needs = if !existing.deleted {
                    true
                } else {
                    match &existing.delete_version {
                        None => true,
                        Some(ev) => ts.version.greater_than(ev),
                    }
                };
                if needs {
                    Some(
                        Row {
                            id: existing.id.clone(),
                            cells: existing.cells.deep_copy(),
                            deleted: true,
                            delete_version: Some(ts.version.deep_copy()),
                        },
                    )
                } else {
                    None
                }
            },
            None => None,
        };
        match update {
            Some(updated) => {
                assert(s0[ts.table_id@].contains_key(ts.row_id@));
                assert(updated@.id == ts.row_id@);
                let _ = target.storage.upsert_row(ts.table_id.as_str(), updated);
                proof {
                    assert(table_rows(s0, ts.table_id@) == s0[ts.table_id@]);
                    assert(target.storage@ =~= mark_spec(s0, ts@));
                }
            },
            None => {},
        }
        proof {
            assert(tss.subrange(0, i + 1).drop_last() =~= tss.subrange(0, i as int));
            assert(target.storage@ == mark_spec(s0, ts@));
        }
        i = i + 1;
    }
    assert(tss.subrange(0, tss.len() as int) =~= tss);
}

/// A registry in which each of the delta's claims, and each of its losers,
/// has been claimed.
fn incoming_claims_with_losers(delta: &SyncDelta) -> (r: UniquenessRegistry)
    ensures
        r@ == claims_with_losers_of(delta@.claims),
{
    let ghost cs = delta@.claims;
    let mut incoming = UniquenessRegistry::new();
    let mut i: usize = 0;
    while i < delta.uniqueness_claims.len()
        invariant
            i <= delta.uniqueness_claims@.len(),
            cs == delta@.claims,
            incoming@ == claims_with_losers_of(cs.subrange(0, i as int)),
        decreases delta.uniqueness_claims@.len() - i,
    {
        let c = &delta.uniqueness_claims[i];
        assert(cs[i as int] == c@);
        incoming.claim(
            c.table_id.as_str(),
            c.column_id.as_str(),
            c.value.as_str(),
            c.owner_row.as_str(),
            c.version.deep_copy(),
        );
        let ghost k = claim_key(c@);
        let ghost start = incoming@;
        let mut j: usize = 0;
        while j < c.losers.len()
            invariant
                j <= c.losers@.len(),
                k == claim_key(c@),
                incoming@ == claim_losers(start, k, c@.losers.subrange(0, j as int)),
            decreases c.losers@.len() - j,
        {
            let l = &c.losers[j];
            assert(c@.losers[j as int] == l@);
            incoming.claim(
                c.table_id.as_str(),
                c.column_id.as_str(),
                c.value.as_str(),
                l.row_id.as_str(),
                l.version.deep_copy(),
            );
            assert(c@.losers.subrange(0, j + 1).drop_last() =~= c@.losers.subrange(0, j as int));
            j = j + 1;
        }
        assert(c@.losers.subrange(0, c@.losers.len() as int) =~= c@.losers);
        assert(cs.subrange(0, i + 1).drop_last() =~= cs.subrange(0, i as int));
        i = i + 1;
    }
    assert(cs.subrange(0, cs.len() as int) =~= cs);
    incoming
}

/// Apply a received delta: rows merged cell by cell, tombstones merged by
/// version, then every stored row that a stored tombstone names marked
/// deleted (so a tombstone received before its row still deletes it), claims and their
/// losers merged by version, clock and frontier advanced. Never fails.
pub fn apply_delta(target: &mut ReplicaState, delta: &SyncDelta) -> (r: CrdtResult<()>)
    ensures
        r is Ok,
        applied_marking(*old(target), delta@, *final(target)),
{
    apply_rows(target, delta);
    let incoming_ts = incoming_tombstones(delta);
    target.tombstones.merge(&incoming_ts);
    let all = target.tombstones.all();
    mark_rows(target, &all);
    let incoming_unique = incoming_claims_with_losers(delta);
    target.uniqueness.merge(&incoming_unique);
    advance_from(target, delta);
    Ok(())
}

} // verus!
