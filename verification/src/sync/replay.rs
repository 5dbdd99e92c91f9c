//! Receiving a delta again, or two deltas in the other order: the replica
//! ends as if each had been received once, in either order.
use vstd::prelude::*;
use crate::merge::{
    merge_row_spec, row_consistent, rows_agree, law_merge_row_associative, law_merge_row_idempotent, law_merge_row_delete_wins,
    law_merge_row_agrees, law_merge_row_commutative,
};
use crate::sync::{apply_row_spec, apply_rows_spec, clock_raised};
use crate::sync::delta::{mark_all_spec, applied_marking, claims_with_losers_of};
use crate::tombstone::lists_tombstones;
use crate::sync::tombstones_of;
use crate::replication::ReplicaState;
use crate::tombstone::{
    law_tombstones_merge_idempotent, law_tombstones_merge_associative, law_tombstones_merge_commutative, tombstones_agree,
    tombstones_merge_spec,
};
use crate::sync::converge::claims_agree;
use crate::uniqueness::{registry_merged, law_claim_merge_owner, ClaimKey};
use crate::types::ClaimView;
use crate::uniqueness::law_registry_merge_idempotent;
use crate::types::SyncDeltaView;
use crate::utils::{counter_of, frontier_join, max_u64};
use crate::types::{RowDeltaView, RowView, TombstoneView, VersionView, version_lt, lemma_version_order};

verus! {

pub type StoreView = Map<Seq<char>, Map<Seq<char>, RowView>>;

/// The row stored under (`t`, `id`), if any.
pub open spec fn stored(s: StoreView, t: Seq<char>, id: Seq<char>) -> Option<RowView> {
    if s.contains_key(t) && s[t].contains_key(id) {
        Some(s[t][id])
    } else {
        None
    }
}

/// `r` merged into what is stored, or `r` itself where nothing is.
pub open spec fn merge_into(v: Option<RowView>, r: RowView) -> RowView {
    match v {
        Some(x) => merge_row_spec(x, r),
        None => r,
    }
}

/// What `rows` make of the row `v`, merged in one after another.
pub open spec fn fold_rows(v: Option<RowView>, rows: Seq<RowView>) -> Option<RowView>
    decreases rows.len(),
{
    if rows.len() == 0 {
        v
    } else {
        Some(merge_into(fold_rows(v, rows.drop_last()), rows.last()))
    }
}

/// The delta rows for (`t`, `id`), in order.
pub open spec fn rows_for(ds: Seq<RowDeltaView>, t: Seq<char>, id: Seq<char>) -> Seq<RowView>
    decreases ds.len(),
{
    if ds.len() == 0 {
        Seq::empty()
    } else if ds.last().table_id == t && ds.last().row.id == id {
        rows_for(ds.drop_last(), t, id).push(ds.last().row)
    } else {
        rows_for(ds.drop_last(), t, id)
    }
}

/// Some delta row is for table `t`.
pub open spec fn has_table(ds: Seq<RowDeltaView>, t: Seq<char>) -> bool {
    exists|i: int| 0 <= i < ds.len() && (#[trigger] ds[i]).table_id == t
}

/// Every stored row is consistent.
pub open spec fn store_consistent(s: StoreView) -> bool {
    forall|t: Seq<char>, id: Seq<char>|
        #![trigger s[t][id]]
        s.contains_key(t) && s[t].contains_key(id) ==> row_consistent(s[t][id])
}

/// Every delta row is consistent.
pub open spec fn delta_consistent(ds: Seq<RowDeltaView>) -> bool {
    forall|i: int| 0 <= i < ds.len() ==> row_consistent((#[trigger] ds[i]).row)
}

/// Storage after the delta rows, table by table and row by row.
pub(crate) proof fn lemma_apply_rows_pointwise(s: StoreView, ds: Seq<RowDeltaView>, t: Seq<char>, id: Seq<char>)
    ensures
        apply_rows_spec(s, ds).contains_key(t) == (s.contains_key(t) || has_table(ds, t)),
        stored(apply_rows_spec(s, ds), t, id) == fold_rows(stored(s, t, id), rows_for(ds, t, id)),
    decreases ds.len(),
{
    if ds.len() > 0 {
        let q = ds.drop_last();
        let x = ds.last();
        lemma_apply_rows_pointwise(s, q, t, id);
        let a = apply_rows_spec(s, q);
        assert(has_table(ds, t) == (has_table(q, t) || x.table_id == t)) by {
            if has_table(q, t) {
                let i = choose|i: int| 0 <= i < q.len() && (#[trigger] q[i]).table_id == t;
                assert(ds[i] == q[i]);
            }
            if x.table_id == t {
                assert(ds[ds.len() - 1] == x);
            }
            if has_table(ds, t) && x.table_id != t {
                let i = choose|i: int| 0 <= i < ds.len() && (#[trigger] ds[i]).table_id == t;
                assert(i != ds.len() - 1);
                assert(q[i] == ds[i]);
            }
        }
        if x.table_id == t && x.row.id == id {
            assert(rows_for(ds, t, id) == rows_for(q, t, id).push(x.row));
            assert(rows_for(q, t, id).push(x.row).drop_last() =~= rows_for(q, t, id));
        } else {
            assert(rows_for(ds, t, id) == rows_for(q, t, id));
            if x.table_id == t && !a.contains_key(t) {
                assert(!s.contains_key(t));
                assert(stored(a, t, id) is None);
            }
        }
    }
}

/// Merging into a stored row is merging with the fold of the rows alone.
proof fn lemma_fold_split(x: RowView, rows: Seq<RowView>)
    requires
        rows.len() > 0,
        row_consistent(x),
        forall|i: int| 0 <= i < rows.len() ==> row_consistent(#[trigger] rows[i]),
    ensures
        fold_rows(Some(x), rows) == Some(merge_row_spec(x, fold_rows(None, rows)->0)),
        row_consistent(fold_rows(None, rows)->0),
    decreases rows.len(),
{
    let d = rows.drop_last();
    let r = rows.last();
    assert(row_consistent(r)) by {
        assert(rows[rows.len() - 1] == r);
    }
    if d.len() > 0 {
        assert forall|i: int| 0 <= i < d.len() implies row_consistent(#[trigger] d[i]) by {
            assert(d[i] == rows[i]);
        }
        lemma_fold_split(x, d);
        let f = fold_rows(None, d)->0;
        law_merge_row_associative(x, f, r);
        law_merge_row_delete_wins(f, r);
    }
}

/// The fold of consistent rows alone is a consistent row.
proof fn lemma_fold_alone(rows: Seq<RowView>)
    requires
        rows.len() > 0,
        forall|i: int| 0 <= i < rows.len() ==> row_consistent(#[trigger] rows[i]),
    ensures
        fold_rows(None, rows) is Some,
        row_consistent(fold_rows(None, rows)->0),
    decreases rows.len(),
{
    let d = rows.drop_last();
    let r = rows.last();
    assert(row_consistent(r)) by {
        assert(rows[rows.len() - 1] == r);
    }
    if d.len() == 0 {
        assert(fold_rows(None, d) is None);
    } else {
        assert forall|i: int| 0 <= i < d.len() implies row_consistent(#[trigger] d[i]) by {
            assert(d[i] == rows[i]);
        }
        lemma_fold_alone(d);
        law_merge_row_delete_wins(fold_rows(None, d)->0, r);
    }
}

/// Folding the same rows in again changes nothing.
proof fn lemma_fold_twice(v: Option<RowView>, rows: Seq<RowView>)
    requires
        v matches Some(x) ==> row_consistent(x),
        forall|i: int| 0 <= i < rows.len() ==> row_consistent(#[trigger] rows[i]),
    ensures
        fold_rows(fold_rows(v, rows), rows) == fold_rows(v, rows),
{
    if rows.len() > 0 {
        lemma_fold_alone(rows);
        let fr = fold_rows(None, rows)->0;
        match v {
            Some(x) => {
                lemma_fold_split(x, rows);
                let w = merge_row_spec(x, fr);
                law_merge_row_delete_wins(x, fr);
                lemma_fold_split(w, rows);
                law_merge_row_associative(x, fr, fr);
                law_merge_row_idempotent(fr);
            },
            None => {
                lemma_fold_split(fr, rows);
                law_merge_row_idempotent(fr);
            },
        }
    }
}

/// The rows for one key are among the delta's rows.
proof fn lemma_rows_for_consistent(ds: Seq<RowDeltaView>, t: Seq<char>, id: Seq<char>)
    requires
        delta_consistent(ds),
    ensures
        forall|i: int| 0 <= i < rows_for(ds, t, id).len() ==> row_consistent(#[trigger] rows_for(ds, t, id)[i]),
    decreases ds.len(),
{
    if ds.len() > 0 {
        let q = ds.drop_last();
        assert forall|i: int| 0 <= i < q.len() implies row_consistent((#[trigger] q[i]).row) by {
            assert(q[i] == ds[i]);
        }
        lemma_rows_for_consistent(q, t, id);
        assert(row_consistent(ds[ds.len() - 1].row));
        let rq = rows_for(q, t, id);
        if ds.last().table_id == t && ds.last().row.id == id {
            assert forall|i: int| 0 <= i < rq.push(ds.last().row).len() implies row_consistent(#[trigger] rq.push(ds.last().row)[i]) by {
                if i < rq.len() {
                    assert(rq.push(ds.last().row)[i] == rq[i]);
                }
            }
        }
    }
}

/// Receiving the same delta rows twice leaves storage as receiving them
/// once: a repeated sync changes no row.
pub proof fn law_apply_rows_idempotent(s: StoreView, ds: Seq<RowDeltaView>)
    requires
        store_consistent(s),
        delta_consistent(ds),
    ensures
        apply_rows_spec(apply_rows_spec(s, ds), ds) == apply_rows_spec(s, ds),
{
    let once = apply_rows_spec(s, ds);
    let twice = apply_rows_spec(once, ds);
    assert forall|t: Seq<char>| #[trigger] twice.contains_key(t) == once.contains_key(t) by {
        lemma_apply_rows_pointwise(once, ds, t, Seq::empty());
        lemma_apply_rows_pointwise(s, ds, t, Seq::empty());
    }
    assert forall|t: Seq<char>| #[trigger] twice.contains_key(t) implies twice[t] =~= once[t] by {
        assert forall|id: Seq<char>| #[trigger] twice[t].contains_key(id) == once[t].contains_key(id)
            && (twice[t].contains_key(id) ==> twice[t][id] == once[t][id]) by {
            lemma_apply_rows_pointwise(once, ds, t, id);
            lemma_apply_rows_pointwise(s, ds, t, id);
            lemma_rows_for_consistent(ds, t, id);
            lemma_fold_twice(stored(s, t, id), rows_for(ds, t, id));
        }
    }
    assert(twice =~= once);
}

/// A row after a tombstone at `v` is received for it: deleted at `v`
/// unless it is already deleted at a version no lower.
pub open spec fn mark_row(r: RowView, v: VersionView) -> RowView {
    if !r.deleted || r.delete_version is None || version_lt(r.delete_version->0, v) {
        RowView { deleted: true, delete_version: Some(v), ..r }
    } else {
        r
    }
}

/// A row after the tombstones at versions `vs` are received, in order.
pub open spec fn mark_fold(r: RowView, vs: Seq<VersionView>) -> RowView
    decreases vs.len(),
{
    if vs.len() == 0 {
        r
    } else {
        mark_row(mark_fold(r, vs.drop_last()), vs.last())
    }
}

/// The versions of the tombstones for (`t`, `id`), in order.
pub open spec fn versions_for(ts: Seq<TombstoneView>, t: Seq<char>, id: Seq<char>) -> Seq<VersionView>
    decreases ts.len(),
{
    if ts.len() == 0 {
        Seq::empty()
    } else if ts.last().table_id == t && ts.last().row_id == id {
        versions_for(ts.drop_last(), t, id).push(ts.last().version)
    } else {
        versions_for(ts.drop_last(), t, id)
    }
}

/// Storage after tombstones, row by row; tables and row ids stay.
proof fn lemma_mark_all_pointwise(s: StoreView, ts: Seq<TombstoneView>, t: Seq<char>, id: Seq<char>)
    ensures
        mark_all_spec(s, ts).contains_key(t) == s.contains_key(t),
        stored(mark_all_spec(s, ts), t, id) == match stored(s, t, id) {
            Some(r) => Some(mark_fold(r, versions_for(ts, t, id))),
            None => None::<RowView>,
        },
    decreases ts.len(),
{
    if ts.len() > 0 {
        let q = ts.drop_last();
        let x = ts.last();
        lemma_mark_all_pointwise(s, q, t, id);
        let a = mark_all_spec(s, q);
        lemma_mark_all_pointwise(s, q, x.table_id, x.row_id);
        if x.table_id == t && x.row_id == id {
            assert(versions_for(ts, t, id) == versions_for(q, t, id).push(x.version));
            assert(versions_for(q, t, id).push(x.version).drop_last() =~= versions_for(q, t, id));
        } else {
            assert(versions_for(ts, t, id) == versions_for(q, t, id));
            if a.contains_key(x.table_id) && a[x.table_id].contains_key(x.row_id) && x.table_id == t {
                assert(a[t].insert(x.row_id, mark_row(a[t][x.row_id], x.version)).contains_key(id) == a[t].contains_key(id));
            }
        }
    }
}

/// After tombstones at `vs`, the row is deleted at a version no lower than
/// any of them.
proof fn lemma_mark_fold_top(r: RowView, vs: Seq<VersionView>)
    requires
        vs.len() > 0,
    ensures
        mark_fold(r, vs).deleted,
        mark_fold(r, vs).delete_version is Some,
        forall|j: int| 0 <= j < vs.len() ==> !version_lt(mark_fold(r, vs).delete_version->0, #[trigger] vs[j]),
    decreases vs.len(),
{
    lemma_version_order();
    let d = vs.drop_last();
    let v = vs.last();
    if d.len() > 0 {
        lemma_mark_fold_top(r, d);
        let u = mark_fold(r, d);
        assert forall|j: int| 0 <= j < vs.len() implies !version_lt(mark_fold(r, vs).delete_version->0, #[trigger] vs[j]) by {
            if j < d.len() {
                assert(vs[j] == d[j]);
                assert(!version_lt(u.delete_version->0, d[j]));
            }
        }
    }
}

/// Receiving the same tombstones again changes nothing.
proof fn lemma_mark_fold_twice(r: RowView, vs: Seq<VersionView>)
    ensures
        mark_fold(mark_fold(r, vs), vs) == mark_fold(r, vs),
{
    if vs.len() > 0 {
        lemma_mark_fold_top(r, vs);
        lemma_mark_fold_stays(mark_fold(r, vs), vs);
    }
}

/// A row deleted at a version no lower than any of `vs` is left as it is.
proof fn lemma_mark_fold_stays(u: RowView, vs: Seq<VersionView>)
    requires
        u.deleted,
        u.delete_version is Some,
        forall|j: int| 0 <= j < vs.len() ==> !version_lt(u.delete_version->0, #[trigger] vs[j]),
    ensures
        mark_fold(u, vs) == u,
    decreases vs.len(),
{
    if vs.len() > 0 {
        let d = vs.drop_last();
        assert forall|j: int| 0 <= j < d.len() implies !version_lt(u.delete_version->0, #[trigger] d[j]) by {
            assert(d[j] == vs[j]);
        }
        lemma_mark_fold_stays(u, d);
        assert(!version_lt(u.delete_version->0, vs[vs.len() - 1]));
    }
}

/// Receiving the same tombstones twice marks storage as receiving them once.
pub proof fn law_mark_all_idempotent(s: StoreView, ts: Seq<TombstoneView>)
    ensures
        mark_all_spec(mark_all_spec(s, ts), ts) == mark_all_spec(s, ts),
{
    let once = mark_all_spec(s, ts);
    let twice = mark_all_spec(once, ts);
    assert forall|t: Seq<char>| #[trigger] twice.contains_key(t) == once.contains_key(t) by {
        lemma_mark_all_pointwise(once, ts, t, Seq::empty());
        lemma_mark_all_pointwise(s, ts, t, Seq::empty());
    }
    assert forall|t: Seq<char>| #[trigger] twice.contains_key(t) implies twice[t] =~= once[t] by {
        assert forall|id: Seq<char>| #[trigger] twice[t].contains_key(id) == once[t].contains_key(id)
            && (twice[t].contains_key(id) ==> twice[t][id] == once[t][id]) by {
            lemma_mark_all_pointwise(once, ts, t, id);
            lemma_mark_all_pointwise(s, ts, t, id);
            if s.contains_key(t) && s[t].contains_key(id) {
                lemma_mark_fold_twice(s[t][id], versions_for(ts, t, id));
            }
        }
    }
    assert(twice =~= once);
}

/// Marking keeps a row's id and cells, keeps it consistent, and never
/// lowers its delete version.
proof fn lemma_mark_fold_keeps(u: RowView, vs: Seq<VersionView>)
    requires
        row_consistent(u),
    ensures
        mark_fold(u, vs).id == u.id,
        mark_fold(u, vs).cells == u.cells,
        row_consistent(mark_fold(u, vs)),
        u.deleted ==> !version_lt(mark_fold(u, vs).delete_version->0, u.delete_version->0),
    decreases vs.len(),
{
    lemma_version_order();
    if vs.len() > 0 {
        lemma_mark_fold_keeps(u, vs.drop_last());
    }
}

/// Row by row: after delta rows and then tombstones.
proof fn lemma_delta_pointwise(s: StoreView, ds: Seq<RowDeltaView>, ts: Seq<TombstoneView>, t: Seq<char>, id: Seq<char>)
    ensures
        mark_all_spec(apply_rows_spec(s, ds), ts).contains_key(t) == (s.contains_key(t) || has_table(ds, t)),
        stored(mark_all_spec(apply_rows_spec(s, ds), ts), t, id) == match fold_rows(stored(s, t, id), rows_for(ds, t, id)) {
            Some(r) => Some(mark_fold(r, versions_for(ts, t, id))),
            None => None::<RowView>,
        },
{
    lemma_apply_rows_pointwise(s, ds, t, id);
    lemma_mark_all_pointwise(apply_rows_spec(s, ds), ts, t, id);
}

/// A row that took in the rows of `L` (whose fold is `f`) and was then
/// marked is left as it is by taking in `L` again and marking again.
proof fn lemma_row_replay(x: Option<RowView>, rows: Seq<RowView>, vs: Seq<VersionView>)
    requires
        x matches Some(v) ==> row_consistent(v),
        forall|i: int| 0 <= i < rows.len() ==> row_consistent(#[trigger] rows[i]),
        fold_rows(x, rows) is Some,
    ensures
        ({
            let m = mark_fold(fold_rows(x, rows)->0, vs);
            fold_rows(Some(m), rows) is Some && mark_fold(fold_rows(Some(m), rows)->0, vs) == m
        }),
{
    lemma_version_order();
    if rows.len() == 0 {
        let u = x->0;
        lemma_mark_fold_twice(u, vs);
    } else {
        lemma_fold_alone(rows);
        let f = fold_rows(None, rows)->0;
        let u = match x {
            Some(v) => merge_row_spec(v, f),
            None => f,
        };
        match x {
            Some(v) => {
                lemma_fold_split(v, rows);
                law_merge_row_delete_wins(v, f);
                law_merge_row_associative(v, f, f);
                law_merge_row_idempotent(f);
            },
            None => {
                law_merge_row_idempotent(f);
            },
        }
        assert(fold_rows(x, rows)->0 == u);
        assert(row_consistent(u));
        assert(merge_row_spec(u, f) == u);
        let m = mark_fold(u, vs);
        lemma_mark_fold_keeps(u, vs);
        lemma_fold_split(m, rows);
        let mf = merge_row_spec(m, f);
        assert(mf.cells == merge_row_spec(u, f).cells);
        if f.deleted {
            assert(u.deleted);
            assert(!version_lt(u.delete_version->0, f.delete_version->0)) by {
                match x {
                    Some(v) => {},
                    None => {},
                }
            }
        }
        if vs.len() > 0 {
            lemma_mark_fold_top(u, vs);
        }
        assert(mf == m);
        lemma_mark_fold_twice(u, vs);
    }
}

/// Receiving a delta's rows and tombstones a second time leaves storage as
/// the first time left it.
pub proof fn law_delta_storage_idempotent(s: StoreView, ds: Seq<RowDeltaView>, ts: Seq<TombstoneView>)
    requires
        store_consistent(s),
        delta_consistent(ds),
    ensures
        mark_all_spec(apply_rows_spec(mark_all_spec(apply_rows_spec(s, ds), ts), ds), ts) == mark_all_spec(
            apply_rows_spec(s, ds),
            ts,
        ),
{
    let once = mark_all_spec(apply_rows_spec(s, ds), ts);
    let twice = mark_all_spec(apply_rows_spec(once, ds), ts);
    assert forall|t: Seq<char>| #[trigger] twice.contains_key(t) == once.contains_key(t) by {
        lemma_delta_pointwise(once, ds, ts, t, Seq::empty());
        lemma_delta_pointwise(s, ds, ts, t, Seq::empty());
    }
    assert forall|t: Seq<char>| #[trigger] twice.contains_key(t) implies twice[t] =~= once[t] by {
        assert forall|id: Seq<char>| #[trigger] twice[t].contains_key(id) == once[t].contains_key(id)
            && (twice[t].contains_key(id) ==> twice[t][id] == once[t][id]) by {
            lemma_delta_pointwise(once, ds, ts, t, id);
            lemma_delta_pointwise(s, ds, ts, t, id);
            lemma_rows_for_consistent(ds, t, id);
            let x = stored(s, t, id);
            let l = rows_for(ds, t, id);
            if fold_rows(x, l) is Some {
                lemma_row_replay(x, l, versions_for(ts, t, id));
            }
        }
    }
    assert(twice =~= once);
}

/// A clock raised past every counter of a frontier stays put when raised by
/// it again, and so does the frontier joined with it.
proof fn lemma_clock_frontier_reapplied(b0: ReplicaState, d: SyncDeltaView, b1: ReplicaState, b2: ReplicaState)
    requires
        applied_marking(b0, d, b1),
        applied_marking(b1, d, b2),
    ensures
        b2.clock.counter == b1.clock.counter,
        b2.frontier@ == b1.frontier@,
{
    let c = b1.clock.counter;
    let inc = d.frontier;
    if b2.clock.counter != c {
        let p = choose|p: Seq<char>| #[trigger] inc.contains_key(p) && b2.clock.counter == inc[p];
        assert(c >= inc[p]);
    }
    let peer = b0.peer_id@;
    let j0 = frontier_join(b0.frontier@, inc);
    let m = max_u64(counter_of(j0, peer), c);
    let f1 = b1.frontier@;
    assert(f1 == j0.insert(peer, m));
    let j1 = frontier_join(f1, inc);
    assert(j1 =~= f1) by {
        assert forall|p: Seq<char>| #[trigger] j1.contains_key(p) implies f1.contains_key(p) && j1[p] == f1[p] by {
            if p == peer {
                if inc.contains_key(p) {
                    assert(c >= inc[p]);
                }
            } else {
                if inc.contains_key(p) {
                    assert(j0.contains_key(p));
                }
            }
        }
        assert forall|p: Seq<char>| #[trigger] f1.contains_key(p) implies j1.contains_key(p) by {}
    }
    assert(b2.frontier@ =~= f1);
}

/// Receiving the same delta a second time leaves the replica as the first
/// time left it: its rows, tombstones, uniqueness claims and schemas, its
/// clock and its frontier.
pub proof fn law_delta_reapplied(b0: ReplicaState, d: SyncDeltaView, b1: ReplicaState, b2: ReplicaState)
    requires
        applied_marking(b0, d, b1),
        applied_marking(b1, d, b2),
        store_consistent(b0.storage@),
        delta_consistent(d.rows),
    ensures
        b2.storage@ == b1.storage@,
        b2.tombstones@ == b1.tombstones@,
        b2.uniqueness@ == b1.uniqueness@,
        b2.schemas@ == b1.schemas@,
        b2.peer_id@ == b1.peer_id@,
        b2.clock.peer_id@ == b1.clock.peer_id@,
        b2.clock.counter == b1.clock.counter,
        b2.frontier@ == b1.frontier@,
{
    lemma_clock_frontier_reapplied(b0, d, b1, b2);
    law_tombstones_merge_idempotent(b0.tombstones@, tombstones_of(d.tombstones));
    let ls1 = choose|ls: Seq<TombstoneView>|
        crate::tombstone::lists_tombstones(ls, b1.tombstones@) && b1.storage@ == mark_all_spec(
            apply_rows_spec(b0.storage@, d.rows),
            ls,
        );
    let ls2 = choose|ls: Seq<TombstoneView>|
        crate::tombstone::lists_tombstones(ls, b2.tombstones@) && b2.storage@ == mark_all_spec(
            apply_rows_spec(b1.storage@, d.rows),
            ls,
        );
    crate::sync::converge::lemma_tombstone_listing_unique(ls1, ls2, b1.tombstones@);
    law_delta_storage_idempotent(b0.storage@, d.rows, ls1);
    law_registry_merge_idempotent(b0.uniqueness@, claims_with_losers_of(d.claims), b1.uniqueness@, b2.uniqueness@);
}

/// The clock counter that a delta leaves is the least one at or above the
/// counter before and every counter of the delta's frontier.
proof fn lemma_clock_bound(c0: u64, c1: u64, f: Map<Seq<char>, u64>, x: u64)
    requires
        clock_raised(c0, c1, f),
        x >= c0,
        forall|p: Seq<char>| #[trigger] f.contains_key(p) ==> x >= f[p],
    ensures
        x >= c1,
{
    if c1 != c0 {
        let p = choose|p: Seq<char>| #[trigger] f.contains_key(p) && c1 == f[p];
    }
}

/// Two registries merged with a third in either order give every claimed
/// value the same owner at the same version, when any two of them that
/// claim a value at one version name one owner.
proof fn lemma_claims_commute_at(
    a: Map<ClaimKey, ClaimView>,
    b: Map<ClaimKey, ClaimView>,
    c: Map<ClaimKey, ClaimView>,
    ab: Map<ClaimKey, ClaimView>,
    abc: Map<ClaimKey, ClaimView>,
    ac: Map<ClaimKey, ClaimView>,
    acb: Map<ClaimKey, ClaimView>,
    k: ClaimKey,
)
    requires
        registry_merged(a, b, ab),
        registry_merged(ab, c, abc),
        registry_merged(a, c, ac),
        registry_merged(ac, b, acb),
        claims_agree(a, b),
        claims_agree(a, c),
        claims_agree(b, c),
    ensures
        abc.contains_key(k) == acb.contains_key(k),
        abc.contains_key(k) ==> abc[k].owner_row == acb[k].owner_row && abc[k].version == acb[k].version,
{
    lemma_version_order();
    assert(ab.contains_key(k) == (a.contains_key(k) || b.contains_key(k)));
    assert(ac.contains_key(k) == (a.contains_key(k) || c.contains_key(k)));
    assert(abc.contains_key(k) == (ab.contains_key(k) || c.contains_key(k)));
    assert(acb.contains_key(k) == (ac.contains_key(k) || b.contains_key(k)));
    if a.contains_key(k) && b.contains_key(k) {
        assert(a[k].version == b[k].version ==> a[k].owner_row == b[k].owner_row);
        assert(ab.contains_key(k));
        law_claim_merge_owner(a[k], b[k], ab[k]);
    }
    if a.contains_key(k) && c.contains_key(k) {
        assert(a[k].version == c[k].version ==> a[k].owner_row == c[k].owner_row);
        assert(ac.contains_key(k));
        law_claim_merge_owner(a[k], c[k], ac[k]);
    }
    if b.contains_key(k) && c.contains_key(k) {
        assert(b[k].version == c[k].version ==> b[k].owner_row == c[k].owner_row);
    }
    if ab.contains_key(k) && c.contains_key(k) {
        assert(abc.contains_key(k));
        law_claim_merge_owner(ab[k], c[k], abc[k]);
    }
    if ac.contains_key(k) && b.contains_key(k) {
        assert(acb.contains_key(k));
        law_claim_merge_owner(ac[k], b[k], acb[k]);
    }
}

/// The storage part of `law_deltas_commute`.
proof fn lemma_storage_commutes(
    b0: ReplicaState,
    d1: SyncDeltaView,
    d2: SyncDeltaView,
    b1: ReplicaState,
    b12: ReplicaState,
    b2: ReplicaState,
    b21: ReplicaState,
)
    requires
        applied_marking(b0, d1, b1),
        applied_marking(b1, d2, b12),
        applied_marking(b0, d2, b2),
        applied_marking(b2, d1, b21),
        b12.tombstones@ == b21.tombstones@,
        store_consistent(b0.storage@),
        delta_consistent(d1.rows),
        delta_consistent(d2.rows),
        forall|t: Seq<char>, id: Seq<char>|
            #[trigger] row_group_agrees(stored(b0.storage@, t, id), rows_for(d1.rows, t, id) + rows_for(d2.rows, t, id)),
    ensures
        b12.storage@ == b21.storage@,
{
    lemma_version_order();
    let s0 = b0.storage@;
    let m1 = b1.tombstones@;
    let m2 = b2.tombstones@;
    let m12 = b12.tombstones@;
    let l1 = choose|ls: Seq<TombstoneView>|
        lists_tombstones(ls, m1) && b1.storage@ == mark_all_spec(apply_rows_spec(s0, d1.rows), ls);
    let l2 = choose|ls: Seq<TombstoneView>|
        lists_tombstones(ls, m2) && b2.storage@ == mark_all_spec(apply_rows_spec(s0, d2.rows), ls);
    let l12 = choose|ls: Seq<TombstoneView>|
        lists_tombstones(ls, m12) && b12.storage@ == mark_all_spec(apply_rows_spec(b1.storage@, d2.rows), ls);
    let l21 = choose|ls: Seq<TombstoneView>|
        lists_tombstones(ls, b21.tombstones@) && b21.storage@ == mark_all_spec(apply_rows_spec(b2.storage@, d1.rows), ls);
    crate::sync::converge::lemma_tombstone_listing_unique(l12, l21, m12);
    assert forall|k: (Seq<char>, Seq<char>)| #[trigger] m1.contains_key(k) implies m12.contains_key(k) && !version_lt(
        m12[k].version,
        m1[k].version,
    ) by {}
    assert forall|k: (Seq<char>, Seq<char>)| #[trigger] m2.contains_key(k) implies m12.contains_key(k) && !version_lt(
        m12[k].version,
        m2[k].version,
    ) by {}
    let a = b12.storage@;
    let b = b21.storage@;
    assert forall|t: Seq<char>, id: Seq<char>| #[trigger] stored(a, t, id) == stored(b, t, id) && a.contains_key(t)
        == b.contains_key(t) by {
        lemma_two_deltas_at(s0, d1.rows, d2.rows, l1, m1, l12, m12, t, id);
        lemma_two_deltas_at(s0, d2.rows, d1.rows, l2, m2, l21, m12, t, id);
        let r1 = rows_for(d1.rows, t, id);
        let r2 = rows_for(d2.rows, t, id);
        lemma_rows_for_consistent(d1.rows, t, id);
        lemma_rows_for_consistent(d2.rows, t, id);
        assert(row_group_agrees(stored(s0, t, id), r1 + r2));
        assert forall|i: int, j: int| 0 <= i < r1.len() && 0 <= j < r2.len() implies rows_agree(#[trigger] r1[i], #[trigger] r2[j]) by {
            assert((r1 + r2)[i] == r1[i]);
            assert((r1 + r2)[r1.len() + j] == r2[j]);
        }
        lemma_fold_swap(stored(s0, t, id), r1, r2);
    }
    assert forall|t: Seq<char>| #[trigger] a.contains_key(t) == b.contains_key(t) by {
        assert(stored(a, t, Seq::empty()) == stored(b, t, Seq::empty()));
    }
    assert forall|t: Seq<char>| #[trigger] a.contains_key(t) implies a[t] =~= b[t] by {
        assert forall|id: Seq<char>| #[trigger] a[t].contains_key(id) == b[t].contains_key(id) && (a[t].contains_key(id)
            ==> a[t][id] == b[t][id]) by {
            assert(stored(a, t, id) == stored(b, t, id));
        }
    }
    assert(a =~= b);
}

/// Two deltas received in either order leave the replica with the same
/// rows, the same tombstones, the same owner at the same version for every
/// claimed value, the same schemas, clock and frontier. The stored rows and
/// the deltas' rows are consistent, and states of one row agree on the cell
/// written at each version; tombstones of one row at one version, and
/// claims of one value at one version, agree between the replica and the
/// two deltas, as they do between replicas that hand out versions from
/// their own clocks.
pub proof fn law_deltas_commute(
    b0: ReplicaState,
    d1: SyncDeltaView,
    d2: SyncDeltaView,
    b1: ReplicaState,
    b12: ReplicaState,
    b2: ReplicaState,
    b21: ReplicaState,
)
    requires
        applied_marking(b0, d1, b1),
        applied_marking(b1, d2, b12),
        applied_marking(b0, d2, b2),
        applied_marking(b2, d1, b21),
        tombstones_agree(tombstones_of(d1.tombstones), tombstones_of(d2.tombstones)),
        claims_agree(b0.uniqueness@, claims_with_losers_of(d1.claims)),
        claims_agree(b0.uniqueness@, claims_with_losers_of(d2.claims)),
        claims_agree(claims_with_losers_of(d1.claims), claims_with_losers_of(d2.claims)),
        store_consistent(b0.storage@),
        delta_consistent(d1.rows),
        delta_consistent(d2.rows),
        forall|t: Seq<char>, id: Seq<char>|
            #[trigger] row_group_agrees(stored(b0.storage@, t, id), rows_for(d1.rows, t, id) + rows_for(d2.rows, t, id)),
    ensures
        b12.storage@ == b21.storage@,
        b12.tombstones@ == b21.tombstones@,
        b12.schemas@ == b21.schemas@,
        b12.peer_id@ == b21.peer_id@,
        b12.clock.counter == b21.clock.counter,
        b12.frontier@ == b21.frontier@,
        forall|k: ClaimKey| #[trigger] b12.uniqueness@.contains_key(k) == b21.uniqueness@.contains_key(k),
        forall|k: ClaimKey|
            #[trigger] b12.uniqueness@.contains_key(k) ==> b12.uniqueness@[k].owner_row == b21.uniqueness@[k].owner_row
                && b12.uniqueness@[k].version == b21.uniqueness@[k].version,
{
    let t0 = b0.tombstones@;
    let t1 = tombstones_of(d1.tombstones);
    let t2 = tombstones_of(d2.tombstones);
    law_tombstones_merge_associative(t0, t1, t2);
    law_tombstones_merge_associative(t0, t2, t1);
    law_tombstones_merge_commutative(t1, t2);
    lemma_storage_commutes(b0, d1, d2, b1, b12, b2, b21);
    let c1 = claims_with_losers_of(d1.claims);
    let c2 = claims_with_losers_of(d2.claims);
    assert forall|k: ClaimKey| #[trigger] b12.uniqueness@.contains_key(k) == b21.uniqueness@.contains_key(k) && (
    b12.uniqueness@.contains_key(k) ==> b12.uniqueness@[k].owner_row == b21.uniqueness@[k].owner_row
        && b12.uniqueness@[k].version == b21.uniqueness@[k].version) by {
        lemma_claims_commute_at(b0.uniqueness@, c1, c2, b1.uniqueness@, b12.uniqueness@, b2.uniqueness@, b21.uniqueness@, k);
    }
    let f1 = d1.frontier;
    let f2 = d2.frontier;
    let k0 = b0.clock.counter;
    let k12 = b12.clock.counter;
    let k21 = b21.clock.counter;
    assert(k12 == k21) by {
        lemma_clock_bound(k0, b1.clock.counter, f1, k21);
        lemma_clock_bound(b1.clock.counter, k12, f2, k21);
        lemma_clock_bound(k0, b2.clock.counter, f2, k12);
        lemma_clock_bound(b2.clock.counter, k21, f1, k12);
    }
    let peer = b0.peer_id@;
    let fr12 = b12.frontier@;
    let fr21 = b21.frontier@;
    let fr0 = b0.frontier@;
    assert forall|p: Seq<char>| #[trigger] fr12.contains_key(p) == fr21.contains_key(p) && (fr12.contains_key(p) ==> fr12[p]
        == fr21[p]) by {
        if p == peer {
            assert(f1.contains_key(p) ==> k12 >= f1[p]);
            assert(f2.contains_key(p) ==> k12 >= f2[p]);
        }
    }
    assert(fr12 =~= fr21);
}

/// Merging a row into a marked row is marking the merge.
proof fn lemma_merge_mark_row(y: RowView, r: RowView, v: VersionView)
    requires
        row_consistent(y),
        row_consistent(r),
    ensures
        merge_row_spec(mark_row(y, v), r) == mark_row(merge_row_spec(y, r), v),
{
    lemma_version_order();
}

/// Merging a row into a row marked by several tombstones is marking the
/// merge by them.
proof fn lemma_merge_mark_fold(y: RowView, r: RowView, vs: Seq<VersionView>)
    requires
        row_consistent(y),
        row_consistent(r),
    ensures
        merge_row_spec(mark_fold(y, vs), r) == mark_fold(merge_row_spec(y, r), vs),
    decreases vs.len(),
{
    if vs.len() > 0 {
        let d = vs.drop_last();
        lemma_merge_mark_fold(y, r, d);
        lemma_mark_fold_keeps(y, d);
        lemma_merge_mark_row(mark_fold(y, d), r, vs.last());
    }
}

/// Folding rows into a marked row is marking the fold.
proof fn lemma_fold_mark(y: RowView, rows: Seq<RowView>, vs: Seq<VersionView>)
    requires
        row_consistent(y),
        forall|i: int| 0 <= i < rows.len() ==> row_consistent(#[trigger] rows[i]),
    ensures
        fold_rows(Some(y), rows) is Some,
        row_consistent(fold_rows(Some(y), rows)->0),
        fold_rows(Some(mark_fold(y, vs)), rows) == Some(mark_fold(fold_rows(Some(y), rows)->0, vs)),
    decreases rows.len(),
{
    if rows.len() > 0 {
        let d = rows.drop_last();
        let r = rows.last();
        assert(row_consistent(r)) by {
            assert(rows[rows.len() - 1] == r);
        }
        assert forall|i: int| 0 <= i < d.len() implies row_consistent(#[trigger] d[i]) by {
            assert(d[i] == rows[i]);
        }
        lemma_fold_mark(y, d, vs);
        let g = fold_rows(Some(y), d)->0;
        lemma_merge_mark_fold(g, r, vs);
        law_merge_row_delete_wins(g, r);
    }
}

/// Folding two runs of rows is folding their concatenation.
proof fn lemma_fold_append(v: Option<RowView>, r1: Seq<RowView>, r2: Seq<RowView>)
    ensures
        fold_rows(fold_rows(v, r1), r2) == fold_rows(v, r1 + r2),
    decreases r2.len(),
{
    if r2.len() == 0 {
        assert(r1 + r2 =~= r1);
    } else {
        lemma_fold_append(v, r1, r2.drop_last());
        assert((r1 + r2).drop_last() =~= r1 + r2.drop_last());
        assert((r1 + r2).last() == r2.last());
    }
}

/// Rows that pairwise agree, and a stored row that agrees with each.
pub open spec fn row_group_agrees(x: Option<RowView>, rows: Seq<RowView>) -> bool {
    &&& forall|i: int, j: int| 0 <= i < rows.len() && 0 <= j < rows.len() ==> rows_agree(#[trigger] rows[i], #[trigger] rows[j])
    &&& x matches Some(v) ==> forall|i: int| 0 <= i < rows.len() ==> rows_agree(v, #[trigger] rows[i])
}

/// The fold of rows that each agree with `c` agrees with `c`.
proof fn lemma_fold_agrees(rows: Seq<RowView>, c: RowView)
    requires
        rows.len() > 0,
        forall|i: int| 0 <= i < rows.len() ==> rows_agree(#[trigger] rows[i], c),
    ensures
        fold_rows(None, rows) is Some,
        rows_agree(fold_rows(None, rows)->0, c),
        fold_rows(None, rows)->0.id == c.id,
    decreases rows.len(),
{
    let d = rows.drop_last();
    let r = rows.last();
    assert(rows_agree(r, c)) by {
        assert(rows[rows.len() - 1] == r);
    }
    if d.len() > 0 {
        assert forall|i: int| 0 <= i < d.len() implies rows_agree(#[trigger] d[i], c) by {
            assert(d[i] == rows[i]);
        }
        lemma_fold_agrees(d, c);
        law_merge_row_agrees(fold_rows(None, d)->0, r, c);
    } else {
        assert(fold_rows(None, d) is None);
    }
}

/// Rows agreeing with each other fold to the same row in either order of
/// two runs of them.
proof fn lemma_fold_swap(x: Option<RowView>, r1: Seq<RowView>, r2: Seq<RowView>)
    requires
        x matches Some(v) ==> row_consistent(v),
        forall|i: int| 0 <= i < r1.len() ==> row_consistent(#[trigger] r1[i]),
        forall|i: int| 0 <= i < r2.len() ==> row_consistent(#[trigger] r2[i]),
        forall|i: int, j: int| 0 <= i < r1.len() && 0 <= j < r2.len() ==> rows_agree(#[trigger] r1[i], #[trigger] r2[j]),
    ensures
        fold_rows(x, r1 + r2) == fold_rows(x, r2 + r1),
{
    if r1.len() == 0 {
        assert(r1 + r2 =~= r2);
        assert(r2 + r1 =~= r2);
    } else if r2.len() == 0 {
        assert(r1 + r2 =~= r1);
        assert(r2 + r1 =~= r1);
    } else {
        lemma_fold_alone(r1);
        lemma_fold_alone(r2);
        let f1 = fold_rows(None, r1)->0;
        let f2 = fold_rows(None, r2)->0;
        lemma_fold_append(None, r1, r2);
        lemma_fold_append(None, r2, r1);
        lemma_fold_split(f1, r2);
        lemma_fold_split(f2, r1);
        assert forall|i: int| 0 <= i < r1.len() implies rows_agree(#[trigger] r1[i], f2) by {
            assert forall|j: int| 0 <= j < r2.len() implies rows_agree(#[trigger] r2[j], r1[i]) by {
                assert(rows_agree(r1[i], r2[j]));
                assert(r2[j].id == r1[i].id);
            }
            lemma_fold_agrees(r2, r1[i]);
            assert(rows_agree(f2, r1[i]));
        }
        assert(rows_agree(f1, f2)) by {
            lemma_fold_agrees(r1, f2);
        }
        law_merge_row_commutative(f1, f2);
        let cat12 = r1 + r2;
        let cat21 = r2 + r1;
        assert forall|i: int| 0 <= i < cat12.len() implies row_consistent(#[trigger] cat12[i]) by {
            if i < r1.len() {
                assert(cat12[i] == r1[i]);
            } else {
                assert(cat12[i] == r2[i - r1.len()]);
            }
        }
        assert forall|i: int| 0 <= i < cat21.len() implies row_consistent(#[trigger] cat21[i]) by {
            if i < r2.len() {
                assert(cat21[i] == r2[i]);
            } else {
                assert(cat21[i] == r1[i - r2.len()]);
            }
        }
        match x {
            Some(v) => {
                lemma_fold_split(v, cat12);
                lemma_fold_split(v, cat21);
            },
            None => {},
        }
    }
}

/// Marks keep a row's id and cells and delete it, at a version that is
/// its own delete version or one of the marks'.
proof fn lemma_mark_fold_shape(r: RowView, vs: Seq<VersionView>)
    requires
        row_consistent(r),
    ensures
        mark_fold(r, vs).deleted == (r.deleted || vs.len() > 0),
        !mark_fold(r, vs).deleted ==> mark_fold(r, vs) == r,
        mark_fold(r, vs).deleted ==> mark_fold(r, vs).delete_version is Some,
        mark_fold(r, vs).deleted ==> (r.deleted && mark_fold(r, vs).delete_version == r.delete_version) || exists|j: int|
            0 <= j < vs.len() && mark_fold(r, vs).delete_version == Some(#[trigger] vs[j]),
    decreases vs.len(),
{
    lemma_version_order();
    if vs.len() > 0 {
        let d = vs.drop_last();
        lemma_mark_fold_shape(r, d);
        lemma_mark_fold_keeps(r, d);
        let u = mark_fold(r, d);
        if u.deleted && mark_fold(r, vs).delete_version == u.delete_version && !(r.deleted && u.delete_version
            == r.delete_version) {
            let j = choose|j: int| 0 <= j < d.len() && u.delete_version == Some(#[trigger] d[j]);
            assert(vs[j] == d[j]);
        }
        if mark_fold(r, vs).delete_version == Some(vs.last()) {
            assert(vs[vs.len() - 1] == vs.last());
        }
    }
}

/// Tombstones at a version no lower than any of `vs` make the marks of
/// `vs` moot.
proof fn lemma_mark_absorb(r: RowView, vs: Seq<VersionView>, ws: Seq<VersionView>)
    requires
        row_consistent(r),
        ws.len() > 0,
        forall|j: int| 0 <= j < vs.len() ==> !version_lt(ws[0], #[trigger] vs[j]),
    ensures
        mark_fold(mark_fold(r, vs), ws) == mark_fold(r, ws),
{
    lemma_version_order();
    let a = mark_fold(r, vs);
    lemma_mark_fold_keeps(r, vs);
    lemma_mark_fold_shape(r, vs);
    lemma_mark_fold_keeps(a, ws);
    lemma_mark_fold_shape(a, ws);
    lemma_mark_fold_top(a, ws);
    lemma_mark_fold_keeps(r, ws);
    lemma_mark_fold_shape(r, ws);
    lemma_mark_fold_top(r, ws);
    let l = mark_fold(a, ws);
    let rr = mark_fold(r, ws);
    let dl = l.delete_version->0;
    let dr = rr.delete_version->0;
    assert(!version_lt(dr, ws[0]));
    if a.deleted {
        assert(!version_lt(dr, a.delete_version->0)) by {
            if !(r.deleted && a.delete_version == r.delete_version) {
                let j = choose|j: int| 0 <= j < vs.len() && a.delete_version == Some(#[trigger] vs[j]);
                assert(!version_lt(ws[0], vs[j]));
            }
        }
    }
    assert(!version_lt(dr, dl)) by {
        if !(a.deleted && l.delete_version == a.delete_version) {
            let j = choose|j: int| 0 <= j < ws.len() && l.delete_version == Some(#[trigger] ws[j]);
        }
    }
    assert(!version_lt(dl, dr)) by {
        if !(r.deleted && rr.delete_version == r.delete_version) {
            let j = choose|j: int| 0 <= j < ws.len() && rr.delete_version == Some(#[trigger] ws[j]);
        } else {
            assert(a.deleted);
        }
    }
    assert(dl == dr);
}

/// Some tombstone of `ts` is for row `id` of table `t` at version `v`.
spec fn has_tomb_version(ts: Seq<TombstoneView>, t: Seq<char>, id: Seq<char>, v: VersionView) -> bool {
    exists|i: int| 0 <= i < ts.len() && (#[trigger] ts[i]).table_id == t && ts[i].row_id == id && ts[i].version == v
}

/// The versions listed for a row are those of tombstones for that row, and
/// some are listed when a tombstone for it is.
proof fn lemma_versions_for_members(ts: Seq<TombstoneView>, t: Seq<char>, id: Seq<char>)
    ensures
        forall|j: int| 0 <= j < versions_for(ts, t, id).len() ==> has_tomb_version(ts, t, id, #[trigger] versions_for(ts, t, id)[j]),
        forall|i: int| 0 <= i < ts.len() && (#[trigger] ts[i]).table_id == t && ts[i].row_id == id ==> versions_for(
            ts,
            t,
            id,
        ).len() > 0,
    decreases ts.len(),
{
    if ts.len() > 0 {
        let q = ts.drop_last();
        lemma_versions_for_members(q, t, id);
        let vq = versions_for(q, t, id);
        let v = versions_for(ts, t, id);
        assert forall|j: int| 0 <= j < v.len() implies has_tomb_version(ts, t, id, #[trigger] v[j]) by {
            if j < vq.len() {
                assert(v[j] == vq[j]);
                assert(has_tomb_version(q, t, id, vq[j]));
                let i = choose|i: int| 0 <= i < q.len() && (#[trigger] q[i]).table_id == t && q[i].row_id == id && q[i].version == vq[j];
                assert(ts[i] == q[i]);
            } else {
                assert(ts[ts.len() - 1] == ts.last());
            }
        }
        assert forall|i: int| 0 <= i < ts.len() && (#[trigger] ts[i]).table_id == t && ts[i].row_id == id implies v.len() > 0 by {
            if i < q.len() {
                assert(q[i] == ts[i]);
            }
        }
    }
}

/// In a listing of a tombstone store, the versions for a row are its
/// tombstone's, and there is one where the store has a tombstone for it.
proof fn lemma_listing_versions(ls: Seq<TombstoneView>, m: Map<(Seq<char>, Seq<char>), TombstoneView>, t: Seq<char>, id: Seq<char>)
    requires
        lists_tombstones(ls, m),
    ensures
        forall|j: int| 0 <= j < versions_for(ls, t, id).len() ==> m.contains_key((t, id)) && #[trigger] versions_for(
            ls,
            t,
            id,
        )[j] == m[(t, id)].version,
        m.contains_key((t, id)) ==> versions_for(ls, t, id).len() > 0,
{
    lemma_versions_for_members(ls, t, id);
    let v = versions_for(ls, t, id);
    assert forall|j: int| 0 <= j < v.len() implies m.contains_key((t, id)) && #[trigger] v[j] == m[(t, id)].version by {
        assert(has_tomb_version(ls, t, id, v[j]));
        let i = choose|i: int| 0 <= i < ls.len() && (#[trigger] ls[i]).table_id == t && ls[i].row_id == id && ls[i].version == v[j];
        assert(crate::tombstone::tombstone_key(ls[i]) == (t, id));
    }
    if m.contains_key((t, id)) {
        let i = choose|i: int| 0 <= i < ls.len() && crate::tombstone::tombstone_key(#[trigger] ls[i]) == (t, id);
        assert(ls[i].table_id == t && ls[i].row_id == id);
    }
}

/// One row after two deltas: the rows of both folded into what was stored,
/// then marked by the tombstones the replica holds at the end, when those
/// dominate the ones it held in between.
proof fn lemma_two_deltas_at(
    s0: StoreView,
    ds1: Seq<RowDeltaView>,
    ds2: Seq<RowDeltaView>,
    l1: Seq<TombstoneView>,
    m1: Map<(Seq<char>, Seq<char>), TombstoneView>,
    l2: Seq<TombstoneView>,
    m2: Map<(Seq<char>, Seq<char>), TombstoneView>,
    t: Seq<char>,
    id: Seq<char>,
)
    requires
        store_consistent(s0),
        delta_consistent(ds1),
        delta_consistent(ds2),
        lists_tombstones(l1, m1),
        lists_tombstones(l2, m2),
        forall|k: (Seq<char>, Seq<char>)| #[trigger] m1.contains_key(k) ==> m2.contains_key(k) && !version_lt(
            m2[k].version,
            m1[k].version,
        ),
    ensures
        ({
            let after = mark_all_spec(apply_rows_spec(mark_all_spec(apply_rows_spec(s0, ds1), l1), ds2), l2);
            &&& after.contains_key(t) == (s0.contains_key(t) || has_table(ds1, t) || has_table(ds2, t))
            &&& stored(after, t, id) == match fold_rows(stored(s0, t, id), rows_for(ds1, t, id) + rows_for(ds2, t, id)) {
                Some(g) => Some(mark_fold(g, versions_for(l2, t, id))),
                None => None::<RowView>,
            }
        }),
{
    let mid = mark_all_spec(apply_rows_spec(s0, ds1), l1);
    lemma_delta_pointwise(s0, ds1, l1, t, id);
    lemma_delta_pointwise(mid, ds2, l2, t, id);
    lemma_rows_for_consistent(ds1, t, id);
    lemma_rows_for_consistent(ds2, t, id);
    let x = stored(s0, t, id);
    let r1 = rows_for(ds1, t, id);
    let r2 = rows_for(ds2, t, id);
    let v1 = versions_for(l1, t, id);
    let w = versions_for(l2, t, id);
    lemma_fold_append(x, r1, r2);
    match fold_rows(x, r1) {
        Some(a) => {
            assert(row_consistent(a)) by {
                match x {
                    Some(xv) => {
                        if r1.len() > 0 {
                            lemma_fold_split(xv, r1);
                            law_merge_row_delete_wins(xv, fold_rows(None, r1)->0);
                        }
                    },
                    None => {
                        lemma_fold_alone(r1);
                    },
                }
            }
            lemma_fold_mark(a, r2, v1);
            let g = fold_rows(Some(a), r2)->0;
            if v1.len() > 0 {
                lemma_listing_versions(l1, m1, t, id);
                lemma_listing_versions(l2, m2, t, id);
                assert(v1[0] == m1[(t, id)].version);
                assert forall|j: int| 0 <= j < v1.len() implies !version_lt(w[0], #[trigger] v1[j]) by {}
                lemma_mark_absorb(g, v1, w);
            } else {
                assert(mark_fold(g, v1) == g);
            }
        },
        None => {
            assert(r1.len() == 0);
            assert(r1 + r2 =~= r2);
        },
    }
}

} // verus!
