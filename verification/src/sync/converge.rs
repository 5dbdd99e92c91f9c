//! Convergence: once both sides of a sync round have applied what the other
//! sent, they hold the same rows.
use vstd::prelude::*;
use crate::merge::{merge_row_spec, merge_delete_spec, rows_agree, law_merge_row_commutative};
use crate::replication::ReplicaState;
use crate::sync::delta::{mark_all_spec, applied_marking, claim_losers, claims_with_losers_of};
use crate::sync::{applied, claims_of, extracted, lists_claims, synced, tombstones_of, unseen};
use crate::sync::session::{session_history, session_round};
use crate::tombstone::{lists_tombstones, tombstone_key, tombstones_agree, tombstones_merge_spec, tombstones_sorted};
use crate::order::{pair_lt, triple_lt, lemma_str_laws};
use crate::storage::tables_keyed;
use crate::sync::{apply_rows_spec, lists_new_rows, row_delta_key, row_is_new};
use crate::sync::replay::{StoreView, stored, fold_rows, merge_into, rows_for, store_consistent, lemma_apply_rows_pointwise};
use crate::hashing::{claim_items, full_stream, hex_digest, tomb_pairs};
use crate::ordmap::{strictly_sorted, lemma_sorted_unique};
use crate::types::{ClaimView, LooserView, RowDeltaView, Tombstone, UniquenessClaim, RowView, TombstoneView, version_lt, lemma_version_order};
use crate::uniqueness::{
    ClaimKey, append_new_losers, claim_apply, claim_key, claim_merged, claim_step, merged_owner, registry_merged,
    law_claim_merge_owner,
};

verus! {

/// Rows stored under the same key in both stores are states of the same row.
pub open spec fn stores_agree(a: StoreView, b: StoreView) -> bool {
    forall|t: Seq<char>, id: Seq<char>|
        #![trigger a[t][id], b[t][id]]
        a.contains_key(t) && a[t].contains_key(id) && b.contains_key(t) && b[t].contains_key(id)
            ==> rows_agree(a[t][id], b[t][id])
}

/// `b` already holds every row of `a` whose writes the frontier `f` records
/// as seen: merging such a row into `b`'s copy changes nothing.
pub open spec fn absorbs(b: StoreView, a: StoreView, f: Map<Seq<char>, u64>) -> bool {
    forall|t: Seq<char>, id: Seq<char>|
        #![trigger a[t][id]]
        a.contains_key(t) && a[t].contains_key(id) && !row_is_new(a[t][id], f) ==> b.contains_key(t)
            && b[t].contains_key(id) && merge_row_spec(b[t][id], a[t][id]) == b[t][id]
}

/// In a listing sorted by strictly increasing key, the rows for one key are
/// the one listed under it, or none.
proof fn lemma_rows_for_sorted(ds: Seq<RowDeltaView>, t: Seq<char>, id: Seq<char>)
    requires
        forall|i: int, j: int|
            0 <= i < j < ds.len() ==> pair_lt(row_delta_key(#[trigger] ds[i]), row_delta_key(#[trigger] ds[j])),
    ensures
        forall|i: int|
            0 <= i < ds.len() && row_delta_key(#[trigger] ds[i]) == (t, id) ==> rows_for(ds, t, id) == seq![ds[i].row],
        (forall|i: int| 0 <= i < ds.len() ==> row_delta_key(#[trigger] ds[i]) != (t, id)) ==> rows_for(ds, t, id)
            == Seq::<RowView>::empty(),
    decreases ds.len(),
{
    lemma_str_laws();
    if ds.len() > 0 {
        let q = ds.drop_last();
        let x = ds.last();
        assert forall|i: int, j: int| 0 <= i < j < q.len() implies pair_lt(
            row_delta_key(#[trigger] q[i]),
            row_delta_key(#[trigger] q[j]),
        ) by {
            assert(q[i] == ds[i] && q[j] == ds[j]);
        }
        lemma_rows_for_sorted(q, t, id);
        assert(ds[ds.len() - 1] == x);
        if row_delta_key(x) == (t, id) {
            assert forall|i: int| 0 <= i < q.len() implies row_delta_key(#[trigger] q[i]) != (t, id) by {
                assert(q[i] == ds[i]);
                assert(pair_lt(row_delta_key(ds[i]), row_delta_key(ds[ds.len() - 1])));
            }
            assert(rows_for(ds, t, id) =~= seq![x.row]);
            assert forall|i: int| 0 <= i < ds.len() && row_delta_key(#[trigger] ds[i]) == (t, id) implies rows_for(
                ds,
                t,
                id,
            ) == seq![ds[i].row] by {
                if i < ds.len() - 1 {
                    assert(q[i] == ds[i]);
                }
            }
        } else {
            assert(rows_for(ds, t, id) == rows_for(q, t, id));
            assert forall|i: int| 0 <= i < ds.len() && row_delta_key(#[trigger] ds[i]) == (t, id) implies rows_for(
                ds,
                t,
                id,
            ) == seq![ds[i].row] by {
                assert(i < ds.len() - 1);
                assert(q[i] == ds[i]);
            }
            if forall|i: int| 0 <= i < ds.len() ==> row_delta_key(#[trigger] ds[i]) != (t, id) {
                assert forall|i: int| 0 <= i < q.len() implies row_delta_key(#[trigger] q[i]) != (t, id) by {
                    assert(q[i] == ds[i]);
                }
            }
        }
    }
}

/// What a listing of the new rows of `s` carries for one key: the stored
/// row when it is new to `f`, nothing otherwise.
proof fn lemma_listed_rows_for(
    ds: Seq<RowDeltaView>,
    s: StoreView,
    f: Map<Seq<char>, u64>,
    t: Seq<char>,
    id: Seq<char>,
)
    requires
        lists_new_rows(ds, s, f),
    ensures
        rows_for(ds, t, id) == (if s.contains_key(t) && s[t].contains_key(id) && row_is_new(s[t][id], f) {
            seq![s[t][id]]
        } else {
            Seq::<RowView>::empty()
        }),
{
    lemma_rows_for_sorted(ds, t, id);
    if s.contains_key(t) && s[t].contains_key(id) && row_is_new(s[t][id], f) {
        let i = choose|i: int| 0 <= i < ds.len() && row_delta_key(#[trigger] ds[i]) == (t, id);
        assert(ds[i].row == s[t][id]);
    } else {
        assert forall|i: int| 0 <= i < ds.len() implies row_delta_key(#[trigger] ds[i]) != (t, id) by {
            assert(s.contains_key(ds[i].table_id) && s[ds[i].table_id].contains_key(ds[i].row.id));
        }
    }
}

proof fn lemma_fold_one(v: Option<RowView>, x: RowView)
    ensures
        fold_rows(v, seq![x]) == Some(merge_into(v, x)),
{
    assert(seq![x].drop_last() =~= Seq::<RowView>::empty());
    assert(seq![x].last() == x);
    assert(fold_rows(v, Seq::<RowView>::empty()) == v);
}

/// One key after a round: both sides end with the same row there.
proof fn lemma_converge_at(
    a: StoreView,
    b: StoreView,
    fa: Map<Seq<char>, u64>,
    fb: Map<Seq<char>, u64>,
    da: Seq<RowDeltaView>,
    db: Seq<RowDeltaView>,
    t: Seq<char>,
    id: Seq<char>,
)
    requires
        lists_new_rows(da, a, fb),
        lists_new_rows(db, b, fa),
        store_consistent(a),
        store_consistent(b),
        stores_agree(a, b),
        absorbs(b, a, fb),
        absorbs(a, b, fa),
    ensures
        stored(apply_rows_spec(a, db), t, id) == stored(apply_rows_spec(b, da), t, id),
{
    lemma_apply_rows_pointwise(a, db, t, id);
    lemma_apply_rows_pointwise(b, da, t, id);
    lemma_listed_rows_for(da, a, fb, t, id);
    lemma_listed_rows_for(db, b, fa, t, id);
    let ha = a.contains_key(t) && a[t].contains_key(id);
    let hb = b.contains_key(t) && b[t].contains_key(id);
    if ha && hb {
        let x = a[t][id];
        let y = b[t][id];
        assert(rows_agree(x, y));
        assert(rows_agree(y, x));
        law_merge_row_commutative(x, y);
        lemma_fold_one(Some(x), y);
        lemma_fold_one(Some(y), x);
    } else if ha {
        lemma_fold_one(None, a[t][id]);
    } else if hb {
        lemma_fold_one(None, b[t][id]);
    }
}

/// Sync converges on rows. When `a` sends `b` its rows new to `b`'s
/// frontier and `b` sends `a` its rows new to `a`'s, and each side already
/// holds the rows of the other that its frontier records as seen, merging
/// what was received leaves both with the same row under every key, and with
/// the same stores when they have the same tables.
pub proof fn law_sync_rows_converge(
    a: StoreView,
    b: StoreView,
    fa: Map<Seq<char>, u64>,
    fb: Map<Seq<char>, u64>,
    da: Seq<RowDeltaView>,
    db: Seq<RowDeltaView>,
)
    requires
        lists_new_rows(da, a, fb),
        lists_new_rows(db, b, fa),
        tables_keyed(a),
        tables_keyed(b),
        store_consistent(a),
        store_consistent(b),
        stores_agree(a, b),
        absorbs(b, a, fb),
        absorbs(a, b, fa),
    ensures
        forall|t: Seq<char>, id: Seq<char>|
            stored(apply_rows_spec(a, db), t, id) == #[trigger] stored(apply_rows_spec(b, da), t, id),
        a.dom() == b.dom() ==> apply_rows_spec(a, db) == apply_rows_spec(b, da),
{
    let a2 = apply_rows_spec(a, db);
    let b2 = apply_rows_spec(b, da);
    assert forall|t: Seq<char>, id: Seq<char>| stored(a2, t, id) == #[trigger] stored(b2, t, id) by {
        lemma_converge_at(a, b, fa, fb, da, db, t, id);
    }
    if a.dom() == b.dom() {
        assert forall|t: Seq<char>| #[trigger] a2.contains_key(t) == b2.contains_key(t) by {
            lemma_apply_rows_pointwise(a, db, t, Seq::empty());
            lemma_apply_rows_pointwise(b, da, t, Seq::empty());
            if crate::sync::replay::has_table(db, t) {
                let i = choose|i: int| 0 <= i < db.len() && (#[trigger] db[i]).table_id == t;
                assert(b.contains_key(db[i].table_id));
                assert(a.contains_key(t));
            }
            if crate::sync::replay::has_table(da, t) {
                let i = choose|i: int| 0 <= i < da.len() && (#[trigger] da[i]).table_id == t;
                assert(a.contains_key(da[i].table_id));
                assert(b.contains_key(t));
            }
        }
        assert forall|t: Seq<char>| #[trigger] a2.contains_key(t) implies a2[t] =~= b2[t] by {
            assert forall|id: Seq<char>| #[trigger] a2[t].contains_key(id) == b2[t].contains_key(id) && (
            a2[t].contains_key(id) ==> a2[t][id] == b2[t][id]) by {
                assert(stored(a2, t, id) == stored(b2, t, id));
            }
        }
        assert(a2 =~= b2);
    }
}

/// Every tombstone names a stored row that is deleted at a version no lower
/// than the tombstone's.
pub open spec fn tombstones_reflected(s: StoreView, ts: Map<(Seq<char>, Seq<char>), TombstoneView>) -> bool {
    forall|k: (Seq<char>, Seq<char>)| #[trigger] ts.contains_key(k) ==> covers(s, ts[k])
}

/// The row a tombstone names is stored, deleted at a version no lower than
/// the tombstone's.
pub open spec fn covers(s: StoreView, tv: TombstoneView) -> bool {
    &&& s.contains_key(tv.table_id)
    &&& s[tv.table_id].contains_key(tv.row_id)
    &&& s[tv.table_id][tv.row_id].deleted
    &&& s[tv.table_id][tv.row_id].delete_version matches Some(dv) && !version_lt(dv, tv.version)
}

/// Tombstones whose rows are already deleted at a version no lower mark
/// nothing.
proof fn lemma_mark_all_covered(s: StoreView, ts: Seq<TombstoneView>)
    requires
        forall|i: int| 0 <= i < ts.len() ==> covers(s, #[trigger] ts[i]),
    ensures
        mark_all_spec(s, ts) == s,
    decreases ts.len(),
{
    if ts.len() > 0 {
        let q = ts.drop_last();
        assert forall|i: int| 0 <= i < q.len() implies covers(s, #[trigger] q[i]) by {
            assert(q[i] == ts[i]);
        }
        lemma_mark_all_covered(s, q);
        assert(covers(s, ts[ts.len() - 1]));
    }
}

/// A deleted row merged into a consistent row keeps a delete version no
/// lower than its own.
proof fn lemma_merge_keeps_delete(y: RowView, x: RowView, tv: TombstoneView)
    requires
        crate::merge::row_consistent(y),
        x.deleted,
        x.delete_version matches Some(dv) && !version_lt(dv, tv.version),
    ensures
        merge_row_spec(y, x).deleted,
        merge_row_spec(y, x).delete_version matches Some(dv) && !version_lt(dv, tv.version),
{
    lemma_version_order();
    let _ = merge_delete_spec(y, x);
}

/// After `b` merges the rows `a` listed as new to `fb`, every row that a
/// tombstone of `a` covers in `a` is covered in `b` too.
proof fn lemma_covered_after(
    a: StoreView,
    b: StoreView,
    fb: Map<Seq<char>, u64>,
    da: Seq<RowDeltaView>,
    tv: TombstoneView,
)
    requires
        lists_new_rows(da, a, fb),
        store_consistent(b),
        absorbs(b, a, fb),
        covers(a, tv),
    ensures
        covers(apply_rows_spec(b, da), tv),
{
    let t = tv.table_id;
    let id = tv.row_id;
    lemma_apply_rows_pointwise(b, da, t, id);
    lemma_listed_rows_for(da, a, fb, t, id);
    let x = a[t][id];
    let b2 = apply_rows_spec(b, da);
    if row_is_new(x, fb) {
        if b.contains_key(t) && b[t].contains_key(id) {
            lemma_fold_one(Some(b[t][id]), x);
            lemma_merge_keeps_delete(b[t][id], x, tv);
        } else {
            lemma_fold_one(None, x);
        }
        assert(stored(b2, t, id) is Some);
    } else {
        assert(b[t][id] == merge_row_spec(b[t][id], x));
        lemma_merge_keeps_delete(b[t][id], x, tv);
        assert(rows_for(da, t, id) =~= Seq::<RowView>::empty());
        assert(stored(b2, t, id) == stored(b, t, id));
    }
}

/// After `dst` applies what `src` sent, the tombstones of the merged store
/// mark nothing more: each names a row already deleted at its version or
/// later, whether it was `dst`'s own or came from `src`.
proof fn lemma_marks_nothing_full(
    src: ReplicaState,
    dst: ReplicaState,
    d: crate::types::SyncDeltaView,
    after: ReplicaState,
)
    requires
        extracted(src, dst.frontier@, d),
        applied_marking(dst, d, after),
        store_consistent(src.storage@),
        store_consistent(dst.storage@),
        absorbs(dst.storage@, src.storage@, dst.frontier@),
        tombstones_reflected(src.storage@, src.tombstones@),
        tombstones_reflected(dst.storage@, dst.tombstones@),
    ensures
        after.storage@ == apply_rows_spec(dst.storage@, d.rows),
{
    let a = apply_rows_spec(dst.storage@, d.rows);
    let inc = src.tombstones@.restrict(
        Set::new(|k: (Seq<char>, Seq<char>)| unseen(src.tombstones@[k].version, dst.frontier@)),
    );
    lemma_tombstones_of_listing(d.tombstones, inc);
    lemma_listing_consistent(d.rows, src.storage@, dst.frontier@);
    let ls = choose|ls: Seq<TombstoneView>|
        lists_tombstones(ls, after.tombstones@) && after.storage@ == mark_all_spec(a, ls);
    assert forall|i: int| 0 <= i < ls.len() implies covers(a, #[trigger] ls[i]) by {
        let k = tombstone_key(ls[i]);
        assert(after.tombstones@.contains_key(k) && after.tombstones@[k] == ls[i]);
        if dst.tombstones@.contains_key(k) {
            lemma_covers_kept(dst.storage@, d.rows, dst.tombstones@[k]);
        }
        if inc.contains_key(k) {
            lemma_covered_after(src.storage@, dst.storage@, dst.frontier@, d.rows, src.tombstones@[k]);
        }
    }
    lemma_mark_all_covered(a, ls);
}

/// `b` already holds, at the same version or later, every tombstone of `a`
/// that the frontier `f` records as seen.
pub open spec fn tombstones_absorb(
    b: Map<(Seq<char>, Seq<char>), TombstoneView>,
    a: Map<(Seq<char>, Seq<char>), TombstoneView>,
    f: Map<Seq<char>, u64>,
) -> bool {
    forall|k: (Seq<char>, Seq<char>)|
        #[trigger] a.contains_key(k) && !unseen(a[k].version, f) ==> b.contains_key(k) && !version_lt(
            b[k].version,
            a[k].version,
        )
}

/// A sorted listing of tombstones, read back into a store, is the store it
/// lists.
proof fn lemma_tombstones_of_listing(s: Seq<TombstoneView>, m: Map<(Seq<char>, Seq<char>), TombstoneView>)
    requires
        lists_tombstones(s, m),
    ensures
        tombstones_of(s) == m,
{
    lemma_tombstones_of_sorted(s);
    let r = tombstones_of(s);
    assert forall|k: (Seq<char>, Seq<char>)| #[trigger] r.contains_key(k) == m.contains_key(k) by {
        if m.contains_key(k) {
            let i = choose|i: int| 0 <= i < s.len() && tombstone_key(#[trigger] s[i]) == k;
        }
    }
    assert forall|k: (Seq<char>, Seq<char>)| #[trigger] r.contains_key(k) implies r[k] == m[k] by {
        let i = choose|i: int| 0 <= i < s.len() && tombstone_key(#[trigger] s[i]) == k;
    }
    assert(r =~= m);
}

/// The store read back from a sorted listing holds each listed tombstone
/// under its key, and nothing else.
proof fn lemma_tombstones_of_sorted(s: Seq<TombstoneView>)
    requires
        tombstones_sorted(s),
    ensures
        forall|k: (Seq<char>, Seq<char>)|
            #[trigger] tombstones_of(s).contains_key(k) ==> exists|i: int| 0 <= i < s.len() && tombstone_key(#[trigger] s[i]) == k,
        forall|i: int|
            0 <= i < s.len() ==> tombstones_of(s).contains_key(tombstone_key(#[trigger] s[i])) && tombstones_of(s)[tombstone_key(s[i])]
                == s[i],
    decreases s.len(),
{
    lemma_str_laws();
    if s.len() > 0 {
        let q = s.drop_last();
        let x = s.last();
        assert forall|i: int, j: int| 0 <= i < j < q.len() implies pair_lt(
            tombstone_key(#[trigger] q[i]),
            tombstone_key(#[trigger] q[j]),
        ) by {
            assert(q[i] == s[i] && q[j] == s[j]);
        }
        lemma_tombstones_of_sorted(q);
        assert(s[s.len() - 1] == x);
        assert forall|k: (Seq<char>, Seq<char>)| #[trigger] tombstones_of(s).contains_key(k) implies exists|i: int|
            0 <= i < s.len() && tombstone_key(#[trigger] s[i]) == k by {
            assert(tombstones_of(s) == tombstones_of(q).insert(tombstone_key(x), x));
            if k != tombstone_key(x) {
                assert(tombstones_of(q).contains_key(k));
                let i = choose|i: int| 0 <= i < q.len() && tombstone_key(#[trigger] q[i]) == k;
                assert(q[i] == s[i]);
            } else {
                assert(tombstone_key(s[s.len() - 1]) == k);
            }
        }
        assert forall|i: int| 0 <= i < s.len() implies tombstones_of(s).contains_key(tombstone_key(#[trigger] s[i]))
            && tombstones_of(s)[tombstone_key(s[i])] == s[i] by {
            if i < s.len() - 1 {
                assert(q[i] == s[i]);
                assert(pair_lt(tombstone_key(s[i]), tombstone_key(s[s.len() - 1])));
            }
        }
    }
}

/// Both sides end with the same tombstones.
proof fn lemma_tombstones_converge(
    ta: Map<(Seq<char>, Seq<char>), TombstoneView>,
    tb: Map<(Seq<char>, Seq<char>), TombstoneView>,
    fa: Map<Seq<char>, u64>,
    fb: Map<Seq<char>, u64>,
)
    requires
        tombstones_agree(ta, tb),
        tombstones_absorb(tb, ta, fb),
        tombstones_absorb(ta, tb, fa),
    ensures
        tombstones_merge_spec(ta, tb.restrict(Set::new(|k: (Seq<char>, Seq<char>)| unseen(tb[k].version, fa))))
            == tombstones_merge_spec(tb, ta.restrict(Set::new(|k: (Seq<char>, Seq<char>)| unseen(ta[k].version, fb)))),
{
    lemma_version_order();
    let ub = tb.restrict(Set::new(|k: (Seq<char>, Seq<char>)| unseen(tb[k].version, fa)));
    let ua = ta.restrict(Set::new(|k: (Seq<char>, Seq<char>)| unseen(ta[k].version, fb)));
    let l = tombstones_merge_spec(ta, ub);
    let r = tombstones_merge_spec(tb, ua);
    assert forall|k: (Seq<char>, Seq<char>)| #[trigger] l.contains_key(k) == r.contains_key(k) by {}
    assert forall|k: (Seq<char>, Seq<char>)| #[trigger] l.contains_key(k) implies l[k] == r[k] by {
        if ta.contains_key(k) && tb.contains_key(k) {
            if ta[k].version == tb[k].version {
                assert(ta[k] == tb[k]);
            }
        }
    }
    assert(l =~= r);
}

/// Every loser of every claim lost at a version no higher than the owner's.
pub open spec fn losers_below(m: Map<ClaimKey, ClaimView>) -> bool {
    forall|k: ClaimKey, i: int|
        #![trigger m[k].losers[i]]
        m.contains_key(k) && 0 <= i < m[k].losers.len() ==> !version_lt(m[k].version, m[k].losers[i].version)
}

/// Claims for the same value at the same version name the same owner.
pub open spec fn claims_agree(a: Map<ClaimKey, ClaimView>, b: Map<ClaimKey, ClaimView>) -> bool {
    forall|k: ClaimKey|
        #[trigger] a.contains_key(k) && #[trigger] b.contains_key(k) && a[k].version == b[k].version ==> a[k].owner_row
            == b[k].owner_row
}

/// Two registries claim the same values, each owned by the same row at the
/// same version.
pub open spec fn same_owners(a: Map<ClaimKey, ClaimView>, b: Map<ClaimKey, ClaimView>) -> bool {
    &&& a.dom() == b.dom()
    &&& forall|k: ClaimKey|
        #[trigger] a.contains_key(k) ==> a[k].owner_row == b[k].owner_row && a[k].version == b[k].version
}

/// Two registries claim the same values, each owned by the same row.
pub open spec fn same_owner_rows(a: Map<ClaimKey, ClaimView>, b: Map<ClaimKey, ClaimView>) -> bool {
    &&& a.dom() == b.dom()
    &&& forall|k: ClaimKey| #[trigger] a.contains_key(k) ==> a[k].owner_row == b[k].owner_row
}

/// Sorted listings of two tombstone stores with the same keys list the same
/// keys, position by position.
pub(crate) proof fn lemma_tombstone_listing_keys(
    s1: Seq<TombstoneView>,
    s2: Seq<TombstoneView>,
    m1: Map<(Seq<char>, Seq<char>), TombstoneView>,
    m2: Map<(Seq<char>, Seq<char>), TombstoneView>,
)
    requires
        lists_tombstones(s1, m1),
        lists_tombstones(s2, m2),
        m1.dom() == m2.dom(),
    ensures
        s1.len() == s2.len(),
        forall|i: int| 0 <= i < s1.len() ==> tombstone_key(#[trigger] s1[i]) == tombstone_key(s2[i]),
{
    let k1 = s1.map_values(|t: TombstoneView| tombstone_key(t));
    let k2 = s2.map_values(|t: TombstoneView| tombstone_key(t));
    assert(strictly_sorted::<(String, String)>(k1));
    assert(strictly_sorted::<(String, String)>(k2));
    assert forall|k: (Seq<char>, Seq<char>)| #[trigger] k1.to_set().contains(k) == k2.to_set().contains(k) by {
        if k1.to_set().contains(k) {
            let i = choose|i: int| 0 <= i < k1.len() && k1[i] == k;
            assert(m1.contains_key(tombstone_key(s1[i])));
            assert(m2.contains_key(k));
            let j = choose|j: int| 0 <= j < s2.len() && tombstone_key(#[trigger] s2[j]) == k;
            assert(k2[j] == k);
        }
        if k2.to_set().contains(k) {
            let i = choose|i: int| 0 <= i < k2.len() && k2[i] == k;
            assert(m2.contains_key(tombstone_key(s2[i])));
            assert(m1.contains_key(k));
            let j = choose|j: int| 0 <= j < s1.len() && tombstone_key(#[trigger] s1[j]) == k;
            assert(k1[j] == k);
        }
    }
    assert(k1.to_set() =~= k2.to_set());
    lemma_sorted_unique::<(String, String)>(k1, k2);
    assert(s1.len() == k1.len() && s2.len() == k2.len());
    assert forall|i: int| 0 <= i < s1.len() implies tombstone_key(#[trigger] s1[i]) == tombstone_key(s2[i]) by {
        assert(k1[i] == k2[i]);
    }
}

/// Losers at versions no higher than the owner's leave the owner in place.
proof fn lemma_claim_losers_keep_owner(reg: Map<ClaimKey, ClaimView>, k: ClaimKey, ls: Seq<crate::types::LooserView>)
    requires
        reg.contains_key(k),
        forall|i: int| 0 <= i < ls.len() ==> !version_lt(reg[k].version, #[trigger] ls[i].version),
    ensures
        claim_losers(reg, k, ls).dom() == reg.dom(),
        claim_losers(reg, k, ls)[k].owner_row == reg[k].owner_row,
        claim_losers(reg, k, ls)[k].version == reg[k].version,
        forall|j: ClaimKey| j != k && reg.contains_key(j) ==> #[trigger] claim_losers(reg, k, ls)[j] == reg[j],
    decreases ls.len(),
{
    if ls.len() > 0 {
        let q = ls.drop_last();
        assert forall|i: int| 0 <= i < q.len() implies !version_lt(reg[k].version, #[trigger] q[i].version) by {
            assert(q[i] == ls[i]);
        }
        lemma_claim_losers_keep_owner(reg, k, q);
        let r = claim_losers(reg, k, q);
        let l = ls.last();
        assert(ls[ls.len() - 1] == l);
        assert(claim_losers(reg, k, ls) == claim_apply(r, k, l.row_id, l.version));
        assert(claim_apply(r, k, l.row_id, l.version).dom() =~= r.dom());
    }
}

/// A registry replayed from a sorted listing of claims holds each listed
/// value, owned by the listed owner at the listed version, and nothing else.
proof fn lemma_claims_with_losers_sorted(cs: Seq<ClaimView>)
    requires
        forall|i: int, j: int| 0 <= i < j < cs.len() ==> triple_lt(claim_key(#[trigger] cs[i]), claim_key(#[trigger] cs[j])),
        forall|i: int, l: int|
            #![trigger cs[i].losers[l]]
            0 <= i < cs.len() && 0 <= l < cs[i].losers.len() ==> !version_lt(cs[i].version, cs[i].losers[l].version),
    ensures
        forall|k: ClaimKey|
            #[trigger] claims_with_losers_of(cs).contains_key(k) ==> exists|i: int| 0 <= i < cs.len() && claim_key(#[trigger] cs[i]) == k,
        forall|i: int|
            0 <= i < cs.len() ==> claims_with_losers_of(cs).contains_key(claim_key(#[trigger] cs[i]))
                && claims_with_losers_of(cs)[claim_key(cs[i])].owner_row == cs[i].owner_row
                && claims_with_losers_of(cs)[claim_key(cs[i])].version == cs[i].version,
    decreases cs.len(),
{
    lemma_str_laws();
    if cs.len() > 0 {
        let q = cs.drop_last();
        let c = cs.last();
        assert(cs[cs.len() - 1] == c);
        assert forall|i: int, j: int| 0 <= i < j < q.len() implies triple_lt(claim_key(#[trigger] q[i]), claim_key(#[trigger] q[j])) by {
            assert(q[i] == cs[i] && q[j] == cs[j]);
        }
        assert forall|i: int, l: int|
            #![trigger q[i].losers[l]]
            0 <= i < q.len() && 0 <= l < q[i].losers.len() implies !version_lt(q[i].version, q[i].losers[l].version) by {
            assert(q[i] == cs[i]);
        }
        lemma_claims_with_losers_sorted(q);
        let prev = claims_with_losers_of(q);
        let kc = claim_key(c);
        assert(!prev.contains_key(kc)) by {
            if prev.contains_key(kc) {
                let i = choose|i: int| 0 <= i < q.len() && claim_key(#[trigger] q[i]) == kc;
                assert(q[i] == cs[i]);
                assert(triple_lt(claim_key(cs[i]), claim_key(cs[cs.len() - 1])));
            }
        }
        let fresh = claim_apply(prev, kc, c.owner_row, c.version);
        assert(fresh == prev.insert(kc, ClaimView {
            table_id: kc.0,
            column_id: kc.1,
            value: kc.2,
            owner_row: c.owner_row,
            version: c.version,
            losers: Seq::empty(),
        }));
        assert forall|l: int| 0 <= l < c.losers.len() implies !version_lt(fresh[kc].version, #[trigger] c.losers[l].version) by {
            assert(cs[cs.len() - 1].losers[l] == c.losers[l]);
        }
        lemma_claim_losers_keep_owner(fresh, kc, c.losers);
        let r = claims_with_losers_of(cs);
        assert(r == claim_losers(fresh, kc, c.losers));
        assert forall|k: ClaimKey| #[trigger] r.contains_key(k) implies exists|i: int| 0 <= i < cs.len() && claim_key(#[trigger] cs[i]) == k by {
            if k != kc {
                assert(prev.contains_key(k));
                let i = choose|i: int| 0 <= i < q.len() && claim_key(#[trigger] q[i]) == k;
                assert(q[i] == cs[i]);
            }
        }
        assert forall|i: int| 0 <= i < cs.len() implies r.contains_key(claim_key(#[trigger] cs[i]))
            && r[claim_key(cs[i])].owner_row == cs[i].owner_row && r[claim_key(cs[i])].version == cs[i].version by {
            if i < cs.len() - 1 {
                assert(q[i] == cs[i]);
                assert(triple_lt(claim_key(cs[i]), claim_key(cs[cs.len() - 1])));
                assert(claim_key(cs[i]) != kc);
            }
        }
    }
}

/// The registry replayed from a listing of a registry whose losers are
/// below their owners has the same owners as the registry.
proof fn lemma_listing_same_owners(cs: Seq<ClaimView>, m: Map<ClaimKey, ClaimView>)
    requires
        lists_claims(cs, m),
        losers_below(m),
    ensures
        same_owners(claims_with_losers_of(cs), m),
{
    assert forall|i: int, l: int|
        #![trigger cs[i].losers[l]]
        0 <= i < cs.len() && 0 <= l < cs[i].losers.len() implies !version_lt(cs[i].version, cs[i].losers[l].version) by {
        assert(m[claim_key(cs[i])] == cs[i]);
        assert(m[claim_key(cs[i])].losers[l] == cs[i].losers[l]);
    }
    lemma_claims_with_losers_sorted(cs);
    let r = claims_with_losers_of(cs);
    assert forall|k: ClaimKey| #[trigger] r.contains_key(k) == m.contains_key(k) by {
        if m.contains_key(k) {
            let i = choose|i: int| 0 <= i < cs.len() && claim_key(#[trigger] cs[i]) == k;
        }
        if r.contains_key(k) {
            let i = choose|i: int| 0 <= i < cs.len() && claim_key(#[trigger] cs[i]) == k;
        }
    }
    assert(r.dom() =~= m.dom());
    assert forall|k: ClaimKey| #[trigger] r.contains_key(k) implies r[k].owner_row == m[k].owner_row && r[k].version
        == m[k].version by {
        let i = choose|i: int| 0 <= i < cs.len() && claim_key(#[trigger] cs[i]) == k;
    }
}

/// Both sides of a round settle every claimed value on the same owner.
proof fn lemma_owners_converge(
    ua: Map<ClaimKey, ClaimView>,
    ub: Map<ClaimKey, ClaimView>,
    xa: Map<ClaimKey, ClaimView>,
    xb: Map<ClaimKey, ClaimView>,
    a2: Map<ClaimKey, ClaimView>,
    b2: Map<ClaimKey, ClaimView>,
)
    requires
        same_owners(xa, ua),
        same_owners(xb, ub),
        registry_merged(ua, xb, a2),
        registry_merged(ub, xa, b2),
        claims_agree(ua, ub),
    ensures
        same_owners(a2, b2),
{
    lemma_version_order();
    assert forall|k: ClaimKey| #[trigger] a2.contains_key(k) == b2.contains_key(k) by {
        assert(xa.contains_key(k) == ua.contains_key(k));
        assert(xb.contains_key(k) == ub.contains_key(k));
    }
    assert(a2.dom() =~= b2.dom());
    assert forall|k: ClaimKey| #[trigger] a2.contains_key(k) implies a2[k].owner_row == b2[k].owner_row
        && a2[k].version == b2[k].version by {
        assert(xa.contains_key(k) == ua.contains_key(k));
        assert(xb.contains_key(k) == ub.contains_key(k));
        if ua.contains_key(k) && ub.contains_key(k) {
            law_claim_merge_owner(ua[k], xb[k], a2[k]);
            law_claim_merge_owner(ub[k], xa[k], b2[k]);
            assert(merged_owner(ua[k], xb[k]) == merged_owner(ua[k], ub[k]));
            assert(merged_owner(ub[k], xa[k]) == merged_owner(ub[k], ua[k]));
        }
    }
}

/// The invariants under which a sync round between `a` and `b` converges:
/// rows, tombstones and claims held by both agree (one version, one write);
/// each side already holds, at the same version or later, the rows and
/// tombstones of the other that its frontier records as seen; every
/// tombstone's row is deleted at the tombstone's version or later; every
/// loser lost at a version no higher than its owner's; rows are stored under
/// their ids and are consistent; both have the same tables.
pub open spec fn ready_to_converge(a: ReplicaState, b: ReplicaState) -> bool {
    &&& tables_keyed(a.storage@)
    &&& tables_keyed(b.storage@)
    &&& store_consistent(a.storage@)
    &&& store_consistent(b.storage@)
    &&& a.storage@.dom() == b.storage@.dom()
    &&& stores_agree(a.storage@, b.storage@)
    &&& absorbs(b.storage@, a.storage@, b.frontier@)
    &&& absorbs(a.storage@, b.storage@, a.frontier@)
    &&& tombstones_reflected(a.storage@, a.tombstones@)
    &&& tombstones_reflected(b.storage@, b.tombstones@)
    &&& tombstones_agree(a.tombstones@, b.tombstones@)
    &&& tombstones_absorb(b.tombstones@, a.tombstones@, b.frontier@)
    &&& tombstones_absorb(a.tombstones@, b.tombstones@, a.frontier@)
    &&& claims_agree(a.uniqueness@, b.uniqueness@)
    &&& losers_below(a.uniqueness@)
    &&& losers_below(b.uniqueness@)
}

/// New replicas are ready to converge: two replicas with no rows, no
/// tombstones and no claims yet satisfy every condition of a converging
/// round.
pub proof fn law_fresh_replicas_ready(a: ReplicaState, b: ReplicaState)
    requires
        a.storage@ == Map::<Seq<char>, Map<Seq<char>, RowView>>::empty(),
        b.storage@ == Map::<Seq<char>, Map<Seq<char>, RowView>>::empty(),
        a.tombstones@ == Map::<(Seq<char>, Seq<char>), TombstoneView>::empty(),
        b.tombstones@ == Map::<(Seq<char>, Seq<char>), TombstoneView>::empty(),
        a.uniqueness@ == Map::<ClaimKey, ClaimView>::empty(),
        b.uniqueness@ == Map::<ClaimKey, ClaimView>::empty(),
    ensures
        ready_to_converge(a, b),
{
}

/// A session round converges: from replicas ready to converge, one round
/// leaves both with the same rows, the same tombstones, and every claimed
/// value owned by the same row at the same version.
pub proof fn law_session_round_converges(
    a: ReplicaState,
    b: ReplicaState,
    a2: ReplicaState,
    b2: ReplicaState,
    quiet: bool,
)
    requires
        session_round(a, b, a2, b2, quiet),
        ready_to_converge(a, b),
    ensures
        a2.storage@ == b2.storage@,
        a2.tombstones@ == b2.tombstones@,
        same_owners(a2.uniqueness@, b2.uniqueness@),
{
    let (for_b, for_a) = choose|for_b: crate::types::SyncDeltaView, for_a: crate::types::SyncDeltaView|
        extracted(a, b.frontier@, for_b) && extracted(b, a.frontier@, for_a) && applied_marking(b, for_b, b2)
            && applied_marking(a, for_a, a2) && quiet == (for_b.rows.len() == 0 && for_b.tombstones.len() == 0
            && for_a.rows.len() == 0 && for_a.tombstones.len() == 0);
    lemma_marks_nothing_full(a, b, for_b, b2);
    lemma_marks_nothing_full(b, a, for_a, a2);
    law_sync_rows_converge(a.storage@, b.storage@, a.frontier@, b.frontier@, for_b.rows, for_a.rows);
    lemma_tombstones_of_listing(
        for_b.tombstones,
        a.tombstones@.restrict(Set::new(|k: (Seq<char>, Seq<char>)| unseen(a.tombstones@[k].version, b.frontier@))),
    );
    lemma_tombstones_of_listing(
        for_a.tombstones,
        b.tombstones@.restrict(Set::new(|k: (Seq<char>, Seq<char>)| unseen(b.tombstones@[k].version, a.frontier@))),
    );
    lemma_tombstones_converge(a.tombstones@, b.tombstones@, a.frontier@, b.frontier@);
    lemma_listing_same_owners(for_b.claims, a.uniqueness@);
    lemma_listing_same_owners(for_a.claims, b.uniqueness@);
    lemma_owners_converge(
        a.uniqueness@,
        b.uniqueness@,
        claims_with_losers_of(for_b.claims),
        claims_with_losers_of(for_a.claims),
        a2.uniqueness@,
        b2.uniqueness@,
    );
}

/// A sorted listing of a tombstone store is the only one.
pub(crate) proof fn lemma_tombstone_listing_unique(s1: Seq<TombstoneView>, s2: Seq<TombstoneView>, m: Map<(Seq<char>, Seq<char>), TombstoneView>)
    requires
        lists_tombstones(s1, m),
        lists_tombstones(s2, m),
    ensures
        s1 == s2,
{
    let k1 = s1.map_values(|t: TombstoneView| tombstone_key(t));
    let k2 = s2.map_values(|t: TombstoneView| tombstone_key(t));
    assert(strictly_sorted::<(String, String)>(k1));
    assert(strictly_sorted::<(String, String)>(k2));
    assert forall|k: (Seq<char>, Seq<char>)| #[trigger] k1.to_set().contains(k) == k2.to_set().contains(k) by {
        if k1.to_set().contains(k) {
            let i = choose|i: int| 0 <= i < k1.len() && k1[i] == k;
            assert(m.contains_key(tombstone_key(s1[i])));
            let j = choose|j: int| 0 <= j < s2.len() && tombstone_key(#[trigger] s2[j]) == k;
            assert(k2[j] == k);
        }
        if k2.to_set().contains(k) {
            let i = choose|i: int| 0 <= i < k2.len() && k2[i] == k;
            assert(m.contains_key(tombstone_key(s2[i])));
            let j = choose|j: int| 0 <= j < s1.len() && tombstone_key(#[trigger] s1[j]) == k;
            assert(k1[j] == k);
        }
    }
    assert(k1.to_set() =~= k2.to_set());
    lemma_sorted_unique::<(String, String)>(k1, k2);
    assert(s1.len() == k1.len() && s2.len() == k2.len());
    assert forall|i: int| 0 <= i < s1.len() implies s1[i] == s2[i] by {
        assert(k1[i] == k2[i]);
        assert(m[tombstone_key(s1[i])] == s1[i]);
        assert(m[tombstone_key(s2[i])] == s2[i]);
    }
    assert(s1 =~= s2);
}

/// Sorted listings of two registries with the same owners list the same
/// values with the same owners, position by position.
pub(crate) proof fn lemma_claim_listings_match(
    c1: Seq<ClaimView>,
    c2: Seq<ClaimView>,
    m1: Map<ClaimKey, ClaimView>,
    m2: Map<ClaimKey, ClaimView>,
)
    requires
        lists_claims(c1, m1),
        lists_claims(c2, m2),
        same_owner_rows(m1, m2),
    ensures
        c1.len() == c2.len(),
        forall|i: int|
            0 <= i < c1.len() ==> claim_key(#[trigger] c1[i]) == claim_key(c2[i]) && c1[i].owner_row == c2[i].owner_row,
{
    let k1 = c1.map_values(|c: ClaimView| claim_key(c));
    let k2 = c2.map_values(|c: ClaimView| claim_key(c));
    assert(strictly_sorted::<(String, String, String)>(k1));
    assert(strictly_sorted::<(String, String, String)>(k2));
    assert forall|k: ClaimKey| #[trigger] k1.to_set().contains(k) == k2.to_set().contains(k) by {
        if k1.to_set().contains(k) {
            let i = choose|i: int| 0 <= i < k1.len() && k1[i] == k;
            assert(m1.contains_key(claim_key(c1[i])));
            assert(m2.contains_key(k));
            let j = choose|j: int| 0 <= j < c2.len() && claim_key(#[trigger] c2[j]) == k;
            assert(k2[j] == k);
        }
        if k2.to_set().contains(k) {
            let i = choose|i: int| 0 <= i < k2.len() && k2[i] == k;
            assert(m2.contains_key(claim_key(c2[i])));
            assert(m1.contains_key(k));
            let j = choose|j: int| 0 <= j < c1.len() && claim_key(#[trigger] c1[j]) == k;
            assert(k1[j] == k);
        }
    }
    assert(k1.to_set() =~= k2.to_set());
    lemma_sorted_unique::<(String, String, String)>(k1, k2);
    assert(c1.len() == k1.len() && c2.len() == k2.len());
    assert forall|i: int| 0 <= i < c1.len() implies claim_key(#[trigger] c1[i]) == claim_key(c2[i]) && c1[i].owner_row
        == c2[i].owner_row by {
        assert(k1[i] == k2[i]);
        assert(m1[claim_key(c1[i])] == c1[i]);
        assert(m2[claim_key(c2[i])] == c2[i]);
    }
}

/// Sync makes snapshot hashes agree: after one round from replicas ready to
/// converge, hashing either side (tables, then tombstones and claims each
/// read in key order) gives the same digest.
pub proof fn law_session_round_same_hash(
    a: ReplicaState,
    b: ReplicaState,
    a2: ReplicaState,
    b2: ReplicaState,
    quiet: bool,
    ts1: Seq<Tombstone>,
    ts2: Seq<Tombstone>,
    cs1: Seq<UniquenessClaim>,
    cs2: Seq<UniquenessClaim>,
)
    requires
        session_round(a, b, a2, b2, quiet),
        ready_to_converge(a, b),
        lists_tombstones(ts1.map_values(|t: Tombstone| t@), a2.tombstones@),
        lists_tombstones(ts2.map_values(|t: Tombstone| t@), b2.tombstones@),
        lists_claims(cs1.map_values(|c: UniquenessClaim| c@), a2.uniqueness@),
        lists_claims(cs2.map_values(|c: UniquenessClaim| c@), b2.uniqueness@),
    ensures
        hex_digest(full_stream(a2.storage@, tomb_pairs(ts1), claim_items(cs1))) == hex_digest(
            full_stream(b2.storage@, tomb_pairs(ts2), claim_items(cs2)),
        ),
{
    law_session_round_converges(a, b, a2, b2, quiet);
    let v1 = ts1.map_values(|t: Tombstone| t@);
    let v2 = ts2.map_values(|t: Tombstone| t@);
    lemma_tombstone_listing_unique(v1, v2, a2.tombstones@);
    assert(ts1.len() == v1.len() && ts2.len() == v2.len());
    assert forall|i: int| 0 <= i < ts1.len() implies #[trigger] tomb_pairs(ts1)[i] == tomb_pairs(ts2)[i] by {
        assert(v1[i] == v2[i]);
    }
    assert(tomb_pairs(ts1) =~= tomb_pairs(ts2));
    let w1 = cs1.map_values(|c: UniquenessClaim| c@);
    let w2 = cs2.map_values(|c: UniquenessClaim| c@);
    assert(same_owner_rows(a2.uniqueness@, b2.uniqueness@));
    lemma_claim_listings_match(w1, w2, a2.uniqueness@, b2.uniqueness@);
    assert forall|i: int| 0 <= i < cs1.len() implies #[trigger] claim_items(cs1)[i] == claim_items(cs2)[i] by {
        assert(claim_key(w1[i]) == claim_key(w2[i]) && w1[i].owner_row == w2[i].owner_row);
    }
    assert(claim_items(cs1) =~= claim_items(cs2));
}

// ------------------------------------------------- what a round keeps

/// Merging consistent delta rows keeps every row stored under its id and
/// consistent.
proof fn lemma_apply_rows_keyed(s: StoreView, ds: Seq<RowDeltaView>)
    requires
        tables_keyed(s),
        store_consistent(s),
        crate::sync::replay::delta_consistent(ds),
    ensures
        tables_keyed(apply_rows_spec(s, ds)),
        store_consistent(apply_rows_spec(s, ds)),
    decreases ds.len(),
{
    if ds.len() > 0 {
        let q = ds.drop_last();
        assert forall|i: int| 0 <= i < q.len() implies crate::merge::row_consistent((#[trigger] q[i]).row) by {
            assert(q[i] == ds[i]);
        }
        lemma_apply_rows_keyed(s, q);
        let p = apply_rows_spec(s, q);
        let rd = ds.last();
        assert(crate::merge::row_consistent(ds[ds.len() - 1].row));
        let t = crate::storage::table_rows(p, rd.table_id);
        if t.contains_key(rd.row.id) {
            crate::merge::law_merge_row_delete_wins(t[rd.row.id], rd.row);
        }
    }
}

/// A deleted row merged with a consistent row keeps a delete version no
/// lower than its own.
proof fn lemma_merge_keeps_delete_left(x: RowView, y: RowView, tv: TombstoneView)
    requires
        crate::merge::row_consistent(y),
        x.deleted,
        x.delete_version matches Some(dv) && !version_lt(dv, tv.version),
    ensures
        merge_row_spec(x, y).deleted,
        merge_row_spec(x, y).delete_version matches Some(dv) && !version_lt(dv, tv.version),
{
    lemma_version_order();
    let _ = merge_delete_spec(x, y);
}

/// A covered row stays covered as consistent delta rows merge in.
proof fn lemma_covers_kept(s: StoreView, ds: Seq<RowDeltaView>, tv: TombstoneView)
    requires
        covers(s, tv),
        crate::sync::replay::delta_consistent(ds),
    ensures
        covers(apply_rows_spec(s, ds), tv),
    decreases ds.len(),
{
    if ds.len() > 0 {
        let q = ds.drop_last();
        assert forall|i: int| 0 <= i < q.len() implies crate::merge::row_consistent((#[trigger] q[i]).row) by {
            assert(q[i] == ds[i]);
        }
        lemma_covers_kept(s, q, tv);
        let p = apply_rows_spec(s, q);
        let rd = ds.last();
        assert(crate::merge::row_consistent(ds[ds.len() - 1].row));
        if rd.table_id == tv.table_id && rd.row.id == tv.row_id {
            lemma_merge_keeps_delete_left(p[tv.table_id][tv.row_id], rd.row, tv);
        }
    }
}

/// The rows a listing of new rows carries are consistent when the store is.
proof fn lemma_listing_consistent(ds: Seq<RowDeltaView>, s: StoreView, f: Map<Seq<char>, u64>)
    requires
        lists_new_rows(ds, s, f),
        store_consistent(s),
    ensures
        crate::sync::replay::delta_consistent(ds),
{
    assert forall|i: int| 0 <= i < ds.len() implies crate::merge::row_consistent((#[trigger] ds[i]).row) by {
        assert(s[ds[i].table_id][ds[i].row.id] == ds[i].row);
    }
}

/// Every loser in `ls` lost at a version no higher than `v`.
pub open spec fn all_below(ls: Seq<LooserView>, v: crate::types::VersionView) -> bool {
    forall|i: int| 0 <= i < ls.len() ==> !version_lt(v, #[trigger] ls[i].version)
}

proof fn lemma_append_new_losers_below(
    base: Seq<LooserView>,
    adds: Seq<LooserView>,
    owner: Seq<char>,
    v: crate::types::VersionView,
)
    requires
        all_below(base, v),
        all_below(adds, v),
    ensures
        all_below(append_new_losers(base, adds, owner), v),
    decreases adds.len(),
{
    if adds.len() > 0 {
        let next = if crate::uniqueness::has_loser(base, adds[0].row_id) || adds[0].row_id == owner {
            base
        } else {
            base.push(adds[0])
        };
        assert(all_below(next, v)) by {
            assert forall|i: int| 0 <= i < next.len() implies !version_lt(v, #[trigger] next[i].version) by {
                if i < base.len() {
                    assert(next[i] == base[i]);
                }
            }
        }
        let rest = adds.drop_first();
        assert forall|i: int| 0 <= i < rest.len() implies !version_lt(v, #[trigger] rest[i].version) by {
            assert(rest[i] == adds[i + 1]);
        }
        lemma_append_new_losers_below(next, rest, owner, v);
    }
}

/// A claim merge keeps every loser at or below the owner's version.
proof fn lemma_claim_merged_below(e: ClaimView, o: ClaimView, r: ClaimView)
    requires
        claim_merged(e, o, r),
        all_below(e.losers, e.version),
        all_below(o.losers, o.version),
    ensures
        all_below(r.losers, r.version),
{
    lemma_version_order();
    if version_lt(e.version, o.version) {
        let s = e.losers + o.losers + seq![LooserView { row_id: e.owner_row, version: e.version }];
        assert forall|i: int| 0 <= i < r.losers.len() implies !version_lt(r.version, #[trigger] r.losers[i].version) by {
            let j = choose|j: int| 0 <= j < s.len() && s[j] == r.losers[i] && !crate::uniqueness::has_loser(s.subrange(0, j), r.losers[i].row_id);
            if j < e.losers.len() {
                assert(s[j] == e.losers[j]);
                assert(!version_lt(e.version, e.losers[j].version));
            } else if j < e.losers.len() + o.losers.len() {
                assert(s[j] == o.losers[j - e.losers.len()]);
                assert(!version_lt(o.version, o.losers[j - e.losers.len()].version));
            } else {
                assert(s[j].version == e.version);
            }
        }
    } else {
        let base = if !crate::uniqueness::has_loser(e.losers, o.owner_row) && o.owner_row != e.owner_row {
            e.losers.push(LooserView { row_id: o.owner_row, version: o.version })
        } else {
            e.losers
        };
        assert(all_below(base, e.version)) by {
            assert forall|i: int| 0 <= i < base.len() implies !version_lt(e.version, #[trigger] base[i].version) by {
                if i < e.losers.len() {
                    assert(base[i] == e.losers[i]);
                }
            }
        }
        assert(all_below(o.losers, e.version)) by {
            assert forall|i: int| 0 <= i < o.losers.len() implies !version_lt(e.version, #[trigger] o.losers[i].version) by {
                assert(!version_lt(o.version, o.losers[i].version));
            }
        }
        lemma_append_new_losers_below(base, o.losers, e.owner_row, e.version);
    }
}

/// A registry's losers are all at or below their owners' versions, key by
/// key.
proof fn lemma_losers_below_at(m: Map<ClaimKey, ClaimView>, k: ClaimKey)
    requires
        losers_below(m),
        m.contains_key(k),
    ensures
        all_below(m[k].losers, m[k].version),
{
    assert forall|i: int| 0 <= i < m[k].losers.len() implies !version_lt(m[k].version, #[trigger] m[k].losers[i].version) by {
        assert(!version_lt(m[k].version, m[k].losers[i].version));
    }
}

/// A merged registry keeps every loser at or below its owner's version.
proof fn lemma_registry_merged_below(a: Map<ClaimKey, ClaimView>, b: Map<ClaimKey, ClaimView>, r: Map<ClaimKey, ClaimView>)
    requires
        registry_merged(a, b, r),
        losers_below(a),
        losers_below(b),
    ensures
        losers_below(r),
{
    assert forall|k: ClaimKey, i: int| r.contains_key(k) && 0 <= i < r[k].losers.len() implies !version_lt(
        r[k].version,
        #[trigger] r[k].losers[i].version,
    ) by {
        if a.contains_key(k) && b.contains_key(k) {
            lemma_losers_below_at(a, k);
            lemma_losers_below_at(b, k);
            lemma_claim_merged_below(a[k], b[k], r[k]);
        } else if a.contains_key(k) {
            lemma_losers_below_at(a, k);
        } else {
            lemma_losers_below_at(b, k);
        }
    }
}

/// A claim keeps every loser at or below the owner's version.
proof fn lemma_claim_apply_below(reg: Map<ClaimKey, ClaimView>, k: ClaimKey, row: Seq<char>, version: crate::types::VersionView)
    requires
        losers_below(reg),
    ensures
        losers_below(claim_apply(reg, k, row, version)),
{
    lemma_version_order();
    let r = claim_apply(reg, k, row, version);
    assert forall|j: ClaimKey, i: int| r.contains_key(j) && 0 <= i < r[j].losers.len() implies !version_lt(
        r[j].version,
        #[trigger] r[j].losers[i].version,
    ) by {
        if j == k && reg.contains_key(k) {
            let e = reg[k];
            lemma_losers_below_at(reg, k);
            if i < e.losers.len() {
                assert(!version_lt(e.version, e.losers[i].version));
            }
            let _ = claim_step(e, row, version);
        } else if j != k {
            assert(r[j] == reg[j]);
        }
    }
}

proof fn lemma_claim_losers_below(reg: Map<ClaimKey, ClaimView>, k: ClaimKey, ls: Seq<LooserView>)
    requires
        losers_below(reg),
    ensures
        losers_below(claim_losers(reg, k, ls)),
    decreases ls.len(),
{
    if ls.len() > 0 {
        lemma_claim_losers_below(reg, k, ls.drop_last());
        lemma_claim_apply_below(claim_losers(reg, k, ls.drop_last()), k, ls.last().row_id, ls.last().version);
    }
}

/// A registry replayed from any claims keeps every loser at or below its
/// owner's version.
proof fn lemma_claims_with_losers_below(cs: Seq<ClaimView>)
    ensures
        losers_below(claims_with_losers_of(cs)),
    decreases cs.len(),
{
    if cs.len() > 0 {
        let c = cs.last();
        lemma_claims_with_losers_below(cs.drop_last());
        let prev = claims_with_losers_of(cs.drop_last());
        lemma_claim_apply_below(prev, claim_key(c), c.owner_row, c.version);
        lemma_claim_losers_below(claim_apply(prev, claim_key(c), c.owner_row, c.version), claim_key(c), c.losers);
    }
}

/// Sync rounds keep replicas ready to converge: from replicas ready to
/// converge, the replicas after one round are ready to converge again, so
/// every later round between them converges as well.
pub proof fn law_round_keeps_ready(a: ReplicaState, b: ReplicaState, a2: ReplicaState, b2: ReplicaState, quiet: bool)
    requires
        session_round(a, b, a2, b2, quiet),
        ready_to_converge(a, b),
    ensures
        ready_to_converge(a2, b2),
{
    lemma_version_order();
    law_session_round_converges(a, b, a2, b2, quiet);
    let (for_b, for_a) = choose|for_b: crate::types::SyncDeltaView, for_a: crate::types::SyncDeltaView|
        extracted(a, b.frontier@, for_b) && extracted(b, a.frontier@, for_a) && applied_marking(b, for_b, b2)
            && applied_marking(a, for_a, a2) && quiet == (for_b.rows.len() == 0 && for_b.tombstones.len() == 0
            && for_a.rows.len() == 0 && for_a.tombstones.len() == 0);
    lemma_marks_nothing_full(a, b, for_b, b2);
    lemma_marks_nothing_full(b, a, for_a, a2);
    lemma_listing_consistent(for_a.rows, b.storage@, a.frontier@);
    lemma_listing_consistent(for_b.rows, a.storage@, b.frontier@);
    lemma_apply_rows_keyed(a.storage@, for_a.rows);
    lemma_apply_rows_keyed(b.storage@, for_b.rows);
    let st = a2.storage@;
    assert(st == apply_rows_spec(a.storage@, for_a.rows));
    assert(st == apply_rows_spec(b.storage@, for_b.rows));
    assert forall|t: Seq<char>, id: Seq<char>| st.contains_key(t) && st[t].contains_key(id) implies merge_row_spec(
        #[trigger] st[t][id],
        st[t][id],
    ) == st[t][id] by {
        crate::merge::law_merge_row_idempotent(st[t][id]);
    }
    // Tombstones: whichever of the two stores a merged tombstone came from,
    // its row is covered in the merged rows.
    let ub = b.tombstones@.restrict(Set::new(|k: (Seq<char>, Seq<char>)| unseen(b.tombstones@[k].version, a.frontier@)));
    lemma_tombstones_of_listing(for_a.tombstones, ub);
    let ts = a2.tombstones@;
    assert(ts == tombstones_merge_spec(a.tombstones@, ub));
    assert forall|k: (Seq<char>, Seq<char>)| #[trigger] ts.contains_key(k) implies covers(st, ts[k]) by {
        if a.tombstones@.contains_key(k) {
            lemma_covers_kept(a.storage@, for_a.rows, a.tombstones@[k]);
        }
        if ub.contains_key(k) {
            lemma_covers_kept(b.storage@, for_b.rows, b.tombstones@[k]);
        }
    }
    lemma_claims_with_losers_below(for_a.claims);
    lemma_claims_with_losers_below(for_b.claims);
    lemma_registry_merged_below(a.uniqueness@, claims_with_losers_of(for_a.claims), a2.uniqueness@);
    lemma_registry_merged_below(b.uniqueness@, claims_with_losers_of(for_b.claims), b2.uniqueness@);
}

proof fn lemma_history_ready(h: Seq<(ReplicaState, ReplicaState)>, quiet: Seq<bool>, n: int)
    requires
        session_history(h, quiet),
        ready_to_converge(h[0].0, h[0].1),
        0 <= n < h.len(),
    ensures
        ready_to_converge(h[n].0, h[n].1),
    decreases n,
{
    if n > 0 {
        lemma_history_ready(h, quiet, n - 1);
        assert(session_round(h[n - 1].0, h[n - 1].1, h[n].0, h[n].1, quiet[n - 1]));
        law_round_keeps_ready(h[n - 1].0, h[n - 1].1, h[n].0, h[n].1, quiet[n - 1]);
    }
}

/// A session converges: after any run of one or more rounds between two
/// replicas that were ready to converge (as `sync_to_quiescence` runs), both
/// hold the same rows and tombstones, and every claimed value has the same
/// owner on both.
pub proof fn law_session_converges(h: Seq<(ReplicaState, ReplicaState)>, quiet: Seq<bool>)
    requires
        session_history(h, quiet),
        quiet.len() >= 1,
        ready_to_converge(h[0].0, h[0].1),
    ensures
        h.last().0.storage@ == h.last().1.storage@,
        h.last().0.tombstones@ == h.last().1.tombstones@,
        same_owners(h.last().0.uniqueness@, h.last().1.uniqueness@),
{
    let n = quiet.len() as int;
    lemma_history_ready(h, quiet, n - 1);
    assert(session_round(h[n - 1].0, h[n - 1].1, h[n].0, h[n].1, quiet[n - 1]));
    law_session_round_converges(h[n - 1].0, h[n - 1].1, h[n].0, h[n].1, quiet[n - 1]);
}

/// A round keeps every table a replica had.
pub(crate) proof fn lemma_round_keeps_tables(a: ReplicaState, b: ReplicaState, a2: ReplicaState, b2: ReplicaState, quiet: bool)
    requires
        session_round(a, b, a2, b2, quiet),
        ready_to_converge(a, b),
    ensures
        forall|t: Seq<char>| #[trigger] a.storage@.contains_key(t) ==> a2.storage@.contains_key(t),
{
    let (for_b, for_a) = choose|for_b: crate::types::SyncDeltaView, for_a: crate::types::SyncDeltaView|
        extracted(a, b.frontier@, for_b) && extracted(b, a.frontier@, for_a) && applied_marking(b, for_b, b2)
            && applied_marking(a, for_a, a2) && quiet == (for_b.rows.len() == 0 && for_b.tombstones.len() == 0
            && for_a.rows.len() == 0 && for_a.tombstones.len() == 0);
    lemma_marks_nothing_full(b, a, for_a, a2);
    assert forall|t: Seq<char>| #[trigger] a.storage@.contains_key(t) implies a2.storage@.contains_key(t) by {
        lemma_apply_rows_pointwise(a.storage@, for_a.rows, t, Seq::empty());
    }
}

/// A registry replayed from a sorted listing of claims, owners only, holds
/// each listed value owned by the listed owner at the listed version.
proof fn lemma_claims_of_sorted(cs: Seq<ClaimView>)
    requires
        forall|i: int, j: int| 0 <= i < j < cs.len() ==> triple_lt(claim_key(#[trigger] cs[i]), claim_key(#[trigger] cs[j])),
    ensures
        forall|k: ClaimKey|
            #[trigger] claims_of(cs).contains_key(k) ==> exists|i: int| 0 <= i < cs.len() && claim_key(#[trigger] cs[i]) == k,
        forall|i: int|
            0 <= i < cs.len() ==> claims_of(cs).contains_key(claim_key(#[trigger] cs[i])) && claims_of(cs)[claim_key(
                cs[i],
            )].owner_row == cs[i].owner_row && claims_of(cs)[claim_key(cs[i])].version == cs[i].version,
    decreases cs.len(),
{
    lemma_str_laws();
    if cs.len() > 0 {
        let q = cs.drop_last();
        let c = cs.last();
        assert(cs[cs.len() - 1] == c);
        assert forall|i: int, j: int| 0 <= i < j < q.len() implies triple_lt(claim_key(#[trigger] q[i]), claim_key(#[trigger] q[j])) by {
            assert(q[i] == cs[i] && q[j] == cs[j]);
        }
        lemma_claims_of_sorted(q);
        let prev = claims_of(q);
        let kc = claim_key(c);
        assert(!prev.contains_key(kc)) by {
            if prev.contains_key(kc) {
                let i = choose|i: int| 0 <= i < q.len() && claim_key(#[trigger] q[i]) == kc;
                assert(q[i] == cs[i]);
                assert(triple_lt(claim_key(cs[i]), claim_key(cs[cs.len() - 1])));
            }
        }
        let r = claims_of(cs);
        assert(r == claim_apply(prev, kc, c.owner_row, c.version));
        assert forall|k: ClaimKey| #[trigger] r.contains_key(k) implies exists|i: int| 0 <= i < cs.len() && claim_key(#[trigger] cs[i]) == k by {
            if k != kc {
                assert(prev.contains_key(k));
                let i = choose|i: int| 0 <= i < q.len() && claim_key(#[trigger] q[i]) == k;
                assert(q[i] == cs[i]);
            }
        }
        assert forall|i: int| 0 <= i < cs.len() implies r.contains_key(claim_key(#[trigger] cs[i]))
            && r[claim_key(cs[i])].owner_row == cs[i].owner_row && r[claim_key(cs[i])].version == cs[i].version by {
            if i < cs.len() - 1 {
                assert(q[i] == cs[i]);
                assert(triple_lt(claim_key(cs[i]), claim_key(cs[cs.len() - 1])));
                assert(claim_key(cs[i]) != kc);
            }
        }
    }
}

/// The registry replayed from a listing of a registry has its owners.
proof fn lemma_claims_of_listing(cs: Seq<ClaimView>, m: Map<ClaimKey, ClaimView>)
    requires
        lists_claims(cs, m),
    ensures
        same_owners(claims_of(cs), m),
{
    lemma_claims_of_sorted(cs);
    let r = claims_of(cs);
    assert forall|k: ClaimKey| #[trigger] r.contains_key(k) == m.contains_key(k) by {
        if m.contains_key(k) {
            let i = choose|i: int| 0 <= i < cs.len() && claim_key(#[trigger] cs[i]) == k;
        }
        if r.contains_key(k) {
            let i = choose|i: int| 0 <= i < cs.len() && claim_key(#[trigger] cs[i]) == k;
        }
    }
    assert(r.dom() =~= m.dom());
    assert forall|k: ClaimKey| #[trigger] r.contains_key(k) implies r[k].owner_row == m[k].owner_row && r[k].version
        == m[k].version by {
        let i = choose|i: int| 0 <= i < cs.len() && claim_key(#[trigger] cs[i]) == k;
    }
}

/// A plain pairwise sync converges: when the rows, tombstones and claims of
/// `a` and `b` agree (one version, one write), each already holds, at the
/// same version or later, the rows and tombstones of the other that its
/// frontier records as seen, rows are stored under their ids and are
/// consistent, and both have the same tables, then after `sync_peers` both
/// hold the same rows and tombstones, and every claimed value is owned by
/// the same row at the same version on both.
pub proof fn law_synced_converges(a: ReplicaState, b: ReplicaState, a2: ReplicaState, b2: ReplicaState)
    requires
        synced(a, b, a2, b2),
        tables_keyed(a.storage@),
        tables_keyed(b.storage@),
        store_consistent(a.storage@),
        store_consistent(b.storage@),
        a.storage@.dom() == b.storage@.dom(),
        stores_agree(a.storage@, b.storage@),
        absorbs(b.storage@, a.storage@, b.frontier@),
        absorbs(a.storage@, b.storage@, a.frontier@),
        tombstones_agree(a.tombstones@, b.tombstones@),
        tombstones_absorb(b.tombstones@, a.tombstones@, b.frontier@),
        tombstones_absorb(a.tombstones@, b.tombstones@, a.frontier@),
        claims_agree(a.uniqueness@, b.uniqueness@),
    ensures
        a2.storage@ == b2.storage@,
        a2.tombstones@ == b2.tombstones@,
        same_owners(a2.uniqueness@, b2.uniqueness@),
{
    let (for_b, for_a) = choose|for_b: crate::types::SyncDeltaView, for_a: crate::types::SyncDeltaView|
        extracted(a, b.frontier@, for_b) && extracted(b, a.frontier@, for_a) && applied(b, for_b, b2) && applied(
            a,
            for_a,
            a2,
        );
    law_sync_rows_converge(a.storage@, b.storage@, a.frontier@, b.frontier@, for_b.rows, for_a.rows);
    lemma_tombstones_of_listing(
        for_b.tombstones,
        a.tombstones@.restrict(Set::new(|k: (Seq<char>, Seq<char>)| unseen(a.tombstones@[k].version, b.frontier@))),
    );
    lemma_tombstones_of_listing(
        for_a.tombstones,
        b.tombstones@.restrict(Set::new(|k: (Seq<char>, Seq<char>)| unseen(b.tombstones@[k].version, a.frontier@))),
    );
    lemma_tombstones_converge(a.tombstones@, b.tombstones@, a.frontier@, b.frontier@);
    lemma_claims_of_listing(for_b.claims, a.uniqueness@);
    lemma_claims_of_listing(for_a.claims, b.uniqueness@);
    lemma_owners_converge(
        a.uniqueness@,
        b.uniqueness@,
        claims_of(for_b.claims),
        claims_of(for_a.claims),
        a2.uniqueness@,
        b2.uniqueness@,
    );
}

} // verus!
