//! Anti-entropy sync: frontier-based delta extraction, and replay-safe,
//! idempotent application of deltas.
use vstd::prelude::*;
use crate::clock::LamportClock;
use crate::error::CrdtResult;
use crate::merge::{merge_row, merge_row_spec};
use crate::order::{pair_lt, str_lt, lemma_str_laws, OrdKey};
use crate::ordmap::{OrdMap, DeepCopy};
use crate::replication::ReplicaState;
use crate::storage::{table_rows, tables_keyed};
use crate::tombstone::{
    TombstoneStore, lists_tombstones, tombstone_key, tombstones_merge_spec, filtered_prefix,
    lemma_filtered_prefix_take, lemma_filtered_prefix_skip, lemma_filtered_prefix_done,
};
use crate::types::{
    ClaimView, Frontier, Row, RowDelta, RowDeltaView, RowId, RowView, SyncDelta, SyncDeltaView,
    Tombstone, TombstoneView, UniquenessClaim, VersionView,
};
use crate::uniqueness::{
    ClaimKey, UniquenessRegistry, claim_apply, claim_key, registry_merged,
};
use crate::utils::{counter_of, frontier_join, frontier_update, max_u64, merge_frontiers};

pub mod delta;
pub mod session;
pub mod replay;
pub mod converge;

verus! {

// ------------------------------------------------------------------ specs

/// A version the frontier has not seen: its counter is above the frontier's
/// counter for its peer.
pub open spec fn unseen(v: VersionView, f: Map<Seq<char>, u64>) -> bool {
    v.counter > counter_of(f, v.peer)
}

/// A row carries a write the frontier has not seen: a cell, or its delete.
pub open spec fn row_is_new(r: RowView, f: Map<Seq<char>, u64>) -> bool {
    (exists|c: Seq<char>| #[trigger] r.cells.contains_key(c) && unseen(r.cells[c].version, f)) || (
    r.delete_version matches Some(dv) && unseen(dv, f))
}

pub open spec fn row_delta_key(d: RowDeltaView) -> (Seq<char>, Seq<char>) {
    (d.table_id, d.row.id)
}

/// `s` lists exactly the rows of `st` that are new to `f`, with their
/// tables, in (table, row) order.
pub open spec fn lists_new_rows(
    s: Seq<RowDeltaView>,
    st: Map<Seq<char>, Map<Seq<char>, RowView>>,
    f: Map<Seq<char>, u64>,
) -> bool {
    &&& forall|i: int, j: int|
        0 <= i < j < s.len() ==> pair_lt(row_delta_key(#[trigger] s[i]), row_delta_key(#[trigger] s[j]))
    &&& forall|i: int|
        0 <= i < s.len() ==> st.contains_key((#[trigger] s[i]).table_id) && st[s[i].table_id].contains_key(
            s[i].row.id,
        ) && st[s[i].table_id][s[i].row.id] == s[i].row && row_is_new(s[i].row, f)
    &&& forall|t: Seq<char>, k: Seq<char>|
        #![trigger st[t].contains_key(k)]
        st.contains_key(t) && st[t].contains_key(k) && row_is_new(st[t][k], f) ==> exists|i: int|
            0 <= i < s.len() && row_delta_key(#[trigger] s[i]) == (t, k)
}

/// `s` lists exactly the claims of `m`, in key order.
pub open spec fn lists_claims(s: Seq<ClaimView>, m: Map<ClaimKey, ClaimView>) -> bool {
    &&& forall|i: int, j: int|
        0 <= i < j < s.len() ==> crate::order::triple_lt(claim_key(#[trigger] s[i]), claim_key(#[trigger] s[j]))
    &&& forall|i: int| 0 <= i < s.len() ==> m.contains_key(claim_key(#[trigger] s[i])) && m[claim_key(s[i])] == s[i]
    &&& forall|k: ClaimKey| #[trigger] m.contains_key(k) ==> exists|i: int| 0 <= i < s.len() && claim_key(#[trigger] s[i]) == k
}

/// `d` is what `src` sends to a peer whose frontier is `f`: the rows and
/// tombstones `f` has not seen, all uniqueness claims, and `src`'s frontier.
pub open spec fn extracted(src: ReplicaState, f: Map<Seq<char>, u64>, d: SyncDeltaView) -> bool {
    &&& d.source_peer == src.peer_id@
    &&& d.frontier == src.frontier@
    &&& lists_new_rows(d.rows, src.storage@, f)
    &&& lists_tombstones(
        d.tombstones,
        src.tombstones@.restrict(Set::new(|k: (Seq<char>, Seq<char>)| unseen(src.tombstones@[k].version, f))),
    )
    &&& lists_claims(d.claims, src.uniqueness@)
}

/// Storage after one delta row is merged in.
pub open spec fn apply_row_spec(s: Map<Seq<char>, Map<Seq<char>, RowView>>, rd: RowDeltaView) -> Map<
    Seq<char>,
    Map<Seq<char>, RowView>,
> {
    let t = table_rows(s, rd.table_id);
    s.insert(
        rd.table_id,
        t.insert(
            rd.row.id,
            if t.contains_key(rd.row.id) {
                merge_row_spec(t[rd.row.id], rd.row)
            } else {
                rd.row
            },
        ),
    )
}

/// Storage after the delta rows are merged in, in order.
pub open spec fn apply_rows_spec(s: Map<Seq<char>, Map<Seq<char>, RowView>>, rows: Seq<RowDeltaView>) -> Map<
    Seq<char>,
    Map<Seq<char>, RowView>,
>
    decreases rows.len(),
{
    if rows.len() == 0 {
        s
    } else {
        apply_row_spec(apply_rows_spec(s, rows.drop_last()), rows.last())
    }
}

/// A tombstone store holding the given tombstones, later ones replacing
/// earlier ones of the same row.
pub open spec fn tombstones_of(ts: Seq<TombstoneView>) -> Map<(Seq<char>, Seq<char>), TombstoneView>
    decreases ts.len(),
{
    if ts.len() == 0 {
        Map::empty()
    } else {
        tombstones_of(ts.drop_last()).insert(tombstone_key(ts.last()), ts.last())
    }
}

/// A registry in which each claim's owner has claimed its value at the
/// claim's version, in order.
pub open spec fn claims_of(cs: Seq<ClaimView>) -> Map<ClaimKey, ClaimView>
    decreases cs.len(),
{
    if cs.len() == 0 {
        Map::empty()
    } else {
        claim_apply(claims_of(cs.drop_last()), claim_key(cs.last()), cs.last().owner_row, cs.last().version)
    }
}

/// The clock has advanced from `before` to the maximum of `before` and every
/// counter in `f`.
pub open spec fn clock_raised(before: u64, after: u64, f: Map<Seq<char>, u64>) -> bool {
    &&& after >= before
    &&& forall|p: Seq<char>| #[trigger] f.contains_key(p) ==> after >= f[p]
    &&& after == before || exists|p: Seq<char>| #[trigger] f.contains_key(p) && after == f[p]
}

/// The frontier after a delta: joined with the delta's, and the local peer's
/// entry raised to the local clock.
pub open spec fn frontier_after(
    before: Map<Seq<char>, u64>,
    incoming: Map<Seq<char>, u64>,
    peer: Seq<char>,
    counter: u64,
) -> Map<Seq<char>, u64> {
    let j = frontier_join(before, incoming);
    j.insert(peer, max_u64(counter_of(j, peer), counter))
}

/// `after` is `before` with delta `d` applied: rows merged cell by cell,
/// tombstones merged by version, claims merged by version, clock and
/// frontier advanced.
pub open spec fn applied(before: ReplicaState, d: SyncDeltaView, after: ReplicaState) -> bool {
    &&& after.peer_id@ == before.peer_id@
    &&& after.schemas@ == before.schemas@
    &&& after.storage@ == apply_rows_spec(before.storage@, d.rows)
    &&& after.tombstones@ == tombstones_merge_spec(before.tombstones@, tombstones_of(d.tombstones))
    &&& registry_merged(before.uniqueness@, claims_of(d.claims), after.uniqueness@)
    &&& after.clock.peer_id@ == before.clock.peer_id@
    &&& clock_raised(before.clock.counter, after.clock.counter, d.frontier)
    &&& after.frontier@ == frontier_after(before.frontier@, d.frontier, before.peer_id@, after.clock.counter)
}

// ------------------------------------------------------------- extraction

/// Whether a version is unseen by a frontier.
pub(crate) fn version_unseen(counter: u64, peer: &String, f: &Frontier) -> (r: bool)
    ensures
        r == unseen(VersionView { counter, peer: peer@ }, f@),
{
    let known: u64 = match f.get(peer) {
        Some(c) => *c,
        None => 0,
    };
    counter > known
}

/// Whether a row carries a write the frontier has not seen.
pub(crate) fn row_needs_sending(row: &Row, f: &Frontier) -> (r: bool)
    ensures
        r == row_is_new(row@, f@),
{
    let n = row.cells.len();
    let mut i: usize = 0;
    while i < n
        invariant
            n == row.cells.key_seq().len(),
            i <= n,
            row.cells.shape(),
            forall|j: int| 0 <= j < i ==> !unseen((#[trigger] row.cells.val_seq()[j]).version, f@),
        decreases n - i,
    {
        let c = row.cells.value_at(i);
        if version_unseen(c.version.counter, &c.version.peer_id, f) {
            proof {
                let k = row.cells.key_seq()[i as int];
                assert(row@.cells[k] == row.cells.val_seq()[i as int]);
                assert(row@.cells.contains_key(k));
            }
            return true;
        }
        i = i + 1;
    }
    proof {
        assert forall|c: Seq<char>| #[trigger] row@.cells.contains_key(c) implies !unseen(row@.cells[c].version, f@) by {
            assert(row.cells.key_seq().to_set().contains(c));
            let j = row.cells.key_seq().index_of(c);
            assert(row@.cells[row.cells.key_seq()[j]] == row.cells.val_seq()[j]);
        }
    }
    match &row.delete_version {
        Some(dv) => version_unseen(dv.counter, &dv.peer_id, f),
        None => false,
    }
}

/// `out` holds, in order, the rows among the first `i` of a table (keys
/// `ks`, rows `vs`) that are new to `f`.
pub open spec fn new_rows_prefix(
    out: Seq<RowDeltaView>,
    name: Seq<char>,
    ks: Seq<Seq<char>>,
    vs: Seq<RowView>,
    i: int,
    f: Map<Seq<char>, u64>,
) -> bool {
    &&& 0 <= i <= vs.len()
    &&& forall|j: int| 0 <= j < out.len() ==> (#[trigger] out[j]).table_id == name
    &&& forall|a: int, b: int| 0 <= a < b < out.len() ==> str_lt((#[trigger] out[a]).row.id, (#[trigger] out[b]).row.id)
    &&& forall|j: int|
        0 <= j < out.len() ==> exists|x: int|
            0 <= x < i && (#[trigger] out[j]).row == vs[x] && row_is_new(vs[x], f) && out[j].row.id == ks[x]
    &&& forall|x: int| 0 <= x < i && row_is_new(#[trigger] vs[x], f) ==> exists|j: int| 0 <= j < out.len() && out[j].row == vs[x]
}

/// The rows of a table are keyed by id, in strictly increasing key order.
pub open spec fn table_entries(ks: Seq<Seq<char>>, vs: Seq<RowView>) -> bool {
    &&& ks.len() == vs.len()
    &&& forall|a: int, b: int| 0 <= a < b < ks.len() ==> str_lt(#[trigger] ks[a], #[trigger] ks[b])
    &&& forall|x: int| 0 <= x < vs.len() ==> (#[trigger] vs[x]).id == ks[x]
}

proof fn lemma_new_rows_take(
    out: Seq<RowDeltaView>,
    name: Seq<char>,
    ks: Seq<Seq<char>>,
    vs: Seq<RowView>,
    i: int,
    f: Map<Seq<char>, u64>,
)
    requires
        new_rows_prefix(out, name, ks, vs, i, f),
        table_entries(ks, vs),
        i < vs.len(),
        row_is_new(vs[i], f),
    ensures
        new_rows_prefix(out.push(RowDeltaView { table_id: name, row: vs[i] }), name, ks, vs, i + 1, f),
{
    let d = RowDeltaView { table_id: name, row: vs[i] };
    let o2 = out.push(d);
    assert forall|a: int, b: int| 0 <= a < b < o2.len() implies str_lt((#[trigger] o2[a]).row.id, (#[trigger] o2[b]).row.id) by {
        if b == out.len() {
            assert(o2[a] == out[a]);
            let x = choose|x: int| 0 <= x < i && out[a].row == vs[x] && row_is_new(vs[x], f) && out[a].row.id == ks[x];
            assert(str_lt(ks[x], ks[i]));
        } else {
            assert(o2[a] == out[a] && o2[b] == out[b]);
        }
    }
    assert forall|j: int| 0 <= j < o2.len() implies exists|x: int|
        0 <= x < i + 1 && (#[trigger] o2[j]).row == vs[x] && row_is_new(vs[x], f) && o2[j].row.id == ks[x] by {
        if j < out.len() {
            assert(o2[j] == out[j]);
            let x = choose|x: int| 0 <= x < i && out[j].row == vs[x] && row_is_new(vs[x], f) && out[j].row.id == ks[x];
            assert(0 <= x < i + 1);
        } else {
            assert(o2[j] == d);
        }
    }
    assert forall|x: int| 0 <= x < i + 1 && row_is_new(#[trigger] vs[x], f) implies exists|j: int|
        0 <= j < o2.len() && o2[j].row == vs[x] by {
        if x < i {
            let j = choose|j: int| 0 <= j < out.len() && out[j].row == vs[x];
            assert(o2[j] == out[j]);
        } else {
            assert(o2[out.len() as int] == d);
        }
    }
    assert forall|j: int| 0 <= j < o2.len() implies (#[trigger] o2[j]).table_id == name by {
        if j < out.len() {
            assert(o2[j] == out[j]);
        }
    }
}

proof fn lemma_new_rows_skip(
    out: Seq<RowDeltaView>,
    name: Seq<char>,
    ks: Seq<Seq<char>>,
    vs: Seq<RowView>,
    i: int,
    f: Map<Seq<char>, u64>,
)
    requires
        new_rows_prefix(out, name, ks, vs, i, f),
        i < vs.len(),
        !row_is_new(vs[i], f),
    ensures
        new_rows_prefix(out, name, ks, vs, i + 1, f),
{
    assert forall|j: int| 0 <= j < out.len() implies exists|x: int|
        0 <= x < i + 1 && (#[trigger] out[j]).row == vs[x] && row_is_new(vs[x], f) && out[j].row.id == ks[x] by {
        let x = choose|x: int| 0 <= x < i && out[j].row == vs[x] && row_is_new(vs[x], f) && out[j].row.id == ks[x];
        assert(0 <= x < i + 1);
    }
}

proof fn lemma_new_rows_done(
    out: Seq<RowDeltaView>,
    name: Seq<char>,
    ks: Seq<Seq<char>>,
    vs: Seq<RowView>,
    m: Map<Seq<char>, RowView>,
    f: Map<Seq<char>, u64>,
)
    requires
        new_rows_prefix(out, name, ks, vs, vs.len() as int, f),
        table_entries(ks, vs),
        m == crate::ordmap::map_of(ks, vs),
        m.dom() == ks.to_set(),
        forall|x: int| 0 <= x < ks.len() ==> #[trigger] m[ks[x]] == vs[x],
    ensures
        lists_new_rows(out, Map::<Seq<char>, Map<Seq<char>, RowView>>::empty().insert(name, m), f),
{
    lemma_str_laws();
    let st = Map::<Seq<char>, Map<Seq<char>, RowView>>::empty().insert(name, m);
    assert forall|a: int, b: int| 0 <= a < b < out.len() implies pair_lt(row_delta_key(#[trigger] out[a]), row_delta_key(#[trigger] out[b])) by {
        assert(str_lt(out[a].row.id, out[b].row.id));
    }
    assert forall|j: int| 0 <= j < out.len() implies st.contains_key((#[trigger] out[j]).table_id) && st[out[j].table_id].contains_key(
        out[j].row.id,
    ) && st[out[j].table_id][out[j].row.id] == out[j].row && row_is_new(out[j].row, f) by {
        let x = choose|x: int| 0 <= x < vs.len() && out[j].row == vs[x] && row_is_new(vs[x], f) && out[j].row.id == ks[x];
        assert(ks.to_set().contains(ks[x]));
        assert(m[ks[x]] == vs[x]);
    }
    assert forall|t: Seq<char>, k: Seq<char>|
        st.contains_key(t) && #[trigger] st[t].contains_key(k) && row_is_new(st[t][k], f) implies exists|j: int|
        0 <= j < out.len() && row_delta_key(#[trigger] out[j]) == (t, k) by {
        assert(ks.to_set().contains(k));
        let x = ks.index_of(k);
        assert(m[ks[x]] == vs[x]);
        let j = choose|j: int| 0 <= j < out.len() && out[j].row == vs[x];
        assert(row_delta_key(out[j]) == (t, k));
    }
}

/// The rows of one table that are new to `f`, in id order.
fn new_rows_of_table(name: &String, table: &OrdMap<RowId, Row>, f: &Frontier) -> (r: Vec<RowDelta>)
    requires
        forall|k: Seq<char>| #[trigger] table@.contains_key(k) ==> table@[k].id == k,
    ensures
        lists_new_rows(
            r@.map_values(|d: RowDelta| d@),
            Map::<Seq<char>, Map<Seq<char>, RowView>>::empty().insert(name@, table@),
            f@,
        ),
{
    proof {
        lemma_str_laws();
    }
    let n = table.len();
    let ghost ks = table.key_seq();
    let ghost vs = table.val_seq();
    proof {
        assert forall|x: int| 0 <= x < vs.len() implies (#[trigger] vs[x]).id == ks[x] by {
            assert(ks.to_set().contains(ks[x]));
            assert(table@[ks[x]] == vs[x]);
        }
        assert forall|a: int, b: int| 0 <= a < b < ks.len() implies str_lt(#[trigger] ks[a], #[trigger] ks[b]) by {
            assert(<String as OrdKey>::key_lt(ks[a], ks[b]));
        }
    }
    let mut out: Vec<RowDelta> = Vec::new();
    assert(out@.map_values(|d: RowDelta| d@) =~= Seq::<RowDeltaView>::empty());
    let mut i: usize = 0;
    while i < n
        invariant
            n == ks.len(),
            ks == table.key_seq(),
            vs == table.val_seq(),
            i <= n,
            table_entries(ks, vs),
            new_rows_prefix(out@.map_values(|d: RowDelta| d@), name@, ks, vs, i as int, f@),
        decreases n - i,
    {
        let row = table.value_at(i);
        let ghost before = out@.map_values(|d: RowDelta| d@);
        if row_needs_sending(row, f) {
            let ghost prev = out@;
            out.push(RowDelta { table_id: name.clone(), row: row.deep_copy() });
            proof {
                assert(out@.map_values(|d: RowDelta| d@) =~= prev.map_values(|d: RowDelta| d@).push(
                    RowDeltaView { table_id: name@, row: vs[i as int] },
                ));
                lemma_new_rows_take(before, name@, ks, vs, i as int, f@);
            }
        } else {
            proof {
                lemma_new_rows_skip(before, name@, ks, vs, i as int, f@);
            }
        }
        i = i + 1;
    }
    proof {
        lemma_new_rows_done(out@.map_values(|d: RowDelta| d@), name@, ks, vs, table@, f@);
    }
    out
}

/// Two listings of new rows, over disjoint tables ordered one before the
/// other, concatenate into a listing over both.
proof fn lemma_concat_new_rows(
    out: Seq<RowDeltaView>,
    chunk: Seq<RowDeltaView>,
    st: Map<Seq<char>, Map<Seq<char>, RowView>>,
    done: Set<Seq<char>>,
    t: Seq<char>,
    f: Map<Seq<char>, u64>,
)
    requires
        lists_new_rows(out, st.restrict(done), f),
        lists_new_rows(chunk, Map::<Seq<char>, Map<Seq<char>, RowView>>::empty().insert(t, st[t]), f),
        st.contains_key(t),
        forall|x: Seq<char>| #[trigger] done.contains(x) ==> str_lt(x, t),
    ensures
        lists_new_rows(out + chunk, st.restrict(done.insert(t)), f),
{
    lemma_str_laws();
    let s = out + chunk;
    let m1 = st.restrict(done);
    let m2 = Map::<Seq<char>, Map<Seq<char>, RowView>>::empty().insert(t, st[t]);
    let m = st.restrict(done.insert(t));
    assert forall|i: int, j: int| 0 <= i < j < s.len() implies pair_lt(row_delta_key(#[trigger] s[i]), row_delta_key(#[trigger] s[j])) by {
        if j < out.len() {
            assert(s[i] == out[i] && s[j] == out[j]);
        } else if i >= out.len() {
            assert(s[i] == chunk[i - out.len()] && s[j] == chunk[j - out.len()]);
        } else {
            assert(s[i] == out[i] && s[j] == chunk[j - out.len()]);
            assert(m1.contains_key(out[i].table_id));
            assert(done.contains(out[i].table_id));
            assert(m2.contains_key(chunk[j - out.len()].table_id));
        }
    }
    assert forall|i: int| 0 <= i < s.len() implies m.contains_key((#[trigger] s[i]).table_id) && m[s[i].table_id].contains_key(
        s[i].row.id,
    ) && m[s[i].table_id][s[i].row.id] == s[i].row && row_is_new(s[i].row, f) by {
        if i < out.len() {
            assert(s[i] == out[i]);
            assert(m1.contains_key(out[i].table_id));
        } else {
            assert(s[i] == chunk[i - out.len()]);
            assert(m2.contains_key(chunk[i - out.len()].table_id));
        }
    }
    assert forall|u: Seq<char>, k: Seq<char>|
        m.contains_key(u) && #[trigger] m[u].contains_key(k) && row_is_new(m[u][k], f) implies exists|i: int|
        0 <= i < s.len() && row_delta_key(#[trigger] s[i]) == (u, k) by {
        if u == t {
            assert(m2.contains_key(u) && m2[u].contains_key(k));
            let i = choose|i: int| 0 <= i < chunk.len() && row_delta_key(#[trigger] chunk[i]) == (u, k);
            assert(s[out.len() + i] == chunk[i]);
        } else {
            assert(m1.contains_key(u) && m1[u].contains_key(k));
            let i = choose|i: int| 0 <= i < out.len() && row_delta_key(#[trigger] out[i]) == (u, k);
            assert(s[i] == out[i]);
        }
    }
}

/// The tombstones of `store` that `f` has not seen, in (table, row) order.
pub(crate) fn unseen_tombstones(store: &TombstoneStore, f: &Frontier) -> (r: Vec<Tombstone>)
    ensures
        lists_tombstones(
            r@.map_values(|t: Tombstone| t@),
            store@.restrict(Set::new(|k: (Seq<char>, Seq<char>)| unseen(store@[k].version, f@))),
        ),
{
    let all = store.all();
    let ghost p = |t: TombstoneView| unseen(t.version, f@);
    let mut out: Vec<Tombstone> = Vec::new();
    let mut i: usize = 0;
    proof {
        assert(out@.map_values(|t: Tombstone| t@) =~= Seq::<TombstoneView>::empty());
    }
    while i < all.len()
        invariant
            i <= all@.len(),
            lists_tombstones(all@.map_values(|t: Tombstone| t@), store@),
            p == (|t: TombstoneView| unseen(t.version, f@)),
            filtered_prefix(out@.map_values(|t: Tombstone| t@), all@.map_values(|t: Tombstone| t@), i as int, p),
        decreases all@.len() - i,
    {
        let ghost av = all@.map_values(|t: Tombstone| t@);
        let ghost before = out@;
        assert(av[i as int] == all@[i as int]@);
        if version_unseen(all[i].version.counter, &all[i].version.peer_id, f) {
            out.push(all[i].deep_copy());
            proof {
                assert(out@.map_values(|t: Tombstone| t@) =~= before.map_values(|t: Tombstone| t@).push(av[i as int]));
                lemma_filtered_prefix_take(before.map_values(|t: Tombstone| t@), av, i as int, p);
            }
        } else {
            proof {
                lemma_filtered_prefix_skip(before.map_values(|t: Tombstone| t@), av, i as int, p);
            }
        }
        i = i + 1;
    }
    proof {
        lemma_filtered_prefix_done(out@.map_values(|t: Tombstone| t@), all@.map_values(|t: Tombstone| t@), store@, p);
        assert(Set::new(|k: (Seq<char>, Seq<char>)| p(store@[k])) =~= Set::new(|k: (Seq<char>, Seq<char>)| unseen(store@[k].version, f@)));
    }
    out
}

/// All claims of a registry, copied, in key order.
pub(crate) fn copy_claims(reg: &UniquenessRegistry) -> (r: Vec<UniquenessClaim>)
    ensures
        lists_claims(r@.map_values(|c: UniquenessClaim| c@), reg@),
{
    let refs = reg.all_claims();
    let mut out: Vec<UniquenessClaim> = Vec::new();
    let mut i: usize = 0;
    while i < refs.len()
        invariant
            i <= refs@.len(),
            out@.len() == i,
            forall|j: int| 0 <= j < i ==> (#[trigger] out@[j])@ == refs@[j]@,
        decreases refs@.len() - i,
    {
        out.push(refs[i].deep_copy());
        i = i + 1;
    }
    proof {
        let ov = out@.map_values(|c: UniquenessClaim| c@);
        assert forall|a: int, b: int| 0 <= a < b < ov.len() implies crate::order::triple_lt(claim_key(#[trigger] ov[a]), claim_key(#[trigger] ov[b])) by {
            assert(ov[a] == refs@[a]@ && ov[b] == refs@[b]@);
        }
        assert forall|k: ClaimKey| #[trigger] reg@.contains_key(k) implies exists|j: int| 0 <= j < ov.len() && claim_key(#[trigger] ov[j]) == k by {
            let j = choose|j: int| 0 <= j < refs@.len() && claim_key((#[trigger] refs@[j])@) == k;
            assert(ov[j] == refs@[j]@);
        }
    }
    out
}

/// Extract from `replica` the rows and tombstones that a peer with
/// `remote_frontier` has not seen, with all uniqueness claims.
pub fn extract_delta(replica: &ReplicaState, remote_frontier: &Frontier) -> (r: SyncDelta)
    ensures
        extracted(*replica, remote_frontier@, r@),
{
    let ghost st = replica.storage@;
    let ghost f = remote_frontier@;
    let keyed = replica.storage.keyed();
    let names = replica.storage.table_names();
    let mut rows: Vec<RowDelta> = Vec::new();
    let ghost mut done: Set<Seq<char>> = Set::empty();
    proof {
        lemma_str_laws();
        assert(rows@.map_values(|d: RowDelta| d@) =~= Seq::<RowDeltaView>::empty());
        assert(st.restrict(done) =~= Map::<Seq<char>, Map<Seq<char>, RowView>>::empty());
    }
    let mut ti: usize = 0;
    while ti < names.len()
        invariant
            ti <= names@.len(),
            st == replica.storage@,
            f == remote_frontier@,
            tables_keyed(st),
            forall|i: int, j: int| 0 <= i < j < names@.len() ==> str_lt((#[trigger] names@[i])@, (#[trigger] names@[j])@),
            forall|i: int| 0 <= i < names@.len() ==> st.contains_key((#[trigger] names@[i])@),
            forall|k: Seq<char>| #[trigger] st.contains_key(k) ==> exists|i: int| 0 <= i < names@.len() && (#[trigger] names@[i])@ == k,
            forall|x: Seq<char>| #[trigger] done.contains(x) <==> exists|i: int| 0 <= i < ti && (#[trigger] names@[i])@ == x,
            lists_new_rows(rows@.map_values(|d: RowDelta| d@), st.restrict(done), f),
        decreases names@.len() - ti,
    {
        let name = &names[ti];
        match replica.storage.snapshot_table(name.as_str()) {
            Some(table) => {
                proof {
                    assert forall|k: Seq<char>| #[trigger] table@.contains_key(k) implies table@[k].id == k by {
                        assert(st[name@].contains_key(k));
                    }
                }
                let mut chunk = new_rows_of_table(name, table, remote_frontier);
                let ghost before = rows@;
                let ghost cv = chunk@.map_values(|d: RowDelta| d@);
                rows.append(&mut chunk);
                proof {
                    assert forall|x: Seq<char>| #[trigger] done.contains(x) implies str_lt(x, name@) by {
                        let i = choose|i: int| 0 <= i < ti && (#[trigger] names@[i])@ == x;
                    }
                    lemma_concat_new_rows(before.map_values(|d: RowDelta| d@), cv, st, done, name@, f);
                    assert(rows@.map_values(|d: RowDelta| d@) =~= before.map_values(|d: RowDelta| d@) + cv);
                    done = done.insert(name@);
                    assert forall|x: Seq<char>| #[trigger] done.contains(x) <==> exists|i: int| 0 <= i < ti + 1 && (#[trigger] names@[i])@ == x by {
                        if x == name@ {
                            assert(names@[ti as int]@ == x);
                        } else if exists|i: int| 0 <= i < ti + 1 && (#[trigger] names@[i])@ == x {
                            let i = choose|i: int| 0 <= i < ti + 1 && (#[trigger] names@[i])@ == x;
                            assert(i != ti);
                        }
                    }
                }
            },
            None => {
                assert(st.contains_key(names@[ti as int]@));
            },
        }
        ti = ti + 1;
    }
    proof {
        assert(st.restrict(done) =~= st) by {
            assert forall|k: Seq<char>| #[trigger] st.contains_key(k) implies done.contains(k) by {
                let i = choose|i: int| 0 <= i < names@.len() && (#[trigger] names@[i])@ == k;
            }
        }
    }
    let tombstones = unseen_tombstones(&replica.tombstones, remote_frontier);
    let uniqueness_claims = copy_claims(&replica.uniqueness);
    SyncDelta {
        source_peer: replica.peer_id.clone(),
        rows,
        tombstones,
        uniqueness_claims,
        frontier: replica.frontier.deep_copy(),
    }
}

// ---------------------------------------------------------- application

/// Merge the delta's rows into storage, in order.
pub(crate) fn apply_rows(replica: &mut ReplicaState, delta: &SyncDelta)
    ensures
        final(replica).storage@ == apply_rows_spec(old(replica).storage@, delta@.rows),
        final(replica).peer_id == old(replica).peer_id,
        final(replica).clock == old(replica).clock,
        final(replica).schemas@ == old(replica).schemas@,
        final(replica).tombstones@ == old(replica).tombstones@,
        final(replica).uniqueness@ == old(replica).uniqueness@,
        final(replica).frontier@ == old(replica).frontier@,
{
    let ghost rows = delta@.rows;
    let mut i: usize = 0;
    while i < delta.rows.len()
        invariant
            i <= delta.rows@.len(),
            rows == delta@.rows,
            replica.storage@ == apply_rows_spec(old(replica).storage@, rows.subrange(0, i as int)),
            replica.peer_id == old(replica).peer_id,
            replica.clock == old(replica).clock,
            replica.schemas@ == old(replica).schemas@,
            replica.tombstones@ == old(replica).tombstones@,
            replica.uniqueness@ == old(replica).uniqueness@,
            replica.frontier@ == old(replica).frontier@,
        decreases delta.rows@.len() - i,
    {
        let rd = &delta.rows[i];
        assert(rows[i as int] == rd@);
        let ghost s0 = replica.storage@;
        let table_id = rd.table_id.as_str();
        if !replica.storage.table_exists(table_id) {
            replica.storage.create_table(table_id);
        }
        let ghost s1 = replica.storage@;
        assert(table_rows(s1, rd.table_id@) == table_rows(s0, rd.table_id@));
        let keyed = replica.storage.keyed();
        let merged = match replica.storage.get_row(table_id, rd.row.id.as_str()) {
            Some(existing) => {
                assert(s1[rd.table_id@].contains_key(rd.row.id@));
                merge_row(existing, &rd.row)
            },
            None => rd.row.deep_copy(),
        };
        let _ = replica.storage.upsert_row(table_id, merged);
        proof {
            assert(rows.subrange(0, i + 1).drop_last() =~= rows.subrange(0, i as int));
            assert(rows.subrange(0, i + 1).last() == rd@);
            assert(replica.storage@ =~= apply_row_spec(s0, rd@));
        }
        i = i + 1;
    }
    assert(rows.subrange(0, rows.len() as int) =~= rows);
}

/// A tombstone store holding the delta's tombstones.
pub(crate) fn incoming_tombstones(delta: &SyncDelta) -> (r: TombstoneStore)
    ensures
        r@ == tombstones_of(delta@.tombstones),
{
    let ghost ts = delta@.tombstones;
    let mut incoming = TombstoneStore::new();
    let mut i: usize = 0;
    while i < delta.tombstones.len()
        invariant
            i <= delta.tombstones@.len(),
            ts == delta@.tombstones,
            incoming@ == tombstones_of(ts.subrange(0, i as int)),
        decreases delta.tombstones@.len() - i,
    {
        assert(ts[i as int] == delta.tombstones@[i as int]@);
        incoming.insert(delta.tombstones[i].deep_copy());
        assert(ts.subrange(0, i + 1).drop_last() =~= ts.subrange(0, i as int));
        i = i + 1;
    }
    assert(ts.subrange(0, ts.len() as int) =~= ts);
    incoming
}

/// A registry in which each of the delta's claims has been claimed by its
/// owner.
fn incoming_claims(delta: &SyncDelta) -> (r: UniquenessRegistry)
    ensures
        r@ == claims_of(delta@.claims),
{
    let ghost cs = delta@.claims;
    let mut incoming = UniquenessRegistry::new();
    let mut i: usize = 0;
    while i < delta.uniqueness_claims.len()
        invariant
            i <= delta.uniqueness_claims@.len(),
            cs == delta@.claims,
            incoming@ == claims_of(cs.subrange(0, i as int)),
        decreases delta.uniqueness_claims@.len() - i,
    {
        let c = &delta.uniqueness_claims[i];
        assert(cs[i as int] == c@);
        incoming.claim(
            c.table_id.as_str(),
            c.column_id.as_str(),
            c.value.as_str(),
            c.owner_row.as_str(),
            c.version.deep_copy(),
        );
        assert(cs.subrange(0, i + 1).drop_last() =~= cs.subrange(0, i as int));
        i = i + 1;
    }
    assert(cs.subrange(0, cs.len() as int) =~= cs);
    incoming
}

/// Advance the clock and frontier from the delta's frontier.
pub(crate) fn advance_from(replica: &mut ReplicaState, delta: &SyncDelta)
    ensures
        final(replica).clock.peer_id@ == old(replica).clock.peer_id@,
        clock_raised(old(replica).clock.counter, final(replica).clock.counter, delta@.frontier),
        final(replica).frontier@ == frontier_after(
            old(replica).frontier@,
            delta@.frontier,
            old(replica).peer_id@,
            final(replica).clock.counter,
        ),
        final(replica).peer_id == old(replica).peer_id,
        final(replica).storage@ == old(replica).storage@,
        final(replica).schemas@ == old(replica).schemas@,
        final(replica).tombstones@ == old(replica).tombstones@,
        final(replica).uniqueness@ == old(replica).uniqueness@,
{
    replica.clock.update_from_frontier(&delta.frontier);
    replica.frontier = merge_frontiers(&replica.frontier, &delta.frontier);
    let counter = replica.clock.counter;
    frontier_update(&mut replica.frontier, &replica.peer_id, counter);
}

/// Apply a received delta: rows merged cell by cell, tombstones and
/// uniqueness claims merged by version, clock and frontier advanced.
/// Replay-safe and idempotent; never fails.
pub fn apply_delta(replica: &mut ReplicaState, delta: &SyncDelta) -> (r: CrdtResult<()>)
    ensures
        r is Ok,
        applied(*old(replica), delta@, *final(replica)),
{
    apply_rows(replica, delta);
    let incoming_ts = incoming_tombstones(delta);
    replica.tombstones.merge(&incoming_ts);
    let incoming_unique = incoming_claims(delta);
    replica.uniqueness.merge(&incoming_unique);
    advance_from(replica, delta);
    Ok(())
}

/// `after_a`, `after_b` are the states after a pairwise sync of `a` and `b`:
/// each has applied the delta the other extracted against its frontier.
pub open spec fn synced(a: ReplicaState, b: ReplicaState, after_a: ReplicaState, after_b: ReplicaState) -> bool {
    exists|for_b: SyncDeltaView, for_a: SyncDeltaView|
        extracted(a, b.frontier@, for_b) && extracted(b, a.frontier@, for_a) && applied(b, for_b, after_b)
            && applied(a, for_a, after_a)
}

/// A full pairwise, bidirectional sync between two replicas.
pub fn sync_peers(a: &mut ReplicaState, b: &mut ReplicaState) -> (r: CrdtResult<()>)
    ensures
        r is Ok,
        synced(*old(a), *old(b), *final(a), *final(b)),
{
    let delta_for_b = extract_delta(a, &b.frontier);
    let delta_for_a = extract_delta(b, &a.frontier);
    let _ = apply_delta(b, &delta_for_b);
    let _ = apply_delta(a, &delta_for_a);
    assert(extracted(*old(a), old(b).frontier@, delta_for_b@));
    Ok(())
}

} // verus!
