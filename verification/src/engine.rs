//! The engine host: a set of peer replicas in one process, each with its
//! secondary indexes, on which schemas are applied, peers are synced pair
//! by pair, and snapshots are hashed.
use vstd::prelude::*;
use crate::error::{CrdtError, error_text};
use crate::executor::SqlExecutor;
use crate::hashing::{SnapshotHasher, full_stream, hex_digest, tomb_pairs, claim_items};
use crate::index::{IndexManager, SecondaryIndexView, IndexEntries, rebuilt, row_refs_view, law_rebuild_order_independent};
use crate::ordmap::{DeepCopy, OrdMap};
use crate::replication::ReplicaState;
use crate::sql_parse::{may_panic_parser, parse_sql, parser_may_panic, sql_parsed};
use crate::sql::{stmts_defaults_safe, stmts_safe, Stmt, parse_create_table, parse_create_index, create_table_spec, schema_view, defaults_neg_safe};
use crate::storage::{lists_rows, row_views, table_rows};
use crate::sync::delta::{apply_delta, applied_marking, extract_delta};
use crate::sync::{extracted, lists_claims};
use crate::sync::converge::{
    ready_to_converge, same_owner_rows, law_session_round_same_hash, lemma_tombstone_listing_unique,
    lemma_tombstone_listing_keys, lemma_claim_listings_match, law_session_round_converges, lemma_round_keeps_tables,
};
use crate::hashing::{visible_content, law_tables_stream_visible_only};
use crate::sync::session::session_round;
use crate::uniqueness::claim_key;
use crate::tombstone::lists_tombstones;
use crate::types::{
    ColumnSchema, IndexDefView, Row, RowView, TableSchema, Tombstone, TombstoneView, UniquenessClaim, ClaimView, Value,
    ValueView,
};
use crate::json_values::{JsonCell, JsonCellView, cell_json, value_to_json};
use crate::ordmap::sorted_keys;
use crate::winner::row_shown;
use crate::storage::StorageEngine;

verus! {

/// The indexes of a peer: table, then index name, to index.
pub type IndexesView = Map<Seq<char>, Map<Seq<char>, SecondaryIndexView>>;

/// One peer: its replica and its indexes.
pub struct Peer {
    pub replica: ReplicaState,
    pub indexes: IndexManager,
}

pub struct PeerView {
    pub replica: ReplicaState,
    pub indexes: IndexesView,
}

impl View for Peer {
    type V = PeerView;

    open spec fn view(&self) -> PeerView {
        PeerView { replica: self.replica, indexes: self.indexes@ }
    }
}

/// A statement of a schema: its text and what it says.
pub struct SqlStatement {
    pub text: String,
    pub stmt: Stmt,
}

/// `r` is a fresh replica of peer `id`: empty state, clock at zero.
pub open spec fn fresh_replica(r: ReplicaState, id: Seq<char>) -> bool {
    &&& r.peer_id@ == id
    &&& r.clock.peer_id@ == id
    &&& r.clock.counter == 0
    &&& r.storage@ == Map::<Seq<char>, Map<Seq<char>, RowView>>::empty()
    &&& r.schemas@.dom() == Set::<Seq<char>>::empty()
    &&& r.tombstones@.dom() == Set::<(Seq<char>, Seq<char>)>::empty()
    &&& r.uniqueness@.dom() == Set::<(Seq<char>, Seq<char>, Seq<char>)>::empty()
    &&& r.frontier@ == Map::<Seq<char>, u64>::empty()
}

/// Peer `id` as first opened.
pub open spec fn fresh_peer(p: PeerView, id: Seq<char>) -> bool {
    fresh_replica(p.replica, id) && p.indexes == IndexesView::empty()
}

/// The rows of table `t` of a store, listed in id order.
pub open spec fn table_listing(st: Map<Seq<char>, Map<Seq<char>, RowView>>, t: Seq<char>) -> Seq<RowView> {
    choose|s: Seq<RowView>| lists_rows(s, table_rows(st, t))
}

/// The indexes of table `t` rebuilt from the rows of `st`.
pub open spec fn table_rebuilt(idx: IndexesView, st: Map<Seq<char>, Map<Seq<char>, RowView>>, t: Seq<char>) -> Map<
    Seq<char>,
    SecondaryIndexView,
> {
    idx[t].map_values(|ix: SecondaryIndexView| rebuilt(ix, table_listing(st, t)))
}

/// Every index of a table of `st` rebuilt from that table's rows.
pub open spec fn rebuilt_all(idx: IndexesView, st: Map<Seq<char>, Map<Seq<char>, RowView>>) -> IndexesView {
    Map::new(
        |t: Seq<char>| idx.contains_key(t),
        |t: Seq<char>|
            if st.contains_key(t) {
                table_rebuilt(idx, st, t)
            } else {
                idx[t]
            },
    )
}

/// The indexes after `dv` is registered as a new, empty index.
pub open spec fn index_created(idx: IndexesView, dv: IndexDefView) -> IndexesView {
    idx.insert(
        dv.table,
        (if idx.contains_key(dv.table) {
            idx[dv.table]
        } else {
            Map::empty()
        }).insert(dv.name, SecondaryIndexView { def: dv, entries: IndexEntries::empty() }),
    )
}

/// The peers hold the same state.
pub open spec fn same_peer(a: PeerView, b: PeerView) -> bool {
    &&& a.indexes == b.indexes
    &&& same_crdt_state(a.replica, b.replica)
    &&& a.replica.schemas@ == b.replica.schemas@
    &&& a.replica.storage@ == b.replica.storage@
}

/// The replicas hold the same clock, tombstones, claims and frontier.
pub open spec fn same_crdt_state(a: ReplicaState, b: ReplicaState) -> bool {
    &&& a.peer_id == b.peer_id
    &&& a.clock == b.clock
    &&& a.tombstones == b.tombstones
    &&& a.uniqueness == b.uniqueness
    &&& a.frontier == b.frontier
}

/// The index definition CREATE INDEX declares.
pub open spec fn index_def_of(s: Stmt) -> IndexDefView {
    match s {
        Stmt::CreateIndex(ci) => IndexDefView {
            name: match ci.name {
                Some(n) => crate::sql::joined(crate::sql::strs(n@)),
                None => "unnamed_index"@,
            },
            table: crate::sql::joined(crate::sql::strs(ci.table_name@)),
            columns: crate::sql::strs(ci.columns@),
            unique: ci.unique,
        },
        _ => arbitrary(),
    }
}

/// A schema statement run on a peer, from `before` to `after`, with the
/// message of its error if it failed; a failed statement changes nothing.
/// CREATE TABLE registers the schema and creates the table, and fails when
/// the table exists; CREATE INDEX registers the index and builds it from
/// the table's rows.
pub open spec fn ddl_done(before: PeerView, s: Stmt, after: PeerView, err: Option<Seq<char>>) -> bool {
    match s {
        Stmt::CreateTable(ct) => match create_table_spec(ct) {
            None => same_peer(after, before) && err == Some(
                "schema error: "@ + "FK must reference at least one column"@,
            ),
            Some(sv) => if before.replica.schemas@.contains_key(sv.name) {
                same_peer(after, before) && err == Some(
                    "schema error: "@ + ("table "@ + sv.name + " already exists"@),
                )
            } else {
                &&& err is None
                &&& after.indexes == before.indexes
                &&& same_crdt_state(after.replica, before.replica)
                &&& exists|t: crate::types::TableSchema|
                    schema_view(t) == sv && after.replica.schemas@ == before.replica.schemas@.insert(
                        sv.name,
                        t,
                    )
                &&& after.replica.storage@ == (if before.replica.storage@.contains_key(sv.name) {
                    before.replica.storage@
                } else {
                    before.replica.storage@.insert(sv.name, Map::empty())
                })
            },
        },
        Stmt::CreateIndex(_) => {
            let created = index_created(before.indexes, index_def_of(s));
            &&& err is None
            &&& after.replica == before.replica
            &&& after.indexes == created.insert(
                index_def_of(s).table,
                table_rebuilt(created, before.replica.storage@, index_def_of(s).table),
            )
        },
        Stmt::Other => same_peer(after, before) && err == Some(
            "schema error: "@ + "expected CREATE TABLE or CREATE INDEX statement"@,
        ),
    }
}

/// Two listings of the same table hold the same rows.
proof fn lemma_listings_same_rows(s1: Seq<RowView>, s2: Seq<RowView>, m: Map<Seq<char>, RowView>)
    requires
        lists_rows(s1, m),
        lists_rows(s2, m),
    ensures
        s1.to_set() == s2.to_set(),
{
    assert forall|x: RowView| s1.to_set().contains(x) implies s2.to_set().contains(x) by {
        let i = choose|i: int| 0 <= i < s1.len() && s1[i] == x;
        assert(m.contains_key(s1[i].id));
        let j = choose|j: int| 0 <= j < s2.len() && (#[trigger] s2[j]).id == s1[i].id;
        assert(s2[j] == m[s2[j].id]);
        assert(s2.contains(x));
    }
    assert forall|x: RowView| s2.to_set().contains(x) implies s1.to_set().contains(x) by {
        let i = choose|i: int| 0 <= i < s2.len() && s2[i] == x;
        assert(m.contains_key(s2[i].id));
        let j = choose|j: int| 0 <= j < s1.len() && (#[trigger] s1[j]).id == s2[i].id;
        assert(s1[j] == m[s1[j].id]);
        assert(s1.contains(x));
    }
    assert(s1.to_set() =~= s2.to_set());
}

/// Rebuilding a table's indexes from any listing of its rows gives what
/// `table_rebuilt` says.
proof fn lemma_rebuilt_from_listing(
    idx: IndexesView,
    rows: Seq<&Row>,
    st: Map<Seq<char>, Map<Seq<char>, RowView>>,
    t: Seq<char>,
)
    requires
        lists_rows(row_views(rows), table_rows(st, t)),
    ensures
        idx[t].map_values(|ix: SecondaryIndexView| rebuilt(ix, row_refs_view(rows))) == table_rebuilt(
            idx,
            st,
            t,
        ),
{
    let l = table_listing(st, t);
    assert(row_refs_view(rows) =~= row_views(rows));
    assert(lists_rows(l, table_rows(st, t)));
    lemma_listings_same_rows(row_views(rows), l, table_rows(st, t));
    assert forall|k: Seq<char>| #[trigger] idx[t].contains_key(k) implies rebuilt(
        idx[t][k],
        row_refs_view(rows),
    ) == rebuilt(idx[t][k], l) by {
        law_rebuild_order_independent(idx[t][k].def.columns, row_refs_view(rows), l);
    }
    assert(idx[t].map_values(|ix: SecondaryIndexView| rebuilt(ix, row_refs_view(rows))) =~= table_rebuilt(
        idx,
        st,
        t,
    ));
}

/// Runs one schema statement on a peer.
pub fn apply_ddl(peer: &mut Peer, stmt: &Stmt) -> (r: Result<(), CrdtError>)
    requires
        stmt matches Stmt::CreateTable(ct) ==> defaults_neg_safe(ct.columns@),
    ensures
        ddl_done(
            old(peer)@,
            *stmt,
            final(peer)@,
            match r {
                Ok(_) => None,
                Err(e) => Some(error_text(e)),
            },
        ),
{
    match stmt {
        Stmt::CreateTable(_) => {
            let schema = match parse_create_table(stmt) {
                Ok(s) => s,
                Err(e) => {
                    return Err(e);
                },
            };
            let name = schema.name.clone();
            match peer.replica.schemas.create_table(schema) {
                Ok(()) => {},
                Err(e) => {
                    return Err(e);
                },
            }
            peer.replica.storage.create_table(name.as_str());
            Ok(())
        },
        Stmt::CreateIndex(_) => {
            let def = match parse_create_index(stmt, "") {
                Ok(d) => d,
                Err(e) => {
                    return Err(e);
                },
            };
            let table = def.table.clone();
            peer.indexes.create_index(def);
            let ghost created = peer.indexes@;
            let rows = peer.replica.storage.all_rows(table.as_str());
            peer.indexes.rebuild_table(table.as_str(), rows.as_slice());
            proof {
                lemma_rebuilt_from_listing(created, rows@, peer.replica.storage@, table@);
            }
            Ok(())
        },
        Stmt::Other => Err(
            CrdtError::SchemaError(String::from_str("expected CREATE TABLE or CREATE INDEX statement")),
        ),
    }
}

/// A run of schema statements on a peer: `h[i]` to `h[i + 1]` is statement
/// `i`, each succeeding.
pub open spec fn ddl_history(h: Seq<PeerView>, stmts: Seq<SqlStatement>) -> bool {
    &&& 1 <= h.len() <= stmts.len() + 1
    &&& forall|i: int| 0 <= i < h.len() - 1 ==> ddl_done(h[i], (#[trigger] stmts[i]).stmt, h[i + 1], None)
}

/// Every CREATE TABLE among `stmts` has defaults that evaluate without
/// overflow.
pub open spec fn schema_defaults_safe(stmts: Seq<SqlStatement>) -> bool {
    forall|i: int| 0 <= i < stmts.len() ==> ((#[trigger] stmts[i]).stmt matches Stmt::CreateTable(ct) ==> defaults_neg_safe(ct.columns@))
}

/// The peer table of the host: peer id to peer.
pub type PeersView = Map<Seq<char>, PeerView>;

/// A message naming a missing peer.
pub open spec fn peer_missing(id: Seq<char>) -> Seq<char> {
    "peer "@ + id + " not found"@
}


/// The indexes with the tables of `done` rebuilt from the rows of `st`.
pub open spec fn rebuilt_some(idx: IndexesView, st: Map<Seq<char>, Map<Seq<char>, RowView>>, done: Seq<Seq<char>>) -> IndexesView {
    Map::new(
        |t: Seq<char>| idx.contains_key(t),
        |t: Seq<char>|
            if done.contains(t) && st.contains_key(t) {
                table_rebuilt(idx, st, t)
            } else {
                idx[t]
            },
    )
}

/// Rebuilds every index of every table of the peer from the table's rows.
fn rebuild_all_tables(peer: &mut Peer)
    ensures
        final(peer).replica == old(peer).replica,
        final(peer).indexes@ == rebuilt_all(old(peer).indexes@, old(peer).replica.storage@),
{
    proof {
        crate::order::lemma_str_laws();
    }
    let names = peer.replica.storage.table_names();
    let ghost idx0 = peer.indexes@;
    let ghost st = peer.replica.storage@;
    let ghost ns = names@.map_values(|x: String| x@);
    assert(idx0 =~= rebuilt_some(idx0, st, ns.take(0)));
    let mut i: usize = 0;
    while i < names.len()
        invariant
            i <= names@.len(),
            ns == names@.map_values(|x: String| x@),
            peer.replica == old(peer).replica,
            st == peer.replica.storage@,
            idx0 == old(peer).indexes@,
            forall|a: int, b: int| 0 <= a < b < names@.len() ==> crate::order::str_lt((#[trigger] names@[a])@, (#[trigger] names@[b])@),
            forall|a: int| 0 <= a < names@.len() ==> st.contains_key((#[trigger] names@[a])@),
            forall|x: Seq<char>| !#[trigger] crate::order::str_lt(x, x),
            peer.indexes@ == rebuilt_some(idx0, st, ns.take(i as int)),
        decreases names@.len() - i,
    {
        let ghost cur = peer.indexes@;
        let ghost t = names@[i as int]@;
        let rows = peer.replica.storage.all_rows(names[i].as_str());
        peer.indexes.rebuild_table(names[i].as_str(), rows.as_slice());
        proof {
            lemma_rebuilt_from_listing(cur, rows@, st, t);
            assert(!ns.take(i as int).contains(t)) by {
                if ns.take(i as int).contains(t) {
                    let k = choose|k: int| 0 <= k < i && ns.take(i as int)[k] == t;
                    assert(crate::order::str_lt(names@[k]@, names@[i as int]@));
                }
            }
            if cur.contains_key(t) {
                assert(cur[t] == idx0[t]);
                assert(table_rebuilt(cur, st, t) == table_rebuilt(idx0, st, t));
            }
            assert(ns.take(i + 1) =~= ns.take(i as int).push(t));
            let target = rebuilt_some(idx0, st, ns.take(i + 1));
            assert(ns[i as int] == t);
            assert forall|k: Seq<char>| #[trigger] peer.indexes@.contains_key(k) == target.contains_key(k) by {}
            assert forall|k: Seq<char>| #[trigger] peer.indexes@.contains_key(k) implies peer.indexes@[k] == target[k] by {
                if k != t {
                    assert(ns.take(i + 1).contains(k) == ns.take(i as int).contains(k)) by {
                        if ns.take(i + 1).contains(k) {
                            let q = choose|q: int| 0 <= q < i + 1 && #[trigger] ns.take(i + 1)[q] == k;
                            assert(ns.take(i as int)[q] == k);
                        }
                        if ns.take(i as int).contains(k) {
                            let q = choose|q: int| 0 <= q < i && #[trigger] ns.take(i as int)[q] == k;
                            assert(ns.take(i + 1)[q] == k);
                        }
                    }
                } else {
                    assert(ns.take(i + 1)[i as int] == t);
                }
            }
            assert(peer.indexes@ =~= target);
        }
        i = i + 1;
    }
    proof {
        assert(ns.take(names@.len() as int) =~= ns);
        assert forall|t: Seq<char>| #[trigger] st.contains_key(t) implies ns.contains(t) by {
            let k = choose|k: int| 0 <= k < names@.len() && (#[trigger] names@[k])@ == t;
            assert(ns[k] == t);
        }
        assert(peer.indexes@ =~= rebuilt_all(idx0, st));
    }
}

/// A peer after a delta was applied to its replica and its indexes were
/// rebuilt from the merged rows.
pub open spec fn synced_into(before: PeerView, d: crate::types::SyncDeltaView, after: PeerView) -> bool {
    &&& applied_marking(before.replica, d, after.replica)
    &&& after.indexes == rebuilt_all(before.indexes, after.replica.storage@)
}

/// `after` is the host `before` after peers `a` and `b` synced: both deltas
/// were extracted first, then `b` took the delta from `a`, then `a` the
/// delta from `b`, each rebuilding its indexes.
pub open spec fn host_synced(before: PeersView, a: Seq<char>, b: Seq<char>, after: PeersView) -> bool {
    exists|for_b: crate::types::SyncDeltaView, for_a: crate::types::SyncDeltaView, pb2: PeerView, pa2: PeerView|
        extracted(before[a].replica, before[b].replica.frontier@, for_b) && extracted(
            before[b].replica,
            before[a].replica.frontier@,
            for_a,
        ) && synced_into(before[b], for_b, pb2) && synced_into(before.insert(b, pb2)[a], for_a, pa2) && after
            == before.insert(b, pb2).insert(a, pa2)
}

/// The host `after` is `before` after the parsed schema statements `stmts`
/// ran on peer `id`, in order, up to the first that failed, with result `r`.
pub open spec fn schema_applied(
    before: PeersView,
    id: Seq<char>,
    stmts: Seq<SqlStatement>,
    after: PeersView,
    r: Result<(), String>,
) -> bool {
    &&& !before.contains_key(id) ==> after == before && (r matches Err(m) && m@ == peer_missing(id))
    &&& before.contains_key(id) ==> exists|h: Seq<PeerView>|
        #![trigger ddl_history(h, stmts)]
        ddl_history(h, stmts) && same_peer(h[0], before[id]) && after.dom() == before.dom() && (forall|k: Seq<char>|
            #[trigger] before.contains_key(k) && k != id ==> after[k] == before[k]) && same_peer(after[id], h.last())
            && (match r {
            Ok(_) => h.len() == stmts.len() + 1,
            Err(m) => h.len() <= stmts.len() && exists|e: Seq<char>|
                #![trigger ddl_done(h.last(), stmts[h.len() - 1].stmt, h.last(), Some(e))]
                ddl_done(h.last(), stmts[h.len() - 1].stmt, h.last(), Some(e)) && m@ == "schema error in '"@
                    + stmts[h.len() - 1].text@ + "': "@ + e,
        })
}

/// One schema text run on peer `id`: a text `sqlparser` cannot read leaves
/// the host as it was and fails with its parse error; otherwise its
/// statements run as `schema_applied` says.
pub open spec fn text_step(before: PeersView, id: Seq<char>, text: String, after: PeersView, r: Result<(), String>) -> bool {
    match sql_parsed(text@) {
        Err(e) => after == before && (r matches Err(m) && m@ == "schema error in '"@ + text@ + "': parse error: "@ + e),
        Ok(v) => exists|ss: Seq<SqlStatement>|
            #![trigger schema_applied(before, id, ss, after, r)]
            ss.len() == v.len() && (forall|j: int| 0 <= j < ss.len() ==> (#[trigger] ss[j]).stmt == v[j] && ss[j].text@ == text@)
                && schema_applied(before, id, ss, after, r),
    }
}

/// The host `after` is `before` after the schema texts ran on peer `id`,
/// one after another, up to the first that failed, with result `r`.
pub open spec fn schema_run(before: PeersView, id: Seq<char>, texts: Seq<String>, after: PeersView, r: Result<(), String>) -> bool {
    &&& !before.contains_key(id) ==> after == before && (r matches Err(m) && m@ == peer_missing(id))
    &&& before.contains_key(id) ==> exists|h: Seq<PeersView>|
        #![trigger text_history(h, id, texts)]
        text_history(h, id, texts) && h[0] == before && match r {
            Ok(_) => h.len() == texts.len() + 1 && after == h.last(),
            Err(_) => h.len() <= texts.len() && text_step(h.last(), id, texts[h.len() - 1], after, r),
        }
}

/// Schema texts run successfully one after another: `h[i]` to `h[i + 1]`
/// is text `i`.
pub open spec fn text_history(h: Seq<PeersView>, id: Seq<char>, texts: Seq<String>) -> bool {
    &&& 1 <= h.len() <= texts.len() + 1
    &&& forall|i: int| 0 <= i < h.len() - 1 ==> text_step(h[i], id, #[trigger] texts[i], h[i + 1], Ok(()))
}

/// No text holds a keyword on which the parser may panic.
pub open spec fn texts_parseable(texts: Seq<String>) -> bool {
    forall|i: int| 0 <= i < texts.len() ==> !parser_may_panic((#[trigger] texts[i])@)
}

/// Why `try_apply_schema` did not run the texts.
#[derive(Debug, Clone, Copy, PartialEq, Eq, Structural)]
pub enum SchemaRefusal {
    /// A text holds a keyword on which the parser may panic.
    ParserWouldPanic,
    /// A DEFAULT of a CREATE TABLE would overflow when evaluated.
    DefaultOverflows,
}

/// Every CREATE TABLE that the texts parse into has defaults that evaluate
/// without overflow.
pub open spec fn texts_defaults_safe(texts: Seq<String>) -> bool {
    forall|i: int| 0 <= i < texts.len() ==> (sql_parsed((#[trigger] texts[i])@) matches Ok(v) ==> stmts_defaults_safe(v))
}

/// The statements of one text, each paired with the text.
fn with_text(v: Vec<Stmt>, text: &String) -> (r: Vec<SqlStatement>)
    ensures
        r@.len() == v@.len(),
        forall|j: int| 0 <= j < r@.len() ==> (#[trigger] r@[j]).stmt == v@[j] && r@[j].text@ == text@,
{
    let ghost orig = v@;
    let mut v = v;
    let mut out: Vec<SqlStatement> = Vec::new();
    while v.len() > 0
        invariant
            out@.len() + v@.len() == orig.len(),
            forall|j: int| 0 <= j < out@.len() ==> (#[trigger] out@[j]).stmt == orig[j] && out@[j].text@ == text@,
            forall|j: int| 0 <= j < v@.len() ==> #[trigger] v@[j] == orig[out@.len() + j],
        decreases v@.len(),
    {
        let ghost before = out@;
        let ghost vb = v@;
        let stmt = v.remove(0);
        out.push(SqlStatement { text: text.clone(), stmt });
        proof {
            assert(stmt == vb[0]);
            assert forall|j: int| 0 <= j < v@.len() implies #[trigger] v@[j] == orig[out@.len() + j] by {
                assert(v@[j] == vb[j + 1]);
            }
            assert forall|j: int| 0 <= j < out@.len() implies (#[trigger] out@[j]).stmt == orig[j] && out@[j].text@ == text@ by {
                if j < before.len() {
                    assert(out@[j] == before[j]);
                }
            }
        }
    }
    out
}

/// Many peer replicas in one process.
pub struct EngineHost {
    peers: OrdMap<String, Peer>,
    executor: SqlExecutor,
}

impl View for EngineHost {
    type V = PeersView;

    closed spec fn view(&self) -> PeersView {
        self.peers@
    }
}

fn fresh(peer_id: &str) -> (p: Peer)
    ensures
        fresh_peer(p@, peer_id@),
{
    let replica = ReplicaState::new(peer_id.to_owned());
    Peer { replica, indexes: IndexManager::new() }
}

fn missing(peer_id: &str) -> (r: String)
    ensures
        r@ == peer_missing(peer_id@),
{
    let mut m = String::from_str("peer ");
    m.append(peer_id);
    m.append(" not found");
    m
}

impl EngineHost {
    pub fn new() -> (r: Self)
        ensures
            r@ == PeersView::empty(),
    {
        EngineHost { peers: OrdMap::new(), executor: SqlExecutor::new() }
    }

    /// Opens peer `peer_id` with a fresh replica, unless it is open.
    pub fn open_peer(&mut self, peer_id: &str)
        ensures
            old(self)@.contains_key(peer_id@) ==> final(self)@ == old(self)@,
            !old(self)@.contains_key(peer_id@) ==> final(self)@.dom() == old(self)@.dom().insert(peer_id@)
                && fresh_peer(final(self)@[peer_id@], peer_id@) && forall|k: Seq<char>|
                #[trigger] old(self)@.contains_key(k) ==> final(self)@[k] == old(self)@[k],
    {
        let key = peer_id.to_owned();
        if !self.peers.contains_key(&key) {
            let p = fresh(peer_id);
            self.peers.insert(key, p);
        }
    }

    /// Runs schema texts on peer `peer_id`, one after another: each text is
    /// parsed, then its statements run in order; the first text that does
    /// not parse, or statement that fails, stops the run with a message
    /// naming the text.
    pub fn apply_schema(&mut self, peer_id: &str, stmts: &[String]) -> (r: Result<(), String>)
        requires
            texts_parseable(stmts@),
            texts_defaults_safe(stmts@),
        ensures
            schema_run(old(self)@, peer_id@, stmts@, final(self)@, r),
    {
        let key = peer_id.to_owned();
        if !self.peers.contains_key(&key) {
            return Err(missing(peer_id));
        }
        let ghost h0 = self@;
        let ghost mut h: Seq<PeersView> = seq![self@];
        let mut i: usize = 0;
        while i < stmts.len()
            invariant
                i <= stmts@.len(),
                texts_parseable(stmts@),
                texts_defaults_safe(stmts@),
                h0 == old(self)@,
                h0.contains_key(peer_id@),
                self@.contains_key(peer_id@),
                h.len() == i + 1,
                h[0] == h0,
                h.last() == self@,
                text_history(h, peer_id@, stmts@),
            decreases stmts@.len() - i,
        {
            let ghost before = self@;
            match parse_sql(stmts[i].as_str()) {
                Err(e) => {
                    let mut m = String::from_str("schema error in '");
                    m.append(stmts[i].as_str());
                    m.append("': parse error: ");
                    m.append(e.as_str());
                    let r: Result<(), String> = Err(m);
                    assert(text_step(before, peer_id@, stmts@[i as int], self@, r));
                    return r;
                },
                Ok(v) => {
                    let ghost vv = v@;
                    assert(stmts_defaults_safe(vv));
                    let ss = with_text(v, &stmts[i]);
                    assert(schema_defaults_safe(ss@)) by {
                        assert forall|j: int| 0 <= j < ss@.len() implies ((#[trigger] ss@[j]).stmt matches Stmt::CreateTable(ct)
                            ==> defaults_neg_safe(ct.columns@)) by {
                            assert(ss@[j].stmt == vv[j]);
                        }
                    }
                    let res = self.apply_parsed_schema(peer_id, &ss);
                    assert(text_step(before, peer_id@, stmts@[i as int], self@, res));
                    let ghost rg = res;
                    match res {
                        Err(m) => {
                            return Err(m);
                        },
                        Ok(u) => {
                            assert(rg == Ok::<(), String>(u));
                            assert(u == ());
                            proof {
                                let h2 = h.push(self@);
                                assert forall|k: int| 0 <= k < h2.len() - 1 implies text_step(
                                    h2[k],
                                    peer_id@,
                                    #[trigger] stmts@[k],
                                    h2[k + 1],
                                    Ok(()),
                                ) by {
                                    if k < h.len() - 1 {
                                        assert(h2[k] == h[k] && h2[k + 1] == h[k + 1]);
                                    } else {
                                        assert(h2[k] == before);
                                    }
                                }
                                h = h2;
                            }
                        },
                    }
                },
            }
            i = i + 1;
        }
        Ok(())
    }

    /// Runs schema texts on peer `peer_id` as `apply_schema` does, when the
    /// parser can take every text and every DEFAULT they declare evaluates
    /// without overflow; otherwise leaves the host as it is and says which
    /// of the two failed (the parser first).
    pub fn try_apply_schema(&mut self, peer_id: &str, stmts: &[String]) -> (r: Result<Result<(), String>, SchemaRefusal>)
        ensures
            r == Err::<Result<(), String>, SchemaRefusal>(SchemaRefusal::ParserWouldPanic) <==> !texts_parseable(stmts@),
            r == Err::<Result<(), String>, SchemaRefusal>(SchemaRefusal::DefaultOverflows) <==> texts_parseable(stmts@)
                && !texts_defaults_safe(stmts@),
            r is Err ==> final(self)@ == old(self)@,
            r matches Ok(x) ==> schema_run(old(self)@, peer_id@, stmts@, final(self)@, x),
    {
        let mut k: usize = 0;
        while k < stmts.len()
            invariant
                k <= stmts@.len(),
                forall|a: int| 0 <= a < k ==> !parser_may_panic((#[trigger] stmts@[a])@),
            decreases stmts@.len() - k,
        {
            if may_panic_parser(stmts[k].as_str()) {
                return Err(SchemaRefusal::ParserWouldPanic);
            }
            k = k + 1;
        }
        let mut i: usize = 0;
        while i < stmts.len()
            invariant
                i <= stmts@.len(),
                texts_parseable(stmts@),
                forall|a: int| 0 <= a < i ==> (sql_parsed((#[trigger] stmts@[a])@) matches Ok(v) ==> stmts_defaults_safe(v)),
            decreases stmts@.len() - i,
        {
            match parse_sql(stmts[i].as_str()) {
                Ok(v) => {
                    if !stmts_safe(&v) {
                        return Err(SchemaRefusal::DefaultOverflows);
                    }
                },
                Err(_) => {},
            }
            i = i + 1;
        }
        Ok(self.apply_schema(peer_id, stmts))
    }

    /// Runs the schema statements on peer `peer_id`, in order, stopping at
    /// the first that fails.
    pub fn apply_parsed_schema(&mut self, peer_id: &str, stmts: &[SqlStatement]) -> (r: Result<(), String>)
        requires
            schema_defaults_safe(stmts@),
        ensures
            schema_applied(old(self)@, peer_id@, stmts@, final(self)@, r),
    {
        let key = peer_id.to_owned();
        let i = match self.peers.find(&key) {
            Some(i) => i,
            None => {
                return Err(missing(peer_id));
            },
        };
        let ghost old_peers = self.peers@;
        let mut peer = self.peers.replace_at(i, fresh(""));
        let ghost h0 = peer@;
        let ghost mid = self.peers@;
        let ghost ks = self.peers.key_seq();
        assert(h0 == old_peers[peer_id@]);
        let ghost mut h: Seq<PeerView> = seq![peer@];
        let mut j: usize = 0;
        while j < stmts.len()
            invariant
                j <= stmts@.len(),
                i < ks.len(),
                ks[i as int] == peer_id@,
                self.peers.key_seq() == ks,
                self.peers@ == mid,
                mid == old_peers.insert(peer_id@, mid[peer_id@]),
                old_peers.contains_key(peer_id@),
                old_peers == old(self)@,
                h0 == old_peers[peer_id@],
                schema_defaults_safe(stmts@),
                h.len() == j + 1,
                h[0] == h0,
                ddl_history(h, stmts@),
                h.last() == peer@,
            decreases stmts@.len() - j,
        {
            let ghost before = peer@;
            assert(schema_defaults_safe(stmts@));
            assert(stmts@[j as int].stmt matches Stmt::CreateTable(ct) ==> defaults_neg_safe(ct.columns@));
            match apply_ddl(&mut peer, &stmts[j].stmt) {
                Ok(()) => {
                    proof {
                        let h2 = h.push(peer@);
                        assert forall|k: int| 0 <= k < h2.len() - 1 implies ddl_done(h2[k], (#[trigger] stmts@[k]).stmt, h2[k + 1], None) by {
                            if k < h.len() - 1 {
                                assert(h2[k] == h[k] && h2[k + 1] == h[k + 1]);
                            } else {
                                assert(h2[k] == before);
                            }
                        }
                        h = h2;
                    }
                },
                Err(e) => {
                    let msg_e = e.message();
                    let mut m = String::from_str("schema error in '");
                    m.append(stmts[j].text.as_str());
                    m.append("': ");
                    m.append(msg_e.as_str());
                    let ghost pv = peer@;
                    let _ = self.peers.replace_at(i, peer);
                    proof {
                        assert(ddl_done(h.last(), stmts@[h.len() - 1].stmt, h.last(), Some(error_text(e))));
                        assert(self.peers@ == old_peers.insert(peer_id@, pv));
                        assert(self.peers@.dom() =~= old_peers.dom());
                        assert(ddl_history(h, stmts@) && same_peer(h[0], old_peers[peer_id@]));
                    }
                    return Err(m);
                },
            }
            j = j + 1;
        }
        let ghost pv = peer@;
        let _ = self.peers.replace_at(i, peer);
        proof {
            assert(self.peers@ == old_peers.insert(peer_id@, pv));
            assert(self.peers@.dom() =~= old_peers.dom());
            assert(ddl_history(h, stmts@) && same_peer(h[0], old_peers[peer_id@]));
        }
        Ok(())
    }


    /// Syncs peers `a` and `b` both ways: both deltas are extracted first,
    /// then `b` applies the delta from `a`, then `a` the delta from `b`; each
    /// rebuilds its indexes after the merge.
    pub fn sync(&mut self, peer_a_id: &str, peer_b_id: &str) -> (r: Result<(), String>)
        ensures
            !old(self)@.contains_key(peer_a_id@) ==> final(self)@ == old(self)@ && (r matches Err(m)
                && m@ == peer_missing(peer_a_id@)),
            old(self)@.contains_key(peer_a_id@) && !old(self)@.contains_key(peer_b_id@) ==> final(self)@
                == old(self)@ && (r matches Err(m) && m@ == peer_missing(peer_b_id@)),
            old(self)@.contains_key(peer_a_id@) && old(self)@.contains_key(peer_b_id@) ==> r is Ok
                && host_synced(old(self)@, peer_a_id@, peer_b_id@, final(self)@),
    {
        let ka = peer_a_id.to_owned();
        let kb = peer_b_id.to_owned();
        let ia = match self.peers.find(&ka) {
            Some(i) => i,
            None => {
                return Err(missing(peer_a_id));
            },
        };
        let ib = match self.peers.find(&kb) {
            Some(i) => i,
            None => {
                return Err(missing(peer_b_id));
            },
        };
        let ghost old_peers = self.peers@;
        let delta_for_b = extract_delta(&self.peers.value_at(ia).replica, &self.peers.value_at(ib).replica.frontier);
        let delta_for_a = extract_delta(&self.peers.value_at(ib).replica, &self.peers.value_at(ia).replica.frontier);
        proof {
            assert(old_peers[peer_a_id@] == self.peers.val_seq()[ia as int]);
            assert(old_peers[peer_b_id@] == self.peers.val_seq()[ib as int]);
        }
        let mut pb = self.peers.replace_at(ib, fresh(""));
        let ghost pb0 = pb@;
        assert(pb0 == old_peers[peer_b_id@]);
        let _ = apply_delta(&mut pb.replica, &delta_for_b);
        rebuild_all_tables(&mut pb);
        let ghost pb2 = pb@;
        let _ = self.peers.replace_at(ib, pb);
        let ghost mid = self.peers@;
        assert(mid == old_peers.insert(peer_b_id@, pb2));
        let _ = self.peers.len();
        let mut pa = self.peers.replace_at(ia, fresh(""));
        let ghost pa0 = pa@;
        assert(pa0 == mid[peer_a_id@]);
        let _ = apply_delta(&mut pa.replica, &delta_for_a);
        rebuild_all_tables(&mut pa);
        let ghost pa2 = pa@;
        let _ = self.peers.replace_at(ia, pa);
        assert(self.peers@ == mid.insert(peer_a_id@, pa2));
        assert(synced_into(pb0, delta_for_b@, pb2));
        assert(synced_into(pa0, delta_for_a@, pa2));
        assert(extracted(old_peers[peer_a_id@].replica, old_peers[peer_b_id@].replica.frontier@, delta_for_b@)
            && extracted(old_peers[peer_b_id@].replica, old_peers[peer_a_id@].replica.frontier@, delta_for_a@)
            && synced_into(old_peers[peer_b_id@], delta_for_b@, pb2)
            && synced_into(old_peers.insert(peer_b_id@, pb2)[peer_a_id@], delta_for_a@, pa2)
            && self.peers@ == old_peers.insert(peer_b_id@, pb2).insert(peer_a_id@, pa2));
        Ok(())
    }


    /// The snapshot hash of peer `peer_id`: its tables, the (table, row)
    /// pairs of its tombstones and the owners of its unique values.
    pub fn snapshot_hash(&self, peer_id: &str) -> (r: Result<String, String>)
        ensures
            !self@.contains_key(peer_id@) ==> (r matches Err(m) && m@ == peer_missing(peer_id@)),
            self@.contains_key(peer_id@) ==> (r matches Ok(h) && exists|ts: Seq<Tombstone>, cs: Seq<UniquenessClaim>|
                lists_tombstones(ts.map_values(|t: Tombstone| t@), self@[peer_id@].replica.tombstones@)
                    && lists_claims(cs.map_values(|c: UniquenessClaim| c@), self@[peer_id@].replica.uniqueness@)
                    && h@ == hex_digest(
                    full_stream(self@[peer_id@].replica.storage@, tomb_pairs(ts), claim_items(cs)),
                )),
    {
        proof {
            crate::order::lemma_str_laws();
        }
        let key = peer_id.to_owned();
        let p = match self.peers.get(&key) {
            Some(p) => p,
            None => {
                return Err(missing(peer_id));
            },
        };
        let replica = &p.replica;
        let names = replica.storage.table_names();
        let ghost st = replica.storage@;
        let ghost ns = names@.map_values(|x: String| x@);
        let mut tables: OrdMap<String, OrdMap<String, Row>> = OrdMap::new();
        let mut i: usize = 0;
        while i < names.len()
            invariant
                i <= names@.len(),
                ns == names@.map_values(|x: String| x@),
                st == replica.storage@,
                forall|a: int| 0 <= a < names@.len() ==> st.contains_key((#[trigger] names@[a])@),
                tables@ == Map::new(|k: Seq<char>| st.contains_key(k) && ns.take(i as int).contains(k), |k: Seq<char>| st[k]),
            decreases names@.len() - i,
        {
            let ghost t = names@[i as int]@;
            let ghost before = tables@;
            assert(st.contains_key(t));
            match replica.storage.snapshot_table(names[i].as_str()) {
                Some(rows) => {
                    let copy = rows.deep_copy();
                    tables.insert(names[i].clone(), copy);
                },
                None => {},
            }
            proof {
                assert(ns.take(i + 1) =~= ns.take(i as int).push(t));
                assert(ns[i as int] == t);
                assert forall|k: Seq<char>| ns.take(i + 1).contains(k) == (ns.take(i as int).contains(k) || k == t) by {
                    if ns.take(i + 1).contains(k) && k != t {
                        let q = choose|q: int| 0 <= q < i + 1 && #[trigger] ns.take(i + 1)[q] == k;
                        assert(ns.take(i as int)[q] == k);
                    }
                    if ns.take(i as int).contains(k) {
                        let q = choose|q: int| 0 <= q < i && #[trigger] ns.take(i as int)[q] == k;
                        assert(ns.take(i + 1)[q] == k);
                    }
                    if k == t {
                        assert(ns.take(i + 1)[i as int] == k);
                    }
                }
                assert(tables@ == before.insert(t, st[t]));
                let target = Map::new(|k: Seq<char>| st.contains_key(k) && ns.take(i + 1).contains(k), |k: Seq<char>| st[k]);
                assert forall|k: Seq<char>| #[trigger] tables@.contains_key(k) == target.contains_key(k) by {
                    if k != t {
                        assert(tables@.contains_key(k) == before.contains_key(k));
                        assert(before.contains_key(k) == (st.contains_key(k) && ns.take(i as int).contains(k)));
                        assert(ns.take(i + 1).contains(k) == ns.take(i as int).contains(k));
                    } else {
                        assert(ns.take(i + 1)[i as int] == t);
                        assert(ns.take(i + 1).contains(t));
                    }
                }
                assert forall|k: Seq<char>| #[trigger] tables@.contains_key(k) implies tables@[k] == target[k] by {
                    if k != t {
                        assert(tables@[k] == before[k]);
                    }
                }
                assert(tables@ =~= target);
            }
            i = i + 1;
        }
        proof {
            assert(ns.take(names@.len() as int) =~= ns);
            assert forall|k: Seq<char>| #[trigger] st.contains_key(k) implies ns.contains(k) by {
                let q = choose|q: int| 0 <= q < names@.len() && (#[trigger] names@[q])@ == k;
                assert(ns[q] == k);
            }
            assert(tables@ =~= st);
        }
        let tombstones = replica.tombstones.all();
        let claim_refs = replica.uniqueness.all_claims();
        let mut claims: Vec<UniquenessClaim> = Vec::new();
        let mut j: usize = 0;
        while j < claim_refs.len()
            invariant
                j <= claim_refs@.len(),
                claims@.len() == j,
                forall|q: int| 0 <= q < j ==> (#[trigger] claims@[q])@ == claim_refs@[q]@,
            decreases claim_refs@.len() - j,
        {
            claims.push(claim_refs[j].deep_copy());
            j = j + 1;
        }
        proof {
            let cv = claims@.map_values(|c: UniquenessClaim| c@);
            let m = replica.uniqueness@;
            assert(forall|q: int| 0 <= q < cv.len() ==> #[trigger] cv[q] == claim_refs@[q]@);
            assert forall|a: int, b: int| 0 <= a < b < cv.len() implies crate::order::triple_lt(
                crate::uniqueness::claim_key(#[trigger] cv[a]),
                crate::uniqueness::claim_key(#[trigger] cv[b]),
            ) by {
                assert(cv[a] == claim_refs@[a]@ && cv[b] == claim_refs@[b]@);
            }
            assert forall|a: int| 0 <= a < cv.len() implies m.contains_key(crate::uniqueness::claim_key(#[trigger] cv[a]))
                && m[crate::uniqueness::claim_key(cv[a])] == cv[a] by {
                assert(cv[a] == claim_refs@[a]@);
            }
            assert forall|k: crate::uniqueness::ClaimKey| #[trigger] m.contains_key(k) implies exists|a: int|
                0 <= a < cv.len() && crate::uniqueness::claim_key(#[trigger] cv[a]) == k by {
                let a = choose|a: int| 0 <= a < claim_refs@.len() && crate::uniqueness::claim_key((#[trigger] claim_refs@[a])@) == k;
                assert(cv[a] == claim_refs@[a]@);
            }
            assert(lists_claims(cv, m));
        }
        match SnapshotHasher::full_hash(&tables, tombstones.as_slice(), claims.as_slice()) {
            Ok(h) => {
                assert(self@[peer_id@].replica == *replica);
                assert(lists_tombstones(tombstones@.map_values(|t: Tombstone| t@), self@[peer_id@].replica.tombstones@)
                    && lists_claims(claims@.map_values(|c: UniquenessClaim| c@), self@[peer_id@].replica.uniqueness@)
                    && h@ == hex_digest(full_stream(self@[peer_id@].replica.storage@, tomb_pairs(tombstones@), claim_items(claims@))));
                Ok(h)
            },
            Err(e) => Err(e.message()),
        }
    }

    /// The snapshot state of peer `peer_id`: each table in name order with
    /// its shown rows in id order, each row its cells in column order as
    /// JSON. A visible row shows unless, for some unique value it holds,
    /// another row is that value's effective winner.
    pub fn snapshot_state(&self, peer_id: &str) -> (r: Result<Vec<TableState>, String>)
        ensures
            !self@.contains_key(peer_id@) ==> (r matches Err(m) && m@ == peer_missing(peer_id@)),
            self@.contains_key(peer_id@) ==> (r matches Ok(ts) && tables_state(ts@) == state_of(
                self@[peer_id@].replica,
            )),
    {
        let key = peer_id.to_owned();
        let p = match self.peers.get(&key) {
            Some(p) => p,
            None => {
                return Err(missing(peer_id));
            },
        };
        let replica = &p.replica;
        assert(self@[peer_id@].replica == *replica);
        let names = replica.storage.table_names();
        let ghost st = replica.storage@;
        let ghost nv = names@.map_values(|x: String| x@);
        let ghost g = |t: Seq<char>| (t, table_state(*replica, t));
        let mut out: Vec<TableState> = Vec::new();
        let mut i: usize = 0;
        while i < names.len()
            invariant
                i <= names@.len(),
                st == replica.storage@,
                nv == names@.map_values(|x: String| x@),
                g == (|t: Seq<char>| (t, table_state(*replica, t))),
                tables_state(out@) == nv.take(i as int).map_values(g),
            decreases names@.len() - i,
        {
            let schema = replica.schemas.get(names[i].as_str());
            assert(schema_opt(schema) == schema_of(replica.schemas@, nv[i as int]));
            let rows = table_state_of(replica, schema, names[i].as_str());
            let ghost before = out@;
            out.push(TableState { name: names[i].clone(), rows });
            proof {
                assert(nv.take(i + 1) =~= nv.take(i as int).push(nv[i as int]));
                assert(tables_state(out@) =~= tables_state(before).push((nv[i as int], rows_state(rows@))));
                assert(nv.take(i + 1).map_values(g) =~= nv.take(i as int).map_values(g).push(g(nv[i as int])));
            }
            i = i + 1;
        }
        proof {
            assert(nv.take(names@.len() as int) =~= nv);
            assert(crate::ordmap::strictly_sorted::<String>(nv)) by {
                assert forall|a: int, b: int| 0 <= a < b < nv.len() implies <String as crate::order::OrdKey>::key_lt(
                    #[trigger] nv[a],
                    #[trigger] nv[b],
                ) by {
                    assert(crate::order::str_lt(names@[a]@, names@[b]@));
                }
            }
            assert forall|t: Seq<char>| #[trigger] nv.to_set().contains(t) == st.dom().contains(t) by {
                if st.contains_key(t) {
                    let j = choose|j: int| 0 <= j < names@.len() && (#[trigger] names@[j])@ == t;
                    assert(nv[j] == t);
                }
                if nv.to_set().contains(t) {
                    let j = choose|j: int| 0 <= j < nv.len() && nv[j] == t;
                    assert(st.contains_key(names@[j]@));
                }
            }
            assert(nv.to_set() =~= st.dom());
            crate::ordmap::lemma_sorted_keys_of::<String>(nv, st.dom());
            assert(tables_state(out@) =~= state_of(*replica));
        }
        Ok(out)
    }

    /// Removes every peer.
    pub fn close(&mut self)
        ensures
            final(self)@ == PeersView::empty(),
    {
        self.peers = OrdMap::new();
    }
}

/// Logically equivalent replicas hash alike: replicas with the same tables,
/// the same rows that are not deleted with the same cell values (whatever
/// their deleted rows and versions), the same tombstoned rows (whatever the
/// tombstones' versions), and the same owner for every claimed value give
/// the same snapshot hash, reading tombstones and claims in key order as
/// `snapshot_hash` does.
pub proof fn law_equivalent_replicas_hash_alike(
    r1: ReplicaState,
    r2: ReplicaState,
    ts1: Seq<Tombstone>,
    ts2: Seq<Tombstone>,
    cs1: Seq<UniquenessClaim>,
    cs2: Seq<UniquenessClaim>,
)
    requires
        visible_content(r1.storage@) == visible_content(r2.storage@),
        r1.tombstones@.dom() == r2.tombstones@.dom(),
        same_owner_rows(r1.uniqueness@, r2.uniqueness@),
        lists_tombstones(ts1.map_values(|t: Tombstone| t@), r1.tombstones@),
        lists_tombstones(ts2.map_values(|t: Tombstone| t@), r2.tombstones@),
        lists_claims(cs1.map_values(|c: UniquenessClaim| c@), r1.uniqueness@),
        lists_claims(cs2.map_values(|c: UniquenessClaim| c@), r2.uniqueness@),
    ensures
        hex_digest(full_stream(r1.storage@, tomb_pairs(ts1), claim_items(cs1))) == hex_digest(
            full_stream(r2.storage@, tomb_pairs(ts2), claim_items(cs2)),
        ),
{
    r1.storage.lemma_tables_finite();
    r2.storage.lemma_tables_finite();
    law_tables_stream_visible_only(r1.storage@, r2.storage@);
    let v1 = ts1.map_values(|t: Tombstone| t@);
    let v2 = ts2.map_values(|t: Tombstone| t@);
    lemma_tombstone_listing_keys(v1, v2, r1.tombstones@, r2.tombstones@);
    assert(ts1.len() == v1.len() && ts2.len() == v2.len());
    assert forall|i: int| 0 <= i < ts1.len() implies #[trigger] tomb_pairs(ts1)[i] == tomb_pairs(ts2)[i] by {
        assert(crate::tombstone::tombstone_key(v1[i]) == crate::tombstone::tombstone_key(v2[i]));
    }
    assert(tomb_pairs(ts1) =~= tomb_pairs(ts2));
    let w1 = cs1.map_values(|c: UniquenessClaim| c@);
    let w2 = cs2.map_values(|c: UniquenessClaim| c@);
    lemma_claim_listings_match(w1, w2, r1.uniqueness@, r2.uniqueness@);
    assert forall|i: int| 0 <= i < cs1.len() implies #[trigger] claim_items(cs1)[i] == claim_items(cs2)[i] by {
        assert(claim_key(w1[i]) == claim_key(w2[i]) && w1[i].owner_row == w2[i].owner_row);
    }
    assert(claim_items(cs1) =~= claim_items(cs2));
}

/// Syncing two peers makes their snapshot hashes agree. When the replicas of
/// peers `a` and `b` are ready to converge (or `a` is `b`), then after
/// `sync`, hashing either peer as `snapshot_hash` does (its tables, then its
/// tombstones and its claims each read in key order) gives the same digest.
pub proof fn law_sync_same_snapshot_hash(
    before: PeersView,
    after: PeersView,
    a: Seq<char>,
    b: Seq<char>,
    ts1: Seq<Tombstone>,
    ts2: Seq<Tombstone>,
    cs1: Seq<UniquenessClaim>,
    cs2: Seq<UniquenessClaim>,
)
    requires
        host_synced(before, a, b, after),
        a != b ==> ready_to_converge(before[a].replica, before[b].replica),
        lists_tombstones(ts1.map_values(|t: Tombstone| t@), after[a].replica.tombstones@),
        lists_tombstones(ts2.map_values(|t: Tombstone| t@), after[b].replica.tombstones@),
        lists_claims(cs1.map_values(|c: UniquenessClaim| c@), after[a].replica.uniqueness@),
        lists_claims(cs2.map_values(|c: UniquenessClaim| c@), after[b].replica.uniqueness@),
    ensures
        hex_digest(full_stream(after[a].replica.storage@, tomb_pairs(ts1), claim_items(cs1))) == hex_digest(
            full_stream(after[b].replica.storage@, tomb_pairs(ts2), claim_items(cs2)),
        ),
{
    let (for_b, for_a, pb2, pa2) = choose|
        for_b: crate::types::SyncDeltaView,
        for_a: crate::types::SyncDeltaView,
        pb2: PeerView,
        pa2: PeerView,
    |
        extracted(before[a].replica, before[b].replica.frontier@, for_b) && extracted(
            before[b].replica,
            before[a].replica.frontier@,
            for_a,
        ) && synced_into(before[b], for_b, pb2) && synced_into(before.insert(b, pb2)[a], for_a, pa2) && after
            == before.insert(b, pb2).insert(a, pa2);
    if a != b {
        assert(before.insert(b, pb2)[a] == before[a]);
        assert(after[a] == pa2 && after[b] == pb2);
        let q = for_b.rows.len() == 0 && for_b.tombstones.len() == 0 && for_a.rows.len() == 0
            && for_a.tombstones.len() == 0;
        assert(session_round(before[a].replica, before[b].replica, pa2.replica, pb2.replica, q));
        law_session_round_same_hash(
            before[a].replica,
            before[b].replica,
            pa2.replica,
            pb2.replica,
            q,
            ts1,
            ts2,
            cs1,
            cs2,
        );
    } else {
        let m = after[a].replica;
        let v1 = ts1.map_values(|t: Tombstone| t@);
        let v2 = ts2.map_values(|t: Tombstone| t@);
        lemma_tombstone_listing_unique(v1, v2, m.tombstones@);
        assert(ts1.len() == v1.len() && ts2.len() == v2.len());
        assert forall|i: int| 0 <= i < ts1.len() implies #[trigger] tomb_pairs(ts1)[i] == tomb_pairs(ts2)[i] by {
            assert(v1[i] == v2[i]);
        }
        assert(tomb_pairs(ts1) =~= tomb_pairs(ts2));
        let w1 = cs1.map_values(|c: UniquenessClaim| c@);
        let w2 = cs2.map_values(|c: UniquenessClaim| c@);
        assert(same_owner_rows(m.uniqueness@, m.uniqueness@));
        lemma_claim_listings_match(w1, w2, m.uniqueness@, m.uniqueness@);
        assert forall|i: int| 0 <= i < cs1.len() implies #[trigger] claim_items(cs1)[i] == claim_items(cs2)[i] by {
            assert(claim_key(w1[i]) == claim_key(w2[i]) && w1[i].owner_row == w2[i].owner_row);
        }
        assert(claim_items(cs1) =~= claim_items(cs2));
    }
}

// ---------------------------------------------------------- snapshot state

/// A row of a snapshot state: its cells in column order, each as JSON.
pub open spec fn row_state(r: RowView) -> Seq<(Seq<char>, JsonCellView)> {
    sorted_keys::<String>(r.cells.dom()).map_values(|c: Seq<char>| (c, cell_json(r.cells[c].value)))
}

/// The rows of table `t` that are not deleted.
pub open spec fn visible_of(st: Map<Seq<char>, Map<Seq<char>, RowView>>, t: Seq<char>) -> Map<Seq<char>, RowView> {
    table_rows(st, t).restrict(Set::new(|k: Seq<char>| !table_rows(st, t)[k].deleted))
}

/// The rows of table `t` that show in a snapshot state: the visible rows
/// that may show each unique value they hold.
pub open spec fn shown_of(rep: ReplicaState, t: Seq<char>) -> Map<Seq<char>, RowView> {
    visible_of(rep.storage@, t).restrict(
        Set::new(
            |k: Seq<char>|
                row_shown(
                    rep.uniqueness@,
                    rep.storage@,
                    schema_of(rep.schemas@, t),
                    t,
                    visible_of(rep.storage@, t)[k],
                ),
        ),
    )
}

/// A table of a snapshot state: its shown rows, in id order.
pub open spec fn table_state(rep: ReplicaState, t: Seq<char>) -> Seq<Seq<(Seq<char>, JsonCellView)>> {
    sorted_keys::<String>(shown_of(rep, t).dom()).map_values(|k: Seq<char>| row_state(shown_of(rep, t)[k]))
}

/// The snapshot state of a replica: each table, in name order, with its
/// state.
pub open spec fn state_of(rep: ReplicaState) -> Seq<(Seq<char>, Seq<Seq<(Seq<char>, JsonCellView)>>)> {
    sorted_keys::<String>(rep.storage@.dom()).map_values(|t: Seq<char>| (t, table_state(rep, t)))
}

/// Column `c` is unique but not the primary key, and row `r` holds a value
/// other than NULL in it.
pub open spec fn unique_value_in(c: ColumnSchema, r: RowView) -> bool {
    &&& c.unique
    &&& !c.primary_key
    &&& r.cells.contains_key(c.name@)
    &&& r.cells[c.name@].value != ValueView::Null
}

/// The schema of table `t`, if there is one.
pub open spec fn schema_of(m: Map<Seq<char>, TableSchema>, t: Seq<char>) -> Option<TableSchema> {
    if m.contains_key(t) {
        Some(m[t])
    } else {
        None
    }
}

/// One table of a snapshot state.
pub struct TableState {
    pub name: String,
    pub rows: Vec<Vec<(String, JsonCell)>>,
}

pub open spec fn cells_state(r: Seq<(String, JsonCell)>) -> Seq<(Seq<char>, JsonCellView)> {
    r.map_values(|p: (String, JsonCell)| (p.0@, p.1@))
}

pub open spec fn rows_state(rs: Seq<Vec<(String, JsonCell)>>) -> Seq<Seq<(Seq<char>, JsonCellView)>> {
    rs.map_values(|r: Vec<(String, JsonCell)>| cells_state(r@))
}

pub open spec fn tables_state(ts: Seq<TableState>) -> Seq<(Seq<char>, Seq<Seq<(Seq<char>, JsonCellView)>>)> {
    ts.map_values(|t: TableState| (t.name@, rows_state(t.rows@)))
}

/// The cells of a row, in column order, each as JSON.
fn row_cells_state(row: &Row) -> (r: Vec<(String, JsonCell)>)
    ensures
        cells_state(r@) == row_state(row@),
{
    let n = row.cells.len();
    let ghost ks = row.cells.key_seq();
    let ghost f = |c: Seq<char>| (c, cell_json(row@.cells[c].value));
    let mut out: Vec<(String, JsonCell)> = Vec::new();
    let mut i: usize = 0;
    while i < n
        invariant
            n == ks.len(),
            ks == row.cells.key_seq(),
            row.cells.shape(),
            i <= n,
            f == (|c: Seq<char>| (c, cell_json(row@.cells[c].value))),
            cells_state(out@) == ks.take(i as int).map_values(f),
        decreases n - i,
    {
        let k = row.cells.key_at(i);
        let c = row.cells.value_at(i);
        let j = value_to_json(&c.value);
        let ghost before = out@;
        out.push((k.clone(), j));
        proof {
            assert(row@.cells[ks[i as int]] == c@);
            assert(ks.take(i + 1) =~= ks.take(i as int).push(ks[i as int]));
            assert(cells_state(out@) =~= cells_state(before).push((k@, j@)));
            assert(ks.take(i + 1).map_values(f) =~= ks.take(i as int).map_values(f).push(f(ks[i as int])));
        }
        i = i + 1;
    }
    proof {
        assert(ks.take(n as int) =~= ks);
        crate::ordmap::lemma_sorted_keys_of::<String>(ks, row@.cells.dom());
    }
    out
}

pub open spec fn schema_opt(s: Option<&TableSchema>) -> Option<TableSchema> {
    match s {
        Some(x) => Some(*x),
        None => None,
    }
}

/// The state of one table: its shown rows, in id order.
#[verifier::rlimit(40)]
fn table_state_of(rep: &ReplicaState, schema: Option<&TableSchema>, name: &str) -> (r: Vec<
    Vec<(String, JsonCell)>,
>)
    requires
        schema_opt(schema) == schema_of(rep.schemas@, name@),
    ensures
        rows_state(r@) == table_state(*rep, name@),
{
    let rows = rep.storage.visible_rows(name);
    let ghost vis = visible_of(rep.storage@, name@);
    let ghost shown = shown_of(*rep, name@);
    let ghost rv = row_views(rows@);
    let ghost p = |r: RowView| row_shown(rep.uniqueness@, rep.storage@, schema_of(rep.schemas@, name@), name@, r);
    assert(lists_rows(rv, vis));
    let mut out: Vec<Vec<(String, JsonCell)>> = Vec::new();
    let ghost mut sel: Seq<int> = Seq::empty();
    let mut i: usize = 0;
    while i < rows.len()
        invariant
            i <= rows@.len(),
            rv == row_views(rows@),
            p == (|r: RowView| row_shown(rep.uniqueness@, rep.storage@, schema_of(rep.schemas@, name@), name@, r)),
            schema_opt(schema) == schema_of(rep.schemas@, name@),
            out@.len() == sel.len(),
            forall|m: int| 0 <= m < sel.len() ==> 0 <= #[trigger] sel[m] < i && p(rv[sel[m]]),
            forall|m: int| 0 <= m < sel.len() ==> cells_state(#[trigger] out@[m]@) == row_state(rv[sel[m]]),
            forall|a: int, b: int| 0 <= a < b < sel.len() ==> #[trigger] sel[a] < #[trigger] sel[b],
            forall|j: int| 0 <= j < i && #[trigger] p(rv[j]) ==> sel.contains(j),
        decreases rows@.len() - i,
    {
        assert(rv[i as int] == rows@[i as int]@);
        let keep = crate::winner::row_is_shown(&rep.uniqueness, &rep.storage, schema, name, rows[i]);
        if keep {
            let cells = row_cells_state(rows[i]);
            let ghost before = out@;
            let ghost sel0 = sel;
            out.push(cells);
            proof {
                sel = sel.push(i as int);
                assert forall|m: int| 0 <= m < sel.len() implies cells_state(#[trigger] out@[m]@) == row_state(rv[sel[m]]) by {
                    if m < sel0.len() {
                        assert(out@[m] == before[m] && sel[m] == sel0[m]);
                    }
                }
                assert forall|j: int| 0 <= j < i + 1 && #[trigger] p(rv[j]) implies sel.contains(j) by {
                    if j < i {
                        let m = choose|m: int| 0 <= m < sel0.len() && sel0[m] == j;
                        assert(sel[m] == j);
                    } else {
                        assert(sel[sel.len() - 1] == j);
                    }
                }
            }
        }
        i = i + 1;
    }
    proof {
        let ks = sel.map_values(|j: int| rv[j]);
        let ids = ks.map_values(|r: RowView| r.id);
        assert(crate::ordmap::strictly_sorted::<String>(ids)) by {
            assert forall|a: int, b: int| 0 <= a < b < ids.len() implies <String as crate::order::OrdKey>::key_lt(
                #[trigger] ids[a],
                #[trigger] ids[b],
            ) by {
                assert(sel[a] < sel[b]);
                assert(crate::order::str_lt(rv[sel[a]].id, rv[sel[b]].id));
            }
        }
        assert forall|m: int| 0 <= m < ks.len() implies shown.contains_key(#[trigger] ks[m].id) && shown[ks[m].id] == ks[m] by {
            let j = sel[m];
            assert(vis.contains_key(rv[j].id) && vis[rv[j].id] == rv[j]);
            assert(p(rv[j]));
        }
        assert forall|k: Seq<char>| #[trigger] ids.to_set().contains(k) == shown.dom().contains(k) by {
            if shown.contains_key(k) {
                let j = choose|j: int| 0 <= j < rv.len() && (#[trigger] rv[j]).id == k;
                assert(vis[rv[j].id] == rv[j]);
                assert(p(rv[j]));
                assert(sel.contains(j));
                let m = choose|m: int| 0 <= m < sel.len() && sel[m] == j;
                assert(ids[m] == k);
            }
            if ids.to_set().contains(k) {
                let m = choose|m: int| 0 <= m < ids.len() && ids[m] == k;
                assert(shown.contains_key(ks[m].id));
            }
        }
        assert(ids.to_set() =~= shown.dom());
        crate::ordmap::lemma_sorted_keys_of::<String>(ids, shown.dom());
        let lhs = rows_state(out@);
        let rhs = table_state(*rep, name@);
        assert forall|m: int| 0 <= m < out@.len() implies #[trigger] lhs[m] == rhs[m] by {
            assert(shown[ids[m]] == ks[m]);
            assert(lhs[m] == cells_state(out@[m]@));
        }
        assert(lhs =~= rhs);
    }
    out
}

/// Two peers have the same indexes defined: the same tables, the same index
/// names on each, and each index over the same definition.
pub open spec fn same_index_defs(i1: IndexesView, i2: IndexesView) -> bool {
    &&& i1.dom() == i2.dom()
    &&& forall|t: Seq<char>| #[trigger] i1.contains_key(t) ==> i1[t].dom() == i2[t].dom()
    &&& forall|t: Seq<char>, n: Seq<char>|
        #![trigger i1[t][n]]
        i1.contains_key(t) && i1[t].contains_key(n) ==> i1[t][n].def == i2[t][n].def
}

/// Indexes converge with the rows they are built from: when peers `a` and
/// `b` are ready to converge, have the same indexes defined, and index only
/// tables they hold, then after `sync` both have the same indexes.
pub proof fn law_sync_same_indexes(before: PeersView, after: PeersView, a: Seq<char>, b: Seq<char>)
    requires
        a != b,
        host_synced(before, a, b, after),
        ready_to_converge(before[a].replica, before[b].replica),
        same_index_defs(before[a].indexes, before[b].indexes),
        forall|t: Seq<char>| #[trigger] before[a].indexes.contains_key(t) ==> before[a].replica.storage@.contains_key(t),
    ensures
        after[a].indexes == after[b].indexes,
{
    let (for_b, for_a, pb2, pa2) = choose|
        for_b: crate::types::SyncDeltaView,
        for_a: crate::types::SyncDeltaView,
        pb2: PeerView,
        pa2: PeerView,
    |
        extracted(before[a].replica, before[b].replica.frontier@, for_b) && extracted(
            before[b].replica,
            before[a].replica.frontier@,
            for_a,
        ) && synced_into(before[b], for_b, pb2) && synced_into(before.insert(b, pb2)[a], for_a, pa2) && after
            == before.insert(b, pb2).insert(a, pa2);
    assert(before.insert(b, pb2)[a] == before[a]);
    assert(after[a] == pa2 && after[b] == pb2);
    let q = for_b.rows.len() == 0 && for_b.tombstones.len() == 0 && for_a.rows.len() == 0
        && for_a.tombstones.len() == 0;
    assert(session_round(before[a].replica, before[b].replica, pa2.replica, pb2.replica, q));
    law_session_round_converges(before[a].replica, before[b].replica, pa2.replica, pb2.replica, q);
    lemma_round_keeps_tables(before[a].replica, before[b].replica, pa2.replica, pb2.replica, q);
    let st = pa2.replica.storage@;
    let i1 = before[a].indexes;
    let i2 = before[b].indexes;
    let r1 = rebuilt_all(i1, st);
    let r2 = rebuilt_all(i2, st);
    assert forall|t: Seq<char>| #[trigger] r1.contains_key(t) implies r1[t] =~= r2[t] by {
        assert(st.contains_key(t));
        assert forall|n: Seq<char>| #[trigger] r1[t].contains_key(n) implies r1[t][n] == r2[t][n] by {
            assert(i1[t][n].def == i2[t][n].def);
        }
    }
    assert(r1 =~= r2);
}

} // verus!
