//! Snapshot hashes: BLAKE3 digests, hex-encoded, of canonical byte streams
//! of a replica's semantic state.
//!
//! The streams hold tables by name, rows by id, columns by name (all in
//! string order), tombstones by (table, row), and uniqueness claims by
//! (table, column, value) with their owner. Versions and clock metadata
//! never enter a stream, so replicas that reached the same state in another
//! order of syncs hash alike.
use vstd::prelude::*;
use vstd::utf8::{
    encode_utf8, encode_scalar, has_width_1_encoding, leading_byte_width_1, leading_byte_width_2, leading_byte_width_3,
    leading_byte_width_4, last_continuation_byte, second_last_continuation_byte, third_last_continuation_byte,
};
use crate::error::CrdtResult;
use crate::ordmap::{OrdMap, sorted_keys, lemma_sorted_keys_of, lemma_sorted_keys_finite};
use crate::order::OrdKey;
use crate::types::{Cell, CellView, Row, RowView, Tombstone, UniquenessClaim, Value, ValueView};
use crate::utils::{blake3_hash, hash_to_hex, blake3_digest, hex_lower};

verus! {

// --------------------------------------------------------------- bytes

/// The UTF-8 bytes of a string.
pub open spec fn str_bytes(s: Seq<char>) -> Seq<u8> {
    encode_utf8(s)
}

/// The decimal digits of `n`, in ASCII.
pub open spec fn digit_bytes(n: nat) -> Seq<u8>
    decreases n,
{
    if n < 10 {
        seq![(48 + n) as u8]
    } else {
        digit_bytes(n / 10) + seq![(48 + n % 10) as u8]
    }
}

/// The decimal form of `n` in ASCII, with a leading `-` when negative.
pub open spec fn decimal_bytes(n: int) -> Seq<u8> {
    if n < 0 {
        seq![45u8] + digit_bytes((-n) as nat)
    } else {
        digit_bytes(n as nat)
    }
}

/// The canonical bytes of a value: a tag (`N`, `I`, `T`, `B`), then the
/// decimal integer, the UTF-8 text or the raw blob.
pub open spec fn value_bytes(v: ValueView) -> Seq<u8> {
    match v {
        ValueView::Null => seq![78u8],
        ValueView::Integer(n) => seq![73u8] + decimal_bytes(n as int),
        ValueView::Text(s) => seq![84u8] + str_bytes(s),
        ValueView::Blob(b) => seq![66u8] + b,
    }
}

fn push_bytes(out: &mut Vec<u8>, b: &[u8])
    ensures
        final(out)@ == old(out)@ + b@,
{
    let ghost start = out@;
    let mut i: usize = 0;
    while i < b.len()
        invariant
            i <= b@.len(),
            out@ == start + b@.take(i as int),
        decreases b@.len() - i,
    {
        out.push(b[i]);
        assert(b@.take(i + 1) =~= b@.take(i as int).push(b@[i as int]));
        i = i + 1;
    }
    assert(b@.take(b@.len() as int) =~= b@);
}

fn push_str(out: &mut Vec<u8>, s: &str)
    ensures
        final(out)@ == old(out)@ + str_bytes(s@),
{
    push_bytes(out, s.as_bytes());
}

fn push_digits(out: &mut Vec<u8>, n: u64)
    ensures
        final(out)@ == old(out)@ + digit_bytes(n as nat),
    decreases n,
{
    if n >= 10 {
        push_digits(out, n / 10);
        out.push((48 + n % 10) as u8);
    } else {
        out.push((48 + n) as u8);
    }
}

/// The canonical bytes of a value.
pub fn canonical_value_bytes(value: &Value) -> (r: Vec<u8>)
    ensures
        r@ == value_bytes(value@),
{
    let mut out: Vec<u8> = Vec::new();
    match value {
        Value::Null => {
            out.push(78u8);
        },
        Value::Integer(n) => {
            out.push(73u8);
            if *n < 0 {
                out.push(45u8);
                let mag: u64 = if *n == i64::MIN {
                    9223372036854775808u64
                } else {
                    (0 - *n) as u64
                };
                push_digits(&mut out, mag);
            } else {
                push_digits(&mut out, *n as u64);
            }
        },
        Value::Text(s) => {
            out.push(84u8);
            push_str(&mut out, s.as_str());
        },
        Value::Blob(b) => {
            out.push(66u8);
            push_bytes(&mut out, b.as_slice());
        },
    }
    out
}

// -------------------------------------------------------------- tables

/// The stream of a row's cells under the column names `ks`: each name,
/// `\x02`, the value's bytes, `\x03`.
pub open spec fn cells_bytes(ks: Seq<Seq<char>>, cells: Map<Seq<char>, CellView>) -> Seq<u8>
    decreases ks.len(),
{
    if ks.len() == 0 {
        Seq::empty()
    } else {
        cells_bytes(ks.drop_last(), cells) + str_bytes(ks.last()) + seq![2u8] + value_bytes(
            cells[ks.last()].value,
        ) + seq![3u8]
    }
}

/// The stream of one row: nothing for a deleted row; else its id, `\x01`,
/// its cells in column order, `\x04`.
pub open spec fn row_bytes(id: Seq<char>, row: RowView) -> Seq<u8> {
    if row.deleted {
        Seq::empty()
    } else {
        str_bytes(id) + seq![1u8] + cells_bytes(sorted_keys::<String>(row.cells.dom()), row.cells)
            + seq![4u8]
    }
}

/// The stream of the rows under the ids `ks`.
pub open spec fn rows_bytes(ks: Seq<Seq<char>>, rows: Map<Seq<char>, RowView>) -> Seq<u8>
    decreases ks.len(),
{
    if ks.len() == 0 {
        Seq::empty()
    } else {
        rows_bytes(ks.drop_last(), rows) + row_bytes(ks.last(), rows[ks.last()])
    }
}

/// The stream of the tables under the names `ks`: each name, `\x00`, its
/// rows in id order, `\x05`.
pub open spec fn tables_bytes(
    ks: Seq<Seq<char>>,
    tables: Map<Seq<char>, Map<Seq<char>, RowView>>,
) -> Seq<u8>
    decreases ks.len(),
{
    if ks.len() == 0 {
        Seq::empty()
    } else {
        tables_bytes(ks.drop_last(), tables) + str_bytes(ks.last()) + seq![0u8] + rows_bytes(
            sorted_keys::<String>(tables[ks.last()].dom()),
            tables[ks.last()],
        ) + seq![5u8]
    }
}

/// The stream of all tables, in name order.
pub open spec fn tables_stream(tables: Map<Seq<char>, Map<Seq<char>, RowView>>) -> Seq<u8> {
    tables_bytes(sorted_keys::<String>(tables.dom()), tables)
}

fn push_cells(out: &mut Vec<u8>, cells: &OrdMap<String, Cell>)
    ensures
        final(out)@ == old(out)@ + cells_bytes(sorted_keys::<String>(cells@.dom()), cells@),
{
    let n = cells.len();
    proof {
        lemma_sorted_keys_of::<String>(cells.key_seq(), cells@.dom());
    }
    let ghost ks = cells.key_seq();
    let ghost start = out@;
    let mut i: usize = 0;
    while i < n
        invariant
            n == ks.len(),
            ks == cells.key_seq(),
            cells.shape(),
            i <= n,
            out@ == start + cells_bytes(ks.take(i as int), cells@),
        decreases n - i,
    {
        let name = cells.key_at(i);
        let cell = cells.value_at(i);
        push_str(out, name.as_str());
        out.push(2u8);
        let vb = canonical_value_bytes(&cell.value);
        push_bytes(out, vb.as_slice());
        out.push(3u8);
        proof {
            assert(cells@[ks[i as int]] == cells.val_seq()[i as int]);
            assert(ks.take(i + 1).drop_last() =~= ks.take(i as int));
            assert(ks.take(i + 1).last() == ks[i as int]);
        }
        i = i + 1;
    }
    assert(ks.take(n as int) =~= ks);
}

fn push_rows(out: &mut Vec<u8>, rows: &OrdMap<String, Row>)
    ensures
        final(out)@ == old(out)@ + rows_bytes(sorted_keys::<String>(rows@.dom()), rows@),
{
    let n = rows.len();
    proof {
        lemma_sorted_keys_of::<String>(rows.key_seq(), rows@.dom());
    }
    let ghost ks = rows.key_seq();
    let ghost start = out@;
    let mut i: usize = 0;
    while i < n
        invariant
            n == ks.len(),
            ks == rows.key_seq(),
            rows.shape(),
            i <= n,
            out@ == start + rows_bytes(ks.take(i as int), rows@),
        decreases n - i,
    {
        let id = rows.key_at(i);
        let row = rows.value_at(i);
        let ghost before = out@;
        if row.is_visible() {
            push_str(out, id.as_str());
            out.push(1u8);
            push_cells(out, &row.cells);
            out.push(4u8);
        }
        proof {
            assert(rows@[ks[i as int]] == rows.val_seq()[i as int]);
            assert(ks.take(i + 1).drop_last() =~= ks.take(i as int));
            assert(ks.take(i + 1).last() == ks[i as int]);
            assert(out@ == before + row_bytes(ks[i as int], rows@[ks[i as int]]));
        }
        i = i + 1;
    }
    assert(ks.take(n as int) =~= ks);
}

/// The stream of all tables, built.
fn tables_stream_bytes(tables: &OrdMap<String, OrdMap<String, Row>>) -> (r: Vec<u8>)
    ensures
        r@ == tables_stream(tables@),
{
    let n = tables.len();
    proof {
        lemma_sorted_keys_of::<String>(tables.key_seq(), tables@.dom());
    }
    let ghost ks = tables.key_seq();
    let mut out: Vec<u8> = Vec::new();
    let mut i: usize = 0;
    while i < n
        invariant
            n == ks.len(),
            ks == tables.key_seq(),
            tables.shape(),
            i <= n,
            out@ == tables_bytes(ks.take(i as int), tables@),
        decreases n - i,
    {
        let name = tables.key_at(i);
        let rows = tables.value_at(i);
        push_str(&mut out, name.as_str());
        out.push(0u8);
        push_rows(&mut out, rows);
        out.push(5u8);
        proof {
            assert(tables@[ks[i as int]] == tables.val_seq()[i as int]);
            assert(ks.take(i + 1).drop_last() =~= ks.take(i as int));
            assert(ks.take(i + 1).last() == ks[i as int]);
        }
        i = i + 1;
    }
    assert(ks.take(n as int) =~= ks);
    out
}

// ---------------------------------------------------- stable key order

/// The items whose key is `k`.
pub open spec fn key_is<T, K>(key: spec_fn(T) -> K, k: K) -> spec_fn(T) -> bool {
    |t: T| key(t) == k
}

/// The items of `items` grouped by the keys of `ks`, in that order; within
/// a group, in the order of `items`.
pub open spec fn grouped<T, K>(ks: Seq<K>, items: Seq<T>, key: spec_fn(T) -> K) -> Seq<T>
    decreases ks.len(),
{
    if ks.len() == 0 {
        Seq::empty()
    } else {
        grouped(ks.drop_last(), items, key) + items.filter(key_is(key, ks.last()))
    }
}

/// `items` in increasing key order, items with equal keys in their given
/// order: what a stable sort by key gives.
pub open spec fn stable_order<K: OrdKey, T>(items: Seq<T>, key: spec_fn(T) -> K::V) -> Seq<T> {
    grouped(sorted_keys::<K>(items.map_values(key).to_set()), items, key)
}

// ---------------------------------------------------------- tombstones

pub type TombPair = (Seq<char>, Seq<char>);

/// A tombstone's (table, row) pair; its version is left out.
pub open spec fn tomb_pairs(ts: Seq<Tombstone>) -> Seq<TombPair> {
    ts.map_values(|t: Tombstone| (t.table_id@, t.row_id@))
}

/// Tombstones are ordered by their (table, row) pair itself.
pub open spec fn tomb_key() -> spec_fn(TombPair) -> TombPair {
    |p: TombPair| p
}

/// The stream of tombstone pairs: table, `\x06`, row, `\x07`, each.
pub open spec fn pairs_bytes(ps: Seq<TombPair>) -> Seq<u8>
    decreases ps.len(),
{
    if ps.len() == 0 {
        Seq::empty()
    } else {
        pairs_bytes(ps.drop_last()) + str_bytes(ps.last().0) + seq![6u8] + str_bytes(ps.last().1)
            + seq![7u8]
    }
}

/// The tombstone stream: the pairs in (table, row) order.
pub open spec fn tombstone_stream(ps: Seq<TombPair>) -> Seq<u8> {
    pairs_bytes(stable_order::<(String, String), TombPair>(ps, tomb_key()))
}

proof fn lemma_pairs_bytes_concat(a: Seq<TombPair>, b: Seq<TombPair>)
    ensures
        pairs_bytes(a + b) == pairs_bytes(a) + pairs_bytes(b),
    decreases b.len(),
{
    if b.len() == 0 {
        assert(a + b =~= a);
    } else {
        lemma_pairs_bytes_concat(a, b.drop_last());
        assert((a + b).drop_last() =~= a + b.drop_last());
    }
}

// -------------------------------------------------------------- claims

pub type ClaimItem = (Seq<char>, Seq<char>, Seq<char>, Seq<char>);

/// A claim's (table, column, value, owner); version and losers left out.
pub open spec fn claim_items(cs: Seq<UniquenessClaim>) -> Seq<ClaimItem> {
    cs.map_values(|c: UniquenessClaim| (c.table_id@, c.column_id@, c.value@, c.owner_row@))
}

/// Claims are ordered by (table, column, value).
pub open spec fn claim_key() -> spec_fn(ClaimItem) -> (Seq<char>, Seq<char>, Seq<char>) {
    |c: ClaimItem| (c.0, c.1, c.2)
}

/// The stream of claims: table, `\x08`, column, `\x09`, value, `\x0A`,
/// owner, `\x0B`, each.
pub open spec fn items_bytes(cs: Seq<ClaimItem>) -> Seq<u8>
    decreases cs.len(),
{
    if cs.len() == 0 {
        Seq::empty()
    } else {
        let c = cs.last();
        items_bytes(cs.drop_last()) + str_bytes(c.0) + seq![8u8] + str_bytes(c.1) + seq![9u8]
            + str_bytes(c.2) + seq![10u8] + str_bytes(c.3) + seq![11u8]
    }
}

/// The uniqueness stream: the claims in (table, column, value) order.
pub open spec fn uniqueness_stream(cs: Seq<ClaimItem>) -> Seq<u8> {
    items_bytes(stable_order::<(String, String, String), ClaimItem>(cs, claim_key()))
}

proof fn lemma_items_bytes_concat(a: Seq<ClaimItem>, b: Seq<ClaimItem>)
    ensures
        items_bytes(a + b) == items_bytes(a) + items_bytes(b),
    decreases b.len(),
{
    if b.len() == 0 {
        assert(a + b =~= a);
    } else {
        lemma_items_bytes_concat(a, b.drop_last());
        assert((a + b).drop_last() =~= a + b.drop_last());
    }
}

/// The hex digest of a stream.
pub open spec fn hex_digest(stream: Seq<u8>) -> Seq<char> {
    hex_lower(blake3_digest(stream))
}

/// The full snapshot stream: the three hex digests, one after the other.
pub open spec fn full_stream(
    tables: Map<Seq<char>, Map<Seq<char>, RowView>>,
    ps: Seq<TombPair>,
    cs: Seq<ClaimItem>,
) -> Seq<u8> {
    str_bytes(hex_digest(tables_stream(tables))) + str_bytes(hex_digest(tombstone_stream(ps)))
        + str_bytes(hex_digest(uniqueness_stream(cs)))
}

/// Snapshot hashing over tables, tombstones and uniqueness claims.
pub struct SnapshotHasher;

impl SnapshotHasher {
    /// The hash of the visible table state: names, row ids and cell values,
    /// no versions.
    pub fn hash_tables(tables: &OrdMap<String, OrdMap<String, Row>>) -> (r: CrdtResult<String>)
        ensures
            r matches Ok(h) && h@ == hex_digest(tables_stream(tables@)),
    {
        let stream = tables_stream_bytes(tables);
        let digest = blake3_hash(stream.as_slice());
        Ok(hash_to_hex(&digest))
    }

    /// The hash of the tombstones' (table, row) pairs, in that order; the
    /// versions are left out.
    pub fn hash_tombstones(tombstones: &[Tombstone]) -> (r: String)
        ensures
            r@ == hex_digest(tombstone_stream(tomb_pairs(tombstones@))),
    {
        let ghost ps = tomb_pairs(tombstones@);
        let n = tombstones.len();
        let mut keys: OrdMap<(String, String), ()> = OrdMap::new();
        let mut i: usize = 0;
        while i < n
            invariant
                n == tombstones@.len(),
                ps == tomb_pairs(tombstones@),
                i <= n,
                keys@.dom() == ps.take(i as int).to_set(),
            decreases n - i,
        {
            let t = &tombstones[i];
            keys.insert((t.table_id.clone(), t.row_id.clone()), ());
            proof {
                assert(ps[i as int] == (t.table_id@, t.row_id@));
                assert(ps.take(i + 1) =~= ps.take(i as int).push(ps[i as int]));
                assert forall|x: TombPair| keys@.dom().contains(x) == ps.take(i + 1).to_set().contains(x) by {
                    if x == ps[i as int] {
                        assert(ps.take(i + 1)[i as int] == x);
                    }
                    if ps.take(i as int).contains(x) {
                        let j = choose|j: int| 0 <= j < i && #[trigger] ps.take(i as int)[j] == x;
                        assert(ps.take(i + 1)[j] == x);
                    }
                    if ps.take(i + 1).contains(x) && x != ps[i as int] {
                        let j = choose|j: int| 0 <= j < i + 1 && #[trigger] ps.take(i + 1)[j] == x;
                        assert(ps.take(i as int)[j] == x);
                    }
                }
                assert(keys@.dom() =~= ps.take(i + 1).to_set());
            }
            i = i + 1;
        }
        let nk = keys.len();
        let ghost ks = keys.key_seq();
        proof {
            assert(ps.take(n as int) =~= ps);
            assert(ps.map_values(tomb_key()) =~= ps);
            lemma_sorted_keys_of::<(String, String)>(ks, keys@.dom());
        }
        let mut out: Vec<u8> = Vec::new();
        let mut j: usize = 0;
        while j < nk
            invariant
                nk == ks.len(),
                ks == keys.key_seq(),
                n == tombstones@.len(),
                ps == tomb_pairs(tombstones@),
                j <= nk,
                out@ == pairs_bytes(grouped(ks.take(j as int), ps, tomb_key())),
            decreases nk - j,
        {
            let k = keys.key_at(j);
            let ghost kv = k@;
            let ghost p = key_is(tomb_key(), kv);
            let ghost prefix = out@;
            let mut i: usize = 0;
            while i < n
                invariant
                    n == tombstones@.len(),
                    ps == tomb_pairs(tombstones@),
                    i <= n,
                    kv == k@,
                    p == key_is(tomb_key(), kv),
                    out@ == prefix + pairs_bytes(ps.take(i as int).filter(p)),
                decreases n - i,
            {
                let t = &tombstones[i];
                proof {
                    assert(ps[i as int] == (t.table_id@, t.row_id@));
                    assert(ps.take(i + 1) =~= ps.take(i as int).push(ps[i as int]));
                    ps.take(i as int).lemma_filter_push(ps[i as int], p);
                }
                if t.table_id == k.0 && t.row_id == k.1 {
                    let ghost before = out@;
                    push_str(&mut out, t.table_id.as_str());
                    out.push(6u8);
                    push_str(&mut out, t.row_id.as_str());
                    out.push(7u8);
                    proof {
                        let f = ps.take(i + 1).filter(p);
                        assert(f.drop_last() =~= ps.take(i as int).filter(p));
                        assert(out@ =~= prefix + pairs_bytes(f));
                    }
                }
                i = i + 1;
            }
            proof {
                assert(ps.take(n as int) =~= ps);
                assert(ks.take(j + 1).drop_last() =~= ks.take(j as int));
                assert(ks.take(j + 1).last() == kv);
                lemma_pairs_bytes_concat(grouped(ks.take(j as int), ps, tomb_key()), ps.filter(p));
            }
            j = j + 1;
        }
        proof {
            assert(ks.take(nk as int) =~= ks);
        }
        let digest = blake3_hash(out.as_slice());
        hash_to_hex(&digest)
    }

    /// The hash of the uniqueness claims: each (table, column, value) with
    /// its owner, in (table, column, value) order; versions left out.
    pub fn hash_uniqueness(claims: &[UniquenessClaim]) -> (r: String)
        ensures
            r@ == hex_digest(uniqueness_stream(claim_items(claims@))),
    {
        let ghost cs = claim_items(claims@);
        let ghost kf = claim_key();
        let n = claims.len();
        let mut keys: OrdMap<(String, String, String), ()> = OrdMap::new();
        let mut i: usize = 0;
        while i < n
            invariant
                n == claims@.len(),
                cs == claim_items(claims@),
                kf == claim_key(),
                i <= n,
                keys@.dom() == cs.take(i as int).map_values(kf).to_set(),
            decreases n - i,
        {
            let c = &claims[i];
            keys.insert((c.table_id.clone(), c.column_id.clone(), c.value.clone()), ());
            proof {
                let ms = cs.take(i as int).map_values(kf);
                let ms2 = cs.take(i + 1).map_values(kf);
                let kc = (c.table_id@, c.column_id@, c.value@);
                assert(cs[i as int] == (c.table_id@, c.column_id@, c.value@, c.owner_row@));
                assert(ms2 =~= ms.push(kc));
                assert forall|x: (Seq<char>, Seq<char>, Seq<char>)| keys@.dom().contains(x) == ms2.to_set().contains(x) by {
                    if x == kc {
                        assert(ms2[i as int] == x);
                    }
                    if ms.contains(x) {
                        let j = choose|j: int| 0 <= j < i && #[trigger] ms[j] == x;
                        assert(ms2[j] == x);
                    }
                    if ms2.contains(x) && x != kc {
                        let j = choose|j: int| 0 <= j < i + 1 && #[trigger] ms2[j] == x;
                        assert(ms[j] == x);
                    }
                }
                assert(keys@.dom() =~= ms2.to_set());
            }
            i = i + 1;
        }
        let nk = keys.len();
        let ghost ks = keys.key_seq();
        proof {
            assert(cs.take(n as int) =~= cs);
            lemma_sorted_keys_of::<(String, String, String)>(ks, keys@.dom());
        }
        let mut out: Vec<u8> = Vec::new();
        let mut j: usize = 0;
        while j < nk
            invariant
                nk == ks.len(),
                ks == keys.key_seq(),
                n == claims@.len(),
                cs == claim_items(claims@),
                kf == claim_key(),
                j <= nk,
                out@ == items_bytes(grouped(ks.take(j as int), cs, kf)),
            decreases nk - j,
        {
            let k = keys.key_at(j);
            let ghost kv = k@;
            let ghost p = key_is(kf, kv);
            let ghost prefix = out@;
            let mut i: usize = 0;
            while i < n
                invariant
                    n == claims@.len(),
                    cs == claim_items(claims@),
                    kf == claim_key(),
                    i <= n,
                    kv == k@,
                    p == key_is(kf, kv),
                    out@ == prefix + items_bytes(cs.take(i as int).filter(p)),
                decreases n - i,
            {
                let c = &claims[i];
                proof {
                    assert(cs[i as int] == (c.table_id@, c.column_id@, c.value@, c.owner_row@));
                    assert(cs.take(i + 1) =~= cs.take(i as int).push(cs[i as int]));
                    cs.take(i as int).lemma_filter_push(cs[i as int], p);
                }
                if c.table_id == k.0 && c.column_id == k.1 && c.value == k.2 {
                    push_str(&mut out, c.table_id.as_str());
                    out.push(8u8);
                    push_str(&mut out, c.column_id.as_str());
                    out.push(9u8);
                    push_str(&mut out, c.value.as_str());
                    out.push(10u8);
                    push_str(&mut out, c.owner_row.as_str());
                    out.push(11u8);
                    proof {
                        let f = cs.take(i + 1).filter(p);
                        assert(f.drop_last() =~= cs.take(i as int).filter(p));
                        assert(out@ =~= prefix + items_bytes(f));
                    }
                }
                i = i + 1;
            }
            proof {
                assert(cs.take(n as int) =~= cs);
                assert(ks.take(j + 1).drop_last() =~= ks.take(j as int));
                assert(ks.take(j + 1).last() == kv);
                lemma_items_bytes_concat(grouped(ks.take(j as int), cs, kf), cs.filter(p));
            }
            j = j + 1;
        }
        proof {
            assert(ks.take(nk as int) =~= ks);
        }
        let digest = blake3_hash(out.as_slice());
        hash_to_hex(&digest)
    }

    /// The full snapshot hash: the hash of the three hex digests of tables,
    /// tombstones and claims, one after the other.
    pub fn full_hash(
        tables: &OrdMap<String, OrdMap<String, Row>>,
        tombstones: &[Tombstone],
        claims: &[UniquenessClaim],
    ) -> (r: CrdtResult<String>)
        ensures
            r matches Ok(h) && h@ == hex_digest(
                full_stream(tables@, tomb_pairs(tombstones@), claim_items(claims@)),
            ),
    {
        let mut out: Vec<u8> = Vec::new();
        let table_hash = match Self::hash_tables(tables) {
            Ok(h) => h,
            Err(e) => {
                return Err(e);
            },
        };
        push_str(&mut out, table_hash.as_str());
        let ts_hash = Self::hash_tombstones(tombstones);
        push_str(&mut out, ts_hash.as_str());
        let uniq_hash = Self::hash_uniqueness(claims);
        push_str(&mut out, uniq_hash.as_str());
        let digest = blake3_hash(out.as_slice());
        Ok(hash_to_hex(&digest))
    }
}

// ---------------------------------------------------------------- laws

/// What a row contributes to a snapshot: nothing when deleted, else the
/// value of each column.
pub open spec fn row_content(r: RowView) -> Option<Map<Seq<char>, ValueView>> {
    if r.deleted {
        None
    } else {
        Some(r.cells.map_values(|c: CellView| c.value))
    }
}

/// The semantic content of the tables: versions left out.
pub open spec fn db_content(t: Map<Seq<char>, Map<Seq<char>, RowView>>) -> Map<
    Seq<char>,
    Map<Seq<char>, Option<Map<Seq<char>, ValueView>>>,
> {
    t.map_values(|rows: Map<Seq<char>, RowView>| rows.map_values(|r: RowView| row_content(r)))
}

/// Tables, rows and cells are finitely many, as in every replica.
pub open spec fn tables_finite(t: Map<Seq<char>, Map<Seq<char>, RowView>>) -> bool {
    &&& t.dom().finite()
    &&& forall|k: Seq<char>| #[trigger] t.contains_key(k) ==> t[k].dom().finite()
    &&& forall|k: Seq<char>, r: Seq<char>|
        #[trigger] t.contains_key(k) && #[trigger] t[k].contains_key(r) ==> t[k][r].cells.dom().finite()
}

proof fn lemma_cells_same(ks: Seq<Seq<char>>, c1: Map<Seq<char>, CellView>, c2: Map<Seq<char>, CellView>)
    requires
        forall|i: int| 0 <= i < ks.len() ==> #[trigger] c1[ks[i]].value == c2[ks[i]].value,
    ensures
        cells_bytes(ks, c1) == cells_bytes(ks, c2),
    decreases ks.len(),
{
    if ks.len() > 0 {
        let d = ks.drop_last();
        assert forall|i: int| 0 <= i < d.len() implies #[trigger] c1[d[i]].value == c2[d[i]].value by {
            assert(d[i] == ks[i]);
        }
        lemma_cells_same(d, c1, c2);
        assert(c1[ks[ks.len() - 1]].value == c2[ks[ks.len() - 1]].value);
    }
}

proof fn lemma_row_same(id: Seq<char>, r1: RowView, r2: RowView)
    requires
        row_content(r1) == row_content(r2),
        r1.cells.dom().finite(),
    ensures
        row_bytes(id, r1) == row_bytes(id, r2),
{
    if !r1.deleted {
        let m1 = r1.cells.map_values(|c: CellView| c.value);
        let m2 = r2.cells.map_values(|c: CellView| c.value);
        assert(m1 == m2);
        assert(r1.cells.dom() =~= m1.dom());
        assert(r2.cells.dom() =~= m2.dom());
        let ks = sorted_keys::<String>(r1.cells.dom());
        lemma_sorted_keys_finite::<String>(r1.cells.dom());
        assert forall|i: int| 0 <= i < ks.len() implies #[trigger] r1.cells[ks[i]].value
            == r2.cells[ks[i]].value by {
            assert(ks.to_set().contains(ks[i]));
            assert(m1[ks[i]] == m2[ks[i]]);
        }
        lemma_cells_same(ks, r1.cells, r2.cells);
    }
}

proof fn lemma_rows_same(ks: Seq<Seq<char>>, t1: Map<Seq<char>, RowView>, t2: Map<Seq<char>, RowView>)
    requires
        forall|i: int| 0 <= i < ks.len() ==> #[trigger] row_content(t1[ks[i]]) == row_content(t2[ks[i]]),
        forall|i: int| 0 <= i < ks.len() ==> (#[trigger] t1[ks[i]]).cells.dom().finite(),
    ensures
        rows_bytes(ks, t1) == rows_bytes(ks, t2),
    decreases ks.len(),
{
    if ks.len() > 0 {
        let d = ks.drop_last();
        assert forall|i: int| 0 <= i < d.len() implies #[trigger] row_content(t1[d[i]]) == row_content(t2[d[i]])
            && t1[d[i]].cells.dom().finite() by {
            assert(d[i] == ks[i]);
        }
        lemma_rows_same(d, t1, t2);
        let k = ks[ks.len() - 1];
        lemma_row_same(k, t1[k], t2[k]);
    }
}

proof fn lemma_tables_same(
    ks: Seq<Seq<char>>,
    t1: Map<Seq<char>, Map<Seq<char>, RowView>>,
    t2: Map<Seq<char>, Map<Seq<char>, RowView>>,
)
    requires
        tables_finite(t1),
        db_content(t1) == db_content(t2),
        forall|i: int| 0 <= i < ks.len() ==> t1.contains_key(#[trigger] ks[i]),
    ensures
        tables_bytes(ks, t1) == tables_bytes(ks, t2),
    decreases ks.len(),
{
    if ks.len() > 0 {
        let d = ks.drop_last();
        assert forall|i: int| 0 <= i < d.len() implies t1.contains_key(#[trigger] d[i]) by {
            assert(d[i] == ks[i]);
        }
        lemma_tables_same(d, t1, t2);
        let k = ks[ks.len() - 1];
        assert(t1.contains_key(k));
        assert(db_content(t1).dom() =~= t1.dom());
        assert(db_content(t2).dom() =~= t2.dom());
        let c1 = t1[k].map_values(|r: RowView| row_content(r));
        let c2 = t2[k].map_values(|r: RowView| row_content(r));
        assert(db_content(t1)[k] == c1);
        assert(db_content(t2)[k] == c2);
        assert(c1 == c2);
        assert(t1[k].dom() =~= c1.dom());
        assert(t2[k].dom() =~= c2.dom());
        let rk = sorted_keys::<String>(t1[k].dom());
        lemma_sorted_keys_finite::<String>(t1[k].dom());
        assert forall|i: int| 0 <= i < rk.len() implies #[trigger] row_content(t1[k][rk[i]])
            == row_content(t2[k][rk[i]]) && t1[k][rk[i]].cells.dom().finite() by {
            assert(rk.to_set().contains(rk[i]));
            assert(t1[k].contains_key(rk[i]));
            assert(c1[rk[i]] == c2[rk[i]]);
        }
        assert forall|i: int| 0 <= i < rk.len() implies (#[trigger] t1[k][rk[i]]).cells.dom().finite() by {
            assert(rk.to_set().contains(rk[i]));
            assert(t1[k].contains_key(rk[i]));
        }
        lemma_rows_same(rk, t1[k], t2[k]);
    }
}

/// What a snapshot shows of the tables: each table's rows that are not
/// deleted, each by its cell values.
pub open spec fn visible_content(t: Map<Seq<char>, Map<Seq<char>, RowView>>) -> Map<
    Seq<char>,
    Map<Seq<char>, Map<Seq<char>, ValueView>>,
> {
    t.map_values(
        |rows: Map<Seq<char>, RowView>|
            rows.restrict(Set::new(|k: Seq<char>| !rows[k].deleted)).map_values(
                |r: RowView| r.cells.map_values(|c: CellView| c.value),
            ),
    )
}

/// The ids of `ks` whose rows are not deleted, in order.
pub open spec fn visible_ids(ks: Seq<Seq<char>>, rows: Map<Seq<char>, RowView>) -> Seq<Seq<char>>
    decreases ks.len(),
{
    if ks.len() == 0 {
        Seq::empty()
    } else if rows[ks.last()].deleted {
        visible_ids(ks.drop_last(), rows)
    } else {
        visible_ids(ks.drop_last(), rows).push(ks.last())
    }
}

/// Deleted rows write nothing: the stream of `ks` is that of its visible
/// ids; these keep the order of `ks` and are exactly its visible ids.
proof fn lemma_visible_ids(ks: Seq<Seq<char>>, rows: Map<Seq<char>, RowView>)
    requires
        crate::ordmap::strictly_sorted::<String>(ks),
    ensures
        rows_bytes(ks, rows) == rows_bytes(visible_ids(ks, rows), rows),
        crate::ordmap::strictly_sorted::<String>(visible_ids(ks, rows)),
        forall|k: Seq<char>| #[trigger] visible_ids(ks, rows).contains(k) <==> ks.contains(k) && !rows[k].deleted,
    decreases ks.len(),
{
    crate::order::lemma_str_laws();
    if ks.len() > 0 {
        let d = ks.drop_last();
        let x = ks.last();
        assert forall|a: int, b: int| 0 <= a < b < d.len() implies <String as OrdKey>::key_lt(#[trigger] d[a], #[trigger] d[b]) by {
            assert(d[a] == ks[a] && d[b] == ks[b]);
        }
        lemma_visible_ids(d, rows);
        let v = visible_ids(d, rows);
        assert forall|k: Seq<char>| d.contains(k) implies crate::order::str_lt(k, x) by {
            let i = choose|i: int| 0 <= i < d.len() && d[i] == k;
            assert(ks[i] == k && ks[ks.len() - 1] == x);
        }
        assert forall|k: Seq<char>| #[trigger] ks.contains(k) <==> d.contains(k) || k == x by {
            if ks.contains(k) && k != x {
                let i = choose|i: int| 0 <= i < ks.len() && ks[i] == k;
                assert(i != ks.len() - 1);
                assert(d[i] == k);
            }
            if d.contains(k) {
                let i = choose|i: int| 0 <= i < d.len() && d[i] == k;
                assert(ks[i] == k);
            }
            if k == x {
                assert(ks[ks.len() - 1] == x);
            }
        }
        if !rows[x].deleted {
            let w = v.push(x);
            assert(w.drop_last() =~= v);
            assert forall|a: int, b: int| 0 <= a < b < w.len() implies <String as OrdKey>::key_lt(#[trigger] w[a], #[trigger] w[b]) by {
                if b == w.len() - 1 {
                    assert(w[a] == v[a]);
                    assert(v.contains(v[a]));
                    assert(d.contains(v[a]));
                } else {
                    assert(w[a] == v[a] && w[b] == v[b]);
                }
            }
            assert forall|k: Seq<char>| #[trigger] w.contains(k) <==> v.contains(k) || k == x by {
                if w.contains(k) && k != x {
                    let i = choose|i: int| 0 <= i < w.len() && w[i] == k;
                    assert(i != w.len() - 1);
                    assert(v[i] == k);
                }
                if v.contains(k) {
                    let i = choose|i: int| 0 <= i < v.len() && v[i] == k;
                    assert(w[i] == k);
                }
                if k == x {
                    assert(w[w.len() - 1] == x);
                }
            }
        } else {
            assert(row_bytes(x, rows[x]) =~= Seq::<u8>::empty());
            assert(rows_bytes(ks, rows) =~= rows_bytes(d, rows));
        }
    }
}

/// Tables with the same names and the same visible content write the same
/// stream for each table, whatever their deleted rows and versions.
proof fn lemma_table_same_visible(r1: Map<Seq<char>, RowView>, r2: Map<Seq<char>, RowView>)
    requires
        r1.dom().finite(),
        r2.dom().finite(),
        forall|k: Seq<char>| #[trigger] r1.contains_key(k) ==> r1[k].cells.dom().finite(),
        r1.restrict(Set::new(|k: Seq<char>| !r1[k].deleted)).map_values(|r: RowView| r.cells.map_values(|c: CellView| c.value))
            == r2.restrict(Set::new(|k: Seq<char>| !r2[k].deleted)).map_values(|r: RowView| r.cells.map_values(|c: CellView| c.value)),
    ensures
        rows_bytes(sorted_keys::<String>(r1.dom()), r1) == rows_bytes(sorted_keys::<String>(r2.dom()), r2),
{
    let m1 = r1.restrict(Set::new(|k: Seq<char>| !r1[k].deleted)).map_values(|r: RowView| r.cells.map_values(|c: CellView| c.value));
    let m2 = r2.restrict(Set::new(|k: Seq<char>| !r2[k].deleted)).map_values(|r: RowView| r.cells.map_values(|c: CellView| c.value));
    lemma_sorted_keys_finite::<String>(r1.dom());
    lemma_sorted_keys_finite::<String>(r2.dom());
    let k1 = sorted_keys::<String>(r1.dom());
    let k2 = sorted_keys::<String>(r2.dom());
    lemma_visible_ids(k1, r1);
    lemma_visible_ids(k2, r2);
    let v1 = visible_ids(k1, r1);
    let v2 = visible_ids(k2, r2);
    assert forall|k: Seq<char>| #[trigger] v1.to_set().contains(k) == v2.to_set().contains(k) by {
        assert(k1.contains(k) == r1.contains_key(k));
        assert(k2.contains(k) == r2.contains_key(k));
        assert(m1.contains_key(k) == (r1.contains_key(k) && !r1[k].deleted));
        assert(m2.contains_key(k) == (r2.contains_key(k) && !r2[k].deleted));
    }
    assert(v1.to_set() =~= v2.to_set());
    crate::ordmap::lemma_sorted_unique::<String>(v1, v2);
    assert forall|i: int| 0 <= i < v1.len() implies #[trigger] row_content(r1[v1[i]]) == row_content(r2[v1[i]]) by {
        let k = v1[i];
        assert(v1.contains(k));
        assert(v2.contains(k));
        assert(m1.contains_key(k) && m2.contains_key(k));
        assert(m1[k] == m2[k]);
    }
    assert forall|i: int| 0 <= i < v1.len() implies (#[trigger] r1[v1[i]]).cells.dom().finite() by {
        assert(v1.contains(v1[i]));
        assert(k1.contains(v1[i]));
        assert(k1.to_set().contains(v1[i]));
        assert(r1.contains_key(v1[i]));
    }
    lemma_rows_same(v1, r1, r2);
}

proof fn lemma_tables_same_visible(
    ks: Seq<Seq<char>>,
    t1: Map<Seq<char>, Map<Seq<char>, RowView>>,
    t2: Map<Seq<char>, Map<Seq<char>, RowView>>,
)
    requires
        tables_finite(t1),
        tables_finite(t2),
        visible_content(t1) == visible_content(t2),
        forall|i: int| 0 <= i < ks.len() ==> t1.contains_key(#[trigger] ks[i]),
    ensures
        tables_bytes(ks, t1) == tables_bytes(ks, t2),
    decreases ks.len(),
{
    if ks.len() > 0 {
        let d = ks.drop_last();
        assert forall|i: int| 0 <= i < d.len() implies t1.contains_key(#[trigger] d[i]) by {
            assert(d[i] == ks[i]);
        }
        lemma_tables_same_visible(d, t1, t2);
        let k = ks[ks.len() - 1];
        assert(visible_content(t1).dom() =~= t1.dom());
        assert(visible_content(t2).dom() =~= t2.dom());
        assert(t2.contains_key(k));
        assert(visible_content(t1)[k] == visible_content(t2)[k]);
        lemma_table_same_visible(t1[k], t2[k]);
    }
}

/// The table stream shows only visible rows: tables with the same names and
/// the same rows that are not deleted, each with the same cell values, give
/// the same stream, whatever their deleted rows and versions.
pub proof fn law_tables_stream_visible_only(
    t1: Map<Seq<char>, Map<Seq<char>, RowView>>,
    t2: Map<Seq<char>, Map<Seq<char>, RowView>>,
)
    requires
        tables_finite(t1),
        tables_finite(t2),
        visible_content(t1) == visible_content(t2),
    ensures
        tables_stream(t1) == tables_stream(t2),
{
    assert(visible_content(t1).dom() =~= t1.dom());
    assert(visible_content(t2).dom() =~= t2.dom());
    assert(t1.dom() == t2.dom());
    let ks = sorted_keys::<String>(t1.dom());
    lemma_sorted_keys_finite::<String>(t1.dom());
    assert forall|i: int| 0 <= i < ks.len() implies t1.contains_key(#[trigger] ks[i]) by {
        assert(ks.to_set().contains(ks[i]));
    }
    lemma_tables_same_visible(ks, t1, t2);
}

/// The table stream holds no versions: tables with the same names, row
/// ids, deleted rows and cell values give the same stream, whatever the
/// versions of their cells and deletions.
pub proof fn law_tables_stream_version_free(
    t1: Map<Seq<char>, Map<Seq<char>, RowView>>,
    t2: Map<Seq<char>, Map<Seq<char>, RowView>>,
)
    requires
        tables_finite(t1),
        tables_finite(t2),
        db_content(t1) == db_content(t2),
    ensures
        tables_stream(t1) == tables_stream(t2),
{
    assert(db_content(t1).dom() =~= t1.dom());
    assert(db_content(t2).dom() =~= t2.dom());
    assert(t1.dom() == t2.dom());
    let ks = sorted_keys::<String>(t1.dom());
    lemma_sorted_keys_finite::<String>(t1.dom());
    assert forall|i: int| 0 <= i < ks.len() implies t1.contains_key(#[trigger] ks[i]) by {
        assert(ks.to_set().contains(ks[i]));
    }
    lemma_tables_same(ks, t1, t2);
}

/// The pairs equal to `k` are as many copies of `k` as the multiset holds.
proof fn lemma_filter_pairs(s: Seq<TombPair>, k: TombPair)
    ensures
        s.filter(key_is(tomb_key(), k)) == Seq::new(s.to_multiset().count(k), |i: int| k),
    decreases s.len(),
{
    broadcast use vstd::seq_lib::group_to_multiset_ensures;
    broadcast use vstd::multiset::group_multiset_properties;

    let p = key_is(tomb_key(), k);
    if s.len() == 0 {
        assert(s.to_multiset() =~= vstd::multiset::Multiset::empty()) by {
            assert(s =~= Seq::<TombPair>::empty());
        }
        assert(s.filter(p) =~= Seq::<TombPair>::empty()) by {
            reveal(Seq::filter);
        }
        assert(Seq::new(s.to_multiset().count(k), |i: int| k) =~= Seq::<TombPair>::empty());
    } else {
        let d = s.drop_last();
        let x = s.last();
        assert(s =~= d.push(x));
        lemma_filter_pairs(d, k);
        d.lemma_filter_push(x, p);
        assert(s.to_multiset() =~= d.to_multiset().insert(x));
        if x == k {
            assert(s.filter(p) =~= Seq::new(s.to_multiset().count(k), |i: int| k));
        } else {
            assert(s.filter(p) =~= Seq::new(s.to_multiset().count(k), |i: int| k));
        }
    }
}

proof fn lemma_grouped_pairs_same(ks: Seq<TombPair>, p1: Seq<TombPair>, p2: Seq<TombPair>)
    requires
        p1.to_multiset() == p2.to_multiset(),
    ensures
        grouped(ks, p1, tomb_key()) == grouped(ks, p2, tomb_key()),
    decreases ks.len(),
{
    if ks.len() > 0 {
        lemma_grouped_pairs_same(ks.drop_last(), p1, p2);
        lemma_filter_pairs(p1, ks.last());
        lemma_filter_pairs(p2, ks.last());
    }
}

/// The tombstone stream does not depend on the order of the tombstones:
/// the same (table, row) pairs, as many times each, give the same stream.
pub proof fn law_tombstone_stream_order_invariant(p1: Seq<TombPair>, p2: Seq<TombPair>)
    requires
        p1.to_multiset() == p2.to_multiset(),
    ensures
        tombstone_stream(p1) == tombstone_stream(p2),
{
    broadcast use vstd::seq_lib::group_to_multiset_ensures;

    assert(p1.map_values(tomb_key()) =~= p1);
    assert(p2.map_values(tomb_key()) =~= p2);
    assert forall|x: TombPair| p1.to_set().contains(x) == p2.to_set().contains(x) by {
        assert(p1.contains(x) == (p1.to_multiset().count(x) > 0));
        assert(p2.contains(x) == (p2.to_multiset().count(x) > 0));
    }
    assert(p1.to_set() =~= p2.to_set());
    let ks = sorted_keys::<(String, String)>(p1.to_set());
    lemma_grouped_pairs_same(ks, p1, p2);
}

/// Where no two claims share a key, the claims with key `k` are the one
/// that has it.
proof fn lemma_filter_claim(c: Seq<ClaimItem>, i: int)
    requires
        c.map_values(claim_key()).no_duplicates(),
        0 <= i < c.len(),
    ensures
        c.filter(key_is(claim_key(), claim_key()(c[i]))) == seq![c[i]],
    decreases c.len(),
{
    let k = claim_key()(c[i]);
    let p = key_is(claim_key(), k);
    let d = c.drop_last();
    let x = c.last();
    assert(c =~= d.push(x));
    d.lemma_filter_push(x, p);
    assert(d.map_values(claim_key()).no_duplicates()) by {
        assert forall|a: int, b: int| 0 <= a < b < d.len() implies d.map_values(claim_key())[a]
            != d.map_values(claim_key())[b] by {
            assert(c.map_values(claim_key())[a] != c.map_values(claim_key())[b]);
        }
    }
    if i < c.len() - 1 {
        assert(c.map_values(claim_key())[i] != c.map_values(claim_key())[c.len() - 1]);
        assert(!p(x));
        assert(d[i] == c[i]);
        lemma_filter_claim(d, i);
    } else {
        assert(d.all(|y: ClaimItem| !p(y))) by {
            assert forall|j: int| 0 <= j < d.len() implies !p(#[trigger] d[j]) by {
                assert(c.map_values(claim_key())[j] != c.map_values(claim_key())[c.len() - 1]);
            }
        }
        d.lemma_all_neg_filter_empty(p);
        assert(d.filter(p) =~= Seq::<ClaimItem>::empty());
        assert(c.filter(p) =~= seq![c[i]]);
    }
}

/// The key `k` belongs to a claim of `c`.
pub open spec fn has_claim_key(c: Seq<ClaimItem>, k: (Seq<char>, Seq<char>, Seq<char>)) -> bool {
    c.map_values(claim_key()).to_set().contains(k)
}

proof fn lemma_grouped_claims_same(ks: Seq<(Seq<char>, Seq<char>, Seq<char>)>, c1: Seq<ClaimItem>, c2: Seq<ClaimItem>)
    requires
        c1.to_multiset() == c2.to_multiset(),
        c1.map_values(claim_key()).no_duplicates(),
        c2.map_values(claim_key()).no_duplicates(),
        forall|i: int| 0 <= i < ks.len() ==> has_claim_key(c1, #[trigger] ks[i]),
    ensures
        grouped(ks, c1, claim_key()) == grouped(ks, c2, claim_key()),
    decreases ks.len(),
{
    broadcast use vstd::seq_lib::group_to_multiset_ensures;

    if ks.len() > 0 {
        let d = ks.drop_last();
        assert forall|i: int| 0 <= i < d.len() implies has_claim_key(c1, #[trigger] d[i]) by {
            assert(d[i] == ks[i]);
        }
        lemma_grouped_claims_same(d, c1, c2);
        let k = ks.last();
        assert(has_claim_key(c1, ks[ks.len() - 1]));
        let m1 = c1.map_values(claim_key());
        assert(m1.contains(k));
        let i = choose|i: int| 0 <= i < m1.len() && m1[i] == k;
        let x = c1[i];
        assert(claim_key()(x) == k);
        assert(c1.contains(x));
        assert(c1.to_multiset().count(x) > 0);
        assert(c2.contains(x));
        let j = choose|j: int| 0 <= j < c2.len() && c2[j] == x;
        lemma_filter_claim(c1, i);
        lemma_filter_claim(c2, j);
    }
}

/// Where no two claims share a (table, column, value), the uniqueness
/// stream does not depend on the order of the claims.
pub proof fn law_uniqueness_stream_order_invariant(c1: Seq<ClaimItem>, c2: Seq<ClaimItem>)
    requires
        c1.to_multiset() == c2.to_multiset(),
        c1.map_values(claim_key()).no_duplicates(),
        c2.map_values(claim_key()).no_duplicates(),
    ensures
        uniqueness_stream(c1) == uniqueness_stream(c2),
{
    broadcast use vstd::seq_lib::group_to_multiset_ensures;

    let m1 = c1.map_values(claim_key());
    let m2 = c2.map_values(claim_key());
    assert forall|k: (Seq<char>, Seq<char>, Seq<char>)| m1.to_set().contains(k) implies m2.to_set().contains(k) by {
        let i = choose|i: int| 0 <= i < m1.len() && m1[i] == k;
        let x = c1[i];
        assert(c1.contains(x));
        assert(c1.to_multiset().count(x) > 0);
        assert(c2.contains(x));
        let j = choose|j: int| 0 <= j < c2.len() && c2[j] == x;
        assert(m2[j] == k);
    }
    assert forall|k: (Seq<char>, Seq<char>, Seq<char>)| m2.to_set().contains(k) implies m1.to_set().contains(k) by {
        let i = choose|i: int| 0 <= i < m2.len() && m2[i] == k;
        let x = c2[i];
        assert(c2.contains(x));
        assert(c2.to_multiset().count(x) > 0);
        assert(c1.contains(x));
        let j = choose|j: int| 0 <= j < c1.len() && c1[j] == x;
        assert(m1[j] == k);
    }
    assert(m1.to_set() =~= m2.to_set());
    let ks = sorted_keys::<(String, String, String)>(m1.to_set());
    vstd::seq_lib::seq_to_set_is_finite(m1);
    lemma_sorted_keys_finite::<(String, String, String)>(m1.to_set());
    assert forall|i: int| 0 <= i < ks.len() implies has_claim_key(c1, #[trigger] ks[i]) by {
        assert(ks.to_set().contains(ks[i]));
    }
    lemma_grouped_claims_same(ks, c1, c2);
}

// ------------------------------------------------ uniqueness stream, read back

/// One of the control bytes that separate the fields of a claim in the
/// uniqueness stream.
pub open spec fn separator_byte(b: u8) -> bool {
    8 <= b <= 11
}

/// A text none of whose characters is a separator (U+0008 to U+000B).
pub open spec fn plain_text(s: Seq<char>) -> bool {
    forall|i: int| 0 <= i < s.len() ==> !(8 <= #[trigger] (s[i] as u32) <= 11)
}

/// A claim item whose four texts are plain.
pub open spec fn plain_item(c: ClaimItem) -> bool {
    plain_text(c.0) && plain_text(c.1) && plain_text(c.2) && plain_text(c.3)
}

/// The bytes one claim adds to the stream.
spec fn claim_bytes(c: ClaimItem) -> Seq<u8> {
    str_bytes(c.0) + (seq![8u8] + (str_bytes(c.1) + (seq![9u8] + (str_bytes(c.2) + (seq![10u8] + (str_bytes(c.3)
        + seq![11u8]))))))
}

/// The UTF-8 encoding of a character other than a separator holds no
/// separator byte.
proof fn lemma_scalar_plain(c: char)
    requires
        !(8 <= (c as u32) <= 11),
    ensures
        forall|i: int| 0 <= i < encode_scalar(c as u32).len() ==> !separator_byte(#[trigger] encode_scalar(c as u32)[i]),
{
    let v = c as u32;
    vstd::utf8::char_is_scalar(c);
    if has_width_1_encoding(v) {
        assert(leading_byte_width_1(v) == v as u8 && !(8 <= v <= 11)) by {
            assert(v <= 0x7F && !(8 <= v <= 11) ==> ((v & 0x7F) as u8 == v as u8 && !(8 <= (v as u8) <= 11))) by (bit_vector);
        }
    } else {
        assert(last_continuation_byte(v) >= 0x80) by {
            assert((0x80u8 | (v & 0x3F) as u8) >= 0x80) by (bit_vector);
        }
        assert(second_last_continuation_byte(v) >= 0x80) by {
            assert((0x80u8 | ((v >> 6) & 0x3F) as u8) >= 0x80) by (bit_vector);
        }
        assert(third_last_continuation_byte(v) >= 0x80) by {
            assert((0x80u8 | ((v >> 12) & 0x3F) as u8) >= 0x80) by (bit_vector);
        }
        assert(leading_byte_width_2(v) >= 0xC0) by {
            assert((0xC0u8 | ((v >> 6) & 0x1F) as u8) >= 0xC0) by (bit_vector);
        }
        assert(leading_byte_width_3(v) >= 0xE0) by {
            assert((0xE0u8 | ((v >> 12) & 0x0F) as u8) >= 0xE0) by (bit_vector);
        }
        assert(leading_byte_width_4(v) >= 0xF0) by {
            assert((0xF0u8 | ((v >> 18) & 0x7) as u8) >= 0xF0) by (bit_vector);
        }
    }
}

/// The UTF-8 bytes of a plain text hold no separator byte.
proof fn lemma_text_plain(s: Seq<char>)
    requires
        plain_text(s),
    ensures
        forall|i: int| 0 <= i < str_bytes(s).len() ==> !separator_byte(#[trigger] str_bytes(s)[i]),
    decreases s.len(),
{
    if s.len() > 0 {
        let t = s.drop_first();
        assert forall|i: int| 0 <= i < t.len() implies !(8 <= #[trigger] (t[i] as u32) <= 11) by {
            assert(t[i] == s[i + 1]);
        }
        lemma_text_plain(t);
        assert(!(8 <= (s[0] as u32) <= 11));
        lemma_scalar_plain(s[0]);
        let a = encode_scalar(s[0] as u32);
        let b = str_bytes(t);
        assert(str_bytes(s) == a + b);
        assert forall|i: int| 0 <= i < str_bytes(s).len() implies !separator_byte(#[trigger] str_bytes(s)[i]) by {
            if i < a.len() {
                assert(str_bytes(s)[i] == a[i]);
            } else {
                assert(str_bytes(s)[i] == b[i - a.len()]);
            }
        }
    }
}

/// Splitting at the first occurrence of a byte that the first parts lack.
proof fn lemma_split_at(x: Seq<u8>, y: Seq<u8>, u: Seq<u8>, v: Seq<u8>, b: u8)
    requires
        x + (seq![b] + y) == u + (seq![b] + v),
        forall|i: int| 0 <= i < x.len() ==> #[trigger] x[i] != b,
        forall|i: int| 0 <= i < u.len() ==> #[trigger] u[i] != b,
    ensures
        x == u,
        y == v,
{
    let l = x + (seq![b] + y);
    let r = u + (seq![b] + v);
    if x.len() < u.len() {
        assert(l[x.len() as int] == b);
        assert(r[x.len() as int] == u[x.len() as int]);
    }
    if u.len() < x.len() {
        assert(r[u.len() as int] == b);
        assert(l[u.len() as int] == x[u.len() as int]);
    }
    assert(x.len() == u.len());
    assert(x =~= l.subrange(0, x.len() as int));
    assert(u =~= r.subrange(0, u.len() as int));
    assert(y =~= l.subrange(x.len() as int + 1, l.len() as int));
    assert(v =~= r.subrange(u.len() as int + 1, r.len() as int));
}

/// A plain text is read back from its UTF-8 bytes.
proof fn lemma_text_back(s: Seq<char>, t: Seq<char>)
    requires
        str_bytes(s) == str_bytes(t),
    ensures
        s == t,
{
    vstd::utf8::encode_utf8_decode_utf8(s);
    vstd::utf8::encode_utf8_decode_utf8(t);
}

/// The bytes of one plain claim give the claim back, and hold the byte
/// `\x0B` only at their end.
proof fn lemma_claim_bytes(c: ClaimItem, d: ClaimItem)
    requires
        plain_item(c),
        plain_item(d),
    ensures
        claim_bytes(c).len() > 0,
        claim_bytes(c).last() == 11u8,
        forall|i: int| 0 <= i < claim_bytes(c).len() - 1 ==> #[trigger] claim_bytes(c)[i] != 11u8,
        claim_bytes(c) == claim_bytes(d) ==> c == d,
{
    lemma_text_plain(c.0);
    lemma_text_plain(c.1);
    lemma_text_plain(c.2);
    lemma_text_plain(c.3);
    lemma_text_plain(d.0);
    lemma_text_plain(d.1);
    lemma_text_plain(d.2);
    lemma_text_plain(d.3);
    let a0 = str_bytes(c.0);
    let a1 = str_bytes(c.1);
    let a2 = str_bytes(c.2);
    let a3 = str_bytes(c.3);
    let r3 = a3 + seq![11u8];
    let r2 = a2 + (seq![10u8] + r3);
    let r1 = a1 + (seq![9u8] + r2);
    let e = a0 + (seq![8u8] + r1);
    assert(claim_bytes(c) == e);
    assert forall|i: int| 0 <= i < e.len() - 1 implies #[trigger] e[i] != 11u8 by {
        if i < a0.len() {
            assert(e[i] == a0[i]);
            assert(!separator_byte(a0[i]));
        } else if i > a0.len() {
            let j = i - a0.len() - 1;
            assert(e[i] == r1[j]);
            if j < a1.len() {
                assert(!separator_byte(a1[j]));
            } else if j > a1.len() {
                let k = j - a1.len() - 1;
                assert(r1[j] == r2[k]);
                if k < a2.len() {
                    assert(!separator_byte(a2[k]));
                } else if k > a2.len() {
                    let m = k - a2.len() - 1;
                    assert(r2[k] == r3[m]);
                    assert(m < a3.len());
                    assert(r3[m] == a3[m]);
                    assert(!separator_byte(a3[m]));
                }
            }
        }
    }
    assert(e.last() == 11u8);
    if claim_bytes(c) == claim_bytes(d) {
        let b0 = str_bytes(d.0);
        let b1 = str_bytes(d.1);
        let b2 = str_bytes(d.2);
        let b3 = str_bytes(d.3);
        let q3 = b3 + seq![11u8];
        let q2 = b2 + (seq![10u8] + q3);
        let q1 = b1 + (seq![9u8] + q2);
        assert(claim_bytes(d) == b0 + (seq![8u8] + q1));
        assert forall|i: int| 0 <= i < a0.len() implies #[trigger] a0[i] != 8u8 by { assert(!separator_byte(a0[i])); }
        assert forall|i: int| 0 <= i < b0.len() implies #[trigger] b0[i] != 8u8 by { assert(!separator_byte(b0[i])); }
        lemma_split_at(a0, r1, b0, q1, 8u8);
        assert forall|i: int| 0 <= i < a1.len() implies #[trigger] a1[i] != 9u8 by { assert(!separator_byte(a1[i])); }
        assert forall|i: int| 0 <= i < b1.len() implies #[trigger] b1[i] != 9u8 by { assert(!separator_byte(b1[i])); }
        lemma_split_at(a1, r2, b1, q2, 9u8);
        assert forall|i: int| 0 <= i < a2.len() implies #[trigger] a2[i] != 10u8 by { assert(!separator_byte(a2[i])); }
        assert forall|i: int| 0 <= i < b2.len() implies #[trigger] b2[i] != 10u8 by { assert(!separator_byte(b2[i])); }
        lemma_split_at(a2, r3, b2, q3, 10u8);
        assert forall|i: int| 0 <= i < a3.len() implies #[trigger] a3[i] != 11u8 by { assert(!separator_byte(a3[i])); }
        assert forall|i: int| 0 <= i < b3.len() implies #[trigger] b3[i] != 11u8 by { assert(!separator_byte(b3[i])); }
        lemma_split_at(a3, Seq::empty(), b3, Seq::empty(), 11u8);
        lemma_text_back(c.0, d.0);
        lemma_text_back(c.1, d.1);
        lemma_text_back(c.2, d.2);
        lemma_text_back(c.3, d.3);
    }
}

/// The stream of claims is what came before, then the last claim's bytes;
/// it is empty only for no claims and otherwise ends in `\x0B`.
proof fn lemma_items_bytes_last(cs: Seq<ClaimItem>)
    requires
        cs.len() > 0,
        plain_item(cs.last()),
    ensures
        items_bytes(cs) == items_bytes(cs.drop_last()) + claim_bytes(cs.last()),
        items_bytes(cs).len() > 0,
        items_bytes(cs).last() == 11u8,
{
    let c = cs.last();
    assert(items_bytes(cs) =~= items_bytes(cs.drop_last()) + claim_bytes(c));
    lemma_claim_bytes(c, c);
}

/// The uniqueness stream reads back: claim items whose texts hold no
/// separator character give the same stream only when they are the same
/// items in the same order, so two registries that differ in a claim's
/// table, column, value or owner give different streams.
pub proof fn law_claim_stream_injective(a: Seq<ClaimItem>, b: Seq<ClaimItem>)
    requires
        forall|i: int| 0 <= i < a.len() ==> plain_item(#[trigger] a[i]),
        forall|i: int| 0 <= i < b.len() ==> plain_item(#[trigger] b[i]),
        items_bytes(a) == items_bytes(b),
    ensures
        a == b,
    decreases a.len() + b.len(),
{
    if a.len() == 0 && b.len() == 0 {
        assert(a =~= b);
    } else if a.len() == 0 {
        assert(plain_item(b[b.len() - 1]));
        lemma_items_bytes_last(b);
    } else if b.len() == 0 {
        assert(plain_item(a[a.len() - 1]));
        lemma_items_bytes_last(a);
    } else {
        assert(plain_item(a[a.len() - 1]));
        assert(plain_item(b[b.len() - 1]));
        lemma_items_bytes_last(a);
        lemma_items_bytes_last(b);
        let pa = items_bytes(a.drop_last());
        let pb = items_bytes(b.drop_last());
        let ea = claim_bytes(a.last());
        let eb = claim_bytes(b.last());
        lemma_claim_bytes(a.last(), b.last());
        lemma_claim_bytes(b.last(), a.last());
        let all = pa + ea;
        assert(all == pb + eb);
        assert forall|i: int| 0 <= i < a.drop_last().len() implies plain_item(#[trigger] a.drop_last()[i]) by {
            assert(a.drop_last()[i] == a[i]);
        }
        assert forall|i: int| 0 <= i < b.drop_last().len() implies plain_item(#[trigger] b.drop_last()[i]) by {
            assert(b.drop_last()[i] == b[i]);
        }
        if ea.len() < eb.len() {
            assert(pa.len() > 0);
            assert(a.drop_last().len() > 0);
            lemma_items_bytes_last(a.drop_last());
            let p = pa.len() - 1;
            assert(all[p] == 11u8);
            assert(all[p] == eb[p - pb.len()]);
        }
        if eb.len() < ea.len() {
            assert(pb.len() > 0);
            assert(b.drop_last().len() > 0);
            lemma_items_bytes_last(b.drop_last());
            let p = pb.len() - 1;
            assert((pb + eb)[p] == 11u8);
            assert(all[p] == ea[p - pa.len()]);
        }
        assert(ea.len() == eb.len());
        assert(pa =~= all.subrange(0, pa.len() as int));
        assert(pb =~= all.subrange(0, pb.len() as int));
        assert(ea =~= all.subrange(pa.len() as int, all.len() as int));
        assert(eb =~= all.subrange(pb.len() as int, all.len() as int));
        law_claim_stream_injective(a.drop_last(), b.drop_last());
        assert(a =~= a.drop_last().push(a.last()));
        assert(b =~= b.drop_last().push(b.last()));
    }
}

/// The stream of one claim holds its value's bytes between `\x09` and
/// `\x0A`, after the table, `\x08` and the column, and before the owner
/// and `\x0B`.
pub proof fn law_claim_stream_fields(c: ClaimItem)
    ensures
        items_bytes(seq![c]) == str_bytes(c.0) + seq![8u8] + str_bytes(c.1) + seq![9u8] + str_bytes(c.2) + seq![10u8]
            + str_bytes(c.3) + seq![11u8],
{
    let s = seq![c];
    assert(s.drop_last() =~= Seq::<ClaimItem>::empty());
    assert(items_bytes(s.drop_last()) == Seq::<u8>::empty());
    assert(Seq::<u8>::empty() + str_bytes(c.0) =~= str_bytes(c.0));
}

} // verus!
