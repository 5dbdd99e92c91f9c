//! Deterministic secondary indexes. An index is derived state: rebuilt from
//! the merged rows, it depends on the set of rows alone, so replicas with
//! the same rows hold the same indexes.
use vstd::prelude::*;
use crate::order::{
    Order, OrdKey, lex_lt, strict_total, order_by, lemma_lex_irreflexive, lemma_lex_transitive,
    lemma_lex_total, lemma_lex_asymmetric, lemma_lex_common_prefix,
};
use crate::ordmap::{DeepCopy, OrdMap, sorted_keys, lemma_sorted_keys_of};
use crate::types::{IndexDef, IndexDefView, Row, RowView};
use crate::types::{Value, ValueView, value_lt, lemma_value_order};

verus! {

/// The value order as a relation.
pub open spec fn value_order() -> spec_fn(ValueView, ValueView) -> bool {
    |x: ValueView, y: ValueView| value_lt(x, y)
}

/// Index keys are ordered lexicographically by the value order.
pub open spec fn index_key_lt(a: Seq<ValueView>, b: Seq<ValueView>) -> bool {
    lex_lt(a, b, value_order())
}

pub proof fn lemma_value_order_strict_total()
    ensures
        strict_total(value_order()),
{
    lemma_value_order();
    assert(value_order() =~= (|x: ValueView, y: ValueView| value_lt(x, y)));
}

/// The views of a sequence of values.
pub open spec fn values_view(vs: Seq<Value>) -> Seq<ValueView> {
    vs.map_values(|v: Value| v@)
}

/// A key of a secondary index: the values of the indexed columns, in the
/// order of the index's columns.
pub struct IndexKey {
    pub values: Vec<Value>,
}

impl View for IndexKey {
    type V = Seq<ValueView>;

    open spec fn view(&self) -> Seq<ValueView> {
        values_view(self.values@)
    }
}

/// Copies a sequence of values.
pub fn copy_values(vs: &[Value]) -> (r: Vec<Value>)
    ensures
        values_view(r@) == values_view(vs@),
{
    let mut out: Vec<Value> = Vec::new();
    let mut i: usize = 0;
    while i < vs.len()
        invariant
            i <= vs@.len(),
            out@.len() == i,
            forall|j: int| 0 <= j < i ==> (#[trigger] out@[j])@ == vs@[j]@,
        decreases vs@.len() - i,
    {
        out.push(vs[i].deep_copy());
        i = i + 1;
    }
    assert(values_view(out@) =~= values_view(vs@));
    out
}

impl OrdKey for IndexKey {
    open spec fn key_lt(a: Seq<ValueView>, b: Seq<ValueView>) -> bool {
        index_key_lt(a, b)
    }

    proof fn lemma_key_order() {
        lemma_value_order_strict_total();
        let lt = |x: Seq<ValueView>, y: Seq<ValueView>| Self::key_lt(x, y);
        assert forall|x: Seq<ValueView>| !#[trigger] lt(x, x) by {
            lemma_lex_irreflexive(x, value_order());
        }
        assert forall|x: Seq<ValueView>, y: Seq<ValueView>, z: Seq<ValueView>|
            #[trigger] lt(x, y) && #[trigger] lt(y, z) implies lt(x, z) by {
            lemma_lex_transitive(x, y, z, value_order());
        }
        assert forall|x: Seq<ValueView>, y: Seq<ValueView>| x == y || #[trigger] lt(x, y) || lt(
            y,
            x,
        ) by {
            lemma_lex_total(x, y, value_order());
        }
    }

    fn compare(&self, other: &Self) -> (r: Order) {
        proof {
            lemma_value_order_strict_total();
        }
        let a = &self.values;
        let b = &other.values;
        let ghost av = self@;
        let ghost bv = other@;
        let la = a.len();
        let lb = b.len();
        let mut i: usize = 0;
        while i < la && i < lb
            invariant
                la == av.len(),
                lb == bv.len(),
                av == values_view(a@),
                bv == values_view(b@),
                av == self@,
                bv == other@,
                i <= la,
                i <= lb,
                av.subrange(0, i as int) == bv.subrange(0, i as int),
                strict_total(value_order()),
            decreases la - i,
        {
            let c = a[i].compare(&b[i]);
            assert(av[i as int] == a@[i as int]@);
            assert(bv[i as int] == b@[i as int]@);
            if c != Order::Equal {
                proof {
                    lemma_lex_common_prefix(av, bv, i as int, value_order());
                    lemma_lex_common_prefix(bv, av, i as int, value_order());
                    assert(av[i as int] != bv[i as int]);
                    assert(av != bv);
                    assert(av.subrange(i as int, la as int)[0] == av[i as int]);
                    assert(bv.subrange(i as int, lb as int)[0] == bv[i as int]);
                }
                if c == Order::Less {
                    assert(value_order()(av[i as int], bv[i as int]));
                    assert(index_key_lt(av, bv));
                    return Order::Less;
                } else {
                    proof {
                        assert(value_order()(bv[i as int], av[i as int]));
                        assert(index_key_lt(bv, av));
                        lemma_lex_asymmetric(bv, av, value_order());
                    }
                    return Order::Greater;
                }
            }
            assert(av.subrange(0, i + 1) =~= av.subrange(0, i as int).push(av[i as int]));
            assert(bv.subrange(0, i + 1) =~= bv.subrange(0, i as int).push(bv[i as int]));
            i = i + 1;
        }
        proof {
            lemma_lex_common_prefix(av, bv, i as int, value_order());
            lemma_lex_common_prefix(bv, av, i as int, value_order());
        }
        if la == lb {
            assert(av =~= av.subrange(0, i as int));
            assert(bv =~= bv.subrange(0, i as int));
            Order::Equal
        } else if la < lb {
            Order::Less
        } else {
            proof {
                lemma_lex_asymmetric(bv, av, value_order());
            }
            Order::Greater
        }
    }

    fn copy_key(&self) -> (r: Self) {
        IndexKey { values: copy_values(self.values.as_slice()) }
    }
}

/// The entries of an index: each key to the ids of the rows that have it.
pub type IndexEntries = Map<Seq<ValueView>, Set<Seq<char>>>;

/// Every key of the index has at least one row id, and finitely many.
pub open spec fn no_empty_keys(m: IndexEntries) -> bool {
    forall|k: Seq<ValueView>| #[trigger] m.contains_key(k) ==> m[k].finite() && m[k].len() > 0
}

/// `m` with `id` added under `k`.
pub open spec fn entries_insert(m: IndexEntries, k: Seq<ValueView>, id: Seq<char>) -> IndexEntries {
    if m.contains_key(k) {
        m.insert(k, m[k].insert(id))
    } else {
        m.insert(k, Set::empty().insert(id))
    }
}

/// Adding an id keeps every key with finitely many ids, at least one.
pub proof fn lemma_insert_keeps_ids(m: IndexEntries, k: Seq<ValueView>, id: Seq<char>)
    requires
        no_empty_keys(m),
    ensures
        no_empty_keys(entries_insert(m, k, id)),
{
    let u = entries_insert(m, k, id);
    assert forall|kk: Seq<ValueView>| #[trigger] u.contains_key(kk) implies u[kk].finite() && u[kk].len() > 0 by {
        if kk == k {
            assert(u[kk].contains(id));
            if u[kk].len() == 0 {
                u[kk].lemma_len0_is_empty();
            }
        }
    }
}

/// Taking an id keeps every key with finitely many ids, at least one.
pub proof fn lemma_remove_keeps_ids(m: IndexEntries, k: Seq<ValueView>, id: Seq<char>)
    requires
        no_empty_keys(m),
    ensures
        no_empty_keys(entries_remove(m, k, id)),
{
    let u = entries_remove(m, k, id);
    assert forall|kk: Seq<ValueView>| #[trigger] u.contains_key(kk) implies u[kk].finite() && u[kk].len() > 0 by {
        if kk == k {
            assert(u[kk] == m[k].remove(id));
        }
    }
}

/// `m` with `id` taken from under `k`; a key left with no id goes.
pub open spec fn entries_remove(m: IndexEntries, k: Seq<ValueView>, id: Seq<char>) -> IndexEntries {
    if !m.contains_key(k) {
        m
    } else if m[k].remove(id).len() == 0 {
        m.remove(k)
    } else {
        m.insert(k, m[k].remove(id))
    }
}

/// The row ids under the keys of `keys`, key after key, each key's ids in
/// increasing order.
pub open spec fn ids_listing(keys: Seq<Seq<ValueView>>, m: IndexEntries) -> Seq<Seq<char>>
    decreases keys.len(),
{
    if keys.len() == 0 {
        Seq::empty()
    } else {
        ids_listing(keys.drop_last(), m) + sorted_keys::<String>(m[keys.last()])
    }
}

/// The number of row ids under the keys of `keys`.
pub open spec fn ids_count(keys: Seq<Seq<ValueView>>, m: IndexEntries) -> nat
    decreases keys.len(),
{
    if keys.len() == 0 {
        0
    } else {
        ids_count(keys.drop_last(), m) + m[keys.last()].len()
    }
}

/// Counting a prefix gives no more than counting the whole.
pub proof fn lemma_ids_count_prefix(keys: Seq<Seq<ValueView>>, m: IndexEntries, i: int)
    requires
        0 <= i <= keys.len(),
    ensures
        ids_count(keys.take(i), m) <= ids_count(keys, m),
    decreases keys.len() - i,
{
    if i < keys.len() {
        lemma_ids_count_prefix(keys, m, i + 1);
        assert(keys.take(i + 1).drop_last() =~= keys.take(i));
    } else {
        assert(keys.take(i) =~= keys);
    }
}

/// `k` lies in the half-open range from `start` (included) to `end`
/// (excluded); a missing bound does not limit.
pub open spec fn in_range(
    k: Seq<ValueView>,
    start: Option<Seq<ValueView>>,
    end: Option<Seq<ValueView>>,
) -> bool {
    &&& (start matches Some(s) ==> !index_key_lt(k, s))
    &&& (end matches Some(e) ==> index_key_lt(k, e))
}

/// The keys that lie in the half-open range from `start` to `end`.
pub open spec fn range_pred(start: Option<Seq<ValueView>>, end: Option<Seq<ValueView>>) -> spec_fn(
    Seq<ValueView>,
) -> bool {
    |k: Seq<ValueView>| in_range(k, start, end)
}

/// The views of a sequence of string references.
pub open spec fn string_refs_view(s: Seq<&String>) -> Seq<Seq<char>> {
    s.map_values(|x: &String| x@)
}

/// The views of a sequence of strings.
pub open spec fn strings_view(s: Seq<String>) -> Seq<Seq<char>> {
    s.map_values(|x: String| x@)
}

/// The view of an optional key given as values.
pub open spec fn opt_key_view(k: Option<Vec<Value>>) -> Option<Seq<ValueView>> {
    match k {
        Some(v) => Some(values_view(v@)),
        None => None,
    }
}

/// A secondary index: from the values of the indexed columns to the set of
/// ids of the rows that hold them, both kept in order.
pub struct SecondaryIndex {
    pub(crate) def: IndexDef,
    entries: OrdMap<IndexKey, OrdMap<String, ()>>,
}

pub struct SecondaryIndexView {
    pub def: IndexDefView,
    pub entries: IndexEntries,
}

impl View for SecondaryIndex {
    type V = SecondaryIndexView;

    closed spec fn view(&self) -> SecondaryIndexView {
        SecondaryIndexView {
            def: self.def@,
            entries: self.entries@.map_values(|m: Map<Seq<char>, ()>| m.dom()),
        }
    }
}

/// Appends `set`'s ids to `out`, in increasing order.
fn append_ids(out: &mut Vec<String>, set: &OrdMap<String, ()>)
    ensures
        strings_view(final(out)@) == strings_view(old(out)@) + sorted_keys::<String>(set@.dom()),
{
    let n = set.len();
    proof {
        lemma_sorted_keys_of::<String>(set.key_seq(), set@.dom());
    }
    let ghost start = strings_view(out@);
    let mut j: usize = 0;
    while j < n
        invariant
            n == set.key_seq().len(),
            j <= n,
            strings_view(out@) == start + set.key_seq().take(j as int),
        decreases n - j,
    {
        let id = set.key_at(j).clone();
        let ghost prev = out@;
        out.push(id);
        proof {
            assert(set.key_seq().take(j + 1) =~= set.key_seq().take(j as int).push(set.key_seq()[j as int]));
            assert(strings_view(out@) =~= strings_view(prev).push(id@));
        }
        j = j + 1;
    }
    assert(set.key_seq().take(n as int) =~= set.key_seq());
}

impl SecondaryIndex {
    #[verifier::type_invariant]
    closed spec fn inv(&self) -> bool {
        no_empty_keys(self@.entries)
    }

    /// The definition of the index.
    pub fn def(&self) -> (r: &IndexDef)
        ensures
            r@ == self@.def,
    {
        &self.def
    }

    /// Every key of an index has at least one row id, and finitely many.
    pub fn keys_hold_ids(&self)
        ensures
            no_empty_keys(self@.entries),
    {
        proof {
            use_type_invariant(self);
        }
    }

    /// What the map of entries says of the view.
    proof fn lemma_entries(&self)
        requires
            self.entries.shape(),
        ensures
            self@.entries.dom() == self.entries@.dom(),
            sorted_keys::<IndexKey>(self@.entries.dom()) == self.entries.key_seq(),
            forall|k: Seq<ValueView>| #[trigger] self@.entries.contains_key(k) ==> self@.entries[k]
                == self.entries@[k].dom(),
    {
        assert(self@.entries.dom() =~= self.entries@.dom());
        lemma_sorted_keys_of::<IndexKey>(self.entries.key_seq(), self@.entries.dom());
    }

    /// Every index holds finitely many keys, each with finitely many ids.
    pub proof fn lemma_entries_finite(&self)
        ensures
            self@.entries.dom().finite(),
            forall|k: Seq<ValueView>| #[trigger] self@.entries.contains_key(k) ==> self@.entries[k].finite(),
    {
        self.entries.lemma_finite();
        assert(self@.entries.dom() =~= self.entries@.dom());
        assert forall|k: Seq<ValueView>| #[trigger] self@.entries.contains_key(k) implies self@.entries[k].finite() by {
            let i = choose|i: int| 0 <= i < self.entries.key_seq().len() && self.entries@[k] == (#[trigger] self.entries.stored(i))@;
            self.entries.stored(i).lemma_finite();
        }
    }

    pub fn new(def: IndexDef) -> (r: Self)
        ensures
            r@.def == def@,
            r@.entries == IndexEntries::empty(),
    {
        let r = SecondaryIndex { def, entries: OrdMap::new() };
        assert(r@.entries =~= IndexEntries::empty());
        r
    }

    /// Adds `row_id` under `key`.
    pub fn insert(&mut self, key: Vec<Value>, row_id: String)
        ensures
            final(self)@.def == old(self)@.def,
            final(self)@.entries == entries_insert(old(self)@.entries, values_view(key@), row_id@),
    {
        proof {
            use_type_invariant(&*self);
        }
        let k = IndexKey { values: key };
        let ghost kv = k@;
        let ghost id = row_id@;
        let ghost old_m = self.entries@;
        let ghost target = entries_insert(old(self)@.entries, kv, id);
        proof {
            lemma_insert_keeps_ids(old(self)@.entries, kv, id);
        }
        let mut entries: OrdMap<IndexKey, OrdMap<String, ()>> = OrdMap::new();
        std::mem::swap(&mut entries, &mut self.entries);
        match entries.find(&k) {
            Some(i) => {
                let mut set = entries.replace_at(i, OrdMap::new());
                set.insert(row_id, ());
                let ghost set_v = set@;
                let _ = entries.replace_at(i, set);
                proof {
                    assert(set_v.dom() =~= old_m[kv].dom().insert(id));
                    assert(entries@.map_values(|m: Map<Seq<char>, ()>| m.dom()) =~= target);
                }
            },
            None => {
                let mut set: OrdMap<String, ()> = OrdMap::new();
                set.insert(row_id, ());
                let ghost set_v = set@;
                entries.insert(k, set);
                proof {
                    assert(set_v.dom() =~= Set::<Seq<char>>::empty().insert(id));
                    assert(entries@.map_values(|m: Map<Seq<char>, ()>| m.dom()) =~= target);
                }
            },
        }
        self.entries = entries;
    }

    /// Takes `row_id` from under `key`; a key left with no id goes.
    pub fn remove(&mut self, key: &[Value], row_id: &str)
        ensures
            final(self)@.def == old(self)@.def,
            final(self)@.entries == entries_remove(old(self)@.entries, values_view(key@), row_id@),
    {
        proof {
            use_type_invariant(&*self);
        }
        let k = IndexKey { values: copy_values(key) };
        let ghost kv = k@;
        let ghost id = row_id@;
        let ghost old_m = self.entries@;
        let ghost target = entries_remove(old(self)@.entries, kv, id);
        proof {
            lemma_remove_keeps_ids(old(self)@.entries, kv, id);
        }
        let mut entries: OrdMap<IndexKey, OrdMap<String, ()>> = OrdMap::new();
        std::mem::swap(&mut entries, &mut self.entries);
        match entries.find(&k) {
            None => {
                assert(entries@.map_values(|m: Map<Seq<char>, ()>| m.dom()) =~= target);
            },
            Some(i) => {
                let mut set = entries.replace_at(i, OrdMap::new());
                let rid = row_id.to_owned();
                let _ = set.remove(&rid);
                let ghost set_v = set@;
                assert(set_v.dom() =~= old_m[kv].dom().remove(id));
                if set.len() == 0 {
                    let _ = entries.remove(&k);
                    proof {
                        assert(entries@.map_values(|m: Map<Seq<char>, ()>| m.dom()) =~= target);
                    }
                } else {
                    let _ = entries.replace_at(i, set);
                    proof {
                        assert(entries@.map_values(|m: Map<Seq<char>, ()>| m.dom()) =~= target);
                    }
                }
            },
        }
        self.entries = entries;
    }

    /// The ids of the rows under `key`, in increasing order.
    pub fn lookup(&self, key: &[Value]) -> (r: Vec<&String>)
        ensures
            string_refs_view(r@) == (if self@.entries.contains_key(values_view(key@)) {
                sorted_keys::<String>(self@.entries[values_view(key@)])
            } else {
                Seq::empty()
            }),
    {
        let k = IndexKey { values: copy_values(key) };
        let mut out: Vec<&String> = Vec::new();
        match self.entries.get(&k) {
            Some(set) => {
                let n = set.len();
                proof {
                    lemma_sorted_keys_of::<String>(set.key_seq(), set@.dom());
                }
                let mut j: usize = 0;
                while j < n
                    invariant
                        n == set.key_seq().len(),
                        j <= n,
                        string_refs_view(out@) == set.key_seq().take(j as int),
                    decreases n - j,
                {
                    let ghost prev = out@;
                    out.push(set.key_at(j));
                    proof {
                        assert(set.key_seq().take(j + 1) =~= set.key_seq().take(j as int).push(set.key_seq()[j as int]));
                        assert(string_refs_view(out@) =~= string_refs_view(prev).push(set.key_seq()[j as int]));
                    }
                    j = j + 1;
                }
                assert(set.key_seq().take(n as int) =~= set.key_seq());
            },
            None => {
                assert(string_refs_view(out@) =~= Seq::empty());
            },
        }
        out
    }

    /// The row ids under the keys from `start` (included) to `end`
    /// (excluded), key after key in key order; a missing bound does not
    /// limit. A range that ends before it starts is not asked for.
    pub fn range_scan(&self, start: Option<Vec<Value>>, end: Option<Vec<Value>>) -> (r: Vec<String>)
        requires
            (opt_key_view(start), opt_key_view(end)) matches (Some(s), Some(e)) ==> !index_key_lt(e, s),
        ensures
            strings_view(r@) == ids_listing(
                sorted_keys::<IndexKey>(self@.entries.dom()).filter(range_pred(opt_key_view(start), opt_key_view(end))),
                self@.entries,
            ),
    {
        proof {
            crate::order::lemma_key_laws::<IndexKey>();
        }
        let ghost sv = opt_key_view(start);
        let ghost ev = opt_key_view(end);
        let lo: Option<IndexKey> = match start {
            Some(v) => Some(IndexKey { values: v }),
            None => None,
        };
        let hi: Option<IndexKey> = match end {
            Some(v) => Some(IndexKey { values: v }),
            None => None,
        };
        let n = self.entries.len();
        proof {
            self.lemma_entries();
        }
        let ghost ks = self.entries.key_seq();
        let ghost m = self@.entries;
        let ghost p = range_pred(sv, ev);
        let mut out: Vec<String> = Vec::new();
        let mut i: usize = 0;
        while i < n
            invariant
                n == ks.len(),
                ks == self.entries.key_seq(),
                m == self@.entries,
                self.entries.shape(),
                i <= n,
                p == range_pred(sv, ev),
                lo matches Some(l) ==> sv == Some(l@),
                lo is None ==> sv is None,
                hi matches Some(h) ==> ev == Some(h@),
                hi is None ==> ev is None,
                forall|x: Seq<ValueView>| !#[trigger] IndexKey::key_lt(x, x),
                forall|k: Seq<ValueView>| #[trigger] m.contains_key(k) ==> m[k] == self.entries@[k].dom(),
                strings_view(out@) == ids_listing(ks.take(i as int).filter(p), m),
            decreases n - i,
        {
            let k = self.entries.key_at(i);
            let after_start = match &lo {
                Some(l) => k.compare(l) != Order::Less,
                None => true,
            };
            let before_end = match &hi {
                Some(h) => k.compare(h) == Order::Less,
                None => true,
            };
            proof {
                assert(ks.take(i + 1) =~= ks.take(i as int).push(ks[i as int]));
                ks.take(i as int).lemma_filter_push(ks[i as int], p);
                assert((after_start && before_end) == p(ks[i as int]));
            }
            if after_start && before_end {
                let set = self.entries.value_at(i);
                append_ids(&mut out, set);
                proof {
                    let kk = ks[i as int];
                    assert(self.entries@[kk] == self.entries.val_seq()[i as int]);
                    assert(m.contains_key(kk));
                    assert(ks.take(i + 1).filter(p).drop_last() =~= ks.take(i as int).filter(p));
                }
            }
            i = i + 1;
        }
        assert(ks.take(n as int) =~= ks);
        out
    }

    /// The number of row ids in the index, over all keys. The count is
    /// asked for only where it fits in a `usize`.
    pub fn entry_count(&self) -> (r: usize)
        requires
            ids_count(sorted_keys::<IndexKey>(self@.entries.dom()), self@.entries) <= usize::MAX,
        ensures
            r == ids_count(sorted_keys::<IndexKey>(self@.entries.dom()), self@.entries),
    {
        let n = self.entries.len();
        proof {
            self.lemma_entries();
        }
        let ghost ks = self.entries.key_seq();
        let ghost m = self@.entries;
        let mut total: usize = 0;
        let mut i: usize = 0;
        while i < n
            invariant
                n == ks.len(),
                ks == self.entries.key_seq(),
                m == self@.entries,
                self.entries.shape(),
                i <= n,
                ids_count(ks, m) <= usize::MAX,
                forall|k: Seq<ValueView>| #[trigger] m.contains_key(k) ==> m[k] == self.entries@[k].dom(),
                total == ids_count(ks.take(i as int), m),
            decreases n - i,
        {
            let set = self.entries.value_at(i);
            let c = set.len();
            proof {
                let kk = ks[i as int];
                assert(self.entries@[kk] == self.entries.val_seq()[i as int]);
                assert(m.contains_key(kk));
                assert(ks.take(i + 1).drop_last() =~= ks.take(i as int));
                lemma_ids_count_prefix(ks, m, i + 1);
            }
            total = total + c;
            i = i + 1;
        }
        assert(ks.take(n as int) =~= ks);
        total
    }

    /// All row ids, key after key in key order, each key's ids in order.
    pub fn all_row_ids(&self) -> (r: Vec<String>)
        ensures
            strings_view(r@) == ids_listing(sorted_keys::<IndexKey>(self@.entries.dom()), self@.entries),
    {
        let n = self.entries.len();
        proof {
            self.lemma_entries();
        }
        let ghost ks = self.entries.key_seq();
        let ghost m = self@.entries;
        let mut out: Vec<String> = Vec::new();
        let mut i: usize = 0;
        while i < n
            invariant
                n == ks.len(),
                ks == self.entries.key_seq(),
                m == self@.entries,
                self.entries.shape(),
                i <= n,
                forall|k: Seq<ValueView>| #[trigger] m.contains_key(k) ==> m[k] == self.entries@[k].dom(),
                strings_view(out@) == ids_listing(ks.take(i as int), m),
            decreases n - i,
        {
            let set = self.entries.value_at(i);
            append_ids(&mut out, set);
            proof {
                let k = ks[i as int];
                assert(self.entries@[k] == self.entries.val_seq()[i as int]);
                assert(m.contains_key(k));
                assert(ks.take(i + 1).drop_last() =~= ks.take(i as int));
            }
            i = i + 1;
        }
        assert(ks.take(n as int) =~= ks);
        out
    }
}

// ------------------------------------------------------------ building

/// The key a row has in an index on `cols`: the value of each column, or
/// `Null` where the row has no such column.
pub open spec fn key_of(cols: Seq<Seq<char>>, row: RowView) -> Seq<ValueView> {
    Seq::new(
        cols.len(),
        |i: int|
            if row.cells.contains_key(cols[i]) {
                row.cells[cols[i]].value
            } else {
                ValueView::Null
            },
    )
}

/// The entries of an index on `cols` built from `rows`: each visible row's
/// id under its key, deleted rows left out.
pub open spec fn built_entries(cols: Seq<Seq<char>>, rows: Seq<RowView>) -> IndexEntries
    decreases rows.len(),
{
    if rows.len() == 0 {
        IndexEntries::empty()
    } else {
        let prev = built_entries(cols, rows.drop_last());
        let r = rows.last();
        if r.deleted {
            prev
        } else {
            entries_insert(prev, key_of(cols, r), r.id)
        }
    }
}

/// Row `r` is listed under key `k` with id `id` in an index on `cols`.
pub open spec fn row_indexed(cols: Seq<Seq<char>>, r: RowView, k: Seq<ValueView>, id: Seq<char>) -> bool {
    !r.deleted && key_of(cols, r) == k && r.id == id
}

/// The views of a sequence of row references.
pub open spec fn row_refs_view(rows: Seq<&Row>) -> Seq<RowView> {
    rows.map_values(|r: &Row| r@)
}

/// The values of a row's indexed columns, `Null` for a column it lacks.
fn extract_index_key(columns: &[String], row: &Row) -> (r: Vec<Value>)
    ensures
        values_view(r@) == key_of(columns@.map_values(|c: String| c@), row@),
{
    let ghost cols = columns@.map_values(|c: String| c@);
    let mut out: Vec<Value> = Vec::new();
    let mut i: usize = 0;
    while i < columns.len()
        invariant
            i <= columns@.len(),
            cols == columns@.map_values(|c: String| c@),
            out@.len() == i,
            forall|j: int| 0 <= j < i ==> (#[trigger] out@[j])@ == key_of(cols, row@)[j],
        decreases columns@.len() - i,
    {
        let v = match row.get(columns[i].as_str()) {
            Some(v) => v.deep_copy(),
            None => Value::Null,
        };
        out.push(v);
        i = i + 1;
    }
    assert(values_view(out@) =~= key_of(cols, row@));
    out
}

/// Builds the index `def` describes from `rows`.
fn build_index(def: IndexDef, rows: &[&Row]) -> (r: SecondaryIndex)
    ensures
        r@.def == def@,
        r@.entries == built_entries(def@.columns, row_refs_view(rows@)),
{
    let ghost rv = row_refs_view(rows@);
    let mut ix = SecondaryIndex::new(def);
    let mut j: usize = 0;
    while j < rows.len()
        invariant
            j <= rows@.len(),
            rv == row_refs_view(rows@),
            ix@.def == def@,
            ix@.entries == built_entries(def@.columns, rv.take(j as int)),
        decreases rows@.len() - j,
    {
        let row = rows[j];
        proof {
            assert(rv.take(j + 1).drop_last() =~= rv.take(j as int));
            assert(rv.take(j + 1).last() == row@);
        }
        if row.is_visible() {
            let key = extract_index_key(ix.def.columns.as_slice(), row);
            ix.insert(key, row.id.clone());
        }
        j = j + 1;
    }
    assert(rv.take(rows@.len() as int) =~= rv);
    ix
}

// ------------------------------------------------------------- manager

/// An index after a rebuild from `rows`.
pub open spec fn rebuilt(ix: SecondaryIndexView, rows: Seq<RowView>) -> SecondaryIndexView {
    SecondaryIndexView { def: ix.def, entries: built_entries(ix.def.columns, rows) }
}

/// An index after a row changed from `old_row` to `new_row`: the old row's
/// key is dropped if it was visible, the new row's added if it is.
pub open spec fn updated(
    ix: SecondaryIndexView,
    old_row: Option<RowView>,
    new_row: RowView,
) -> SecondaryIndexView {
    let cols = ix.def.columns;
    let dropped = match old_row {
        Some(o) => if o.deleted {
            ix.entries
        } else {
            entries_remove(ix.entries, key_of(cols, o), o.id)
        },
        None => ix.entries,
    };
    SecondaryIndexView {
        def: ix.def,
        entries: if new_row.deleted {
            dropped
        } else {
            entries_insert(dropped, key_of(cols, new_row), new_row.id)
        },
    }
}

pub open spec fn opt_row_view(r: Option<&Row>) -> Option<RowView> {
    match r {
        Some(x) => Some(x@),
        None => None,
    }
}

/// All secondary indexes of all tables: table, then index name, to index.
pub struct IndexManager {
    indexes: OrdMap<String, OrdMap<String, SecondaryIndex>>,
}

impl View for IndexManager {
    type V = Map<Seq<char>, Map<Seq<char>, SecondaryIndexView>>;

    closed spec fn view(&self) -> Map<Seq<char>, Map<Seq<char>, SecondaryIndexView>> {
        self.indexes@
    }
}

impl IndexManager {
    pub fn new() -> (r: Self)
        ensures
            r@ == Map::<Seq<char>, Map<Seq<char>, SecondaryIndexView>>::empty(),
    {
        IndexManager { indexes: OrdMap::new() }
    }

    /// Adds an empty index as `def` describes, in place of any index of
    /// that name on that table.
    pub fn create_index(&mut self, def: IndexDef)
        ensures
            final(self)@ == old(self)@.insert(
                def@.table,
                (if old(self)@.contains_key(def@.table) {
                    old(self)@[def@.table]
                } else {
                    Map::empty()
                }).insert(def@.name, SecondaryIndexView { def: def@, entries: IndexEntries::empty() }),
            ),
    {
        let t = def.table.clone();
        let n = def.name.clone();
        let ghost dv = def@;
        let ix = SecondaryIndex::new(def);
        match self.indexes.find(&t) {
            Some(i) => {
                let mut table = self.indexes.replace_at(i, OrdMap::new());
                table.insert(n, ix);
                let _ = self.indexes.replace_at(i, table);
            },
            None => {
                let mut table: OrdMap<String, SecondaryIndex> = OrdMap::new();
                table.insert(n, ix);
                self.indexes.insert(t, table);
            },
        }
    }

    /// Rebuilds every index of `table_id` from `rows`, leaving out deleted
    /// rows.
    pub fn rebuild_table(&mut self, table_id: &str, rows: &[&Row])
        ensures
            final(self)@ == (if old(self)@.contains_key(table_id@) {
                old(self)@.insert(
                    table_id@,
                    old(self)@[table_id@].map_values(|ix: SecondaryIndexView| rebuilt(ix, row_refs_view(rows@))),
                )
            } else {
                old(self)@
            }),
    {
        let ghost rv = row_refs_view(rows@);
        let t = table_id.to_owned();
        match self.indexes.find(&t) {
            None => {},
            Some(ti) => {
                let mut table = self.indexes.replace_at(ti, OrdMap::new());
                let ghost old_table = table@;
                let ghost ks = table.key_seq();
                let ghost vs = table.val_seq();
                let n = table.len();
                let mut i: usize = 0;
                while i < n
                    invariant
                        n == ks.len(),
                        i <= n,
                        rv == row_refs_view(rows@),
                        table.key_seq() == ks,
                        table.val_seq().len() == n,
                        vs.len() == n,
                        forall|j: int| 0 <= j < i ==> #[trigger] table.val_seq()[j] == rebuilt(vs[j], rv),
                        forall|j: int| i <= j < n ==> #[trigger] table.val_seq()[j] == vs[j],
                    decreases n - i,
                {
                    let def = table.value_at(i).def.deep_copy();
                    let built = build_index(def, rows);
                    let _ = table.replace_at(i, built);
                    i = i + 1;
                }
                let _ = table.len();
                proof {
                    let f = |ix: SecondaryIndexView| rebuilt(ix, rv);
                    assert forall|k: Seq<char>| #[trigger] table@.contains_key(k) implies table@[k]
                        == old_table.map_values(f)[k] by {
                        let j = ks.index_of(k);
                        assert(ks[j] == k);
                        assert(old_table[ks[j]] == vs[j]);
                    }
                    assert(table@ =~= old_table.map_values(f));
                }
                let _ = self.indexes.replace_at(ti, table);
            },
        }
    }

    /// Moves every index of `table_id` from `old_row` to `new_row`: the old
    /// row's key is dropped if it was visible, the new row's added if it is.
    pub fn update_row(&mut self, table_id: &str, old_row: Option<&Row>, new_row: &Row)
        ensures
            final(self)@ == (if old(self)@.contains_key(table_id@) {
                old(self)@.insert(
                    table_id@,
                    old(self)@[table_id@].map_values(
                        |ix: SecondaryIndexView| updated(ix, opt_row_view(old_row), new_row@),
                    ),
                )
            } else {
                old(self)@
            }),
    {
        let ghost ov = opt_row_view(old_row);
        let ghost nv = new_row@;
        let t = table_id.to_owned();
        match self.indexes.find(&t) {
            None => {},
            Some(ti) => {
                let mut table = self.indexes.replace_at(ti, OrdMap::new());
                let ghost old_table = table@;
                let ghost ks = table.key_seq();
                let ghost vs = table.val_seq();
                let n = table.len();
                let mut i: usize = 0;
                while i < n
                    invariant
                        n == ks.len(),
                        i <= n,
                        ov == opt_row_view(old_row),
                        nv == new_row@,
                        table.key_seq() == ks,
                        table.val_seq().len() == n,
                        vs.len() == n,
                        forall|j: int| 0 <= j < i ==> #[trigger] table.val_seq()[j] == updated(vs[j], ov, nv),
                        forall|j: int| i <= j < n ==> #[trigger] table.val_seq()[j] == vs[j],
                    decreases n - i,
                {
                    let placeholder = SecondaryIndex::new(table.value_at(i).def.deep_copy());
                    let mut ix = table.replace_at(i, placeholder);
                    let ghost before = ix@;
                    match old_row {
                        Some(o) => {
                            if o.is_visible() {
                                let old_key = extract_index_key(ix.def.columns.as_slice(), o);
                                ix.remove(old_key.as_slice(), o.id.as_str());
                            }
                        },
                        None => {},
                    }
                    if new_row.is_visible() {
                        let new_key = extract_index_key(ix.def.columns.as_slice(), new_row);
                        ix.insert(new_key, new_row.id.clone());
                    }
                    assert(ix@ == updated(before, ov, nv));
                    let _ = table.replace_at(i, ix);
                    i = i + 1;
                }
                let _ = table.len();
                proof {
                    let f = |ix: SecondaryIndexView| updated(ix, ov, nv);
                    assert forall|k: Seq<char>| #[trigger] table@.contains_key(k) implies table@[k]
                        == old_table.map_values(f)[k] by {
                        let j = ks.index_of(k);
                        assert(ks[j] == k);
                        assert(old_table[ks[j]] == vs[j]);
                    }
                    assert(table@ =~= old_table.map_values(f));
                }
                let _ = self.indexes.replace_at(ti, table);
            },
        }
    }

    /// The index `index_name` of `table_id`, if there is one.
    pub fn get_index(&self, table_id: &str, index_name: &str) -> (r: Option<&SecondaryIndex>)
        ensures
            match r {
                Some(ix) => self@.contains_key(table_id@) && self@[table_id@].contains_key(index_name@)
                    && ix@ == self@[table_id@][index_name@],
                None => !(self@.contains_key(table_id@) && self@[table_id@].contains_key(index_name@)),
            },
    {
        let t = table_id.to_owned();
        let n = index_name.to_owned();
        match self.indexes.get(&t) {
            Some(table) => table.get(&n),
            None => None,
        }
    }

    /// The indexes of `table_id`, in the order of their names.
    pub fn indexes_for_table(&self, table_id: &str) -> (r: Vec<&SecondaryIndex>)
        ensures
            self@.contains_key(table_id@) ==> r@.len() == self@[table_id@].len() && forall|i: int|
                0 <= i < r@.len() ==> (#[trigger] r@[i])@ == self@[table_id@][sorted_keys::<String>(
                    self@[table_id@].dom(),
                )[i]],
            !self@.contains_key(table_id@) ==> r@.len() == 0,
    {
        let t = table_id.to_owned();
        let mut out: Vec<&SecondaryIndex> = Vec::new();
        match self.indexes.get(&t) {
            Some(table) => {
                let n = table.len();
                proof {
                    lemma_sorted_keys_of::<String>(table.key_seq(), table@.dom());
                }
                let mut i: usize = 0;
                while i < n
                    invariant
                        n == table.key_seq().len(),
                        table.shape(),
                        i <= n,
                        out@.len() == i,
                        forall|j: int| 0 <= j < i ==> (#[trigger] out@[j])@ == table.val_seq()[j],
                    decreases n - i,
                {
                    out.push(table.value_at(i));
                    i = i + 1;
                }
                proof {
                    assert forall|j: int| 0 <= j < out@.len() implies (#[trigger] out@[j])@ == table@[table.key_seq()[j]] by {
                        assert(table@[table.key_seq()[j]] == table.val_seq()[j]);
                    }
                }
            },
            None => {},
        }
        out
    }
}


// ---------------------------------------------------------------- laws

/// What a built index holds: a key is present exactly when some visible row
/// has it, and under it stand exactly the ids of the visible rows that have
/// it; no key is left without ids.
pub proof fn law_rebuild_contents(cols: Seq<Seq<char>>, rows: Seq<RowView>, k: Seq<ValueView>, id: Seq<char>)
    ensures
        built_entries(cols, rows).contains_key(k) <==> exists|i: int|
            0 <= i < rows.len() && !rows[i].deleted && key_of(cols, #[trigger] rows[i]) == k,
        built_entries(cols, rows).contains_key(k) ==> (built_entries(cols, rows)[k].contains(id)
            <==> exists|i: int| 0 <= i < rows.len() && row_indexed(cols, #[trigger] rows[i], k, id)),
        no_empty_keys(built_entries(cols, rows)),
    decreases rows.len(),
{
    if rows.len() > 0 {
        let prev = rows.drop_last();
        law_rebuild_contents(cols, prev, k, id);
        let r = rows.last();
        let m = built_entries(cols, prev);
        assert(forall|i: int| 0 <= i < prev.len() ==> #[trigger] prev[i] == rows[i]);
        if built_entries(cols, rows).contains_key(k) {
            if exists|i: int| 0 <= i < rows.len() && row_indexed(cols, #[trigger] rows[i], k, id) {
                let i = choose|i: int| 0 <= i < rows.len() && row_indexed(cols, #[trigger] rows[i], k, id);
                if i < prev.len() {
                    assert(row_indexed(cols, prev[i], k, id));
                }
            }
            if exists|i: int| 0 <= i < prev.len() && row_indexed(cols, #[trigger] prev[i], k, id) {
                let i = choose|i: int| 0 <= i < prev.len() && row_indexed(cols, #[trigger] prev[i], k, id);
                assert(row_indexed(cols, rows[i], k, id));
            }
        }
        if exists|i: int| 0 <= i < rows.len() && !rows[i].deleted && key_of(cols, #[trigger] rows[i]) == k {
            let i = choose|i: int| 0 <= i < rows.len() && !rows[i].deleted && key_of(cols, #[trigger] rows[i]) == k;
            if i < prev.len() {
                assert(!prev[i].deleted && key_of(cols, prev[i]) == k);
            }
        }
        if exists|i: int| 0 <= i < prev.len() && !prev[i].deleted && key_of(cols, #[trigger] prev[i]) == k {
            let i = choose|i: int| 0 <= i < prev.len() && !prev[i].deleted && key_of(cols, #[trigger] prev[i]) == k;
            assert(!rows[i].deleted && key_of(cols, rows[i]) == k);
        }
        assert forall|kk: Seq<ValueView>| #[trigger] built_entries(cols, rows).contains_key(kk) implies built_entries(
            cols,
            rows,
        )[kk].finite() && built_entries(cols, rows)[kk].len() > 0 by {
            law_rebuild_contents(cols, prev, kk, id);
            if !r.deleted && kk == key_of(cols, r) {
                let s = built_entries(cols, rows)[kk];
                assert(s.contains(r.id));
                if m.contains_key(kk) {
                    assert(s == m[kk].insert(r.id));
                } else {
                    assert(s == Set::<Seq<char>>::empty().insert(r.id));
                }
                assert(s.finite());
                if s.len() == 0 {
                    s.lemma_len0_is_empty();
                    assert(false);
                }
            }
        }
    }
}

/// Rebuilding is independent of the order of the rows, and of rows given
/// twice: rows with the same elements give the same index.
pub proof fn law_rebuild_order_independent(cols: Seq<Seq<char>>, rows1: Seq<RowView>, rows2: Seq<RowView>)
    requires
        rows1.to_set() == rows2.to_set(),
    ensures
        built_entries(cols, rows1) == built_entries(cols, rows2),
{
    let m1 = built_entries(cols, rows1);
    let m2 = built_entries(cols, rows2);
    assert forall|k: Seq<ValueView>| m1.contains_key(k) == m2.contains_key(k) by {
        law_rebuild_contents(cols, rows1, k, Seq::empty());
        law_rebuild_contents(cols, rows2, k, Seq::empty());
        if m1.contains_key(k) {
            let i = choose|i: int| 0 <= i < rows1.len() && !rows1[i].deleted && key_of(cols, #[trigger] rows1[i]) == k;
            assert(rows1.to_set().contains(rows1[i]));
            assert(rows2.contains(rows1[i]));
            let j = choose|j: int| 0 <= j < rows2.len() && rows2[j] == rows1[i];
            assert(!rows2[j].deleted && key_of(cols, rows2[j]) == k);
        }
        if m2.contains_key(k) {
            let i = choose|i: int| 0 <= i < rows2.len() && !rows2[i].deleted && key_of(cols, #[trigger] rows2[i]) == k;
            assert(rows2.to_set().contains(rows2[i]));
            assert(rows1.contains(rows2[i]));
            let j = choose|j: int| 0 <= j < rows1.len() && rows1[j] == rows2[i];
            assert(!rows1[j].deleted && key_of(cols, rows1[j]) == k);
        }
    }
    assert forall|k: Seq<ValueView>| #[trigger] m1.contains_key(k) implies m1[k] =~= m2[k] by {
        assert forall|id: Seq<char>| m1[k].contains(id) == m2[k].contains(id) by {
            law_rebuild_contents(cols, rows1, k, id);
            law_rebuild_contents(cols, rows2, k, id);
            if m1[k].contains(id) {
                let i = choose|i: int| 0 <= i < rows1.len() && row_indexed(cols, #[trigger] rows1[i], k, id);
                assert(rows1.to_set().contains(rows1[i]));
                assert(rows2.contains(rows1[i]));
                let j = choose|j: int| 0 <= j < rows2.len() && rows2[j] == rows1[i];
                assert(row_indexed(cols, rows2[j], k, id));
            }
            if m2[k].contains(id) {
                let i = choose|i: int| 0 <= i < rows2.len() && row_indexed(cols, #[trigger] rows2[i], k, id);
                assert(rows2.to_set().contains(rows2[i]));
                assert(rows1.contains(rows2[i]));
                let j = choose|j: int| 0 <= j < rows1.len() && rows1[j] == rows2[i];
                assert(row_indexed(cols, rows1[j], k, id));
            }
        }
    }
    assert(m1 =~= m2);
}

/// Removing an id just added under a key gives back the index it was added
/// to, when that index did not hold the id under that key.
pub proof fn law_remove_undoes_insert(m: IndexEntries, k: Seq<ValueView>, id: Seq<char>)
    requires
        no_empty_keys(m),
        !(m.contains_key(k) && m[k].contains(id)),
    ensures
        entries_remove(entries_insert(m, k, id), k, id) == m,
{
    let m2 = entries_insert(m, k, id);
    if m.contains_key(k) {
        assert(m2[k].remove(id) =~= m[k]);
        assert(m[k].len() > 0);
        assert(entries_remove(m2, k, id) =~= m);
    } else {
        assert(m2[k].remove(id) =~= Set::<Seq<char>>::empty());
        assert(entries_remove(m2, k, id) =~= m);
    }
}

/// Filtering with a predicate that holds everywhere keeps the sequence.
proof fn lemma_filter_all(ks: Seq<Seq<ValueView>>, p: spec_fn(Seq<ValueView>) -> bool)
    requires
        forall|k: Seq<ValueView>| #[trigger] p(k),
    ensures
        ks.filter(p) == ks,
    decreases ks.len(),
{
    reveal(Seq::filter);
    if ks.len() > 0 {
        lemma_filter_all(ks.drop_last(), p);
        assert(ks.drop_last().push(ks.last()) =~= ks);
    } else {
        assert(ks.filter(p) =~= ks);
    }
}

/// The listing of the ids under `keys` holds as many ids as the keys count.
proof fn lemma_listing_len(keys: Seq<Seq<ValueView>>, m: IndexEntries)
    requires
        forall|i: int| 0 <= i < keys.len() ==> (#[trigger] m[keys[i]]).finite(),
    ensures
        ids_listing(keys, m).len() == ids_count(keys, m),
    decreases keys.len(),
{
    if keys.len() > 0 {
        let d = keys.drop_last();
        assert forall|i: int| 0 <= i < d.len() implies (#[trigger] m[d[i]]).finite() by {
            assert(d[i] == keys[i]);
        }
        lemma_listing_len(d, m);
        let s = m[keys.last()];
        assert(m[keys[keys.len() - 1]].finite());
        crate::ordmap::lemma_sorted_keys_finite::<String>(s);
        let q = sorted_keys::<String>(s);
        crate::order::lemma_key_laws::<String>();
        assert(q.no_duplicates()) by {
            assert forall|a: int, b: int| 0 <= a < q.len() && 0 <= b < q.len() && a != b implies q[a] != q[b] by {
                if a < b {
                    assert(<String as crate::order::OrdKey>::key_lt(q[a], q[b]));
                } else {
                    assert(<String as crate::order::OrdKey>::key_lt(q[b], q[a]));
                }
            }
        }
        q.unique_seq_to_set();
    }
}

/// A scan with neither bound lists every id the index holds, just as
/// `all_row_ids` does, and as many ids as `entry_count` counts.
pub proof fn law_full_scan_lists_all(ix: SecondaryIndex)
    ensures
        ids_listing(sorted_keys::<IndexKey>(ix@.entries.dom()).filter(range_pred(None, None)), ix@.entries) == ids_listing(
            sorted_keys::<IndexKey>(ix@.entries.dom()),
            ix@.entries,
        ),
        ids_listing(sorted_keys::<IndexKey>(ix@.entries.dom()), ix@.entries).len() == ids_count(
            sorted_keys::<IndexKey>(ix@.entries.dom()),
            ix@.entries,
        ),
{
    let e = ix@.entries;
    let ks = sorted_keys::<IndexKey>(e.dom());
    lemma_filter_all(ks, range_pred(None, None));
    ix.lemma_entries_finite();
    crate::ordmap::lemma_sorted_keys_finite::<IndexKey>(e.dom());
    assert forall|i: int| 0 <= i < ks.len() implies (#[trigger] e[ks[i]]).finite() by {
        assert(ks.to_set().contains(ks[i]));
    }
    lemma_listing_len(ks, e);
}

/// Rows with pairwise distinct ids.
pub open spec fn ids_distinct(rows: Seq<RowView>) -> bool {
    forall|a: int, b: int| 0 <= a < rows.len() && 0 <= b < rows.len() && a != b ==> rows[a].id != rows[b].id
}

/// `id` stands under `k` in `m`.
pub open spec fn entry_has(m: IndexEntries, k: Seq<ValueView>, id: Seq<char>) -> bool {
    m.contains_key(k) && m[k].contains(id)
}

/// Maps without empty keys that hold the same ids under the same keys are
/// equal.
proof fn lemma_entries_ext(m1: IndexEntries, m2: IndexEntries)
    requires
        no_empty_keys(m1),
        no_empty_keys(m2),
        forall|k: Seq<ValueView>, id: Seq<char>| #[trigger] entry_has(m1, k, id) == entry_has(m2, k, id),
    ensures
        m1 == m2,
{
    assert forall|k: Seq<ValueView>| #[trigger] m1.contains_key(k) == m2.contains_key(k) by {
        if m1.contains_key(k) {
            assert(m1[k].len() > 0);
            assert(exists|x: Seq<char>| m1[k].contains(x)) by {
                if !(exists|x: Seq<char>| m1[k].contains(x)) {
                    assert(m1[k] =~= Set::<Seq<char>>::empty());
                }
            }
            let id = choose|x: Seq<char>| m1[k].contains(x);
            assert(entry_has(m1, k, id));
            assert(entry_has(m1, k, id) == entry_has(m2, k, id));
        }
        if m2.contains_key(k) {
            assert(m2[k].len() > 0);
            assert(exists|x: Seq<char>| m2[k].contains(x)) by {
                if !(exists|x: Seq<char>| m2[k].contains(x)) {
                    assert(m2[k] =~= Set::<Seq<char>>::empty());
                }
            }
            let id = choose|x: Seq<char>| m2[k].contains(x);
            assert(entry_has(m2, k, id));
            assert(entry_has(m1, k, id) == entry_has(m2, k, id));
        }
    }
    assert forall|k: Seq<ValueView>| #[trigger] m1.contains_key(k) implies m1[k] =~= m2[k] by {
        assert forall|id: Seq<char>| m1[k].contains(id) == m2[k].contains(id) by {
            assert(entry_has(m1, k, id) == entry_has(m2, k, id));
        }
    }
    assert(m1 =~= m2);
}

/// What an update does to each (key, id) pair, and that it leaves no key
/// without ids.
proof fn lemma_updated_has(ix: SecondaryIndexView, old_row: Option<RowView>, new_row: RowView, k: Seq<ValueView>, id: Seq<char>)
    requires
        no_empty_keys(ix.entries),
    ensures
        no_empty_keys(updated(ix, old_row, new_row).entries),
        entry_has(updated(ix, old_row, new_row).entries, k, id) == ((entry_has(ix.entries, k, id) && !(old_row matches Some(
            o,
        ) && row_indexed(ix.def.columns, o, k, id))) || row_indexed(ix.def.columns, new_row, k, id)),
{
    let cols = ix.def.columns;
    let e = ix.entries;
    let d = match old_row {
        Some(o) => if o.deleted {
            e
        } else {
            entries_remove(e, key_of(cols, o), o.id)
        },
        None => e,
    };
    assert(no_empty_keys(d)) by {
        if let Some(o) = old_row {
            if !o.deleted {
                let ko = key_of(cols, o);
                if e.contains_key(ko) && e[ko].remove(o.id).len() != 0 {
                    assert forall|kk: Seq<ValueView>| #[trigger] d.contains_key(kk) implies d[kk].finite() && d[kk].len() > 0 by {
                        if kk == ko {
                            assert(d[kk] == e[ko].remove(o.id));
                        }
                    }
                }
            }
        }
    }
    let u = updated(ix, old_row, new_row).entries;
    assert forall|kk: Seq<ValueView>| #[trigger] u.contains_key(kk) implies u[kk].finite() && u[kk].len() > 0 by {
        if !new_row.deleted && kk == key_of(cols, new_row) {
            if d.contains_key(kk) {
                assert(u[kk] == d[kk].insert(new_row.id));
                assert(u[kk].contains(new_row.id));
            } else {
                assert(u[kk] == Set::<Seq<char>>::empty().insert(new_row.id));
            }
            assert(u[kk].contains(new_row.id));
            if u[kk].len() == 0 {
                u[kk].lemma_len0_is_empty();
            }
        }
    }
}

/// Updating an index for a row that changed agrees with rebuilding it: for
/// rows with distinct ids whose index is built from them, replacing row `i`
/// by `new_row` (of the same id) and updating gives the index built from
/// the new rows.
pub proof fn law_update_replaces_like_rebuild(ix: SecondaryIndexView, rows: Seq<RowView>, i: int, new_row: RowView)
    requires
        ids_distinct(rows),
        0 <= i < rows.len(),
        new_row.id == rows[i].id,
        ix.entries == built_entries(ix.def.columns, rows),
    ensures
        updated(ix, Some(rows[i]), new_row).entries == built_entries(ix.def.columns, rows.update(i, new_row)),
{
    let cols = ix.def.columns;
    let rows2 = rows.update(i, new_row);
    let u = updated(ix, Some(rows[i]), new_row).entries;
    let b = built_entries(cols, rows2);
    law_rebuild_contents(cols, rows, Seq::empty(), Seq::empty());
    law_rebuild_contents(cols, rows2, Seq::empty(), Seq::empty());
    lemma_updated_has(ix, Some(rows[i]), new_row, Seq::empty(), Seq::empty());
    assert forall|k: Seq<ValueView>, id: Seq<char>| #[trigger] entry_has(u, k, id) == entry_has(b, k, id) by {
        law_rebuild_contents(cols, rows, k, id);
        law_rebuild_contents(cols, rows2, k, id);
        lemma_updated_has(ix, Some(rows[i]), new_row, k, id);
        if entry_has(b, k, id) {
            let j = choose|j: int| 0 <= j < rows2.len() && row_indexed(cols, #[trigger] rows2[j], k, id);
            if j != i {
                assert(rows2[j] == rows[j]);
                assert(row_indexed(cols, rows[j], k, id));
                assert(rows[j].id != rows[i].id);
                assert(built_entries(cols, rows).contains_key(k));
            }
        }
        if entry_has(ix.entries, k, id) && !row_indexed(cols, rows[i], k, id) {
            let j = choose|j: int| 0 <= j < rows.len() && row_indexed(cols, #[trigger] rows[j], k, id);
            assert(j != i);
            assert(rows2[j] == rows[j]);
            assert(b.contains_key(k));
        }
        if row_indexed(cols, new_row, k, id) {
            assert(rows2[i] == new_row);
            assert(b.contains_key(k));
        }
    }
    lemma_entries_ext(u, b);
}

/// Updating an index for a new row agrees with rebuilding it: for rows none
/// of which has `new_row`'s id, adding it and updating gives the index built
/// from the rows with `new_row` added.
pub proof fn law_update_adds_like_rebuild(ix: SecondaryIndexView, rows: Seq<RowView>, new_row: RowView)
    requires
        forall|j: int| 0 <= j < rows.len() ==> (#[trigger] rows[j]).id != new_row.id,
        ix.entries == built_entries(ix.def.columns, rows),
    ensures
        updated(ix, None, new_row).entries == built_entries(ix.def.columns, rows.push(new_row)),
{
    let cols = ix.def.columns;
    let rows2 = rows.push(new_row);
    let u = updated(ix, None, new_row).entries;
    let b = built_entries(cols, rows2);
    law_rebuild_contents(cols, rows, Seq::empty(), Seq::empty());
    law_rebuild_contents(cols, rows2, Seq::empty(), Seq::empty());
    lemma_updated_has(ix, None, new_row, Seq::empty(), Seq::empty());
    assert forall|k: Seq<ValueView>, id: Seq<char>| #[trigger] entry_has(u, k, id) == entry_has(b, k, id) by {
        law_rebuild_contents(cols, rows, k, id);
        law_rebuild_contents(cols, rows2, k, id);
        lemma_updated_has(ix, None, new_row, k, id);
        if entry_has(b, k, id) {
            let j = choose|j: int| 0 <= j < rows2.len() && row_indexed(cols, #[trigger] rows2[j], k, id);
            if j < rows.len() {
                assert(rows2[j] == rows[j]);
                assert(built_entries(cols, rows).contains_key(k));
            }
        }
        if entry_has(ix.entries, k, id) {
            let j = choose|j: int| 0 <= j < rows.len() && row_indexed(cols, #[trigger] rows[j], k, id);
            assert(rows2[j] == rows[j]);
            assert(b.contains_key(k));
        }
        if row_indexed(cols, new_row, k, id) {
            assert(rows2[rows.len() as int] == new_row);
            assert(b.contains_key(k));
        }
    }
    lemma_entries_ext(u, b);
}

/// The key a row is indexed under holds, at each position, the value of
/// the index's column at that position in the row, `Null` where the row
/// lacks the column: an index built from rows files every visible row's id
/// under exactly that key.
pub proof fn law_index_key_in_column_order(cols: Seq<Seq<char>>, rows: Seq<RowView>, i: int)
    requires
        0 <= i < rows.len(),
        !rows[i].deleted,
    ensures
        key_of(cols, rows[i]).len() == cols.len(),
        forall|j: int| 0 <= j < cols.len() ==> #[trigger] key_of(cols, rows[i])[j] == (if rows[i].cells.contains_key(cols[j]) {
            rows[i].cells[cols[j]].value
        } else {
            ValueView::Null
        }),
        exists|k: Seq<ValueView>|
            #![trigger built_entries(cols, rows)[k]]
            built_entries(cols, rows).contains_key(k) && built_entries(cols, rows)[k].contains(rows[i].id) && k.len()
                == cols.len() && forall|j: int|
                0 <= j < cols.len() ==> #[trigger] k[j] == (if rows[i].cells.contains_key(cols[j]) {
                    rows[i].cells[cols[j]].value
                } else {
                    ValueView::Null
                }),
{
    let k = key_of(cols, rows[i]);
    law_rebuild_contents(cols, rows, k, rows[i].id);
    assert(row_indexed(cols, rows[i], k, rows[i].id));
    assert(built_entries(cols, rows).contains_key(k));
    assert(built_entries(cols, rows)[k].contains(rows[i].id));
}

} // verus!
