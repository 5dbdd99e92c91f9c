//! An ordered map held as a vector of entries sorted strictly by key. Its
//! iteration order is the key order, so every replica that holds the same
//! entries walks them in the same order.
use vstd::prelude::*;
use crate::order::{Order, OrdKey, lemma_key_laws};

verus! {

/// Values that can be copied with their view intact.
pub trait DeepCopy: View + Sized {
    fn deep_copy(&self) -> (r: Self)
        ensures
            r@ == self@,
    ;
}

impl DeepCopy for u64 {
    fn deep_copy(&self) -> (r: Self) {
        *self
    }
}

impl DeepCopy for () {
    fn deep_copy(&self) -> (r: Self) {
        ()
    }
}

impl DeepCopy for String {
    fn deep_copy(&self) -> (r: Self) {
        self.clone()
    }
}

/// Keys strictly increase along `ks`.
pub open spec fn strictly_sorted<K: OrdKey>(ks: Seq<K::V>) -> bool {
    forall|i: int, j: int| 0 <= i < j < ks.len() ==> K::key_lt(#[trigger] ks[i], #[trigger] ks[j])
}

/// The view of `OrdMap`: each key of `ks` to the value at its position in `vs`.
pub open spec fn map_of<A, B>(ks: Seq<A>, vs: Seq<B>) -> Map<A, B> {
    Map::new(|k: A| ks.contains(k), |k: A| vs[ks.index_of(k)])
}

/// The elements of a set of keys, in increasing order.
pub open spec fn sorted_keys<K: OrdKey>(s: Set<K::V>) -> Seq<K::V> {
    choose|q: Seq<K::V>| strictly_sorted::<K>(q) && q.to_set() == s
}

/// Two strictly sorted sequences with the same elements are equal.
pub proof fn lemma_sorted_unique<K: OrdKey>(a: Seq<K::V>, b: Seq<K::V>)
    requires
        strictly_sorted::<K>(a),
        strictly_sorted::<K>(b),
        a.to_set() == b.to_set(),
    ensures
        a == b,
    decreases a.len(),
{
    lemma_key_laws::<K>();
    if a.len() == 0 {
        if b.len() > 0 {
            assert(b.to_set().contains(b[0]));
            assert(a.contains(b[0]));
        }
        assert(a =~= b);
    } else {
        assert(a.to_set().contains(a[0]));
        assert(b.contains(a[0]));
        let j = choose|j: int| 0 <= j < b.len() && b[j] == a[0];
        assert(b.to_set().contains(b[0]));
        assert(a.contains(b[0]));
        let i = choose|i: int| 0 <= i < a.len() && a[i] == b[0];
        if a[0] != b[0] {
            assert(j > 0 && i > 0);
            assert(K::key_lt(b[0], b[j]));
            assert(K::key_lt(a[0], a[i]));
            assert(false);
        }
        let da = a.drop_first();
        let db = b.drop_first();
        assert(strictly_sorted::<K>(da)) by {
            assert forall|x: int, y: int| 0 <= x < y < da.len() implies K::key_lt(#[trigger] da[x], #[trigger] da[y]) by {
                assert(K::key_lt(a[x + 1], a[y + 1]));
            }
        }
        assert(strictly_sorted::<K>(db)) by {
            assert forall|x: int, y: int| 0 <= x < y < db.len() implies K::key_lt(#[trigger] db[x], #[trigger] db[y]) by {
                assert(K::key_lt(b[x + 1], b[y + 1]));
            }
        }
        assert(da.to_set() =~= db.to_set()) by {
            assert forall|x: K::V| da.to_set().contains(x) implies db.to_set().contains(x) by {
                let k = choose|k: int| 0 <= k < da.len() && da[k] == x;
                assert(K::key_lt(a[0], a[k + 1]));
                assert(a.to_set().contains(x));
                assert(b.contains(x));
                let m = choose|m: int| 0 <= m < b.len() && b[m] == x;
                assert(m != 0);
                assert(db[m - 1] == x);
            }
            assert forall|x: K::V| db.to_set().contains(x) implies da.to_set().contains(x) by {
                let k = choose|k: int| 0 <= k < db.len() && db[k] == x;
                assert(K::key_lt(b[0], b[k + 1]));
                assert(b.to_set().contains(x));
                assert(a.contains(x));
                let m = choose|m: int| 0 <= m < a.len() && a[m] == x;
                assert(m != 0);
                assert(da[m - 1] == x);
            }
        }
        lemma_sorted_unique::<K>(da, db);
        assert forall|x: int| 0 <= x < a.len() implies a[x] == b[x] by {
            if x > 0 {
                assert(a[x] == da[x - 1]);
                assert(b[x] == db[x - 1]);
            }
        }
        assert(a =~= b);
    }
}

/// A strictly sorted sequence is the sorted listing of its elements.
pub proof fn lemma_sorted_keys_of<K: OrdKey>(q: Seq<K::V>, s: Set<K::V>)
    requires
        strictly_sorted::<K>(q),
        q.to_set() == s,
    ensures
        sorted_keys::<K>(s) == q,
{
    let w = sorted_keys::<K>(s);
    assert(strictly_sorted::<K>(w) && w.to_set() == s);
    lemma_sorted_unique::<K>(w, q);
}

/// Inserting a new key into a strictly sorted sequence keeps a strictly
/// sorted sequence possible.
proof fn lemma_sorted_insert<K: OrdKey>(q: Seq<K::V>, x: K::V)
    requires
        strictly_sorted::<K>(q),
        !q.contains(x),
    ensures
        exists|q2: Seq<K::V>| strictly_sorted::<K>(q2) && q2.to_set() == q.to_set().insert(x),
    decreases q.len(),
{
    lemma_key_laws::<K>();
    if q.len() == 0 {
        let q2 = seq![x];
        assert(q2.to_set() =~= q.to_set().insert(x)) by {
            assert(q2[0] == x);
        }
        assert(strictly_sorted::<K>(q2));
    } else if K::key_lt(q.last(), x) {
        let q2 = q.push(x);
        assert(strictly_sorted::<K>(q2)) by {
            assert forall|i: int, j: int| 0 <= i < j < q2.len() implies K::key_lt(#[trigger] q2[i], #[trigger] q2[j]) by {
                if j == q.len() {
                    if i < q.len() - 1 {
                        assert(K::key_lt(q[i], q[q.len() - 1]));
                    }
                } else {
                    assert(K::key_lt(q[i], q[j]));
                }
            }
        }
        assert forall|y: K::V| q2.to_set().contains(y) == q.to_set().insert(x).contains(y) by {
            if q.contains(y) {
                let i = choose|i: int| 0 <= i < q.len() && q[i] == y;
                assert(q2[i] == y);
            }
            if q2.contains(y) && y != x {
                let i = choose|i: int| 0 <= i < q2.len() && q2[i] == y;
                assert(q[i] == y);
            }
            if y == x {
                assert(q2[q.len() as int] == x);
            }
        }
        assert(q2.to_set() =~= q.to_set().insert(x));
    } else {
        let last = q.last();
        let front = q.drop_last();
        assert(K::key_lt(x, last)) by {
            assert(q[q.len() - 1] == last);
        }
        assert(strictly_sorted::<K>(front)) by {
            assert forall|i: int, j: int| 0 <= i < j < front.len() implies K::key_lt(#[trigger] front[i], #[trigger] front[j]) by {
                assert(K::key_lt(q[i], q[j]));
            }
        }
        assert(!front.contains(x)) by {
            if front.contains(x) {
                let i = choose|i: int| 0 <= i < front.len() && front[i] == x;
                assert(q[i] == x);
            }
        }
        lemma_sorted_insert::<K>(front, x);
        let q3 = choose|q3: Seq<K::V>| strictly_sorted::<K>(q3) && q3.to_set() == front.to_set().insert(x);
        let q2 = q3.push(last);
        assert forall|i: int| 0 <= i < q3.len() implies K::key_lt(#[trigger] q3[i], last) by {
            assert(q3.to_set().contains(q3[i]));
            let y = q3[i];
            if y != x {
                assert(front.contains(y));
                let k = choose|k: int| 0 <= k < front.len() && front[k] == y;
                assert(K::key_lt(q[k], q[q.len() - 1]));
            }
        }
        assert(strictly_sorted::<K>(q2)) by {
            assert forall|i: int, j: int| 0 <= i < j < q2.len() implies K::key_lt(#[trigger] q2[i], #[trigger] q2[j]) by {
                if j == q3.len() {
                    assert(K::key_lt(q3[i], last));
                } else {
                    assert(K::key_lt(q3[i], q3[j]));
                }
            }
        }
        assert forall|y: K::V| q2.to_set().contains(y) == q.to_set().insert(x).contains(y) by {
            if q2.contains(y) {
                let i = choose|i: int| 0 <= i < q2.len() && q2[i] == y;
                if i < q3.len() {
                    assert(q3[i] == y);
                    assert(q3.to_set().contains(y));
                    if y != x {
                        assert(front.contains(y));
                        let k = choose|k: int| 0 <= k < front.len() && front[k] == y;
                        assert(q[k] == y);
                    }
                } else {
                    assert(q[q.len() - 1] == y);
                }
            }
            if q.contains(y) {
                let k = choose|k: int| 0 <= k < q.len() && q[k] == y;
                if k < q.len() - 1 {
                    assert(front[k] == y);
                    assert(q3.to_set().contains(y));
                    let i = choose|i: int| 0 <= i < q3.len() && q3[i] == y;
                    assert(q2[i] == y);
                } else {
                    assert(q2[q3.len() as int] == y);
                }
            }
            if y == x {
                assert(q3.to_set().contains(x));
                let i = choose|i: int| 0 <= i < q3.len() && q3[i] == x;
                assert(q2[i] == x);
            }
        }
        assert(q2.to_set() =~= q.to_set().insert(x));
    }
}

/// Every finite set of keys has its sorted listing.
pub proof fn lemma_sorted_keys_finite<K: OrdKey>(s: Set<K::V>)
    requires
        s.finite(),
    ensures
        strictly_sorted::<K>(sorted_keys::<K>(s)),
        sorted_keys::<K>(s).to_set() == s,
    decreases s.len(),
{
    if s.len() == 0 {
        s.lemma_len0_is_empty();
        let q = Seq::<K::V>::empty();
        assert(q.to_set() =~= s);
    } else {
        let x = s.choose();
        assert(s.contains(x));
        let rest = s.remove(x);
        lemma_sorted_keys_finite::<K>(rest);
        let q = sorted_keys::<K>(rest);
        assert(!q.contains(x)) by {
            if q.contains(x) {
                assert(q.to_set().contains(x));
            }
        }
        lemma_sorted_insert::<K>(q, x);
        assert(rest.insert(x) =~= s);
    }
}

spec fn keys_of<K: View, V>(e: Seq<(K, V)>) -> Seq<K::V> {
    Seq::new(e.len(), |i: int| e[i].0@)
}

spec fn vals_of<K, V: View>(e: Seq<(K, V)>) -> Seq<V::V> {
    Seq::new(e.len(), |i: int| e[i].1@)
}

#[derive(Debug, PartialEq, Eq)]
pub struct OrdMap<K: OrdKey, V: View> {
    entries: Vec<(K, V)>,
}

impl<K: OrdKey, V: View> OrdMap<K, V> {
    /// The keys, in increasing order.
    pub closed spec fn key_seq(&self) -> Seq<K::V> {
        keys_of(self.entries@)
    }

    /// The values, in the order of their keys.
    pub closed spec fn val_seq(&self) -> Seq<V::V> {
        vals_of(self.entries@)
    }

    #[verifier::type_invariant]
    closed spec fn inv(&self) -> bool {
        strictly_sorted::<K>(self.key_seq())
    }

    /// What holds of every map: the keys are sorted and distinct, and the
    /// view maps the key at each position to the value at that position.
    pub open spec fn shape(&self) -> bool {
        &&& self.val_seq().len() == self.key_seq().len()
        &&& strictly_sorted::<K>(self.key_seq())
        &&& self.key_seq().no_duplicates()
        &&& self@ == map_of(self.key_seq(), self.val_seq())
        &&& self@.dom() == self.key_seq().to_set()
        &&& self@.dom().finite()
        &&& self@.len() == self.key_seq().len()
        &&& forall|i: int|
            0 <= i < self.key_seq().len() ==> #[trigger] self@[self.key_seq()[i]]
                == self.val_seq()[i]
    }
}

impl<K: OrdKey, V: View> OrdMap<K, V> {
    /// The value stored at position `i`, in key order.
    pub closed spec fn stored(&self, i: int) -> V {
        self.entries@[i].1
    }

    /// Every map holds finitely many keys, and each value it maps a key to
    /// is the view of a value it stores.
    pub proof fn lemma_finite(&self)
        ensures
            self@.dom().finite(),
            forall|k: K::V| #[trigger] self@.contains_key(k) ==> exists|i: int|
                0 <= i < self.key_seq().len() && self@[k] == (#[trigger] self.stored(i))@,
    {
        let ks = self.key_seq();
        assert(self@.dom() =~= ks.to_set());
        vstd::seq_lib::seq_to_set_is_finite(ks);
        assert forall|k: K::V| #[trigger] self@.contains_key(k) implies exists|i: int|
            0 <= i < self.key_seq().len() && self@[k] == (#[trigger] self.stored(i))@ by {
            let i = ks.index_of(k);
            assert(0 <= i < ks.len());
            assert(self@[k] == self.val_seq()[i]);
            assert(self.val_seq()[i] == self.stored(i)@);
        }
    }
}

impl<K: OrdKey, V: View> View for OrdMap<K, V> {
    type V = Map<K::V, V::V>;

    closed spec fn view(&self) -> Map<K::V, V::V> {
        map_of(self.key_seq(), self.val_seq())
    }
}

/// A strictly sorted sequence has no duplicates, and the map built from it
/// has the expected shape.
proof fn lemma_sorted_shape<K: OrdKey, V: View>(ks: Seq<K::V>, vs: Seq<V::V>)
    requires
        strictly_sorted::<K>(ks),
        vs.len() == ks.len(),
    ensures
        ks.no_duplicates(),
        map_of(ks, vs).dom() == ks.to_set(),
        map_of(ks, vs).dom().finite(),
        map_of(ks, vs).len() == ks.len(),
        forall|i: int| 0 <= i < ks.len() ==> #[trigger] map_of(ks, vs)[ks[i]] == vs[i],
{
    lemma_key_laws::<K>();
    assert forall|i: int, j: int| 0 <= i < ks.len() && 0 <= j < ks.len() && i != j implies ks[i]
        != ks[j] by {
        if i < j {
            assert(K::key_lt(ks[i], ks[j]));
        } else {
            assert(K::key_lt(ks[j], ks[i]));
        }
    }
    assert(map_of(ks, vs).dom() =~= ks.to_set());
    ks.unique_seq_to_set();
    vstd::seq_lib::seq_to_set_is_finite(ks);
    assert forall|i: int| 0 <= i < ks.len() implies #[trigger] map_of(ks, vs)[ks[i]] == vs[i] by {
        assert(ks.contains(ks[i]));
        let j = ks.index_of(ks[i]);
        assert(0 <= j < ks.len() && ks[j] == ks[i]);
    }
}

impl<K: OrdKey, V: View> OrdMap<K, V> {
    proof fn lemma_shape(&self)
        requires
            self.inv(),
        ensures
            self.shape(),
    {
        lemma_sorted_shape::<K, V>(self.key_seq(), self.val_seq());
    }

    pub fn new() -> (r: Self)
        ensures
            r@ == Map::<K::V, V::V>::empty(),
            r.key_seq() == Seq::<K::V>::empty(),
            r.shape(),
    {
        let r = OrdMap { entries: Vec::new() };
        proof {
            lemma_sorted_shape::<K, V>(r.key_seq(), r.val_seq());
        }
        assert(r@ =~= Map::<K::V, V::V>::empty());
        assert(r.key_seq() =~= Seq::<K::V>::empty());
        r
    }

    /// The number of entries; also makes the map's shape known.
    pub fn len(&self) -> (r: usize)
        ensures
            r == self.key_seq().len(),
            self.shape(),
    {
        proof {
            use_type_invariant(self);
            self.lemma_shape();
        }
        self.entries.len()
    }

    pub fn key_at(&self, i: usize) -> (r: &K)
        requires
            i < self.key_seq().len(),
        ensures
            r@ == self.key_seq()[i as int],
    {
        &self.entries[i].0
    }

    pub fn value_at(&self, i: usize) -> (r: &V)
        requires
            i < self.key_seq().len(),
        ensures
            r@ == self.val_seq()[i as int],
    {
        &self.entries[i].1
    }

    /// The position of `k`, if it is a key.
    pub fn find(&self, k: &K) -> (r: Option<usize>)
        ensures
            self.shape(),
            match r {
                Some(i) => i < self.key_seq().len() && self.key_seq()[i as int] == k@,
                None => !self@.contains_key(k@),
            },
    {
        proof {
            use_type_invariant(self);
            self.lemma_shape();
        }
        let n = self.entries.len();
        let mut i: usize = 0;
        while i < n
            invariant
                n == self.key_seq().len(),
                i <= n,
                self.shape(),
                forall|j: int| 0 <= j < i ==> self.key_seq()[j] != k@,
            decreases n - i,
        {
            if self.entries[i].0.compare(k) == Order::Equal {
                return Some(i);
            }
            i = i + 1;
        }
        None
    }

    pub fn contains_key(&self, k: &K) -> (r: bool)
        ensures
            r == self@.contains_key(k@),
    {
        match self.find(k) {
            Some(_) => true,
            None => false,
        }
    }

    pub fn get(&self, k: &K) -> (r: Option<&V>)
        ensures
            match r {
                Some(v) => self@.contains_key(k@) && self@[k@] == v@,
                None => !self@.contains_key(k@),
            },
    {
        match self.find(k) {
            Some(i) => Some(&self.entries[i].1),
            None => None,
        }
    }

    /// Maps `k` to `v`, in place of any value `k` had.
    pub fn insert(&mut self, k: K, v: V)
        ensures
            final(self)@ == old(self)@.insert(k@, v@),
    {
        proof {
            use_type_invariant(&*self);
            self.lemma_shape();
            lemma_key_laws::<K>();
        }
        let ghost old_ks = self.key_seq();
        let ghost old_vs = self.val_seq();
        let ghost kv = k@;
        let n = self.entries.len();
        let mut i: usize = 0;
        while i < n && self.entries[i].0.compare(&k) == Order::Less
            invariant
                n == self.key_seq().len(),
                i <= n,
                forall|j: int| 0 <= j < i ==> K::key_lt(#[trigger] self.key_seq()[j], k@),
            decreases n - i,
        {
            i = i + 1;
        }
        let mut e: Vec<(K, V)> = Vec::new();
        std::mem::swap(&mut e, &mut self.entries);
        if i < n && e[i].0.compare(&k) == Order::Equal {
            assert(old_ks[i as int] == kv);
            e.set(i, (k, v));
            assert(keys_of(e@) =~= old_ks);
            self.entries = e;
            proof {
                assert(self.val_seq() =~= old_vs.update(i as int, v@));
                lemma_sorted_shape::<K, V>(self.key_seq(), self.val_seq());
                assert forall|key: K::V| #[trigger] self@.contains_key(key) implies self@[key]
                    == old(self)@.insert(kv, v@)[key] by {
                    let j = self.key_seq().index_of(key);
                    assert(self.key_seq()[j] == key);
                    assert(self@[self.key_seq()[j]] == self.val_seq()[j]);
                    assert(old(self)@[old_ks[j]] == old_vs[j]);
                    if j == i {
                        assert(self.val_seq()[j] == v@);
                    } else {
                        assert(key != kv);
                    }
                }
                assert(self@ =~= old(self)@.insert(kv, v@));
            }
        } else {
            proof {
                if i < n {
                    assert(K::key_lt(kv, old_ks[i as int]));
                }
            }
            e.insert(i, (k, v));
            assert(keys_of(e@) =~= old_ks.insert(i as int, kv));
            assert(strictly_sorted::<K>(keys_of(e@))) by {
                let ks = keys_of(e@);
                assert forall|a: int, b: int| 0 <= a < b < ks.len() implies K::key_lt(
                    #[trigger] ks[a],
                    #[trigger] ks[b],
                ) by {
                    if b == i {
                        assert(K::key_lt(old_ks[a], kv));
                    } else if a == i {
                        assert(K::key_lt(kv, old_ks[i as int]));
                        if b - 1 > i {
                            assert(K::key_lt(old_ks[i as int], old_ks[b - 1]));
                        }
                    } else if a < i && b > i {
                        assert(K::key_lt(old_ks[a], kv));
                        assert(K::key_lt(kv, old_ks[i as int]));
                        if b - 1 > i {
                            assert(K::key_lt(old_ks[i as int], old_ks[b - 1]));
                        }
                    } else if a > i {
                        assert(K::key_lt(old_ks[a - 1], old_ks[b - 1]));
                    } else {
                        assert(K::key_lt(old_ks[a], old_ks[b]));
                    }
                }
            }
            self.entries = e;
            proof {
                assert(self.key_seq() =~= old_ks.insert(i as int, kv));
                assert(self.val_seq() =~= old_vs.insert(i as int, v@));
                lemma_sorted_shape::<K, V>(self.key_seq(), self.val_seq());
                assert(!old_ks.contains(kv)) by {
                    if old_ks.contains(kv) {
                        let j = old_ks.index_of(kv);
                        if j < i {
                            assert(K::key_lt(old_ks[j], kv));
                        } else if j > i {
                            assert(K::key_lt(kv, old_ks[i as int]));
                            assert(K::key_lt(old_ks[i as int], old_ks[j]));
                        }
                    }
                }
                assert forall|key: K::V| #[trigger]
                    self@.contains_key(key) == old(self)@.insert(kv, v@).contains_key(key) by {
                    if key == kv {
                        assert(self.key_seq()[i as int] == kv);
                    }
                    if key != kv && self.key_seq().contains(key) {
                        let j = self.key_seq().index_of(key);
                        assert(self.key_seq()[j] == key);
                        if j < i {
                            assert(old_ks[j] == key);
                        } else {
                            assert(j != i);
                            assert(j > i);
                            assert(j < self.key_seq().len());
                            assert(old_ks.insert(i as int, kv)[j] == old_ks[j - 1]);
                            assert(self.key_seq()[j] == old_ks[j - 1]);
                            assert(old_ks.contains(key));
                        }
                    }
                    if old_ks.contains(key) {
                        let j = old_ks.index_of(key);
                        if j < i {
                            assert(self.key_seq()[j] == key);
                        } else {
                            assert(self.key_seq()[j + 1] == key);
                        }
                    }
                }
                assert forall|key: K::V| #[trigger] self@.contains_key(key) implies self@[key]
                    == old(self)@.insert(kv, v@)[key] by {
                    let j = self.key_seq().index_of(key);
                    assert(self@[self.key_seq()[j]] == self.val_seq()[j]);
                    if j < i {
                        assert(old(self)@[old_ks[j]] == old_vs[j]);
                    } else if j > i {
                        assert(old(self)@[old_ks[j - 1]] == old_vs[j - 1]);
                    }
                }
                assert(self@ =~= old(self)@.insert(kv, v@));
            }
        }
    }

    /// Removes `k`, giving back its value if it had one.
    pub fn remove(&mut self, k: &K) -> (r: Option<V>)
        ensures
            final(self)@ == old(self)@.remove(k@),
            match r {
                Some(v) => old(self)@.contains_key(k@) && old(self)@[k@] == v@,
                None => !old(self)@.contains_key(k@),
            },
    {
        proof {
            use_type_invariant(&*self);
            self.lemma_shape();
            lemma_key_laws::<K>();
        }
        match self.find(k) {
            None => {
                assert(old(self)@ =~= old(self)@.remove(k@));
                None
            },
            Some(i) => {
                let ghost old_ks = self.key_seq();
                let ghost old_vs = self.val_seq();
                let mut e: Vec<(K, V)> = Vec::new();
                std::mem::swap(&mut e, &mut self.entries);
                let (_, v) = e.remove(i);
                assert(keys_of(e@) =~= old_ks.remove(i as int));
                assert(strictly_sorted::<K>(keys_of(e@))) by {
                    let ks = keys_of(e@);
                    assert forall|a: int, b: int| 0 <= a < b < ks.len() implies K::key_lt(
                        #[trigger] ks[a],
                        #[trigger] ks[b],
                    ) by {
                        if a < i && b >= i {
                            assert(K::key_lt(old_ks[a], old_ks[b + 1]));
                        } else if a >= i {
                            assert(K::key_lt(old_ks[a + 1], old_ks[b + 1]));
                        } else {
                            assert(K::key_lt(old_ks[a], old_ks[b]));
                        }
                    }
                }
                self.entries = e;
                proof {
                    assert(self.key_seq() =~= old_ks.remove(i as int));
                    assert(self.val_seq() =~= old_vs.remove(i as int));
                    lemma_sorted_shape::<K, V>(self.key_seq(), self.val_seq());
                    assert forall|key: K::V| #[trigger]
                        self@.contains_key(key) == old(self)@.remove(k@).contains_key(key) by {
                        if self.key_seq().contains(key) {
                            let j = self.key_seq().index_of(key);
                            if j < i {
                                assert(old_ks[j] == key);
                            } else {
                                assert(old_ks[j + 1] == key);
                            }
                        }
                        if key != k@ && old_ks.contains(key) {
                            let j = old_ks.index_of(key);
                            if j < i {
                                assert(self.key_seq()[j] == key);
                            } else {
                                assert(self.key_seq()[j - 1] == key);
                            }
                        }
                    }
                    assert forall|key: K::V| #[trigger] self@.contains_key(key) implies self@[key]
                        == old(self)@.remove(k@)[key] by {
                        let j = self.key_seq().index_of(key);
                        assert(self@[self.key_seq()[j]] == self.val_seq()[j]);
                        if j < i {
                            assert(old(self)@[old_ks[j]] == old_vs[j]);
                        } else {
                            assert(old(self)@[old_ks[j + 1]] == old_vs[j + 1]);
                        }
                    }
                    assert(self@ =~= old(self)@.remove(k@));
                }
                Some(v)
            },
        }
    }

    /// Replaces the value at position `i`, giving back the value it had.
    pub fn replace_at(&mut self, i: usize, v: V) -> (r: V)
        requires
            i < old(self).key_seq().len(),
        ensures
            final(self).key_seq() == old(self).key_seq(),
            final(self).val_seq() == old(self).val_seq().update(i as int, v@),
            final(self)@ == old(self)@.insert(old(self).key_seq()[i as int], v@),
            r@ == old(self).val_seq()[i as int],
    {
        proof {
            use_type_invariant(&*self);
            self.lemma_shape();
        }
        let ghost old_ks = self.key_seq();
        let ghost old_vs = self.val_seq();
        let mut e: Vec<(K, V)> = Vec::new();
        std::mem::swap(&mut e, &mut self.entries);
        let (k, old_v) = e.remove(i);
        e.insert(i, (k, v));
        assert(keys_of(e@) =~= old_ks);
        self.entries = e;
        proof {
            assert(self.val_seq() =~= old_vs.update(i as int, v@));
            lemma_sorted_shape::<K, V>(self.key_seq(), self.val_seq());
            assert(self@ =~= old(self)@.insert(old_ks[i as int], v@));
        }
        old_v
    }

    /// The keys, copied, in increasing order.
    pub fn keys(&self) -> (r: Vec<K>)
        ensures
            r@.len() == self.key_seq().len(),
            forall|i: int| 0 <= i < r@.len() ==> (#[trigger] r@[i])@ == self.key_seq()[i],
            self.shape(),
    {
        let n = self.len();
        let mut out: Vec<K> = Vec::new();
        let mut i: usize = 0;
        while i < n
            invariant
                n == self.key_seq().len(),
                i <= n,
                out@.len() == i,
                forall|j: int| 0 <= j < i ==> (#[trigger] out@[j])@ == self.key_seq()[j],
            decreases n - i,
        {
            out.push(self.entries[i].0.copy_key());
            i = i + 1;
        }
        out
    }
}

impl<K: OrdKey, V: DeepCopy> Clone for OrdMap<K, V> {
    fn clone(&self) -> (r: Self)
        ensures
            r@ == self@,
    {
        self.deep_copy()
    }
}

impl<K: OrdKey, V: DeepCopy> DeepCopy for OrdMap<K, V> {
    fn deep_copy(&self) -> (r: Self) {
        proof {
            use_type_invariant(self);
        }
        let n = self.entries.len();
        let mut out: Vec<(K, V)> = Vec::new();
        let mut i: usize = 0;
        while i < n
            invariant
                n == self.entries@.len(),
                i <= n,
                out@.len() == i,
                forall|j: int| 0 <= j < i ==> (#[trigger] out@[j]).0@ == self.entries@[j].0@,
                forall|j: int| 0 <= j < i ==> (#[trigger] out@[j]).1@ == self.entries@[j].1@,
            decreases n - i,
        {
            out.push((self.entries[i].0.copy_key(), self.entries[i].1.deep_copy()));
            i = i + 1;
        }
        assert(keys_of(out@) =~= keys_of(self.entries@));
        let r = OrdMap { entries: out };
        assert(r.key_seq() =~= self.key_seq());
        assert(r.val_seq() =~= self.val_seq());
        r
    }
}

} // verus!
