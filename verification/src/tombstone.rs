//! The tombstone store: one tombstone per deleted (table, row), merged by
//! highest version and collected once causally stable.
use vstd::prelude::*;
use crate::order::{OrdKey, pair_lt};
use crate::ordmap::{OrdMap, DeepCopy};
use crate::types::{Frontier, Tombstone, TombstoneView, version_lt, lemma_version_order};
use crate::utils::{counter_of, frontier_covers, frontier_dominates, frontier_update};

verus! {

/// A tombstone is causally stable under a frontier once the frontier has
/// seen its delete: the frontier's counter for the deleting peer is at
/// least the delete's counter.
pub open spec fn tombstone_stable(t: TombstoneView, g: Map<Seq<char>, u64>) -> bool {
    counter_of(g, t.version.peer) >= t.version.counter
}

/// The key a tombstone is stored under.
pub open spec fn tombstone_key(t: TombstoneView) -> (Seq<char>, Seq<char>) {
    (t.table_id, t.row_id)
}

/// Tombstones strictly increase by (table, row).
pub open spec fn tombstones_sorted(s: Seq<TombstoneView>) -> bool {
    forall|i: int, j: int|
        0 <= i < j < s.len() ==> pair_lt(tombstone_key(#[trigger] s[i]), tombstone_key(#[trigger] s[j]))
}

/// `s` lists exactly the tombstones of `m`, in (table, row) order.
pub open spec fn lists_tombstones(s: Seq<TombstoneView>, m: Map<(Seq<char>, Seq<char>), TombstoneView>) -> bool {
    &&& tombstones_sorted(s)
    &&& forall|i: int|
        0 <= i < s.len() ==> m.contains_key(tombstone_key(#[trigger] s[i])) && m[tombstone_key(s[i])]
            == s[i]
    &&& forall|k: (Seq<char>, Seq<char>)|
        #[trigger] m.contains_key(k) ==> exists|i: int| 0 <= i < s.len() && tombstone_key(#[trigger] s[i]) == k
}

/// Tombstones merged key by key: where both have one, the higher version
/// wins, and the first on a tie.
pub open spec fn tombstones_merge_spec(
    a: Map<(Seq<char>, Seq<char>), TombstoneView>,
    b: Map<(Seq<char>, Seq<char>), TombstoneView>,
) -> Map<(Seq<char>, Seq<char>), TombstoneView> {
    Map::new(
        |k: (Seq<char>, Seq<char>)| a.contains_key(k) || b.contains_key(k),
        |k: (Seq<char>, Seq<char>)|
            if a.contains_key(k) && b.contains_key(k) {
                if version_lt(a[k].version, b[k].version) {
                    b[k]
                } else {
                    a[k]
                }
            } else if a.contains_key(k) {
                a[k]
            } else {
                b[k]
            },
    )
}

/// `out` holds, in order, exactly the tombstones satisfying `p` among the
/// first `i` of `all`.
pub open spec fn filtered_prefix(
    out: Seq<TombstoneView>,
    all: Seq<TombstoneView>,
    i: int,
    p: spec_fn(TombstoneView) -> bool,
) -> bool {
    &&& 0 <= i <= all.len()
    &&& tombstones_sorted(out)
    &&& forall|j: int|
        0 <= j < out.len() ==> p(#[trigger] out[j]) && exists|x: int| 0 <= x < i && out[j] == all[x]
    &&& forall|x: int| 0 <= x < i && p(#[trigger] all[x]) ==> exists|j: int| 0 <= j < out.len() && out[j] == all[x]
}

pub proof fn lemma_filtered_prefix_take(
    out: Seq<TombstoneView>,
    all: Seq<TombstoneView>,
    i: int,
    p: spec_fn(TombstoneView) -> bool,
)
    requires
        filtered_prefix(out, all, i, p),
        tombstones_sorted(all),
        i < all.len(),
        p(all[i]),
    ensures
        filtered_prefix(out.push(all[i]), all, i + 1, p),
{
    let o2 = out.push(all[i]);
    assert forall|a: int, b: int| 0 <= a < b < o2.len() implies pair_lt(
        tombstone_key(#[trigger] o2[a]),
        tombstone_key(#[trigger] o2[b]),
    ) by {
        if b == out.len() {
            let x = choose|x: int| 0 <= x < i && out[a] == all[x];
            assert(pair_lt(tombstone_key(all[x]), tombstone_key(all[i])));
        } else {
            assert(o2[a] == out[a] && o2[b] == out[b]);
        }
    }
    assert forall|j: int| 0 <= j < o2.len() implies p(#[trigger] o2[j]) && exists|x: int|
        0 <= x < i + 1 && o2[j] == all[x] by {
        if j < out.len() {
            assert(o2[j] == out[j]);
            let x = choose|x: int| 0 <= x < i && out[j] == all[x];
            assert(0 <= x < i + 1 && o2[j] == all[x]);
        } else {
            assert(o2[j] == all[i]);
        }
    }
    assert forall|x: int| 0 <= x < i + 1 && p(#[trigger] all[x]) implies exists|j: int|
        0 <= j < o2.len() && o2[j] == all[x] by {
        if x < i {
            let j = choose|j: int| 0 <= j < out.len() && out[j] == all[x];
            assert(o2[j] == out[j]);
        } else {
            assert(o2[out.len() as int] == all[x]);
        }
    }
}

pub proof fn lemma_filtered_prefix_skip(
    out: Seq<TombstoneView>,
    all: Seq<TombstoneView>,
    i: int,
    p: spec_fn(TombstoneView) -> bool,
)
    requires
        filtered_prefix(out, all, i, p),
        i < all.len(),
        !p(all[i]),
    ensures
        filtered_prefix(out, all, i + 1, p),
{
    assert forall|j: int| 0 <= j < out.len() implies p(#[trigger] out[j]) && exists|x: int|
        0 <= x < i + 1 && out[j] == all[x] by {
        let x = choose|x: int| 0 <= x < i && out[j] == all[x];
        assert(0 <= x < i + 1 && out[j] == all[x]);
    }
}

pub proof fn lemma_filtered_prefix_done(
    out: Seq<TombstoneView>,
    all: Seq<TombstoneView>,
    m: Map<(Seq<char>, Seq<char>), TombstoneView>,
    p: spec_fn(TombstoneView) -> bool,
)
    requires
        filtered_prefix(out, all, all.len() as int, p),
        lists_tombstones(all, m),
    ensures
        lists_tombstones(out, m.restrict(Set::new(|k: (Seq<char>, Seq<char>)| p(m[k])))),
{
    let sel = Set::new(|k: (Seq<char>, Seq<char>)| p(m[k]));
    let mr = m.restrict(sel);
    assert forall|j: int| 0 <= j < out.len() implies mr.contains_key(tombstone_key(#[trigger] out[j]))
        && mr[tombstone_key(out[j])] == out[j] by {
        let x = choose|x: int| 0 <= x < all.len() && out[j] == all[x];
        assert(m.contains_key(tombstone_key(all[x])));
        assert(sel.contains(tombstone_key(out[j])));
    }
    assert forall|k: (Seq<char>, Seq<char>)| #[trigger] mr.contains_key(k) implies exists|j: int|
        0 <= j < out.len() && tombstone_key(#[trigger] out[j]) == k by {
        let x = choose|x: int| 0 <= x < all.len() && tombstone_key(#[trigger] all[x]) == k;
        assert(p(all[x]));
        let j = choose|j: int| 0 <= j < out.len() && out[j] == all[x];
        assert(tombstone_key(out[j]) == k);
    }
}

/// Tracks tombstones and supports causal-stability-based GC.
#[derive(Debug)]
pub struct TombstoneStore {
    /// (table_id, row_id) -> tombstone
    tombstones: OrdMap<(String, String), Tombstone>,
}

impl View for TombstoneStore {
    type V = Map<(Seq<char>, Seq<char>), TombstoneView>;

    closed spec fn view(&self) -> Self::V {
        self.tombstones@
    }
}

impl TombstoneStore {
    #[verifier::type_invariant]
    closed spec fn inv(&self) -> bool {
        forall|k: (Seq<char>, Seq<char>)| #[trigger]
            self.tombstones@.contains_key(k) ==> tombstone_key(self.tombstones@[k]) == k
    }

    /// Every tombstone is stored under its own (table, row).
    pub fn keyed(&self) -> (r: bool)
        ensures
            r,
            forall|k: (Seq<char>, Seq<char>)| #[trigger]
                self@.contains_key(k) ==> tombstone_key(self@[k]) == k,
    {
        proof {
            use_type_invariant(self);
        }
        true
    }

    pub fn new() -> (r: Self)
        ensures
            r@ == Map::<(Seq<char>, Seq<char>), TombstoneView>::empty(),
    {
        TombstoneStore { tombstones: OrdMap::new() }
    }

    /// Stores `tombstone` under its (table, row), replacing any other.
    pub fn insert(&mut self, tombstone: Tombstone)
        ensures
            final(self)@ == old(self)@.insert(tombstone_key(tombstone@), tombstone@),
    {
        proof {
            use_type_invariant(&*self);
        }
        let key = (tombstone.table_id.clone(), tombstone.row_id.clone());
        let mut m: OrdMap<(String, String), Tombstone> = OrdMap::new();
        std::mem::swap(&mut m, &mut self.tombstones);
        m.insert(key, tombstone);
        self.tombstones = m;
    }

    pub fn get(&self, table_id: &str, row_id: &str) -> (r: Option<&Tombstone>)
        ensures
            match r {
                Some(t) => self@.contains_key((table_id@, row_id@)) && self@[(table_id@, row_id@)] == t@,
                None => !self@.contains_key((table_id@, row_id@)),
            },
    {
        let key = (table_id.to_owned(), row_id.to_owned());
        self.tombstones.get(&key)
    }

    pub fn contains(&self, table_id: &str, row_id: &str) -> (r: bool)
        ensures
            r == self@.contains_key((table_id@, row_id@)),
    {
        let key = (table_id.to_owned(), row_id.to_owned());
        self.tombstones.contains_key(&key)
    }

    /// The tombstones of one table, in row order.
    pub fn all_for_table(&self, table_id: &str) -> (r: Vec<Tombstone>)
        ensures
            lists_tombstones(r@.map_values(|t: Tombstone| t@), of_table(self@, table_id@)),
    {
        let ghost p = |t: TombstoneView| t.table_id == table_id@;
        let all = self.all();
        let mut out: Vec<Tombstone> = Vec::new();
        let mut i: usize = 0;
        proof {
            assert(out@.map_values(|t: Tombstone| t@) =~= Seq::<TombstoneView>::empty());
        }
        while i < all.len()
            invariant
                i <= all@.len(),
                lists_tombstones(all@.map_values(|t: Tombstone| t@), self@),
                p == (|t: TombstoneView| t.table_id == table_id@),
                filtered_prefix(
                    out@.map_values(|t: Tombstone| t@),
                    all@.map_values(|t: Tombstone| t@),
                    i as int,
                    p,
                ),
            decreases all@.len() - i,
        {
            let ghost av = all@.map_values(|t: Tombstone| t@);
            let ghost before = out@;
            assert(av[i as int] == all@[i as int]@);
            if compare_table(&all[i].table_id, table_id) {
                out.push(all[i].deep_copy());
                proof {
                    assert(out@.map_values(|t: Tombstone| t@) =~= before.map_values(
                        |t: Tombstone| t@,
                    ).push(av[i as int]));
                    lemma_filtered_prefix_take(before.map_values(|t: Tombstone| t@), av, i as int, p);
                }
            } else {
                proof {
                    lemma_filtered_prefix_skip(before.map_values(|t: Tombstone| t@), av, i as int, p);
                }
            }
            i = i + 1;
        }
        proof {
            lemma_filtered_prefix_done(
                out@.map_values(|t: Tombstone| t@),
                all@.map_values(|t: Tombstone| t@),
                self@,
                p,
            );
            assert(Set::new(|k: (Seq<char>, Seq<char>)| p(self@[k])) =~= Set::new(|k: (Seq<char>, Seq<char>)| self@[k].table_id == table_id@));
        }
        out
    }

    /// All tombstones, in (table, row) order.
    pub fn all(&self) -> (r: Vec<Tombstone>)
        ensures
            lists_tombstones(r@.map_values(|t: Tombstone| t@), self@),
    {
        proof {
            use_type_invariant(self);
        }
        let n = self.tombstones.len();
        let mut out: Vec<Tombstone> = Vec::new();
        let mut i: usize = 0;
        while i < n
            invariant
                n == self.tombstones.key_seq().len(),
                i <= n,
                self.tombstones.shape(),
                forall|k: (Seq<char>, Seq<char>)| #[trigger]
                    self.tombstones@.contains_key(k) ==> tombstone_key(self.tombstones@[k]) == k,
                out@.len() == i,
                forall|j: int| 0 <= j < i ==> (#[trigger] out@[j])@ == self.tombstones.val_seq()[j],
            decreases n - i,
        {
            out.push(self.tombstones.value_at(i).deep_copy());
            i = i + 1;
        }
        proof {
            let ks = self.tombstones.key_seq();
            let vs = self.tombstones.val_seq();
            let ov = out@.map_values(|t: Tombstone| t@);
            assert forall|j: int| 0 <= j < n implies tombstone_key(#[trigger] ov[j]) == ks[j] by {
                assert(self.tombstones@.contains_key(ks[j]));
                assert(self.tombstones@[ks[j]] == vs[j]);
            }
            assert forall|a: int, b: int| 0 <= a < b < ov.len() implies pair_lt(
                tombstone_key(#[trigger] ov[a]),
                tombstone_key(#[trigger] ov[b]),
            ) by {
                assert(<(String, String) as OrdKey>::key_lt(ks[a], ks[b]));
            }
            assert forall|k: (Seq<char>, Seq<char>)| #[trigger] self@.contains_key(k) implies exists|j: int|
                0 <= j < ov.len() && tombstone_key(#[trigger] ov[j]) == k by {
                assert(ks.to_set().contains(k));
                let j = ks.index_of(k);
                assert(tombstone_key(ov[j]) == ks[j]);
            }
        }
        out
    }

    /// Merge in tombstones from another store; where both hold one for the
    /// same row, the higher version wins.
    pub fn merge(&mut self, other: &TombstoneStore)
        ensures
            final(self)@ == tombstones_merge_spec(old(self)@, other@),
    {
        let incoming = other.all();
        let ghost iv = incoming@.map_values(|t: Tombstone| t@);
        let mut i: usize = 0;
        while i < incoming.len()
            invariant
                i <= incoming@.len(),
                iv == incoming@.map_values(|t: Tombstone| t@),
                lists_tombstones(iv, other@),
                forall|k: (Seq<char>, Seq<char>)| #[trigger]
                    self@.contains_key(k) == (old(self)@.contains_key(k) || exists|j: int|
                        0 <= j < i && tombstone_key(#[trigger] iv[j]) == k),
                forall|k: (Seq<char>, Seq<char>)| #[trigger]
                    self@.contains_key(k) ==> self@[k] == (if exists|j: int|
                        0 <= j < i && tombstone_key(#[trigger] iv[j]) == k {
                        tombstones_merge_spec(old(self)@, other@)[k]
                    } else {
                        old(self)@[k]
                    }),
            decreases incoming@.len() - i,
        {
            let ts = &incoming[i];
            let ghost k0 = tombstone_key(ts@);
            assert(iv[i as int] == ts@);
            let should_insert = match self.get(&ts.table_id, &ts.row_id) {
                None => true,
                Some(e) => ts.version.greater_than(&e.version),
            };
            proof {
                assert(!exists|j: int| 0 <= j < i && tombstone_key(#[trigger] iv[j]) == k0) by {
                    if exists|j: int| 0 <= j < i && tombstone_key(#[trigger] iv[j]) == k0 {
                        let j = choose|j: int| 0 <= j < i && tombstone_key(#[trigger] iv[j]) == k0;
                        assert(pair_lt(tombstone_key(iv[j]), tombstone_key(iv[i as int])));
                        crate::order::lemma_str_laws();
                    }
                }
                assert(other@.contains_key(k0) && other@[k0] == ts@);
            }
            if should_insert {
                self.insert(ts.deep_copy());
            }
            proof {
                assert forall|k: (Seq<char>, Seq<char>)| #[trigger]
                    self@.contains_key(k) == (old(self)@.contains_key(k) || exists|j: int|
                        0 <= j < i + 1 && tombstone_key(#[trigger] iv[j]) == k) by {
                    if k == k0 {
                        assert(tombstone_key(iv[i as int]) == k0);
                    } else if exists|j: int| 0 <= j < i + 1 && tombstone_key(#[trigger] iv[j]) == k {
                        let j = choose|j: int| 0 <= j < i + 1 && tombstone_key(#[trigger] iv[j]) == k;
                        assert(j != i);
                    }
                }
                assert forall|k: (Seq<char>, Seq<char>)| #[trigger] self@.contains_key(k) implies self@[k]
                    == (if exists|j: int| 0 <= j < i + 1 && tombstone_key(#[trigger] iv[j]) == k {
                    tombstones_merge_spec(old(self)@, other@)[k]
                } else {
                    old(self)@[k]
                }) by {
                    if k == k0 {
                        assert(tombstone_key(iv[i as int]) == k0);
                        crate::types::lemma_version_order();
                    } else if exists|j: int| 0 <= j < i + 1 && tombstone_key(#[trigger] iv[j]) == k {
                        let j = choose|j: int| 0 <= j < i + 1 && tombstone_key(#[trigger] iv[j]) == k;
                        assert(j != i);
                    }
                }
            }
            i = i + 1;
        }
        proof {
            assert forall|k: (Seq<char>, Seq<char>)| other@.contains_key(k) implies exists|j: int|
                0 <= j < incoming@.len() && tombstone_key(#[trigger] iv[j]) == k by {
            }
            assert(self@ =~= tombstones_merge_spec(old(self)@, other@));
        }
    }

    /// GC: remove the tombstones that are causally stable under the frontier.
    pub fn collect_stable(&mut self, global_frontier: &Frontier)
        ensures
            final(self)@ == old(self)@.restrict(
                Set::new(
                    |k: (Seq<char>, Seq<char>)| !tombstone_stable(old(self)@[k], global_frontier@),
                ),
            ),
    {
        let all = self.all();
        let ghost av = all@.map_values(|t: Tombstone| t@);
        let ghost keep = Set::new(
            |k: (Seq<char>, Seq<char>)| !tombstone_stable(old(self)@[k], global_frontier@),
        );
        let mut i: usize = 0;
        while i < all.len()
            invariant
                i <= all@.len(),
                av == all@.map_values(|t: Tombstone| t@),
                lists_tombstones(av, old(self)@),
                keep == Set::new(
                    |k: (Seq<char>, Seq<char>)| !tombstone_stable(old(self)@[k], global_frontier@),
                ),
                forall|k: (Seq<char>, Seq<char>)| #[trigger]
                    self@.contains_key(k) == (old(self)@.contains_key(k) && (keep.contains(k) || !exists|j: int|
                        0 <= j < i && tombstone_key(#[trigger] av[j]) == k)),
                forall|k: (Seq<char>, Seq<char>)| #[trigger]
                    self@.contains_key(k) ==> self@[k] == old(self)@[k],
            decreases all@.len() - i,
        {
            let ts = &all[i];
            let ghost k0 = tombstone_key(ts@);
            assert(av[i as int] == ts@);
            let mut single: Frontier = OrdMap::new();
            frontier_update(&mut single, &ts.version.peer_id, ts.version.counter);
            let stable = frontier_dominates(global_frontier, &single);
            proof {
                assert(old(self)@.contains_key(k0) && old(self)@[k0] == ts@);
                assert(single@.contains_key(ts.version.peer_id@));
                assert(stable == tombstone_stable(ts@, global_frontier@));
                assert(!exists|j: int| 0 <= j < i && tombstone_key(#[trigger] av[j]) == k0) by {
                    if exists|j: int| 0 <= j < i && tombstone_key(#[trigger] av[j]) == k0 {
                        let j = choose|j: int| 0 <= j < i && tombstone_key(#[trigger] av[j]) == k0;
                        assert(pair_lt(tombstone_key(av[j]), tombstone_key(av[i as int])));
                        crate::order::lemma_str_laws();
                    }
                }
            }
            let ghost before = self@;
            if stable {
                let mut m: OrdMap<(String, String), Tombstone> = OrdMap::new();
                proof {
                    use_type_invariant(&*self);
                }
                std::mem::swap(&mut m, &mut self.tombstones);
                let key = (ts.table_id.clone(), ts.row_id.clone());
                m.remove(&key);
                self.tombstones = m;
                assert(self@ == before.remove(k0));
            }
            proof {
                if !stable {
                    assert(self@ == before);
                    assert(keep.contains(k0));
                } else {
                    assert(!keep.contains(k0));
                }
                assert forall|k: (Seq<char>, Seq<char>)| #[trigger]
                    self@.contains_key(k) == (old(self)@.contains_key(k) && (keep.contains(k) || !exists|j: int|
                        0 <= j < i + 1 && tombstone_key(#[trigger] av[j]) == k)) by {
                    if k == k0 {
                        assert(tombstone_key(av[i as int]) == k0);
                    } else if exists|j: int| 0 <= j < i + 1 && tombstone_key(#[trigger] av[j]) == k {
                        let j = choose|j: int| 0 <= j < i + 1 && tombstone_key(#[trigger] av[j]) == k;
                        assert(j != i);
                    }
                }
            }
            i = i + 1;
        }
        proof {
            assert forall|k: (Seq<char>, Seq<char>)| old(self)@.contains_key(k) implies exists|j: int|
                0 <= j < all@.len() && tombstone_key(#[trigger] av[j]) == k by {
            }
            assert(self@ =~= old(self)@.restrict(keep));
        }
    }

    /// All tombstones, in (table, row) order, consuming the store.
    pub fn into_vec(self) -> (r: Vec<Tombstone>)
        ensures
            lists_tombstones(r@.map_values(|t: Tombstone| t@), self@),
    {
        self.all()
    }
}

/// Whether a table id equals the given name.
fn compare_table(a: &String, b: &str) -> (r: bool)
    ensures
        r == (a@ == b@),
{
    proof {
        crate::order::lemma_str_laws();
    }
    match crate::order::compare_str(a.as_str(), b) {
        crate::order::Order::Equal => true,
        _ => false,
    }
}

// ---------------------------------------------------------------- laws

/// Two tombstone maps agree where they both have a key at the same version.
pub open spec fn tombstones_agree(
    a: Map<(Seq<char>, Seq<char>), TombstoneView>,
    b: Map<(Seq<char>, Seq<char>), TombstoneView>,
) -> bool {
    forall|k: (Seq<char>, Seq<char>)|
        #[trigger] a.contains_key(k) && #[trigger] b.contains_key(k) && a[k].version == b[k].version
            ==> a[k] == b[k]
}

/// Merging the same tombstones again changes nothing.
pub proof fn law_tombstones_merge_idempotent(
    a: Map<(Seq<char>, Seq<char>), TombstoneView>,
    b: Map<(Seq<char>, Seq<char>), TombstoneView>,
)
    ensures
        tombstones_merge_spec(tombstones_merge_spec(a, b), b) == tombstones_merge_spec(a, b),
        tombstones_merge_spec(a, a) == a,
{
    lemma_version_order();
    let ab = tombstones_merge_spec(a, b);
    assert(tombstones_merge_spec(ab, b) =~= ab);
    assert(tombstones_merge_spec(a, a) =~= a);
}

/// Tombstone merge is commutative for stores that agree on equal versions.
pub proof fn law_tombstones_merge_commutative(
    a: Map<(Seq<char>, Seq<char>), TombstoneView>,
    b: Map<(Seq<char>, Seq<char>), TombstoneView>,
)
    requires
        tombstones_agree(a, b),
    ensures
        tombstones_merge_spec(a, b) == tombstones_merge_spec(b, a),
{
    lemma_version_order();
    assert forall|k: (Seq<char>, Seq<char>)| #[trigger] tombstones_merge_spec(a, b).contains_key(k) implies tombstones_merge_spec(a, b)[k]
        == tombstones_merge_spec(b, a)[k] by {
        if a.contains_key(k) && b.contains_key(k) && a[k].version == b[k].version {
            assert(a[k] == b[k]);
        }
    }
    assert(tombstones_merge_spec(a, b) =~= tombstones_merge_spec(b, a));
}

/// Tombstone merge is associative.
pub proof fn law_tombstones_merge_associative(
    a: Map<(Seq<char>, Seq<char>), TombstoneView>,
    b: Map<(Seq<char>, Seq<char>), TombstoneView>,
    c: Map<(Seq<char>, Seq<char>), TombstoneView>,
)
    ensures
        tombstones_merge_spec(tombstones_merge_spec(a, b), c) == tombstones_merge_spec(
            a,
            tombstones_merge_spec(b, c),
        ),
{
    lemma_version_order();
    let l = tombstones_merge_spec(tombstones_merge_spec(a, b), c);
    let r = tombstones_merge_spec(a, tombstones_merge_spec(b, c));
    assert forall|k: (Seq<char>, Seq<char>)| #[trigger] l.contains_key(k) implies l[k] == r[k] by {}
    assert(l =~= r);
}

/// The tombstones of table `t`.
pub open spec fn of_table(m: Map<(Seq<char>, Seq<char>), TombstoneView>, t: Seq<char>) -> Map<
    (Seq<char>, Seq<char>),
    TombstoneView,
> {
    m.restrict(Set::new(|k: (Seq<char>, Seq<char>)| m[k].table_id == t))
}

/// The numbers of tombstones of the tables `ts`, added up.
pub open spec fn tables_total(m: Map<(Seq<char>, Seq<char>), TombstoneView>, ts: Seq<Seq<char>>) -> nat
    decreases ts.len(),
{
    if ts.len() == 0 {
        0
    } else {
        tables_total(m, ts.drop_last()) + of_table(m, ts.last()).len()
    }
}

/// The keys of the tombstones of the tables among the first `n` of `ts`.
spec fn keys_of_tables(m: Map<(Seq<char>, Seq<char>), TombstoneView>, ts: Seq<Seq<char>>) -> Set<(Seq<char>, Seq<char>)> {
    m.dom().filter(|k: (Seq<char>, Seq<char>)| ts.contains(m[k].table_id))
}

proof fn lemma_keys_of_tables(m: Map<(Seq<char>, Seq<char>), TombstoneView>, ts: Seq<Seq<char>>)
    requires
        m.dom().finite(),
        ts.no_duplicates(),
    ensures
        keys_of_tables(m, ts).finite(),
        keys_of_tables(m, ts).len() == tables_total(m, ts),
    decreases ts.len(),
{
    broadcast use vstd::set_lib::lemma_set_disjoint_lens;
    m.dom().lemma_len_filter(|k: (Seq<char>, Seq<char>)| ts.contains(m[k].table_id));
    if ts.len() > 0 {
        let d = ts.drop_last();
        let t = ts.last();
        assert(d.no_duplicates()) by {
            assert forall|a: int, b: int| 0 <= a < d.len() && 0 <= b < d.len() && a != b implies d[a] != d[b] by {
                assert(d[a] == ts[a] && d[b] == ts[b]);
            }
        }
        lemma_keys_of_tables(m, d);
        let a = keys_of_tables(m, d);
        let b = of_table(m, t).dom();
        assert(!d.contains(t)) by {
            if d.contains(t) {
                let i = choose|i: int| 0 <= i < d.len() && d[i] == t;
                assert(ts[i] == ts[ts.len() - 1]);
            }
        }
        assert forall|x: Seq<char>| #[trigger] ts.contains(x) == (d.contains(x) || x == t) by {
            if ts.contains(x) && x != t {
                let i = choose|i: int| 0 <= i < ts.len() && ts[i] == x;
                assert(i != ts.len() - 1);
                assert(d[i] == x);
            }
            if d.contains(x) {
                let i = choose|i: int| 0 <= i < d.len() && d[i] == x;
                assert(ts[i] == x);
            }
            if x == t {
                assert(ts[ts.len() - 1] == t);
            }
        }
        assert(keys_of_tables(m, ts) =~= a + b);
        assert(a.disjoint(b));
        assert(b.subset_of(m.dom()));
        vstd::set_lib::lemma_len_subset(b, m.dom());
        assert(of_table(m, t).len() == b.len());
    } else {
        assert(keys_of_tables(m, ts) =~= Set::<(Seq<char>, Seq<char>)>::empty());
    }
}

/// The number of tombstones is the sum, over the tables (each named once),
/// of the number each table has: `all` lists as many tombstones as the
/// `all_for_table` listings of all the tables together.
pub proof fn law_tombstone_count_is_sum(m: Map<(Seq<char>, Seq<char>), TombstoneView>, ts: Seq<Seq<char>>)
    requires
        m.dom().finite(),
        ts.no_duplicates(),
        forall|k: (Seq<char>, Seq<char>)| #[trigger] m.contains_key(k) ==> ts.contains(m[k].table_id),
    ensures
        m.len() == tables_total(m, ts),
{
    lemma_keys_of_tables(m, ts);
    assert(keys_of_tables(m, ts) =~= m.dom());
}

/// A sorted listing of a finite tombstone store lists each tombstone once.
pub proof fn law_listing_len(s: Seq<TombstoneView>, m: Map<(Seq<char>, Seq<char>), TombstoneView>)
    requires
        lists_tombstones(s, m),
    ensures
        m.dom().finite(),
        s.len() == m.len(),
{
    crate::order::lemma_str_laws();
    let ks = s.map_values(|t: TombstoneView| tombstone_key(t));
    assert(ks.no_duplicates()) by {
        assert forall|a: int, b: int| 0 <= a < ks.len() && 0 <= b < ks.len() && a != b implies ks[a] != ks[b] by {
            if a < b {
                assert(crate::order::pair_lt(tombstone_key(s[a]), tombstone_key(s[b])));
            } else {
                assert(crate::order::pair_lt(tombstone_key(s[b]), tombstone_key(s[a])));
            }
        }
    }
    assert forall|k: (Seq<char>, Seq<char>)| #[trigger] ks.to_set().contains(k) == m.dom().contains(k) by {
        if m.contains_key(k) {
            let i = choose|i: int| 0 <= i < s.len() && tombstone_key(#[trigger] s[i]) == k;
            assert(ks[i] == k);
        }
        if ks.to_set().contains(k) {
            let i = choose|i: int| 0 <= i < ks.len() && ks[i] == k;
            assert(m.contains_key(tombstone_key(s[i])));
        }
    }
    assert(ks.to_set() =~= m.dom());
    ks.unique_seq_to_set();
    vstd::seq_lib::seq_to_set_is_finite(ks);
}

/// The lengths of listings, added up.
pub open spec fn listings_total(ls: Seq<Seq<TombstoneView>>) -> nat
    decreases ls.len(),
{
    if ls.len() == 0 {
        0
    } else {
        listings_total(ls.drop_last()) + ls.last().len()
    }
}

/// Listings of the tombstones of each of the tables `ts` together are as
/// long as their tables' counts added up.
proof fn lemma_listings_total(m: Map<(Seq<char>, Seq<char>), TombstoneView>, ts: Seq<Seq<char>>, per: Seq<Seq<TombstoneView>>)
    requires
        per.len() == ts.len(),
        forall|i: int| 0 <= i < ts.len() ==> lists_tombstones(#[trigger] per[i], of_table(m, ts[i])),
    ensures
        listings_total(per) == tables_total(m, ts),
    decreases ts.len(),
{
    if ts.len() > 0 {
        let n = ts.len() - 1;
        assert forall|i: int| 0 <= i < n implies lists_tombstones(#[trigger] per.drop_last()[i], of_table(m, ts.drop_last()[i])) by {
            assert(per.drop_last()[i] == per[i] && ts.drop_last()[i] == ts[i]);
        }
        lemma_listings_total(m, ts.drop_last(), per.drop_last());
        assert(lists_tombstones(per[n], of_table(m, ts[n])));
        law_listing_len(per[n], of_table(m, ts[n]));
    }
}

/// `all` lists as many tombstones as the `all_for_table` listings of every
/// table that has one, each table named once, together.
pub proof fn law_listing_is_sum_by_table(
    m: Map<(Seq<char>, Seq<char>), TombstoneView>,
    all: Seq<TombstoneView>,
    ts: Seq<Seq<char>>,
    per: Seq<Seq<TombstoneView>>,
)
    requires
        lists_tombstones(all, m),
        ts.no_duplicates(),
        forall|k: (Seq<char>, Seq<char>)| #[trigger] m.contains_key(k) ==> ts.contains(m[k].table_id),
        per.len() == ts.len(),
        forall|i: int| 0 <= i < ts.len() ==> lists_tombstones(#[trigger] per[i], of_table(m, ts[i])),
    ensures
        all.len() == listings_total(per),
{
    law_listing_len(all, m);
    law_tombstone_count_is_sum(m, ts);
    lemma_listings_total(m, ts, per);
}

} // verus!
