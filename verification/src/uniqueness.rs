//! The uniqueness registry: for each (table, column, value) one canonical
//! owner row, the higher-versioned claim; losing rows are kept, never
//! silently dropped.
use vstd::prelude::*;
use crate::order::{Order, OrdKey, str_lt, lemma_str_laws, compare_str};
use crate::ordmap::{OrdMap, DeepCopy};
use crate::types::{
    ClaimView, LooserEntry, LooserView, RowId, UniquenessClaim, Version, VersionView, version_lt,
    lemma_version_order, copy_losers,
};

verus! {

pub type ClaimKey = (Seq<char>, Seq<char>, Seq<char>);

/// The key a claim is stored under.
pub open spec fn claim_key(c: ClaimView) -> ClaimKey {
    (c.table_id, c.column_id, c.value)
}

pub open spec fn loser_views(s: Seq<LooserEntry>) -> Seq<LooserView> {
    s.map_values(|l: LooserEntry| l@)
}

/// Some entry of `s` is for `row`.
pub open spec fn has_loser(s: Seq<LooserView>, row: Seq<char>) -> bool {
    exists|i: int| 0 <= i < s.len() && (#[trigger] s[i]).row_id == row
}

/// `base` extended by each entry of `adds`, in order, whose row is neither
/// `owner` nor yet in the list.
pub open spec fn append_new_losers(base: Seq<LooserView>, adds: Seq<LooserView>, owner: Seq<char>) -> Seq<LooserView>
    decreases adds.len(),
{
    if adds.len() == 0 {
        base
    } else {
        let next = if has_loser(base, adds[0].row_id) || adds[0].row_id == owner {
            base
        } else {
            base.push(adds[0])
        };
        append_new_losers(next, adds.drop_first(), owner)
    }
}

/// `r` holds, sorted by row, the first entry of `s` for each row other than
/// `exclude`.
pub open spec fn sorted_first_losers(r: Seq<LooserView>, s: Seq<LooserView>, exclude: Seq<char>) -> bool {
    &&& forall|i: int, j: int| 0 <= i < j < r.len() ==> str_lt((#[trigger] r[i]).row_id, (#[trigger] r[j]).row_id)
    &&& forall|i: int|
        0 <= i < r.len() ==> (#[trigger] r[i]).row_id != exclude && exists|j: int|
            0 <= j < s.len() && s[j] == r[i] && !has_loser(s.subrange(0, j), r[i].row_id)
    &&& forall|j: int| 0 <= j < s.len() && (#[trigger] s[j]).row_id != exclude ==> has_loser(r, s[j].row_id)
}

/// The result of a claim: the claimant won (or already owned the value), or
/// lost to the current owner.
#[derive(Debug, Clone, PartialEq, Eq)]
pub enum ClaimResult {
    Won,
    Lost { winner_row: RowId },
}

pub enum ClaimResultView {
    Won,
    Lost(Seq<char>),
}

impl View for ClaimResult {
    type V = ClaimResultView;

    open spec fn view(&self) -> ClaimResultView {
        match self {
            ClaimResult::Won => ClaimResultView::Won,
            ClaimResult::Lost { winner_row } => ClaimResultView::Lost(winner_row@),
        }
    }
}

/// The state of a claim after `row` claims it at `version`, and the result.
pub open spec fn claim_step(e: ClaimView, row: Seq<char>, version: VersionView) -> (ClaimView, ClaimResultView) {
    if version_lt(e.version, version) {
        (
            ClaimView {
                owner_row: row,
                version,
                losers: if row == e.owner_row {
                    e.losers
                } else {
                    e.losers.push(LooserView { row_id: e.owner_row, version: e.version })
                },
                ..e
            },
            ClaimResultView::Won,
        )
    } else if version == e.version && row == e.owner_row {
        (e, ClaimResultView::Won)
    } else {
        (
            ClaimView { losers: e.losers.push(LooserView { row_id: row, version }), ..e },
            ClaimResultView::Lost(e.owner_row),
        )
    }
}

/// A registry after `row` claims the value of key `k` at `version`.
pub open spec fn claim_apply(
    reg: Map<ClaimKey, ClaimView>,
    k: ClaimKey,
    row: Seq<char>,
    version: VersionView,
) -> Map<ClaimKey, ClaimView> {
    if reg.contains_key(k) {
        reg.insert(k, claim_step(reg[k], row, version).0)
    } else {
        reg.insert(
            k,
            ClaimView {
                table_id: k.0,
                column_id: k.1,
                value: k.2,
                owner_row: row,
                version,
                losers: Seq::empty(),
            },
        )
    }
}

/// `r` is the claim `e` merged with `o` for the same key.
/// When `o`'s version is higher, `o`'s owner takes over, and the losers are
/// both loser lists plus `e`'s owner, first entry per row, sorted by row,
/// without the new owner. Otherwise `e`'s owner stays; `o`'s owner is
/// appended as a loser unless it is already listed or is `e`'s owner, and
/// then `o`'s losers whose rows are not yet listed and are not `e`'s owner.
pub open spec fn claim_merged(e: ClaimView, o: ClaimView, r: ClaimView) -> bool {
    if version_lt(e.version, o.version) {
        &&& r.table_id == e.table_id
        &&& r.column_id == e.column_id
        &&& r.value == e.value
        &&& r.owner_row == o.owner_row
        &&& r.version == o.version
        &&& sorted_first_losers(
            r.losers,
            e.losers + o.losers + seq![LooserView { row_id: e.owner_row, version: e.version }],
            o.owner_row,
        )
    } else {
        let base = if !has_loser(e.losers, o.owner_row) && o.owner_row != e.owner_row {
            e.losers.push(LooserView { row_id: o.owner_row, version: o.version })
        } else {
            e.losers
        };
        r == ClaimView { losers: append_new_losers(base, o.losers, e.owner_row), ..e }
    }
}

/// `r` is registry `a` merged with registry `b`.
pub open spec fn registry_merged(
    a: Map<ClaimKey, ClaimView>,
    b: Map<ClaimKey, ClaimView>,
    r: Map<ClaimKey, ClaimView>,
) -> bool {
    &&& forall|k: ClaimKey| #[trigger] r.contains_key(k) == (a.contains_key(k) || b.contains_key(k))
    &&& forall|k: ClaimKey|
        #[trigger] r.contains_key(k) ==> if a.contains_key(k) && b.contains_key(k) {
            claim_merged(a[k], b[k], r[k])
        } else if a.contains_key(k) {
            r[k] == a[k]
        } else {
            r[k] == b[k]
        }
}

/// The owner and version that a merge of two claims settles on: the higher
/// version's.
pub open spec fn merged_owner(e: ClaimView, o: ClaimView) -> (Seq<char>, VersionView) {
    if version_lt(e.version, o.version) {
        (o.owner_row, o.version)
    } else {
        (e.owner_row, e.version)
    }
}

/// Manages uniqueness claims across tables and columns.
#[derive(Debug)]
pub struct UniquenessRegistry {
    /// (table_id, column_id, value) -> claim
    claims: OrdMap<(String, String, String), UniquenessClaim>,
}

impl View for UniquenessRegistry {
    type V = Map<ClaimKey, ClaimView>;

    closed spec fn view(&self) -> Self::V {
        self.claims@
    }
}

/// Whether `losers` has an entry for `row`.
fn any_loser(losers: &Vec<LooserEntry>, row: &String) -> (r: bool)
    ensures
        r == has_loser(loser_views(losers@), row@),
{
    proof {
        lemma_str_laws();
    }
    let mut i: usize = 0;
    while i < losers.len()
        invariant
            i <= losers@.len(),
            forall|j: int| 0 <= j < i ==> (#[trigger] losers@[j]).row_id@ != row@,
        decreases losers@.len() - i,
    {
        if compare_str(losers[i].row_id.as_str(), row.as_str()) == Order::Equal {
            assert(loser_views(losers@)[i as int].row_id == row@);
            return true;
        }
        i = i + 1;
    }
    proof {
        if has_loser(loser_views(losers@), row@) {
            let j = choose|j: int| 0 <= j < losers@.len() && (#[trigger] loser_views(losers@)[j]).row_id == row@;
            assert(loser_views(losers@)[j] == losers@[j]@);
        }
    }
    false
}

fn strings_equal(a: &String, b: &String) -> (r: bool)
    ensures
        r == (a@ == b@),
{
    proof {
        lemma_str_laws();
    }
    compare_str(a.as_str(), b.as_str()) == Order::Equal
}

/// The first entry of `s` for each row other than `exclude`, sorted by row.
fn first_losers_sorted(s: &Vec<LooserEntry>, exclude: &String) -> (r: Vec<LooserEntry>)
    ensures
        sorted_first_losers(loser_views(r@), loser_views(s@), exclude@),
{
    proof {
        lemma_str_laws();
    }
    let ghost sv = loser_views(s@);
    let mut m: OrdMap<String, LooserEntry> = OrdMap::new();
    let mut j: usize = 0;
    while j < s.len()
        invariant
            j <= s@.len(),
            sv == loser_views(s@),
            forall|k: Seq<char>| #[trigger]
                m@.contains_key(k) == (k != exclude@ && has_loser(sv.subrange(0, j as int), k)),
            forall|k: Seq<char>| #[trigger]
                m@.contains_key(k) ==> m@[k].row_id == k && exists|x: int|
                    0 <= x < j && sv[x] == m@[k] && !has_loser(sv.subrange(0, x), k),
        decreases s@.len() - j,
    {
        let l = &s[j];
        assert(sv[j as int] == l@);
        let ghost before = m@;
        if !strings_equal(&l.row_id, exclude) && !m.contains_key(&l.row_id) {
            m.insert(l.row_id.clone(), l.deep_copy());
        }
        proof {
            let p = sv.subrange(0, j as int);
            let p2 = sv.subrange(0, j + 1);
            assert(p2 =~= p.push(l@));
            assert forall|k: Seq<char>| #[trigger] m@.contains_key(k) == (k != exclude@ && has_loser(p2, k)) by {
                if has_loser(p, k) {
                    let x = choose|x: int| 0 <= x < p.len() && (#[trigger] p[x]).row_id == k;
                    assert(p2[x] == p[x]);
                }
                if has_loser(p2, k) && k != l@.row_id {
                    let x = choose|x: int| 0 <= x < p2.len() && (#[trigger] p2[x]).row_id == k;
                    assert(x != j);
                    assert(p[x] == p2[x]);
                }
                if k == l@.row_id {
                    assert(p2[j as int].row_id == k);
                }
            }
            assert forall|k: Seq<char>| #[trigger] m@.contains_key(k) implies m@[k].row_id == k && exists|x: int|
                0 <= x < j + 1 && sv[x] == m@[k] && !has_loser(sv.subrange(0, x), k) by {
                if before.contains_key(k) {
                    let x = choose|x: int| 0 <= x < j && sv[x] == before[k] && !has_loser(sv.subrange(0, x), k);
                    assert(0 <= x < j + 1);
                } else {
                    assert(k == l@.row_id);
                    assert(!has_loser(p, k));
                    assert(sv.subrange(0, j as int) == p);
                }
            }
        }
        j = j + 1;
    }
    let n = m.len();
    let mut out: Vec<LooserEntry> = Vec::new();
    let mut i: usize = 0;
    while i < n
        invariant
            n == m.key_seq().len(),
            i <= n,
            m.shape(),
            out@.len() == i,
            forall|x: int| 0 <= x < i ==> (#[trigger] out@[x])@ == m.val_seq()[x],
        decreases n - i,
    {
        out.push(m.value_at(i).deep_copy());
        i = i + 1;
    }
    proof {
        let ks = m.key_seq();
        let vs = m.val_seq();
        let ov = loser_views(out@);
        assert(sv.subrange(0, s@.len() as int) =~= sv);
        assert forall|x: int| 0 <= x < n implies (#[trigger] ov[x]).row_id == ks[x] && ov[x] == m@[ks[x]] by {
            assert(m@.contains_key(ks[x]));
            assert(m@[ks[x]] == vs[x]);
        }
        assert forall|a: int, b: int| 0 <= a < b < ov.len() implies str_lt((#[trigger] ov[a]).row_id, (#[trigger] ov[b]).row_id) by {
            assert(<String as OrdKey>::key_lt(ks[a], ks[b]));
        }
        assert forall|x: int| 0 <= x < ov.len() implies (#[trigger] ov[x]).row_id != exclude@ && exists|y: int|
            0 <= y < sv.len() && sv[y] == ov[x] && !has_loser(sv.subrange(0, y), ov[x].row_id) by {
            assert(m@.contains_key(ks[x]));
        }
        assert forall|y: int| 0 <= y < sv.len() && (#[trigger] sv[y]).row_id != exclude@ implies has_loser(ov, sv[y].row_id) by {
            let k = sv[y].row_id;
            assert(sv.subrange(0, s@.len() as int)[y].row_id == k);
            assert(m@.contains_key(k));
            assert(ks.to_set().contains(k));
            let x = ks.index_of(k);
            assert(ov[x].row_id == k);
        }
    }
    out
}

impl UniquenessRegistry {
    #[verifier::type_invariant]
    closed spec fn inv(&self) -> bool {
        forall|k: ClaimKey| #[trigger] self.claims@.contains_key(k) ==> claim_key(self.claims@[k]) == k
    }

    /// Every claim is stored under its own (table, column, value).
    pub fn keyed(&self) -> (r: bool)
        ensures
            r,
            forall|k: ClaimKey| #[trigger] self@.contains_key(k) ==> claim_key(self@[k]) == k,
    {
        proof {
            use_type_invariant(self);
        }
        true
    }

    pub fn new() -> (r: Self)
        ensures
            r@ == Map::<ClaimKey, ClaimView>::empty(),
    {
        UniquenessRegistry { claims: OrdMap::new() }
    }

    /// `row_id` claims the unique `value` of (`table_id`, `column_id`) at
    /// `version`. The higher version owns the value; a claim that loses, or
    /// an owner of another row that is displaced, is recorded as a loser. The
    /// owner's own row reclaiming at a higher version refreshes the version
    /// only.
    pub fn claim(
        &mut self,
        table_id: &str,
        column_id: &str,
        value: &str,
        row_id: &str,
        version: Version,
    ) -> (r: ClaimResult)
        ensures
            final(self)@ == claim_apply(old(self)@, (table_id@, column_id@, value@), row_id@, version@),
            ({
                let k = (table_id@, column_id@, value@);
                if old(self)@.contains_key(k) {
                    r@ == claim_step(old(self)@[k], row_id@, version@).1
                } else {
                    r == ClaimResult::Won
                }
            }),
    {
        proof {
            use_type_invariant(&*self);
            lemma_version_order();
        }
        let key = (table_id.to_owned(), column_id.to_owned(), value.to_owned());
        let ghost k = (table_id@, column_id@, value@);
        let mut m: OrdMap<(String, String, String), UniquenessClaim> = OrdMap::new();
        std::mem::swap(&mut m, &mut self.claims);
        let result = match m.find(&key) {
            Some(i) => {
                let existing = m.value_at(i);
                assert(m@[m.key_seq()[i as int]] == m.val_seq()[i as int]);
                assert(m@[k] == existing@);
                assert(m@.contains_key(k));
                assert(claim_key(existing@) == k);
                if version.greater_than(&existing.version) {
                    let mut losers = copy_losers(&existing.losers);
                    let same_row = strings_equal(&existing.owner_row, &row_id.to_owned());
                    if !same_row {
                        losers.push(
                            LooserEntry {
                                row_id: existing.owner_row.clone(),
                                version: existing.version.deep_copy(),
                            },
                        );
                    }
                    let updated = UniquenessClaim {
                        table_id: existing.table_id.clone(),
                        column_id: existing.column_id.clone(),
                        value: existing.value.clone(),
                        owner_row: row_id.to_owned(),
                        version,
                        losers,
                    };
                    proof {
                        if same_row {
                            assert(loser_views(updated.losers@) =~= existing@.losers);
                        } else {
                            assert(loser_views(updated.losers@) =~= existing@.losers.push(
                                LooserView { row_id: existing@.owner_row, version: existing@.version },
                            ));
                        }
                        assert(updated@ == claim_step(existing@, row_id@, version@).0);
                        assert(claim_key(updated@) == k);
                    }
                    m.replace_at(i, updated);
                    ClaimResult::Won
                } else if version.counter == existing.version.counter && strings_equal(
                    &version.peer_id,
                    &existing.version.peer_id,
                ) && strings_equal(&existing.owner_row, &row_id.to_owned()) {
                    assert(m@ =~= m@.insert(k, existing@));
                    ClaimResult::Won
                } else {
                    let winner = existing.owner_row.clone();
                    let mut losers = copy_losers(&existing.losers);
                    let ghost vv = version@;
                    losers.push(LooserEntry { row_id: row_id.to_owned(), version });
                    let updated = UniquenessClaim {
                        table_id: existing.table_id.clone(),
                        column_id: existing.column_id.clone(),
                        value: existing.value.clone(),
                        owner_row: existing.owner_row.clone(),
                        version: existing.version.deep_copy(),
                        losers,
                    };
                    proof {
                        assert(loser_views(updated.losers@) =~= existing@.losers.push(
                            LooserView { row_id: row_id@, version: vv },
                        ));
                        assert(updated@ == claim_step(existing@, row_id@, vv).0);
                        assert(claim_key(updated@) == k);
                    }
                    m.replace_at(i, updated);
                    ClaimResult::Lost { winner_row: winner }
                }
            },
            None => {
                let c = UniquenessClaim {
                    table_id: table_id.to_owned(),
                    column_id: column_id.to_owned(),
                    value: value.to_owned(),
                    owner_row: row_id.to_owned(),
                    version,
                    losers: Vec::new(),
                };
                assert(loser_views(c.losers@) =~= Seq::<LooserView>::empty());
                assert(claim_key(c@) == k);
                m.insert(key, c);
                ClaimResult::Won
            },
        };
        self.claims = m;
        result
    }

    /// The canonical owner row of a unique value.
    pub fn owner(&self, table_id: &str, column_id: &str, value: &str) -> (r: Option<&str>)
        ensures
            ({
                let k = (table_id@, column_id@, value@);
                match r {
                    Some(o) => self@.contains_key(k) && self@[k].owner_row == o@,
                    None => !self@.contains_key(k),
                }
            }),
    {
        let key = (table_id.to_owned(), column_id.to_owned(), value.to_owned());
        match self.claims.get(&key) {
            Some(c) => Some(c.owner_row.as_str()),
            None => None,
        }
    }

    /// The claim on a unique value, if any.
    pub(crate) fn claim_for(&self, table_id: &str, column_id: &str, value: &str) -> (r: Option<&UniquenessClaim>)
        ensures
            ({
                let k = (table_id@, column_id@, value@);
                match r {
                    Some(c) => self@.contains_key(k) && self@[k] == c@,
                    None => !self@.contains_key(k),
                }
            }),
    {
        let key = (table_id.to_owned(), column_id.to_owned(), value.to_owned());
        self.claims.get(&key)
    }

    /// Whether `row_id` is the canonical owner of a unique value.
    pub fn is_owner(&self, table_id: &str, column_id: &str, value: &str, row_id: &str) -> (r: bool)
        ensures
            r == ({
                let k = (table_id@, column_id@, value@);
                self@.contains_key(k) && self@[k].owner_row == row_id@
            }),
    {
        match self.owner(table_id, column_id, value) {
            Some(o) => {
                proof {
                    lemma_str_laws();
                }
                compare_str(o, row_id) == Order::Equal
            },
            None => false,
        }
    }

    /// Merge in claims from another registry: per value, the higher version
    /// owns it; losers from both sides are kept.
    pub fn merge(&mut self, other: &UniquenessRegistry)
        ensures
            registry_merged(old(self)@, other@, final(self)@),
    {
        proof {
            use_type_invariant(other);
            use_type_invariant(&*self);
            lemma_version_order();
        }
        let n = other.claims.len();
        let mut m: OrdMap<(String, String, String), UniquenessClaim> = OrdMap::new();
        std::mem::swap(&mut m, &mut self.claims);
        let ghost a = m@;
        let ghost b = other@;
        let mut i: usize = 0;
        while i < n
            invariant
                n == other.claims.key_seq().len(),
                i <= n,
                other.claims.shape(),
                b == other@,
                b == other.claims@,
                forall|k: ClaimKey| #[trigger] a.contains_key(k) ==> claim_key(a[k]) == k,
                forall|k: ClaimKey| #[trigger] b.contains_key(k) ==> claim_key(b[k]) == k,
                forall|k: ClaimKey| #[trigger] m@.contains_key(k) ==> claim_key(m@[k]) == k,
                forall|k: ClaimKey| #[trigger]
                    m@.contains_key(k) == (a.contains_key(k) || other.claims.key_seq().subrange(
                        0,
                        i as int,
                    ).contains(k)),
                forall|k: ClaimKey| #[trigger]
                    m@.contains_key(k) ==> if other.claims.key_seq().subrange(0, i as int).contains(k) {
                        if a.contains_key(k) {
                            claim_merged(a[k], b[k], m@[k])
                        } else {
                            m@[k] == b[k]
                        }
                    } else {
                        m@[k] == a[k]
                    },
            decreases n - i,
        {
            let key = other.claims.key_at(i);
            let oc = other.claims.value_at(i);
            let ghost k0 = other.claims.key_seq()[i as int];
            let ghost ks = other.claims.key_seq();
            proof {
                assert(b[k0] == oc@);
                assert(!ks.subrange(0, i as int).contains(k0)) by {
                    if ks.subrange(0, i as int).contains(k0) {
                        let x = ks.subrange(0, i as int).index_of(k0);
                        assert(ks[x] == k0);
                    }
                }
            }
            match m.find(key) {
                Some(j) => {
                    let existing = m.value_at(j);
                    assert(m@[m.key_seq()[j as int]] == m.val_seq()[j as int]);
                    assert(m.key_seq().to_set().contains(k0));
                    assert(m@.contains_key(k0));
                    assert(m@[k0] == existing@);
                    assert(existing@ == a[k0]);
                    let updated = merge_claim(existing, oc);
                    m.replace_at(j, updated);
                },
                None => {
                    m.insert(key.copy_key(), oc.deep_copy());
                },
            }
            proof {
                assert(ks.subrange(0, i + 1) =~= ks.subrange(0, i as int).push(k0));
                assert(ks.subrange(0, i + 1)[i as int] == k0);
                assert forall|k: ClaimKey| #[trigger]
                    m@.contains_key(k) == (a.contains_key(k) || ks.subrange(0, i + 1).contains(k)) by {
                    if ks.subrange(0, i + 1).contains(k) && k != k0 {
                        let x = ks.subrange(0, i + 1).index_of(k);
                        assert(ks.subrange(0, i as int)[x] == k);
                    }
                    if ks.subrange(0, i as int).contains(k) {
                        let x = ks.subrange(0, i as int).index_of(k);
                        assert(ks.subrange(0, i + 1)[x] == k);
                    }
                }
                assert forall|k: ClaimKey| #[trigger] m@.contains_key(k) implies (if ks.subrange(0, i + 1).contains(k) {
                    if a.contains_key(k) {
                        claim_merged(a[k], b[k], m@[k])
                    } else {
                        m@[k] == b[k]
                    }
                } else {
                    m@[k] == a[k]
                }) by {
                    if k != k0 {
                        if ks.subrange(0, i + 1).contains(k) {
                            let x = ks.subrange(0, i + 1).index_of(k);
                            assert(ks.subrange(0, i as int)[x] == k);
                        }
                        if ks.subrange(0, i as int).contains(k) {
                            let x = ks.subrange(0, i as int).index_of(k);
                            assert(ks.subrange(0, i + 1)[x] == k);
                        }
                    }
                }
                assert forall|k: ClaimKey| #[trigger] m@.contains_key(k) implies claim_key(m@[k]) == k by {
                    if k == k0 {
                        assert(b.contains_key(k0));
                    }
                }
            }
            i = i + 1;
        }
        proof {
            let ks = other.claims.key_seq();
            assert(ks.subrange(0, n as int) =~= ks);
            assert forall|k: ClaimKey| b.contains_key(k) <==> #[trigger] ks.contains(k) by {
                assert(b.dom() == ks.to_set());
            }
        }
        self.claims = m;
    }

    /// All claims, in (table, column, value) order.
    pub fn all_claims(&self) -> (r: Vec<&UniquenessClaim>)
        ensures
            forall|i: int, j: int| 0 <= i < j < r@.len() ==> crate::order::triple_lt(
                claim_key((#[trigger] r@[i])@),
                claim_key((#[trigger] r@[j])@),
            ),
            forall|i: int| 0 <= i < r@.len() ==> self@.contains_key(claim_key((#[trigger] r@[i])@))
                && self@[claim_key(r@[i]@)] == r@[i]@,
            forall|k: ClaimKey| #[trigger] self@.contains_key(k) ==> exists|i: int|
                0 <= i < r@.len() && claim_key((#[trigger] r@[i])@) == k,
    {
        proof {
            use_type_invariant(self);
        }
        let n = self.claims.len();
        let mut out: Vec<&UniquenessClaim> = Vec::new();
        let mut i: usize = 0;
        while i < n
            invariant
                n == self.claims.key_seq().len(),
                i <= n,
                self.claims.shape(),
                out@.len() == i,
                forall|j: int| 0 <= j < i ==> (#[trigger] out@[j])@ == self.claims.val_seq()[j],
            decreases n - i,
        {
            out.push(self.claims.value_at(i));
            i = i + 1;
        }
        proof {
            let ks = self.claims.key_seq();
            let vs = self.claims.val_seq();
            assert forall|j: int| 0 <= j < n implies claim_key((#[trigger] out@[j])@) == ks[j] by {
                assert(self.claims@.contains_key(ks[j]));
                assert(self.claims@[ks[j]] == vs[j]);
            }
            assert forall|a: int, b: int| 0 <= a < b < out@.len() implies crate::order::triple_lt(
                claim_key((#[trigger] out@[a])@),
                claim_key((#[trigger] out@[b])@),
            ) by {
                assert(<(String, String, String) as OrdKey>::key_lt(ks[a], ks[b]));
            }
            assert forall|k: ClaimKey| #[trigger] self@.contains_key(k) implies exists|j: int|
                0 <= j < out@.len() && claim_key((#[trigger] out@[j])@) == k by {
                assert(ks.to_set().contains(k));
                let j = ks.index_of(k);
                assert(claim_key(out@[j]@) == ks[j]);
            }
        }
        out
    }

    /// All claims, in (table, column, value) order, consuming the registry.
    pub fn into_vec(self) -> (r: Vec<UniquenessClaim>)
        ensures
            forall|i: int, j: int| 0 <= i < j < r@.len() ==> crate::order::triple_lt(
                claim_key((#[trigger] r@[i])@),
                claim_key((#[trigger] r@[j])@),
            ),
            forall|i: int| 0 <= i < r@.len() ==> self@.contains_key(claim_key((#[trigger] r@[i])@))
                && self@[claim_key(r@[i]@)] == r@[i]@,
            forall|k: ClaimKey| #[trigger] self@.contains_key(k) ==> exists|i: int|
                0 <= i < r@.len() && claim_key((#[trigger] r@[i])@) == k,
    {
        let refs = self.all_claims();
        let mut out: Vec<UniquenessClaim> = Vec::new();
        let mut i: usize = 0;
        while i < refs.len()
            invariant
                i <= refs@.len(),
                out@.len() == i,
                forall|j: int| 0 <= j < i ==> (#[trigger] out@[j])@ == refs@[j]@,
            decreases refs@.len() - i,
        {
            out.push(refs[i].deep_copy());
            i = i + 1;
        }
        proof {
            assert forall|k: ClaimKey| #[trigger] self@.contains_key(k) implies exists|i: int|
                0 <= i < out@.len() && claim_key((#[trigger] out@[i])@) == k by {
                let i = choose|i: int| 0 <= i < refs@.len() && claim_key((#[trigger] refs@[i])@) == k;
                assert(out@[i]@ == refs@[i]@);
            }
            assert forall|i: int, j: int| 0 <= i < j < out@.len() implies crate::order::triple_lt(
                claim_key((#[trigger] out@[i])@),
                claim_key((#[trigger] out@[j])@),
            ) by {
                assert(out@[i]@ == refs@[i]@ && out@[j]@ == refs@[j]@);
            }
        }
        out
    }
}

/// The merge of two claims for the same key.
fn merge_claim(existing: &UniquenessClaim, other: &UniquenessClaim) -> (r: UniquenessClaim)
    ensures
        claim_merged(existing@, other@, r@),
{
    proof {
        lemma_version_order();
    }
    if other.version.greater_than(&existing.version) {
        let mut all_losers = copy_losers(&existing.losers);
        let mut i: usize = 0;
        let ghost base = loser_views(all_losers@);
        while i < other.losers.len()
            invariant
                i <= other.losers@.len(),
                base == existing@.losers,
                loser_views(all_losers@) == base + other@.losers.subrange(0, i as int),
            decreases other.losers@.len() - i,
        {
            let ghost before = all_losers@;
            all_losers.push(other.losers[i].deep_copy());
            proof {
                assert(other@.losers.subrange(0, i + 1) =~= other@.losers.subrange(0, i as int).push(
                    other.losers@[i as int]@,
                ));
                assert(loser_views(all_losers@) =~= loser_views(before).push(other.losers@[i as int]@));
            }
            i = i + 1;
        }
        let ghost before = all_losers@;
        all_losers.push(
            LooserEntry { row_id: existing.owner_row.clone(), version: existing.version.deep_copy() },
        );
        proof {
            assert(other@.losers.subrange(0, other@.losers.len() as int) =~= other@.losers);
            assert(loser_views(all_losers@) =~= existing@.losers + other@.losers + seq![
                LooserView { row_id: existing@.owner_row, version: existing@.version },
            ]);
        }
        let losers = first_losers_sorted(&all_losers, &other.owner_row);
        UniquenessClaim {
            table_id: existing.table_id.clone(),
            column_id: existing.column_id.clone(),
            value: existing.value.clone(),
            owner_row: other.owner_row.clone(),
            version: other.version.deep_copy(),
            losers,
        }
    } else {
        let already = any_loser(&existing.losers, &other.owner_row);
        let mut losers = copy_losers(&existing.losers);
        if !already && !strings_equal(&other.owner_row, &existing.owner_row) {
            losers.push(
                LooserEntry { row_id: other.owner_row.clone(), version: other.version.deep_copy() },
            );
            assert(loser_views(losers@) =~= existing@.losers.push(
                LooserView { row_id: other@.owner_row, version: other@.version },
            ));
        } else {
            assert(loser_views(losers@) == existing@.losers);
        }
        let ghost start = loser_views(losers@);
        assert(other@.losers.subrange(0, other@.losers.len() as int) =~= other@.losers);
        let mut i: usize = 0;
        while i < other.losers.len()
            invariant
                i <= other.losers@.len(),
                append_new_losers(start, other@.losers, existing@.owner_row) == append_new_losers(
                    loser_views(losers@),
                    other@.losers.subrange(i as int, other@.losers.len() as int),
                    existing@.owner_row,
                ),
            decreases other.losers@.len() - i,
        {
            let l = &other.losers[i];
            let ghost rest = other@.losers.subrange(i as int, other@.losers.len() as int);
            let ghost before = loser_views(losers@);
            assert(rest[0] == l@);
            assert(rest.drop_first() =~= other@.losers.subrange(i + 1, other@.losers.len() as int));
            if !any_loser(&losers, &l.row_id) && !strings_equal(&l.row_id, &existing.owner_row) {
                losers.push(l.deep_copy());
                assert(loser_views(losers@) =~= before.push(l@));
            }
            i = i + 1;
        }
        proof {
            assert(other@.losers.subrange(other@.losers.len() as int, other@.losers.len() as int) =~= Seq::<LooserView>::empty());
        }
        UniquenessClaim {
            table_id: existing.table_id.clone(),
            column_id: existing.column_id.clone(),
            value: existing.value.clone(),
            owner_row: existing.owner_row.clone(),
            version: existing.version.deep_copy(),
            losers,
        }
    }
}

// ------------------------------------------------------------------ laws

/// The owner a claim merge settles on is that of the higher version, and it
/// does not depend on the order of the merge for claims that agree
/// (the same version means the same owner).
pub proof fn law_claim_merge_owner(e: ClaimView, o: ClaimView, r: ClaimView)
    requires
        claim_merged(e, o, r),
    ensures
        (r.owner_row, r.version) == merged_owner(e, o),
{
}

/// Merging two registries in either order settles every value on the same
/// owner, for registries whose claims agree (a version names one owner).
pub proof fn law_registry_merge_converges(
    a: Map<ClaimKey, ClaimView>,
    b: Map<ClaimKey, ClaimView>,
    ab: Map<ClaimKey, ClaimView>,
    ba: Map<ClaimKey, ClaimView>,
    k: ClaimKey,
)
    requires
        registry_merged(a, b, ab),
        registry_merged(b, a, ba),
        a.contains_key(k) && b.contains_key(k) && a[k].version == b[k].version ==> a[k].owner_row
            == b[k].owner_row,
    ensures
        ab.contains_key(k) == ba.contains_key(k),
        ab.contains_key(k) ==> ab[k].owner_row == ba[k].owner_row && ab[k].version == ba[k].version,
{
    lemma_version_order();
    assert(ab.contains_key(k) == (a.contains_key(k) || b.contains_key(k)));
    assert(ba.contains_key(k) == (a.contains_key(k) || b.contains_key(k)));
}

/// A claim at a higher version always takes ownership. A displaced owner
/// of another row is kept as a loser; the owner's own row reclaiming only
/// refreshes the version and leaves the losers as they were.
pub proof fn law_claim_higher_version_wins(e: ClaimView, row: Seq<char>, version: VersionView)
    requires
        version_lt(e.version, version),
    ensures
        claim_step(e, row, version).0.owner_row == row,
        claim_step(e, row, version).0.version == version,
        claim_step(e, row, version).1 == ClaimResultView::Won,
        row != e.owner_row ==> has_loser(claim_step(e, row, version).0.losers, e.owner_row),
        row == e.owner_row ==> claim_step(e, row, version).0.losers == e.losers,
{
    if row != e.owner_row {
        let l = claim_step(e, row, version).0.losers;
        assert(l[l.len() - 1].row_id == e.owner_row);
    }
}

/// A claim at a lower version loses, and the claimant is kept as a loser.
pub proof fn law_claim_lower_version_preserved(e: ClaimView, row: Seq<char>, version: VersionView)
    requires
        version_lt(version, e.version),
    ensures
        claim_step(e, row, version).0.owner_row == e.owner_row,
        claim_step(e, row, version).1 == ClaimResultView::Lost(e.owner_row),
        has_loser(claim_step(e, row, version).0.losers, row),
{
    lemma_version_order();
    let l = claim_step(e, row, version).0.losers;
    assert(l[l.len() - 1].row_id == row);
}

/// Re-claiming by the owner at the owner's version changes nothing.
pub proof fn law_claim_idempotent(e: ClaimView)
    ensures
        claim_step(e, e.owner_row, e.version) == (e, ClaimResultView::Won),
{
    lemma_version_order();
}

proof fn lemma_append_keeps(base: Seq<LooserView>, adds: Seq<LooserView>, owner: Seq<char>, row: Seq<char>)
    requires
        has_loser(base, row),
    ensures
        has_loser(append_new_losers(base, adds, owner), row),
    decreases adds.len(),
{
    if adds.len() > 0 {
        let next = if has_loser(base, adds[0].row_id) || adds[0].row_id == owner {
            base
        } else {
            base.push(adds[0])
        };
        let i = choose|i: int| 0 <= i < base.len() && (#[trigger] base[i]).row_id == row;
        assert(next[i].row_id == row);
        lemma_append_keeps(next, adds.drop_first(), owner, row);
    }
}

proof fn lemma_append_adds(base: Seq<LooserView>, adds: Seq<LooserView>, owner: Seq<char>, j: int)
    requires
        0 <= j < adds.len(),
        adds[j].row_id != owner,
    ensures
        has_loser(append_new_losers(base, adds, owner), adds[j].row_id),
    decreases adds.len(),
{
    let next = if has_loser(base, adds[0].row_id) || adds[0].row_id == owner {
        base
    } else {
        base.push(adds[0])
    };
    if j == 0 {
        if !has_loser(base, adds[0].row_id) {
            assert(next[base.len() as int].row_id == adds[0].row_id);
        }
        lemma_append_keeps(next, adds.drop_first(), owner, adds[0].row_id);
    } else {
        assert(adds.drop_first()[j - 1] == adds[j]);
        lemma_append_adds(next, adds.drop_first(), owner, j - 1);
    }
}

proof fn lemma_append_noop(base: Seq<LooserView>, adds: Seq<LooserView>, owner: Seq<char>)
    requires
        forall|j: int| 0 <= j < adds.len() ==> (#[trigger] adds[j]).row_id == owner || has_loser(base, adds[j].row_id),
    ensures
        append_new_losers(base, adds, owner) == base,
    decreases adds.len(),
{
    if adds.len() > 0 {
        assert(adds[0].row_id == owner || has_loser(base, adds[0].row_id));
        assert forall|j: int| 0 <= j < adds.drop_first().len() implies (#[trigger] adds.drop_first()[j]).row_id == owner
            || has_loser(base, adds.drop_first()[j].row_id) by {
            assert(adds.drop_first()[j] == adds[j + 1]);
        }
        lemma_append_noop(base, adds.drop_first(), owner);
    }
}

/// The rows a claim names: its owner and its losers.
pub open spec fn claim_names(c: ClaimView, row: Seq<char>) -> bool {
    row == c.owner_row || has_loser(c.losers, row)
}

/// Merging claims loses no row: every row either claim names, as owner or
/// as loser, the merged claim names too.
pub proof fn law_claim_merge_keeps_rows(e: ClaimView, o: ClaimView, r: ClaimView, row: Seq<char>)
    requires
        claim_merged(e, o, r),
        claim_names(e, row) || claim_names(o, row),
    ensures
        claim_names(r, row),
{
    lemma_version_order();
    if version_lt(e.version, o.version) {
        let s = e.losers + o.losers + seq![LooserView { row_id: e.owner_row, version: e.version }];
        if row != o.owner_row {
            if row == e.owner_row {
                assert(s[s.len() - 1].row_id == row);
            } else if has_loser(e.losers, row) {
                let i = choose|i: int| 0 <= i < e.losers.len() && (#[trigger] e.losers[i]).row_id == row;
                assert(s[i].row_id == row);
            } else {
                let i = choose|i: int| 0 <= i < o.losers.len() && (#[trigger] o.losers[i]).row_id == row;
                assert(s[e.losers.len() + i].row_id == row);
            }
        }
    } else {
        let base = if !has_loser(e.losers, o.owner_row) && o.owner_row != e.owner_row {
            e.losers.push(LooserView { row_id: o.owner_row, version: o.version })
        } else {
            e.losers
        };
        if row != e.owner_row {
            if has_loser(e.losers, row) {
                let i = choose|i: int| 0 <= i < e.losers.len() && (#[trigger] e.losers[i]).row_id == row;
                assert(base[i].row_id == row);
                lemma_append_keeps(base, o.losers, e.owner_row, row);
            } else if row == o.owner_row {
                assert(base[base.len() - 1].row_id == row);
                lemma_append_keeps(base, o.losers, e.owner_row, row);
            } else {
                let j = choose|j: int| 0 <= j < o.losers.len() && (#[trigger] o.losers[j]).row_id == row;
                lemma_append_adds(base, o.losers, e.owner_row, j);
            }
        }
    }
}

/// Merging the same claim again changes nothing.
pub proof fn law_claim_merge_idempotent(e: ClaimView, o: ClaimView, r: ClaimView, r2: ClaimView)
    requires
        claim_merged(e, o, r),
        claim_merged(r, o, r2),
    ensures
        r2 == r,
{
    lemma_version_order();
    if version_lt(e.version, o.version) {
        let s = e.losers + o.losers + seq![LooserView { row_id: e.owner_row, version: e.version }];
        assert forall|j: int| 0 <= j < o.losers.len() implies (#[trigger] o.losers[j]).row_id == r.owner_row
            || has_loser(r.losers, o.losers[j].row_id) by {
            assert(s[e.losers.len() + j] == o.losers[j]);
        }
        lemma_append_noop(r.losers, o.losers, r.owner_row);
    } else {
        let base = if !has_loser(e.losers, o.owner_row) && o.owner_row != e.owner_row {
            e.losers.push(LooserView { row_id: o.owner_row, version: o.version })
        } else {
            e.losers
        };
        if o.owner_row != e.owner_row {
            if has_loser(e.losers, o.owner_row) {
                let i = choose|i: int| 0 <= i < e.losers.len() && (#[trigger] e.losers[i]).row_id == o.owner_row;
                assert(base[i].row_id == o.owner_row);
            } else {
                assert(base[base.len() - 1].row_id == o.owner_row);
            }
            lemma_append_keeps(base, o.losers, e.owner_row, o.owner_row);
        }
        assert forall|j: int| 0 <= j < o.losers.len() implies (#[trigger] o.losers[j]).row_id == r.owner_row
            || has_loser(r.losers, o.losers[j].row_id) by {
            if o.losers[j].row_id != e.owner_row {
                lemma_append_adds(base, o.losers, e.owner_row, j);
            }
        }
        lemma_append_noop(r.losers, o.losers, r.owner_row);
    }
}

/// Merging a registry into one that already took it in changes nothing:
/// repeated syncs leave the claims as they are.
pub proof fn law_registry_merge_idempotent(
    a: Map<ClaimKey, ClaimView>,
    b: Map<ClaimKey, ClaimView>,
    ab: Map<ClaimKey, ClaimView>,
    abb: Map<ClaimKey, ClaimView>,
)
    requires
        registry_merged(a, b, ab),
        registry_merged(ab, b, abb),
    ensures
        abb == ab,
{
    lemma_version_order();
    assert forall|k: ClaimKey| #[trigger] abb.contains_key(k) == ab.contains_key(k) by {}
    assert forall|k: ClaimKey| #[trigger] abb.contains_key(k) implies abb[k] == ab[k] by {
        if a.contains_key(k) && b.contains_key(k) {
            law_claim_merge_idempotent(a[k], b[k], ab[k], abb[k]);
        } else if b.contains_key(k) {
            let c = b[k];
            assert forall|j: int| 0 <= j < c.losers.len() implies (#[trigger] c.losers[j]).row_id == c.owner_row
                || has_loser(c.losers, c.losers[j].row_id) by {}
            lemma_append_noop(c.losers, c.losers, c.owner_row);
        }
    }
    assert(abb =~= ab);
}

} // verus!
