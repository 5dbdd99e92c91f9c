//! In-memory canonical row store and schema registry, both held in ordered
//! maps so that every walk over them is deterministic.
use vstd::prelude::*;
use crate::error::{CrdtError, CrdtResult};
use crate::order::{str_lt, lemma_str_laws};
use crate::ordmap::OrdMap;
use crate::types::{Row, RowId, RowView, TableId, TableSchema};

verus! {

/// Rows strictly increase by id.
pub open spec fn rows_sorted(s: Seq<RowView>) -> bool {
    forall|i: int, j: int| 0 <= i < j < s.len() ==> str_lt((#[trigger] s[i]).id, (#[trigger] s[j]).id)
}

/// `s` lists exactly the rows of table `m`, in id order.
pub open spec fn lists_rows(s: Seq<RowView>, m: Map<Seq<char>, RowView>) -> bool {
    &&& rows_sorted(s)
    &&& forall|i: int| 0 <= i < s.len() ==> m.contains_key((#[trigger] s[i]).id) && m[s[i].id] == s[i]
    &&& forall|k: Seq<char>| #[trigger] m.contains_key(k) ==> exists|i: int| 0 <= i < s.len() && (#[trigger] s[i]).id == k
}

/// The views of a sequence of row references.
pub open spec fn row_views(s: Seq<&Row>) -> Seq<RowView> {
    s.map_values(|r: &Row| r@)
}

/// The rows of a table, or none when the table is absent.
pub open spec fn table_rows(t: Map<Seq<char>, Map<Seq<char>, RowView>>, table: Seq<char>) -> Map<
    Seq<char>,
    RowView,
> {
    if t.contains_key(table) {
        t[table]
    } else {
        Map::empty()
    }
}

/// Each row is stored under its own id.
pub open spec fn tables_keyed(t: Map<Seq<char>, Map<Seq<char>, RowView>>) -> bool {
    forall|n: Seq<char>, k: Seq<char>|
        #![trigger t[n].contains_key(k)]
        t.contains_key(n) && t[n].contains_key(k) ==> t[n][k].id == k
}

/// In-memory canonical row store: table id to row id to row.
#[derive(Debug)]
pub struct StorageEngine {
    tables: OrdMap<TableId, OrdMap<RowId, Row>>,
}

impl View for StorageEngine {
    type V = Map<Seq<char>, Map<Seq<char>, RowView>>;

    closed spec fn view(&self) -> Self::V {
        self.tables@
    }
}

impl StorageEngine {
    #[verifier::type_invariant]
    closed spec fn inv(&self) -> bool {
        tables_keyed(self.tables@)
    }

    /// Every store holds finitely many tables, rows and cells.
    pub proof fn lemma_tables_finite(&self)
        ensures
            crate::hashing::tables_finite(self@),
    {
        let t = self.tables@;
        self.tables.lemma_finite();
        assert forall|k: Seq<char>| #[trigger] t.contains_key(k) implies t[k].dom().finite() by {
            let i = choose|i: int| 0 <= i < self.tables.key_seq().len() && t[k] == (#[trigger] self.tables.stored(i))@;
            self.tables.stored(i).lemma_finite();
        }
        assert forall|k: Seq<char>, r: Seq<char>| #[trigger] t.contains_key(k) && #[trigger] t[k].contains_key(r) implies t[k][
            r
        ].cells.dom().finite() by {
            let i = choose|i: int| 0 <= i < self.tables.key_seq().len() && t[k] == (#[trigger] self.tables.stored(i))@;
            let rows = self.tables.stored(i);
            rows.lemma_finite();
            let j = choose|j: int| 0 <= j < rows.key_seq().len() && t[k][r] == (#[trigger] rows.stored(j))@;
            rows.stored(j).cells.lemma_finite();
        }
    }

    /// Every row is stored under its own id.
    pub fn keyed(&self) -> (r: bool)
        ensures
            r,
            tables_keyed(self@),
    {
        proof {
            use_type_invariant(self);
        }
        true
    }

    pub fn new() -> (r: Self)
        ensures
            r@ == Map::<Seq<char>, Map<Seq<char>, RowView>>::empty(),
    {
        StorageEngine { tables: OrdMap::new() }
    }

    /// Create a new (empty) table, unless it exists.
    pub fn create_table(&mut self, table_id: &str)
        ensures
            final(self)@ == (if old(self)@.contains_key(table_id@) {
                old(self)@
            } else {
                old(self)@.insert(table_id@, Map::empty())
            }),
    {
        proof {
            use_type_invariant(&*self);
        }
        let key = table_id.to_owned();
        if !self.tables.contains_key(&key) {
            let mut m: OrdMap<TableId, OrdMap<RowId, Row>> = OrdMap::new();
            std::mem::swap(&mut m, &mut self.tables);
            m.insert(key, OrdMap::new());
            self.tables = m;
        }
    }

    pub fn table_exists(&self, table_id: &str) -> (r: bool)
        ensures
            r == self@.contains_key(table_id@),
    {
        let key = table_id.to_owned();
        self.tables.contains_key(&key)
    }

    /// Upsert a row into a table (creating the table if missing). Never fails.
    pub fn upsert_row(&mut self, table_id: &str, row: Row) -> (r: CrdtResult<()>)
        ensures
            r is Ok,
            final(self)@ == old(self)@.insert(
                table_id@,
                table_rows(old(self)@, table_id@).insert(row.id@, row@),
            ),
    {
        proof {
            use_type_invariant(&*self);
        }
        let key = table_id.to_owned();
        let mut m: OrdMap<TableId, OrdMap<RowId, Row>> = OrdMap::new();
        std::mem::swap(&mut m, &mut self.tables);
        let mut inner = match m.remove(&key) {
            Some(t) => t,
            None => OrdMap::new(),
        };
        let rid = row.id.clone();
        inner.insert(rid, row);
        m.insert(key, inner);
        assert(tables_keyed(m@));
        self.tables = m;
        Ok(())
    }

    /// Any row, tombstoned or not.
    pub fn get_row(&self, table_id: &str, row_id: &str) -> (r: Option<&Row>)
        ensures
            match r {
                Some(row) => self@.contains_key(table_id@) && self@[table_id@].contains_key(row_id@)
                    && self@[table_id@][row_id@] == row@,
                None => !(self@.contains_key(table_id@) && self@[table_id@].contains_key(row_id@)),
            },
    {
        let tkey = table_id.to_owned();
        match self.tables.get(&tkey) {
            Some(t) => {
                let rkey = row_id.to_owned();
                t.get(&rkey)
            },
            None => None,
        }
    }

    /// A row that is not tombstoned.
    pub fn get_visible_row(&self, table_id: &str, row_id: &str) -> (r: Option<&Row>)
        ensures
            match r {
                Some(row) => self@.contains_key(table_id@) && self@[table_id@].contains_key(row_id@)
                    && self@[table_id@][row_id@] == row@ && !row.deleted,
                None => !(self@.contains_key(table_id@) && self@[table_id@].contains_key(row_id@)
                    && !self@[table_id@][row_id@].deleted),
            },
    {
        match self.get_row(table_id, row_id) {
            Some(row) => {
                if row.is_visible() {
                    Some(row)
                } else {
                    None
                }
            },
            None => None,
        }
    }

    /// All rows of a table, tombstoned ones included, in id order.
    pub fn all_rows(&self, table_id: &str) -> (r: Vec<&Row>)
        ensures
            lists_rows(row_views(r@), table_rows(self@, table_id@)),
    {
        proof {
            use_type_invariant(self);
            lemma_str_laws();
        }
        let tkey = table_id.to_owned();
        let mut out: Vec<&Row> = Vec::new();
        match self.tables.get(&tkey) {
            None => {
                assert(row_views(out@) =~= Seq::<RowView>::empty());
            },
            Some(t) => {
                let n = t.len();
                let mut i: usize = 0;
                while i < n
                    invariant
                        n == t.key_seq().len(),
                        i <= n,
                        t.shape(),
                        out@.len() == i,
                        forall|j: int| 0 <= j < i ==> (#[trigger] out@[j])@ == t.val_seq()[j],
                    decreases n - i,
                {
                    out.push(t.value_at(i));
                    i = i + 1;
                }
                proof {
                    let ks = t.key_seq();
                    let vs = t.val_seq();
                    let ov = row_views(out@);
                    assert(t@ == table_rows(self@, table_id@));
                    assert forall|j: int| 0 <= j < n implies (#[trigger] ov[j]).id == ks[j] by {
                        assert(t@.contains_key(ks[j]));
                        assert(t@[ks[j]] == vs[j]);
                    }
                    assert forall|a: int, b: int| 0 <= a < b < ov.len() implies str_lt(
                        (#[trigger] ov[a]).id,
                        (#[trigger] ov[b]).id,
                    ) by {
                        assert(<String as crate::order::OrdKey>::key_lt(ks[a], ks[b]));
                    }
                    assert forall|j: int| 0 <= j < ov.len() implies t@.contains_key(
                        (#[trigger] ov[j]).id,
                    ) && t@[ov[j].id] == ov[j] by {
                        assert(t@[ks[j]] == vs[j]);
                    }
                    assert forall|k: Seq<char>| #[trigger] t@.contains_key(k) implies exists|j: int|
                        0 <= j < ov.len() && (#[trigger] ov[j]).id == k by {
                        assert(ks.to_set().contains(k));
                        let j = ks.index_of(k);
                        assert(ov[j].id == ks[j]);
                    }
                }
            },
        }
        out
    }

    /// The rows of a table that are not tombstoned, in id order.
    pub fn visible_rows(&self, table_id: &str) -> (r: Vec<&Row>)
        ensures
            lists_rows(
                row_views(r@),
                table_rows(self@, table_id@).restrict(
                    Set::new(|k: Seq<char>| !table_rows(self@, table_id@)[k].deleted),
                ),
            ),
    {
        let all = self.all_rows(table_id);
        let ghost m = table_rows(self@, table_id@);
        let ghost sel = Set::new(|k: Seq<char>| !table_rows(self@, table_id@)[k].deleted);
        let mut out: Vec<&Row> = Vec::new();
        let mut i: usize = 0;
        while i < all.len()
            invariant
                i <= all@.len(),
                m == table_rows(self@, table_id@),
                sel == Set::new(|k: Seq<char>| !table_rows(self@, table_id@)[k].deleted),
                lists_rows(row_views(all@), m),
                rows_sorted(row_views(out@)),
                forall|j: int|
                    0 <= j < out@.len() ==> !(#[trigger] out@[j]).deleted && exists|x: int|
                        0 <= x < i && out@[j]@ == all@[x]@,
                forall|x: int|
                    0 <= x < i && !(#[trigger] all@[x]).deleted ==> exists|j: int|
                        0 <= j < out@.len() && out@[j]@ == all@[x]@,
            decreases all@.len() - i,
        {
            let ghost before = out@;
            let ghost av = row_views(all@);
            assert(av[i as int] == all@[i as int]@);
            if all[i].is_visible() {
                out.push(all[i]);
                proof {
                    let ov = row_views(out@);
                    assert forall|a: int, b: int| 0 <= a < b < ov.len() implies str_lt(
                        (#[trigger] ov[a]).id,
                        (#[trigger] ov[b]).id,
                    ) by {
                        if b == before.len() {
                            let x = choose|x: int| 0 <= x < i && before[a]@ == all@[x]@;
                            assert(out@[a] == before[a]);
                            assert(av[x] == all@[x]@);
                            assert(str_lt(av[x].id, av[i as int].id));
                        } else {
                            assert(out@[a] == before[a] && out@[b] == before[b]);
                            assert(row_views(before)[a] == ov[a]);
                            assert(row_views(before)[b] == ov[b]);
                        }
                    }
                    assert forall|j: int| 0 <= j < out@.len() implies !(#[trigger] out@[j]).deleted
                        && exists|x: int| 0 <= x < i + 1 && out@[j]@ == all@[x]@ by {
                        if j < before.len() {
                            assert(out@[j] == before[j]);
                            let x = choose|x: int| 0 <= x < i && before[j]@ == all@[x]@;
                            assert(0 <= x < i + 1 && out@[j]@ == all@[x]@);
                        } else {
                            assert(out@[j] == all@[i as int]);
                        }
                    }
                    assert forall|x: int| 0 <= x < i + 1 && !(#[trigger] all@[x]).deleted implies exists|j: int|
                        0 <= j < out@.len() && out@[j]@ == all@[x]@ by {
                        if x < i {
                            let j = choose|j: int| 0 <= j < before.len() && before[j]@ == all@[x]@;
                            assert(out@[j] == before[j]);
                        } else {
                            assert(out@[before.len() as int] == all@[x]);
                        }
                    }
                }
            } else {
                proof {
                    assert forall|j: int| 0 <= j < out@.len() implies !(#[trigger] out@[j]).deleted
                        && exists|x: int| 0 <= x < i + 1 && out@[j]@ == all@[x]@ by {
                        let x = choose|x: int| 0 <= x < i && out@[j]@ == all@[x]@;
                        assert(0 <= x < i + 1);
                    }
                }
            }
            i = i + 1;
        }
        proof {
            let mr = m.restrict(sel);
            let ov = row_views(out@);
            let av = row_views(all@);
            assert forall|j: int| 0 <= j < ov.len() implies mr.contains_key((#[trigger] ov[j]).id)
                && mr[ov[j].id] == ov[j] by {
                let x = choose|x: int| 0 <= x < all@.len() && out@[j]@ == all@[x]@;
                assert(av[x] == all@[x]@);
                assert(m.contains_key(av[x].id));
                assert(sel.contains(ov[j].id));
            }
            assert forall|k: Seq<char>| #[trigger] mr.contains_key(k) implies exists|j: int|
                0 <= j < ov.len() && (#[trigger] ov[j]).id == k by {
                let x = choose|x: int| 0 <= x < av.len() && (#[trigger] av[x]).id == k;
                assert(av[x] == all@[x]@);
                assert(!all@[x].deleted);
                let j = choose|j: int| 0 <= j < out@.len() && out@[j]@ == all@[x]@;
                assert(ov[j] == out@[j]@);
            }
        }
        out
    }

    /// The full state of a table, tombstoned rows included.
    pub fn snapshot_table(&self, table_id: &str) -> (r: Option<&OrdMap<RowId, Row>>)
        ensures
            match r {
                Some(t) => self@.contains_key(table_id@) && t@ == self@[table_id@],
                None => !self@.contains_key(table_id@),
            },
    {
        let key = table_id.to_owned();
        self.tables.get(&key)
    }

    /// All table names, in sorted order.
    pub fn table_names(&self) -> (r: Vec<TableId>)
        ensures
            forall|i: int, j: int| 0 <= i < j < r@.len() ==> str_lt((#[trigger] r@[i])@, (#[trigger] r@[j])@),
            forall|i: int| 0 <= i < r@.len() ==> self@.contains_key((#[trigger] r@[i])@),
            forall|k: Seq<char>| #[trigger] self@.contains_key(k) ==> exists|i: int| 0 <= i < r@.len() && (#[trigger] r@[i])@ == k,
    {
        let r = self.tables.keys();
        proof {
            let ks = self.tables.key_seq();
            assert forall|i: int, j: int| 0 <= i < j < r@.len() implies str_lt((#[trigger] r@[i])@, (#[trigger] r@[j])@) by {
                assert(<String as crate::order::OrdKey>::key_lt(ks[i], ks[j]));
            }
            assert forall|i: int| 0 <= i < r@.len() implies self@.contains_key((#[trigger] r@[i])@) by {
                assert(ks.to_set().contains(ks[i]));
            }
            assert forall|k: Seq<char>| #[trigger] self@.contains_key(k) implies exists|i: int| 0 <= i < r@.len() && (#[trigger] r@[i])@ == k by {
                assert(ks.to_set().contains(k));
                let i = ks.index_of(k);
                assert(r@[i]@ == k);
            }
        }
        r
    }

    /// The number of rows of a table that are not tombstoned.
    pub fn visible_count(&self, table_id: &str) -> (r: usize)
        ensures
            r == table_rows(self@, table_id@).restrict(
                Set::new(|k: Seq<char>| !table_rows(self@, table_id@)[k].deleted),
            ).len(),
    {
        let v = self.visible_rows(table_id);
        proof {
            lemma_listing_len(
                row_views(v@),
                table_rows(self@, table_id@).restrict(
                    Set::new(|k: Seq<char>| !table_rows(self@, table_id@)[k].deleted),
                ),
            );
        }
        v.len()
    }

    /// The number of rows of a table, tombstoned ones included.
    pub fn total_count(&self, table_id: &str) -> (r: usize)
        ensures
            r == table_rows(self@, table_id@).len(),
    {
        let v = self.all_rows(table_id);
        proof {
            lemma_listing_len(row_views(v@), table_rows(self@, table_id@));
        }
        v.len()
    }

    /// Physically remove a row (a step of garbage collection).
    pub fn gc_row(&mut self, table_id: &str, row_id: &str)
        ensures
            final(self)@ == (if old(self)@.contains_key(table_id@) {
                old(self)@.insert(table_id@, old(self)@[table_id@].remove(row_id@))
            } else {
                old(self)@
            }),
    {
        proof {
            use_type_invariant(&*self);
        }
        let key = table_id.to_owned();
        let mut m: OrdMap<TableId, OrdMap<RowId, Row>> = OrdMap::new();
        std::mem::swap(&mut m, &mut self.tables);
        match m.remove(&key) {
            Some(mut inner) => {
                let rkey = row_id.to_owned();
                inner.remove(&rkey);
                m.insert(key, inner);
                assert(tables_keyed(m@));
            },
            None => {
                assert(m@ =~= old(self)@);
            },
        }
        self.tables = m;
    }
}

/// A listing of a finite map has as many entries as the map.
pub proof fn lemma_listing_len(s: Seq<RowView>, m: Map<Seq<char>, RowView>)
    requires
        lists_rows(s, m),
    ensures
        s.len() == m.len(),
{
    lemma_str_laws();
    let ids = s.map_values(|r: RowView| r.id);
    assert(ids.no_duplicates()) by {
        assert forall|i: int, j: int| 0 <= i < ids.len() && 0 <= j < ids.len() && i != j implies ids[i] != ids[j] by {
            if i < j {
                assert(str_lt(s[i].id, s[j].id));
            } else {
                assert(str_lt(s[j].id, s[i].id));
            }
        }
    }
    ids.unique_seq_to_set();
    assert forall|k: Seq<char>| #[trigger] ids.to_set().contains(k) == m.dom().contains(k) by {
        if m.dom().contains(k) {
            let i = choose|i: int| 0 <= i < s.len() && (#[trigger] s[i]).id == k;
            assert(ids[i] == k);
        }
        if ids.to_set().contains(k) {
            let i = ids.index_of(k);
            assert(s[i].id == k);
        }
    }
    assert(ids.to_set() =~= m.dom());
}

// ---------------------------------------------------------------- schemas

impl View for TableSchema {
    type V = TableSchema;

    open spec fn view(&self) -> TableSchema {
        *self
    }
}

/// In-memory schema registry: table name to schema.
#[derive(Debug)]
pub struct SchemaStore {
    tables: OrdMap<String, TableSchema>,
}

impl View for SchemaStore {
    type V = Map<Seq<char>, TableSchema>;

    closed spec fn view(&self) -> Self::V {
        self.tables@
    }
}

impl SchemaStore {
    #[verifier::type_invariant]
    closed spec fn inv(&self) -> bool {
        forall|k: Seq<char>| #[trigger] self.tables@.contains_key(k) ==> self.tables@[k].name@ == k
    }

    pub fn new() -> (r: Self)
        ensures
            r@ == Map::<Seq<char>, TableSchema>::empty(),
    {
        SchemaStore { tables: OrdMap::new() }
    }

    /// Register a schema; fails when a table of that name exists.
    pub fn create_table(&mut self, schema: TableSchema) -> (r: CrdtResult<()>)
        ensures
            old(self)@.contains_key(schema.name@) ==> final(self)@ == old(self)@ && (r matches Err(
                CrdtError::SchemaError(m),
            ) && m@ == "table "@ + schema.name@ + " already exists"@),
            !old(self)@.contains_key(schema.name@) ==> r is Ok && final(self)@ == old(self)@.insert(
                schema.name@,
                schema,
            ),
    {
        if self.tables.contains_key(&schema.name) {
            let mut msg = String::from_str("table ");
            msg.append(schema.name.as_str());
            msg.append(" already exists");
            return Err(CrdtError::SchemaError(msg));
        }
        proof {
            use_type_invariant(&*self);
        }
        let key = schema.name.clone();
        let mut m: OrdMap<String, TableSchema> = OrdMap::new();
        std::mem::swap(&mut m, &mut self.tables);
        m.insert(key, schema);
        self.tables = m;
        Ok(())
    }

    pub fn get(&self, table_name: &str) -> (r: Option<&TableSchema>)
        ensures
            match r {
                Some(s) => self@.contains_key(table_name@) && self@[table_name@] == *s,
                None => !self@.contains_key(table_name@),
            },
    {
        let key = table_name.to_owned();
        self.tables.get(&key)
    }

    /// All schemas, in table-name order.
    pub fn all(&self) -> (r: Vec<&TableSchema>)
        ensures
            forall|i: int, j: int| 0 <= i < j < r@.len() ==> str_lt((#[trigger] r@[i]).name@, (#[trigger] r@[j]).name@),
            forall|i: int| 0 <= i < r@.len() ==> self@.contains_key((#[trigger] r@[i]).name@) && self@[r@[i].name@] == *r@[i],
            forall|k: Seq<char>| #[trigger] self@.contains_key(k) ==> exists|i: int| 0 <= i < r@.len() && (#[trigger] r@[i]).name@ == k,
    {
        proof {
            use_type_invariant(self);
        }
        let n = self.tables.len();
        let mut out: Vec<&TableSchema> = Vec::new();
        let mut i: usize = 0;
        while i < n
            invariant
                n == self.tables.key_seq().len(),
                i <= n,
                self.tables.shape(),
                out@.len() == i,
                forall|j: int| 0 <= j < i ==> *(#[trigger] out@[j]) == self.tables.val_seq()[j],
            decreases n - i,
        {
            out.push(self.tables.value_at(i));
            i = i + 1;
        }
        proof {
            let ks = self.tables.key_seq();
            let vs = self.tables.val_seq();
            assert forall|j: int| 0 <= j < n implies (#[trigger] out@[j]).name@ == ks[j] by {
                assert(self.tables@.contains_key(ks[j]));
                assert(self.tables@[ks[j]] == vs[j]);
            }
            assert forall|i: int, j: int| 0 <= i < j < out@.len() implies str_lt((#[trigger] out@[i]).name@, (#[trigger] out@[j]).name@) by {
                assert(<String as crate::order::OrdKey>::key_lt(ks[i], ks[j]));
            }
            assert forall|k: Seq<char>| #[trigger] self@.contains_key(k) implies exists|i: int| 0 <= i < out@.len() && (#[trigger] out@[i]).name@ == k by {
                assert(ks.to_set().contains(k));
                let i = ks.index_of(k);
                assert(out@[i].name@ == ks[i]);
            }
        }
        out
    }

    /// All table names, in sorted order.
    pub fn table_names(&self) -> (r: Vec<String>)
        ensures
            forall|i: int, j: int| 0 <= i < j < r@.len() ==> str_lt((#[trigger] r@[i])@, (#[trigger] r@[j])@),
            forall|i: int| 0 <= i < r@.len() ==> self@.contains_key((#[trigger] r@[i])@),
            forall|k: Seq<char>| #[trigger] self@.contains_key(k) ==> exists|i: int| 0 <= i < r@.len() && (#[trigger] r@[i])@ == k,
    {
        let r = self.tables.keys();
        proof {
            let ks = self.tables.key_seq();
            assert forall|i: int, j: int| 0 <= i < j < r@.len() implies str_lt((#[trigger] r@[i])@, (#[trigger] r@[j])@) by {
                assert(<String as crate::order::OrdKey>::key_lt(ks[i], ks[j]));
            }
            assert forall|i: int| 0 <= i < r@.len() implies self@.contains_key((#[trigger] r@[i])@) by {
                assert(ks.to_set().contains(ks[i]));
            }
            assert forall|k: Seq<char>| #[trigger] self@.contains_key(k) implies exists|i: int| 0 <= i < r@.len() && (#[trigger] r@[i])@ == k by {
                assert(ks.to_set().contains(k));
                let i = ks.index_of(k);
                assert(r@[i]@ == k);
            }
        }
        r
    }

    pub fn contains(&self, table_name: &str) -> (r: bool)
        ensures
            r == self@.contains_key(table_name@),
    {
        let key = table_name.to_owned();
        self.tables.contains_key(&key)
    }
}

} // verus!
