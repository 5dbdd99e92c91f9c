//! State-based merge of cells, rows and tables: per-cell last-writer-wins by
//! version, and delete-wins rows.
use vstd::prelude::*;
use crate::ordmap::{OrdMap, DeepCopy};
use crate::types::{
    Cell, CellView, Row, RowView, RowId, Version, VersionView, version_lt, lemma_version_order,
    copy_opt_version,
};

verus! {

/// The cell with the higher version; the first on a tie.
pub open spec fn merge_cell_spec(a: CellView, b: CellView) -> CellView {
    if version_lt(a.version, b.version) {
        b
    } else {
        a
    }
}

/// Cell maps merged column by column.
pub open spec fn merge_cells_spec(a: Map<Seq<char>, CellView>, b: Map<Seq<char>, CellView>) -> Map<
    Seq<char>,
    CellView,
> {
    Map::new(
        |c: Seq<char>| a.contains_key(c) || b.contains_key(c),
        |c: Seq<char>|
            if a.contains_key(c) && b.contains_key(c) {
                merge_cell_spec(a[c], b[c])
            } else if a.contains_key(c) {
                a[c]
            } else {
                b[c]
            },
    )
}

/// Delete wins: the merged row is deleted when either is. When both are
/// deleted with a delete version, the higher delete version is kept;
/// otherwise the delete version of the first deleted row.
pub open spec fn merge_delete_spec(a: RowView, b: RowView) -> (bool, Option<VersionView>) {
    if a.deleted && b.deleted && a.delete_version is Some && b.delete_version is Some {
        let va = a.delete_version->0;
        let vb = b.delete_version->0;
        (true, Some(if version_lt(va, vb) { vb } else { va }))
    } else if a.deleted {
        (true, a.delete_version)
    } else if b.deleted {
        (true, b.delete_version)
    } else {
        (false, None)
    }
}

pub open spec fn merge_row_spec(a: RowView, b: RowView) -> RowView {
    RowView {
        id: a.id,
        cells: merge_cells_spec(a.cells, b.cells),
        deleted: merge_delete_spec(a, b).0,
        delete_version: merge_delete_spec(a, b).1,
    }
}

/// Tables merged row by row.
pub open spec fn merge_table_spec(a: Map<Seq<char>, RowView>, b: Map<Seq<char>, RowView>) -> Map<
    Seq<char>,
    RowView,
> {
    Map::new(
        |k: Seq<char>| a.contains_key(k) || b.contains_key(k),
        |k: Seq<char>|
            if a.contains_key(k) && b.contains_key(k) {
                merge_row_spec(a[k], b[k])
            } else if a.contains_key(k) {
                a[k]
            } else {
                b[k]
            },
    )
}

/// Merge two cells: the cell with the higher version wins.
pub fn merge_cell(a: &Cell, b: &Cell) -> (r: Cell)
    ensures
        r@ == merge_cell_spec(a@, b@),
{
    if b.version.greater_than(&a.version) {
        b.deep_copy()
    } else {
        a.deep_copy()
    }
}

/// Merge two rows of the same id: cell-level merge, and delete wins.
pub fn merge_row(a: &Row, b: &Row) -> (r: Row)
    requires
        a.id@ == b.id@,
    ensures
        r@ == merge_row_spec(a@, b@),
        a.deleted || b.deleted ==> r.deleted,
{
    let mut merged: OrdMap<String, Cell> = OrdMap::new();
    let na = a.cells.len();
    let mut i: usize = 0;
    while i < na
        invariant
            na == a.cells.key_seq().len(),
            i <= na,
            a.cells.shape(),
            forall|c: Seq<char>| #[trigger]
                merged@.contains_key(c) == a.cells.key_seq().subrange(0, i as int).contains(c),
            forall|c: Seq<char>| #[trigger]
                merged@.contains_key(c) ==> merged@[c] == merge_cells_spec(a@.cells, b@.cells)[c],
        decreases na - i,
    {
        let col = a.cells.key_at(i);
        let cell_a = a.cells.value_at(i);
        let m = match b.cells.get(col) {
            Some(cell_b) => merge_cell(cell_a, cell_b),
            None => cell_a.deep_copy(),
        };
        let ghost before = merged@;
        merged.insert(col.clone(), m);
        proof {
            let ks = a.cells.key_seq();
            let c0 = ks[i as int];
            assert(a@.cells[c0] == cell_a@);
            assert(ks.subrange(0, i + 1) =~= ks.subrange(0, i as int).push(c0));
            assert(ks.subrange(0, i + 1)[i as int] == c0);
            assert forall|c: Seq<char>| #[trigger]
                merged@.contains_key(c) == ks.subrange(0, i + 1).contains(c) by {
                if ks.subrange(0, i + 1).contains(c) && c != c0 {
                    let k = ks.subrange(0, i + 1).index_of(c);
                    assert(ks.subrange(0, i as int)[k] == c);
                }
                if ks.subrange(0, i as int).contains(c) {
                    let k = ks.subrange(0, i as int).index_of(c);
                    assert(ks.subrange(0, i + 1)[k] == c);
                }
            }
        }
        i = i + 1;
    }
    proof {
        assert(a.cells.key_seq().subrange(0, na as int) =~= a.cells.key_seq());
        assert forall|c: Seq<char>| #[trigger]
            merged@.contains_key(c) == a@.cells.contains_key(c) by {
            assert(a@.cells.dom() == a.cells.key_seq().to_set());
        }
    }
    let nb = b.cells.len();
    let mut j: usize = 0;
    while j < nb
        invariant
            nb == b.cells.key_seq().len(),
            j <= nb,
            b.cells.shape(),
            forall|c: Seq<char>| #[trigger]
                merged@.contains_key(c) == (a@.cells.contains_key(c) || b.cells.key_seq().subrange(
                    0,
                    j as int,
                ).contains(c)),
            forall|c: Seq<char>| #[trigger]
                merged@.contains_key(c) ==> merged@[c] == merge_cells_spec(a@.cells, b@.cells)[c],
        decreases nb - j,
    {
        let col = b.cells.key_at(j);
        if !merged.contains_key(col) {
            let cell_b = b.cells.value_at(j);
            merged.insert(col.clone(), cell_b.deep_copy());
            proof {
                let c0 = b.cells.key_seq()[j as int];
                assert(b@.cells[c0] == cell_b@);
            }
        }
        proof {
            let ks = b.cells.key_seq();
            let c0 = ks[j as int];
            assert(ks.subrange(0, j + 1) =~= ks.subrange(0, j as int).push(c0));
            assert(ks.subrange(0, j + 1)[j as int] == c0);
            assert forall|c: Seq<char>| #[trigger]
                merged@.contains_key(c) == (a@.cells.contains_key(c) || ks.subrange(0, j + 1).contains(c)) by {
                if ks.subrange(0, j + 1).contains(c) && c != c0 {
                    let k = ks.subrange(0, j + 1).index_of(c);
                    assert(ks.subrange(0, j as int)[k] == c);
                }
                if ks.subrange(0, j as int).contains(c) {
                    let k = ks.subrange(0, j as int).index_of(c);
                    assert(ks.subrange(0, j + 1)[k] == c);
                }
            }
        }
        j = j + 1;
    }
    proof {
        let ks = b.cells.key_seq();
        assert(ks.subrange(0, nb as int) =~= ks);
        assert forall|c: Seq<char>| b@.cells.contains_key(c) <==> #[trigger] ks.contains(c) by {
            assert(b@.cells.dom() == ks.to_set());
        }
        assert(merged@ =~= merge_cells_spec(a@.cells, b@.cells));
    }
    let (deleted, delete_version) = if a.deleted && b.deleted && a.delete_version.is_some()
        && b.delete_version.is_some() {
        let va = a.delete_version.as_ref().unwrap();
        let vb = b.delete_version.as_ref().unwrap();
        if vb.greater_than(va) {
            (true, Some(vb.deep_copy()))
        } else {
            (true, Some(va.deep_copy()))
        }
    } else if a.deleted {
        (true, copy_opt_version(&a.delete_version))
    } else if b.deleted {
        (true, copy_opt_version(&b.delete_version))
    } else {
        (false, None)
    };
    Row { id: a.id.clone(), cells: merged, deleted, delete_version }
}

/// Merge two tables (row id to row): rows present in both are merged; a row
/// id present in both must name rows of the same id.
pub fn merge_table(a: &OrdMap<RowId, Row>, b: &OrdMap<RowId, Row>) -> (r: OrdMap<RowId, Row>)
    requires
        forall|k: Seq<char>| #[trigger] a@.contains_key(k) && b@.contains_key(k) ==> a@[k].id == b@[k].id,
    ensures
        r@ == merge_table_spec(a@, b@),
{
    let mut result = a.deep_copy();
    let nb = b.len();
    let mut j: usize = 0;
    while j < nb
        invariant
            nb == b.key_seq().len(),
            j <= nb,
            b.shape(),
            forall|k: Seq<char>| #[trigger] a@.contains_key(k) && b@.contains_key(k) ==> a@[k].id == b@[k].id,
            forall|k: Seq<char>| #[trigger]
                result@.contains_key(k) == (a@.contains_key(k) || b.key_seq().subrange(
                    0,
                    j as int,
                ).contains(k)),
            forall|k: Seq<char>| #[trigger]
                result@.contains_key(k) ==> result@[k] == (if b.key_seq().subrange(
                    0,
                    j as int,
                ).contains(k) {
                    merge_table_spec(a@, b@)[k]
                } else {
                    a@[k]
                }),
        decreases nb - j,
    {
        let row_id = b.key_at(j);
        let row_b = b.value_at(j);
        let ghost k0 = b.key_seq()[j as int];
        assert(b@[k0] == row_b@);
        proof {
            let ks = b.key_seq();
            assert(!ks.subrange(0, j as int).contains(k0)) by {
                if ks.subrange(0, j as int).contains(k0) {
                    let k = ks.subrange(0, j as int).index_of(k0);
                    assert(ks[k] == k0);
                }
            }
        }
        let merged = match result.get(row_id) {
            Some(row_a) => {
                assert(row_a@ == a@[k0]);
                assert(a@.contains_key(k0) && b@.contains_key(k0));
                merge_row(row_a, row_b)
            },
            None => row_b.deep_copy(),
        };
        result.insert(row_id.clone(), merged);
        proof {
            let ks = b.key_seq();
            assert(ks.subrange(0, j + 1) =~= ks.subrange(0, j as int).push(k0));
            assert(ks.subrange(0, j + 1)[j as int] == k0);
            assert(!ks.subrange(0, j as int).contains(k0)) by {
                if ks.subrange(0, j as int).contains(k0) {
                    let k = ks.subrange(0, j as int).index_of(k0);
                    assert(ks[k] == k0);
                }
            }
            assert forall|k: Seq<char>| #[trigger]
                result@.contains_key(k) == (a@.contains_key(k) || ks.subrange(0, j + 1).contains(k)) by {
                if ks.subrange(0, j + 1).contains(k) && k != k0 {
                    let x = ks.subrange(0, j + 1).index_of(k);
                    assert(ks.subrange(0, j as int)[x] == k);
                }
                if ks.subrange(0, j as int).contains(k) {
                    let x = ks.subrange(0, j as int).index_of(k);
                    assert(ks.subrange(0, j + 1)[x] == k);
                }
            }
            assert forall|k: Seq<char>| #[trigger] result@.contains_key(k) implies result@[k] == (
            if ks.subrange(0, j + 1).contains(k) {
                merge_table_spec(a@, b@)[k]
            } else {
                a@[k]
            }) by {
                if k != k0 {
                    if ks.subrange(0, j + 1).contains(k) {
                        let x = ks.subrange(0, j + 1).index_of(k);
                        assert(ks.subrange(0, j as int)[x] == k);
                    }
                    if ks.subrange(0, j as int).contains(k) {
                        let x = ks.subrange(0, j as int).index_of(k);
                        assert(ks.subrange(0, j + 1)[x] == k);
                    }
                }
            }
        }
        j = j + 1;
    }
    proof {
        let ks = b.key_seq();
        assert(ks.subrange(0, nb as int) =~= ks);
        assert forall|k: Seq<char>| b@.contains_key(k) <==> #[trigger] ks.contains(k) by {
            assert(b@.dom() == ks.to_set());
        }
        assert(result@ =~= merge_table_spec(a@, b@));
    }
    result
}

// ------------------------------------------------------------------ laws

/// Two cells that carry the same version are the same write.
pub open spec fn cells_agree(a: CellView, b: CellView) -> bool {
    a.version == b.version ==> a == b
}

/// Cells of the same column agree across two cell maps.
pub open spec fn cell_maps_agree(a: Map<Seq<char>, CellView>, b: Map<Seq<char>, CellView>) -> bool {
    forall|c: Seq<char>|
        #![trigger a[c], b[c]]
        a.contains_key(c) && b.contains_key(c) ==> cells_agree(a[c], b[c])
}

/// A row is deleted exactly when it carries a delete version.
pub open spec fn row_consistent(r: RowView) -> bool {
    r.deleted <==> r.delete_version is Some
}

/// Two states of the same row: same id, agreeing cells.
pub open spec fn rows_agree(a: RowView, b: RowView) -> bool {
    a.id == b.id && cell_maps_agree(a.cells, b.cells)
}

/// Each row of a table is stored under its own id, and is consistent.
pub open spec fn table_keyed(t: Map<Seq<char>, RowView>) -> bool {
    forall|k: Seq<char>| #[trigger] t.contains_key(k) ==> t[k].id == k && row_consistent(t[k])
}

/// Rows of the same id agree across two tables.
pub open spec fn tables_agree(a: Map<Seq<char>, RowView>, b: Map<Seq<char>, RowView>) -> bool {
    forall|k: Seq<char>|
        #![trigger a[k], b[k]]
        a.contains_key(k) && b.contains_key(k) ==> rows_agree(a[k], b[k])
}

/// Merging a cell with itself gives the cell.
pub proof fn law_merge_cell_idempotent(a: CellView)
    ensures
        merge_cell_spec(a, a) == a,
{
}

/// Cell merge is commutative for cells that agree.
pub proof fn law_merge_cell_commutative(a: CellView, b: CellView)
    requires
        cells_agree(a, b),
    ensures
        merge_cell_spec(a, b) == merge_cell_spec(b, a),
{
    lemma_version_order();
}

/// Cell merge is associative: it picks the first cell of highest version.
pub proof fn law_merge_cell_associative(a: CellView, b: CellView, c: CellView)
    ensures
        merge_cell_spec(merge_cell_spec(a, b), c) == merge_cell_spec(a, merge_cell_spec(b, c)),
{
    lemma_version_order();
}

/// The merged cell is one of the two, with a version at least as high as
/// both.
pub proof fn law_merge_cell_picks_highest(a: CellView, b: CellView)
    ensures
        merge_cell_spec(a, b) == a || merge_cell_spec(a, b) == b,
        !version_lt(merge_cell_spec(a, b).version, a.version),
        !version_lt(merge_cell_spec(a, b).version, b.version),
{
    lemma_version_order();
}

/// Merging a consistent row with itself gives the row.
pub proof fn law_merge_row_idempotent(r: RowView)
    requires
        row_consistent(r),
    ensures
        merge_row_spec(r, r) == r,
{
    lemma_version_order();
    assert(merge_cells_spec(r.cells, r.cells) =~= r.cells);
}

/// Row merge is commutative for consistent, agreeing states of a row.
pub proof fn law_merge_row_commutative(a: RowView, b: RowView)
    requires
        rows_agree(a, b),
        row_consistent(a),
        row_consistent(b),
    ensures
        merge_row_spec(a, b) == merge_row_spec(b, a),
{
    lemma_version_order();
    assert forall|c: Seq<char>| a.cells.contains_key(c) && b.cells.contains_key(c) implies
        merge_cell_spec(a.cells[c], b.cells[c]) == merge_cell_spec(b.cells[c], a.cells[c]) by {
        assert(cells_agree(a.cells[c], b.cells[c]));
    }
    assert(merge_cells_spec(a.cells, b.cells) =~= merge_cells_spec(b.cells, a.cells));
}

/// Row merge is associative for consistent states of a row.
pub proof fn law_merge_row_associative(a: RowView, b: RowView, c: RowView)
    requires
        row_consistent(a),
        row_consistent(b),
        row_consistent(c),
    ensures
        merge_row_spec(merge_row_spec(a, b), c) == merge_row_spec(a, merge_row_spec(b, c)),
{
    lemma_version_order();
    let l = merge_cells_spec(merge_cells_spec(a.cells, b.cells), c.cells);
    let r = merge_cells_spec(a.cells, merge_cells_spec(b.cells, c.cells));
    assert forall|k: Seq<char>| l.contains_key(k) implies l[k] == r[k] by {
        if a.cells.contains_key(k) && b.cells.contains_key(k) && c.cells.contains_key(k) {
            law_merge_cell_associative(a.cells[k], b.cells[k], c.cells[k]);
        }
    }
    assert(l =~= r);
}

/// A merge of consistent rows is consistent, and deleted when either is.
pub proof fn law_merge_row_delete_wins(a: RowView, b: RowView)
    requires
        row_consistent(a),
        row_consistent(b),
    ensures
        row_consistent(merge_row_spec(a, b)),
        merge_row_spec(a, b).deleted == (a.deleted || b.deleted),
{
}

/// The merge of two agreeing rows agrees with each of them, so a merged row
/// can be merged again in any order.
pub proof fn law_merge_row_agrees(a: RowView, b: RowView, c: RowView)
    requires
        rows_agree(a, c),
        rows_agree(b, c),
        a.id == b.id,
    ensures
        rows_agree(merge_row_spec(a, b), c),
{
    lemma_version_order();
}

/// Merging a keyed table with itself gives the table.
pub proof fn law_merge_table_idempotent(t: Map<Seq<char>, RowView>)
    requires
        table_keyed(t),
    ensures
        merge_table_spec(t, t) == t,
{
    assert forall|k: Seq<char>| t.contains_key(k) implies merge_row_spec(t[k], t[k]) == t[k] by {
        law_merge_row_idempotent(t[k]);
    }
    assert(merge_table_spec(t, t) =~= t);
}

/// Table merge is commutative for keyed, agreeing tables.
pub proof fn law_merge_table_commutative(a: Map<Seq<char>, RowView>, b: Map<Seq<char>, RowView>)
    requires
        table_keyed(a),
        table_keyed(b),
        tables_agree(a, b),
    ensures
        merge_table_spec(a, b) == merge_table_spec(b, a),
{
    assert forall|k: Seq<char>| a.contains_key(k) && b.contains_key(k) implies merge_row_spec(
        a[k],
        b[k],
    ) == merge_row_spec(b[k], a[k]) by {
        assert(rows_agree(a[k], b[k]));
        law_merge_row_commutative(a[k], b[k]);
    }
    assert(merge_table_spec(a, b) =~= merge_table_spec(b, a));
}

/// Table merge is associative for keyed tables.
pub proof fn law_merge_table_associative(
    a: Map<Seq<char>, RowView>,
    b: Map<Seq<char>, RowView>,
    c: Map<Seq<char>, RowView>,
)
    requires
        table_keyed(a),
        table_keyed(b),
        table_keyed(c),
    ensures
        merge_table_spec(merge_table_spec(a, b), c) == merge_table_spec(a, merge_table_spec(b, c)),
{
    let l = merge_table_spec(merge_table_spec(a, b), c);
    let r = merge_table_spec(a, merge_table_spec(b, c));
    assert forall|k: Seq<char>| l.contains_key(k) implies l[k] == r[k] by {
        if a.contains_key(k) && b.contains_key(k) && c.contains_key(k) {
            law_merge_row_associative(a[k], b[k], c[k]);
        }
    }
    assert(l =~= r);
}

} // verus!
