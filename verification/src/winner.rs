//! Effective winners of unique values: which of the rows holding a unique
//! value stays visible in a snapshot state.
use vstd::prelude::*;
use crate::storage::StorageEngine;
use crate::types::{
    ClaimView, ColumnSchema, LooserView, Row, RowView, TableSchema, UniqueConstraintDef, UniquenessClaim, ValueView,
    Value, value_text, version_lt,
};
use crate::uniqueness::{ClaimKey, UniquenessRegistry};

verus! {

/// Row `id` of table `t` is stored and not deleted.
pub open spec fn surviving(st: Map<Seq<char>, Map<Seq<char>, RowView>>, t: Seq<char>, id: Seq<char>) -> bool {
    st.contains_key(t) && st[t].contains_key(id) && !st[t][id].deleted
}

/// The surviving loser of highest version, the first such on a tie.
pub open spec fn best_loser(ls: Seq<LooserView>, st: Map<Seq<char>, Map<Seq<char>, RowView>>, t: Seq<char>) -> Option<
    LooserView,
>
    decreases ls.len(),
{
    if ls.len() == 0 {
        None
    } else {
        let b = best_loser(ls.drop_last(), st, t);
        let l = ls.last();
        if surviving(st, t, l.row_id) && (b is None || version_lt(b->0.version, l.version)) {
            Some(l)
        } else {
            b
        }
    }
}

/// The effective winner of a claim: the owner while it survives, else the
/// surviving loser of highest version, else none.
pub open spec fn effective_winner(c: ClaimView, st: Map<Seq<char>, Map<Seq<char>, RowView>>, t: Seq<char>) -> Option<
    Seq<char>,
> {
    if surviving(st, t, c.owner_row) {
        Some(c.owner_row)
    } else {
        match best_loser(c.losers, st, t) {
            Some(l) => Some(l.row_id),
            None => None,
        }
    }
}

/// Row `row` may show unique value `val` of (`t`, `col`): no claim is held
/// on it, no claimant survives, or the row is the effective winner.
pub open spec fn wins_value(
    reg: Map<ClaimKey, ClaimView>,
    st: Map<Seq<char>, Map<Seq<char>, RowView>>,
    t: Seq<char>,
    col: Seq<char>,
    val: Seq<char>,
    row: Seq<char>,
) -> bool {
    let k = (t, col, val);
    reg.contains_key(k) ==> match effective_winner(reg[k], st, t) {
        Some(w) => w == row,
        None => true,
    }
}

/// Parts joined with the unit separator.
pub open spec fn join_unit(parts: Seq<Seq<char>>) -> Seq<char>
    decreases parts.len(),
{
    if parts.len() == 0 {
        Seq::empty()
    } else if parts.len() == 1 {
        parts[0]
    } else {
        join_unit(parts.drop_last()) + "\u{1f}"@ + parts.last()
    }
}

/// Column `c` of row `r` holds a value other than NULL.
pub open spec fn holds_value(r: RowView, c: Seq<char>) -> bool {
    r.cells.contains_key(c) && r.cells[c].value != ValueView::Null
}

/// The names of a composite constraint's columns.
pub open spec fn constraint_columns(u: UniqueConstraintDef) -> Seq<Seq<char>> {
    u.columns@.map_values(|c: String| c@)
}

/// The key of a composite unique constraint: its column names joined.
pub open spec fn constraint_key(u: UniqueConstraintDef) -> Seq<char> {
    join_unit(constraint_columns(u))
}

/// The composite value a row claims: its values in the constraint's
/// columns, joined, when every one of them is present and not NULL.
pub open spec fn value_key(u: UniqueConstraintDef, r: RowView) -> Option<Seq<char>> {
    let cols = constraint_columns(u);
    if forall|i: int| 0 <= i < cols.len() ==> #[trigger] holds_value(r, cols[i]) {
        Some(join_unit(cols.map_values(|c: Seq<char>| value_text(r.cells[c].value))))
    } else {
        None
    }
}

/// Row `r` of table `t` (schema `sch`) shows in a snapshot state: for each
/// unique column that is not the primary key and in which it holds a value,
/// and each composite constraint whose columns it fills, it may show that
/// value.
pub open spec fn row_shown(
    reg: Map<ClaimKey, ClaimView>,
    st: Map<Seq<char>, Map<Seq<char>, RowView>>,
    sch: Option<TableSchema>,
    t: Seq<char>,
    r: RowView,
) -> bool {
    match sch {
        None => true,
        Some(sc) => {
            &&& forall|i: int|
                0 <= i < sc.columns@.len() && crate::engine::unique_value_in(#[trigger] sc.columns@[i], r)
                    ==> wins_value(
                    reg,
                    st,
                    t,
                    sc.columns@[i].name@,
                    value_text(r.cells[sc.columns@[i].name@].value),
                    r.id,
                )
            &&& forall|j: int|
                0 <= j < sc.unique_constraints@.len() ==> match value_key(#[trigger] sc.unique_constraints@[j], r) {
                    Some(vk) => wins_value(reg, st, t, constraint_key(sc.unique_constraints@[j]), vk, r.id),
                    None => true,
                }
        },
    }
}

fn join_parts(parts: &Vec<String>) -> (r: String)
    ensures
        r@ == join_unit(parts@.map_values(|p: String| p@)),
{
    let ghost pv = parts@.map_values(|p: String| p@);
    let mut out = String::new();
    let mut i: usize = 0;
    while i < parts.len()
        invariant
            i <= parts@.len(),
            pv == parts@.map_values(|p: String| p@),
            out@ == join_unit(pv.take(i as int)),
        decreases parts@.len() - i,
    {
        let ghost before = out@;
        if i > 0 {
            out.append("\u{1f}");
        }
        out.append(parts[i].as_str());
        proof {
            let t1 = pv.take(i + 1);
            assert(t1.drop_last() =~= pv.take(i as int));
            assert(t1.last() == pv[i as int]);
            if i == 0 {
                assert(before =~= Seq::<char>::empty());
                assert(out@ =~= pv[0]);
            }
        }
        i = i + 1;
    }
    assert(pv.take(parts@.len() as int) =~= pv);
    out
}

/// The composite value a row claims for a constraint, if it fills every
/// column of it.
fn value_key_of(u: &UniqueConstraintDef, row: &Row) -> (r: Option<String>)
    ensures
        match r {
            Some(s) => value_key(*u, row@) == Some(s@),
            None => value_key(*u, row@) is None,
        },
{
    let ghost cols = constraint_columns(*u);
    let mut parts: Vec<String> = Vec::new();
    let mut i: usize = 0;
    while i < u.columns.len()
        invariant
            i <= u.columns@.len(),
            cols == constraint_columns(*u),
            forall|j: int| 0 <= j < i ==> #[trigger] holds_value(row@, cols[j]),
            parts@.map_values(|p: String| p@) == cols.take(i as int).map_values(
                |c: Seq<char>| value_text(row@.cells[c].value),
            ),
        decreases u.columns@.len() - i,
    {
        assert(cols[i as int] == u.columns@[i as int]@);
        match row.cells.get(&u.columns[i]) {
            None => {
                assert(!holds_value(row@, cols[i as int]));
                return None;
            },
            Some(cell) => {
                match &cell.value {
                    Value::Null => {
                        assert(!holds_value(row@, cols[i as int]));
                        return None;
                    },
                    _ => {},
                }
                let text = cell.value.to_string();
                let ghost before = parts@;
                parts.push(text);
                proof {
                    assert(row@.cells[cols[i as int]] == cell@);
                    assert(text@ == value_text(row@.cells[cols[i as int]].value));
                    assert(parts@ == before.push(text));
                    assert(parts@.map_values(|p: String| p@) =~= before.map_values(|p: String| p@).push(text@));
                    assert(holds_value(row@, cols[i as int]));
                    assert(cols.take(i + 1) =~= cols.take(i as int).push(cols[i as int]));
                    assert(parts@.map_values(|p: String| p@) =~= cols.take(i + 1).map_values(
                        |c: Seq<char>| value_text(row@.cells[c].value),
                    ));
                }
            },
        }
        i = i + 1;
    }
    assert(cols.take(u.columns@.len() as int) =~= cols);
    Some(join_parts(&parts))
}

/// The key of a composite unique constraint.
fn constraint_key_of(u: &UniqueConstraintDef) -> (r: String)
    ensures
        r@ == constraint_key(*u),
{
    join_parts(&u.columns)
}

/// The effective winner of a claim: its owner while the owner's row
/// survives, else its surviving loser of highest version, else none.
fn effective_winner_of(c: &UniquenessClaim, storage: &StorageEngine, table_id: &str) -> (r: Option<String>)
    ensures
        match r {
            Some(w) => effective_winner(c@, storage@, table_id@) == Some(w@),
            None => effective_winner(c@, storage@, table_id@) is None,
        },
{
    if storage.get_visible_row(table_id, c.owner_row.as_str()).is_some() {
        return Some(c.owner_row.clone());
    }
    let ghost lv = c@.losers;
    let mut best: Option<usize> = None;
    let mut i: usize = 0;
    while i < c.losers.len()
        invariant
            i <= c.losers@.len(),
            lv == c@.losers,
            lv.len() == c.losers@.len(),
            forall|j: int| 0 <= j < lv.len() ==> #[trigger] lv[j] == c.losers@[j]@,
            match best {
                Some(b) => b < i && best_loser(lv.take(i as int), storage@, table_id@) == Some(lv[b as int]),
                None => best_loser(lv.take(i as int), storage@, table_id@) is None,
            },
        decreases c.losers@.len() - i,
    {
        let l = &c.losers[i];
        let survives = storage.get_visible_row(table_id, l.row_id.as_str()).is_some();
        let higher = match best {
            None => true,
            Some(b) => l.version.greater_than(&c.losers[b].version),
        };
        proof {
            let t1 = lv.take(i + 1);
            assert(t1.drop_last() =~= lv.take(i as int));
            assert(t1.last() == lv[i as int]);
        }
        if survives && higher {
            best = Some(i);
        }
        i = i + 1;
    }
    assert(lv.take(c.losers@.len() as int) =~= lv);
    match best {
        Some(b) => Some(c.losers[b].row_id.clone()),
        None => None,
    }
}

/// Whether `row_id` may show unique value `value` of (`table_id`,
/// `column_id`): no claim is held on the value, no claimant's row survives,
/// or `row_id` is the effective winner, which is the owner while the owner's
/// row survives, else the surviving loser of highest version.
pub fn is_effective_unique_winner(
    registry: &UniquenessRegistry,
    storage: &StorageEngine,
    table_id: &str,
    column_id: &str,
    value: &str,
    row_id: &str,
) -> (r: bool)
    ensures
        r == wins_value(registry@, storage@, table_id@, column_id@, value@, row_id@),
{
    match registry.claim_for(table_id, column_id, value) {
        None => true,
        Some(c) => match effective_winner_of(c, storage, table_id) {
            Some(w) => {
                proof {
                    crate::order::lemma_str_laws();
                }
                match crate::order::compare_str(w.as_str(), row_id) {
                    crate::order::Order::Equal => true,
                    _ => false,
                }
            },
            None => true,
        },
    }
}

/// Whether `row` of table `table_id` (schema `schema`) shows in a snapshot
/// state.
pub(crate) fn row_is_shown(
    registry: &UniquenessRegistry,
    storage: &StorageEngine,
    schema: Option<&TableSchema>,
    table_id: &str,
    row: &Row,
) -> (r: bool)
    ensures
        r == row_shown(registry@, storage@, crate::engine::schema_opt(schema), table_id@, row@),
{
    match schema {
        None => true,
        Some(s) => {
            let mut i: usize = 0;
            while i < s.columns.len()
                invariant
                    i <= s.columns@.len(),
                    crate::engine::schema_opt(schema) == Some(*s),
                    forall|j: int|
                        0 <= j < i && crate::engine::unique_value_in(#[trigger] s.columns@[j], row@) ==> wins_value(
                            registry@,
                            storage@,
                            table_id@,
                            s.columns@[j].name@,
                            value_text(row@.cells[s.columns@[j].name@].value),
                            row@.id,
                        ),
                decreases s.columns@.len() - i,
            {
                let c = &s.columns[i];
                if c.unique && !c.primary_key {
                    match row.cells.get(&c.name) {
                        Some(cell) => {
                            let non_null = match &cell.value {
                                Value::Null => false,
                                _ => true,
                            };
                            if non_null {
                                let text = cell.value.to_string();
                                if !is_effective_unique_winner(
                                    registry,
                                    storage,
                                    table_id,
                                    c.name.as_str(),
                                    text.as_str(),
                                    row.id.as_str(),
                                ) {
                                    assert(crate::engine::unique_value_in(s.columns@[i as int], row@));
                                    return false;
                                }
                            }
                        },
                        None => {},
                    }
                }
                i = i + 1;
            }
            let mut j: usize = 0;
            while j < s.unique_constraints.len()
                invariant
                    j <= s.unique_constraints@.len(),
                    crate::engine::schema_opt(schema) == Some(*s),
                    forall|a: int|
                        0 <= a < s.columns@.len() && crate::engine::unique_value_in(#[trigger] s.columns@[a], row@) ==> wins_value(
                            registry@,
                            storage@,
                            table_id@,
                            s.columns@[a].name@,
                            value_text(row@.cells[s.columns@[a].name@].value),
                            row@.id,
                        ),
                    forall|b: int|
                        0 <= b < j ==> match value_key(#[trigger] s.unique_constraints@[b], row@) {
                            Some(vk) => wins_value(
                                registry@,
                                storage@,
                                table_id@,
                                constraint_key(s.unique_constraints@[b]),
                                vk,
                                row@.id,
                            ),
                            None => true,
                        },
                decreases s.unique_constraints@.len() - j,
            {
                let u = &s.unique_constraints[j];
                match value_key_of(u, row) {
                    Some(vk) => {
                        let ck = constraint_key_of(u);
                        if !is_effective_unique_winner(registry, storage, table_id, ck.as_str(), vk.as_str(), row.id.as_str()) {
                            return false;
                        }
                    },
                    None => {},
                }
                j = j + 1;
            }
            true
        },
    }
}

/// Among losers `ls`, the surviving loser picked for a claim survives, is
/// one of them, and no surviving loser has a higher version; none is picked
/// only when none survives.
proof fn lemma_best_loser(ls: Seq<LooserView>, st: Map<Seq<char>, Map<Seq<char>, RowView>>, t: Seq<char>)
    ensures
        best_loser(ls, st, t) is None ==> forall|j: int| 0 <= j < ls.len() ==> !surviving(st, t, (#[trigger] ls[j]).row_id),
        best_loser(ls, st, t) matches Some(b) ==> exists|i: int|
            0 <= i < ls.len() && #[trigger] ls[i] == b && surviving(st, t, b.row_id) && forall|j: int|
                0 <= j < ls.len() && surviving(st, t, (#[trigger] ls[j]).row_id) ==> !version_lt(b.version, ls[j].version),
    decreases ls.len(),
{
    crate::types::lemma_version_order();
    if ls.len() > 0 {
        let d = ls.drop_last();
        let l = ls.last();
        lemma_best_loser(d, st, t);
        let b = best_loser(d, st, t);
        assert(ls[ls.len() - 1] == l);
        assert forall|j: int| 0 <= j < d.len() implies #[trigger] ls[j] == d[j] by {}
        match best_loser(ls, st, t) {
            None => {
                assert forall|j: int| 0 <= j < ls.len() implies !surviving(st, t, (#[trigger] ls[j]).row_id) by {
                    if j < d.len() {
                        assert(ls[j] == d[j]);
                    }
                }
            },
            Some(r) => {
                if r == l && surviving(st, t, l.row_id) && (b is None || version_lt(b->0.version, l.version)) {
                    assert forall|j: int| 0 <= j < ls.len() && surviving(st, t, (#[trigger] ls[j]).row_id) implies !version_lt(
                        r.version,
                        ls[j].version,
                    ) by {
                        if j < d.len() {
                            assert(ls[j] == d[j]);
                            if let Some(bb) = b {
                                let i0 = choose|i0: int| 0 <= i0 < d.len() && #[trigger] d[i0] == bb && surviving(st, t, bb.row_id)
                                    && forall|jj: int| 0 <= jj < d.len() && surviving(st, t, (#[trigger] d[jj]).row_id) ==> !version_lt(
                                    bb.version,
                                    d[jj].version,
                                );
                                assert(!version_lt(bb.version, d[j].version));
                            }
                        }
                    }
                    assert(ls[ls.len() - 1] == r);
                } else {
                    let bb = b->0;
                    let i0 = choose|i0: int| 0 <= i0 < d.len() && #[trigger] d[i0] == bb && surviving(st, t, bb.row_id)
                        && forall|jj: int| 0 <= jj < d.len() && surviving(st, t, (#[trigger] d[jj]).row_id) ==> !version_lt(
                        bb.version,
                        d[jj].version,
                    );
                    assert(ls[i0] == bb);
                    assert forall|j: int| 0 <= j < ls.len() && surviving(st, t, (#[trigger] ls[j]).row_id) implies !version_lt(
                        r.version,
                        ls[j].version,
                    ) by {
                        if j < d.len() {
                            assert(ls[j] == d[j]);
                        }
                    }
                }
            },
        }
    }
}

/// The effective winner of a unique value: the owner while its row
/// survives; once it does not, a surviving loser whose version no other
/// surviving loser's exceeds; no winner only when neither the owner nor any
/// loser survives.
pub proof fn law_effective_winner(c: ClaimView, st: Map<Seq<char>, Map<Seq<char>, RowView>>, t: Seq<char>)
    ensures
        surviving(st, t, c.owner_row) ==> effective_winner(c, st, t) == Some(c.owner_row),
        !surviving(st, t, c.owner_row) ==> match effective_winner(c, st, t) {
            Some(w) => exists|i: int|
                0 <= i < c.losers.len() && (#[trigger] c.losers[i]).row_id == w && surviving(st, t, w) && forall|j: int|
                    0 <= j < c.losers.len() && surviving(st, t, (#[trigger] c.losers[j]).row_id) ==> !version_lt(
                        c.losers[i].version,
                        c.losers[j].version,
                    ),
            None => forall|j: int| 0 <= j < c.losers.len() ==> !surviving(st, t, (#[trigger] c.losers[j]).row_id),
        },
{
    lemma_best_loser(c.losers, st, t);
}

} // verus!
