//! Laws of the table store, proved once over the functional model that the
//! executable methods are verified against.

use vstd::prelude::*;
use crate::db_types::{ColumnModel, ValueModel, value_matches_type_spec};
use crate::commands::{ErrorModel, ResultModel};
use crate::db::{
    first_mismatch_from, lemma_find_table, spec_find_row, spec_find_table, spec_insert_row,
    spec_select_all, spec_update_row, store_wf, table_wf, TableModel,
};

verus! {

/// In a well-formed table, row ids are pairwise distinct and every id is
/// below the table's id counter; so inserting rows one after another yields
/// pairwise distinct ids, each less than the counter that follows them.
pub proof fn lemma_row_ids_distinct(t: TableModel)
    requires
        table_wf(t),
    ensures
        forall|i: int, j: int|
            #![trigger t.rows[i].0, t.rows[j].0]
            0 <= i < j < t.rows.len() ==> t.rows[i].0 != t.rows[j].0,
        forall|i: int| 0 <= i < t.rows.len() ==> (#[trigger] t.rows[i]).0 < t.next_row_id,
{
}

/// A successful insert appends a row that carries the table's counter as its
/// id, and advances the counter past it.
pub proof fn lemma_insert_assigns_fresh_id(
    s: Seq<TableModel>,
    name: Seq<char>,
    values: Seq<ValueModel>,
)
    requires
        store_wf(s),
        spec_insert_row(s, name, values).1 is Ok,
    ensures
        ({
            let ti = spec_find_table(s, name).unwrap();
            let t = s[ti];
            let t2 = spec_insert_row(s, name, values).0[ti];
            &&& 0 <= ti < s.len()
            &&& t2.rows == t.rows.push((t.next_row_id, values))
            &&& t2.next_row_id == t.next_row_id + 1
            &&& forall|i: int| 0 <= i < t.rows.len() ==> (#[trigger] t.rows[i]).0 != t.next_row_id
        }),
{
    lemma_find_table(s, name);
}

/// After a successful insert, a full scan of the same table returns the
/// table's columns and a row list whose last row carries the inserted
/// values under the id the insert assigned.
pub proof fn lemma_insert_then_select(
    s: Seq<TableModel>,
    name: Seq<char>,
    values: Seq<ValueModel>,
)
    requires
        store_wf(s),
        spec_insert_row(s, name, values).1 is Ok,
    ensures
        ({
            let s2 = spec_insert_row(s, name, values).0;
            let ti = spec_find_table(s, name).unwrap();
            let t = s[ti];
            spec_select_all(s2, name) matches Result::Ok(rm) && rm matches ResultModel::Rows {
                columns,
                rows,
            } && rows.len() == t.rows.len() + 1 && rows.last() == (t.next_row_id, values)
                && columns == t.columns.map_values(|c: ColumnModel| c.name)
        }),
{
    lemma_find_table(s, name);
    let ti = spec_find_table(s, name).unwrap();
    let s2 = spec_insert_row(s, name, values).0;
    assert(0 <= ti < s.len());
    assert(s[ti].name == name);
    assert(s2.len() == s.len());
    assert(s2[ti].name == name);
    assert forall|k: int| 0 <= k < s2.len() implies (#[trigger] s2[k]).name == s[k].name by {
        if k != ti {
            assert(s2[k] == s[k]);
        }
    }
    lemma_find_table(s2, name);
    assert(spec_find_table(s2, name) == Some(ti));
}

/// Updating a row id that the table does not have fails with the
/// row-not-found error and leaves the store, and so every table's row
/// count, unchanged.
pub proof fn lemma_update_missing_row(
    s: Seq<TableModel>,
    name: Seq<char>,
    row_id: u64,
    updates: Seq<(Seq<char>, ValueModel)>,
)
    requires
        spec_find_table(s, name) matches Some(ti) && spec_find_row(s[ti].rows, row_id) is None,
    ensures
        spec_update_row(s, name, row_id, updates) == (
            s,
            Result::<ResultModel, ErrorModel>::Err(ErrorModel::RowNotFound),
        ),
{
}

/// Below any index that type-checks, the first mismatch is the first
/// mismatch overall; and if some index mismatches, there is a first one.
proof fn lemma_first_mismatch_exists(
    columns: Seq<ColumnModel>,
    values: Seq<ValueModel>,
    i: int,
)
    requires
        0 <= i <= values.len(),
        values.len() == columns.len(),
        exists|j: int|
            i <= j < values.len() && !value_matches_type_spec(
                #[trigger] values[j],
                columns[j].col_type,
            ),
    ensures
        first_mismatch_from(columns, values, i) matches Some(m) && i <= m < values.len()
            && !value_matches_type_spec(values[m], columns[m].col_type) && forall|k: int|
            i <= k < m ==> value_matches_type_spec(#[trigger] values[k], columns[k].col_type),
    decreases values.len() - i,
{
    if !value_matches_type_spec(values[i], columns[i].col_type) {
    } else {
        lemma_first_mismatch_exists(columns, values, i + 1);
    }
}

/// An insert with a value whose tag mismatches its column's type fails with
/// a type mismatch naming the first offending column (checked left to
/// right), and no partial row is committed: the store is unchanged.
pub proof fn lemma_insert_mismatch(s: Seq<TableModel>, name: Seq<char>, values: Seq<ValueModel>)
    requires
        spec_find_table(s, name) is Some,
        values.len() == s[spec_find_table(s, name).unwrap()].columns.len(),
        exists|j: int|
            0 <= j < values.len() && !value_matches_type_spec(
                #[trigger] values[j],
                s[spec_find_table(s, name).unwrap()].columns[j].col_type,
            ),
    ensures
        spec_insert_row(s, name, values).0 == s,
        ({
            let cols = s[spec_find_table(s, name).unwrap()].columns;
            first_mismatch_from(cols, values, 0) matches Some(m) && spec_insert_row(
                s,
                name,
                values,
            ).1 == Result::<ResultModel, ErrorModel>::Err(
                ErrorModel::TypeMismatch(cols[m].name),
            ) && !value_matches_type_spec(values[m], cols[m].col_type) && forall|k: int|
                0 <= k < m ==> value_matches_type_spec(#[trigger] values[k], cols[k].col_type)
        }),
{
    lemma_find_table(s, name);
    let ti = spec_find_table(s, name).unwrap();
    lemma_first_mismatch_exists(s[ti].columns, values, 0);
}

} // verus!
