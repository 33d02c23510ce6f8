//! The table store: all tables and rows, and the typed operations on them.
//!
//! The store is modelled as a sequence of table models; every operation has
//! a functional specification ([`spec_execute`] and the per-operation spec
//! functions) that the executable methods are verified against.

use vstd::prelude::*;
use crate::db_types::{Column, ColumnModel, ColumnType, Value, ValueModel, value_matches_type, value_matches_type_spec};
use crate::commands::{
    CommandModel, DbCommand, DbError, DbResult, ErrorModel, ResultModel, RowModel, outcome_model,
    rows_model, values_model,
};

verus! {

/// A table: a name, an ordered column list, the rows sorted ascending by
/// row id, and the id the next inserted row will get.
#[derive(Debug)]
pub struct Table {
    pub name: String,
    pub columns: Vec<Column>,
    pub rows: Vec<(u64, Vec<Value>)>,
    pub next_row_id: u64,
}

/// Mathematical model of a [`Table`].
pub struct TableModel {
    pub name: Seq<char>,
    pub columns: Seq<ColumnModel>,
    pub rows: Seq<RowModel>,
    pub next_row_id: u64,
}

/// Model of a column list.
pub open spec fn columns_view(columns: Seq<Column>) -> Seq<ColumnModel> {
    columns.map_values(|c: Column| c@)
}

impl View for Table {
    type V = TableModel;

    open spec fn view(&self) -> TableModel {
        TableModel {
            name: self.name@,
            columns: columns_view(self.columns@),
            rows: rows_model(self.rows@),
            next_row_id: self.next_row_id,
        }
    }
}

/// The store: all tables, in creation order. Exactly one owner mutates it
/// at any time; the dispatch loop in the surrounding program is that owner.
#[derive(Debug)]
pub struct Database {
    pub tables: Vec<Table>,
}

impl View for Database {
    type V = Seq<TableModel>;

    open spec fn view(&self) -> Seq<TableModel> {
        self.tables@.map_values(|t: Table| t@)
    }
}

/// A row is consistent with a column list: one value per column, each
/// value's tag matching its column's declared type.
pub open spec fn row_ok(columns: Seq<ColumnModel>, row: RowModel) -> bool {
    &&& row.1.len() == columns.len()
    &&& forall|i: int|
        0 <= i < row.1.len() ==> value_matches_type_spec(#[trigger] row.1[i], columns[i].col_type)
}

/// Well-formedness of a table: every row is consistent with the columns,
/// row ids are strictly increasing, and the id counter is above them all.
pub open spec fn table_wf(t: TableModel) -> bool {
    &&& t.next_row_id >= 1
    &&& forall|i: int| 0 <= i < t.rows.len() ==> row_ok(t.columns, #[trigger] t.rows[i])
    &&& forall|i: int, j: int|
        #![trigger t.rows[i].0, t.rows[j].0]
        0 <= i < j < t.rows.len() ==> t.rows[i].0 < t.rows[j].0
    &&& forall|i: int| 0 <= i < t.rows.len() ==> (#[trigger] t.rows[i]).0 < t.next_row_id
}

/// Well-formedness of the store: every table is well formed and table names
/// are unique.
pub open spec fn store_wf(s: Seq<TableModel>) -> bool {
    &&& forall|i: int| 0 <= i < s.len() ==> table_wf(#[trigger] s[i])
    &&& forall|i: int, j: int|
        #![trigger s[i].name, s[j].name]
        0 <= i < j < s.len() ==> s[i].name != s[j].name
}

/// Index of the first table with the given name.
pub open spec fn spec_find_table(s: Seq<TableModel>, name: Seq<char>) -> Option<int>
    decreases s.len(),
{
    if s.len() == 0 {
        None
    } else if s[0].name == name {
        Some(0)
    } else {
        match spec_find_table(s.drop_first(), name) {
            Some(i) => Some(i + 1),
            None => None,
        }
    }
}

/// Index of the first column with the given name (duplicate column names are
/// not rejected at creation; the first one wins on lookup).
pub open spec fn spec_find_column(columns: Seq<ColumnModel>, name: Seq<char>) -> Option<int>
    decreases columns.len(),
{
    if columns.len() == 0 {
        None
    } else if columns[0].name == name {
        Some(0)
    } else {
        match spec_find_column(columns.drop_first(), name) {
            Some(i) => Some(i + 1),
            None => None,
        }
    }
}

/// Index of the row with the given id.
pub open spec fn spec_find_row(rows: Seq<RowModel>, id: u64) -> Option<int>
    decreases rows.len(),
{
    if rows.len() == 0 {
        None
    } else if rows[0].0 == id {
        Some(0)
    } else {
        match spec_find_row(rows.drop_first(), id) {
            Some(i) => Some(i + 1),
            None => None,
        }
    }
}

/// The first-match characterization of [`spec_find_table`].
pub proof fn lemma_find_table(s: Seq<TableModel>, name: Seq<char>)
    ensures
        match spec_find_table(s, name) {
            Some(i) => 0 <= i < s.len() && s[i].name == name && forall|k: int|
                0 <= k < i ==> (#[trigger] s[k]).name != name,
            None => forall|k: int| 0 <= k < s.len() ==> (#[trigger] s[k]).name != name,
        },
    decreases s.len(),
{
    if s.len() > 0 && s[0].name != name {
        let rest = s.drop_first();
        lemma_find_table(rest, name);
        match spec_find_table(rest, name) {
            Some(i) => {
                assert(rest[i] == s[i + 1]);
                assert forall|k: int| 0 <= k < i + 1 implies (#[trigger] s[k]).name != name by {
                    if k > 0 {
                        assert(rest[k - 1] == s[k]);
                    }
                }
            },
            None => {
                assert forall|k: int| 0 <= k < s.len() implies (#[trigger] s[k]).name != name by {
                    if k > 0 {
                        assert(rest[k - 1] == s[k]);
                    }
                }
            },
        }
    }
}

/// The first-match characterization of [`spec_find_column`].
pub proof fn lemma_find_column(columns: Seq<ColumnModel>, name: Seq<char>)
    ensures
        match spec_find_column(columns, name) {
            Some(i) => 0 <= i < columns.len() && columns[i].name == name && forall|k: int|
                0 <= k < i ==> (#[trigger] columns[k]).name != name,
            None => forall|k: int| 0 <= k < columns.len() ==> (#[trigger] columns[k]).name != name,
        },
    decreases columns.len(),
{
    if columns.len() > 0 && columns[0].name != name {
        let rest = columns.drop_first();
        lemma_find_column(rest, name);
        match spec_find_column(rest, name) {
            Some(i) => {
                assert(rest[i] == columns[i + 1]);
                assert forall|k: int| 0 <= k < i + 1 implies (#[trigger] columns[k]).name != name by {
                    if k > 0 {
                        assert(rest[k - 1] == columns[k]);
                    }
                }
            },
            None => {
                assert forall|k: int| 0 <= k < columns.len() implies (#[trigger] columns[k]).name != name by {
                    if k > 0 {
                        assert(rest[k - 1] == columns[k]);
                    }
                }
            },
        }
    }
}

/// The first-match characterization of [`spec_find_row`].
pub proof fn lemma_find_row(rows: Seq<RowModel>, id: u64)
    ensures
        match spec_find_row(rows, id) {
            Some(i) => 0 <= i < rows.len() && rows[i].0 == id && forall|k: int|
                0 <= k < i ==> (#[trigger] rows[k]).0 != id,
            None => forall|k: int| 0 <= k < rows.len() ==> (#[trigger] rows[k]).0 != id,
        },
    decreases rows.len(),
{
    if rows.len() > 0 && rows[0].0 != id {
        let rest = rows.drop_first();
        lemma_find_row(rest, id);
        match spec_find_row(rest, id) {
            Some(i) => {
                assert(rest[i] == rows[i + 1]);
                assert forall|k: int| 0 <= k < i + 1 implies (#[trigger] rows[k]).0 != id by {
                    if k > 0 {
                        assert(rest[k - 1] == rows[k]);
                    }
                }
            },
            None => {
                assert forall|k: int| 0 <= k < rows.len() implies (#[trigger] rows[k]).0 != id by {
                    if k > 0 {
                        assert(rest[k - 1] == rows[k]);
                    }
                }
            },
        }
    }
}

/// The table a creation request builds: the columns verbatim, no rows, and
/// the id counter at one.
pub open spec fn table_created(name: Seq<char>, columns: Seq<(Seq<char>, ColumnType)>) -> TableModel {
    TableModel {
        name,
        columns: columns.map_values(|c: (Seq<char>, ColumnType)| ColumnModel {
            name: c.0,
            col_type: c.1,
        }),
        rows: Seq::empty(),
        next_row_id: 1,
    }
}

/// Table creation: rejected when the name is taken, otherwise the new table
/// is appended.
pub open spec fn spec_create_table(
    s: Seq<TableModel>,
    name: Seq<char>,
    columns: Seq<(Seq<char>, ColumnType)>,
) -> (Seq<TableModel>, Result<ResultModel, ErrorModel>) {
    match spec_find_table(s, name) {
        Some(_) => (s, Result::Err(ErrorModel::AlreadyExists)),
        None => (s.push(table_created(name, columns)), Result::Ok(ResultModel::Done)),
    }
}

/// Index of the first value whose tag disagrees with its column's type,
/// checked left to right.
pub open spec fn first_mismatch_from(
    columns: Seq<ColumnModel>,
    values: Seq<ValueModel>,
    i: int,
) -> Option<int>
    decreases values.len() - i,
{
    if i < 0 || i >= values.len() || values.len() != columns.len() {
        None
    } else if !value_matches_type_spec(values[i], columns[i].col_type) {
        Some(i)
    } else {
        first_mismatch_from(columns, values, i + 1)
    }
}

/// Row insertion: the table must exist, the value count must equal the
/// column count, and every tag must match; the row then gets the next id
/// and the counter advances.
pub open spec fn spec_insert_row(
    s: Seq<TableModel>,
    name: Seq<char>,
    values: Seq<ValueModel>,
) -> (Seq<TableModel>, Result<ResultModel, ErrorModel>) {
    match spec_find_table(s, name) {
        None => (s, Result::Err(ErrorModel::NotFound)),
        Some(ti) => {
            let t = s[ti];
            if values.len() != t.columns.len() {
                (s, Result::Err(ErrorModel::ColumnCountMismatch))
            } else {
                match first_mismatch_from(t.columns, values, 0) {
                    Some(ci) => (s, Result::Err(ErrorModel::TypeMismatch(t.columns[ci].name))),
                    None => if t.next_row_id == u64::MAX {
                        (s, Result::Err(ErrorModel::TooManyRows))
                    } else {
                        let t2 = TableModel {
                            name: t.name,
                            columns: t.columns,
                            rows: t.rows.push((t.next_row_id, values)),
                            next_row_id: (t.next_row_id + 1) as u64,
                        };
                        (s.update(ti, t2), Result::Ok(ResultModel::Done))
                    },
                }
            }
        },
    }
}

/// One-at-a-time application of an update list to a row's values. A failed
/// update stops the walk but keeps the updates already applied: partial
/// application is deliberate.
pub open spec fn spec_apply_updates(
    columns: Seq<ColumnModel>,
    vals: Seq<ValueModel>,
    updates: Seq<(Seq<char>, ValueModel)>,
) -> (Seq<ValueModel>, Option<ErrorModel>)
    decreases updates.len(),
{
    if updates.len() == 0 {
        (vals, None)
    } else {
        let (uname, uval) = updates[0];
        match spec_find_column(columns, uname) {
            None => (vals, Some(ErrorModel::ColumnNotFound(uname))),
            Some(ci) => if !value_matches_type_spec(uval, columns[ci].col_type) {
                (vals, Some(ErrorModel::TypeMismatch(uname)))
            } else {
                spec_apply_updates(columns, vals.update(ci, uval), updates.drop_first())
            },
        }
    }
}

/// Row update: the table and the row must exist; the updates are applied in
/// order, and a failure leaves the earlier updates in place.
pub open spec fn spec_update_row(
    s: Seq<TableModel>,
    name: Seq<char>,
    row_id: u64,
    updates: Seq<(Seq<char>, ValueModel)>,
) -> (Seq<TableModel>, Result<ResultModel, ErrorModel>) {
    match spec_find_table(s, name) {
        None => (s, Result::Err(ErrorModel::NotFound)),
        Some(ti) => {
            let t = s[ti];
            match spec_find_row(t.rows, row_id) {
                None => (s, Result::Err(ErrorModel::RowNotFound)),
                Some(ri) => {
                    let applied = spec_apply_updates(t.columns, t.rows[ri].1, updates);
                    let t2 = TableModel {
                        name: t.name,
                        columns: t.columns,
                        rows: t.rows.update(ri, (t.rows[ri].0, applied.0)),
                        next_row_id: t.next_row_id,
                    };
                    let s2 = s.update(ti, t2);
                    match applied.1 {
                        None => (s2, Result::Ok(ResultModel::Done)),
                        Some(e) => (s2, Result::Err(e)),
                    }
                },
            }
        },
    }
}

/// Full scan: the table's column names in declared order and all its rows,
/// which a well-formed table already keeps sorted ascending by id.
pub open spec fn spec_select_all(s: Seq<TableModel>, name: Seq<char>) -> Result<
    ResultModel,
    ErrorModel,
> {
    match spec_find_table(s, name) {
        None => Result::Err(ErrorModel::NotFound),
        Some(ti) => Result::Ok(
            ResultModel::Rows {
                columns: s[ti].columns.map_values(|c: ColumnModel| c.name),
                rows: s[ti].rows,
            },
        ),
    }
}

/// The lower-case name of a column type, as shown in the schema listing.
pub open spec fn type_name_spec(t: ColumnType) -> Seq<char> {
    match t {
        ColumnType::Int => "int"@,
        ColumnType::Text => "text"@,
        ColumnType::Bool => "bool"@,
    }
}

/// All (table name, column) pairs of the store, tables in order, columns in
/// declared order within each table.
pub open spec fn table_pairs(t: TableModel) -> Seq<(Seq<char>, ColumnModel)> {
    t.columns.map_values(|c: ColumnModel| (t.name, c))
}

pub open spec fn schema_pairs(s: Seq<TableModel>) -> Seq<(Seq<char>, ColumnModel)>
    decreases s.len(),
{
    if s.len() == 0 {
        Seq::empty()
    } else {
        table_pairs(s[0]) + schema_pairs(s.drop_first())
    }
}

/// The synthetic schema rows: one per (table, column) pair, ids assigned
/// sequentially from one.
pub open spec fn schema_rows(pairs: Seq<(Seq<char>, ColumnModel)>) -> Seq<RowModel> {
    Seq::new(
        pairs.len(),
        |i: int|
            (
                (i + 1) as u64,
                seq![
                    crate::db_types::ValueModel::Text(pairs[i].0),
                    crate::db_types::ValueModel::Text(pairs[i].1.name),
                    crate::db_types::ValueModel::Text(type_name_spec(pairs[i].1.col_type)),
                ],
            ),
    )
}

/// Schema listing: a synthetic three-column row set with one row per
/// (table, column) pair. It fails only when the pairs would outrun the
/// 64-bit row ids.
pub open spec fn spec_get_tables(s: Seq<TableModel>) -> Result<ResultModel, ErrorModel> {
    if schema_pairs(s).len() > u64::MAX {
        Result::Err(ErrorModel::TooManyRows)
    } else {
        Result::Ok(
            ResultModel::Rows {
                columns: seq!["table_name"@, "column_name"@, "column_type"@],
                rows: schema_rows(schema_pairs(s)),
            },
        )
    }
}

/// The functional model of command execution: the store afterwards and the
/// outcome sent back.
pub open spec fn spec_execute(s: Seq<TableModel>, c: CommandModel) -> (
    Seq<TableModel>,
    Result<ResultModel, ErrorModel>,
) {
    match c {
        CommandModel::CreateTable { table, columns } => spec_create_table(s, table, columns),
        CommandModel::InsertRow { table, values } => spec_insert_row(s, table, values),
        CommandModel::UpdateRow { table, row_id, updates } => spec_update_row(
            s,
            table,
            row_id,
            updates,
        ),
        CommandModel::SelectAll { table } => (s, spec_select_all(s, table)),
        CommandModel::GetTables {} => (s, spec_get_tables(s)),
    }
}

impl Database {
    /// The empty store.
    pub fn new() -> (r: Self)
        ensures
            r@ == Seq::<TableModel>::empty(),
            store_wf(r@),
    {
        let r = Database { tables: Vec::new() };
        proof {
            assert(r@ =~= Seq::<TableModel>::empty());
        }
        r
    }

    /// Index of the table with the given name, if any.
    fn find_table(&self, name: &String) -> (r: Option<usize>)
        ensures
            match r {
                Some(i) => i < self.tables.len() && spec_find_table(self@, name@) == Some(i as int),
                None => spec_find_table(self@, name@) is None,
            },
    {
        let mut i: usize = 0;
        while i < self.tables.len()
            invariant
                i <= self.tables.len(),
                forall|k: int| 0 <= k < i ==> (#[trigger] self@[k]).name != name@,
            decreases self.tables.len() - i,
        {
            if self.tables[i].name == *name {
                proof {
                    assert(self@[i as int] == self.tables@[i as int]@);
                    lemma_find_table(self@, name@);
                }
                return Some(i);
            }
            i += 1;
        }
        proof {
            lemma_find_table(self@, name@);
        }
        None
    }

    /// Creates an empty table with the given columns, in the order given.
    /// Fails exactly when the name is already taken; duplicate column names
    /// within the request are not rejected.
    pub fn create_table(&mut self, table: String, columns: Vec<(String, ColumnType)>) -> (r:
        Result<DbResult, DbError>)
        requires
            store_wf(old(self)@),
        ensures
            store_wf(final(self)@),
            (final(self)@, outcome_model(r)) == spec_create_table(
                old(self)@,
                table@,
                crate::commands::columns_model(columns@),
            ),
    {
        if self.find_table(&table).is_some() {
            return Result::Err(DbError::AlreadyExists);
        }
        let ghost cm = crate::commands::columns_model(columns@);
        let ghost created = table_created(table@, cm);
        let mut cols: Vec<Column> = Vec::new();
        let mut i: usize = 0;
        while i < columns.len()
            invariant
                i <= columns.len(),
                cols.len() == i,
                cm == crate::commands::columns_model(columns@),
                forall|k: int| 0 <= k < i ==> #[trigger] cols@[k]@ == (ColumnModel {
                    name: cm[k].0,
                    col_type: cm[k].1,
                }),
            decreases columns.len() - i,
        {
            let name = columns[i].0.clone();
            let col_type = columns[i].1;
            cols.push(Column { name, col_type });
            i += 1;
        }
        proof {
            assert(columns_view(cols@) =~= created.columns);
        }
        let t = Table { name: table, columns: cols, rows: Vec::new(), next_row_id: 1 };
        proof {
            assert(t@.rows =~= created.rows);
            assert(t@ =~= created);
            lemma_find_table(old(self)@, t@.name);
        }
        self.tables.push(t);
        proof {
            assert(self@ =~= old(self)@.push(created));
        }
        Result::Ok(DbResult::Done)
    }
}

/// A fully matching prefix does not change where the first mismatch is.
proof fn lemma_first_mismatch_skip(columns: Seq<ColumnModel>, values: Seq<ValueModel>, i: int)
    requires
        0 <= i <= values.len(),
        values.len() == columns.len(),
        forall|k: int|
            0 <= k < i ==> value_matches_type_spec(#[trigger] values[k], columns[k].col_type),
    ensures
        first_mismatch_from(columns, values, 0) == first_mismatch_from(columns, values, i),
    decreases i,
{
    if i > 0 {
        lemma_first_mismatch_skip(columns, values, i - 1);
    }
}

/// Clones a value vector; the clone has the same model.
fn clone_values(values: &Vec<Value>) -> (r: Vec<Value>)
    ensures
        values_model(r@) == values_model(values@),
{
    let mut r: Vec<Value> = Vec::new();
    let mut i: usize = 0;
    while i < values.len()
        invariant
            i <= values.len(),
            r.len() == i,
            forall|k: int| 0 <= k < i ==> #[trigger] r@[k]@ == values@[k]@,
        decreases values.len() - i,
    {
        r.push(values[i].clone());
        i += 1;
    }
    proof {
        assert(values_model(r@) =~= values_model(values@));
    }
    r
}

impl Database {
    /// Inserts a row. Fails when the table is absent, the value count is not
    /// the column count, a value's tag mismatches its column (first mismatch
    /// wins), or the row-id counter is exhausted; otherwise the row gets the
    /// next id and the counter advances.
    pub fn insert_row(&mut self, table: String, values: Vec<Value>) -> (r: Result<
        DbResult,
        DbError,
    >)
        requires
            store_wf(old(self)@),
        ensures
            store_wf(final(self)@),
            (final(self)@, outcome_model(r)) == spec_insert_row(
                old(self)@,
                table@,
                values_model(values@),
            ),
    {
        let ti = match self.find_table(&table) {
            None => {
                return Result::Err(DbError::NotFound);
            },
            Some(i) => i,
        };
        let ghost tm = self@[ti as int];
        let ghost vm = values_model(values@);
        proof {
            assert(tm == self.tables@[ti as int]@);
        }
        if values.len() != self.tables[ti].columns.len() {
            return Result::Err(DbError::ColumnCountMismatch);
        }
        let mut i: usize = 0;
        while i < values.len()
            invariant
                i <= values.len(),
                ti < self.tables.len(),
                self.tables == old(self).tables,
                store_wf(self@),
                spec_find_table(self@, table@) == Some(ti as int),
                tm == self@[ti as int],
                tm == self.tables@[ti as int]@,
                vm == values_model(values@),
                values.len() == tm.columns.len(),
                forall|k: int|
                    0 <= k < i ==> value_matches_type_spec(#[trigger] vm[k], tm.columns[k].col_type),
            decreases values.len() - i,
        {
            if !value_matches_type(&values[i], &self.tables[ti].columns[i].col_type) {
                proof {
                    lemma_first_mismatch_skip(tm.columns, vm, i as int);
                    assert(tm.columns[i as int] == columns_view(self.tables@[ti as int].columns@)[i as int]);
                }
                return Result::Err(
                    DbError::TypeMismatch(self.tables[ti].columns[i].name.clone()),
                );
            }
            proof {
                assert(tm.columns[i as int] == columns_view(self.tables@[ti as int].columns@)[i as int]);
            }
            i += 1;
        }
        proof {
            lemma_first_mismatch_skip(tm.columns, vm, values.len() as int);
        }
        if self.tables[ti].next_row_id == u64::MAX {
            return Result::Err(DbError::TooManyRows);
        }
        let ghost old_model = self@;
        let t = &mut self.tables[ti];
        let row_id = t.next_row_id;
        t.rows.push((row_id, values));
        t.next_row_id = row_id + 1;
        proof {
            let t2 = TableModel {
                name: tm.name,
                columns: tm.columns,
                rows: tm.rows.push((tm.next_row_id, vm)),
                next_row_id: (tm.next_row_id + 1) as u64,
            };
            assert(rows_model(t.rows@) =~= tm.rows.push((tm.next_row_id, vm)));
            assert(t@ =~= t2);
            assert(self@ =~= old_model.update(ti as int, t2));
            assert forall|k: int| 0 <= k < t2.rows.len() implies row_ok(
                t2.columns,
                #[trigger] t2.rows[k],
            ) by {
                if k < tm.rows.len() {
                    assert(tm.rows[k] == t2.rows[k]);
                }
            }
            assert(table_wf(t2));
            assert(store_wf(self@));
        }
        Result::Ok(DbResult::Done)
    }

    /// Returns the table's column names in declared order and all rows,
    /// sorted ascending by id. Fails exactly when the table is absent.
    pub fn select_all(&self, table: String) -> (r: Result<DbResult, DbError>)
        ensures
            outcome_model(r) == spec_select_all(self@, table@),
    {
        let ti = match self.find_table(&table) {
            None => {
                return Result::Err(DbError::NotFound);
            },
            Some(i) => i,
        };
        let ghost tm = self@[ti as int];
        proof {
            assert(tm == self.tables@[ti as int]@);
        }
        let t = &self.tables[ti];
        let mut names: Vec<String> = Vec::new();
        let mut i: usize = 0;
        while i < t.columns.len()
            invariant
                i <= t.columns.len(),
                names.len() == i,
                tm == t@,
                forall|k: int| 0 <= k < i ==> #[trigger] names@[k]@ == tm.columns[k].name,
            decreases t.columns.len() - i,
        {
            proof {
                assert(tm.columns[i as int] == columns_view(t.columns@)[i as int]);
            }
            names.push(t.columns[i].name.clone());
            i += 1;
        }
        let mut rows: Vec<(u64, Vec<Value>)> = Vec::new();
        let mut j: usize = 0;
        while j < t.rows.len()
            invariant
                j <= t.rows.len(),
                rows.len() == j,
                tm == t@,
                forall|k: int| 0 <= k < j ==> #[trigger] rows_model(rows@)[k] == tm.rows[k],
            decreases t.rows.len() - j,
        {
            proof {
                assert(tm.rows[j as int] == rows_model(t.rows@)[j as int]);
            }
            let id = t.rows[j].0;
            let vals = clone_values(&t.rows[j].1);
            let ghost prev = rows@;
            rows.push((id, vals));
            proof {
                assert(values_model(vals@) == values_model(t.rows@[j as int].1@));
                assert(rows_model(t.rows@)[j as int] == (
                    t.rows@[j as int].0,
                    values_model(t.rows@[j as int].1@),
                ));
                assert(rows_model(rows@)[j as int] == (id, values_model(vals@)));
                assert(rows_model(rows@)[j as int] == tm.rows[j as int]);
                assert forall|k: int| 0 <= k < j implies #[trigger] rows_model(rows@)[k]
                    == tm.rows[k] by {
                    assert(rows@[k] == prev[k]);
                    assert(rows_model(prev)[k] == tm.rows[k]);
                    assert(rows_model(rows@)[k] == rows_model(prev)[k]);
                }
            }
            j += 1;
        }
        let out = DbResult::Rows { columns: names, rows };
        proof {
            assert(crate::commands::names_model(names@) =~= tm.columns.map_values(
                |c: ColumnModel| c.name,
            ));
            assert(rows_model(rows@) =~= tm.rows);
        }
        Result::Ok(out)
    }
}

/// The table after one of its rows gets new values.
pub open spec fn upd_table(t: TableModel, ri: int, id: u64, vals: Seq<ValueModel>) -> TableModel {
    TableModel {
        name: t.name,
        columns: t.columns,
        rows: t.rows.update(ri, (id, vals)),
        next_row_id: t.next_row_id,
    }
}

/// Replacing a row's values with type-matching ones of the same length
/// keeps the store well formed.
proof fn lemma_upd_wf(
    s0: Seq<TableModel>,
    ti: int,
    ri: int,
    id: u64,
    cur: Seq<ValueModel>,
    tm: TableModel,
)
    requires
        store_wf(s0),
        0 <= ti < s0.len(),
        tm == s0[ti],
        0 <= ri < tm.rows.len(),
        id == tm.rows[ri].0,
        cur.len() == tm.columns.len(),
        forall|i: int|
            0 <= i < cur.len() ==> value_matches_type_spec(#[trigger] cur[i], tm.columns[i].col_type),
    ensures
        store_wf(s0.update(ti, upd_table(tm, ri, id, cur))),
{
    let t2 = upd_table(tm, ri, id, cur);
    assert forall|i: int| 0 <= i < t2.rows.len() implies row_ok(t2.columns, #[trigger] t2.rows[i]) by {
        if i != ri {
            assert(t2.rows[i] == tm.rows[i]);
        }
    }
    assert forall|i: int, j: int|
        #![trigger t2.rows[i].0, t2.rows[j].0]
        0 <= i < j < t2.rows.len() implies t2.rows[i].0 < t2.rows[j].0 by {
        assert(t2.rows[i].0 == tm.rows[i].0);
        assert(t2.rows[j].0 == tm.rows[j].0);
    }
    assert forall|i: int| 0 <= i < t2.rows.len() implies (#[trigger] t2.rows[i]).0
        < t2.next_row_id by {
        assert(t2.rows[i].0 == tm.rows[i].0);
    }
    assert(table_wf(t2));
    let s2 = s0.update(ti, t2);
    assert forall|i: int| 0 <= i < s2.len() implies table_wf(#[trigger] s2[i]) by {
        if i != ti {
            assert(s2[i] == s0[i]);
        }
    }
    assert forall|i: int, j: int|
        #![trigger s2[i].name, s2[j].name]
        0 <= i < j < s2.len() implies s2[i].name != s2[j].name by {
        assert(s2[i].name == s0[i].name);
        assert(s2[j].name == s0[j].name);
    }
}

/// Index of the row with the given id, if any.
fn find_row(rows: &Vec<(u64, Vec<Value>)>, id: u64) -> (r: Option<usize>)
    ensures
        match r {
            Some(i) => i < rows.len() && spec_find_row(rows_model(rows@), id) == Some(i as int),
            None => spec_find_row(rows_model(rows@), id) is None,
        },
{
    let mut i: usize = 0;
    while i < rows.len()
        invariant
            i <= rows.len(),
            forall|k: int| 0 <= k < i ==> (#[trigger] rows_model(rows@)[k]).0 != id,
        decreases rows.len() - i,
    {
        if rows[i].0 == id {
            proof {
                assert(rows_model(rows@)[i as int].0 == id);
                lemma_find_row(rows_model(rows@), id);
            }
            return Some(i);
        }
        proof {
            assert(rows_model(rows@)[i as int].0 == rows@[i as int].0);
        }
        i += 1;
    }
    proof {
        lemma_find_row(rows_model(rows@), id);
    }
    None
}

/// Index of the first column with the given name, if any.
fn find_column(columns: &Vec<Column>, name: &String) -> (r: Option<usize>)
    ensures
        match r {
            Some(i) => i < columns.len() && spec_find_column(columns_view(columns@), name@)
                == Some(i as int),
            None => spec_find_column(columns_view(columns@), name@) is None,
        },
{
    let mut i: usize = 0;
    while i < columns.len()
        invariant
            i <= columns.len(),
            forall|k: int| 0 <= k < i ==> (#[trigger] columns_view(columns@)[k]).name != name@,
        decreases columns.len() - i,
    {
        if columns[i].name == *name {
            proof {
                assert(columns_view(columns@)[i as int].name == name@);
                lemma_find_column(columns_view(columns@), name@);
            }
            return Some(i);
        }
        proof {
            assert(columns_view(columns@)[i as int].name == columns@[i as int].name@);
        }
        i += 1;
    }
    proof {
        lemma_find_column(columns_view(columns@), name@);
    }
    None
}

impl Database {
    /// Applies an ordered list of (column name, value) updates to one row.
    /// Fails when the table or the row is absent, a named column does not
    /// exist, or a replacement value's tag mismatches its column; a failure
    /// part-way leaves the earlier updates applied.
    #[verifier::loop_isolation(false)]
    pub fn update_row(
        &mut self,
        table: String,
        row_id: u64,
        updates: Vec<(String, Value)>,
    ) -> (r: Result<DbResult, DbError>)
        requires
            store_wf(old(self)@),
        ensures
            store_wf(final(self)@),
            (final(self)@, outcome_model(r)) == spec_update_row(
                old(self)@,
                table@,
                row_id,
                crate::commands::updates_model(updates@),
            ),
    {
        let ti = match self.find_table(&table) {
            None => {
                return Result::Err(DbError::NotFound);
            },
            Some(i) => i,
        };
        let ghost s0 = self@;
        let ghost tm = self@[ti as int];
        proof {
            assert(tm == self.tables@[ti as int]@);
        }
        let ri = match find_row(&self.tables[ti].rows, row_id) {
            None => {
                return Result::Err(DbError::RowNotFound);
            },
            Some(i) => i,
        };
        let ghost um = crate::commands::updates_model(updates@);
        let ghost orig_vals = tm.rows[ri as int].1;
        let ghost mut cur = orig_vals;
        proof {
            assert(tm.rows == rows_model(self.tables@[ti as int].rows@));
            lemma_find_row(tm.rows, row_id);
            assert(tm.rows[ri as int] == (tm.rows[ri as int].0, tm.rows[ri as int].1));
            assert(um.skip(0) =~= um);
            assert(tm.rows.update(ri as int, (row_id, cur)) =~= tm.rows);
            assert(upd_table(tm, ri as int, row_id, cur) =~= tm);
            assert(s0.update(ti as int, upd_table(tm, ri as int, row_id, cur)) =~= s0);
            assert(row_ok(tm.columns, tm.rows[ri as int]));
        }
        let mut k: usize = 0;
        while k < updates.len()
            invariant
                k <= updates.len(),
                ti < self.tables.len(),
                ti < s0.len(),
                ri < tm.rows.len(),
                store_wf(s0),
                s0 == old(self)@,
                tm == s0[ti as int],
                spec_find_table(s0, table@) == Some(ti as int),
                spec_find_row(tm.rows, row_id) == Some(ri as int),
                row_id == tm.rows[ri as int].0,
                um == crate::commands::updates_model(updates@),
                cur.len() == tm.columns.len(),
                forall|i: int|
                    0 <= i < cur.len() ==> value_matches_type_spec(
                        #[trigger] cur[i],
                        tm.columns[i].col_type,
                    ),
                spec_apply_updates(tm.columns, cur, um.skip(k as int)) == spec_apply_updates(
                    tm.columns,
                    orig_vals,
                    um,
                ),
                self@ == s0.update(ti as int, upd_table(tm, ri as int, row_id, cur)),
                self.tables@[ti as int].columns == old(self).tables@[ti as int].columns,
                self.tables@[ti as int].rows@.len() == tm.rows.len(),
                rows_model(self.tables@[ti as int].rows@)[ri as int] == (row_id, cur),
            decreases updates.len() - k,
        {
            proof {
                assert(um.skip(k as int)[0] == um[k as int]);
                assert(um[k as int] == (updates@[k as int].0@, updates@[k as int].1@));
            }
            proof {
                assert(old(self)@[ti as int] == old(self).tables@[ti as int]@);
                assert(tm.columns == columns_view(old(self).tables@[ti as int].columns@));
                assert(columns_view(self.tables@[ti as int].columns@) == tm.columns);
            }
            let uname = &updates[k].0;
            let ci = match find_column(&self.tables[ti].columns, uname) {
                None => {
                    proof {
                        assert(columns_view(self.tables@[ti as int].columns@) == tm.columns);
                        assert(spec_find_column(tm.columns, um[k as int].0) is None);
                        assert(spec_apply_updates(tm.columns, cur, um.skip(k as int)) == (
                            cur,
                            Some(ErrorModel::ColumnNotFound(um[k as int].0)),
                        ));
                        lemma_upd_wf(s0, ti as int, ri as int, row_id, cur, tm);
                    }
                    return Result::Err(DbError::ColumnNotFound(uname.clone()));
                },
                Some(c) => c,
            };
            proof {
                assert(columns_view(self.tables@[ti as int].columns@) == tm.columns);
            }
            let val = updates[k].1.clone();
            if !value_matches_type(&val, &self.tables[ti].columns[ci].col_type) {
                proof {
                    assert(tm.columns[ci as int]
                        == columns_view(self.tables@[ti as int].columns@)[ci as int]);
                    assert(spec_find_column(tm.columns, um[k as int].0) == Some(ci as int));
                    assert(!value_matches_type_spec(um[k as int].1, tm.columns[ci as int].col_type));
                    assert(spec_apply_updates(tm.columns, cur, um.skip(k as int)) == (
                        cur,
                        Some(ErrorModel::TypeMismatch(um[k as int].0)),
                    ));
                    lemma_upd_wf(s0, ti as int, ri as int, row_id, cur, tm);
                }
                return Result::Err(DbError::TypeMismatch(uname.clone()));
            }
            proof {
                assert(tm.columns[ci as int]
                    == columns_view(self.tables@[ti as int].columns@)[ci as int]);
            }
            let ghost prev_tables = self.tables@;
            let ghost prev_cur = cur;
            proof {
                assert(prev_tables[ti as int]@ == self@[ti as int]);
                assert(prev_tables[ti as int]@ == upd_table(tm, ri as int, row_id, prev_cur));
            }
            let t = &mut self.tables[ti];
            let row = &mut t.rows[ri];
            let ghost prev_row_vals = row.1@;
            let cell = &mut row.1[ci];
            *cell = val;
            proof {
                cur = prev_cur.update(ci as int, um[k as int].1);
            }
            proof {
                assert(row.1@ == prev_row_vals.update(ci as int, val));
                assert(values_model(prev_row_vals) == prev_cur);
                assert(values_model(row.1@) =~= cur);
            }
            proof {
                let trows = prev_tables[ti as int].rows@;
                assert(rows_model(trows)[ri as int] == (row_id, prev_cur));
                assert(trows[ri as int].0 == row_id);
                assert forall|m: int| 0 <= m < t.rows@.len() implies #[trigger] rows_model(
                    t.rows@,
                )[m] == tm.rows.update(ri as int, (row_id, cur))[m] by {
                    if m != ri as int {
                        assert(t.rows@[m] == trows[m]);
                        assert(rows_model(t.rows@)[m] == rows_model(trows)[m]);
                        assert(rows_model(trows)[m] == upd_table(
                            tm,
                            ri as int,
                            row_id,
                            prev_cur,
                        ).rows[m]);
                    }
                }
                assert(rows_model(t.rows@) =~= tm.rows.update(ri as int, (row_id, cur)));
                assert(t@ == upd_table(tm, ri as int, row_id, cur));
            }
            proof {
                assert forall|m: int| 0 <= m < self@.len() implies #[trigger] self@[m]
                    == s0.update(ti as int, upd_table(tm, ri as int, row_id, cur))[m] by {
                    if m != ti as int {
                        assert(self.tables@[m] == prev_tables[m]);
                        assert(self@[m] == prev_tables[m]@);
                        assert(prev_tables[m]@ == s0.update(
                            ti as int,
                            upd_table(tm, ri as int, row_id, prev_cur),
                        )[m]);
                    } else {
                        assert(self@[m] == t@);
                    }
                }
                assert(self@ =~= s0.update(ti as int, upd_table(tm, ri as int, row_id, cur)));
                assert forall|i2: int| 0 <= i2 < cur.len() implies value_matches_type_spec(
                    #[trigger] cur[i2],
                    tm.columns[i2].col_type,
                ) by {
                    if i2 != ci as int {
                        assert(cur[i2] == prev_cur[i2]);
                    }
                }
                assert(um.skip(k as int).drop_first() =~= um.skip(k as int + 1));
                assert(spec_apply_updates(tm.columns, prev_cur, um.skip(k as int))
                    == spec_apply_updates(tm.columns, cur, um.skip(k as int + 1)));
            }
            k += 1;
        }
        proof {
            assert(um.skip(updates@.len() as int) =~= Seq::<(Seq<char>, ValueModel)>::empty());
            lemma_upd_wf(s0, ti as int, ri as int, row_id, cur, tm);
        }
        Result::Ok(DbResult::Done)
    }
}

/// The schema pairs split at any table boundary.
proof fn lemma_schema_pairs_decompose(s: Seq<TableModel>, i: int)
    requires
        0 <= i <= s.len(),
    ensures
        schema_pairs(s) == schema_pairs(s.take(i)) + schema_pairs(s.skip(i)),
    decreases i,
{
    if i == 0 {
        assert(s.take(0) =~= Seq::<TableModel>::empty());
        assert(s.skip(0) =~= s);
        assert(schema_pairs(s.take(0)) + schema_pairs(s) =~= schema_pairs(s));
    } else {
        let d = s.drop_first();
        lemma_schema_pairs_decompose(d, i - 1);
        assert(s.take(i)[0] == s[0]);
        assert(s.take(i).drop_first() =~= d.take(i - 1));
        assert(s.skip(i) =~= d.skip(i - 1));
        assert(table_pairs(s[0]) + (schema_pairs(d.take(i - 1)) + schema_pairs(d.skip(i - 1)))
            =~= (table_pairs(s[0]) + schema_pairs(d.take(i - 1))) + schema_pairs(d.skip(i - 1)));
    }
}

/// One unfolding of the schema pairs of a suffix.
proof fn lemma_schema_pairs_skip_unfold(s: Seq<TableModel>, i: int)
    requires
        0 <= i < s.len(),
    ensures
        schema_pairs(s.skip(i)) == table_pairs(s[i]) + schema_pairs(s.skip(i + 1)),
{
    assert(s.skip(i)[0] == s[i]);
    assert(s.skip(i).drop_first() =~= s.skip(i + 1));
}

/// Extending a table prefix by one table appends that table's pairs.
proof fn lemma_schema_pairs_take(s: Seq<TableModel>, i: int)
    requires
        0 <= i < s.len(),
    ensures
        schema_pairs(s.take(i + 1)) == schema_pairs(s.take(i)) + table_pairs(s[i]),
    decreases i,
{
    if i == 0 {
        assert(s.take(1)[0] == s[0]);
        assert(s.take(1).drop_first() =~= Seq::<TableModel>::empty());
        assert(s.take(0) =~= Seq::<TableModel>::empty());
        assert(schema_pairs(s.take(0)) + table_pairs(s[0]) =~= table_pairs(s[0]));
    } else {
        let d = s.drop_first();
        lemma_schema_pairs_take(d, i - 1);
        assert(s.take(i + 1)[0] == s[0]);
        assert(s.take(i + 1).drop_first() =~= d.take(i));
        assert(s.take(i)[0] == s[0]);
        assert(s.take(i).drop_first() =~= d.take(i - 1));
        assert(d[i - 1] == s[i]);
        assert(table_pairs(s[0]) + (schema_pairs(d.take(i - 1)) + table_pairs(s[i]))
            =~= (table_pairs(s[0]) + schema_pairs(d.take(i - 1))) + table_pairs(s[i]));
    }
}

/// The lower-case name of a column type.
pub fn type_label(t: &ColumnType) -> (r: String)
    ensures
        r@ == type_name_spec(*t),
{
    match t {
        ColumnType::Int => String::from_str("int"),
        ColumnType::Text => String::from_str("text"),
        ColumnType::Bool => String::from_str("bool"),
    }
}

impl Database {
    /// Lists the schema as a synthetic three-column row set: one row per
    /// (table, column) pair, in table creation order then declared column
    /// order, with row ids assigned sequentially from one.
    #[verifier::loop_isolation(false)]
    pub fn get_tables(&self) -> (r: Result<DbResult, DbError>)
        ensures
            outcome_model(r) == spec_get_tables(self@),
    {
        let ghost sm = self@;
        let ghost pairs = schema_pairs(sm);
        let mut rows: Vec<(u64, Vec<Value>)> = Vec::new();
        proof {
            assert(sm.take(0) =~= Seq::<TableModel>::empty());
            assert(pairs.take(0) =~= schema_pairs(sm.take(0)));
        }
        let mut ti: usize = 0;
        while ti < self.tables.len()
            invariant
                ti <= self.tables.len(),
                rows@.len() <= pairs.len(),
                pairs.take(rows@.len() as int) == schema_pairs(sm.take(ti as int)),
                forall|m: int|
                    0 <= m < rows@.len() ==> #[trigger] rows_model(rows@)[m] == schema_rows(
                        pairs,
                    )[m],
            decreases self.tables.len() - ti,
        {
            let ghost base = rows@.len() as int;
            proof {
                lemma_schema_pairs_decompose(sm, ti as int);
                lemma_schema_pairs_skip_unfold(sm, ti as int);
                assert(sm[ti as int] == self.tables@[ti as int]@);
                assert(table_pairs(sm[ti as int]).take(0) =~= Seq::<(Seq<char>, ColumnModel)>::empty());
                assert(pairs.take(base) + table_pairs(sm[ti as int]).take(0) =~= pairs.take(base));
            }
            let mut ci: usize = 0;
            while ci < self.tables[ti].columns.len()
                invariant
                    ti < self.tables.len(),
                    ci <= self.tables@[ti as int].columns@.len(),
                    rows@.len() == base + ci,
                    rows@.len() <= pairs.len(),
                    pairs.take(rows@.len() as int) == schema_pairs(sm.take(ti as int))
                        + table_pairs(sm[ti as int]).take(ci as int),
                    forall|m: int|
                        0 <= m < rows@.len() ==> #[trigger] rows_model(rows@)[m] == schema_rows(
                            pairs,
                        )[m],
                decreases self.tables@[ti as int].columns@.len() - ci,
            {
                proof {
                    assert(table_pairs(sm[ti as int]).len()
                        == self.tables@[ti as int].columns@.len());
                    assert(pairs.len() == schema_pairs(sm.take(ti as int)).len() + table_pairs(
                        sm[ti as int],
                    ).len() + schema_pairs(sm.skip(ti as int + 1)).len());
                    assert(base == schema_pairs(sm.take(ti as int)).len());
                    assert(pairs.len() > rows@.len());
                }
                if rows.len() as u64 == u64::MAX {
                    proof {
                        assert(pairs.len() > u64::MAX);
                    }
                    return Result::Err(DbError::TooManyRows);
                }
                let id = rows.len() as u64 + 1;
                let t = &self.tables[ti];
                let col = &t.columns[ci];
                let vals = vec![
                    Value::Text(t.name.clone()),
                    Value::Text(col.name.clone()),
                    Value::Text(type_label(&col.col_type)),
                ];
                let ghost prev_rows = rows@;
                rows.push((id, vals));
                proof {
                    let m = base + ci;
                    assert(pairs[m] == table_pairs(sm[ti as int])[ci as int]) by {
                        assert(pairs.take(m)
                            == schema_pairs(sm.take(ti as int)) + table_pairs(
                            sm[ti as int],
                        ).take(ci as int));
                        lemma_schema_pairs_decompose(sm, ti as int);
                        lemma_schema_pairs_skip_unfold(sm, ti as int);
                        assert(pairs == schema_pairs(sm.take(ti as int)) + (table_pairs(
                            sm[ti as int],
                        ) + schema_pairs(sm.skip(ti as int + 1))));
                    }
                    assert(table_pairs(sm[ti as int])[ci as int] == (
                        sm[ti as int].name,
                        sm[ti as int].columns[ci as int],
                    ));
                    assert(sm[ti as int].columns[ci as int] == col@);
                    assert(values_model(vals@) =~= seq![
                        ValueModel::Text(sm[ti as int].name),
                        ValueModel::Text(col@.name),
                        ValueModel::Text(type_name_spec(col@.col_type)),
                    ]);
                    assert(rows_model(rows@)[m] == (id, values_model(vals@)));
                    assert(rows_model(rows@)[m] == schema_rows(pairs)[m]);
                    assert forall|m2: int| 0 <= m2 < prev_rows.len() implies #[trigger] rows_model(
                        rows@,
                    )[m2] == schema_rows(pairs)[m2] by {
                        assert(rows@[m2] == prev_rows[m2]);
                        assert(rows_model(rows@)[m2] == rows_model(prev_rows)[m2]);
                    }
                    assert(pairs.take(m + 1) =~= pairs.take(m) + seq![pairs[m]]);
                    assert(table_pairs(sm[ti as int]).take(ci as int + 1) =~= table_pairs(
                        sm[ti as int],
                    ).take(ci as int) + seq![pairs[m]]);
                    assert(pairs.take(m + 1) =~= schema_pairs(sm.take(ti as int)) + table_pairs(
                        sm[ti as int],
                    ).take(ci as int + 1));
                }
                ci += 1;
            }
            proof {
                lemma_schema_pairs_take(sm, ti as int);
                assert(table_pairs(sm[ti as int]).take(self.tables@[ti as int].columns@.len() as int)
                    =~= table_pairs(sm[ti as int]));
            }
            ti += 1;
        }
        proof {
            assert(sm.take(sm.len() as int) =~= sm);
            assert(pairs.take(rows@.len() as int) == pairs);
            assert(rows@.len() == pairs.len());
            assert(rows_model(rows@) =~= schema_rows(pairs));
        }
        let n = rows.len();
        proof {
            assert(pairs.len() == n);
            assert(pairs.len() <= u64::MAX);
        }
        let mut names: Vec<String> = Vec::new();
        names.push(String::from_str("table_name"));
        names.push(String::from_str("column_name"));
        names.push(String::from_str("column_type"));
        proof {
            assert(crate::commands::names_model(names@) =~= seq![
                "table_name"@,
                "column_name"@,
                "column_type"@,
            ]);
        }
        Result::Ok(DbResult::Rows { columns: names, rows })
    }

    /// Applies one decoded command to the store and returns its outcome.
    pub fn execute(&mut self, cmd: DbCommand) -> (r: Result<DbResult, DbError>)
        requires
            store_wf(old(self)@),
        ensures
            store_wf(final(self)@),
            (final(self)@, outcome_model(r)) == spec_execute(old(self)@, cmd@),
    {
        match cmd {
            DbCommand::CreateTable { table, columns } => self.create_table(table, columns),
            DbCommand::InsertRow { table, values } => self.insert_row(table, values),
            DbCommand::UpdateRow { table, row_id, updates } => self.update_row(
                table,
                row_id,
                updates,
            ),
            DbCommand::SelectAll { table } => self.select_all(table),
            DbCommand::GetTables {} => self.get_tables(),
        }
    }
}

impl Default for Database {
    /// The empty store.
    fn default() -> (r: Self)
        ensures
            r@ == Seq::<TableModel>::empty(),
            store_wf(r@),
    {
        Database::new()
    }
}

} // verus!
