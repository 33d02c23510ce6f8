//! Commands accepted by the store, results returned by it, and their errors.

use vstd::prelude::*;
use crate::db_types::{ColumnType, Value, ValueModel};

verus! {

/// A typed command against the store.
///
/// Updates are an ordered list of (column name, replacement value) pairs;
/// they are applied one at a time, in this order.
#[derive(Debug, PartialEq, Eq)]
pub enum DbCommand {
    CreateTable { table: String, columns: Vec<(String, ColumnType)> },
    InsertRow { table: String, values: Vec<Value> },
    UpdateRow { table: String, row_id: u64, updates: Vec<(String, Value)> },
    SelectAll { table: String },
    GetTables {},
}

/// Mathematical model of a [`DbCommand`].
pub enum CommandModel {
    CreateTable { table: Seq<char>, columns: Seq<(Seq<char>, ColumnType)> },
    InsertRow { table: Seq<char>, values: Seq<ValueModel> },
    UpdateRow { table: Seq<char>, row_id: u64, updates: Seq<(Seq<char>, ValueModel)> },
    SelectAll { table: Seq<char> },
    GetTables {},
}

/// Model of a sequence of values.
pub open spec fn values_model(values: Seq<Value>) -> Seq<ValueModel> {
    values.map_values(|v: Value| v@)
}

/// Model of a column list as given to table creation.
pub open spec fn columns_model(columns: Seq<(String, ColumnType)>) -> Seq<(Seq<char>, ColumnType)> {
    columns.map_values(|c: (String, ColumnType)| (c.0@, c.1))
}

/// Model of an ordered update list.
pub open spec fn updates_model(updates: Seq<(String, Value)>) -> Seq<(Seq<char>, ValueModel)> {
    updates.map_values(|u: (String, Value)| (u.0@, u.1@))
}

impl View for DbCommand {
    type V = CommandModel;

    open spec fn view(&self) -> CommandModel {
        match self {
            DbCommand::CreateTable { table, columns } => CommandModel::CreateTable {
                table: table@,
                columns: columns_model(columns@),
            },
            DbCommand::InsertRow { table, values } => CommandModel::InsertRow {
                table: table@,
                values: values_model(values@),
            },
            DbCommand::UpdateRow { table, row_id, updates } => CommandModel::UpdateRow {
                table: table@,
                row_id: *row_id,
                updates: updates_model(updates@),
            },
            DbCommand::SelectAll { table } => CommandModel::SelectAll { table: table@ },
            DbCommand::GetTables {} => CommandModel::GetTables {},
        }
    }
}

/// A successful result: either a bare acknowledgement or a row set.
///
/// In a row set, every row carries its id and one value per column, in
/// declared column order; rows are sorted ascending by id.
#[derive(Debug, PartialEq, Eq)]
pub enum DbResult {
    Done,
    Rows { columns: Vec<String>, rows: Vec<(u64, Vec<Value>)> },
}

/// Mathematical model of a row: its id and its values in column order.
pub type RowModel = (u64, Seq<ValueModel>);

/// Mathematical model of a [`DbResult`].
pub enum ResultModel {
    Done,
    Rows { columns: Seq<Seq<char>>, rows: Seq<RowModel> },
}

/// Model of a row list.
pub open spec fn rows_model(rows: Seq<(u64, Vec<Value>)>) -> Seq<RowModel> {
    rows.map_values(|r: (u64, Vec<Value>)| (r.0, values_model(r.1@)))
}

/// Model of a column-name list.
pub open spec fn names_model(names: Seq<String>) -> Seq<Seq<char>> {
    names.map_values(|n: String| n@)
}

impl View for DbResult {
    type V = ResultModel;

    open spec fn view(&self) -> ResultModel {
        match self {
            DbResult::Done => ResultModel::Done,
            DbResult::Rows { columns, rows } => ResultModel::Rows {
                columns: names_model(columns@),
                rows: rows_model(rows@),
            },
        }
    }
}

/// A command that was well-formed on the wire but was rejected by the store.
#[derive(Debug, PartialEq, Eq)]
pub enum DbError {
    /// Table creation under a name that is already taken.
    AlreadyExists,
    /// The named table does not exist.
    NotFound,
    /// The table exists but the given row id does not.
    RowNotFound,
    /// An update names a column the table does not have; carries the
    /// column name.
    ColumnNotFound(String),
    /// An inserted row does not have exactly one value per column.
    ColumnCountMismatch,
    /// A value's tag disagrees with its column's declared type; carries the
    /// column name.
    TypeMismatch(String),
    /// The table's row-id counter is exhausted, or a schema listing would
    /// need more row ids than exist.
    TooManyRows,
}

/// Mathematical model of a [`DbError`].
pub enum ErrorModel {
    AlreadyExists,
    NotFound,
    RowNotFound,
    ColumnNotFound(Seq<char>),
    ColumnCountMismatch,
    TypeMismatch(Seq<char>),
    TooManyRows,
}

impl View for DbError {
    type V = ErrorModel;

    open spec fn view(&self) -> ErrorModel {
        match self {
            DbError::AlreadyExists => ErrorModel::AlreadyExists,
            DbError::NotFound => ErrorModel::NotFound,
            DbError::RowNotFound => ErrorModel::RowNotFound,
            DbError::ColumnNotFound(name) => ErrorModel::ColumnNotFound(name@),
            DbError::ColumnCountMismatch => ErrorModel::ColumnCountMismatch,
            DbError::TypeMismatch(name) => ErrorModel::TypeMismatch(name@),
            DbError::TooManyRows => ErrorModel::TooManyRows,
        }
    }
}

/// The human-readable message of each error, as sent back over the wire.
pub open spec fn error_message_spec(e: ErrorModel) -> Seq<char> {
    match e {
        ErrorModel::AlreadyExists => "Table already exists"@,
        ErrorModel::NotFound => "Table not found"@,
        ErrorModel::RowNotFound => "Row not found"@,
        ErrorModel::ColumnNotFound(_) => "Column not found"@,
        ErrorModel::ColumnCountMismatch => "Column count mismatch"@,
        ErrorModel::TypeMismatch(name) => "Type mismatch for column "@ + name,
        ErrorModel::TooManyRows => "Too many rows"@,
    }
}

impl DbError {
    /// Renders the error as its wire message.
    pub fn message(&self) -> (r: String)
        ensures
            r@ == error_message_spec(self@),
    {
        match self {
            DbError::AlreadyExists => String::from_str("Table already exists"),
            DbError::NotFound => String::from_str("Table not found"),
            DbError::RowNotFound => String::from_str("Row not found"),
            DbError::ColumnNotFound(_) => String::from_str("Column not found"),
            DbError::ColumnCountMismatch => String::from_str("Column count mismatch"),
            DbError::TypeMismatch(name) => {
                let mut m = String::from_str("Type mismatch for column ");
                m.append(name.as_str());
                m
            },
            DbError::TooManyRows => String::from_str("Too many rows"),
        }
    }
}

/// Model of a store outcome.
pub open spec fn outcome_model(r: Result<DbResult, DbError>) -> Result<ResultModel, ErrorModel> {
    match r {
        Result::Ok(res) => Result::Ok(res@),
        Result::Err(e) => Result::Err(e@),
    }
}

/// A byte buffer that could not be decoded: carries a human-readable cause.
#[derive(Debug)]
pub struct ProtocolError {
    pub msg: String,
}

} // verus!
