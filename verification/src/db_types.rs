//! Value and column vocabulary shared by the codec and the table store.

use vstd::prelude::*;

verus! {

/// Declared type of a column; every value written into the column must
/// carry the matching tag.
#[derive(Clone, Copy, Debug, PartialEq, Eq, Structural)]
pub enum ColumnType {
    Int,
    Text,
    Bool,
}

/// A cell value: a tagged union over 64-bit signed integers, UTF-8 text and
/// booleans. Immutable once constructed; copied by value into rows.
#[derive(Debug, PartialEq, Eq)]
pub enum Value {
    Int(i64),
    Text(String),
    Bool(bool),
}

/// Mathematical model of a [`Value`]: text is a sequence of characters.
pub enum ValueModel {
    Int(i64),
    Text(Seq<char>),
    Bool(bool),
}

impl View for Value {
    type V = ValueModel;

    open spec fn view(&self) -> ValueModel {
        match self {
            Value::Int(n) => ValueModel::Int(*n),
            Value::Text(s) => ValueModel::Text(s@),
            Value::Bool(b) => ValueModel::Bool(*b),
        }
    }
}

impl Clone for Value {
    fn clone(&self) -> (r: Self)
        ensures
            r@ == self@,
    {
        match self {
            Value::Int(n) => Value::Int(*n),
            Value::Text(s) => Value::Text(s.clone()),
            Value::Bool(b) => Value::Bool(*b),
        }
    }
}

/// A column: a name and a declared type. Immutable after table creation.
#[derive(Debug)]
pub struct Column {
    pub name: String,
    pub col_type: ColumnType,
}

/// Mathematical model of a [`Column`].
pub struct ColumnModel {
    pub name: Seq<char>,
    pub col_type: ColumnType,
}

impl View for Column {
    type V = ColumnModel;

    open spec fn view(&self) -> ColumnModel {
        ColumnModel { name: self.name@, col_type: self.col_type }
    }
}

impl Clone for Column {
    fn clone(&self) -> (r: Self)
        ensures
            r@ == self@,
    {
        Column { name: self.name.clone(), col_type: self.col_type }
    }
}

/// A value matches a column type exactly when their tags agree; there is no
/// implicit coercion.
pub open spec fn value_matches_type_spec(v: ValueModel, t: ColumnType) -> bool {
    match (v, t) {
        (ValueModel::Int(_), ColumnType::Int) => true,
        (ValueModel::Text(_), ColumnType::Text) => true,
        (ValueModel::Bool(_), ColumnType::Bool) => true,
        _ => false,
    }
}

/// Runtime check of the type-matching rule.
pub fn value_matches_type(value: &Value, col_type: &ColumnType) -> (r: bool)
    ensures
        r == value_matches_type_spec(value@, *col_type),
{
    match (value, col_type) {
        (Value::Int(_), ColumnType::Int) => true,
        (Value::Text(_), ColumnType::Text) => true,
        (Value::Bool(_), ColumnType::Bool) => true,
        _ => false,
    }
}

} // verus!
