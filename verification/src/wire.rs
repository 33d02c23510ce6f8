//! Byte-level model of the wire protocol.
//!
//! This module defines, purely in specification land, what every command,
//! result and error frame looks like as a sequence of bytes, and a parser
//! over byte sequences that inverts the encoding. The executable codec in
//! [`crate::protocol`] is verified against these definitions, and the
//! round-trip laws are proved here once and for all.

use vstd::prelude::*;
use vstd::arithmetic::div_mod::{
    lemma_div_pos_is_pos, lemma_fundamental_div_mod, lemma_mod_bound,
};
use crate::db_types::{ColumnType, ValueModel};
use crate::commands::{CommandModel, ErrorModel, ResultModel, RowModel, error_message_spec};

verus! {

/// 256 raised to `k`: the number of values `k` bytes can carry.
pub open spec fn pow256(k: nat) -> int
    decreases k,
{
    if k == 0 {
        1
    } else {
        256 * pow256((k - 1) as nat)
    }
}

/// The `len`-byte big-endian encoding of `n` (low bytes of `n` if it does
/// not fit).
pub open spec fn be_bytes(n: int, len: nat) -> Seq<u8>
    decreases len,
{
    if len == 0 {
        Seq::empty()
    } else {
        be_bytes(n / 256, (len - 1) as nat).push((n % 256) as u8)
    }
}

/// The integer a big-endian byte sequence denotes.
pub open spec fn from_be(b: Seq<u8>) -> int
    decreases b.len(),
{
    if b.len() == 0 {
        0
    } else {
        from_be(b.drop_last()) * 256 + b.last()
    }
}

pub proof fn lemma_pow256_pos(k: nat)
    ensures
        pow256(k) >= 1,
    decreases k,
{
    if k > 0 {
        lemma_pow256_pos((k - 1) as nat);
    }
}

pub proof fn lemma_be_bytes_len(n: int, len: nat)
    ensures
        be_bytes(n, len).len() == len,
    decreases len,
{
    if len > 0 {
        lemma_be_bytes_len(n / 256, (len - 1) as nat);
    }
}

/// Big-endian encoding inverts back to the encoded integer.
pub proof fn lemma_from_be_bytes(n: int, len: nat)
    requires
        0 <= n < pow256(len),
    ensures
        from_be(be_bytes(n, len)) == n,
    decreases len,
{
    if len == 0 {
    } else {
        let rest = (len - 1) as nat;
        lemma_fundamental_div_mod(n, 256);
        lemma_mod_bound(n, 256);
        assert(0 <= n / 256 < pow256(rest)) by {
            lemma_div_pos_is_pos(n, 256);
            lemma_pow256_pos(rest);
            assert(n / 256 < pow256(rest)) by {
                if n / 256 >= pow256(rest) {
                    assert(n >= 256 * (n / 256)) by {
                        lemma_fundamental_div_mod(n, 256);
                    };
                    assert(256 * (n / 256) >= 256 * pow256(rest)) by (nonlinear_arith)
                        requires n / 256 >= pow256(rest);
                }
            };
        };
        lemma_from_be_bytes(n / 256, rest);
        lemma_be_bytes_len(n / 256, rest);
        assert(be_bytes(n, len).drop_last() =~= be_bytes(n / 256, rest));
    }
}

/// The unsigned 64-bit integer with the same two's-complement bytes as `n`.
pub open spec fn i64_as_u64(n: i64) -> u64 {
    if n >= 0 {
        n as u64
    } else {
        (n + 0x1_0000_0000_0000_0000) as u64
    }
}

/// The signed 64-bit integer with the same two's-complement bytes as `n`.
pub open spec fn u64_as_i64(n: u64) -> i64 {
    if n < 0x8000_0000_0000_0000 {
        n as i64
    } else {
        (n - 0x1_0000_0000_0000_0000) as i64
    }
}

/// The two conversions invert each other.
pub proof fn lemma_i64_u64_round_trip(n: i64)
    ensures
        u64_as_i64(i64_as_u64(n)) == n,
{
}

/// Wire tag of each column/value type.
pub open spec fn type_tag(t: ColumnType) -> u8 {
    match t {
        ColumnType::Int => 1,
        ColumnType::Text => 2,
        ColumnType::Bool => 3,
    }
}

/// A string fits on the wire when its UTF-8 byte length fits the 16-bit
/// length prefix.
pub open spec fn str_fits(s: Seq<char>) -> bool {
    vstd::utf8::encode_utf8(s).len() <= 0xFFFF
}

/// A length-prefixed string: a 16-bit big-endian byte count followed by the
/// UTF-8 bytes.
pub open spec fn str_bytes(s: Seq<char>) -> Seq<u8> {
    let utf8 = vstd::utf8::encode_utf8(s);
    be_bytes(utf8.len() as int, 2) + utf8
}

/// A tagged value: a type tag followed by the value's payload.
pub open spec fn value_bytes(v: ValueModel) -> Seq<u8> {
    match v {
        ValueModel::Int(n) => seq![1u8] + be_bytes(i64_as_u64(n) as int, 8),
        ValueModel::Text(s) => seq![2u8] + str_bytes(s),
        ValueModel::Bool(b) => seq![3u8, if b { 1u8 } else { 0u8 }],
    }
}

/// A value fits on the wire when its text, if any, fits.
pub open spec fn value_fits(v: ValueModel) -> bool {
    match v {
        ValueModel::Text(s) => str_fits(s),
        _ => true,
    }
}

pub open spec fn columns_bytes(columns: Seq<(Seq<char>, ColumnType)>) -> Seq<u8>
    decreases columns.len(),
{
    if columns.len() == 0 {
        Seq::empty()
    } else {
        str_bytes(columns[0].0) + seq![type_tag(columns[0].1)] + columns_bytes(columns.drop_first())
    }
}

pub open spec fn values_bytes(values: Seq<ValueModel>) -> Seq<u8>
    decreases values.len(),
{
    if values.len() == 0 {
        Seq::empty()
    } else {
        value_bytes(values[0]) + values_bytes(values.drop_first())
    }
}

pub open spec fn updates_bytes(updates: Seq<(Seq<char>, ValueModel)>) -> Seq<u8>
    decreases updates.len(),
{
    if updates.len() == 0 {
        Seq::empty()
    } else {
        str_bytes(updates[0].0) + value_bytes(updates[0].1) + updates_bytes(updates.drop_first())
    }
}

/// The command frame: an opcode byte followed by the opcode's payload.
pub open spec fn command_bytes(c: CommandModel) -> Seq<u8> {
    match c {
        CommandModel::CreateTable { table, columns } => seq![1u8] + str_bytes(table) + seq![
            columns.len() as u8,
        ] + columns_bytes(columns),
        CommandModel::InsertRow { table, values } => seq![2u8] + str_bytes(table) + seq![
            values.len() as u8,
        ] + values_bytes(values),
        CommandModel::UpdateRow { table, row_id, updates } => seq![3u8] + str_bytes(table)
            + be_bytes(row_id as int, 8) + seq![updates.len() as u8] + updates_bytes(updates),
        CommandModel::SelectAll { table } => seq![4u8] + str_bytes(table),
        CommandModel::GetTables {} => seq![5u8],
    }
}

/// A command can be encoded: all strings fit their 16-bit length prefix and
/// all item counts fit their 8-bit count prefix.
pub open spec fn command_fits(c: CommandModel) -> bool {
    match c {
        CommandModel::CreateTable { table, columns } => str_fits(table) && columns.len() <= 255
            && forall|i: int| 0 <= i < columns.len() ==> str_fits(#[trigger] columns[i].0),
        CommandModel::InsertRow { table, values } => str_fits(table) && values.len() <= 255
            && forall|i: int| 0 <= i < values.len() ==> value_fits(#[trigger] values[i]),
        CommandModel::UpdateRow { table, row_id, updates } => str_fits(table) && updates.len()
            <= 255 && forall|i: int|
            0 <= i < updates.len() ==> str_fits(#[trigger] updates[i].0) && value_fits(
                updates[i].1,
            ),
        CommandModel::SelectAll { table } => str_fits(table),
        CommandModel::GetTables {} => true,
    }
}

pub open spec fn names_bytes(names: Seq<Seq<char>>) -> Seq<u8>
    decreases names.len(),
{
    if names.len() == 0 {
        Seq::empty()
    } else {
        str_bytes(names[0]) + names_bytes(names.drop_first())
    }
}

/// A row on the wire: its id followed by one tagged value per column.
pub open spec fn row_bytes(row: RowModel) -> Seq<u8> {
    be_bytes(row.0 as int, 8) + values_bytes(row.1)
}

pub open spec fn rows_bytes(rows: Seq<RowModel>) -> Seq<u8>
    decreases rows.len(),
{
    if rows.len() == 0 {
        Seq::empty()
    } else {
        row_bytes(rows[0]) + rows_bytes(rows.drop_first())
    }
}

/// The result frame of a success: the status byte alone for a bare
/// acknowledgement, else the status byte, the column names and the rows.
pub open spec fn result_bytes(r: ResultModel) -> Seq<u8> {
    match r {
        ResultModel::Done => seq![0u8],
        ResultModel::Rows { columns, rows } => seq![0u8, columns.len() as u8] + names_bytes(
            columns,
        ) + be_bytes(rows.len() as int, 4) + rows_bytes(rows),
    }
}

/// A result can be encoded: counts fit their prefixes, strings fit theirs,
/// and every row has exactly one value per column (the wire carries no
/// per-row count, so a decoder reads one value per column).
pub open spec fn result_fits(r: ResultModel) -> bool {
    match r {
        ResultModel::Done => true,
        ResultModel::Rows { columns, rows } => {
            &&& columns.len() <= 255
            &&& forall|i: int| 0 <= i < columns.len() ==> str_fits(#[trigger] columns[i])
            &&& rows.len() <= 0xFFFF_FFFF
            &&& forall|i: int|
                0 <= i < rows.len() ==> (#[trigger] rows[i]).1.len() == columns.len() && forall|
                    j: int,
                |
                    0 <= j < rows[i].1.len() ==> value_fits(#[trigger] rows[i].1[j])
        },
    }
}

/// The result frame of an error: the status byte followed by the message.
pub open spec fn error_bytes(msg: Seq<char>) -> Seq<u8> {
    seq![1u8] + str_bytes(msg)
}

/// What the store sends back for an outcome, when it fits on the wire.
pub open spec fn outcome_bytes(r: Result<ResultModel, ErrorModel>) -> Seq<u8> {
    match r {
        Result::Ok(res) => result_bytes(res),
        Result::Err(e) => error_bytes(error_message_spec(e)),
    }
}

/// Reads one byte at `i`.
pub open spec fn parse_u8_at(b: Seq<u8>, i: int) -> Option<(u8, int)> {
    if 0 <= i && i + 1 <= b.len() {
        Some((b[i], i + 1))
    } else {
        None
    }
}

/// Reads a `len`-byte big-endian integer at `i`.
pub open spec fn parse_be_at(b: Seq<u8>, i: int, len: nat) -> Option<(int, int)> {
    if 0 <= i && i + len <= b.len() {
        Some((from_be(b.subrange(i, i + len)), i + len))
    } else {
        None
    }
}

/// Reads a length-prefixed string at `i`; the bytes must be valid UTF-8.
pub open spec fn parse_str_at(b: Seq<u8>, i: int) -> Option<(Seq<char>, int)> {
    match parse_be_at(b, i, 2) {
        Some((n, j)) => if j + n <= b.len() && vstd::utf8::valid_utf8(b.subrange(j, j + n)) {
            Some((vstd::utf8::decode_utf8(b.subrange(j, j + n)), j + n))
        } else {
            None
        },
        None => None,
    }
}

/// The column type a wire tag denotes, if any.
pub open spec fn tag_type(tag: u8) -> Option<ColumnType> {
    if tag == 1 {
        Some(ColumnType::Int)
    } else if tag == 2 {
        Some(ColumnType::Text)
    } else if tag == 3 {
        Some(ColumnType::Bool)
    } else {
        None
    }
}

/// Reads a tagged value at `i`.
pub open spec fn parse_value_at(b: Seq<u8>, i: int) -> Option<(ValueModel, int)> {
    match parse_u8_at(b, i) {
        Some((tag, j)) => if tag == 1 {
            match parse_be_at(b, j, 8) {
                Some((n, k)) => Some((ValueModel::Int(u64_as_i64(n as u64)), k)),
                None => None,
            }
        } else if tag == 2 {
            match parse_str_at(b, j) {
                Some((st, k)) => Some((ValueModel::Text(st), k)),
                None => None,
            }
        } else if tag == 3 {
            match parse_u8_at(b, j) {
                Some((v, k)) => Some((ValueModel::Bool(v != 0), k)),
                None => None,
            }
        } else {
            None
        },
        None => None,
    }
}

/// Reads `n` (name, type tag) column pairs at `i`.
pub open spec fn parse_columns_at(b: Seq<u8>, i: int, n: nat) -> Option<
    (Seq<(Seq<char>, ColumnType)>, int),
>
    decreases n,
{
    if n == 0 {
        Some((Seq::empty(), i))
    } else {
        match parse_str_at(b, i) {
            Some((name, j)) => match parse_u8_at(b, j) {
                Some((tag, k)) => match tag_type(tag) {
                    Some(t) => match parse_columns_at(b, k, (n - 1) as nat) {
                        Some((rest, m)) => Some((seq![(name, t)] + rest, m)),
                        None => None,
                    },
                    None => None,
                },
                None => None,
            },
            None => None,
        }
    }
}

/// Reads `n` tagged values at `i`.
pub open spec fn parse_values_at(b: Seq<u8>, i: int, n: nat) -> Option<(Seq<ValueModel>, int)>
    decreases n,
{
    if n == 0 {
        Some((Seq::empty(), i))
    } else {
        match parse_value_at(b, i) {
            Some((v, j)) => match parse_values_at(b, j, (n - 1) as nat) {
                Some((rest, m)) => Some((seq![v] + rest, m)),
                None => None,
            },
            None => None,
        }
    }
}

/// Reads `n` (column name, value) update pairs at `i`.
pub open spec fn parse_updates_at(b: Seq<u8>, i: int, n: nat) -> Option<
    (Seq<(Seq<char>, ValueModel)>, int),
>
    decreases n,
{
    if n == 0 {
        Some((Seq::empty(), i))
    } else {
        match parse_str_at(b, i) {
            Some((name, j)) => match parse_value_at(b, j) {
                Some((v, k)) => match parse_updates_at(b, k, (n - 1) as nat) {
                    Some((rest, m)) => Some((seq![(name, v)] + rest, m)),
                    None => None,
                },
                None => None,
            },
            None => None,
        }
    }
}

/// Reads `n` length-prefixed column names at `i`.
pub open spec fn parse_names_at(b: Seq<u8>, i: int, n: nat) -> Option<(Seq<Seq<char>>, int)>
    decreases n,
{
    if n == 0 {
        Some((Seq::empty(), i))
    } else {
        match parse_str_at(b, i) {
            Some((name, j)) => match parse_names_at(b, j, (n - 1) as nat) {
                Some((rest, m)) => Some((seq![name] + rest, m)),
                None => None,
            },
            None => None,
        }
    }
}

/// Reads `n` rows of `cols` values each at `i`.
pub open spec fn parse_rows_at(b: Seq<u8>, i: int, n: nat, cols: nat) -> Option<
    (Seq<RowModel>, int),
>
    decreases n,
{
    if n == 0 {
        Some((Seq::empty(), i))
    } else {
        match parse_be_at(b, i, 8) {
            Some((id, j)) => match parse_values_at(b, j, cols) {
                Some((vs, k)) => match parse_rows_at(b, k, (n - 1) as nat, cols) {
                    Some((rest, m)) => Some((seq![(id as u64, vs)] + rest, m)),
                    None => None,
                },
                None => None,
            },
            None => None,
        }
    }
}

/// What a command frame denotes, if it is well formed. Trailing bytes are
/// tolerated; missing bytes, an unknown opcode, an unknown type tag or
/// invalid UTF-8 make the frame denote nothing.
pub open spec fn spec_parse_command(b: Seq<u8>) -> Option<CommandModel> {
    match parse_u8_at(b, 0) {
        Some((op, i)) => if op == 1 {
            match parse_str_at(b, i) {
                Some((table, j)) => match parse_u8_at(b, j) {
                    Some((cnt, k)) => match parse_columns_at(b, k, cnt as nat) {
                        Some((cols, _)) => Some(
                            CommandModel::CreateTable { table, columns: cols },
                        ),
                        None => None,
                    },
                    None => None,
                },
                None => None,
            }
        } else if op == 2 {
            match parse_str_at(b, i) {
                Some((table, j)) => match parse_u8_at(b, j) {
                    Some((cnt, k)) => match parse_values_at(b, k, cnt as nat) {
                        Some((vs, _)) => Some(CommandModel::InsertRow { table, values: vs }),
                        None => None,
                    },
                    None => None,
                },
                None => None,
            }
        } else if op == 3 {
            match parse_str_at(b, i) {
                Some((table, j)) => match parse_be_at(b, j, 8) {
                    Some((id, k)) => match parse_u8_at(b, k) {
                        Some((cnt, m)) => match parse_updates_at(b, m, cnt as nat) {
                            Some((us, _)) => Some(
                                CommandModel::UpdateRow {
                                    table,
                                    row_id: id as u64,
                                    updates: us,
                                },
                            ),
                            None => None,
                        },
                        None => None,
                    },
                    None => None,
                },
                None => None,
            }
        } else if op == 4 {
            match parse_str_at(b, i) {
                Some((table, _)) => Some(CommandModel::SelectAll { table }),
                None => None,
            }
        } else if op == 5 {
            Some(CommandModel::GetTables {})
        } else {
            None
        },
        None => None,
    }
}

/// What a result frame denotes: a success (a bare acknowledgement when the
/// frame is a single status byte, else a row set) or an error message.
pub open spec fn spec_parse_response(b: Seq<u8>) -> Option<Result<ResultModel, Seq<char>>> {
    match parse_u8_at(b, 0) {
        Some((status, i)) => if status == 0 {
            if b.len() == 1 {
                Some(Result::Ok(ResultModel::Done))
            } else {
                match parse_u8_at(b, i) {
                    Some((cc, j)) => match parse_names_at(b, j, cc as nat) {
                        Some((names, k)) => match parse_be_at(b, k, 4) {
                            Some((rc, m)) => match parse_rows_at(b, m, rc as nat, cc as nat) {
                                Some((rows, _)) => Some(
                                    Result::Ok(ResultModel::Rows { columns: names, rows }),
                                ),
                                None => None,
                            },
                            None => None,
                        },
                        None => None,
                    },
                    None => None,
                }
            }
        } else if status == 1 {
            match parse_str_at(b, i) {
                Some((msg, _)) => Some(Result::Err(msg)),
                None => None,
            }
        } else {
            None
        },
        None => None,
    }
}

} // verus!
