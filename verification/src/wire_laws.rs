//! Round-trip laws of the wire protocol: a frame encoded from any command,
//! result or error that fits on the wire parses back to exactly that value.

use vstd::prelude::*;
use vstd::utf8::{encode_utf8, encode_utf8_decode_utf8, encode_utf8_valid_utf8};
use crate::db_types::{ColumnType, ValueModel};
use crate::commands::{CommandModel, ResultModel, RowModel};
use crate::wire::{
    be_bytes, columns_bytes, command_bytes, command_fits, error_bytes, i64_as_u64,
    lemma_be_bytes_len, lemma_from_be_bytes, lemma_i64_u64_round_trip, names_bytes,
    parse_be_at, parse_columns_at, parse_names_at, parse_rows_at, parse_str_at,
    parse_updates_at, parse_value_at, parse_values_at, pow256, result_bytes, result_fits,
    row_bytes, rows_bytes, spec_parse_command, spec_parse_response, str_bytes, str_fits,
    tag_type, type_tag, updates_bytes, value_bytes, value_fits, values_bytes,
};

verus! {

/// A subrange that equals a concatenation splits into the two parts.
proof fn lemma_split_seg(b: Seq<u8>, i: int, x: Seq<u8>, y: Seq<u8>)
    requires
        0 <= i,
        i + x.len() + y.len() <= b.len(),
        b.subrange(i, i + x.len() + y.len()) == x + y,
    ensures
        b.subrange(i, i + x.len()) == x,
        b.subrange(i + x.len(), i + x.len() + y.len()) == y,
{
    let all = b.subrange(i, i + x.len() + y.len());
    assert forall|k: int| 0 <= k < x.len() implies b[i + k] == x[k] by {
        assert(all[k] == (x + y)[k]);
    }
    assert forall|k: int| 0 <= k < y.len() implies b[i + x.len() + k] == y[k] by {
        assert(all[x.len() + k] == (x + y)[x.len() + k]);
    }
    assert(b.subrange(i, i + x.len()) =~= x);
    assert(b.subrange(i + x.len(), i + x.len() + y.len()) =~= y);
}

proof fn lemma_parse_be_seg(b: Seq<u8>, i: int, n: int, len: nat)
    requires
        0 <= n < pow256(len),
        0 <= i,
        i + len <= b.len(),
        b.subrange(i, i + len) == be_bytes(n, len),
    ensures
        parse_be_at(b, i, len) == Some((n, i + len)),
{
    lemma_from_be_bytes(n, len);
}

pub proof fn lemma_str_bytes_len(s: Seq<char>)
    ensures
        str_bytes(s).len() == 2 + encode_utf8(s).len(),
{
    lemma_be_bytes_len(encode_utf8(s).len() as int, 2);
}

proof fn lemma_parse_str_seg(b: Seq<u8>, i: int, s: Seq<char>)
    requires
        str_fits(s),
        0 <= i,
        i + str_bytes(s).len() <= b.len(),
        b.subrange(i, i + str_bytes(s).len()) == str_bytes(s),
    ensures
        parse_str_at(b, i) == Some((s, i + str_bytes(s).len())),
{
    let utf8 = encode_utf8(s);
    let prefix = be_bytes(utf8.len() as int, 2);
    lemma_be_bytes_len(utf8.len() as int, 2);
    lemma_split_seg(b, i, prefix, utf8);
    assert(pow256(2) == 65536) by {
        reveal_with_fuel(pow256, 3);
    }
    lemma_parse_be_seg(b, i, utf8.len() as int, 2);
    encode_utf8_valid_utf8(s);
    encode_utf8_decode_utf8(s);
}

pub proof fn lemma_pow256_8()
    ensures
        pow256(8) == 0x1_0000_0000_0000_0000,
{
    reveal_with_fuel(pow256, 9);
}

pub proof fn lemma_pow256_4()
    ensures
        pow256(4) == 0x1_0000_0000,
{
    reveal_with_fuel(pow256, 5);
}

proof fn lemma_parse_value_seg(b: Seq<u8>, i: int, v: ValueModel)
    requires
        value_fits(v),
        0 <= i,
        i + value_bytes(v).len() <= b.len(),
        b.subrange(i, i + value_bytes(v).len()) == value_bytes(v),
    ensures
        parse_value_at(b, i) == Some((v, i + value_bytes(v).len())),
{
    match v {
        ValueModel::Int(n) => {
            let payload = be_bytes(i64_as_u64(n) as int, 8);
            lemma_be_bytes_len(i64_as_u64(n) as int, 8);
            lemma_split_seg(b, i, seq![1u8], payload);
            assert(b[i] == seq![1u8][0]) by {
                assert(b.subrange(i, i + 1)[0] == seq![1u8][0]);
            }
            lemma_pow256_8();
            lemma_parse_be_seg(b, i + 1, i64_as_u64(n) as int, 8);
            lemma_i64_u64_round_trip(n);
        },
        ValueModel::Text(s) => {
            lemma_str_bytes_len(s);
            lemma_split_seg(b, i, seq![2u8], str_bytes(s));
            assert(b[i] == seq![2u8][0]) by {
                assert(b.subrange(i, i + 1)[0] == seq![2u8][0]);
            }
            lemma_parse_str_seg(b, i + 1, s);
        },
        ValueModel::Bool(t) => {
            let payload = seq![if t { 1u8 } else { 0u8 }];
            assert(value_bytes(v) =~= seq![3u8] + payload);
            lemma_split_seg(b, i, seq![3u8], payload);
            assert(b[i] == seq![3u8][0]) by {
                assert(b.subrange(i, i + 1)[0] == seq![3u8][0]);
            }
            assert(b[i + 1] == payload[0]) by {
                assert(b.subrange(i + 1, i + 2)[0] == payload[0]);
            }
        },
    }
}

proof fn lemma_parse_columns_seg(b: Seq<u8>, i: int, cols: Seq<(Seq<char>, ColumnType)>)
    requires
        forall|k: int| 0 <= k < cols.len() ==> str_fits(#[trigger] cols[k].0),
        0 <= i,
        i + columns_bytes(cols).len() <= b.len(),
        b.subrange(i, i + columns_bytes(cols).len()) == columns_bytes(cols),
    ensures
        parse_columns_at(b, i, cols.len() as nat) == Some((cols, i + columns_bytes(cols).len())),
    decreases cols.len(),
{
    if cols.len() == 0 {
    } else {
        let name = cols[0].0;
        let t = cols[0].1;
        let head = str_bytes(name) + seq![type_tag(t)];
        let tail = columns_bytes(cols.drop_first());
        assert(columns_bytes(cols) =~= head + tail);
        lemma_split_seg(b, i, head, tail);
        lemma_split_seg(b, i, str_bytes(name), seq![type_tag(t)]);
        lemma_parse_str_seg(b, i, name);
        let jt = i + str_bytes(name).len();
        assert(b[jt] == type_tag(t)) by {
            assert(b.subrange(jt, jt + 1)[0] == seq![type_tag(t)][0]);
        }
        assert(tag_type(type_tag(t)) == Some(t));
        assert forall|m: int| 0 <= m < cols.drop_first().len() implies str_fits(
            #[trigger] cols.drop_first()[m].0,
        ) by {
            assert(cols.drop_first()[m] == cols[m + 1]);
        }
        lemma_parse_columns_seg(b, i + head.len(), cols.drop_first());
        assert(seq![(name, t)] + cols.drop_first() =~= cols);
    }
}

proof fn lemma_parse_values_seg(b: Seq<u8>, i: int, vs: Seq<ValueModel>)
    requires
        forall|k: int| 0 <= k < vs.len() ==> value_fits(#[trigger] vs[k]),
        0 <= i,
        i + values_bytes(vs).len() <= b.len(),
        b.subrange(i, i + values_bytes(vs).len()) == values_bytes(vs),
    ensures
        parse_values_at(b, i, vs.len() as nat) == Some((vs, i + values_bytes(vs).len())),
    decreases vs.len(),
{
    if vs.len() == 0 {
    } else {
        let head = value_bytes(vs[0]);
        let tail = values_bytes(vs.drop_first());
        lemma_split_seg(b, i, head, tail);
        lemma_parse_value_seg(b, i, vs[0]);
        assert forall|m: int| 0 <= m < vs.drop_first().len() implies value_fits(
            #[trigger] vs.drop_first()[m],
        ) by {
            assert(vs.drop_first()[m] == vs[m + 1]);
        }
        lemma_parse_values_seg(b, i + head.len(), vs.drop_first());
        assert(seq![vs[0]] + vs.drop_first() =~= vs);
    }
}

proof fn lemma_parse_updates_seg(b: Seq<u8>, i: int, us: Seq<(Seq<char>, ValueModel)>)
    requires
        forall|k: int|
            0 <= k < us.len() ==> str_fits(#[trigger] us[k].0) && value_fits(us[k].1),
        0 <= i,
        i + updates_bytes(us).len() <= b.len(),
        b.subrange(i, i + updates_bytes(us).len()) == updates_bytes(us),
    ensures
        parse_updates_at(b, i, us.len() as nat) == Some((us, i + updates_bytes(us).len())),
    decreases us.len(),
{
    if us.len() == 0 {
    } else {
        let head = str_bytes(us[0].0) + value_bytes(us[0].1);
        let tail = updates_bytes(us.drop_first());
        assert(updates_bytes(us) =~= head + tail);
        lemma_split_seg(b, i, head, tail);
        lemma_split_seg(b, i, str_bytes(us[0].0), value_bytes(us[0].1));
        lemma_parse_str_seg(b, i, us[0].0);
        lemma_parse_value_seg(b, i + str_bytes(us[0].0).len(), us[0].1);
        assert forall|m: int| 0 <= m < us.drop_first().len() implies str_fits(
            #[trigger] us.drop_first()[m].0,
        ) && value_fits(us.drop_first()[m].1) by {
            assert(us.drop_first()[m] == us[m + 1]);
        }
        lemma_parse_updates_seg(b, i + head.len(), us.drop_first());
        assert(seq![us[0]] + us.drop_first() =~= us);
        assert(seq![(us[0].0, us[0].1)] =~= seq![us[0]]);
    }
}

proof fn lemma_parse_names_seg(b: Seq<u8>, i: int, ns: Seq<Seq<char>>)
    requires
        forall|k: int| 0 <= k < ns.len() ==> str_fits(#[trigger] ns[k]),
        0 <= i,
        i + names_bytes(ns).len() <= b.len(),
        b.subrange(i, i + names_bytes(ns).len()) == names_bytes(ns),
    ensures
        parse_names_at(b, i, ns.len() as nat) == Some((ns, i + names_bytes(ns).len())),
    decreases ns.len(),
{
    if ns.len() == 0 {
    } else {
        let head = str_bytes(ns[0]);
        let tail = names_bytes(ns.drop_first());
        lemma_split_seg(b, i, head, tail);
        lemma_parse_str_seg(b, i, ns[0]);
        assert forall|m: int| 0 <= m < ns.drop_first().len() implies str_fits(
            #[trigger] ns.drop_first()[m],
        ) by {
            assert(ns.drop_first()[m] == ns[m + 1]);
        }
        lemma_parse_names_seg(b, i + head.len(), ns.drop_first());
        assert(seq![ns[0]] + ns.drop_first() =~= ns);
    }
}

proof fn lemma_parse_rows_seg(b: Seq<u8>, i: int, rows: Seq<RowModel>, cols: nat)
    requires
        forall|k: int|
            0 <= k < rows.len() ==> (#[trigger] rows[k]).1.len() == cols && forall|j: int|
                0 <= j < rows[k].1.len() ==> value_fits(#[trigger] rows[k].1[j]),
        0 <= i,
        i + rows_bytes(rows).len() <= b.len(),
        b.subrange(i, i + rows_bytes(rows).len()) == rows_bytes(rows),
    ensures
        parse_rows_at(b, i, rows.len() as nat, cols) == Some(
            (rows, i + rows_bytes(rows).len()),
        ),
    decreases rows.len(),
{
    if rows.len() == 0 {
    } else {
        let id = rows[0].0;
        let vs = rows[0].1;
        let head = row_bytes(rows[0]);
        let tail = rows_bytes(rows.drop_first());
        lemma_split_seg(b, i, head, tail);
        lemma_split_seg(b, i, be_bytes(id as int, 8), values_bytes(vs));
        lemma_be_bytes_len(id as int, 8);
        lemma_pow256_8();
        lemma_parse_be_seg(b, i, id as int, 8);
        lemma_parse_values_seg(b, i + 8, vs);
        assert forall|m: int| 0 <= m < rows.drop_first().len() implies (#[trigger] rows.drop_first()[m]).1.len()
            == cols && forall|j: int|
            0 <= j < rows.drop_first()[m].1.len() ==> value_fits(
                #[trigger] rows.drop_first()[m].1[j],
            ) by {
            assert(rows.drop_first()[m] == rows[m + 1]);
        }
        lemma_parse_rows_seg(b, i + head.len(), rows.drop_first(), cols);
        assert(seq![(id, vs)] + rows.drop_first() =~= rows);
    }
}

/// Round trip for commands: any command that fits on the wire decodes from
/// its own encoding back to itself.
pub proof fn lemma_command_round_trip(c: CommandModel)
    requires
        command_fits(c),
    ensures
        spec_parse_command(command_bytes(c)) == Some(c),
{
    let b = command_bytes(c);
    assert(b.subrange(0, b.len() as int) =~= b);
    match c {
        CommandModel::CreateTable { table, columns } => {
            let head = seq![1u8] + str_bytes(table) + seq![columns.len() as u8];
            let tail = columns_bytes(columns);
            assert(b =~= head + tail);
            lemma_split_seg(b, 0, head, tail);
            assert(head =~= seq![1u8] + (str_bytes(table) + seq![columns.len() as u8]));
            lemma_split_seg(b, 0, seq![1u8], str_bytes(table) + seq![columns.len() as u8]);
            assert(b[0] == 1u8) by {
                assert(b.subrange(0, 1)[0] == seq![1u8][0]);
            }
            lemma_split_seg(b, 1, str_bytes(table), seq![columns.len() as u8]);
            lemma_parse_str_seg(b, 1, table);
            let jc: int = 1int + str_bytes(table).len();
            assert(b[jc] == columns.len() as u8) by {
                assert(b.subrange(jc, jc + 1)[0] == seq![columns.len() as u8][0]);
            }
            lemma_parse_columns_seg(b, jc + 1, columns);
        },
        CommandModel::InsertRow { table, values } => {
            let head = seq![2u8] + str_bytes(table) + seq![values.len() as u8];
            let tail = values_bytes(values);
            assert(b =~= head + tail);
            lemma_split_seg(b, 0, head, tail);
            assert(head =~= seq![2u8] + (str_bytes(table) + seq![values.len() as u8]));
            lemma_split_seg(b, 0, seq![2u8], str_bytes(table) + seq![values.len() as u8]);
            assert(b[0] == 2u8) by {
                assert(b.subrange(0, 1)[0] == seq![2u8][0]);
            }
            lemma_split_seg(b, 1, str_bytes(table), seq![values.len() as u8]);
            lemma_parse_str_seg(b, 1, table);
            let jc: int = 1int + str_bytes(table).len();
            assert(b[jc] == values.len() as u8) by {
                assert(b.subrange(jc, jc + 1)[0] == seq![values.len() as u8][0]);
            }
            lemma_parse_values_seg(b, jc + 1, values);
        },
        CommandModel::UpdateRow { table, row_id, updates } => {
            let head = seq![3u8] + str_bytes(table) + be_bytes(row_id as int, 8) + seq![
                updates.len() as u8,
            ];
            let tail = updates_bytes(updates);
            lemma_be_bytes_len(row_id as int, 8);
            assert(b =~= head + tail);
            lemma_split_seg(b, 0, head, tail);
            assert(head =~= seq![3u8] + (str_bytes(table) + be_bytes(row_id as int, 8) + seq![
                updates.len() as u8,
            ]));
            lemma_split_seg(
                b,
                0,
                seq![3u8],
                str_bytes(table) + be_bytes(row_id as int, 8) + seq![updates.len() as u8],
            );
            assert(b[0] == 3u8) by {
                assert(b.subrange(0, 1)[0] == seq![3u8][0]);
            }
            assert(str_bytes(table) + be_bytes(row_id as int, 8) + seq![updates.len() as u8]
                =~= str_bytes(table) + (be_bytes(row_id as int, 8) + seq![updates.len() as u8]));
            lemma_split_seg(
                b,
                1,
                str_bytes(table),
                be_bytes(row_id as int, 8) + seq![updates.len() as u8],
            );
            lemma_parse_str_seg(b, 1, table);
            let ji: int = 1int + str_bytes(table).len();
            lemma_split_seg(b, ji, be_bytes(row_id as int, 8), seq![updates.len() as u8]);
            lemma_pow256_8();
            lemma_parse_be_seg(b, ji, row_id as int, 8);
            let jc = ji + 8;
            assert(b[jc] == updates.len() as u8) by {
                assert(b.subrange(jc, jc + 1)[0] == seq![updates.len() as u8][0]);
            }
            lemma_parse_updates_seg(b, jc + 1, updates);
        },
        CommandModel::SelectAll { table } => {
            lemma_split_seg(b, 0, seq![4u8], str_bytes(table));
            assert(b[0] == 4u8) by {
                assert(b.subrange(0, 1)[0] == seq![4u8][0]);
            }
            lemma_parse_str_seg(b, 1, table);
        },
        CommandModel::GetTables {} => {
            assert(b[0] == 5u8) by {
                assert(b.subrange(0, 1)[0] == seq![5u8][0]);
            }
        },
    }
}

/// Round trip for successful results: any result that fits on the wire
/// decodes from its own encoding back to itself.
pub proof fn lemma_result_round_trip(r: ResultModel)
    requires
        result_fits(r),
    ensures
        spec_parse_response(result_bytes(r)) == Some(Result::<ResultModel, Seq<char>>::Ok(r)),
{
    let b = result_bytes(r);
    assert(b.subrange(0, b.len() as int) =~= b);
    match r {
        ResultModel::Done => {
            assert(b[0] == 0u8);
            assert(b.len() == 1);
        },
        ResultModel::Rows { columns, rows } => {
            let head = seq![0u8, columns.len() as u8];
            let mid = names_bytes(columns);
            let cnt = be_bytes(rows.len() as int, 4);
            let tail = rows_bytes(rows);
            lemma_be_bytes_len(rows.len() as int, 4);
            assert(b =~= head + (mid + (cnt + tail)));
            lemma_split_seg(b, 0, head, mid + (cnt + tail));
            assert(b[0] == 0u8) by {
                assert(b.subrange(0, 2)[0] == head[0]);
            }
            assert(b[1] == columns.len() as u8) by {
                assert(b.subrange(0, 2)[1] == head[1]);
            }
            assert(b.len() >= 2);
            lemma_split_seg(b, 2, mid, cnt + tail);
            lemma_parse_names_seg(b, 2, columns);
            let jr: int = 2int + mid.len();
            lemma_split_seg(b, jr, cnt, tail);
            lemma_pow256_4();
            lemma_parse_be_seg(b, jr, rows.len() as int, 4);
            lemma_parse_rows_seg(b, jr + 4, rows, columns.len() as nat);
        },
    }
}

/// Round trip for error results: an error frame decodes back to its message.
pub proof fn lemma_error_round_trip(msg: Seq<char>)
    requires
        str_fits(msg),
    ensures
        spec_parse_response(error_bytes(msg)) == Some(Result::<ResultModel, Seq<char>>::Err(msg)),
{
    let b = error_bytes(msg);
    assert(b.subrange(0, b.len() as int) =~= b);
    lemma_split_seg(b, 0, seq![1u8], str_bytes(msg));
    assert(b[0] == 1u8) by {
        assert(b.subrange(0, 1)[0] == seq![1u8][0]);
    }
    lemma_parse_str_seg(b, 1, msg);
}

} // verus!
