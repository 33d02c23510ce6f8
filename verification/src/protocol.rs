//! The executable wire codec, verified against the byte-level model in
//! [`crate::wire`].

use vstd::prelude::*;
use vstd::utf8::{decode_utf8, valid_utf8};
use vstd::slice::slice_subrange;
use crate::db_types::{ColumnType, Value};
use crate::commands::{DbCommand, DbResult, ProtocolError};
use crate::wire::{
    be_bytes, from_be, i64_as_u64, lemma_be_bytes_len, parse_be_at, parse_str_at, parse_u8_at,
    parse_value_at, pow256, spec_parse_command, str_bytes, str_fits, tag_type, u64_as_i64,
    value_bytes, value_fits,
};

verus! {

/// Relies on `String::from_utf8`: it returns the decoded characters exactly
/// when the bytes are valid UTF-8, and rejects them otherwise.
#[verifier::external_body]
fn bytes_to_string(v: Vec<u8>) -> (r: Option<String>)
    ensures
        r is Some <==> valid_utf8(v@),
        r matches Some(s) ==> s@ == decode_utf8(v@),
{
    match String::from_utf8(v) {
        Ok(s) => Some(s),
        Err(_) => None,
    }
}

impl ProtocolError {
    /// A decode failure with its human-readable cause.
    fn new(msg: &str) -> (r: Self) {
        ProtocolError { msg: String::from_str(msg) }
    }
}

/// A position in a byte buffer being decoded; every read checks the
/// remaining length first, so decoding never reads out of bounds.
pub struct Cursor<'a> {
    buf: &'a [u8],
    pos: usize,
}

impl<'a> Cursor<'a> {
    /// The bytes being decoded.
    pub closed spec fn bytes(&self) -> Seq<u8> {
        self.buf@
    }

    /// The read position.
    pub closed spec fn at(&self) -> int {
        self.pos as int
    }

    /// The position never runs past the buffer.
    pub closed spec fn wf(&self) -> bool {
        self.pos <= self.buf@.len()
    }

    /// A cursor at the start of a buffer.
    pub fn new(buf: &'a [u8]) -> (c: Self)
        ensures
            c.bytes() == buf@,
            c.at() == 0,
            c.wf(),
    {
        Cursor { buf, pos: 0 }
    }

    /// Takes the next `n` bytes, or fails if fewer remain.
    fn take(&mut self, n: usize) -> (r: Result<&'a [u8], ProtocolError>)
        requires
            old(self).wf(),
        ensures
            final(self).bytes() == old(self).bytes(),
            final(self).wf(),
            match r {
                Result::Ok(slice) => {
                    &&& old(self).at() + n <= old(self).bytes().len()
                    &&& final(self).at() == old(self).at() + n
                    &&& slice@ == old(self).bytes().subrange(old(self).at(), old(self).at() + n)
                },
                Result::Err(_) => {
                    &&& old(self).at() + n > old(self).bytes().len()
                    &&& *final(self) == *old(self)
                },
            },
    {
        if n > self.buf.len() - self.pos {
            return Result::Err(ProtocolError::new("Unexpected end of buffer"));
        }
        let slice = slice_subrange(self.buf, self.pos, self.pos + n);
        self.pos = self.pos + n;
        Result::Ok(slice)
    }

    /// Reads one byte.
    fn read_u8(&mut self) -> (r: Result<u8, ProtocolError>)
        requires
            old(self).wf(),
        ensures
            final(self).bytes() == old(self).bytes(),
            final(self).wf(),
            match r {
                Result::Ok(v) => parse_u8_at(old(self).bytes(), old(self).at()) == Some(
                    (v, final(self).at()),
                ),
                Result::Err(_) => {
                    &&& parse_u8_at(old(self).bytes(), old(self).at()) is None
                    &&& *final(self) == *old(self)
                },
            },
    {
        let slice = self.take(1)?;
        Result::Ok(slice[0])
    }

    /// Reads an `n`-byte big-endian unsigned integer, `n` at most eight.
    fn read_be(&mut self, n: usize) -> (r: Result<u64, ProtocolError>)
        requires
            old(self).wf(),
            1 <= n <= 8,
        ensures
            final(self).bytes() == old(self).bytes(),
            final(self).wf(),
            match r {
                Result::Ok(v) => parse_be_at(old(self).bytes(), old(self).at(), n as nat) == Some(
                    (v as int, final(self).at()),
                ) && v < pow256(n as nat),
                Result::Err(_) => {
                    &&& parse_be_at(old(self).bytes(), old(self).at(), n as nat) is None
                    &&& *final(self) == *old(self)
                },
            },
    {
        let slice = self.take(n)?;
        let ghost seg = slice@;
        let mut acc: u64 = 0;
        let mut i: usize = 0;
        proof {
            assert(seg.subrange(0, 0) =~= Seq::<u8>::empty());
            crate::wire_laws::lemma_pow256_8();
        }
        while i < n
            invariant
                i <= n <= 8,
                slice@ == seg,
                seg.len() == n,
                acc == from_be(seg.subrange(0, i as int)),
                acc < pow256(i as nat),
                pow256(8) == 0x1_0000_0000_0000_0000,
            decreases n - i,
        {
            proof {
                lemma_pow256_le(i as nat, 7);
                assert(pow256(7) * 256 == pow256(8)) by {
                    reveal_with_fuel(pow256, 9);
                }
                assert(acc * 256 + 256 <= pow256(7) * 256) by (nonlinear_arith)
                    requires acc < pow256(7), acc >= 0;
            }
            acc = acc * 256 + slice[i] as u64;
            proof {
                assert(seg.subrange(0, i + 1).drop_last() =~= seg.subrange(0, i as int));
                assert(seg.subrange(0, i + 1).last() == seg[i as int]);
                lemma_pow256_mono(i as nat);
            }
            i += 1;
        }
        proof {
            assert(seg.subrange(0, n as int) =~= seg);
        }
        Result::Ok(acc)
    }

    /// Reads a length-prefixed UTF-8 string.
    fn read_string(&mut self) -> (r: Result<String, ProtocolError>)
        requires
            old(self).wf(),
        ensures
            final(self).bytes() == old(self).bytes(),
            final(self).wf(),
            match r {
                Result::Ok(s) => parse_str_at(old(self).bytes(), old(self).at()) == Some(
                    (s@, final(self).at()),
                ),
                Result::Err(_) => parse_str_at(old(self).bytes(), old(self).at()) is None,
            },
    {
        let len = self.read_be(2)?;
        proof {
            assert(pow256(2) == 65536) by {
                reveal_with_fuel(pow256, 3);
            }
        }
        let slice = match self.take(len as usize) {
            Result::Ok(s) => s,
            Result::Err(e) => {
                return Result::Err(e);
            },
        };
        let mut bytes: Vec<u8> = Vec::new();
        bytes.extend_from_slice(slice);
        proof {
            assert(bytes@ =~= slice@);
        }
        match bytes_to_string(bytes) {
            Some(s) => Result::Ok(s),
            None => Result::Err(ProtocolError::new("Invalid UTF-8 in string")),
        }
    }
}

/// A power of 256 divides into a larger one.
proof fn lemma_pow256_le(a: nat, b: nat)
    requires
        a <= b,
    ensures
        pow256(a) <= pow256(b),
    decreases b,
{
    if a < b {
        lemma_pow256_le(a, (b - 1) as nat);
        crate::wire::lemma_pow256_pos((b - 1) as nat);
    }
}

/// Powers of 256 grow.
proof fn lemma_pow256_mono(a: nat)
    ensures
        pow256(a) * 256 == pow256((a + 1) as nat),
{
}

/// The signed 64-bit integer with the same bytes as the given unsigned one.
fn u64_to_i64(n: u64) -> (r: i64)
    ensures
        r == u64_as_i64(n),
{
    if n < 0x8000_0000_0000_0000 {
        n as i64
    } else {
        let m = u64::MAX - n;
        -(m as i64) - 1
    }
}

/// The unsigned 64-bit integer with the same bytes as the given signed one.
fn i64_to_u64(v: i64) -> (r: u64)
    ensures
        r == i64_as_u64(v),
{
    if v >= 0 {
        v as u64
    } else {
        let m = -(v + 1);
        u64::MAX - (m as u64)
    }
}

/// Reads one tagged value.
fn parse_value(c: &mut Cursor) -> (r: Result<Value, ProtocolError>)
    requires
        old(c).wf(),
    ensures
        final(c).bytes() == old(c).bytes(),
        final(c).wf(),
        match r {
            Result::Ok(v) => parse_value_at(old(c).bytes(), old(c).at()) == Some(
                (v@, final(c).at()),
            ),
            Result::Err(_) => parse_value_at(old(c).bytes(), old(c).at()) is None,
        },
{
    let tag = c.read_u8()?;
    if tag == 1 {
        let n = c.read_be(8)?;
        Result::Ok(Value::Int(u64_to_i64(n)))
    } else if tag == 2 {
        let st = c.read_string()?;
        Result::Ok(Value::Text(st))
    } else if tag == 3 {
        let b = c.read_u8()?;
        Result::Ok(Value::Bool(b != 0))
    } else {
        Result::Err(ProtocolError::new("Unknown value type"))
    }
}

/// Reads `n` tagged values.
#[verifier::loop_isolation(false)]
fn parse_values(c: &mut Cursor, n: usize) -> (r: Result<Vec<Value>, ProtocolError>)
    requires
        old(c).wf(),
    ensures
        final(c).bytes() == old(c).bytes(),
        final(c).wf(),
        match r {
            Result::Ok(vs) => crate::wire::parse_values_at(
                old(c).bytes(),
                old(c).at(),
                n as nat,
            ) == Some((crate::commands::values_model(vs@), final(c).at())) && vs@.len() == n,
            Result::Err(_) => crate::wire::parse_values_at(
                old(c).bytes(),
                old(c).at(),
                n as nat,
            ) is None,
        },
{
    let ghost b = c.bytes();
    let ghost start = c.at();
    let mut vs: Vec<Value> = Vec::new();
    let mut k: usize = 0;
    proof {
        assert(crate::commands::values_model(vs@) =~= Seq::<crate::db_types::ValueModel>::empty());
    }
    while k < n
        invariant
            k <= n,
            c.wf(),
            c.bytes() == b,
            vs@.len() == k,
            match crate::wire::parse_values_at(b, c.at(), (n - k) as nat) {
                Some(pair) => crate::wire::parse_values_at(b, start, n as nat) == Some(
                    (crate::commands::values_model(vs@) + pair.0, pair.1),
                ),
                None => crate::wire::parse_values_at(b, start, n as nat) is None,
            },
        decreases n - k,
    {
        let v = match parse_value(c) {
            Result::Ok(v) => v,
            Result::Err(e) => {
                return Result::Err(e);
            },
        };
        let ghost prev = vs@;
        vs.push(v);
        proof {
            let vm_prev = crate::commands::values_model(prev);
            assert(crate::commands::values_model(vs@) =~= vm_prev + seq![v@]);
            match crate::wire::parse_values_at(b, c.at(), (n - k - 1) as nat) {
                Some(pair2) => {
                    assert(vm_prev + (seq![v@] + pair2.0) =~= (vm_prev + seq![v@]) + pair2.0);
                },
                None => {},
            }
        }
        k += 1;
    }
    proof {
        assert(crate::commands::values_model(vs@) + Seq::<crate::db_types::ValueModel>::empty()
            =~= crate::commands::values_model(vs@));
    }
    Result::Ok(vs)
}

/// Decodes one command frame: an opcode byte, then the opcode's payload.
/// Fails on a truncated buffer, an unknown opcode, an unknown type tag or
/// invalid UTF-8; trailing bytes are tolerated.
#[verifier::loop_isolation(false)]
#[verifier::rlimit(60)]
pub fn parse_command(buf: &[u8]) -> (r: Result<DbCommand, ProtocolError>)
    ensures
        match r {
            Result::Ok(cmd) => spec_parse_command(buf@) == Some(cmd@),
            Result::Err(_) => spec_parse_command(buf@) is None,
        },
{
    let ghost b = buf@;
    let mut c = Cursor::new(buf);
    let opcode = c.read_u8()?;
    if opcode == 1 {
        let table = c.read_string()?;
        let count = c.read_u8()?;
        let n = count as usize;
        let ghost start = c.at();
        let mut columns: Vec<(String, ColumnType)> = Vec::new();
        let mut k: usize = 0;
        proof {
            assert(crate::commands::columns_model(columns@) =~= Seq::<
                (Seq<char>, ColumnType),
            >::empty());
        }
        while k < n
            invariant
                k <= n,
                c.wf(),
                c.bytes() == b,
                columns@.len() == k,
                match crate::wire::parse_columns_at(b, c.at(), (n - k) as nat) {
                    Some(pair) => crate::wire::parse_columns_at(b, start, n as nat) == Some(
                        (crate::commands::columns_model(columns@) + pair.0, pair.1),
                    ),
                    None => crate::wire::parse_columns_at(b, start, n as nat) is None,
                },
            decreases n - k,
        {
            let name = match c.read_string() {
                Result::Ok(s) => s,
                Result::Err(e) => {
                    return Result::Err(e);
                },
            };
            let tag = match c.read_u8() {
                Result::Ok(t) => t,
                Result::Err(e) => {
                    return Result::Err(e);
                },
            };
            let ty = if tag == 1 {
                ColumnType::Int
            } else if tag == 2 {
                ColumnType::Text
            } else if tag == 3 {
                ColumnType::Bool
            } else {
                return Result::Err(ProtocolError::new("Unknown column type"));
            };
            proof {
                assert(tag_type(tag) == Some(ty));
            }
            let ghost prev = columns@;
            columns.push((name, ty));
            proof {
                let cm_prev = crate::commands::columns_model(prev);
                assert(crate::commands::columns_model(columns@) =~= cm_prev + seq![
                    (columns@[k as int].0@, ty),
                ]);
                match crate::wire::parse_columns_at(b, c.at(), (n - k - 1) as nat) {
                    Some(pair2) => {
                        assert(cm_prev + (seq![(columns@[k as int].0@, ty)] + pair2.0) =~= (cm_prev
                            + seq![(columns@[k as int].0@, ty)]) + pair2.0);
                    },
                    None => {},
                }
            }
            k += 1;
        }
        proof {
            assert(crate::commands::columns_model(columns@) + Seq::<
                (Seq<char>, ColumnType),
            >::empty() =~= crate::commands::columns_model(columns@));
        }
        Result::Ok(DbCommand::CreateTable { table, columns })
    } else if opcode == 2 {
        let table = c.read_string()?;
        let count = c.read_u8()?;
        let values = parse_values(&mut c, count as usize)?;
        Result::Ok(DbCommand::InsertRow { table, values })
    } else if opcode == 3 {
        let table = c.read_string()?;
        let row_id = c.read_be(8)?;
        let count = c.read_u8()?;
        let n = count as usize;
        let ghost start = c.at();
        let mut updates: Vec<(String, Value)> = Vec::new();
        let mut k: usize = 0;
        proof {
            assert(crate::commands::updates_model(updates@) =~= Seq::<
                (Seq<char>, crate::db_types::ValueModel),
            >::empty());
        }
        while k < n
            invariant
                k <= n,
                c.wf(),
                c.bytes() == b,
                updates@.len() == k,
                match crate::wire::parse_updates_at(b, c.at(), (n - k) as nat) {
                    Some(pair) => crate::wire::parse_updates_at(b, start, n as nat) == Some(
                        (crate::commands::updates_model(updates@) + pair.0, pair.1),
                    ),
                    None => crate::wire::parse_updates_at(b, start, n as nat) is None,
                },
            decreases n - k,
        {
            let name = match c.read_string() {
                Result::Ok(s) => s,
                Result::Err(e) => {
                    return Result::Err(e);
                },
            };
            let val = match parse_value(&mut c) {
                Result::Ok(v) => v,
                Result::Err(e) => {
                    return Result::Err(e);
                },
            };
            let ghost prev = updates@;
            updates.push((name, val));
            proof {
                let um_prev = crate::commands::updates_model(prev);
                let entry = (updates@[k as int].0@, updates@[k as int].1@);
                assert(crate::commands::updates_model(updates@) =~= um_prev + seq![entry]);
                match crate::wire::parse_updates_at(b, c.at(), (n - k - 1) as nat) {
                    Some(pair2) => {
                        assert(um_prev + (seq![entry] + pair2.0) =~= (um_prev + seq![entry])
                            + pair2.0);
                    },
                    None => {},
                }
            }
            k += 1;
        }
        proof {
            assert(crate::commands::updates_model(updates@) + Seq::<
                (Seq<char>, crate::db_types::ValueModel),
            >::empty() =~= crate::commands::updates_model(updates@));
        }
        Result::Ok(DbCommand::UpdateRow { table, row_id, updates })
    } else if opcode == 4 {
        let table = c.read_string()?;
        Result::Ok(DbCommand::SelectAll { table })
    } else if opcode == 5 {
        Result::Ok(DbCommand::GetTables {})
    } else {
        Result::Err(ProtocolError::new("Unknown command opcode"))
    }
}

/// Appends the `len`-byte big-endian encoding of `n`.
pub(crate) fn push_be(buf: &mut Vec<u8>, n: u64, len: usize)
    requires
        len <= 8,
    ensures
        final(buf)@ == old(buf)@ + be_bytes(n as int, len as nat),
    decreases len,
{
    if len == 0 {
        proof {
            assert(old(buf)@ + be_bytes(n as int, 0) =~= old(buf)@);
        }
        return ;
    }
    push_be(buf, n / 256, len - 1);
    buf.push((n % 256) as u8);
    proof {
        assert(old(buf)@ + be_bytes((n / 256) as int, (len - 1) as nat).push((n % 256) as u8)
            =~= (old(buf)@ + be_bytes((n / 256) as int, (len - 1) as nat)).push((n % 256) as u8));
    }
}

/// Appends a length-prefixed string, or fails if its UTF-8 byte length does
/// not fit the 16-bit prefix; on failure the buffer is unchanged.
fn write_string(buf: &mut Vec<u8>, s: &str) -> (r: Result<(), ProtocolError>)
    ensures
        match r {
            Result::Ok(_) => str_fits(s@) && final(buf)@ == old(buf)@ + str_bytes(s@),
            Result::Err(_) => !str_fits(s@) && final(buf)@ == old(buf)@,
        },
{
    let bytes = s.as_bytes();
    if bytes.len() > 65535 {
        return Result::Err(ProtocolError::new("String too long for wire format"));
    }
    push_be(buf, bytes.len() as u64, 2);
    buf.extend_from_slice(bytes);
    proof {
        assert(final(buf)@ =~= old(buf)@ + str_bytes(s@));
    }
    Result::Ok(())
}

/// Appends one tagged value, or fails if its text does not fit; on failure
/// the buffer is unchanged.
fn encode_value(buf: &mut Vec<u8>, v: &Value) -> (r: Result<(), ProtocolError>)
    ensures
        match r {
            Result::Ok(_) => value_fits(v@) && final(buf)@ == old(buf)@ + value_bytes(v@),
            Result::Err(_) => !value_fits(v@) && final(buf)@ == old(buf)@,
        },
{
    match v {
        Value::Int(n) => {
            buf.push(1);
            push_be(buf, i64_to_u64(*n), 8);
            proof {
                assert(old(buf)@.push(1u8) + be_bytes(i64_as_u64(v@->Int_0) as int, 8) =~= old(
                    buf,
                )@ + value_bytes(v@));
            }
            Result::Ok(())
        },
        Value::Text(st) => {
            let ghost b0 = buf@;
            buf.push(2);
            match write_string(buf, st.as_str()) {
                Result::Ok(_) => {
                    proof {
                        assert(b0.push(2u8) + str_bytes(st@) =~= b0 + value_bytes(v@));
                    }
                    Result::Ok(())
                },
                Result::Err(e) => {
                    let _ = buf.pop();
                    proof {
                        assert(b0.push(2u8).drop_last() =~= b0);
                    }
                    Result::Err(e)
                },
            }
        },
        Value::Bool(t) => {
            buf.push(3);
            buf.push(if *t {
                1
            } else {
                0
            });
            proof {
                assert(old(buf)@.push(3u8).push(if v@->Bool_0 { 1u8 } else { 0u8 }) =~= old(buf)@
                    + value_bytes(v@));
            }
            Result::Ok(())
        },
    }
}

/// Encodes a table-creation frame; see [`encode_command`].
#[verifier::loop_isolation(false)]
fn encode_create_table(buf: &mut Vec<u8>, table: &String, columns: &Vec<(String, ColumnType)>) -> (r:
    Result<(), ProtocolError>)
    requires
        old(buf)@.len() == 0,
    ensures
        ({
            let c = crate::commands::CommandModel::CreateTable {
                table: table@,
                columns: crate::commands::columns_model(columns@),
            };
            match r {
                Result::Ok(_) => crate::wire::command_fits(c) && final(buf)@
                    == crate::wire::command_bytes(c),
                Result::Err(_) => !crate::wire::command_fits(c),
            }
        }),
{
    let ghost cm = crate::commands::columns_model(columns@);
    if columns.len() > 255 {
        return Result::Err(ProtocolError::new("Too many columns for wire format"));
    }
    buf.push(1);
    write_string(buf, table.as_str())?;
    buf.push(columns.len() as u8);
    let ghost head = buf@;
    let mut k: usize = 0;
    proof {
        assert(cm.skip(0) =~= cm);
    }
    while k < columns.len()
        invariant
            k <= columns.len(),
            buf@ + crate::wire::columns_bytes(cm.skip(k as int)) == head
                + crate::wire::columns_bytes(cm),
            forall|j: int| 0 <= j < k ==> str_fits((#[trigger] cm[j]).0),
        decreases columns.len() - k,
    {
        proof {
            assert(cm[k as int] == (columns@[k as int].0@, columns@[k as int].1));
            assert(cm.skip(k as int)[0] == cm[k as int]);
            assert(cm.skip(k as int).drop_first() =~= cm.skip(k as int + 1));
        }
        let ghost b0 = buf@;
        match write_string(buf, columns[k].0.as_str()) {
            Result::Ok(_) => {},
            Result::Err(e) => {
                return Result::Err(e);
            },
        };
        let tag: u8 = match columns[k].1 {
            ColumnType::Int => 1,
            ColumnType::Text => 2,
            ColumnType::Bool => 3,
        };
        buf.push(tag);
        proof {
            assert(seq![tag] =~= Seq::<u8>::empty().push(tag));
            assert(buf@ =~= b0 + (str_bytes(cm[k as int].0) + seq![tag]));
            assert(crate::wire::columns_bytes(cm.skip(k as int)) == str_bytes(cm[k as int].0)
                + seq![tag] + crate::wire::columns_bytes(cm.skip(k as int + 1)));
            assert(buf@ + crate::wire::columns_bytes(cm.skip(k as int + 1)) =~= b0
                + crate::wire::columns_bytes(cm.skip(k as int)));
            assert(str_fits(cm[k as int].0));
            assert forall|j: int| 0 <= j < k + 1 implies str_fits((#[trigger] cm[j]).0) by {}
        }
        k += 1;
    }
    proof {
        assert(cm.skip(columns@.len() as int) =~= Seq::<(Seq<char>, ColumnType)>::empty());
        assert(buf@ + crate::wire::columns_bytes(cm.skip(columns@.len() as int)) =~= buf@);
    }
    Result::Ok(())
}

/// Encodes a row-insertion frame; see [`encode_command`].
#[verifier::loop_isolation(false)]
fn encode_insert_row(buf: &mut Vec<u8>, table: &String, values: &Vec<Value>) -> (r: Result<
    (),
    ProtocolError,
>)
    requires
        old(buf)@.len() == 0,
    ensures
        ({
            let c = crate::commands::CommandModel::InsertRow {
                table: table@,
                values: crate::commands::values_model(values@),
            };
            match r {
                Result::Ok(_) => crate::wire::command_fits(c) && final(buf)@
                    == crate::wire::command_bytes(c),
                Result::Err(_) => !crate::wire::command_fits(c),
            }
        }),
{
    let ghost vm = crate::commands::values_model(values@);
    if values.len() > 255 {
        return Result::Err(ProtocolError::new("Too many values for wire format"));
    }
    buf.push(2);
    write_string(buf, table.as_str())?;
    buf.push(values.len() as u8);
    let ghost head = buf@;
    let mut k: usize = 0;
    proof {
        assert(vm.skip(0) =~= vm);
    }
    while k < values.len()
        invariant
            k <= values.len(),
            buf@ + crate::wire::values_bytes(vm.skip(k as int)) == head
                + crate::wire::values_bytes(vm),
            forall|j: int| 0 <= j < k ==> value_fits(#[trigger] vm[j]),
        decreases values.len() - k,
    {
        proof {
            assert(vm[k as int] == values@[k as int]@);
            assert(vm.skip(k as int)[0] == vm[k as int]);
            assert(vm.skip(k as int).drop_first() =~= vm.skip(k as int + 1));
        }
        let ghost b0 = buf@;
        match encode_value(buf, &values[k]) {
            Result::Ok(_) => {},
            Result::Err(e) => {
                return Result::Err(e);
            },
        };
        proof {
            assert(crate::wire::values_bytes(vm.skip(k as int)) == value_bytes(vm[k as int])
                + crate::wire::values_bytes(vm.skip(k as int + 1)));
            assert(buf@ + crate::wire::values_bytes(vm.skip(k as int + 1)) =~= b0
                + crate::wire::values_bytes(vm.skip(k as int)));
        }
        k += 1;
    }
    proof {
        assert(vm.skip(values@.len() as int) =~= Seq::<crate::db_types::ValueModel>::empty());
        assert(buf@ + crate::wire::values_bytes(vm.skip(values@.len() as int)) =~= buf@);
    }
    Result::Ok(())
}

/// Encodes a row-update frame; see [`encode_command`].
#[verifier::loop_isolation(false)]
fn encode_update_row(
    buf: &mut Vec<u8>,
    table: &String,
    row_id: u64,
    updates: &Vec<(String, Value)>,
) -> (r: Result<(), ProtocolError>)
    requires
        old(buf)@.len() == 0,
    ensures
        ({
            let c = crate::commands::CommandModel::UpdateRow {
                table: table@,
                row_id,
                updates: crate::commands::updates_model(updates@),
            };
            match r {
                Result::Ok(_) => crate::wire::command_fits(c) && final(buf)@
                    == crate::wire::command_bytes(c),
                Result::Err(_) => !crate::wire::command_fits(c),
            }
        }),
{
    let ghost um = crate::commands::updates_model(updates@);
    if updates.len() > 255 {
        return Result::Err(ProtocolError::new("Too many updates for wire format"));
    }
    buf.push(3);
    write_string(buf, table.as_str())?;
    push_be(buf, row_id, 8);
    buf.push(updates.len() as u8);
    let ghost head = buf@;
    let mut k: usize = 0;
    proof {
        assert(um.skip(0) =~= um);
        assert(head =~= seq![3u8] + str_bytes(table@) + be_bytes(row_id as int, 8) + seq![
            updates@.len() as u8,
        ]);
    }
    while k < updates.len()
        invariant
            k <= updates.len(),
            buf@ + crate::wire::updates_bytes(um.skip(k as int)) == head
                + crate::wire::updates_bytes(um),
            forall|j: int| 0 <= j < k ==> str_fits((#[trigger] um[j]).0) && value_fits(um[j].1),
        decreases updates.len() - k,
    {
        proof {
            assert(um[k as int] == (updates@[k as int].0@, updates@[k as int].1@));
            assert(um.skip(k as int)[0] == um[k as int]);
            assert(um.skip(k as int).drop_first() =~= um.skip(k as int + 1));
        }
        let ghost b0 = buf@;
        match write_string(buf, updates[k].0.as_str()) {
            Result::Ok(_) => {},
            Result::Err(e) => {
                return Result::Err(e);
            },
        };
        match encode_value(buf, &updates[k].1) {
            Result::Ok(_) => {},
            Result::Err(e) => {
                return Result::Err(e);
            },
        };
        proof {
            assert(buf@ =~= b0 + (str_bytes(um[k as int].0) + value_bytes(um[k as int].1)));
            assert(crate::wire::updates_bytes(um.skip(k as int)) == str_bytes(um[k as int].0)
                + value_bytes(um[k as int].1) + crate::wire::updates_bytes(
                um.skip(k as int + 1),
            ));
            assert(buf@ + crate::wire::updates_bytes(um.skip(k as int + 1)) =~= b0
                + crate::wire::updates_bytes(um.skip(k as int)));
            assert(str_fits(um[k as int].0) && value_fits(um[k as int].1));
            assert forall|j: int| 0 <= j < k + 1 implies str_fits((#[trigger] um[j]).0)
                && value_fits(um[j].1) by {}
        }
        k += 1;
    }
    proof {
        assert(um.skip(updates@.len() as int) =~= Seq::<
            (Seq<char>, crate::db_types::ValueModel),
        >::empty());
        assert(buf@ + crate::wire::updates_bytes(um.skip(updates@.len() as int)) =~= buf@);
    }
    Result::Ok(())
}

/// Encodes one command frame. Fails exactly when the command does not fit
/// the wire format: a string over 65535 UTF-8 bytes, or more than 255
/// columns, values or updates.
pub fn encode_command(cmd: &DbCommand) -> (r: Result<Vec<u8>, ProtocolError>)
    ensures
        match r {
            Result::Ok(b) => crate::wire::command_fits(cmd@) && b@ == crate::wire::command_bytes(
                cmd@,
            ),
            Result::Err(_) => !crate::wire::command_fits(cmd@),
        },
{
    let mut buf: Vec<u8> = Vec::new();
    match cmd {
        DbCommand::GetTables {} => {
            buf.push(5);
            proof {
                assert(buf@ =~= crate::wire::command_bytes(cmd@));
            }
            Result::Ok(buf)
        },
        DbCommand::SelectAll { table } => {
            buf.push(4);
            write_string(&mut buf, table.as_str())?;
            proof {
                assert(buf@ =~= crate::wire::command_bytes(cmd@));
            }
            Result::Ok(buf)
        },
        DbCommand::CreateTable { table, columns } => {
            encode_create_table(&mut buf, table, columns)?;
            Result::Ok(buf)
        },
        DbCommand::InsertRow { table, values } => {
            encode_insert_row(&mut buf, table, values)?;
            Result::Ok(buf)
        },
        DbCommand::UpdateRow { table, row_id, updates } => {
            encode_update_row(&mut buf, table, *row_id, updates)?;
            Result::Ok(buf)
        },
    }
}

/// Encodes a row set: the status byte, the column names, the row count and
/// the rows. Fails when a name or a text value does not fit, there are more
/// than 255 columns, more rows than a 32-bit count can carry, or some row
/// does not have exactly one value per column.
#[verifier::loop_isolation(false)]
fn encode_rows(columns: &Vec<String>, rows: &Vec<(u64, Vec<Value>)>) -> (r: Result<
    Vec<u8>,
    ProtocolError,
>)
    ensures
        ({
            let rm = crate::commands::ResultModel::Rows {
                columns: crate::commands::names_model(columns@),
                rows: crate::commands::rows_model(rows@),
            };
            match r {
                Result::Ok(b) => crate::wire::result_fits(rm) && b@ == crate::wire::result_bytes(
                    rm,
                ),
                Result::Err(_) => !crate::wire::result_fits(rm),
            }
        }),
{
    let ghost nm = crate::commands::names_model(columns@);
    let ghost rm = crate::commands::rows_model(rows@);
    if columns.len() > 255 {
        return Result::Err(ProtocolError::new("Too many columns for wire format"));
    }
    if rows.len() as u64 > 0xFFFF_FFFF {
        return Result::Err(ProtocolError::new("Too many rows for wire format"));
    }
    let mut buf: Vec<u8> = Vec::new();
    buf.push(0);
    buf.push(columns.len() as u8);
    let ghost head = buf@;
    let mut k: usize = 0;
    proof {
        assert(nm.skip(0) =~= nm);
        assert(head =~= seq![0u8, columns@.len() as u8]);
    }
    while k < columns.len()
        invariant
            k <= columns.len(),
            buf@ + crate::wire::names_bytes(nm.skip(k as int)) == head + crate::wire::names_bytes(
                nm,
            ),
            forall|j: int| 0 <= j < k ==> str_fits(#[trigger] nm[j]),
        decreases columns.len() - k,
    {
        proof {
            assert(nm[k as int] == columns@[k as int]@);
            assert(nm.skip(k as int)[0] == nm[k as int]);
            assert(nm.skip(k as int).drop_first() =~= nm.skip(k as int + 1));
        }
        let ghost b0 = buf@;
        match write_string(&mut buf, columns[k].as_str()) {
            Result::Ok(_) => {},
            Result::Err(e) => {
                return Result::Err(e);
            },
        };
        proof {
            assert(crate::wire::names_bytes(nm.skip(k as int)) == str_bytes(nm[k as int])
                + crate::wire::names_bytes(nm.skip(k as int + 1)));
            assert(buf@ + crate::wire::names_bytes(nm.skip(k as int + 1)) =~= b0
                + crate::wire::names_bytes(nm.skip(k as int)));
        }
        k += 1;
    }
    proof {
        assert(nm.skip(columns@.len() as int) =~= Seq::<Seq<char>>::empty());
        assert(buf@ + crate::wire::names_bytes(nm.skip(columns@.len() as int)) =~= buf@);
    }
    push_be(&mut buf, rows.len() as u64, 4);
    let ghost mid = buf@;
    let mut i: usize = 0;
    proof {
        assert(rm.skip(0) =~= rm);
    }
    while i < rows.len()
        invariant
            i <= rows.len(),
            buf@ + crate::wire::rows_bytes(rm.skip(i as int)) == mid + crate::wire::rows_bytes(rm),
            forall|j: int|
                0 <= j < i ==> (#[trigger] rm[j]).1.len() == nm.len() && forall|j2: int|
                    0 <= j2 < rm[j].1.len() ==> value_fits(#[trigger] rm[j].1[j2]),
        decreases rows.len() - i,
    {
        proof {
            assert(rm[i as int] == (rows@[i as int].0, crate::commands::values_model(
                rows@[i as int].1@,
            )));
            assert(rm.skip(i as int)[0] == rm[i as int]);
            assert(rm.skip(i as int).drop_first() =~= rm.skip(i as int + 1));
        }
        if rows[i].1.len() != columns.len() {
            return Result::Err(ProtocolError::new("Row does not match column count"));
        }
        let ghost b0 = buf@;
        push_be(&mut buf, rows[i].0, 8);
        let vm = &rows[i].1;
        let ghost vmm = crate::commands::values_model(vm@);
        let ghost v0 = buf@;
        let mut j: usize = 0;
        proof {
            assert(vmm.skip(0) =~= vmm);
        }
        while j < vm.len()
            invariant
                j <= vm.len(),
                buf@ + crate::wire::values_bytes(vmm.skip(j as int)) == v0
                    + crate::wire::values_bytes(vmm),
                forall|j2: int| 0 <= j2 < j ==> value_fits(#[trigger] vmm[j2]),
            decreases vm.len() - j,
        {
            proof {
                assert(vmm[j as int] == vm@[j as int]@);
                assert(vmm.skip(j as int)[0] == vmm[j as int]);
                assert(vmm.skip(j as int).drop_first() =~= vmm.skip(j as int + 1));
            }
            let ghost b1 = buf@;
            match encode_value(&mut buf, &vm[j]) {
                Result::Ok(_) => {},
                Result::Err(e) => {
                    return Result::Err(e);
                },
            };
            proof {
                assert(crate::wire::values_bytes(vmm.skip(j as int)) == value_bytes(vmm[j as int])
                    + crate::wire::values_bytes(vmm.skip(j as int + 1)));
                assert(buf@ + crate::wire::values_bytes(vmm.skip(j as int + 1)) =~= b1
                    + crate::wire::values_bytes(vmm.skip(j as int)));
            }
            j += 1;
        }
        proof {
            assert(vmm.skip(vm@.len() as int) =~= Seq::<crate::db_types::ValueModel>::empty());
            assert(buf@ + crate::wire::values_bytes(vmm.skip(vm@.len() as int)) =~= buf@);
            assert(buf@ =~= b0 + (be_bytes(rows@[i as int].0 as int, 8) + crate::wire::values_bytes(
                vmm,
            )));
            assert(crate::wire::rows_bytes(rm.skip(i as int)) == crate::wire::row_bytes(
                rm[i as int],
            ) + crate::wire::rows_bytes(rm.skip(i as int + 1)));
            assert(buf@ + crate::wire::rows_bytes(rm.skip(i as int + 1)) =~= b0
                + crate::wire::rows_bytes(rm.skip(i as int)));
        }
        i += 1;
    }
    proof {
        assert(rm.skip(rows@.len() as int) =~= Seq::<crate::commands::RowModel>::empty());
        assert(buf@ + crate::wire::rows_bytes(rm.skip(rows@.len() as int)) =~= buf@);
        assert(buf@ =~= crate::wire::result_bytes(
            crate::commands::ResultModel::Rows { columns: nm, rows: rm },
        ));
    }
    Result::Ok(buf)
}

/// Encodes a result frame. Fails exactly when the result does not fit the
/// wire format.
pub fn encode_result(result: &DbResult) -> (r: Result<Vec<u8>, ProtocolError>)
    ensures
        match r {
            Result::Ok(b) => crate::wire::result_fits(result@) && b@ == crate::wire::result_bytes(
                result@,
            ),
            Result::Err(_) => !crate::wire::result_fits(result@),
        },
{
    match result {
        DbResult::Done => {
            let mut buf: Vec<u8> = Vec::new();
            buf.push(0);
            proof {
                assert(buf@ =~= crate::wire::result_bytes(result@));
            }
            Result::Ok(buf)
        },
        DbResult::Rows { columns, rows } => encode_rows(columns, rows),
    }
}

/// Encodes an error frame carrying the given message. Fails exactly when
/// the message does not fit the 16-bit length prefix.
pub fn encode_error(msg: &str) -> (r: Result<Vec<u8>, ProtocolError>)
    ensures
        match r {
            Result::Ok(b) => str_fits(msg@) && b@ == crate::wire::error_bytes(msg@),
            Result::Err(_) => !str_fits(msg@),
        },
{
    let mut buf: Vec<u8> = Vec::new();
    buf.push(1);
    write_string(&mut buf, msg)?;
    proof {
        assert(buf@ =~= crate::wire::error_bytes(msg@));
    }
    Result::Ok(buf)
}

/// Decodes a result frame: a success (a bare acknowledgement or a row set)
/// or the error message the server sent. A malformed frame yields an error
/// with a descriptive message; decoding never reads out of bounds.
#[verifier::loop_isolation(false)]
pub fn decode_response(data: &[u8]) -> (r: Result<DbResult, String>)
    ensures
        match crate::wire::spec_parse_response(data@) {
            Some(out) => match out {
                Result::Ok(rm) => r matches Result::Ok(res) && res@ == rm,
                Result::Err(msg) => r matches Result::Err(e) && e@ == msg,
            },
            None => r is Err,
        },
{
    let ghost b = data@;
    let mut c = Cursor::new(data);
    let status = match c.read_u8() {
        Result::Ok(s) => s,
        Result::Err(_) => {
            return Result::Err(String::from_str("Empty response"));
        },
    };
    if status == 0 {
        if data.len() == 1 {
            return Result::Ok(DbResult::Done);
        }
        let cc = match c.read_u8() {
            Result::Ok(v) => v,
            Result::Err(_) => {
                return Result::Err(String::from_str("Truncated response"));
            },
        };
        let n = cc as usize;
        let ghost start = c.at();
        let mut names: Vec<String> = Vec::new();
        let mut k: usize = 0;
        proof {
            assert(crate::commands::names_model(names@) =~= Seq::<Seq<char>>::empty());
        }
        while k < n
            invariant
                k <= n,
                c.wf(),
                c.bytes() == b,
                names@.len() == k,
                match crate::wire::parse_names_at(b, c.at(), (n - k) as nat) {
                    Some(pair) => crate::wire::parse_names_at(b, start, n as nat) == Some(
                        (crate::commands::names_model(names@) + pair.0, pair.1),
                    ),
                    None => crate::wire::parse_names_at(b, start, n as nat) is None,
                },
            decreases n - k,
        {
            let name = match c.read_string() {
                Result::Ok(s) => s,
                Result::Err(_) => {
                    return Result::Err(String::from_str("Truncated response"));
                },
            };
            let ghost prev = names@;
            names.push(name);
            proof {
                let nm_prev = crate::commands::names_model(prev);
                let entry = names@[k as int]@;
                assert(crate::commands::names_model(names@) =~= nm_prev + seq![entry]);
                match crate::wire::parse_names_at(b, c.at(), (n - k - 1) as nat) {
                    Some(pair2) => {
                        assert(nm_prev + (seq![entry] + pair2.0) =~= (nm_prev + seq![entry])
                            + pair2.0);
                    },
                    None => {},
                }
            }
            k += 1;
        }
        proof {
            assert(crate::commands::names_model(names@) + Seq::<Seq<char>>::empty()
                =~= crate::commands::names_model(names@));
        }
        let rc = match c.read_be(4) {
            Result::Ok(v) => v,
            Result::Err(_) => {
                return Result::Err(String::from_str("Truncated response"));
            },
        };
        proof {
            crate::wire_laws::lemma_pow256_4();
        }
        let m = rc as usize;
        let ghost rstart = c.at();
        let mut rows: Vec<(u64, Vec<Value>)> = Vec::new();
        let mut i: usize = 0;
        proof {
            assert(crate::commands::rows_model(rows@) =~= Seq::<crate::commands::RowModel>::empty());
        }
        while i < m
            invariant
                i <= m,
                c.wf(),
                c.bytes() == b,
                rows@.len() == i,
                match crate::wire::parse_rows_at(b, c.at(), (m - i) as nat, cc as nat) {
                    Some(pair) => crate::wire::parse_rows_at(b, rstart, m as nat, cc as nat)
                        == Some((crate::commands::rows_model(rows@) + pair.0, pair.1)),
                    None => crate::wire::parse_rows_at(b, rstart, m as nat, cc as nat) is None,
                },
            decreases m - i,
        {
            let id = match c.read_be(8) {
                Result::Ok(v) => v,
                Result::Err(_) => {
                    return Result::Err(String::from_str("Truncated response"));
                },
            };
            let vals = match parse_values(&mut c, cc as usize) {
                Result::Ok(v) => v,
                Result::Err(_) => {
                    return Result::Err(String::from_str("Truncated response"));
                },
            };
            let ghost prev = rows@;
            rows.push((id, vals));
            proof {
                let rm_prev = crate::commands::rows_model(prev);
                let entry = (id, crate::commands::values_model(vals@));
                assert(crate::commands::rows_model(rows@) =~= rm_prev + seq![entry]);
                match crate::wire::parse_rows_at(b, c.at(), (m - i - 1) as nat, cc as nat) {
                    Some(pair2) => {
                        assert(rm_prev + (seq![entry] + pair2.0) =~= (rm_prev + seq![entry])
                            + pair2.0);
                    },
                    None => {},
                }
            }
            i += 1;
        }
        proof {
            assert(crate::commands::rows_model(rows@) + Seq::<crate::commands::RowModel>::empty()
                =~= crate::commands::rows_model(rows@));
        }
        Result::Ok(DbResult::Rows { columns: names, rows })
    } else if status == 1 {
        match c.read_string() {
            Result::Ok(msg) => Result::Err(msg),
            Result::Err(_) => Result::Err(String::from_str("Malformed error response")),
        }
    } else {
        Result::Err(String::from_str("Unknown response type"))
    }
}

} // verus!
