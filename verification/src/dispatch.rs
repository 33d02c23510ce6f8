//! The per-frame step of the dispatch loop, and the transport framing rules.
//!
//! The surrounding program owns one [`Database`] and feeds it framed command
//! buffers one at a time; this module supplies the verified step it runs for
//! each frame, and the length checks the transports apply to frames.

use vstd::prelude::*;
use vstd::utf8::encode_utf8;
use crate::commands::{error_message_spec};
use crate::db::{Database, spec_execute, store_wf};
use crate::protocol::{encode_error, encode_result, parse_command};
use crate::wire::{
    be_bytes, error_bytes, from_be, result_bytes, result_fits, spec_parse_command,
    spec_parse_response, str_fits,
};
use crate::wire_laws::lemma_error_round_trip;

verus! {

/// The largest frame payload a transport accepts: one mebibyte. A longer
/// declared length is rejected before any payload is read.
pub const MAX_FRAME_LEN: u32 = 1048576;

/// A reply that decodes as an error frame.
pub open spec fn is_error_reply(b: Seq<u8>) -> bool {
    spec_parse_response(b) matches Some(out) && out is Err
}

/// An error frame with an empty message: the reply of last resort, for an
/// error whose own message does not fit the wire format.
fn fallback_error_frame() -> (r: Vec<u8>)
    ensures
        is_error_reply(r@),
{
    let mut buf: Vec<u8> = Vec::new();
    buf.push(1);
    buf.push(0);
    buf.push(0);
    proof {
        let empty = Seq::<char>::empty();
        assert(encode_utf8(empty) =~= Seq::<u8>::empty());
        assert(be_bytes(0, 2) =~= seq![0u8, 0u8]) by {
            reveal_with_fuel(crate::wire::be_bytes, 3);
        }
        assert(buf@ =~= error_bytes(empty));
        lemma_error_round_trip(empty);
    }
    buf
}

/// Handles one framed command against the store: decode, execute, encode.
/// Every frame gets exactly one reply. A decode failure leaves the store
/// untouched and yields an encoded protocol error; a store error yields an
/// encoded error frame carrying its message; a result too large for the
/// wire yields an error frame. The store stays well formed.
pub fn handle_frame(db: &mut Database, data: &[u8]) -> (reply: Vec<u8>)
    requires
        store_wf(old(db)@),
    ensures
        store_wf(final(db)@),
        match spec_parse_command(data@) {
            Option::None => final(db)@ == old(db)@ && is_error_reply(reply@),
            Option::Some(c) => {
                &&& final(db)@ == spec_execute(old(db)@, c).0
                &&& match spec_execute(old(db)@, c).1 {
                    Result::Ok(rm) => if result_fits(rm) {
                        reply@ == result_bytes(rm)
                    } else {
                        is_error_reply(reply@)
                    },
                    Result::Err(e) => {
                        &&& is_error_reply(reply@)
                        &&& str_fits(error_message_spec(e)) ==> reply@ == error_bytes(
                            error_message_spec(e),
                        )
                    },
                }
            },
        },
{
    match parse_command(data) {
        Result::Ok(cmd) => {
            match db.execute(cmd) {
                Result::Ok(res) => {
                    match encode_result(&res) {
                        Result::Ok(b) => b,
                        Result::Err(_) => fallback_error_frame(),
                    }
                },
                Result::Err(e) => {
                    let msg = e.message();
                    match encode_error(msg.as_str()) {
                        Result::Ok(b) => {
                            proof {
                                lemma_error_round_trip(msg@);
                            }
                            b
                        },
                        Result::Err(_) => fallback_error_frame(),
                    }
                },
            }
        },
        Result::Err(pe) => {
            let mut m = String::from_str("Protocol error: ");
            m.append(pe.msg.as_str());
            match encode_error(m.as_str()) {
                Result::Ok(b) => {
                    proof {
                        lemma_error_round_trip(m@);
                    }
                    b
                },
                Result::Err(_) => fallback_error_frame(),
            }
        },
    }
}

/// Reads a four-byte big-endian frame length and accepts it only up to the
/// 1 MiB cap, so a transport rejects an oversized frame before allocating
/// room for its payload.
pub fn check_frame_header(len_bytes: &[u8]) -> (r: Option<u32>)
    requires
        len_bytes@.len() == 4,
    ensures
        match r {
            Some(n) => n as int == from_be(len_bytes@) && n <= MAX_FRAME_LEN,
            None => from_be(len_bytes@) > MAX_FRAME_LEN,
        },
{
    let ghost s = len_bytes@;
    let v: u32 = (len_bytes[0] as u32) * 0x100_0000 + (len_bytes[1] as u32) * 0x1_0000 + (
    len_bytes[2] as u32) * 0x100 + (len_bytes[3] as u32);
    proof {
        assert(s.drop_last() =~= seq![s[0], s[1], s[2]]);
        assert(seq![s[0], s[1], s[2]].drop_last() =~= seq![s[0], s[1]]);
        assert(seq![s[0], s[1]].drop_last() =~= seq![s[0]]);
        assert(seq![s[0]].drop_last() =~= Seq::<u8>::empty());
        assert(from_be(Seq::<u8>::empty()) == 0);
        assert(from_be(seq![s[0]]) == s[0]);
        assert(from_be(seq![s[0], s[1]]) == s[0] * 256 + s[1]);
        assert(from_be(seq![s[0], s[1], s[2]]) == (s[0] * 256 + s[1]) * 256 + s[2]);
        assert(from_be(s) == ((s[0] * 256 + s[1]) * 256 + s[2]) * 256 + s[3]);
    }
    if v <= MAX_FRAME_LEN {
        Some(v)
    } else {
        None
    }
}

/// The four-byte big-endian length prefix written in front of a frame.
pub fn frame_header(len: u32) -> (r: Vec<u8>)
    ensures
        r@ == be_bytes(len as int, 4),
        r@.len() == 4,
{
    let mut buf: Vec<u8> = Vec::new();
    crate::protocol::push_be(&mut buf, len as u64, 4);
    proof {
        crate::wire::lemma_be_bytes_len(len as int, 4);
        assert(Seq::<u8>::empty() + be_bytes(len as int, 4) =~= be_bytes(len as int, 4));
    }
    buf
}

} // verus!
