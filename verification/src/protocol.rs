//! The resumable framing codec: decodes one complete operation from the front
//! of a byte buffer, or reports that the frame is still incomplete without
//! consuming anything.
//!
//! Wire format (big-endian), with `ID` the configured identifier length:
//!
//! ```text
//! Store:    [1 op=0x01][ID id][4 data_len][data_len data][1 expiry_flag][flag=1 ? 8 ttl : -]
//! Retrieve: [1 op=0x02][ID id]
//! ```
//!
//! An unknown opcode has no safe resynchronization point in a length-prefixed
//! stream, so the whole buffered content is discarded.

use vstd::prelude::*;
use crate::wire::{
    spec_u32_to_be_bytes, spec_u32_from_be_bytes, spec_u64_to_be_bytes, spec_u64_from_be_bytes,
    lemma_u32_be_bytes_roundtrip, lemma_u64_be_bytes_roundtrip, read_u32_be, read_u64_be,
    push_u32_be, push_u64_be, copy_range, drain_prefix, append_bytes,
};

verus! {

pub const OP_STORE: u8 = 0x01;

pub const OP_RETRIEVE: u8 = 0x02;

pub const EXPIRY_FLAG_NONE: u8 = 0x00;

pub const EXPIRY_FLAG_PRESENT: u8 = 0x01;

/// One decoded protocol operation.
#[derive(Debug)]
pub enum Operation {
    Store { id: Vec<u8>, data: Vec<u8>, ttl: Option<u64> },
    Retrieve { id: Vec<u8> },
}

/// The mathematical shape of an operation: byte sequences instead of vectors.
pub enum OpModel {
    Store { id: Seq<u8>, data: Seq<u8>, ttl: Option<u64> },
    Retrieve { id: Seq<u8> },
}

impl View for Operation {
    type V = OpModel;

    open spec fn view(&self) -> OpModel {
        match self {
            Operation::Store { id, data, ttl } => OpModel::Store {
                id: id@,
                data: data@,
                ttl: *ttl,
            },
            Operation::Retrieve { id } => OpModel::Retrieve { id: id@ },
        }
    }
}

/// What one decode attempt does to a buffer.
pub enum ParseOutcome {
    /// The frame at the front is not fully present; nothing is consumed.
    Incomplete,
    /// The first byte is no known opcode; the whole buffer is discarded.
    Desync,
    /// A complete frame sits at the front; exactly `consumed` bytes leave the buffer.
    Parsed { op: OpModel, consumed: int },
}

/// Length of a Store frame's fixed header: opcode, identifier, payload length.
pub open spec fn store_header_len(id_len: int) -> int {
    1 + id_len + 4
}

/// Decode of a Store frame from the front of `buf` (first byte already 0x01).
pub open spec fn parse_store_spec(buf: Seq<u8>, id_len: int) -> ParseOutcome
    recommends
        buf.len() > 0,
        buf[0] == OP_STORE,
{
    let header = store_header_len(id_len);
    if buf.len() < header {
        ParseOutcome::Incomplete
    } else {
        let data_len = spec_u32_from_be_bytes(buf.subrange(1 + id_len, header)) as int;
        if buf.len() < header + data_len + 1 {
            ParseOutcome::Incomplete
        } else if buf[header + data_len] == EXPIRY_FLAG_PRESENT {
            if buf.len() < header + data_len + 9 {
                ParseOutcome::Incomplete
            } else {
                ParseOutcome::Parsed {
                    op: OpModel::Store {
                        id: buf.subrange(1, 1 + id_len),
                        data: buf.subrange(header, header + data_len),
                        ttl: Some(
                            spec_u64_from_be_bytes(
                                buf.subrange(header + data_len + 1, header + data_len + 9),
                            ),
                        ),
                    },
                    consumed: header + data_len + 9,
                }
            }
        } else {
            ParseOutcome::Parsed {
                op: OpModel::Store {
                    id: buf.subrange(1, 1 + id_len),
                    data: buf.subrange(header, header + data_len),
                    ttl: None,
                },
                consumed: header + data_len + 1,
            }
        }
    }
}

/// Decode of one operation from the front of `buf`.
pub open spec fn parse_spec(buf: Seq<u8>, id_len: int) -> ParseOutcome {
    if buf.len() == 0 {
        ParseOutcome::Incomplete
    } else if buf[0] == OP_STORE {
        parse_store_spec(buf, id_len)
    } else if buf[0] == OP_RETRIEVE {
        if buf.len() < 1 + id_len {
            ParseOutcome::Incomplete
        } else {
            ParseOutcome::Parsed {
                op: OpModel::Retrieve { id: buf.subrange(1, 1 + id_len) },
                consumed: 1 + id_len,
            }
        }
    } else {
        ParseOutcome::Desync
    }
}

/// A well-formed operation: identifier of the configured length, payload small
/// enough for the 32-bit length field.
pub open spec fn op_wf(op: OpModel, id_len: int) -> bool {
    match op {
        OpModel::Store { id, data, ttl } => id.len() == id_len && data.len() <= u32::MAX,
        OpModel::Retrieve { id } => id.len() == id_len,
    }
}

/// A decoded frame consumed at least one byte, never more than the buffer
/// held, and carries a well-formed operation.
pub proof fn lemma_parse_spec_props(buf: Seq<u8>, id_len: int)
    requires
        id_len >= 0,
    ensures
        (match parse_spec(buf, id_len) {
            ParseOutcome::Parsed { op, consumed } => 1 <= consumed <= buf.len() && op_wf(
                op,
                id_len,
            ),
            _ => true,
        }),
{
}

/// How one decode attempt relates the buffer before, the buffer after, and
/// the returned operation.
pub open spec fn parse_post(pre: Seq<u8>, post: Seq<u8>, r: Option<Operation>, id_len: int) -> bool {
    match parse_spec(pre, id_len) {
        ParseOutcome::Incomplete => post == pre && r is None,
        ParseOutcome::Desync => post == Seq::<u8>::empty() && r is None,
        ParseOutcome::Parsed { op, consumed } => post == pre.skip(consumed) && (r matches Some(o)
            && o@ == op),
    }
}

/// Tries to decode one complete operation from the start of the buffer.
/// On success the consumed bytes are removed; on incomplete data the buffer
/// is left untouched; on an unknown opcode the buffer is discarded whole.
pub fn parse_message_from_buffer(buffer: &mut Vec<u8>, msg_id_size: usize) -> (r: Option<
    Operation,
>)
    ensures
        parse_post(old(buffer)@, final(buffer)@, r, msg_id_size as int),
{
    if buffer.is_empty() {
        return None;
    }
    let op_type: u8 = buffer[0];
    if op_type == OP_STORE {
        parse_store_op(buffer, msg_id_size)
    } else if op_type == OP_RETRIEVE {
        parse_retrieve_op(buffer, msg_id_size)
    } else {
        buffer.clear();
        None
    }
}

/// Decodes a Store frame once the opcode byte has been recognized.
pub fn parse_store_op(buffer: &mut Vec<u8>, msg_id_size: usize) -> (r: Option<Operation>)
    requires
        old(buffer)@.len() > 0,
        old(buffer)@[0] == OP_STORE,
    ensures
        parse_post(old(buffer)@, final(buffer)@, r, msg_id_size as int),
{
    let buf_len: usize = buffer.len();
    if buf_len < 5 || buf_len - 5 < msg_id_size {
        return None;
    }
    let header_len: usize = 1 + msg_id_size + 4;
    let data_len32: u32 = read_u32_be(buffer, 1 + msg_id_size);
    let data_len: usize = data_len32 as usize;
    let rem: usize = buf_len - header_len;
    if rem < 1 || rem - 1 < data_len {
        return None;
    }
    let flag_ix: usize = header_len + data_len;
    let flag: u8 = buffer[flag_ix];
    if flag == EXPIRY_FLAG_PRESENT {
        if buf_len - (flag_ix + 1) < 8 {
            return None;
        }
        let ttl_val: u64 = read_u64_be(buffer, flag_ix + 1);
        let id: Vec<u8> = copy_range(buffer, 1, msg_id_size);
        let data: Vec<u8> = copy_range(buffer, header_len, data_len);
        drain_prefix(buffer, flag_ix + 9);
        Some(Operation::Store { id, data, ttl: Some(ttl_val) })
    } else {
        let id: Vec<u8> = copy_range(buffer, 1, msg_id_size);
        let data: Vec<u8> = copy_range(buffer, header_len, data_len);
        drain_prefix(buffer, flag_ix + 1);
        Some(Operation::Store { id, data, ttl: None })
    }
}

/// Decodes a Retrieve frame once the opcode byte has been recognized.
pub fn parse_retrieve_op(buffer: &mut Vec<u8>, msg_id_size: usize) -> (r: Option<Operation>)
    requires
        old(buffer)@.len() > 0,
        old(buffer)@[0] == OP_RETRIEVE,
    ensures
        parse_post(old(buffer)@, final(buffer)@, r, msg_id_size as int),
{
    let buf_len: usize = buffer.len();
    if buf_len - 1 < msg_id_size {
        return None;
    }
    let id: Vec<u8> = copy_range(buffer, 1, msg_id_size);
    drain_prefix(buffer, 1 + msg_id_size);
    Some(Operation::Retrieve { id })
}

/// The exact byte sequence that carries `op` on the wire.
pub open spec fn encode_op(op: OpModel) -> Seq<u8> {
    match op {
        OpModel::Store { id, data, ttl } => seq![OP_STORE] + id + spec_u32_to_be_bytes(
            data.len() as u32,
        ) + data + (match ttl {
            Option::None => seq![EXPIRY_FLAG_NONE],
            Option::Some(t) => seq![EXPIRY_FLAG_PRESENT] + spec_u64_to_be_bytes(t),
        }),
        OpModel::Retrieve { id } => seq![OP_RETRIEVE] + id,
    }
}

/// Encodes one operation as a frame.
pub fn encode_operation(op: &Operation) -> (r: Vec<u8>)
    ensures
        r@ == encode_op(op@),
{
    match op {
        Operation::Store { id, data, ttl } => {
            let mut r: Vec<u8> = Vec::new();
            r.push(OP_STORE);
            append_bytes(&mut r, id);
            push_u32_be(&mut r, data.len() as u32);
            append_bytes(&mut r, data);
            match ttl {
                Option::Some(t) => {
                    r.push(EXPIRY_FLAG_PRESENT);
                    push_u64_be(&mut r, *t);
                },
                Option::None => {
                    r.push(EXPIRY_FLAG_NONE);
                },
            }
            proof {
                assert(r@ =~= encode_op(op@));
            }
            r
        },
        Operation::Retrieve { id } => {
            let mut r: Vec<u8> = Vec::new();
            r.push(OP_RETRIEVE);
            append_bytes(&mut r, id);
            proof {
                assert(r@ =~= encode_op(op@));
            }
            r
        },
    }
}

/// Round trip: a well-formed operation's encoding, with anything after it,
/// decodes to exactly that operation, consumes exactly the encoded bytes, and
/// leaves the trailing bytes untouched.
pub proof fn lemma_round_trip(op: OpModel, tail: Seq<u8>, id_len: int)
    requires
        op_wf(op, id_len),
        id_len >= 0,
    ensures
        parse_spec(encode_op(op) + tail, id_len) == (ParseOutcome::Parsed {
            op,
            consumed: encode_op(op).len() as int,
        }),
        (encode_op(op) + tail).skip(encode_op(op).len() as int) == tail,
{
    let e = encode_op(op);
    let buf = e + tail;
    assert(buf.skip(e.len() as int) =~= tail);
    match op {
        OpModel::Store { id, data, ttl } => {
            let header = store_header_len(id_len);
            let len32 = data.len() as u32;
            lemma_u32_be_bytes_roundtrip(len32);
            assert(buf[0] == OP_STORE);
            assert(buf.subrange(1, 1 + id_len) =~= id);
            assert(buf.subrange(1 + id_len, header) =~= spec_u32_to_be_bytes(len32));
            assert(spec_u32_from_be_bytes(buf.subrange(1 + id_len, header)) as int
                == data.len() as int);
            assert(buf.subrange(header, header + data.len() as int) =~= data);
            match ttl {
                Option::None => {
                    assert(e.len() == header + data.len() + 1);
                    assert(buf[header + data.len() as int] == EXPIRY_FLAG_NONE);
                },
                Option::Some(t) => {
                    lemma_u64_be_bytes_roundtrip(t);
                    assert(e.len() == header + data.len() + 9);
                    assert(buf[header + data.len() as int] == EXPIRY_FLAG_PRESENT);
                    assert(buf.subrange(
                        header + data.len() as int + 1,
                        header + data.len() as int + 9,
                    ) =~= spec_u64_to_be_bytes(t));
                },
            }
        },
        OpModel::Retrieve { id } => {
            assert(buf[0] == OP_RETRIEVE);
            assert(buf.subrange(1, 1 + id_len) =~= id);
        },
    }
}

/// Fragmentation tolerance: while any suffix of a frame is still missing, the
/// codec reports the frame incomplete, whatever prefix has arrived so far.
pub proof fn lemma_prefix_incomplete(op: OpModel, id_len: int, n: int)
    requires
        op_wf(op, id_len),
        id_len >= 0,
        0 <= n < encode_op(op).len(),
    ensures
        parse_spec(encode_op(op).take(n), id_len) is Incomplete,
{
    let e = encode_op(op);
    let p = e.take(n);
    assert(p.len() == n);
    if n == 0 {
        return ;
    }
    assert(p[0] == e[0]);
    match op {
        OpModel::Store { id, data, ttl } => {
            let header = store_header_len(id_len);
            let len32 = data.len() as u32;
            lemma_u32_be_bytes_roundtrip(len32);
            assert(e[0] == OP_STORE) by {
                assert(e == seq![OP_STORE] + id + spec_u32_to_be_bytes(len32) + data + (
                match ttl {
                    Option::None => seq![EXPIRY_FLAG_NONE],
                    Option::Some(t) => seq![EXPIRY_FLAG_PRESENT] + spec_u64_to_be_bytes(t),
                }));
            }
            if n < header {
                assert(parse_store_spec(p, id_len) is Incomplete);
            } else {
                assert(p.subrange(1 + id_len, header) =~= (e + Seq::<u8>::empty()).subrange(
                    1 + id_len,
                    header,
                ));
                lemma_round_trip(op, Seq::<u8>::empty(), id_len);
                assert(e + Seq::<u8>::empty() =~= e);
                assert(spec_u32_from_be_bytes(p.subrange(1 + id_len, header)) as int
                    == data.len() as int);
                match ttl {
                    Option::None => {
                        assert(e.len() == header + data.len() + 1);
                        assert(n < header + data.len() as int + 1);
                    },
                    Option::Some(t) => {
                        assert(e.len() == header + data.len() + 9);
                        if n >= header + data.len() as int + 1 {
                            assert(p[header + data.len() as int] == e[header + data.len() as int]);
                            assert(e[header + data.len() as int] == EXPIRY_FLAG_PRESENT);
                            assert(n < header + data.len() as int + 9);
                        }
                    },
                }
            }
        },
        OpModel::Retrieve { id } => {
            assert(e[0] == OP_RETRIEVE) by {
                assert(e == seq![OP_RETRIEVE] + id);
            }
            assert(p.len() < 1 + id_len);
        },
    }
}

/// Desynchronization: an unknown opcode at the front discards the whole
/// buffer and yields no operation.
pub proof fn lemma_desync_discards(buf: Seq<u8>, id_len: int)
    requires
        buf.len() > 0,
        buf[0] != OP_STORE,
        buf[0] != OP_RETRIEVE,
    ensures
        parse_spec(buf, id_len) is Desync,
{
}

} // verus!
