//! Peer-wire message framing: the fixed id mapping, the 4-byte big-endian
//! length prefix, and the framed envelope that `send` writes and `read`
//! parses. The byte layout is stated by `frame_spec`; the round trip is
//! proved by `lemma_frame_round_trip`.

use vstd::prelude::*;
use vstd::arithmetic::div_mod::lemma_div_denominator;
use crate::errors::ProtocolError;

verus! {

/// Peer-wire message kinds, with the id mapping the protocol fixes:
/// 0 = Choke, 1 = Unchoke, 2 = Interested, 3 = NotInterested, 4 = Have,
/// 5 = Bitfield, 6 = Request, 7 = Piece, 8 = Cancel.
#[derive(Clone, Copy, Debug, PartialEq, Eq, Structural)]
pub enum MessageType {
    Choke,
    Unchoke,
    Interested,
    NotInterested,
    Have,
    Bitfield,
    Request,
    Piece,
    Cancel,
}

pub open spec fn id_of(t: MessageType) -> u8 {
    match t {
        MessageType::Choke => 0,
        MessageType::Unchoke => 1,
        MessageType::Interested => 2,
        MessageType::NotInterested => 3,
        MessageType::Have => 4,
        MessageType::Bitfield => 5,
        MessageType::Request => 6,
        MessageType::Piece => 7,
        MessageType::Cancel => 8,
    }
}

pub open spec fn type_of_id(id: u8) -> Option<MessageType> {
    if id == 0 {
        Some(MessageType::Choke)
    } else if id == 1 {
        Some(MessageType::Unchoke)
    } else if id == 2 {
        Some(MessageType::Interested)
    } else if id == 3 {
        Some(MessageType::NotInterested)
    } else if id == 4 {
        Some(MessageType::Have)
    } else if id == 5 {
        Some(MessageType::Bitfield)
    } else if id == 6 {
        Some(MessageType::Request)
    } else if id == 7 {
        Some(MessageType::Piece)
    } else if id == 8 {
        Some(MessageType::Cancel)
    } else {
        None
    }
}

/// The 4-byte big-endian form of `n`.
pub open spec fn u32_be(n: u32) -> Seq<u8> {
    seq![
        (n / 0x1000000) as u8,
        ((n / 0x10000) % 0x100) as u8,
        ((n / 0x100) % 0x100) as u8,
        (n % 0x100) as u8,
    ]
}

/// The value of 4 big-endian bytes.
pub open spec fn be_val(b: Seq<u8>) -> int {
    b[0] * 0x1000000 + b[1] * 0x10000 + b[2] * 0x100 + b[3]
}

/// The big-endian encoding of a 32-bit value reads back as that value.
pub proof fn lemma_be_round_trip(n: u32)
    ensures
        be_val(u32_be(n)) == n,
{
    let x = n as int;
    lemma_div_denominator(x, 0x100, 0x100);
    lemma_div_denominator(x, 0x10000, 0x100);
    assert(x / 0x100 / 0x100 == x / 0x10000);
    assert(x / 0x10000 / 0x100 == x / 0x1000000);
    assert(x / 0x1000000 < 0x100) by (nonlinear_arith)
        requires x <= 0xffff_ffff && x >= 0;
    assert(x == 0x100 * (x / 0x100) + x % 0x100);
    assert(x / 0x100 == 0x100 * (x / 0x100 / 0x100) + (x / 0x100) % 0x100);
    assert(x / 0x10000 == 0x100 * (x / 0x10000 / 0x100) + (x / 0x10000) % 0x100);
}

/// A decoded peer-wire message: its kind and its payload bytes. A
/// keep-alive (length 0 on the wire) has no message and is handled by the
/// caller of the framing layer before a `WireMessage` is built.
pub struct WireMessage {
    pub message_type: MessageType,
    pub payload: Vec<u8>,
}

/// The framed form of a message: 4-byte big-endian length (one for the id
/// byte plus the payload length), the id byte, the payload.
pub open spec fn frame_spec(t: MessageType, payload: Seq<u8>) -> Seq<u8> {
    u32_be((payload.len() + 1) as u32) + seq![id_of(t)] + payload
}

pub fn message_id(t: MessageType) -> (r: u8)
    ensures
        r == id_of(t),
{
    match t {
        MessageType::Choke => 0,
        MessageType::Unchoke => 1,
        MessageType::Interested => 2,
        MessageType::NotInterested => 3,
        MessageType::Have => 4,
        MessageType::Bitfield => 5,
        MessageType::Request => 6,
        MessageType::Piece => 7,
        MessageType::Cancel => 8,
    }
}

/// The fallible conversion from a wire id byte; `None` exactly on ids the
/// protocol does not define.
pub fn message_type_from_id(id: u8) -> (r: Option<MessageType>)
    ensures
        r == type_of_id(id),
{
    if id == 0 {
        Some(MessageType::Choke)
    } else if id == 1 {
        Some(MessageType::Unchoke)
    } else if id == 2 {
        Some(MessageType::Interested)
    } else if id == 3 {
        Some(MessageType::NotInterested)
    } else if id == 4 {
        Some(MessageType::Have)
    } else if id == 5 {
        Some(MessageType::Bitfield)
    } else if id == 6 {
        Some(MessageType::Request)
    } else if id == 7 {
        Some(MessageType::Piece)
    } else if id == 8 {
        Some(MessageType::Cancel)
    } else {
        None
    }
}

/// Appends the 4-byte big-endian form of `n`.
pub fn push_u32_be(n: u32, out: &mut Vec<u8>)
    ensures
        final(out)@ == old(out)@ + u32_be(n),
{
    out.push((n / 0x1000000) as u8);
    out.push(((n / 0x10000) % 0x100) as u8);
    out.push(((n / 0x100) % 0x100) as u8);
    out.push((n % 0x100) as u8);
    proof {
        assert(out@ =~= old(out)@ + u32_be(n));
    }
}

/// Reads a 32-bit value from 4 big-endian bytes.
pub fn u32_from_be(b0: u8, b1: u8, b2: u8, b3: u8) -> (r: u32)
    ensures
        r as int == be_val(seq![b0, b1, b2, b3]),
{
    (b0 as u32) * 0x1000000 + (b1 as u32) * 0x10000 + (b2 as u32) * 0x100 + (b3 as u32)
}

/// Builds the framed bytes of one message: exactly what `send` writes to
/// the wire, a zero-length payload still yielding the 5-byte envelope.
pub fn encode_message(t: MessageType, payload: &Vec<u8>) -> (r: Vec<u8>)
    requires
        payload@.len() + 1 <= u32::MAX,
    ensures
        r@ == frame_spec(t, payload@),
        r@.len() == 5 + payload@.len(),
{
    let mut out: Vec<u8> = Vec::new();
    let len: u32 = payload.len() as u32 + 1;
    push_u32_be(len, &mut out);
    out.push(message_id(t));
    let mut k: usize = 0;
    while k < payload.len()
        invariant
            k <= payload@.len(),
            payload@.len() + 1 <= u32::MAX,
            len == payload@.len() + 1,
            out@ =~= u32_be(len) + seq![id_of(t)] + payload@.subrange(0, k as int),
        decreases payload@.len() - k,
    {
        out.push(payload[k]);
        k = k + 1;
    }
    proof {
        assert(payload@.subrange(0, payload@.len() as int) =~= payload@);
        assert(out@ =~= frame_spec(t, payload@));
    }
    out
}

/// The length a 4-byte header declares. Zero denotes a keep-alive with no
/// id or payload; otherwise the id byte and `length - 1` payload bytes
/// follow on the wire.
pub fn header_length(b: &Vec<u8>) -> (r: u32)
    requires
        b@.len() == 4,
    ensures
        r as int == be_val(b@),
{
    let r = u32_from_be(b[0], b[1], b[2], b[3]);
    proof {
        assert(seq![b@[0], b@[1], b@[2], b@[3]] =~= b@);
    }
    r
}

/// Pairs an id byte with its payload bytes; fails exactly on ids outside
/// the protocol's mapping, which are fatal in strict framing.
pub fn assemble_message(id: u8, payload: Vec<u8>) -> (r: Result<WireMessage, ProtocolError>)
    ensures
        match r {
            Ok(m) => type_of_id(id) == Some(m.message_type) && m.payload@ == payload@,
            Err(e) => type_of_id(id) is None && e == ProtocolError::UnknownMessageId,
        },
{
    match message_type_from_id(id) {
        Some(t) => Ok(WireMessage { message_type: t, payload }),
        None => Err(ProtocolError::UnknownMessageId),
    }
}

/// Framing round trip: a frame that `send` built declares the length of
/// its id byte and payload, carries the id of its type, and carries the
/// payload unchanged after the 5-byte envelope.
pub proof fn lemma_frame_round_trip(t: MessageType, payload: Seq<u8>)
    requires
        payload.len() + 1 <= u32::MAX,
    ensures
        frame_spec(t, payload).len() == 5 + payload.len(),
        be_val(frame_spec(t, payload).subrange(0, 4)) == payload.len() + 1,
        frame_spec(t, payload)[4] == id_of(t),
        type_of_id(id_of(t)) == Some(t),
        frame_spec(t, payload).skip(5) == payload,
{
    let f = frame_spec(t, payload);
    let n: u32 = (payload.len() + 1) as u32;
    lemma_be_round_trip(n);
    assert(f.subrange(0, 4) =~= u32_be(n));
    assert(f.skip(5) =~= payload);
}

} // verus!
