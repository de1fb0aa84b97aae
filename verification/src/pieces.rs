//! The piece-download engine: block layout and request framing, assembly
//! of received `Piece` messages into a buffer, and integrity verification
//! of the assembled piece against the metainfo digest. The socket loop that
//! writes the requests and reads the responses runs outside this crate and
//! hands the payloads in as plain values.

use vstd::prelude::*;
use vstd::arithmetic::div_mod::{lemma_fundamental_div_mod, lemma_fundamental_div_mod_converse};
use crate::bencode::{bytes_eq, lemma_skip_step};
use crate::digest::{sha1_of, sha1_it};
use crate::errors::{ProtocolError, VerificationError};
use crate::messaging::{
    MessageType, WireMessage, frame_spec, u32_be, be_val, encode_message, push_u32_be, u32_from_be,
};
use crate::metainfo::MetaInfoFile;

verus! {

/// The number of bytes piece `idx` of a torrent actually holds: the piece
/// length, except that the last piece holds only what remains.
pub open spec fn piece_span(length: int, piece_length: int, idx: int) -> int {
    if length - idx * piece_length < piece_length {
        length - idx * piece_length
    } else {
        piece_length
    }
}

/// The number of 16 KiB blocks a piece of `valid_len` bytes is split into,
/// a final shorter block counting as one.
pub open spec fn block_count(valid_len: int) -> int {
    (valid_len + 16383) / 16384
}

/// The length of block `k` of a piece of `valid_len` bytes.
pub open spec fn block_len_at(valid_len: int, k: int) -> int {
    if valid_len - k * 16384 < 16384 {
        valid_len - k * 16384
    } else {
        16384
    }
}

/// The 12-byte payload of a `Request` message: piece index, begin offset,
/// block length, each big-endian.
pub open spec fn request_payload(piece_index: u32, begin: u32, length: u32) -> Seq<u8> {
    u32_be(piece_index) + u32_be(begin) + u32_be(length)
}

proof fn lemma_piece_start(len: int, pl: int, count: int, idx: int)
    requires
        pl > 0,
        len >= 0,
        count == (len + pl - 1) / pl,
        0 <= idx < count,
    ensures
        idx * pl < len,
{
    lemma_fundamental_div_mod(len + pl - 1, pl);
    let rr = (len + pl - 1) % pl;
    assert(len + pl - 1 == pl * count + rr);
    assert(pl * count - pl == pl * (count - 1)) by (nonlinear_arith);
    assert(len == pl * (count - 1) + rr + 1);
    assert(pl * (count - 1) >= pl * idx) by (nonlinear_arith)
        requires pl > 0 && count - 1 >= idx;
    assert(pl * idx == idx * pl) by (nonlinear_arith);
}

/// The byte count of piece `piece_index` of a well-formed metainfo: the
/// piece length for every piece but the last, the remainder for the last.
pub fn valid_piece_length(m: &MetaInfoFile, piece_index: u64) -> (r: u64)
    requires
        m.wf(),
        (piece_index as int) < m.piece_hashes@.len(),
    ensures
        r as int == piece_span(m.length as int, m.piece_length as int, piece_index as int),
        1 <= r <= m.piece_length,
{
    proof {
        lemma_piece_start(
            m.length as int,
            m.piece_length as int,
            m.piece_hashes@.len() as int,
            piece_index as int,
        );
    }
    let start = piece_index * m.piece_length;
    let rest = m.length - start;
    if rest < m.piece_length {
        rest
    } else {
        m.piece_length
    }
}

/// Builds the framed `Request` message for one block: piece index, begin
/// (the block offset times 16 KiB), and the block length to read.
pub fn request_piece_part(piece_index: u32, offset_block: u32, bytes_to_read: u32) -> (r: Vec<u8>)
    requires
        offset_block * 16384 <= u32::MAX,
    ensures
        r@ == frame_spec(
            MessageType::Request,
            request_payload(piece_index, (offset_block as int * 16384) as u32, bytes_to_read),
        ),
{
    let begin: u32 = offset_block * 16384;
    let mut payload: Vec<u8> = Vec::new();
    push_u32_be(piece_index, &mut payload);
    push_u32_be(begin, &mut payload);
    push_u32_be(bytes_to_read, &mut payload);
    proof {
        assert(payload@ =~= request_payload(piece_index, begin, bytes_to_read));
    }
    encode_message(MessageType::Request, &payload)
}

/// All `Request` frames for one piece, in order: full 16 KiB blocks from
/// begin 0 upward, and a final shorter block exactly when the piece length
/// is not a multiple of 16 KiB.
pub fn piece_requests(piece_index: u32, valid_len: u32) -> (r: Vec<Vec<u8>>)
    requires
        valid_len >= 1,
    ensures
        r@.len() == block_count(valid_len as int),
        forall|k: int| 0 <= k < r@.len() ==> #[trigger] r@[k]@ == frame_spec(
            MessageType::Request,
            request_payload(
                piece_index,
                (k * 16384) as u32,
                block_len_at(valid_len as int, k) as u32,
            ),
        ),
{
    let mut out: Vec<Vec<u8>> = Vec::new();
    let mut remaining: u32 = valid_len;
    let mut k: u32 = 0;
    while remaining > 0
        invariant
            remaining <= valid_len,
            valid_len >= 1,
            out@.len() == k,
            remaining > 0 ==> valid_len as int == k as int * 16384 + remaining,
            remaining == 0 ==> k as int == block_count(valid_len as int),
            forall|i: int| 0 <= i < out@.len() ==> #[trigger] out@[i]@ == frame_spec(
                MessageType::Request,
                request_payload(
                    piece_index,
                    (i * 16384) as u32,
                    block_len_at(valid_len as int, i) as u32,
                ),
            ),
        decreases remaining,
    {
        let this_len: u32 = if remaining >= 16384 {
            16384
        } else {
            remaining
        };
        proof {
            assert(k as int * 16384 == valid_len - remaining);
            assert(block_len_at(valid_len as int, k as int) == this_len);
        }
        let msg = request_piece_part(piece_index, k, this_len);
        out.push(msg);
        let ghost old_k = k as int;
        let ghost old_remaining = remaining as int;
        remaining = remaining - this_len;
        k = k + 1;
        proof {
            if remaining == 0 {
                if old_remaining >= 16384 {
                    assert(valid_len as int + 16383 == (old_k + 1) * 16384 + 16383)
                        by (nonlinear_arith)
                        requires valid_len as int == old_k * 16384 + 16384;
                    lemma_fundamental_div_mod_converse(
                        valid_len as int + 16383,
                        16384,
                        old_k + 1,
                        16383,
                    );
                } else {
                    assert(valid_len as int + 16383 == (old_k + 1) * 16384 + (old_remaining - 1))
                        by (nonlinear_arith)
                        requires valid_len as int == old_k * 16384 + old_remaining;
                    lemma_fundamental_div_mod_converse(
                        valid_len as int + 16383,
                        16384,
                        old_k + 1,
                        old_remaining - 1,
                    );
                }
            }
            assert(forall|i: int| 0 <= i < old_k ==> block_len_at(valid_len as int, i) == 16384);
        }
    }
    out
}

// ---------------------------------------------------------------------------
// Assembly and verification of received piece data
// ---------------------------------------------------------------------------

/// A buffer of `n` zero bytes.
pub open spec fn zeros(n: int) -> Seq<u8> {
    Seq::new(n as nat, |i: int| 0u8)
}

/// `buf` with `data` written at offset `begin`.
pub open spec fn place_spec(buf: Seq<u8>, begin: int, data: Seq<u8>) -> Seq<u8> {
    buf.subrange(0, begin) + data + buf.skip(begin + data.len())
}

/// The kind and payload of each message, in order.
pub open spec fn msg_views(ms: Seq<WireMessage>) -> Seq<(MessageType, Seq<u8>)>
    decreases ms.len(),
{
    if ms.len() == 0 {
        Seq::empty()
    } else {
        seq![(ms[0].message_type, ms[0].payload@)] + msg_views(ms.drop_first())
    }
}

pub proof fn lemma_msg_views_index(ms: Seq<WireMessage>)
    ensures
        msg_views(ms).len() == ms.len(),
        forall|i: int| 0 <= i < ms.len() ==> #[trigger] msg_views(ms)[i] == (
            ms[i].message_type,
            ms[i].payload@,
        ),
    decreases ms.len(),
{
    if ms.len() > 0 {
        lemma_msg_views_index(ms.drop_first());
        assert forall|i: int| 0 <= i < ms.len() implies #[trigger] msg_views(ms)[i] == (
            ms[i].message_type,
            ms[i].payload@,
        ) by {
            if i > 0 {
                assert(msg_views(ms)[i] == msg_views(ms.drop_first())[i - 1]);
                assert(ms.drop_first()[i - 1] == ms[i]);
            }
        }
    }
}

/// Folds piece messages into a buffer: each message must be a `Piece`
/// whose payload is piece index (4 bytes), begin (4 bytes), block bytes;
/// the block lands at the begin offset its own payload declares. A message
/// of any other kind, or one whose payload lacks the 8-byte prefix, is out
/// of sequence; a block past the end of the buffer is out of range. The
/// first offending message decides the error.
pub open spec fn assemble_spec(msgs: Seq<(MessageType, Seq<u8>)>, buf: Seq<u8>) -> Result<
    Seq<u8>,
    ProtocolError,
>
    decreases msgs.len(),
{
    if msgs.len() == 0 {
        Ok(buf)
    } else if msgs[0].0 != MessageType::Piece {
        Err(ProtocolError::UnexpectedMessage)
    } else if msgs[0].1.len() < 8 {
        Err(ProtocolError::UnexpectedMessage)
    } else {
        let begin = be_val(msgs[0].1.subrange(4, 8));
        let data = msgs[0].1.skip(8);
        if begin + data.len() <= buf.len() {
            assemble_spec(msgs.drop_first(), place_spec(buf, begin, data))
        } else {
            Err(ProtocolError::BlockOutOfRange)
        }
    }
}

/// Assembles the received piece messages into a buffer of `valid_len`
/// bytes, each block copied to the begin offset its payload declares; any
/// non-`Piece` message, malformed payload, or out-of-range block is a
/// fatal protocol error for this transfer.
pub fn assemble_piece(responses: &Vec<WireMessage>, valid_len: usize) -> (r: Result<
    Vec<u8>,
    ProtocolError,
>)
    ensures
        match r {
            Ok(buf) => buf@.len() == valid_len && assemble_spec(
                msg_views(responses@),
                zeros(valid_len as int),
            ) == Ok::<Seq<u8>, ProtocolError>(buf@),
            Err(e) => assemble_spec(msg_views(responses@), zeros(valid_len as int))
                == Err::<Seq<u8>, ProtocolError>(e),
        },
{
    let ghost mv = msg_views(responses@);
    let mut buf: Vec<u8> = Vec::new();
    let mut z: usize = 0;
    while z < valid_len
        invariant
            z <= valid_len,
            buf@ =~= zeros(z as int),
        decreases valid_len - z,
    {
        buf.push(0);
        z = z + 1;
    }
    proof {
        lemma_msg_views_index(responses@);
        assert(mv.skip(0) =~= mv);
        assert(buf@ =~= zeros(valid_len as int));
    }
    let mut k: usize = 0;
    while k < responses.len()
        invariant
            k <= responses@.len(),
            mv == msg_views(responses@),
            mv.len() == responses@.len(),
            forall|i: int| 0 <= i < mv.len() ==> #[trigger] mv[i] == (
                responses@[i].message_type,
                responses@[i].payload@,
            ),
            buf@.len() == valid_len,
            assemble_spec(mv, zeros(valid_len as int)) == assemble_spec(mv.skip(k as int), buf@),
        decreases responses@.len() - k,
    {
        proof {
            lemma_skip_step(mv, k as int);
        }
        let msg = &responses[k];
        if msg.message_type != MessageType::Piece {
            return Err(ProtocolError::UnexpectedMessage);
        }
        if msg.payload.len() < 8 {
            return Err(ProtocolError::UnexpectedMessage);
        }
        let begin_u = u32_from_be(msg.payload[4], msg.payload[5], msg.payload[6], msg.payload[7]);
        proof {
            assert(seq![
                msg.payload@[4],
                msg.payload@[5],
                msg.payload@[6],
                msg.payload@[7],
            ] =~= msg.payload@.subrange(4, 8));
        }
        let begin = begin_u as usize;
        let dlen = msg.payload.len() - 8;
        if begin > valid_len || dlen > valid_len - begin {
            return Err(ProtocolError::BlockOutOfRange);
        }
        let ghost buf0 = buf@;
        let mut t: usize = 0;
        while t < dlen
            invariant
                t <= dlen,
                k < responses@.len(),
                msg.payload@ == responses@[k as int].payload@,
                msg.payload@.len() <= usize::MAX,
                dlen == responses@[k as int].payload@.len() - 8,
                begin + dlen <= valid_len,
                buf@.len() == valid_len,
                buf0.len() == valid_len,
                forall|p: int| 0 <= p < buf@.len() ==> buf@[p] == (if begin <= p < begin + t {
                    responses@[k as int].payload@[8 + (p - begin)]
                } else {
                    buf0[p]
                }),
            decreases dlen - t,
        {
            let byte = msg.payload[8 + t];
            buf[begin + t] = byte;
            t = t + 1;
        }
        proof {
            let data = responses@[k as int].payload@.skip(8);
            assert(buf@ =~= place_spec(buf0, begin as int, data));
            assert(mv.skip(k as int)[0] == mv[k as int]);
            assert(assemble_spec(mv.skip(k as int), buf0) == assemble_spec(
                mv.skip(k as int + 1),
                buf@,
            ));
        }
        k = k + 1;
    }
    proof {
        assert(mv.skip(k as int).len() == 0);
    }
    Ok(buf)
}

/// Compares a buffer's SHA-1 digest with the expected piece digest; a
/// mismatch discards the piece.
pub fn verify_piece(piece: &Vec<u8>, expected: &Vec<u8>) -> (r: Result<(), VerificationError>)
    ensures
        r is Ok <==> sha1_of(piece@) == expected@,
        r is Err ==> r->Err_0 == VerificationError::HashMismatch,
{
    let d = sha1_it(piece);
    if bytes_eq(&d, expected) {
        Ok(())
    } else {
        Err(VerificationError::HashMismatch)
    }
}

/// Protocol or integrity failure of a piece download.
#[derive(Clone, Copy, Debug, PartialEq, Eq, Structural)]
pub enum PieceError {
    Protocol(ProtocolError),
    Verification(VerificationError),
}

/// The pure tail of a piece download: assembles the received messages into
/// the piece buffer and verifies its digest against the expected one.
/// Returns the verified bytes exactly when the messages tile the buffer
/// validly and the digest matches.
pub fn finish_piece(responses: &Vec<WireMessage>, valid_len: usize, expected: &Vec<u8>) -> (r:
    Result<Vec<u8>, PieceError>)
    ensures
        match r {
            Ok(buf) => assemble_spec(msg_views(responses@), zeros(valid_len as int)) == Ok::<
                Seq<u8>,
                ProtocolError,
            >(buf@) && sha1_of(buf@) == expected@ && buf@.len() == valid_len,
            Err(PieceError::Protocol(e)) => assemble_spec(
                msg_views(responses@),
                zeros(valid_len as int),
            ) == Err::<Seq<u8>, ProtocolError>(e),
            Err(PieceError::Verification(e)) => e == VerificationError::HashMismatch && (match
                assemble_spec(msg_views(responses@), zeros(valid_len as int)) {
                Ok(b) => sha1_of(b) != expected@,
                Err(_) => false,
            }),
        },
{
    let buf = match assemble_piece(responses, valid_len) {
        Ok(b) => b,
        Err(e) => {
            return Err(PieceError::Protocol(e));
        },
    };
    match verify_piece(&buf, expected) {
        Ok(_) => Ok(buf),
        Err(e) => Err(PieceError::Verification(e)),
    }
}

// ---------------------------------------------------------------------------
// The once-per-connection exchange before requests are sent
// ---------------------------------------------------------------------------

/// Phases of the exchange on a fresh connection: the peer's bitfield must
/// arrive first; then, after `Interested` is sent, the peer's unchoke.
#[derive(Clone, Copy, Debug, PartialEq, Eq, Structural)]
pub enum SetupPhase {
    AwaitBitfield,
    AwaitUnchoke,
    Ready,
}

pub open spec fn setup_next(p: SetupPhase, t: MessageType) -> Option<SetupPhase> {
    match (p, t) {
        (SetupPhase::AwaitBitfield, MessageType::Bitfield) => Some(SetupPhase::AwaitUnchoke),
        (SetupPhase::AwaitUnchoke, MessageType::Unchoke) => Some(SetupPhase::Ready),
        _ => None,
    }
}

/// Advances the pre-download exchange on one received message; any other
/// message in these phases is out of sequence and fatal for the
/// connection.
pub fn setup_step(p: SetupPhase, t: MessageType) -> (r: Result<SetupPhase, ProtocolError>)
    ensures
        match r {
            Ok(n) => setup_next(p, t) == Some(n),
            Err(e) => setup_next(p, t) is None && e == ProtocolError::UnexpectedMessage,
        },
{
    match (p, t) {
        (SetupPhase::AwaitBitfield, MessageType::Bitfield) => Ok(SetupPhase::AwaitUnchoke),
        (SetupPhase::AwaitUnchoke, MessageType::Unchoke) => Ok(SetupPhase::Ready),
        _ => Err(ProtocolError::UnexpectedMessage),
    }
}

} // verus!
