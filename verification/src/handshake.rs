//! The fixed 68-byte BitTorrent handshake: one length byte (19), the
//! 19-byte protocol tag, 8 reserved zero bytes, the 20-byte info-hash, and
//! the 20-byte peer id. The network exchange is driven outside this crate;
//! here the outgoing bytes are built and the echoed reply is validated.

use vstd::prelude::*;
use crate::bencode::bytes_eq;
use crate::errors::ProtocolError;

verus! {

/// The ASCII bytes of "BitTorrent protocol".
pub open spec fn protocol_tag() -> Seq<u8> {
    seq![
        66u8, 105, 116, 84, 111, 114, 114, 101, 110, 116, 32, 112, 114, 111, 116, 111, 99, 111,
        108,
    ]
}

/// The 68-byte handshake message for a torrent and a local peer id.
pub open spec fn handshake_spec(info_hash: Seq<u8>, peer_id: Seq<u8>) -> Seq<u8> {
    seq![19u8] + protocol_tag() + seq![0u8, 0, 0, 0, 0, 0, 0, 0] + info_hash + peer_id
}

/// Builds the 68 bytes sent to open the handshake.
pub fn build_handshake(info_hash: &Vec<u8>, peer_id: &Vec<u8>) -> (r: Vec<u8>)
    requires
        info_hash@.len() == 20,
        peer_id@.len() == 20,
    ensures
        r@ == handshake_spec(info_hash@, peer_id@),
        r@.len() == 68,
{
    let mut out: Vec<u8> = Vec::new();
    out.push(19);
    out.push(66);
    out.push(105);
    out.push(116);
    out.push(84);
    out.push(111);
    out.push(114);
    out.push(114);
    out.push(101);
    out.push(110);
    out.push(116);
    out.push(32);
    out.push(112);
    out.push(114);
    out.push(111);
    out.push(116);
    out.push(111);
    out.push(99);
    out.push(111);
    out.push(108);
    let mut k: usize = 0;
    while k < 8
        invariant
            k <= 8,
            out@ =~= seq![19u8] + protocol_tag() + seq![0u8, 0, 0, 0, 0, 0, 0, 0].subrange(
                0,
                k as int,
            ),
        decreases 8 - k,
    {
        out.push(0);
        k = k + 1;
    }
    let mut k: usize = 0;
    while k < info_hash.len()
        invariant
            k <= info_hash@.len(),
            info_hash@.len() == 20,
            out@ =~= seq![19u8] + protocol_tag() + seq![0u8, 0, 0, 0, 0, 0, 0, 0]
                + info_hash@.subrange(0, k as int),
        decreases info_hash@.len() - k,
    {
        out.push(info_hash[k]);
        k = k + 1;
    }
    let mut k: usize = 0;
    while k < peer_id.len()
        invariant
            k <= peer_id@.len(),
            peer_id@.len() == 20,
            info_hash@.len() == 20,
            out@ =~= seq![19u8] + protocol_tag() + seq![0u8, 0, 0, 0, 0, 0, 0, 0] + info_hash@
                + peer_id@.subrange(0, k as int),
        decreases peer_id@.len() - k,
    {
        out.push(peer_id[k]);
        k = k + 1;
    }
    proof {
        assert(out@ =~= handshake_spec(info_hash@, peer_id@));
    }
    out
}

/// Validates the 68-byte reply a remote peer echoed: its info-hash (bytes
/// 28 to 47) must equal the one sent; on success the remote peer id (the
/// trailing 20 bytes) is returned. A mismatched info-hash means the peer
/// serves another torrent and is a fatal protocol error.
pub fn check_handshake_reply(reply: &Vec<u8>, expected_info_hash: &Vec<u8>) -> (r: Result<
    Vec<u8>,
    ProtocolError,
>)
    requires
        reply@.len() == 68,
        expected_info_hash@.len() == 20,
    ensures
        match r {
            Ok(peer_id) => reply@.subrange(28, 48) == expected_info_hash@ && peer_id@
                == reply@.subrange(48, 68),
            Err(e) => reply@.subrange(28, 48) != expected_info_hash@ && e
                == ProtocolError::InfoHashMismatch,
        },
{
    let mut echoed: Vec<u8> = Vec::new();
    let mut k: usize = 0;
    while k < 20
        invariant
            k <= 20,
            reply@.len() == 68,
            echoed@ =~= reply@.subrange(28, 28 + k as int),
        decreases 20 - k,
    {
        echoed.push(reply[28 + k]);
        k = k + 1;
    }
    if !bytes_eq(&echoed, expected_info_hash) {
        return Err(ProtocolError::InfoHashMismatch);
    }
    let mut peer_id: Vec<u8> = Vec::new();
    let mut k: usize = 0;
    while k < 20
        invariant
            k <= 20,
            reply@.len() == 68,
            peer_id@ =~= reply@.subrange(48, 48 + k as int),
        decreases 20 - k,
    {
        peer_id.push(reply[48 + k]);
        k = k + 1;
    }
    Ok(peer_id)
}

} // verus!
