//! Metainfo (`.torrent`) parsing: decodes the bencoded dictionary, extracts
//! the announce URL, the lengths and the per-piece digests, and computes
//! the info-hash over the canonical re-encoding of the `info` dictionary.

use vstd::prelude::*;
use vstd::arithmetic::div_mod::{lemma_fundamental_div_mod, lemma_fundamental_div_mod_converse};
use crate::bencode::{
    BencodeValue, Bval, bval_of, bpairs_of, decode, encode, enc_value, canon, bytes_eq, copy_bytes,
    lemma_bpairs_index, lemma_skip_step, dec_value,
};
use crate::digest::{sha1_of, sha1_it, hex_of, hex_bytes};
use crate::errors::FormatError;

verus! {

/// The first value bound to `key` in a dictionary's pairs, in stored order.
pub open spec fn bv_get(pairs: Seq<(Seq<u8>, Bval)>, key: Seq<u8>) -> Option<Bval>
    decreases pairs.len(),
{
    if pairs.len() == 0 {
        None
    } else if pairs[0].0 == key {
        Some(pairs[0].1)
    } else {
        bv_get(pairs.drop_first(), key)
    }
}

pub open spec fn key_announce() -> Seq<u8> {
    seq![97u8, 110, 110, 111, 117, 110, 99, 101]
}

pub open spec fn key_info() -> Seq<u8> {
    seq![105u8, 110, 102, 111]
}

pub open spec fn key_length() -> Seq<u8> {
    seq![108u8, 101, 110, 103, 116, 104]
}

pub open spec fn key_piece_length() -> Seq<u8> {
    seq![112u8, 105, 101, 99, 101, 32, 108, 101, 110, 103, 116, 104]
}

pub open spec fn key_pieces() -> Seq<u8> {
    seq![112u8, 105, 101, 99, 101, 115]
}

fn make_key_announce() -> (r: Vec<u8>)
    ensures
        r@ == key_announce(),
{
    let mut v: Vec<u8> = Vec::new();
    v.push(97);
    v.push(110);
    v.push(110);
    v.push(111);
    v.push(117);
    v.push(110);
    v.push(99);
    v.push(101);
    proof {
        assert(v@ =~= key_announce());
    }
    v
}

fn make_key_info() -> (r: Vec<u8>)
    ensures
        r@ == key_info(),
{
    let mut v: Vec<u8> = Vec::new();
    v.push(105);
    v.push(110);
    v.push(102);
    v.push(111);
    proof {
        assert(v@ =~= key_info());
    }
    v
}

fn make_key_length() -> (r: Vec<u8>)
    ensures
        r@ == key_length(),
{
    let mut v: Vec<u8> = Vec::new();
    v.push(108);
    v.push(101);
    v.push(110);
    v.push(103);
    v.push(116);
    v.push(104);
    proof {
        assert(v@ =~= key_length());
    }
    v
}

fn make_key_piece_length() -> (r: Vec<u8>)
    ensures
        r@ == key_piece_length(),
{
    let mut v: Vec<u8> = Vec::new();
    v.push(112);
    v.push(105);
    v.push(101);
    v.push(99);
    v.push(101);
    v.push(32);
    v.push(108);
    v.push(101);
    v.push(110);
    v.push(103);
    v.push(116);
    v.push(104);
    proof {
        assert(v@ =~= key_piece_length());
    }
    v
}

fn make_key_pieces() -> (r: Vec<u8>)
    ensures
        r@ == key_pieces(),
{
    let mut v: Vec<u8> = Vec::new();
    v.push(112);
    v.push(105);
    v.push(101);
    v.push(99);
    v.push(101);
    v.push(115);
    proof {
        assert(v@ =~= key_pieces());
    }
    v
}

/// Linear search of a decoded dictionary for `key`.
fn dict_get<'a>(pairs: &'a Vec<(Vec<u8>, BencodeValue)>, key: &Vec<u8>) -> (r: Option<
    &'a BencodeValue,
>)
    ensures
        match r {
            Some(v) => bv_get(bpairs_of(pairs@), key@) == Some(bval_of(*v)),
            None => bv_get(bpairs_of(pairs@), key@) is None,
        },
{
    let ghost pv = bpairs_of(pairs@);
    proof {
        lemma_bpairs_index(pairs@);
        assert(pv.skip(0) =~= pv);
    }
    let mut k: usize = 0;
    while k < pairs.len()
        invariant
            k <= pairs@.len(),
            pv == bpairs_of(pairs@),
            pv.len() == pairs@.len(),
            forall|i: int| 0 <= i < pairs@.len()
                ==> #[trigger] pv[i] == (pairs@[i].0@, bval_of(pairs@[i].1)),
            bv_get(pv, key@) == bv_get(pv.skip(k as int), key@),
        decreases pairs@.len() - k,
    {
        proof {
            lemma_skip_step(pv, k as int);
        }
        if bytes_eq(&pairs[k].0, key) {
            proof {
                assert(pv.skip(k as int)[0] == pv[k as int]);
            }
            return Some(&pairs[k].1);
        }
        proof {
            assert(pv.skip(k as int)[0].0 != key@);
        }
        k = k + 1;
    }
    proof {
        assert(pv.skip(k as int).len() == 0);
    }
    None
}

/// The fields a metainfo file yields, when its bytes decode to a
/// dictionary of the required shape: the announce bytes, the total length,
/// the piece length, the concatenated 20-byte digests, and the `info`
/// dictionary itself (whose canonical encoding is hashed).
pub open spec fn meta_spec(bytes: Seq<u8>) -> Option<
    (Seq<u8>, int, int, Seq<u8>, Seq<(Seq<u8>, Bval)>),
> {
    match dec_value(bytes) {
        Some((Bval::Dict(top), _rest)) => match (
            bv_get(top, key_announce()),
            bv_get(top, key_info()),
        ) {
            (Some(Bval::Bytes(announce)), Some(Bval::Dict(info))) => match (
                bv_get(info, key_length()),
                bv_get(info, key_piece_length()),
                bv_get(info, key_pieces()),
            ) {
                (Some(Bval::Int(len)), Some(Bval::Int(pl)), Some(Bval::Bytes(pieces))) => {
                    if 0 <= len && 0 < pl && pieces.len() % 20 == 0 && pieces.len() / 20 == (len
                        + pl - 1) / pl {
                        Some((announce, len, pl, pieces, info))
                    } else {
                        None
                    }
                },
                _ => None,
            },
            _ => None,
        },
        _ => None,
    }
}

/// A parsed `.torrent` file, immutable after construction.
pub struct MetaInfoFile {
    /// The tracker URL, as the byte string the file holds.
    pub announce: Vec<u8>,
    /// Total content size in bytes.
    pub length: u64,
    /// Size of every piece but possibly the last.
    pub piece_length: u64,
    /// One 20-byte SHA-1 digest per piece.
    pub piece_hashes: Vec<Vec<u8>>,
    /// SHA-1 digest of the canonical encoding of the `info` dictionary.
    pub info_hash: Vec<u8>,
}

impl MetaInfoFile {
    /// Well-formedness: a positive piece length, one 20-byte digest per
    /// piece with exactly the count the lengths imply (the ceiling of
    /// `length / piece_length`), and a 20-byte info-hash.
    pub open spec fn wf(self) -> bool {
        &&& self.piece_length > 0
        &&& self.piece_hashes@.len() == (self.length + self.piece_length - 1) as int
            / self.piece_length as int
        &&& forall|i: int| 0 <= i < self.piece_hashes@.len()
            ==> #[trigger] self.piece_hashes@[i]@.len() == 20
        &&& self.info_hash@.len() == 20
    }

    /// The info-hash as lower-case hexadecimal ASCII bytes.
    pub fn info_hash_hex(&self) -> (r: Vec<u8>)
        ensures
            r@ == hex_of(self.info_hash@),
    {
        hex_bytes(&self.info_hash)
    }
}

/// The piece-count rule of a well-formed metainfo is the ceiling of the
/// total length over the piece length.
pub proof fn lemma_piece_count_is_ceil(len: int, pl: int)
    requires
        len >= 0,
        pl > 0,
    ensures
        (len + pl - 1) / pl == (if len % pl == 0 {
            len / pl
        } else {
            len / pl + 1
        }),
{
    let q = len / pl;
    let r = len % pl;
    lemma_fundamental_div_mod(len, pl);
    assert(len == pl * q + r);
    if r == 0 {
        assert(len + pl - 1 == q * pl + (pl - 1)) by (nonlinear_arith)
            requires len == pl * q + r && r == 0;
        lemma_fundamental_div_mod_converse(len + pl - 1, pl, q, pl - 1);
    } else {
        assert(len + pl - 1 == (q + 1) * pl + (r - 1)) by (nonlinear_arith)
            requires len == pl * q + r;
        lemma_fundamental_div_mod_converse(len + pl - 1, pl, q + 1, r - 1);
    }
}

/// Parses a `.torrent` file. Succeeds exactly when the bytes decode to a
/// dictionary with an `announce` byte string and an `info` dictionary
/// holding integral `length` (non-negative) and `piece length` (positive)
/// and a `pieces` byte string of whole 20-byte digests whose count is the
/// piece count those lengths imply; any other shape is a format error.
pub fn parse(bytes: &[u8]) -> (r: Result<MetaInfoFile, FormatError>)
    ensures
        match r {
            Ok(m) => meta_spec(bytes@) is Some && {
                let (announce, len, pl, pieces, info) = meta_spec(bytes@)->Some_0;
                &&& m.announce@ == announce
                &&& m.length == len
                &&& m.piece_length == pl
                &&& m.piece_hashes@.len() * 20 == pieces.len()
                &&& forall|i: int| 0 <= i < m.piece_hashes@.len()
                    ==> #[trigger] m.piece_hashes@[i]@ == pieces.subrange(20 * i, 20 * i + 20)
                &&& m.info_hash@ == sha1_of(enc_value(canon(Bval::Dict(info))))
                &&& m.wf()
            },
            Err(e) => meta_spec(bytes@) is None && e == FormatError::Malformed,
        },
{
    let top = match decode(bytes) {
        Ok((v, _n)) => v,
        Err(e) => {
            return Err(e);
        },
    };
    let top_pairs = match &top {
        BencodeValue::Dictionary(p) => p,
        _ => {
            return Err(FormatError::Malformed);
        },
    };
    let key_a = make_key_announce();
    let announce_v = match dict_get(top_pairs, &key_a) {
        Some(v) => v,
        None => {
            return Err(FormatError::Malformed);
        },
    };
    let announce = match announce_v {
        BencodeValue::ByteString(b) => b,
        _ => {
            return Err(FormatError::Malformed);
        },
    };
    let key_i = make_key_info();
    let info_v = match dict_get(top_pairs, &key_i) {
        Some(v) => v,
        None => {
            return Err(FormatError::Malformed);
        },
    };
    let info_pairs = match info_v {
        BencodeValue::Dictionary(p) => p,
        _ => {
            return Err(FormatError::Malformed);
        },
    };
    let key_l = make_key_length();
    let len_i = match dict_get(info_pairs, &key_l) {
        Some(BencodeValue::Integer(l)) => *l,
        _ => {
            return Err(FormatError::Malformed);
        },
    };
    if len_i < 0 {
        return Err(FormatError::Malformed);
    }
    let key_p = make_key_piece_length();
    let pl_i = match dict_get(info_pairs, &key_p) {
        Some(BencodeValue::Integer(p)) => *p,
        _ => {
            return Err(FormatError::Malformed);
        },
    };
    if pl_i <= 0 {
        return Err(FormatError::Malformed);
    }
    let key_s = make_key_pieces();
    let pieces = match dict_get(info_pairs, &key_s) {
        Some(BencodeValue::ByteString(b)) => b,
        _ => {
            return Err(FormatError::Malformed);
        },
    };
    if pieces.len() % 20 != 0 {
        return Err(FormatError::Malformed);
    }
    let count = pieces.len() / 20;
    let l_u = len_i as u64;
    let p_u = pl_i as u64;
    let expect = (l_u + p_u - 1) / p_u;
    if count as u64 != expect {
        return Err(FormatError::Malformed);
    }
    let enc_info = encode(info_v);
    let ih = sha1_it(&enc_info);
    let mut hashes: Vec<Vec<u8>> = Vec::new();
    let mut k: usize = 0;
    while k < count
        invariant
            k <= count,
            count == pieces@.len() / 20,
            pieces@.len() % 20 == 0,
            pieces@.len() == 20 * count,
            pieces@.len() <= usize::MAX,
            hashes@.len() == k,
            forall|i: int| 0 <= i < k
                ==> #[trigger] hashes@[i]@ == pieces@.subrange(20 * i, 20 * i + 20),
        decreases count - k,
    {
        let mut h: Vec<u8> = Vec::new();
        let mut t: usize = 0;
        while t < 20
            invariant
                t <= 20,
                k < count,
                pieces@.len() == 20 * count,
                pieces@.len() <= usize::MAX,
                h@ =~= pieces@.subrange(20 * k as int, 20 * k as int + t as int),
            decreases 20 - t,
        {
            h.push(pieces[20 * k + t]);
            t = t + 1;
        }
        hashes.push(h);
        k = k + 1;
    }
    Ok(MetaInfoFile {
        announce: copy_bytes(announce),
        length: l_u,
        piece_length: p_u,
        piece_hashes: hashes,
        info_hash: ih,
    })
}

} // verus!
