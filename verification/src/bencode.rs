//! Bencode codec: decoding and encoding of the serialization format used by
//! `.torrent` files (byte strings, integers, lists, dictionaries).
//!
//! The wire form is modelled by spec functions over byte sequences:
//! `enc_value` gives the canonical encoding of a value and `dec_value` gives
//! the result of parsing a byte sequence. The executable `decode` and
//! `encode` are proved to agree with them, and `lemma_dec_enc` proves the
//! round trip: decoding an encoding yields the value back.

use vstd::prelude::*;
use crate::errors::FormatError;

verus! {

/// A bencode value. Dictionaries keep their pairs in the order they were
/// decoded or constructed; `encode` re-serializes them with keys in ascending
/// byte-lexicographic order, the format's canonical rule.
#[derive(Debug, PartialEq, Eq)]
pub enum BencodeValue {
    ByteString(Vec<u8>),
    Integer(i64),
    List(Vec<BencodeValue>),
    Dictionary(Vec<(Vec<u8>, BencodeValue)>),
}

/// The mathematical model of a bencode value: byte strings are sequences,
/// integers are unbounded, and the containers are sequences of models.
pub enum Bval {
    Bytes(Seq<u8>),
    Int(int),
    List(Seq<Bval>),
    Dict(Seq<(Seq<u8>, Bval)>),
}

/// The model of an executable value.
pub open spec fn bval_of(v: BencodeValue) -> Bval
    decreases v, 0int,
{
    match v {
        BencodeValue::ByteString(b) => Bval::Bytes(b@),
        BencodeValue::Integer(i) => Bval::Int(i as int),
        BencodeValue::List(items) => Bval::List(bvals_of(items@)),
        BencodeValue::Dictionary(pairs) => Bval::Dict(bpairs_of(pairs@)),
    }
}

pub open spec fn bvals_of(items: Seq<BencodeValue>) -> Seq<Bval>
    decreases items, 1int,
{
    if items.len() == 0 {
        Seq::empty()
    } else {
        seq![bval_of(items[0])] + bvals_of(items.drop_first())
    }
}

pub open spec fn bpairs_of(pairs: Seq<(Vec<u8>, BencodeValue)>) -> Seq<(Seq<u8>, Bval)>
    decreases pairs, 1int,
{
    if pairs.len() == 0 {
        Seq::empty()
    } else {
        seq![(pairs[0].0@, bval_of(pairs[0].1))] + bpairs_of(pairs.drop_first())
    }
}

// ---------------------------------------------------------------------------
// Decimal digits
// ---------------------------------------------------------------------------

pub open spec fn is_ascii_digit(b: u8) -> bool {
    48 <= b && b <= 57
}

/// The decimal digits of `n`, most significant first, as ASCII bytes.
pub open spec fn dec_digits(n: nat) -> Seq<u8>
    decreases n,
{
    if n < 10 {
        seq![(48 + n) as u8]
    } else {
        dec_digits(n / 10) + seq![(48 + n % 10) as u8]
    }
}

pub open spec fn pow10(k: nat) -> int
    decreases k,
{
    if k == 0 {
        1
    } else {
        10 * pow10((k - 1) as nat)
    }
}

/// Greedy parse of a decimal digit run at the front of `s`, folding the
/// digits into `acc`; returns the value and the unconsumed suffix.
pub open spec fn parse_digits(s: Seq<u8>, acc: int) -> (int, Seq<u8>)
    decreases s.len(),
{
    if s.len() > 0 && is_ascii_digit(s[0]) {
        parse_digits(s.drop_first(), acc * 10 + (s[0] - 48))
    } else {
        (acc, s)
    }
}

// ---------------------------------------------------------------------------
// The decoder, as a function on byte sequences
// ---------------------------------------------------------------------------

/// Result of parsing one bencode value at the front of `s`: the value and
/// the unconsumed suffix, or `None` on any structural violation (missing
/// terminator, non-numeric length, truncated input, or an integer outside
/// the signed 64-bit range the data model stores).
pub open spec fn dec_value(s: Seq<u8>) -> Option<(Bval, Seq<u8>)>
    decreases s.len(), 0int,
{
    if s.len() == 0 {
        None
    } else if is_ascii_digit(s[0]) {
        // byte string: <decimal length>:<bytes>
        let (n, r1) = parse_digits(s, 0);
        if r1.len() > 0 && r1[0] == 58 && n + 1 <= r1.len() {
            Some((Bval::Bytes(r1.subrange(1, n + 1)), r1.skip(n + 1)))
        } else {
            None
        }
    } else if s[0] == 105 {
        // integer: i<digits>e, optionally negative
        let body = s.drop_first();
        let neg = body.len() > 0 && body[0] == 45;
        let digs = if neg { body.drop_first() } else { body };
        let (n, r1) = parse_digits(digs, 0);
        let v = if neg { -n } else { n };
        if r1.len() < digs.len() && r1.len() > 0 && r1[0] == 101
            && -0x8000_0000_0000_0000 <= v && v <= 0x7fff_ffff_ffff_ffff {
            Some((Bval::Int(v), r1.drop_first()))
        } else {
            None
        }
    } else if s[0] == 108 {
        // list: l<values>e
        match dec_items(s.drop_first()) {
            Some((items, r)) => Some((Bval::List(items), r)),
            None => None,
        }
    } else if s[0] == 100 {
        // dictionary: d<key value pairs>e
        match dec_pairs(s.drop_first()) {
            Some((pairs, r)) => Some((Bval::Dict(pairs), r)),
            None => None,
        }
    } else {
        None
    }
}

/// Parses list items up to and including the terminator `e`.
pub open spec fn dec_items(s: Seq<u8>) -> Option<(Seq<Bval>, Seq<u8>)>
    decreases s.len(), 1int,
{
    if s.len() == 0 {
        None
    } else if s[0] == 101 {
        Some((Seq::empty(), s.drop_first()))
    } else {
        match dec_value(s) {
            Some((v, r1)) => if r1.len() < s.len() {
                match dec_items(r1) {
                    Some((rest, r2)) => Some((seq![v] + rest, r2)),
                    None => None,
                }
            } else {
                None
            },
            None => None,
        }
    }
}

/// Parses dictionary pairs up to and including the terminator `e`; every
/// key must be a byte string.
pub open spec fn dec_pairs(s: Seq<u8>) -> Option<(Seq<(Seq<u8>, Bval)>, Seq<u8>)>
    decreases s.len(), 1int,
{
    if s.len() == 0 {
        None
    } else if s[0] == 101 {
        Some((Seq::empty(), s.drop_first()))
    } else {
        match dec_value(s) {
            Some((Bval::Bytes(key), r1)) => if r1.len() < s.len() {
                match dec_value(r1) {
                    Some((v, r2)) => if r2.len() < r1.len() {
                        match dec_pairs(r2) {
                            Some((rest, r3)) => Some((seq![(key, v)] + rest, r3)),
                            None => None,
                        }
                    } else {
                        None
                    },
                    None => None,
                }
            } else {
                None
            },
            _ => None,
        }
    }
}

// ---------------------------------------------------------------------------
// The encoder, as a function on models
// ---------------------------------------------------------------------------

/// The encoding of a byte string: decimal length, colon, bytes.
pub open spec fn enc_bytes(b: Seq<u8>) -> Seq<u8> {
    dec_digits(b.len()) + seq![58u8] + b
}

/// The encoding of a value, with dictionary pairs serialized in their stored
/// order. The canonical encoding of a value is `enc_value(canon(v))`.
pub open spec fn enc_value(v: Bval) -> Seq<u8>
    decreases v, 0int,
{
    match v {
        Bval::Bytes(b) => enc_bytes(b),
        Bval::Int(i) => seq![105u8]
            + (if i < 0 { seq![45u8] + dec_digits((-i) as nat) } else { dec_digits(i as nat) })
            + seq![101u8],
        Bval::List(items) => seq![108u8] + enc_items(items) + seq![101u8],
        Bval::Dict(pairs) => seq![100u8] + enc_pairs(pairs) + seq![101u8],
    }
}

pub open spec fn enc_items(items: Seq<Bval>) -> Seq<u8>
    decreases items, 1int,
{
    if items.len() == 0 {
        Seq::empty()
    } else {
        enc_value(items[0]) + enc_items(items.drop_first())
    }
}

pub open spec fn enc_pairs(pairs: Seq<(Seq<u8>, Bval)>) -> Seq<u8>
    decreases pairs, 1int,
{
    if pairs.len() == 0 {
        Seq::empty()
    } else {
        enc_bytes(pairs[0].0) + enc_value(pairs[0].1) + enc_pairs(pairs.drop_first())
    }
}

// ---------------------------------------------------------------------------
// Canonical form: dictionaries sorted by key
// ---------------------------------------------------------------------------

/// Byte-lexicographic order on keys.
pub open spec fn lex_le(a: Seq<u8>, b: Seq<u8>) -> bool
    decreases a.len(),
{
    if a.len() == 0 {
        true
    } else if b.len() == 0 {
        false
    } else if a[0] < b[0] {
        true
    } else if a[0] > b[0] {
        false
    } else {
        lex_le(a.drop_first(), b.drop_first())
    }
}

pub open spec fn insert_pair(p: (Seq<u8>, Bval), sorted: Seq<(Seq<u8>, Bval)>) -> Seq<(Seq<u8>, Bval)>
    decreases sorted.len(),
{
    if sorted.len() == 0 {
        seq![p]
    } else if lex_le(p.0, sorted[0].0) {
        seq![p] + sorted
    } else {
        seq![sorted[0]] + insert_pair(p, sorted.drop_first())
    }
}

pub open spec fn sort_pairs(pairs: Seq<(Seq<u8>, Bval)>) -> Seq<(Seq<u8>, Bval)>
    decreases pairs.len(),
{
    if pairs.len() == 0 {
        pairs
    } else {
        insert_pair(pairs[0], sort_pairs(pairs.drop_first()))
    }
}

/// The canonical form of a value: every dictionary, at every depth, holds
/// its pairs in ascending byte-lexicographic key order.
pub open spec fn canon(v: Bval) -> Bval
    decreases v, 0int,
{
    match v {
        Bval::Bytes(_) => v,
        Bval::Int(_) => v,
        Bval::List(items) => Bval::List(canon_items(items)),
        Bval::Dict(pairs) => Bval::Dict(sort_pairs(canon_pairs(pairs))),
    }
}

pub open spec fn canon_items(items: Seq<Bval>) -> Seq<Bval>
    decreases items, 1int,
{
    if items.len() == 0 {
        items
    } else {
        seq![canon(items[0])] + canon_items(items.drop_first())
    }
}

pub open spec fn canon_pairs(pairs: Seq<(Seq<u8>, Bval)>) -> Seq<(Seq<u8>, Bval)>
    decreases pairs, 1int,
{
    if pairs.len() == 0 {
        pairs
    } else {
        seq![(pairs[0].0, canon(pairs[0].1))] + canon_pairs(pairs.drop_first())
    }
}

pub open spec fn sorted_keys(pairs: Seq<(Seq<u8>, Bval)>) -> bool {
    forall|i: int, j: int| 0 <= i < j < pairs.len() ==> lex_le(pairs[i].0, pairs[j].0)
}

/// A value is canonical when every dictionary in it is sorted by key.
pub open spec fn is_canon(v: Bval) -> bool
    decreases v, 0int,
{
    match v {
        Bval::Bytes(_) => true,
        Bval::Int(_) => true,
        Bval::List(items) => forall|i: int| 0 <= i < items.len() ==> is_canon(#[trigger] items[i]),
        Bval::Dict(pairs) => sorted_keys(pairs)
            && forall|i: int| 0 <= i < pairs.len() ==> is_canon(#[trigger] pairs[i].1),
    }
}

/// Every integer in the value fits the signed 64-bit range the executable
/// representation stores.
pub open spec fn ints_ok(v: Bval) -> bool
    decreases v, 0int,
{
    match v {
        Bval::Bytes(_) => true,
        Bval::Int(i) => -0x8000_0000_0000_0000 <= i && i <= 0x7fff_ffff_ffff_ffff,
        Bval::List(items) => forall|i: int| 0 <= i < items.len() ==> ints_ok(#[trigger] items[i]),
        Bval::Dict(pairs) => forall|i: int| 0 <= i < pairs.len() ==> ints_ok(#[trigger] pairs[i].1),
    }
}

// ---------------------------------------------------------------------------
// Digit lemmas
// ---------------------------------------------------------------------------

pub proof fn lemma_pow10_pos(k: nat)
    ensures
        pow10(k) >= 1,
    decreases k,
{
    if k > 0 {
        lemma_pow10_pos((k - 1) as nat);
    }
}

pub proof fn lemma_dec_digits_props(n: nat)
    ensures
        dec_digits(n).len() >= 1,
        forall|k: int| 0 <= k < dec_digits(n).len() ==> is_ascii_digit(#[trigger] dec_digits(n)[k]),
    decreases n,
{
    if n >= 10 {
        lemma_dec_digits_props(n / 10);
    }
}

/// Parsing a digit run folds its value into the accumulator and continues
/// with the suffix.
pub proof fn lemma_parse_digits_run(n: nat, rest: Seq<u8>, acc: int)
    requires
        acc >= 0,
    ensures
        parse_digits(dec_digits(n) + rest, acc)
            == parse_digits(rest, acc * pow10(dec_digits(n).len()) + n),
        acc * pow10(dec_digits(n).len()) + n >= 0,
    decreases n,
{
    lemma_pow10_pos(dec_digits(n).len());
    assert(acc * pow10(dec_digits(n).len()) >= 0) by (nonlinear_arith)
        requires acc >= 0 && pow10(dec_digits(n).len()) >= 1;
    if n < 10 {
        let s = dec_digits(n) + rest;
        assert(s[0] == (48 + n) as u8);
        assert(is_ascii_digit(s[0]));
        assert(s.drop_first() =~= rest);
        assert(parse_digits(s, acc) == parse_digits(rest, acc * 10 + n));
        assert(pow10(0) == 1);
        assert(pow10(1) == 10);
        assert(acc * pow10(1) == acc * 10) by (nonlinear_arith)
            requires pow10(1) == 10;
    } else {
        let hi = n / 10;
        let lo = n % 10;
        let last = seq![(48 + lo) as u8];
        let l: nat = dec_digits(hi).len();
        assert(dec_digits(n) == dec_digits(hi) + last);
        assert(dec_digits(n) + rest =~= dec_digits(hi) + (last + rest));
        lemma_parse_digits_run(hi, last + rest, acc);
        let acc2 = acc * pow10(l) + hi;
        assert(parse_digits(dec_digits(n) + rest, acc) == parse_digits(last + rest, acc2));
        let s2 = last + rest;
        assert(s2[0] == (48 + lo) as u8);
        assert(is_ascii_digit(s2[0]));
        assert(s2.drop_first() =~= rest);
        assert(parse_digits(s2, acc2) == parse_digits(rest, acc2 * 10 + lo));
        assert(dec_digits(n).len() == l + 1);
        assert(pow10((l + 1) as nat) == 10 * pow10(l));
        assert((acc * pow10(l) + hi) * 10 + lo == acc * (10 * pow10(l)) + (hi * 10 + lo))
            by (nonlinear_arith);
        assert(hi * 10 + lo == n);
    }
}

// ---------------------------------------------------------------------------
// Round trip: decoding an encoding yields the value back
// ---------------------------------------------------------------------------

pub proof fn lemma_enc_bytes_first(b: Seq<u8>)
    ensures
        enc_bytes(b).len() >= 1,
        is_ascii_digit(enc_bytes(b)[0]),
{
    lemma_dec_digits_props(b.len());
    assert(enc_bytes(b)[0] == dec_digits(b.len())[0]);
}

pub proof fn lemma_enc_first(v: Bval)
    ensures
        enc_value(v).len() >= 1,
        enc_value(v)[0] != 101,
{
    match v {
        Bval::Bytes(b) => {
            lemma_enc_bytes_first(b);
            assert(enc_value(v)[0] == enc_bytes(b)[0]);
        },
        Bval::Int(_) => {
            assert(enc_value(v)[0] == 105);
        },
        Bval::List(_) => {
            assert(enc_value(v)[0] == 108);
        },
        Bval::Dict(_) => {
            assert(enc_value(v)[0] == 100);
        },
    }
}

/// Decoding an encoded byte string yields it back, whatever follows.
pub proof fn lemma_dec_enc_bytes(b: Seq<u8>, rest: Seq<u8>)
    ensures
        dec_value(enc_bytes(b) + rest) == Some((Bval::Bytes(b), rest)),
{
    let tail = seq![58u8] + b + rest;
    let s = enc_bytes(b) + rest;
    assert(s =~= dec_digits(b.len()) + tail);
    lemma_dec_digits_props(b.len());
    assert(s[0] == dec_digits(b.len())[0]);
    assert(is_ascii_digit(s[0]));
    lemma_parse_digits_run(b.len(), tail, 0);
    assert(0 * pow10(dec_digits(b.len()).len()) == 0) by (nonlinear_arith);
    assert(!is_ascii_digit(58u8));
    assert(tail[0] == 58);
    assert(parse_digits(tail, b.len() as int) == (b.len() as int, tail));
    assert(parse_digits(s, 0) == (b.len() as int, tail));
    let n = b.len() as int;
    assert(tail.len() == n + 1 + rest.len());
    assert(tail.subrange(1, n + 1) =~= b);
    assert(tail.skip(n + 1) =~= rest);
}

/// The round trip of the codec: decoding an encoding yields the value back
/// and consumes exactly the encoding, whatever bytes follow it.
pub proof fn lemma_dec_enc(v: Bval, rest: Seq<u8>)
    requires
        ints_ok(v),
    ensures
        dec_value(enc_value(v) + rest) == Some((v, rest)),
    decreases v, 0int,
{
    match v {
        Bval::Bytes(b) => {
            lemma_dec_enc_bytes(b, rest);
        },
        Bval::Int(i) => {
            let mag: nat = if i < 0 { (-i) as nat } else { i as nat };
            let mid: Seq<u8> = if i < 0 { seq![45u8] + dec_digits(mag) } else { dec_digits(mag) };
            let s = enc_value(v) + rest;
            assert(s =~= seq![105u8] + (mid + (seq![101u8] + rest)));
            assert(s[0] == 105);
            assert(!is_ascii_digit(105u8));
            let body = s.drop_first();
            assert(body =~= mid + (seq![101u8] + rest));
            lemma_dec_digits_props(mag);
            let etail = seq![101u8] + rest;
            if i < 0 {
                assert(body[0] == 45);
                let digs = body.drop_first();
                assert(digs =~= dec_digits(mag) + etail);
                lemma_parse_digits_run(mag, etail, 0);
                assert(0 * pow10(dec_digits(mag).len()) == 0) by (nonlinear_arith);
                assert(!is_ascii_digit(101u8));
                assert(parse_digits(etail, mag as int) == (mag as int, etail));
                assert(parse_digits(digs, 0) == (mag as int, etail));
                assert(etail.len() < digs.len());
                assert(etail[0] == 101);
                assert(etail.drop_first() =~= rest);
            } else {
                assert(body[0] == dec_digits(mag)[0]);
                assert(is_ascii_digit(body[0]));
                assert(body[0] != 45);
                assert(body =~= dec_digits(mag) + etail);
                lemma_parse_digits_run(mag, etail, 0);
                assert(0 * pow10(dec_digits(mag).len()) == 0) by (nonlinear_arith);
                assert(!is_ascii_digit(101u8));
                assert(parse_digits(etail, mag as int) == (mag as int, etail));
                assert(parse_digits(body, 0) == (mag as int, etail));
                assert(etail.len() < body.len());
                assert(etail[0] == 101);
                assert(etail.drop_first() =~= rest);
            }
        },
        Bval::List(items) => {
            let s = enc_value(v) + rest;
            let inner = enc_items(items) + seq![101u8] + rest;
            assert(s =~= seq![108u8] + inner);
            assert(s[0] == 108);
            assert(!is_ascii_digit(108u8));
            assert(s.drop_first() =~= inner);
            lemma_dec_enc_items(items, rest);
        },
        Bval::Dict(pairs) => {
            let s = enc_value(v) + rest;
            let inner = enc_pairs(pairs) + seq![101u8] + rest;
            assert(s =~= seq![100u8] + inner);
            assert(s[0] == 100);
            assert(!is_ascii_digit(100u8));
            assert(s.drop_first() =~= inner);
            lemma_dec_enc_pairs(pairs, rest);
        },
    }
}

pub proof fn lemma_dec_enc_items(items: Seq<Bval>, rest: Seq<u8>)
    requires
        forall|i: int| 0 <= i < items.len() ==> ints_ok(#[trigger] items[i]),
    ensures
        dec_items(enc_items(items) + seq![101u8] + rest) == Some((items, rest)),
    decreases items, 1int,
{
    let s = enc_items(items) + seq![101u8] + rest;
    if items.len() == 0 {
        assert(s =~= seq![101u8] + rest);
        assert(s[0] == 101);
        assert(s.drop_first() =~= rest);
        assert(items =~= Seq::<Bval>::empty());
    } else {
        let head = items[0];
        let tail = items.drop_first();
        let t = enc_items(tail) + seq![101u8] + rest;
        assert(enc_items(items) == enc_value(head) + enc_items(tail));
        assert(s =~= enc_value(head) + t);
        lemma_enc_first(head);
        assert(s[0] == enc_value(head)[0]);
        assert(s[0] != 101);
        assert(ints_ok(head));
        lemma_dec_enc(head, t);
        assert(dec_value(s) == Some((head, t)));
        assert(t.len() < s.len());
        assert(forall|i: int| 0 <= i < tail.len() ==> ints_ok(#[trigger] tail[i]));
        lemma_dec_enc_items(tail, rest);
        assert(dec_items(t) == Some((tail, rest)));
        assert(seq![head] + tail =~= items);
    }
}

pub proof fn lemma_dec_enc_pairs(pairs: Seq<(Seq<u8>, Bval)>, rest: Seq<u8>)
    requires
        forall|i: int| 0 <= i < pairs.len() ==> ints_ok(#[trigger] pairs[i].1),
    ensures
        dec_pairs(enc_pairs(pairs) + seq![101u8] + rest) == Some((pairs, rest)),
    decreases pairs, 1int,
{
    let s = enc_pairs(pairs) + seq![101u8] + rest;
    if pairs.len() == 0 {
        assert(s =~= seq![101u8] + rest);
        assert(s[0] == 101);
        assert(s.drop_first() =~= rest);
        assert(pairs =~= Seq::<(Seq<u8>, Bval)>::empty());
    } else {
        let key = pairs[0].0;
        let val = pairs[0].1;
        let tail = pairs.drop_first();
        let t2 = enc_pairs(tail) + seq![101u8] + rest;
        let t1 = enc_value(val) + t2;
        assert(enc_pairs(pairs) == enc_bytes(key) + enc_value(val) + enc_pairs(tail));
        assert(s =~= enc_bytes(key) + t1);
        lemma_enc_bytes_first(key);
        assert(s[0] == enc_bytes(key)[0]);
        assert(s[0] != 101);
        lemma_dec_enc_bytes(key, t1);
        assert(dec_value(s) == Some((Bval::Bytes(key), t1)));
        assert(t1.len() < s.len());
        assert(t1 =~= enc_value(val) + t2);
        assert(ints_ok(val));
        lemma_dec_enc(val, t2);
        assert(dec_value(t1) == Some((val, t2)));
        lemma_enc_first(val);
        assert(t2.len() < t1.len());
        assert(forall|i: int| 0 <= i < tail.len() ==> ints_ok(#[trigger] tail[i].1));
        lemma_dec_enc_pairs(tail, rest);
        assert(dec_pairs(t2) == Some((tail, rest)));
        assert(seq![(key, val)] + tail =~= pairs);
    }
}

// ---------------------------------------------------------------------------
// Canonical-form lemmas: sorting is correct and fixes canonical values
// ---------------------------------------------------------------------------

pub proof fn lemma_lex_le_total(a: Seq<u8>, b: Seq<u8>)
    ensures
        lex_le(a, b) || lex_le(b, a),
    decreases a.len(),
{
    if a.len() > 0 && b.len() > 0 && a[0] == b[0] {
        lemma_lex_le_total(a.drop_first(), b.drop_first());
    }
}

pub proof fn lemma_lex_le_trans(a: Seq<u8>, b: Seq<u8>, c: Seq<u8>)
    requires
        lex_le(a, b),
        lex_le(b, c),
    ensures
        lex_le(a, c),
    decreases a.len(),
{
    if a.len() > 0 {
        if b.len() > 0 && c.len() > 0 && a[0] == b[0] && b[0] == c[0] {
            lemma_lex_le_trans(a.drop_first(), b.drop_first(), c.drop_first());
        }
    }
}

pub proof fn lemma_insert_pair_props(p: (Seq<u8>, Bval), sorted: Seq<(Seq<u8>, Bval)>)
    requires
        sorted_keys(sorted),
    ensures
        sorted_keys(insert_pair(p, sorted)),
        insert_pair(p, sorted).len() == sorted.len() + 1,
        forall|k: int| 0 <= k < insert_pair(p, sorted).len()
            ==> #[trigger] insert_pair(p, sorted)[k] == p || sorted.contains(insert_pair(p, sorted)[k]),
    decreases sorted.len(),
{
    let res = insert_pair(p, sorted);
    if sorted.len() == 0 {
        assert(res =~= seq![p]);
    } else if lex_le(p.0, sorted[0].0) {
        assert(res =~= seq![p] + sorted);
        assert forall|i: int, j: int| 0 <= i < j < res.len() implies lex_le(res[i].0, res[j].0) by {
            if i == 0 {
                if j == 1 {
                    assert(res[j] == sorted[0]);
                } else {
                    assert(lex_le(sorted[0].0, sorted[j - 1].0));
                    lemma_lex_le_trans(p.0, sorted[0].0, res[j].0);
                }
            } else {
                assert(lex_le(sorted[i - 1].0, sorted[j - 1].0));
            }
        }
        assert forall|k: int| 0 <= k < res.len()
            implies res[k] == p || sorted.contains(res[k]) by {
            if k > 0 {
                assert(res[k] == sorted[k - 1]);
            }
        }
    } else {
        let tail = sorted.drop_first();
        assert(sorted_keys(tail)) by {
            assert forall|i: int, j: int| 0 <= i < j < tail.len()
                implies lex_le(tail[i].0, tail[j].0) by {
                assert(lex_le(sorted[i + 1].0, sorted[j + 1].0));
            }
        }
        lemma_insert_pair_props(p, tail);
        let inner = insert_pair(p, tail);
        assert(res =~= seq![sorted[0]] + inner);
        lemma_lex_le_total(p.0, sorted[0].0);
        assert(lex_le(sorted[0].0, p.0));
        assert forall|k: int| 0 <= k < res.len()
            implies res[k] == p || sorted.contains(res[k]) by {
            if k == 0 {
                assert(sorted[0] == res[0]);
                assert(sorted.contains(sorted[0]));
            } else {
                assert(res[k] == inner[k - 1]);
                if inner[k - 1] == p {
                } else {
                    assert(tail.contains(inner[k - 1]));
                    let jj = choose|jj: int| 0 <= jj < tail.len() && tail[jj] == inner[k - 1];
                    assert(sorted[jj + 1] == inner[k - 1]);
                    assert(sorted.contains(sorted[jj + 1]));
                }
            }
        }
        assert forall|i: int, j: int| 0 <= i < j < res.len() implies lex_le(res[i].0, res[j].0) by {
            if i == 0 {
                assert(res[j] == inner[j - 1]);
                if inner[j - 1] == p {
                    assert(lex_le(sorted[0].0, p.0));
                } else {
                    assert(tail.contains(inner[j - 1]));
                    let jj = choose|jj: int| 0 <= jj < tail.len() && tail[jj] == inner[j - 1];
                    assert(lex_le(sorted[0].0, sorted[jj + 1].0));
                }
            } else {
                assert(res[i] == inner[i - 1] && res[j] == inner[j - 1]);
                assert(lex_le(inner[i - 1].0, inner[j - 1].0));
            }
        }
    }
}

/// Sorting yields ascending keys, keeps the length, and invents no pair.
pub proof fn lemma_sort_pairs_props(pairs: Seq<(Seq<u8>, Bval)>)
    ensures
        sorted_keys(sort_pairs(pairs)),
        sort_pairs(pairs).len() == pairs.len(),
        forall|k: int| 0 <= k < sort_pairs(pairs).len()
            ==> pairs.contains(#[trigger] sort_pairs(pairs)[k]),
    decreases pairs.len(),
{
    if pairs.len() > 0 {
        let tail = pairs.drop_first();
        lemma_sort_pairs_props(tail);
        lemma_insert_pair_props(pairs[0], sort_pairs(tail));
        let res = sort_pairs(pairs);
        assert forall|k: int| 0 <= k < res.len() implies pairs.contains(res[k]) by {
            if res[k] == pairs[0] {
                assert(pairs.contains(pairs[0]));
            } else {
                assert(sort_pairs(tail).contains(res[k]));
                let m = choose|m: int| 0 <= m < sort_pairs(tail).len() && sort_pairs(tail)[m] == res[k];
                assert(tail.contains(sort_pairs(tail)[m]));
                let t = choose|t: int| 0 <= t < tail.len() && tail[t] == res[k];
                assert(pairs[t + 1] == res[k]);
                assert(pairs.contains(pairs[t + 1]));
            }
        }
    }
}

/// Sorting fixes a sequence whose keys already ascend.
pub proof fn lemma_sort_pairs_id(pairs: Seq<(Seq<u8>, Bval)>)
    requires
        sorted_keys(pairs),
    ensures
        sort_pairs(pairs) == pairs,
    decreases pairs.len(),
{
    if pairs.len() > 0 {
        let tail = pairs.drop_first();
        assert(sorted_keys(tail)) by {
            assert forall|i: int, j: int| 0 <= i < j < tail.len()
                implies lex_le(tail[i].0, tail[j].0) by {
                assert(lex_le(pairs[i + 1].0, pairs[j + 1].0));
            }
        }
        lemma_sort_pairs_id(tail);
        if tail.len() == 0 {
            assert(insert_pair(pairs[0], tail) =~= pairs);
        } else {
            assert(tail[0] == pairs[1]);
            assert(lex_le(pairs[0].0, pairs[1].0));
            assert(insert_pair(pairs[0], tail) =~= seq![pairs[0]] + tail);
            assert(seq![pairs[0]] + tail =~= pairs);
        }
    }
}

pub proof fn lemma_canon_items_index(items: Seq<Bval>)
    ensures
        canon_items(items).len() == items.len(),
        forall|i: int| 0 <= i < items.len() ==> #[trigger] canon_items(items)[i] == canon(items[i]),
    decreases items.len(),
{
    if items.len() > 0 {
        lemma_canon_items_index(items.drop_first());
        assert forall|i: int| 0 <= i < items.len()
            implies #[trigger] canon_items(items)[i] == canon(items[i]) by {
            if i > 0 {
                assert(canon_items(items)[i] == canon_items(items.drop_first())[i - 1]);
                assert(items.drop_first()[i - 1] == items[i]);
            }
        }
    }
}

pub proof fn lemma_canon_pairs_index(pairs: Seq<(Seq<u8>, Bval)>)
    ensures
        canon_pairs(pairs).len() == pairs.len(),
        forall|i: int| 0 <= i < pairs.len()
            ==> #[trigger] canon_pairs(pairs)[i] == (pairs[i].0, canon(pairs[i].1)),
    decreases pairs.len(),
{
    if pairs.len() > 0 {
        lemma_canon_pairs_index(pairs.drop_first());
        assert forall|i: int| 0 <= i < pairs.len()
            implies #[trigger] canon_pairs(pairs)[i] == (pairs[i].0, canon(pairs[i].1)) by {
            if i > 0 {
                assert(canon_pairs(pairs)[i] == canon_pairs(pairs.drop_first())[i - 1]);
                assert(pairs.drop_first()[i - 1] == pairs[i]);
            }
        }
    }
}

/// Canonicalization yields a canonical value: every dictionary in the
/// result, at every depth, has its keys in ascending byte order.
pub proof fn lemma_canon_canonical(v: Bval)
    ensures
        is_canon(canon(v)),
    decreases v, 0int,
{
    match v {
        Bval::Bytes(_) => {},
        Bval::Int(_) => {},
        Bval::List(items) => {
            lemma_canon_items_index(items);
            assert forall|i: int| 0 <= i < canon_items(items).len()
                implies is_canon(#[trigger] canon_items(items)[i]) by {
                lemma_canon_canonical(items[i]);
            }
        },
        Bval::Dict(pairs) => {
            lemma_canon_pairs_index(pairs);
            let cp = canon_pairs(pairs);
            let sp = sort_pairs(cp);
            lemma_sort_pairs_props(cp);
            assert forall|i: int| 0 <= i < sp.len() implies is_canon(#[trigger] sp[i].1) by {
                assert(cp.contains(sp[i]));
                let m = choose|m: int| 0 <= m < cp.len() && cp[m] == sp[i];
                assert(cp[m] == (pairs[m].0, canon(pairs[m].1)));
                lemma_canon_canonical(pairs[m].1);
            }
        },
    }
}

/// Canonicalization fixes canonical values.
pub proof fn lemma_canon_id(v: Bval)
    requires
        is_canon(v),
    ensures
        canon(v) == v,
    decreases v, 0int,
{
    match v {
        Bval::Bytes(_) => {},
        Bval::Int(_) => {},
        Bval::List(items) => {
            lemma_canon_items_index(items);
            assert forall|i: int| 0 <= i < items.len()
                implies #[trigger] canon_items(items)[i] == items[i] by {
                lemma_canon_id(items[i]);
            }
            assert(canon_items(items) =~= items);
        },
        Bval::Dict(pairs) => {
            lemma_canon_pairs_index(pairs);
            assert forall|i: int| 0 <= i < pairs.len()
                implies #[trigger] canon_pairs(pairs)[i] == pairs[i] by {
                lemma_canon_id(pairs[i].1);
            }
            assert(canon_pairs(pairs) =~= pairs);
            lemma_sort_pairs_id(pairs);
        },
    }
}

/// Canonicalization changes no integer, so it keeps them representable.
pub proof fn lemma_canon_ints_ok(v: Bval)
    requires
        ints_ok(v),
    ensures
        ints_ok(canon(v)),
    decreases v, 0int,
{
    match v {
        Bval::Bytes(_) => {},
        Bval::Int(_) => {},
        Bval::List(items) => {
            lemma_canon_items_index(items);
            assert forall|i: int| 0 <= i < canon_items(items).len()
                implies ints_ok(#[trigger] canon_items(items)[i]) by {
                lemma_canon_ints_ok(items[i]);
            }
        },
        Bval::Dict(pairs) => {
            lemma_canon_pairs_index(pairs);
            let cp = canon_pairs(pairs);
            let sp = sort_pairs(cp);
            lemma_sort_pairs_props(cp);
            assert forall|i: int| 0 <= i < sp.len() implies ints_ok(#[trigger] sp[i].1) by {
                assert(cp.contains(sp[i]));
                let m = choose|m: int| 0 <= m < cp.len() && cp[m] == sp[i];
                assert(cp[m] == (pairs[m].0, canon(pairs[m].1)));
                lemma_canon_ints_ok(pairs[m].1);
            }
        },
    }
}

/// The canonical-dictionary law of the encoder: what `encode` emits is the
/// encoding of a canonical value, and decoding it yields that value.
pub proof fn lemma_canonical_round_trip(v: Bval)
    requires
        ints_ok(v),
    ensures
        is_canon(canon(v)),
        dec_value(enc_value(canon(v))) == Some((canon(v), Seq::<u8>::empty())),
{
    lemma_canon_canonical(v);
    lemma_canon_ints_ok(v);
    lemma_round_trip(canon(v));
}

/// Decoding the whole encoding of a value yields the value and nothing left.
pub proof fn lemma_round_trip(v: Bval)
    requires
        ints_ok(v),
    ensures
        dec_value(enc_value(v)) == Some((v, Seq::<u8>::empty())),
{
    lemma_dec_enc(v, Seq::empty());
    assert(enc_value(v) + Seq::<u8>::empty() =~= enc_value(v));
}

/// The round trip of the executable pair: what `encode` emits for a
/// canonical value — `enc_value(canon(v))` — decodes back to that value.
pub proof fn lemma_decode_encode_canonical(v: Bval)
    requires
        is_canon(v),
        ints_ok(v),
    ensures
        dec_value(enc_value(canon(v))) == Some((v, Seq::<u8>::empty())),
{
    lemma_canon_id(v);
    lemma_round_trip(v);
}

// ---------------------------------------------------------------------------
// Small sequence facts used when walking the input
// ---------------------------------------------------------------------------

pub proof fn lemma_skip_step<A>(s: Seq<A>, a: int)
    requires
        0 <= a < s.len(),
    ensures
        s.skip(a).len() == s.len() - a,
        s.skip(a)[0] == s[a],
        s.skip(a).drop_first() =~= s.skip(a + 1),
{
}

pub proof fn lemma_bvals_push(a: Seq<BencodeValue>, x: BencodeValue)
    ensures
        bvals_of(a.push(x)) == bvals_of(a).push(bval_of(x)),
    decreases a.len(),
{
    if a.len() == 0 {
        assert(a.push(x).drop_first() =~= a);
        assert(bvals_of(a.push(x)) == seq![bval_of(x)] + bvals_of(a));
        assert(seq![bval_of(x)] + bvals_of(a) =~= bvals_of(a).push(bval_of(x)));
    } else {
        assert(a.push(x).drop_first() =~= a.drop_first().push(x));
        lemma_bvals_push(a.drop_first(), x);
        assert(a.push(x)[0] == a[0]);
        assert(seq![bval_of(a[0])] + bvals_of(a.drop_first()).push(bval_of(x))
            =~= (seq![bval_of(a[0])] + bvals_of(a.drop_first())).push(bval_of(x)));
    }
}

pub proof fn lemma_bpairs_push(a: Seq<(Vec<u8>, BencodeValue)>, x: (Vec<u8>, BencodeValue))
    ensures
        bpairs_of(a.push(x)) == bpairs_of(a).push((x.0@, bval_of(x.1))),
    decreases a.len(),
{
    if a.len() == 0 {
        assert(a.push(x).drop_first() =~= a);
        assert(bpairs_of(a.push(x)) == seq![(x.0@, bval_of(x.1))] + bpairs_of(a));
        assert(seq![(x.0@, bval_of(x.1))] + bpairs_of(a)
            =~= bpairs_of(a).push((x.0@, bval_of(x.1))));
    } else {
        assert(a.push(x).drop_first() =~= a.drop_first().push(x));
        lemma_bpairs_push(a.drop_first(), x);
        assert(a.push(x)[0] == a[0]);
        assert(seq![(a[0].0@, bval_of(a[0].1))] + bpairs_of(a.drop_first()).push((x.0@, bval_of(x.1)))
            =~= (seq![(a[0].0@, bval_of(a[0].1))] + bpairs_of(a.drop_first())).push((x.0@, bval_of(x.1))));
    }
}

// ---------------------------------------------------------------------------
// The executable decoder
// ---------------------------------------------------------------------------

/// Reads the run of decimal digits starting at `i`. The first slot is `None`
/// exactly when the run's value exceeds `u64::MAX`; the second is the index
/// just past the run.
fn parse_number(s: &[u8], i: usize) -> (r: (Option<u64>, usize))
    requires
        i <= s@.len(),
    ensures
        ({
            let (v, tail) = parse_digits(s@.skip(i as int), 0);
            &&& i <= r.1 <= s@.len()
            &&& tail == s@.skip(r.1 as int)
            &&& (match r.0 {
                Some(n) => n == v,
                None => v > u64::MAX,
            })
            &&& (r.1 == i ==> i == s@.len() || !is_ascii_digit(s@[i as int]))
        }),
{
    let mut cur: usize = i;
    let mut acc: u64 = 0;
    let mut over: bool = false;
    let ghost mut g: int = 0int;
    loop
        invariant
            i <= cur <= s@.len(),
            parse_digits(s@.skip(i as int), 0) == parse_digits(s@.skip(cur as int), g),
            g >= 0,
            !over ==> acc == g,
            over ==> g > u64::MAX,
            cur == i ==> g == 0 && !over,
        ensures
            i <= cur <= s@.len(),
            parse_digits(s@.skip(i as int), 0) == (g, s@.skip(cur as int)),
            g >= 0,
            !over ==> acc == g,
            over ==> g > u64::MAX,
            cur == i ==> i == s@.len() || !is_ascii_digit(s@[i as int]),
        decreases s@.len() - cur,
    {
        if cur == s.len() {
            proof {
                assert(s@.skip(cur as int).len() == 0);
            }
            break;
        }
        let c = s[cur];
        proof {
            lemma_skip_step(s@, cur as int);
        }
        if !(48 <= c && c <= 57) {
            proof {
                assert(!is_ascii_digit(s@.skip(cur as int)[0]));
            }
            break;
        }
        let d = c - 48;
        proof {
            let sc = s@.skip(cur as int);
            assert(is_ascii_digit(sc[0]));
            assert(sc.drop_first() =~= s@.skip(cur as int + 1));
            assert(parse_digits(sc, g) == parse_digits(s@.skip(cur as int + 1), g * 10 + (d as int)));
        }
        if !over {
            let stepped = match acc.checked_mul(10) {
                Some(m) => m.checked_add(d as u64),
                None => None,
            };
            match stepped {
                Some(a2) => {
                    acc = a2;
                },
                None => {
                    over = true;
                },
            }
        }
        proof {
            g = g * 10 + (d as int);
        }
        cur = cur + 1;
    }
    (if over { None } else { Some(acc) }, cur)
}

/// Decodes one value starting at index `i`; returns the value and the index
/// just past it. Agrees exactly with `dec_value` on the suffix at `i`.
fn dec_value_at(s: &[u8], i: usize) -> (r: Result<(BencodeValue, usize), FormatError>)
    requires
        i <= s@.len(),
    ensures
        match r {
            Ok((v, n)) => i < n <= s@.len()
                && dec_value(s@.skip(i as int)) == Some((bval_of(v), s@.skip(n as int))),
            Err(e) => dec_value(s@.skip(i as int)) is None && e == FormatError::Malformed,
        },
    decreases s@.len() - i,
{
    let ghost si = s@.skip(i as int);
    if i == s.len() {
        proof {
            assert(si.len() == 0);
        }
        return Err(FormatError::Malformed);
    }
    proof {
        lemma_skip_step(s@, i as int);
    }
    let c = s[i];
    if 48 <= c && c <= 57 {
        // byte string: <decimal length>:<bytes>
        proof {
            assert(is_ascii_digit(si[0]));
        }
        let (num, j) = parse_number(s, i);
        let ghost n_spec = parse_digits(si, 0).0;
        let ghost r1 = parse_digits(si, 0).1;
        proof {
            assert(r1 == s@.skip(j as int));
            assert(r1.len() == s@.len() - j);
        }
        let n = match num {
            Some(n) => n,
            None => {
                proof {
                    assert(n_spec > u64::MAX);
                    assert(n_spec + 1 > r1.len());
                }
                return Err(FormatError::Malformed);
            },
        };
        if j == s.len() {
            proof {
                assert(r1.len() == 0);
            }
            return Err(FormatError::Malformed);
        }
        proof {
            lemma_skip_step(s@, j as int);
        }
        if s[j] != 58 {
            proof {
                assert(r1[0] != 58);
            }
            return Err(FormatError::Malformed);
        }
        let avail = s.len() - j - 1;
        if n > avail as u64 {
            proof {
                assert(n_spec + 1 > r1.len());
            }
            return Err(FormatError::Malformed);
        }
        let m = n as usize;
        let mut b: Vec<u8> = Vec::new();
        let mut k: usize = 0;
        while k < m
            invariant
                k <= m,
                m == n,
                j + 1 + m <= s@.len(),
                s@.len() <= usize::MAX,
                b@ =~= s@.subrange(j as int + 1, j as int + 1 + k as int),
            decreases m - k,
    {
            b.push(s[j + 1 + k]);
            k = k + 1;
        }
        proof {
            assert(r1.subrange(1, n_spec + 1) =~= s@.subrange(j as int + 1, j as int + 1 + n as int));
            assert(r1.skip(n_spec + 1) =~= s@.skip(j as int + 1 + n as int));
            assert(bval_of(BencodeValue::ByteString(b)) == Bval::Bytes(b@));
        }
        Ok((BencodeValue::ByteString(b), j + 1 + m))
    } else if c == 105 {
        // integer: i<digits>e
        proof {
            assert(!is_ascii_digit(si[0]));
            assert(si.drop_first() =~= s@.skip(i as int + 1));
        }
        let ghost body = si.drop_first();
        let mut neg: bool = false;
        let mut k: usize = i + 1;
        if k < s.len() {
            proof {
                lemma_skip_step(s@, k as int);
            }
            if s[k] == 45 {
                neg = true;
                k = k + 1;
                proof {
                    assert(body[0] == 45);
                    assert(body.drop_first() =~= s@.skip(k as int));
                }
            } else {
                proof {
                    assert(body[0] != 45);
                }
            }
        }
        let ghost digs = if body.len() > 0 && body[0] == 45 { body.drop_first() } else { body };
        proof {
            assert(digs == s@.skip(k as int));
        }
        let (num, j) = parse_number(s, k);
        let ghost v_spec = parse_digits(digs, 0).0;
        let ghost r1 = parse_digits(digs, 0).1;
        proof {
            assert(r1 == s@.skip(j as int));
            assert(r1.len() == s@.len() - j);
            assert(digs.len() == s@.len() - k);
        }
        if j == k {
            proof {
                assert(r1.len() == digs.len());
            }
            return Err(FormatError::Malformed);
        }
        if j == s.len() {
            proof {
                assert(r1.len() == 0);
            }
            return Err(FormatError::Malformed);
        }
        proof {
            lemma_skip_step(s@, j as int);
        }
        if s[j] != 101 {
            proof {
                assert(r1[0] != 101);
            }
            return Err(FormatError::Malformed);
        }
        let n = match num {
            Some(n) => n,
            None => {
                proof {
                    assert(v_spec > u64::MAX);
                }
                return Err(FormatError::Malformed);
            },
        };
        let val: i64 = if neg {
            if n > 0x8000_0000_0000_0000u64 {
                return Err(FormatError::Malformed);
            }
            if n == 0x8000_0000_0000_0000u64 {
                i64::MIN
            } else {
                -(n as i64)
            }
        } else {
            if n > 0x7fff_ffff_ffff_ffffu64 {
                return Err(FormatError::Malformed);
            }
            n as i64
        };
        proof {
            assert(r1.drop_first() =~= s@.skip(j as int + 1));
            assert(bval_of(BencodeValue::Integer(val)) == Bval::Int(val as int));
        }
        Ok((BencodeValue::Integer(val), j + 1))
    } else if c == 108 {
        // list: l<values>e
        proof {
            assert(!is_ascii_digit(si[0]));
            assert(si.drop_first() =~= s@.skip(i as int + 1));
        }
        let mut items: Vec<BencodeValue> = Vec::new();
        let mut cur: usize = i + 1;
        loop
            invariant
                i + 1 <= cur <= s@.len(),
                i < s@.len(),
                s@[i as int] == 108,
                si == s@.skip(i as int),
                si.len() > 0 && si[0] == 108 && !is_ascii_digit(si[0]),
                si.drop_first() == s@.skip(i as int + 1),
                ({
                    let cont = dec_items(s@.skip(cur as int));
                    match cont {
                        Some((rest, rr)) => dec_items(s@.skip(i as int + 1))
                            == Some((bvals_of(items@) + rest, rr)),
                        None => dec_items(s@.skip(i as int + 1)) is None,
                    }
                }),
            decreases s@.len() - cur,
        {
            if cur == s.len() {
                proof {
                    assert(s@.skip(cur as int).len() == 0);
                }
                return Err(FormatError::Malformed);
            }
            proof {
                lemma_skip_step(s@, cur as int);
            }
            if s[cur] == 101 {
                proof {
                    let sc = s@.skip(cur as int);
                    assert(sc[0] == 101);
                    assert(dec_items(sc) == Some((Seq::<Bval>::empty(), s@.skip(cur as int + 1))));
                    assert(bvals_of(items@) + Seq::<Bval>::empty() =~= bvals_of(items@));
                }
                return Ok((BencodeValue::List(items), cur + 1));
            }
            let (v, nxt) = match dec_value_at(s, cur) {
                Ok(p) => p,
                Err(e) => {
                    proof {
                        let sc = s@.skip(cur as int);
                        assert(sc.len() > 0 && sc[0] != 101);
                        assert(dec_items(sc) is None);
                    }
                    return Err(e);
                },
            };
            proof {
                let sc = s@.skip(cur as int);
                assert(sc.len() > 0 && sc[0] != 101);
                assert(dec_value(sc) == Some((bval_of(v), s@.skip(nxt as int))));
                assert(s@.skip(nxt as int).len() < sc.len());
                lemma_bvals_push(items@, v);
                let cont = dec_items(s@.skip(nxt as int));
                match cont {
                    Some((rest, rr)) => {
                        assert(dec_items(sc) == Some((seq![bval_of(v)] + rest, rr)));
                        assert(bvals_of(items@) + (seq![bval_of(v)] + rest)
                            =~= bvals_of(items@.push(v)) + rest);
                    },
                    None => {
                        assert(dec_items(sc) is None);
                    },
                }
            }
            items.push(v);
            cur = nxt;
        }
    } else if c == 100 {
        // dictionary: d<key value pairs>e
        proof {
            assert(!is_ascii_digit(si[0]));
            assert(si.drop_first() =~= s@.skip(i as int + 1));
        }
        let mut pairs: Vec<(Vec<u8>, BencodeValue)> = Vec::new();
        let mut cur: usize = i + 1;
        loop
            invariant
                i + 1 <= cur <= s@.len(),
                i < s@.len(),
                s@[i as int] == 100,
                si == s@.skip(i as int),
                si.len() > 0 && si[0] == 100 && !is_ascii_digit(si[0]) && si[0] != 105 && si[0] != 108,
                si.drop_first() == s@.skip(i as int + 1),
                ({
                    let cont = dec_pairs(s@.skip(cur as int));
                    match cont {
                        Some((rest, rr)) => dec_pairs(s@.skip(i as int + 1))
                            == Some((bpairs_of(pairs@) + rest, rr)),
                        None => dec_pairs(s@.skip(i as int + 1)) is None,
                    }
                }),
            decreases s@.len() - cur,
        {
            if cur == s.len() {
                proof {
                    assert(s@.skip(cur as int).len() == 0);
                }
                return Err(FormatError::Malformed);
            }
            proof {
                lemma_skip_step(s@, cur as int);
            }
            if s[cur] == 101 {
                proof {
                    let sc = s@.skip(cur as int);
                    assert(sc[0] == 101);
                    assert(dec_pairs(sc) == Some((Seq::<(Seq<u8>, Bval)>::empty(), s@.skip(cur as int + 1))));
                    assert(bpairs_of(pairs@) + Seq::<(Seq<u8>, Bval)>::empty() =~= bpairs_of(pairs@));
                }
                return Ok((BencodeValue::Dictionary(pairs), cur + 1));
            }
            let (kv, j1) = match dec_value_at(s, cur) {
                Ok(p) => p,
                Err(e) => {
                    proof {
                        let sc = s@.skip(cur as int);
                        assert(sc.len() > 0 && sc[0] != 101);
                        assert(dec_pairs(sc) is None);
                    }
                    return Err(e);
                },
            };
            let kb = match kv {
                BencodeValue::ByteString(b) => b,
                _ => {
                    proof {
                        let sc = s@.skip(cur as int);
                        assert(sc.len() > 0 && sc[0] != 101);
                        assert(!(bval_of(kv) is Bytes));
                        assert(dec_pairs(sc) is None);
                    }
                    return Err(FormatError::Malformed);
                },
            };
            proof {
                let sc = s@.skip(cur as int);
                assert(dec_value(sc) == Some((Bval::Bytes(kb@), s@.skip(j1 as int))));
                assert(s@.skip(j1 as int).len() < sc.len());
            }
            let (vv, j2) = match dec_value_at(s, j1) {
                Ok(p) => p,
                Err(e) => {
                    proof {
                        let sc = s@.skip(cur as int);
                        assert(dec_pairs(sc) is None);
                    }
                    return Err(e);
                },
            };
            proof {
                let sc = s@.skip(cur as int);
                assert(dec_value(s@.skip(j1 as int)) == Some((bval_of(vv), s@.skip(j2 as int))));
                assert(s@.skip(j2 as int).len() < s@.skip(j1 as int).len());
                lemma_bpairs_push(pairs@, (kb, vv));
                let cont = dec_pairs(s@.skip(j2 as int));
                match cont {
                    Some((rest, rr)) => {
                        assert(dec_pairs(sc) == Some((seq![(kb@, bval_of(vv))] + rest, rr)));
                        assert(bpairs_of(pairs@) + (seq![(kb@, bval_of(vv))] + rest)
                            =~= bpairs_of(pairs@.push((kb, vv))) + rest);
                    },
                    None => {
                        assert(dec_pairs(sc) is None);
                    },
                }
            }
            pairs.push((kb, vv));
            cur = j2;
        }
    } else {
        proof {
            assert(!is_ascii_digit(si[0]));
        }
        Err(FormatError::Malformed)
    }
}

/// Decodes one bencode value from the front of `input`. Returns the value
/// and the number of bytes consumed; the bytes past that index were not
/// looked at. Fails with `FormatError` exactly when no value can be parsed:
/// empty input, an unknown lead byte, a missing terminator, a declared
/// length that overruns the input, or an integer outside the `i64` range.
pub fn decode(input: &[u8]) -> (r: Result<(BencodeValue, usize), FormatError>)
    ensures
        match r {
            Ok((v, n)) => 0 < n <= input@.len()
                && dec_value(input@) == Some((bval_of(v), input@.skip(n as int))),
            Err(e) => dec_value(input@) is None && e == FormatError::Malformed,
        },
{
    proof {
        assert(input@.skip(0) =~= input@);
    }
    dec_value_at(input, 0)
}

// ---------------------------------------------------------------------------
// The executable encoder
// ---------------------------------------------------------------------------

pub proof fn lemma_bvals_index(a: Seq<BencodeValue>)
    ensures
        bvals_of(a).len() == a.len(),
        forall|i: int| 0 <= i < a.len() ==> #[trigger] bvals_of(a)[i] == bval_of(a[i]),
    decreases a.len(),
{
    if a.len() > 0 {
        lemma_bvals_index(a.drop_first());
        assert forall|i: int| 0 <= i < a.len()
            implies #[trigger] bvals_of(a)[i] == bval_of(a[i]) by {
            if i > 0 {
                assert(bvals_of(a)[i] == bvals_of(a.drop_first())[i - 1]);
                assert(a.drop_first()[i - 1] == a[i]);
            }
        }
    }
}

pub proof fn lemma_bpairs_index(a: Seq<(Vec<u8>, BencodeValue)>)
    ensures
        bpairs_of(a).len() == a.len(),
        forall|i: int| 0 <= i < a.len()
            ==> #[trigger] bpairs_of(a)[i] == (a[i].0@, bval_of(a[i].1)),
    decreases a.len(),
{
    if a.len() > 0 {
        lemma_bpairs_index(a.drop_first());
        assert forall|i: int| 0 <= i < a.len()
            implies #[trigger] bpairs_of(a)[i] == (a[i].0@, bval_of(a[i].1)) by {
            if i > 0 {
                assert(bpairs_of(a)[i] == bpairs_of(a.drop_first())[i - 1]);
                assert(a.drop_first()[i - 1] == a[i]);
            }
        }
    }
}

pub proof fn lemma_enc_items_push(a: Seq<Bval>, x: Bval)
    ensures
        enc_items(a.push(x)) == enc_items(a) + enc_value(x),
    decreases a.len(),
{
    if a.len() == 0 {
        assert(a.push(x).drop_first() =~= a);
        assert(enc_items(a.push(x)) == enc_value(x) + enc_items(a));
        assert(enc_value(x) + enc_items(a) =~= enc_items(a) + enc_value(x));
    } else {
        assert(a.push(x).drop_first() =~= a.drop_first().push(x));
        lemma_enc_items_push(a.drop_first(), x);
        assert(a.push(x)[0] == a[0]);
        assert(enc_value(a[0]) + (enc_items(a.drop_first()) + enc_value(x))
            =~= (enc_value(a[0]) + enc_items(a.drop_first())) + enc_value(x));
    }
}

pub proof fn lemma_enc_pairs_push(a: Seq<(Seq<u8>, Bval)>, p: (Seq<u8>, Bval))
    ensures
        enc_pairs(a.push(p)) == enc_pairs(a) + enc_bytes(p.0) + enc_value(p.1),
    decreases a.len(),
{
    if a.len() == 0 {
        assert(a.push(p).drop_first() =~= a);
        assert(enc_pairs(a.push(p)) == enc_bytes(p.0) + enc_value(p.1) + enc_pairs(a));
        assert(enc_bytes(p.0) + enc_value(p.1) + enc_pairs(a)
            =~= enc_pairs(a) + enc_bytes(p.0) + enc_value(p.1));
    } else {
        assert(a.push(p).drop_first() =~= a.drop_first().push(p));
        lemma_enc_pairs_push(a.drop_first(), p);
        assert(a.push(p)[0] == a[0]);
        assert(enc_bytes(a[0].0) + enc_value(a[0].1)
                + (enc_pairs(a.drop_first()) + enc_bytes(p.0) + enc_value(p.1))
            =~= (enc_bytes(a[0].0) + enc_value(a[0].1) + enc_pairs(a.drop_first()))
                + enc_bytes(p.0) + enc_value(p.1));
    }
}

/// Appends the decimal digits of `n`, most significant first.
fn push_decimal(n: u64, out: &mut Vec<u8>)
    ensures
        final(out)@ == old(out)@ + dec_digits(n as nat),
    decreases n,
{
    if n < 10 {
        out.push(48 + n as u8);
        proof {
            assert(out@ =~= old(out)@ + dec_digits(n as nat));
        }
    } else {
        push_decimal(n / 10, out);
        out.push(48 + (n % 10) as u8);
        proof {
            assert(out@ =~= old(out)@ + dec_digits(n as nat));
        }
    }
}

/// Byte-for-byte equality of two buffers.
pub fn bytes_eq(a: &Vec<u8>, b: &Vec<u8>) -> (r: bool)
    ensures
        r == (a@ == b@),
{
    if a.len() != b.len() {
        return false;
    }
    let mut k: usize = 0;
    while k < a.len()
        invariant
            a@.len() == b@.len(),
            k <= a@.len(),
            forall|t: int| 0 <= t < k ==> a@[t] == b@[t],
        decreases a@.len() - k,
    {
        if a[k] != b[k] {
            return false;
        }
        k = k + 1;
    }
    proof {
        assert(a@ =~= b@);
    }
    true
}

/// An owned copy of a byte buffer.
pub fn copy_bytes(src: &Vec<u8>) -> (r: Vec<u8>)
    ensures
        r@ == src@,
{
    let mut out: Vec<u8> = Vec::new();
    let mut k: usize = 0;
    while k < src.len()
        invariant
            k <= src@.len(),
            out@ =~= src@.subrange(0, k as int),
        decreases src@.len() - k,
    {
        out.push(src[k]);
        k = k + 1;
    }
    proof {
        assert(src@.subrange(0, src@.len() as int) =~= src@);
    }
    out
}

/// Appends the byte-string encoding of `b`: decimal length, colon, bytes.
#[verifier::loop_isolation(false)]
fn push_bytestring(b: &Vec<u8>, out: &mut Vec<u8>)
    ensures
        final(out)@ == old(out)@ + enc_bytes(b@),
{
    push_decimal(b.len() as u64, out);
    out.push(58);
    let mut k: usize = 0;
    while k < b.len()
        invariant
            k <= b@.len(),
            out@ =~= old(out)@ + dec_digits(b@.len()) + seq![58u8] + b@.subrange(0, k as int),
        decreases b@.len() - k,
    {
        out.push(b[k]);
        k = k + 1;
    }
    proof {
        assert(old(out)@ + dec_digits(b@.len()) + seq![58u8] + b@.subrange(0, b@.len() as int)
            =~= old(out)@ + enc_bytes(b@));
    }
}

/// Byte-lexicographic comparison of two keys.
fn lex_le_exec(a: &Vec<u8>, b: &Vec<u8>) -> (r: bool)
    ensures
        r == lex_le(a@, b@),
{
    let mut k: usize = 0;
    proof {
        assert(a@.skip(0) =~= a@);
        assert(b@.skip(0) =~= b@);
    }
    loop
        invariant
            k <= a@.len(),
            k <= b@.len(),
            lex_le(a@, b@) == lex_le(a@.skip(k as int), b@.skip(k as int)),
        decreases a@.len() - k,
    {
        if k == a.len() {
            proof {
                assert(a@.skip(k as int).len() == 0);
            }
            return true;
        }
        if k == b.len() {
            proof {
                assert(b@.skip(k as int).len() == 0);
                assert(a@.skip(k as int).len() > 0);
            }
            return false;
        }
        proof {
            lemma_skip_step(a@, k as int);
            lemma_skip_step(b@, k as int);
        }
        if a[k] < b[k] {
            return true;
        }
        if a[k] > b[k] {
            return false;
        }
        k = k + 1;
    }
}

/// Inserts `p` into a key-sorted vector, keeping the model's insertion rule.
fn insert_pair_exec(p: (Vec<u8>, BencodeValue), sorted: Vec<(Vec<u8>, BencodeValue)>)
    -> (r: Vec<(Vec<u8>, BencodeValue)>)
    ensures
        bpairs_of(r@) == insert_pair((p.0@, bval_of(p.1)), bpairs_of(sorted@)),
    decreases sorted@.len(),
{
    let ghost pv = (p.0@, bval_of(p.1));
    let ghost s0 = sorted@;
    let mut sorted = sorted;
    if sorted.len() == 0 {
        sorted.push(p);
        proof {
            assert(sorted@ =~= seq![p]);
            assert(sorted@.drop_first() =~= Seq::<(Vec<u8>, BencodeValue)>::empty());
            assert(bpairs_of(Seq::<(Vec<u8>, BencodeValue)>::empty())
                =~= Seq::<(Seq<u8>, Bval)>::empty());
            assert(bpairs_of(sorted@) =~= seq![pv]);
            assert(bpairs_of(s0) =~= Seq::<(Seq<u8>, Bval)>::empty());
            assert(insert_pair(pv, bpairs_of(s0)) == seq![pv]);
        }
        sorted
    } else {
        proof {
            lemma_bpairs_index(s0);
        }
        if lex_le_exec(&p.0, &sorted[0].0) {
            sorted.insert(0, p);
            proof {
                assert(sorted@ =~= seq![p] + s0);
                assert(sorted@.drop_first() =~= s0);
                assert(bpairs_of(sorted@) == seq![pv] + bpairs_of(s0));
                assert(seq![pv] + bpairs_of(s0) =~= insert_pair(pv, bpairs_of(s0)));
            }
            sorted
        } else {
            let head = sorted.remove(0);
            proof {
                assert(sorted@ =~= s0.drop_first());
            }
            let mut r = insert_pair_exec(p, sorted);
            let ghost inner = r@;
            r.insert(0, head);
            proof {
                assert(r@ =~= seq![head] + inner);
                assert(r@.drop_first() =~= inner);
                assert(bpairs_of(r@) == seq![(head.0@, bval_of(head.1))] + bpairs_of(inner));
                assert(bpairs_of(s0)[0] == (head.0@, bval_of(head.1)));
                assert(bpairs_of(s0).drop_first() =~= bpairs_of(s0.drop_first())) by {
                    lemma_bpairs_index(s0);
                    lemma_bpairs_index(s0.drop_first());
                }
                assert(seq![(head.0@, bval_of(head.1))] + insert_pair(pv, bpairs_of(s0.drop_first()))
                    =~= insert_pair(pv, bpairs_of(s0)));
            }
            r
        }
    }
}

/// Returns a structurally equal value with every dictionary, at every depth,
/// re-ordered into ascending byte-lexicographic key order.
#[verifier::loop_isolation(false)]
#[verifier::rlimit(60)]
fn canonicalize(v: &BencodeValue) -> (r: BencodeValue)
    ensures
        bval_of(r) == canon(bval_of(*v)),
    decreases *v,
{
    match v {
        BencodeValue::ByteString(b) => BencodeValue::ByteString(copy_bytes(b)),
        BencodeValue::Integer(x) => BencodeValue::Integer(*x),
        BencodeValue::List(items) => {
            let mut out: Vec<BencodeValue> = Vec::new();
            let mut k: usize = 0;
            while k < items.len()
                invariant
                    k <= items@.len(),
                    bvals_of(out@) == canon_items(bvals_of(items@.subrange(0, k as int))),
                decreases items@.len() - k,
            {
                let c = canonicalize(&items[k]);
                proof {
                    let prefix = items@.subrange(0, k as int);
                    let prefix1 = items@.subrange(0, k as int + 1);
                    assert(prefix1 =~= prefix.push(items@[k as int]));
                    lemma_bvals_push(prefix, items@[k as int]);
                    lemma_canon_items_index(bvals_of(prefix));
                    lemma_canon_items_index(bvals_of(prefix).push(bval_of(items@[k as int])));
                    lemma_bvals_index(prefix);
                    assert(canon_items(bvals_of(prefix1))
                        =~= canon_items(bvals_of(prefix)).push(canon(bval_of(items@[k as int]))));
                    lemma_bvals_push(out@, c);
                }
                out.push(c);
                k = k + 1;
            }
            proof {
                assert(items@.subrange(0, items@.len() as int) =~= items@);
            }
            BencodeValue::List(out)
        },
        BencodeValue::Dictionary(pairs) => {
            let ghost cps = canon_pairs(bpairs_of(pairs@));
            let mut sorted: Vec<(Vec<u8>, BencodeValue)> = Vec::new();
            let mut k: usize = pairs.len();
            proof {
                lemma_bpairs_index(pairs@);
                lemma_canon_pairs_index(bpairs_of(pairs@));
                assert(cps.skip(k as int).len() == 0);
            }
            while k > 0
                invariant
                    k <= pairs@.len(),
                    bpairs_of(sorted@) == sort_pairs(cps.skip(k as int)),
                decreases k,
    {
                k = k - 1;
                let key = copy_bytes(&pairs[k].0);
                let cv = canonicalize(&pairs[k].1);
                proof {
                    lemma_skip_step(cps, k as int);
                    assert(cps[k as int] == (pairs@[k as int].0@, canon(bval_of(pairs@[k as int].1))));
                    assert((key@, bval_of(cv)) == cps[k as int]);
                    assert(sort_pairs(cps.skip(k as int))
                        == insert_pair(cps[k as int], sort_pairs(cps.skip(k as int + 1))));
                }
                sorted = insert_pair_exec((key, cv), sorted);
            }
            proof {
                assert(cps.skip(0) =~= cps);
            }
            BencodeValue::Dictionary(sorted)
        },
    }
}

/// Appends the encoding of `*v`, with dictionary pairs in stored order.
#[verifier::loop_isolation(false)]
fn encode_into(v: &BencodeValue, out: &mut Vec<u8>)
    ensures
        final(out)@ == old(out)@ + enc_value(bval_of(*v)),
    decreases *v,
{
    match v {
        BencodeValue::ByteString(b) => {
            push_bytestring(b, out);
        },
        BencodeValue::Integer(x) => {
            out.push(105);
            if *x < 0 {
                out.push(45);
                let mag: u64 = if *x == i64::MIN {
                    0x8000_0000_0000_0000u64
                } else {
                    (-(*x)) as u64
                };
                push_decimal(mag, out);
            } else {
                push_decimal(*x as u64, out);
            }
            out.push(101);
            proof {
                assert(out@ =~= old(out)@ + enc_value(bval_of(*v)));
            }
        },
        BencodeValue::List(items) => {
            out.push(108);
            let mut k: usize = 0;
            while k < items.len()
                invariant
                    k <= items@.len(),
                    out@ == old(out)@ + seq![108u8]
                        + enc_items(bvals_of(items@.subrange(0, k as int))),
                decreases items@.len() - k,
            {
                let ghost before = out@;
                encode_into(&items[k], out);
                proof {
                    let prefix = items@.subrange(0, k as int);
                    let prefix1 = items@.subrange(0, k as int + 1);
                    assert(prefix1 =~= prefix.push(items@[k as int]));
                    lemma_bvals_push(prefix, items@[k as int]);
                    lemma_enc_items_push(bvals_of(prefix), bval_of(items@[k as int]));
                    assert(out@ =~= old(out)@ + seq![108u8] + enc_items(bvals_of(prefix1)));
                }
                k = k + 1;
            }
            out.push(101);
            proof {
                assert(items@.subrange(0, items@.len() as int) =~= items@);
                assert(out@ =~= old(out)@ + enc_value(bval_of(*v)));
            }
        },
        BencodeValue::Dictionary(pairs) => {
            out.push(100);
            let mut k: usize = 0;
            while k < pairs.len()
                invariant
                    k <= pairs@.len(),
                    out@ == old(out)@ + seq![100u8]
                        + enc_pairs(bpairs_of(pairs@.subrange(0, k as int))),
                decreases pairs@.len() - k,
            {
                push_bytestring(&pairs[k].0, out);
                encode_into(&pairs[k].1, out);
                proof {
                    let prefix = pairs@.subrange(0, k as int);
                    let prefix1 = pairs@.subrange(0, k as int + 1);
                    assert(prefix1 =~= prefix.push(pairs@[k as int]));
                    lemma_bpairs_push(prefix, pairs@[k as int]);
                    lemma_enc_pairs_push(bpairs_of(prefix),
                        (pairs@[k as int].0@, bval_of(pairs@[k as int].1)));
                    assert(out@ =~= old(out)@ + seq![100u8] + enc_pairs(bpairs_of(prefix1)));
                }
                k = k + 1;
            }
            out.push(101);
            proof {
                assert(pairs@.subrange(0, pairs@.len() as int) =~= pairs@);
                assert(out@ =~= old(out)@ + enc_value(bval_of(*v)));
            }
        },
    }
}

/// Encodes a value. Dictionaries are re-serialized with keys in ascending
/// byte-lexicographic order, whatever order they hold their pairs in, so the
/// output is the encoding of the value's canonical form.
pub fn encode(v: &BencodeValue) -> (r: Vec<u8>)
    ensures
        r@ == enc_value(canon(bval_of(*v))),
{
    let c = canonicalize(v);
    let mut out: Vec<u8> = Vec::new();
    encode_into(&c, &mut out);
    proof {
        assert(Seq::<u8>::empty() + enc_value(bval_of(c)) =~= enc_value(bval_of(c)));
    }
    out
}

} // verus!
