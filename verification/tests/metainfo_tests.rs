use sha1::Digest;

use bittorrent_starter_rust::bencode::{encode, BencodeValue};
use bittorrent_starter_rust::metainfo::{parse, MetaInfoFile};
use bittorrent_starter_rust::pieces::valid_piece_length;

fn info_dict(length: i64, piece_length: i64, piece_count: usize) -> BencodeValue {
    let pieces: Vec<u8> = (0..piece_count * 20).map(|i| (i % 251) as u8).collect();
    BencodeValue::Dictionary(vec![
        (b"length".to_vec(), BencodeValue::Integer(length)),
        (b"piece length".to_vec(), BencodeValue::Integer(piece_length)),
        (b"pieces".to_vec(), BencodeValue::ByteString(pieces)),
    ])
}

fn torrent_bytes(length: i64, piece_length: i64, piece_count: usize) -> Vec<u8> {
    let top = BencodeValue::Dictionary(vec![
        (
            b"announce".to_vec(),
            BencodeValue::ByteString(b"http://tracker.example/announce".to_vec()),
        ),
        (b"info".to_vec(), info_dict(length, piece_length, piece_count)),
    ]);
    encode(&top)
}

#[test]
fn parse_metainfo_even_pieces() {
    let bytes = torrent_bytes(1048576, 262144, 4);
    let m = parse(&bytes).unwrap();
    assert_eq!(m.length, 1048576);
    assert_eq!(m.piece_length, 262144);
    assert_eq!(m.announce, b"http://tracker.example/announce".to_vec());
    assert_eq!(m.piece_hashes.len(), 4);
    for i in 0..4u64 {
        assert_eq!(valid_piece_length(&m, i), 262144);
    }
}

#[test]
fn parse_metainfo_short_last_piece() {
    let bytes = torrent_bytes(1000000, 262144, 4);
    let m = parse(&bytes).unwrap();
    assert_eq!(m.piece_hashes.len(), 4);
    assert_eq!(valid_piece_length(&m, 0), 262144);
    assert_eq!(valid_piece_length(&m, 3), 1000000 - 3 * 262144);
}

#[test]
fn piece_hashes_are_the_pieces_chunks() {
    let bytes = torrent_bytes(100, 40, 3);
    let m = parse(&bytes).unwrap();
    let pieces: Vec<u8> = (0..3 * 20).map(|i| (i % 251) as u8).collect();
    for i in 0..3 {
        assert_eq!(m.piece_hashes[i], pieces[20 * i..20 * i + 20].to_vec());
    }
}

#[test]
fn info_hash_is_sha1_of_canonical_info_encoding() {
    let bytes = torrent_bytes(1048576, 262144, 4);
    let m = parse(&bytes).unwrap();
    let enc = encode(&info_dict(1048576, 262144, 4));
    let d = sha1::Sha1::digest(&enc).to_vec();
    assert_eq!(m.info_hash, d);
    assert_eq!(m.info_hash.len(), 20);
}

#[test]
fn info_hash_hex_renders_lower_case() {
    let m = MetaInfoFile {
        announce: vec![],
        length: 0,
        piece_length: 1,
        piece_hashes: vec![],
        info_hash: vec![0xde, 0xad, 0xbe, 0xef],
    };
    assert_eq!(m.info_hash_hex(), b"deadbeef".to_vec());
}

#[test]
fn parse_rejects_wrong_piece_count() {
    let bytes = torrent_bytes(1048576, 262144, 5);
    assert!(parse(&bytes).is_err());
}

#[test]
fn parse_rejects_missing_announce() {
    let top = BencodeValue::Dictionary(vec![(
        b"info".to_vec(),
        info_dict(100, 40, 3),
    )]);
    assert!(parse(&encode(&top)).is_err());
}

#[test]
fn parse_rejects_mistyped_length() {
    let info = BencodeValue::Dictionary(vec![
        (b"length".to_vec(), BencodeValue::ByteString(b"100".to_vec())),
        (b"piece length".to_vec(), BencodeValue::Integer(40)),
        (b"pieces".to_vec(), BencodeValue::ByteString(vec![0; 60])),
    ]);
    let top = BencodeValue::Dictionary(vec![
        (b"announce".to_vec(), BencodeValue::ByteString(b"x".to_vec())),
        (b"info".to_vec(), info),
    ]);
    assert!(parse(&encode(&top)).is_err());
}

#[test]
fn parse_rejects_ragged_pieces() {
    let info = BencodeValue::Dictionary(vec![
        (b"length".to_vec(), BencodeValue::Integer(100)),
        (b"piece length".to_vec(), BencodeValue::Integer(40)),
        (b"pieces".to_vec(), BencodeValue::ByteString(vec![0; 61])),
    ]);
    let top = BencodeValue::Dictionary(vec![
        (b"announce".to_vec(), BencodeValue::ByteString(b"x".to_vec())),
        (b"info".to_vec(), info),
    ]);
    assert!(parse(&encode(&top)).is_err());
}

#[test]
fn parse_rejects_non_dictionary() {
    assert!(parse(b"i42e").is_err());
    assert!(parse(b"garbage").is_err());
}
