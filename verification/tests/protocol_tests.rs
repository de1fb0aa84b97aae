use sha1::Digest;

use bittorrent_starter_rust::errors::{ProtocolError, VerificationError};
use bittorrent_starter_rust::handshake::{build_handshake, check_handshake_reply};
use bittorrent_starter_rust::messaging::{
    assemble_message, encode_message, header_length, message_type_from_id, u32_from_be,
    MessageType, WireMessage,
};
use bittorrent_starter_rust::pieces::{
    assemble_piece, finish_piece, piece_requests, request_piece_part, setup_step, verify_piece,
    PieceError, SetupPhase,
};

fn piece_message(index: u32, begin: u32, data: &[u8]) -> WireMessage {
    let mut payload = Vec::new();
    payload.extend_from_slice(&index.to_be_bytes());
    payload.extend_from_slice(&begin.to_be_bytes());
    payload.extend_from_slice(data);
    WireMessage { message_type: MessageType::Piece, payload }
}

#[test]
fn framing_round_trip() {
    let payload = vec![1u8, 2, 3, 4, 5];
    let frame = encode_message(MessageType::Request, &payload);
    assert_eq!(frame.len(), 5 + payload.len());
    let header = frame[0..4].to_vec();
    assert_eq!(header_length(&header), 6);
    let t = message_type_from_id(frame[4]).unwrap();
    assert_eq!(t, MessageType::Request);
    assert_eq!(&frame[5..], &payload[..]);
}

#[test]
fn empty_payload_still_sends_envelope() {
    let frame = encode_message(MessageType::Interested, &vec![]);
    assert_eq!(frame, vec![0, 0, 0, 1, 2]);
}

#[test]
fn keep_alive_header_is_zero() {
    assert_eq!(header_length(&vec![0u8, 0, 0, 0]), 0);
}

#[test]
fn message_ids_match_protocol() {
    let table = [
        (0u8, MessageType::Choke),
        (1, MessageType::Unchoke),
        (2, MessageType::Interested),
        (3, MessageType::NotInterested),
        (4, MessageType::Have),
        (5, MessageType::Bitfield),
        (6, MessageType::Request),
        (7, MessageType::Piece),
        (8, MessageType::Cancel),
    ];
    for (id, t) in table {
        assert_eq!(message_type_from_id(id), Some(t));
    }
}

#[test]
fn unknown_message_id_is_rejected() {
    assert!(message_type_from_id(9).is_none());
    assert!(matches!(
        assemble_message(9, vec![]),
        Err(ProtocolError::UnknownMessageId)
    ));
}

#[test]
fn handshake_layout() {
    let ih = vec![7u8; 20];
    let pid = vec![9u8; 20];
    let h = build_handshake(&ih, &pid);
    assert_eq!(h.len(), 68);
    assert_eq!(h[0], 19);
    assert_eq!(&h[1..20], b"BitTorrent protocol");
    assert_eq!(&h[20..28], &[0u8; 8]);
    assert_eq!(&h[28..48], &ih[..]);
    assert_eq!(&h[48..68], &pid[..]);
}

#[test]
fn handshake_accepts_matching_info_hash() {
    let ih = vec![7u8; 20];
    let remote_pid: Vec<u8> = (0..20).collect();
    let reply = build_handshake(&ih, &remote_pid);
    let got = check_handshake_reply(&reply, &ih).unwrap();
    assert_eq!(got, remote_pid);
}

#[test]
fn handshake_rejects_mismatched_info_hash() {
    let ih = vec![7u8; 20];
    let mut reply = build_handshake(&ih, &vec![9u8; 20]);
    reply[30] ^= 0xff;
    assert!(matches!(
        check_handshake_reply(&reply, &ih),
        Err(ProtocolError::InfoHashMismatch)
    ));
}

#[test]
fn request_message_layout() {
    let msg = request_piece_part(1, 2, 16384);
    assert_eq!(
        msg,
        vec![0, 0, 0, 13, 6, 0, 0, 0, 1, 0, 0, 0x80, 0, 0, 0, 0x40, 0]
    );
}

#[test]
fn block_layout_for_odd_piece() {
    let reqs = piece_requests(0, 16384 * 3 + 5000);
    assert_eq!(reqs.len(), 4);
    let begins: Vec<u32> = reqs
        .iter()
        .map(|m| u32_from_be(m[9], m[10], m[11], m[12]))
        .collect();
    assert_eq!(begins, vec![0, 16384, 32768, 49152]);
    let lens: Vec<u32> = reqs
        .iter()
        .map(|m| u32_from_be(m[13], m[14], m[15], m[16]))
        .collect();
    assert_eq!(lens, vec![16384, 16384, 16384, 5000]);
}

#[test]
fn block_layout_exact_multiple_has_no_partial_block() {
    let reqs = piece_requests(0, 16384 * 2);
    assert_eq!(reqs.len(), 2);
    let lens: Vec<u32> = reqs
        .iter()
        .map(|m| u32_from_be(m[13], m[14], m[15], m[16]))
        .collect();
    assert_eq!(lens, vec![16384, 16384]);
}

#[test]
fn sha1_known_vector_verifies() {
    let data = b"abc".to_vec();
    let expected = vec![
        0xa9, 0x99, 0x3e, 0x36, 0x47, 0x06, 0x81, 0x6a, 0xba, 0x3e, 0x25, 0x71, 0x78, 0x50, 0xc2,
        0x6c, 0x9c, 0xd0, 0xd8, 0x9d,
    ];
    assert!(verify_piece(&data, &expected).is_ok());
    let mut wrong = expected.clone();
    wrong[0] = 0;
    assert!(matches!(
        verify_piece(&data, &wrong),
        Err(VerificationError::HashMismatch)
    ));
}

#[test]
fn download_returns_verified_bytes() {
    let content: Vec<u8> = (0..16384 * 2 + 100).map(|i| (i % 239) as u8).collect();
    let expected = sha1::Sha1::digest(&content).to_vec();
    let responses = vec![
        piece_message(0, 0, &content[0..16384]),
        piece_message(0, 16384, &content[16384..32768]),
        piece_message(0, 32768, &content[32768..]),
    ];
    let got = finish_piece(&responses, content.len(), &expected).unwrap();
    assert_eq!(got, content);
}

#[test]
fn blocks_land_at_their_declared_offsets() {
    let content: Vec<u8> = (0..16384 + 50).map(|i| (i % 251) as u8).collect();
    let expected = sha1::Sha1::digest(&content).to_vec();
    // deliver the blocks out of order: the begin field places them
    let responses = vec![
        piece_message(0, 16384, &content[16384..]),
        piece_message(0, 0, &content[0..16384]),
    ];
    let got = finish_piece(&responses, content.len(), &expected).unwrap();
    assert_eq!(got, content);
}

#[test]
fn flipped_byte_fails_verification() {
    let content: Vec<u8> = (0..16384 * 2 + 100).map(|i| (i % 239) as u8).collect();
    let expected = sha1::Sha1::digest(&content).to_vec();
    let mut tampered = content.clone();
    tampered[20000] ^= 1;
    let responses = vec![
        piece_message(0, 0, &tampered[0..16384]),
        piece_message(0, 16384, &tampered[16384..32768]),
        piece_message(0, 32768, &tampered[32768..]),
    ];
    let r = finish_piece(&responses, tampered.len(), &expected);
    assert!(matches!(
        r,
        Err(PieceError::Verification(VerificationError::HashMismatch))
    ));
}

#[test]
fn stray_message_is_protocol_error() {
    let responses = vec![WireMessage {
        message_type: MessageType::Have,
        payload: vec![0, 0, 0, 0],
    }];
    assert!(matches!(
        finish_piece(&responses, 4, &vec![0u8; 20]),
        Err(PieceError::Protocol(ProtocolError::UnexpectedMessage))
    ));
}

#[test]
fn short_piece_payload_is_protocol_error() {
    let responses = vec![WireMessage {
        message_type: MessageType::Piece,
        payload: vec![0, 0, 0],
    }];
    assert!(matches!(
        assemble_piece(&responses, 4),
        Err(ProtocolError::UnexpectedMessage)
    ));
}

#[test]
fn out_of_range_block_is_protocol_error() {
    let responses = vec![piece_message(0, 100, &[1, 2, 3])];
    assert!(matches!(
        assemble_piece(&responses, 4),
        Err(ProtocolError::BlockOutOfRange)
    ));
}

#[test]
fn setup_sequence() {
    let s = setup_step(SetupPhase::AwaitBitfield, MessageType::Bitfield).unwrap();
    assert_eq!(s, SetupPhase::AwaitUnchoke);
    let s = setup_step(s, MessageType::Unchoke).unwrap();
    assert_eq!(s, SetupPhase::Ready);
}

#[test]
fn setup_rejects_out_of_sequence_messages() {
    assert!(matches!(
        setup_step(SetupPhase::AwaitBitfield, MessageType::Unchoke),
        Err(ProtocolError::UnexpectedMessage)
    ));
    assert!(matches!(
        setup_step(SetupPhase::AwaitUnchoke, MessageType::Have),
        Err(ProtocolError::UnexpectedMessage)
    ));
}
