use rustorrent::wire::msg::{parse_handshake, parse_peermsg, MsgParseError, PeerMsg};
use rustorrent::wire::peer_info::PeerState;

fn round_trips(msg: PeerMsg) {
    let bytes = msg.encode();
    let (back, used) = parse_peermsg(&bytes).unwrap();
    assert_eq!(back, msg);
    assert_eq!(used, bytes.len());
}

#[test]
fn test_wire_round_trip_every_variant() {
    round_trips(PeerMsg::KeepAlive);
    round_trips(PeerMsg::Choke);
    round_trips(PeerMsg::Unchoke);
    round_trips(PeerMsg::Interested);
    round_trips(PeerMsg::NotInterested);
    round_trips(PeerMsg::Have(123456));
    round_trips(PeerMsg::Bitfield(bit_vec::BitVec::from_bytes(&[0b10100000, 0b00000001])));
    round_trips(PeerMsg::Request(1, 16384, 16384));
    round_trips(PeerMsg::Piece(2, 32768, vec![9, 8, 7, 6, 5]));
    round_trips(PeerMsg::Piece(3, 0, Vec::new()));
    round_trips(PeerMsg::Cancel(4, 0, 16384));
    round_trips(PeerMsg::Port(6881));
    let hash: Vec<u8> = (0u8..20).collect();
    round_trips(PeerMsg::handshake(
        "BitTorrent protocol".to_string(),
        "rustorrent-0.1".to_string(),
        &hash,
    ));
}

#[test]
fn test_wire_exact_bytes() {
    assert_eq!(PeerMsg::KeepAlive.encode(), vec![0, 0, 0, 0]);
    assert_eq!(PeerMsg::Choke.encode(), vec![0, 0, 0, 1, 0]);
    assert_eq!(PeerMsg::Have(1).encode(), vec![0, 0, 0, 5, 4, 0, 0, 0, 1]);
    assert_eq!(
        PeerMsg::Request(1, 2, 3).encode(),
        vec![0, 0, 0, 13, 6, 0, 0, 0, 1, 0, 0, 0, 2, 0, 0, 0, 3]
    );
    assert_eq!(PeerMsg::Port(0x1f90).encode(), vec![0, 0, 0, 3, 9, 0x1f, 0x90]);
}

#[test]
fn test_handshake_layout() {
    let hash: Vec<u8> = (0u8..20).collect();
    let msg = PeerMsg::handshake(
        "BitTorrent protocol".to_string(),
        "rustorrent-0.1".to_string(),
        &hash,
    );
    let bytes = msg.encode();
    assert_eq!(bytes.len(), 68);
    assert_eq!(bytes[0], 19);
    assert_eq!(&bytes[1..20], "BitTorrent protocol".as_bytes());
    assert_eq!(&bytes[20..28], &[0u8; 8]);
    assert_eq!(&bytes[28..48], hash.as_slice());
    // the peer id is padded with zeros up to twenty bytes
    assert_eq!(&bytes[48..62], "rustorrent-0.1".as_bytes());
    assert_eq!(&bytes[62..68], &[0u8; 6]);
}

#[test]
fn test_handshake_accepted_with_any_suffix() {
    // any 68-byte prefix whose first twenty bytes are <19>"BitTorrent
    // protocol" is accepted
    let mut bytes = vec![19u8];
    bytes.extend_from_slice("BitTorrent protocol".as_bytes());
    bytes.extend_from_slice(&[0xaa; 8]);
    bytes.extend_from_slice(&[0x11; 20]);
    bytes.extend_from_slice(&[0x22; 20]);
    let (msg, used) = parse_handshake(&bytes).unwrap();
    assert_eq!(used, 68);
    match msg {
        PeerMsg::HandShake(proto, info_hash, peer_id) => {
            assert_eq!(proto, "BitTorrent protocol");
            assert_eq!(info_hash, vec![0x11; 20]);
            assert_eq!(peer_id, vec![0x22; 20]);
        }
        other => panic!("expected a handshake, got {:?}", other),
    }
}

#[test]
fn test_handshake_bad_first_byte_rejected() {
    let mut bytes = vec![18u8];
    bytes.extend_from_slice("BitTorrent protocol".as_bytes());
    bytes.extend_from_slice(&[0u8; 48]);
    let err = parse_handshake(&bytes).unwrap_err();
    assert!(matches!(err, MsgParseError::Malformed(_)));
}

#[test]
fn test_handshake_wrong_protocol_rejected() {
    let mut bytes = vec![19u8];
    bytes.extend_from_slice("bitTorrent protocol".as_bytes());
    bytes.extend_from_slice(&[0u8; 48]);
    let err = parse_handshake(&bytes).unwrap_err();
    assert!(matches!(err, MsgParseError::UnknownProtocol));
}

#[test]
fn test_incomplete_frames_ask_for_more() {
    assert!(matches!(
        parse_peermsg(&[0, 0]).unwrap_err(),
        MsgParseError::TooShort
    ));
    assert!(matches!(
        parse_peermsg(&[0, 0, 0, 5, 4]).unwrap_err(),
        MsgParseError::TooShort
    ));
    assert!(matches!(
        parse_handshake(&[19u8; 40]).unwrap_err(),
        MsgParseError::TooShort
    ));
}

#[test]
fn test_invalid_id_rejected() {
    let err = parse_peermsg(&[0, 0, 0, 1, 42]).unwrap_err();
    assert!(matches!(err, MsgParseError::InvalidId));
}

#[test]
fn test_oversized_frame_rejected() {
    // 2^20 + 1 exceeds the non-piece frame cap
    let err = parse_peermsg(&[0, 0x10, 0, 1, 5, 0]).unwrap_err();
    assert!(matches!(err, MsgParseError::Malformed(_)));
}

#[test]
fn test_oversized_piece_block_rejected_early() {
    // a piece frame announcing a block over the block cap is rejected as
    // soon as the id byte is visible, not buffered until complete
    let err = parse_peermsg(&[0, 2, 0, 0x13, 7]).unwrap_err();
    assert!(matches!(err, MsgParseError::Malformed(_)));
}

#[test]
fn test_peer_stream_feeds_frames() {
    // feed a bitfield frame, then a have frame, into a peer stream whose
    // bitfield length is eight
    let mut peer = PeerState::new(8, 16384, 1, 0);
    peer.read_from_peer(&[0, 0, 0, 2, 5, 0]);
    match peer.message() {
        Some(PeerMsg::Bitfield(bits)) => {
            assert_eq!(bits.len(), 8);
            assert!(bits.iter().all(|b| !b));
        }
        other => panic!("expected a bitfield, got {:?}", other),
    }
    peer.read_from_peer(&[0, 0, 0, 5, 4, 0, 0, 0, 0]);
    match peer.message() {
        Some(PeerMsg::Have(0)) => {}
        other => panic!("expected have(0), got {:?}", other),
    }
    assert!(peer.buffer.bytes_in.is_empty());
    assert!(!peer.disconnected);
}

#[test]
fn test_peer_stream_flags_follow_messages() {
    let mut peer = PeerState::new(4, 16384, 1, 0);
    assert!(peer.peer_choking && !peer.peer_interested);
    peer.read_from_peer(&PeerMsg::Unchoke.encode());
    peer.message().unwrap();
    assert!(!peer.peer_choking);
    peer.read_from_peer(&PeerMsg::Interested.encode());
    peer.message().unwrap();
    assert!(peer.peer_interested);
    peer.read_from_peer(&PeerMsg::Have(2).encode());
    peer.message().unwrap();
    assert!(peer.file.has_piece(2));
    assert!(!peer.file.has_piece(1));
}

#[test]
fn test_malformed_stream_disconnects() {
    let mut peer = PeerState::new(4, 16384, 1, 0);
    peer.read_from_peer(&[0, 0, 0, 1, 42]);
    assert!(peer.message().is_none());
    assert!(peer.disconnected);
}

#[test]
fn test_outbound_buffer_short_writes() {
    let mut peer = PeerState::new(4, 16384, 1, 0);
    peer.write_message_out(PeerMsg::Choke);
    let first = peer.write_to_peer(2);
    assert_eq!(first, vec![0, 0]);
    let rest = peer.write_to_peer(100);
    assert_eq!(rest, vec![0, 1, 0]);
    assert!(peer.buffer.bytes_out.is_empty());
}
