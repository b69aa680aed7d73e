use rustorrent::metainfo::{FileInfo, MetaInfo, ModeInfo, SingleFileInfo};
use rustorrent::wire::msg::PeerMsg;
use rustorrent::wire::peer::PeerServer;
use rustorrent::wire::peer_info::TIMEOUT_MS;
use sha1::{Digest, Sha1};

fn metainfo_for(piece_length: u64, content: &[&[u8]]) -> MetaInfo {
    let total: u64 = content.iter().map(|c| c.len() as u64).sum();
    let pieces = content.iter().map(|c| Sha1::digest(c).to_vec()).collect();
    MetaInfo {
        announce: "http://tracker.example/announce".to_string(),
        announce_list: Vec::new(),
        comment: None,
        created_by: None,
        creation_date: None,
        info: FileInfo {
            piece_length,
            pieces,
            private: None,
            name: "content".to_string(),
            mode_info: ModeInfo::Single(SingleFileInfo { length: total, md5_sum: None }),
            original: None,
        },
    }
}

fn ready_server(content: &[&[u8]], piece_length: u64, peers: usize) -> PeerServer {
    let metainfo = metainfo_for(piece_length, content);
    let mut server = PeerServer::new(&metainfo, vec![7u8; 20], "rustorrent-0.1");
    for _ in 0..peers {
        server.add_peer(0);
    }
    for peer in server.peers.iter_mut() {
        peer.has_handshake = true;
        peer.peer_choking = false;
        // start from a clean outbound buffer
        peer.buffer.bytes_out.clear();
    }
    server
}

#[test]
fn test_new_peer_gets_handshake_queued() {
    let metainfo = metainfo_for(4, &[b"abcd"]);
    let mut server = PeerServer::new(&metainfo, vec![7u8; 20], "rustorrent-0.1");
    let id = server.add_peer(1000);
    assert_eq!(id, 1);
    let expected = PeerMsg::handshake(
        "BitTorrent protocol".to_string(),
        "rustorrent-0.1".to_string(),
        &vec![7u8; 20],
    )
    .encode();
    assert_eq!(server.peers[0].buffer.bytes_out, expected);
}

#[test]
fn test_matching_handshake_makes_peer_ready() {
    let mut server = ready_server(&[b"abcd"], 4, 0);
    let id = server.add_peer(0);
    let idx = server.find_peer(id).unwrap();
    let shake = PeerMsg::HandShake(
        "BitTorrent protocol".to_string(),
        vec![7u8; 20],
        vec![9u8; 20],
    );
    server.on_message_receive(idx, shake, 5);
    assert!(server.peers[idx].has_handshake);
    assert!(!server.peers[idx].am_choking);
    assert!(server.peers[idx].am_interested);
    assert!(!server.peers[idx].disconnected);
    assert_eq!(server.peers[idx].last_msg_time, 5);
}

#[test]
fn test_wrong_hash_disconnects_peer() {
    let mut server = ready_server(&[b"abcd"], 4, 0);
    let id = server.add_peer(0);
    let idx = server.find_peer(id).unwrap();
    let shake = PeerMsg::HandShake(
        "BitTorrent protocol".to_string(),
        vec![8u8; 20],
        vec![9u8; 20],
    );
    server.on_message_receive(idx, shake, 5);
    assert!(!server.peers[idx].has_handshake);
    assert!(server.peers[idx].disconnected);
}

#[test]
fn test_message_before_handshake_disconnects() {
    let mut server = ready_server(&[b"abcd"], 4, 0);
    let id = server.add_peer(0);
    let idx = server.find_peer(id).unwrap();
    server.on_message_receive(idx, PeerMsg::Choke, 5);
    assert!(server.peers[idx].disconnected);
}

#[test]
fn test_timeout_removes_peer_exactly_once() {
    let mut server = ready_server(&[b"abcd"], 4, 2);
    server.peers[0].last_msg_time = 0;
    server.peers[1].last_msg_time = TIMEOUT_MS + 500;
    let now = TIMEOUT_MS + 1000;
    let removed = server.remove_old_peers(now);
    assert_eq!(removed, vec![1]);
    assert_eq!(server.peers.len(), 1);
    assert_eq!(server.peers[0].peer_id, 2);
    // sweeping again at the same time removes nothing further
    let removed_again = server.remove_old_peers(now);
    assert!(removed_again.is_empty());
    assert_eq!(server.peers.len(), 1);
}

#[test]
fn test_scores_accumulate() {
    let mut server = ready_server(&[b"abcd", b"efgh"], 4, 1);
    server.on_message_receive(0, PeerMsg::Have(0), 1);
    assert_eq!(server.peers[0].score, 1);
    let bits = bit_vec::BitVec::from_bytes(&[0b11000000]);
    server.on_message_receive(0, PeerMsg::Bitfield(bits), 2);
    assert_eq!(server.peers[0].score, 11);
}

#[test]
fn test_two_peer_tick_requests_rarest_first() {
    // peer A claims pieces 0 and 2, peer B claims piece 1; the local
    // store has none, so the tick asks A for 0 and 2 and B for 1
    let pieces: &[&[u8]] = &[b"aaaa", b"bbbb", b"cccc"];
    let mut server = ready_server(pieces, 4, 2);
    server.peers[0].file.set(0, true);
    server.peers[0].file.set(2, true);
    server.peers[1].file.set(1, true);
    server.request_missing();
    let expected_a = [
        PeerMsg::Request(0, 0, 4).encode(),
        PeerMsg::Request(2, 0, 4).encode(),
    ]
    .concat();
    let expected_b = PeerMsg::Request(1, 0, 4).encode();
    assert_eq!(server.peers[0].buffer.bytes_out, expected_a);
    assert_eq!(server.peers[1].buffer.bytes_out, expected_b);

    // receiving and verifying all three pieces completes the store and a
    // have is queued to every handshaked peer
    for peer in server.peers.iter_mut() {
        peer.buffer.bytes_out.clear();
    }
    let mut announced = Vec::new();
    for (i, content) in pieces.iter().enumerate() {
        // completing a piece makes the server broadcast the have itself
        let done = server.on_message_receive(
            if i == 1 { 1 } else { 0 },
            PeerMsg::Piece(i as u32, 0, content.to_vec()),
            3,
        );
        announced.push(done.unwrap());
    }
    assert_eq!(announced, vec![0, 1, 2]);
    for i in 0..3 {
        assert!(server.strategy.partial_file.has_piece(i));
    }
    let expected_haves = [
        PeerMsg::Have(0).encode(),
        PeerMsg::Have(1).encode(),
        PeerMsg::Have(2).encode(),
    ]
    .concat();
    assert_eq!(server.peers[0].buffer.bytes_out, expected_haves);
    assert_eq!(server.peers[1].buffer.bytes_out, expected_haves);
}

#[test]
fn test_request_served_when_unchoked() {
    let content: &[&[u8]] = &[b"abcd"];
    let mut server = ready_server(content, 4, 1);
    server.on_message_receive(0, PeerMsg::Piece(0, 0, b"abcd".to_vec()), 1);
    server.peers[0].buffer.bytes_out.clear();
    // we choke them: nothing is served
    server.peers[0].am_choking = true;
    server.on_message_receive(0, PeerMsg::Request(0, 0, 4), 2);
    assert!(server.peers[0].buffer.bytes_out.is_empty());
    // unchoked: the block goes out
    server.peers[0].am_choking = false;
    server.on_message_receive(0, PeerMsg::Request(0, 0, 4), 3);
    let expected = PeerMsg::Piece(0, 0, b"abcd".to_vec()).encode();
    assert_eq!(server.peers[0].buffer.bytes_out, expected);
}

#[test]
fn test_keepalive_sent_when_silent() {
    let mut server = ready_server(&[b"abcd"], 4, 1);
    server.peers[0].last_msg_sent_time = 0;
    server.send_keepalives(31000);
    assert_eq!(server.peers[0].buffer.bytes_out, PeerMsg::KeepAlive.encode());
    assert_eq!(server.peers[0].last_msg_sent_time, 31000);
    // not yet due: nothing more goes out
    server.send_keepalives(32000);
    assert_eq!(server.peers[0].buffer.bytes_out, PeerMsg::KeepAlive.encode());
}
