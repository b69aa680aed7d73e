use rustorrent::bencode::decode::{bdict_decode, belement_decode};
use rustorrent::metainfo::{MetaInfo, MetaInfoErrorKind, ModeInfo};
use rustorrent::tracker::{
    interpret_tracker_response, url_encode, url_encode_str, TrackerError, TrackerEvent,
    TrackerReq, TrackerResp,
};
use sha1::{Digest, Sha1};

fn torrent_bytes() -> Vec<u8> {
    // a single-file torrent: 6 content bytes in two pieces of 3
    let piece_hashes: Vec<u8> = [Sha1::digest(b"abc").to_vec(), Sha1::digest(b"def").to_vec()]
        .concat();
    let mut out = Vec::new();
    out.extend_from_slice(b"d8:announce24:http://tracker.example/a4:infod");
    out.extend_from_slice(b"6:lengthi6e4:name4:file12:piece lengthi3e6:pieces40:");
    out.extend_from_slice(&piece_hashes);
    out.extend_from_slice(b"ee");
    out
}

#[test]
fn test_parses_single_file_metainfo() {
    let bytes = torrent_bytes();
    let root = bdict_decode(&bytes).unwrap().0;
    let metainfo = MetaInfo::from(&root).unwrap();
    assert_eq!(metainfo.announce, "http://tracker.example/a");
    assert_eq!(metainfo.info.piece_length, 3);
    assert_eq!(metainfo.info.name, "file");
    assert_eq!(metainfo.info.pieces.len(), 2);
    assert_eq!(metainfo.info.pieces[0], Sha1::digest(b"abc").to_vec());
    match &metainfo.info.mode_info {
        ModeInfo::Single(single) => assert_eq!(single.length, 6),
        _ => panic!("expected the single-file form"),
    }
}

#[test]
fn test_metainfo_info_hash_covers_info_span() {
    let bytes = torrent_bytes();
    let root = bdict_decode(&bytes).unwrap().0;
    let metainfo = MetaInfo::from(&root).unwrap();
    // the stored digest is the SHA-1 of the raw info dictionary span
    let start = bytes.windows(7).position(|w| w == b"4:infod").unwrap() + 6;
    let end = bytes.len() - 1;
    let expected: Vec<u8> = Sha1::digest(&bytes[start..end]).to_vec();
    let original = metainfo.info.original.unwrap();
    assert_eq!(original.hash().clone(), expected);
}

#[test]
fn test_metainfo_missing_field_reported() {
    let root = bdict_decode(b"d4:infod6:lengthi6eee").unwrap().0;
    let err = MetaInfo::from(&root).unwrap_err();
    assert!(matches!(err.kind, MetaInfoErrorKind::MissingField(f) if f == "announce"));
}

#[test]
fn test_metainfo_wrong_type_reported() {
    let root = bdict_decode(b"d8:announcei5e4:infodee").unwrap().0;
    let err = MetaInfo::from(&root).unwrap_err();
    assert!(matches!(err.kind, MetaInfoErrorKind::FieldIsWrongType(f) if f == "announce"));
}

#[test]
fn test_metainfo_multi_file_form() {
    let mut bytes = Vec::new();
    bytes.extend_from_slice(b"d8:announce1:a4:infod5:filesl");
    bytes.extend_from_slice(b"d6:lengthi4e4:pathl3:dir2:f1ee");
    bytes.extend_from_slice(b"d6:lengthi2e4:pathl2:f2ee");
    bytes.extend_from_slice(b"e4:name4:file12:piece lengthi3e6:pieces40:");
    let hashes: Vec<u8> =
        [Sha1::digest(b"abcd").to_vec(), Sha1::digest(b"ef").to_vec()].concat();
    bytes.extend_from_slice(&hashes);
    bytes.extend_from_slice(b"ee");
    let root = bdict_decode(&bytes).unwrap().0;
    let metainfo = MetaInfo::from(&root).unwrap();
    match &metainfo.info.mode_info {
        ModeInfo::Multi(multi) => {
            assert_eq!(multi.files.len(), 2);
            assert_eq!(multi.files[0].0, 4);
            assert_eq!(multi.files[0].2, vec!["dir".to_string(), "f1".to_string()]);
            assert_eq!(multi.files[1].0, 2);
        }
        _ => panic!("expected the multi-file form"),
    }
}

#[test]
fn test_url_encode_unreserved_pass_through() {
    assert_eq!(url_encode_str("aZ9.-_~"), "aZ9.-_~");
}

#[test]
fn test_url_encode_percent_escapes_upper_hex() {
    assert_eq!(url_encode(&[0x00, 0x1f, 0xff, b' ']), "%00%1F%FF%20");
    assert_eq!(url_encode_str("a b/c"), "a%20b%2Fc");
}

#[test]
fn test_query_string_pairs() {
    let req = TrackerReq {
        info_hash: vec![0xab; 20],
        peer_id: b"rustorrent-0.1abcdef".to_vec(),
        port: 6881,
        uploaded: 0,
        left: 12345,
        compact: true,
        no_peer_id: false,
        event: Some(TrackerEvent::Started),
        ip: None,
        numwant: Some(50),
        key: None,
        trackerid: None,
    };
    let pairs = req.to_query_string_pairs();
    assert_eq!(pairs[0], ("info_hash".to_string(), "%AB".repeat(20)));
    assert_eq!(pairs[1].0, "peer_id");
    assert_eq!(pairs[1].1, "rustorrent-0.1abcdef");
    assert_eq!(pairs[2], ("port".to_string(), "6881".to_string()));
    assert_eq!(pairs[3], ("uploaded".to_string(), "0".to_string()));
    assert_eq!(pairs[4], ("left".to_string(), "12345".to_string()));
    assert_eq!(pairs[5], ("compact".to_string(), "1".to_string()));
    assert_eq!(pairs[6], ("no_peer_id".to_string(), "0".to_string()));
    assert_eq!(pairs[7], ("event".to_string(), "started".to_string()));
    assert_eq!(pairs[8], ("numwant".to_string(), "50".to_string()));
}

#[test]
fn test_tracker_response_dict_peers() {
    let body = b"d8:completei3e8:intervali1800e5:peersl\
d2:ip9:10.0.0.207:peer id3:abc4:porti6881eee10:tracker id2:t1e";
    let resp = interpret_tracker_response(body).unwrap();
    assert_eq!(resp.interval, 1800);
    assert_eq!(resp.complete, 3);
    assert_eq!(resp.tracker_id, Some("t1".to_string()));
    assert_eq!(resp.peers.len(), 1);
    assert_eq!(resp.peers[0].ip, "10.0.0.20");
    assert_eq!(resp.peers[0].port, 6881);
    assert_eq!(resp.peers[0].peer_id, "abc");
}

#[test]
fn test_tracker_response_compact_peers() {
    let mut body = Vec::new();
    body.extend_from_slice(b"d8:completei1e8:intervali60e5:peers6:");
    body.extend_from_slice(&[10, 0, 0, 20, 0x1a, 0xe1]);
    body.extend_from_slice(b"10:tracker id2:t1e");
    let root = bdict_decode(&body).unwrap().0;
    let resp = TrackerResp::from_bdict(&root).unwrap();
    assert_eq!(resp.peers.len(), 1);
    assert_eq!(resp.peers[0].ip, "10.0.0.20");
    assert_eq!(resp.peers[0].port, 6881);
}

#[test]
fn test_tracker_id_is_optional() {
    // interval, complete and well-formed peers suffice
    let root = bdict_decode(b"d8:completei1e8:intervali60e5:peers0:e").unwrap().0;
    let resp = TrackerResp::from_bdict(&root).unwrap();
    assert_eq!(resp.tracker_id, None);
    assert!(resp.peers.is_empty());
}

#[test]
fn test_tracker_refusal_surfaces_reason() {
    let body = b"d14:failure reason9:try againe";
    let err = interpret_tracker_response(body).unwrap_err();
    assert!(matches!(err, TrackerError::Refused(reason) if reason == "try again"));
}

#[test]
fn test_tracker_parse_error_surfaces() {
    let err = interpret_tracker_response(b"not bencode").unwrap_err();
    assert!(matches!(err, TrackerError::ParseError(_)));
    // a bencoded non-dictionary is a parse error too
    let err = interpret_tracker_response(b"i5e").unwrap_err();
    assert!(matches!(err, TrackerError::ParseError(_)));
}

#[test]
fn test_tracker_missing_field_is_error() {
    let root = bdict_decode(b"d8:intervali60ee").unwrap().0;
    let err = TrackerResp::from_bdict(&root).unwrap_err();
    assert!(matches!(
        err.kind,
        rustorrent::bencode::DecodeErrorKind::MissingField(_)
    ));
}

#[test]
fn test_belement_decodes_whole_torrent() {
    let bytes = torrent_bytes();
    let parsed = belement_decode(&bytes).unwrap();
    assert_eq!(parsed.1, bytes.len());
}
