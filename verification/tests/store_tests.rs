use rustorrent::file::{PartialFile, PeerFile, Piece};
use rustorrent::metainfo::{FileInfo, ModeInfo, SingleFileInfo};
use sha1::{Digest, Sha1};

fn single_file_info(piece_length: u64, content: &[&[u8]]) -> FileInfo {
    let total: u64 = content.iter().map(|c| c.len() as u64).sum();
    let pieces = content.iter().map(|c| Sha1::digest(c).to_vec()).collect();
    FileInfo {
        piece_length,
        pieces,
        private: None,
        name: "content".to_string(),
        mode_info: ModeInfo::Single(SingleFileInfo { length: total, md5_sum: None }),
        original: None,
    }
}

#[test]
fn test_piece_store_covering_adds_complete_a_piece() {
    // non-overlapping adds that cover the piece with the right bytes make
    // has_piece true and show up in the derived bitfield
    let data = b"hello world piece";
    let info = single_file_info(data.len() as u64, &[data]);
    let mut pf = PartialFile::new(&info);
    assert!(!pf.has_piece(0));
    assert!(pf.add_piece(0, 6, data[6..].to_vec()));
    assert!(!pf.has_piece(0));
    assert!(pf.add_piece(0, 0, data[..6].to_vec()));
    assert!(pf.has_piece(0));
    assert!(pf.is_complete());
    assert_eq!(pf.bit_array(), vec![true]);
}

#[test]
fn test_piece_store_wrong_bytes_stay_incomplete() {
    let data = b"0123456789";
    let info = single_file_info(10, &[data]);
    let mut pf = PartialFile::new(&info);
    assert!(pf.add_piece(0, 0, b"9876543210".to_vec()));
    assert!(!pf.has_piece(0));
    assert_eq!(pf.bit_array(), vec![false]);
}

#[test]
fn test_piece_store_rejects_out_of_range() {
    let data = b"0123456789";
    let info = single_file_info(10, &[data]);
    let mut pf = PartialFile::new(&info);
    // beyond the piece boundary
    assert!(!pf.add_piece(0, 8, vec![0, 0, 0]));
    // beyond the piece count
    assert!(!pf.add_piece(1, 0, vec![0]));
    // a complete piece refuses further writes
    assert!(pf.add_piece(0, 0, data.to_vec()));
    assert!(pf.has_piece(0));
    assert!(!pf.add_piece(0, 0, vec![1]));
}

#[test]
fn test_piece_store_tail_piece_length() {
    // two pieces of four bytes and a tail of two
    let info = single_file_info(4, &[b"abcd", b"efgh", b"ij"]);
    let mut pf = PartialFile::new(&info);
    assert_eq!(pf.piece_count(), 3);
    assert_eq!(pf.piece_length(), 4);
    // a write past the tail bound is rejected
    assert!(!pf.add_piece(2, 0, b"ijk".to_vec()));
    assert!(pf.add_piece(2, 0, b"ij".to_vec()));
    assert!(pf.has_piece(2));
    assert_eq!(pf.bit_array(), vec![false, false, true]);
}

#[test]
fn test_piece_store_read_only_when_complete() {
    let data = b"0123456789";
    let info = single_file_info(10, &[data]);
    let mut pf = PartialFile::new(&info);
    assert!(pf.read(0, 0, 4).is_none());
    assert!(pf.add_piece(0, 0, data.to_vec()));
    assert_eq!(pf.read(0, 2, 4).unwrap(), b"2345".to_vec());
    assert!(pf.read(0, 8, 4).is_none());
}

#[test]
fn test_piece_get_offset() {
    let data = b"abcdef";
    let mut piece = Piece::new(6, Sha1::digest(data).to_vec());
    assert!(piece.add(0, data));
    assert!(piece.is_complete());
    assert_eq!(piece.get_offset(1, 3).unwrap(), b"bcd");
    assert!(piece.get_offset(4, 3).is_none());
}

#[test]
fn test_peer_file_tracks_claims() {
    let mut pf = PeerFile::new(5);
    assert_eq!(pf.length(), 5);
    assert!(!pf.has_piece(3));
    pf.set(3, true);
    assert!(pf.has_piece(3));
    // out of range: ignored and read back as absent
    pf.set(9, true);
    assert!(!pf.has_piece(9));
}
