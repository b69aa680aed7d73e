//! The policy: what each protocol event makes us send, which pieces we ask
//! for, and the incentive score each peer accumulates.

use vstd::prelude::*;

use crate::bits::{bits_of, bitvec_and, bitvec_from_elem, bitvec_get, bitvec_negate, bitvec_set};
use crate::file::{partial_file_wf, spec_has_piece, PartialFile, PeerFile};
use crate::metainfo::{file_info_wf, spec_total_length, MetaInfo};
use crate::wire::msg::{msg_bytes, PeerMsg, PeerMsgView, MAX_BLOCK_LEN};
use crate::wire::peer_info::{chunk_pieces, chunk_requests, msgs_bytes, PeerState};

verus! {

pub const HAVE_SCORE: u64 = 1;

pub const BITFIELD_SCORE: u64 = 10;

pub const REQUEST_SCORE: u64 = 1;

pub const PIECE_SCORE: u64 = 5;

/// At most this many pieces may be outstanding toward one peer.
pub const MAX_PIECES_PEER: usize = 10;

/// At most this many bytes may be outstanding toward one peer.
pub const MAX_BYTES_PER_REQUEST: u64 = 524288;

/// The policy state: the local piece store and which pieces have already
/// been requested from someone.
pub struct BitTorrentProtocol {
    pub num_pieces: usize,
    pub piece_length: u64,
    pub partial_file: PartialFile,
    pub requested: bit_vec::BitVec,
}

pub open spec fn strategy_wf(s: BitTorrentProtocol) -> bool {
    &&& partial_file_wf(s.partial_file)
    &&& s.partial_file.piece_count == s.num_pieces
    &&& s.partial_file.piece_length == s.piece_length
    &&& bits_of(&s.requested).len() == s.num_pieces
    &&& s.num_pieces <= u32::MAX
    &&& s.piece_length <= u32::MAX
}

/// The local completion bits, one per piece.
pub open spec fn local_bits(s: BitTorrentProtocol) -> Seq<bool> {
    Seq::new(s.num_pieces as nat, |i: int| spec_has_piece(s.partial_file, i))
}

/// Whether a `Have` for this piece makes us ask for it at once: the peer
/// is not choking us and the piece is in range, still missing, and not yet
/// requested from anyone.
pub open spec fn have_triggers_request(
    s: BitTorrentProtocol,
    peer: PeerState,
    piece_index: int,
) -> bool {
    &&& 0 <= piece_index < s.num_pieces
    &&& !bits_of(&s.requested)[piece_index]
    &&& !peer.peer_choking
    &&& !spec_has_piece(s.partial_file, piece_index)
}

/// Whether a `Request` is served: we are not choking the peer, the length
/// respects the block cap, and the verified store holds the range.
pub open spec fn request_served(
    s: BitTorrentProtocol,
    peer: PeerState,
    index: u32,
    begin: u32,
    length: u32,
) -> bool {
    &&& !peer.am_choking
    &&& length <= MAX_BLOCK_LEN
    &&& index < s.num_pieces
    &&& begin + length <= s.partial_file.collection.pieces@[index as int].data@.len()
    &&& spec_has_piece(s.partial_file, index as int)
}

/// Whether an arriving block is written into the store: the piece is in
/// range, the range fits its declared length, and it is not complete yet.
pub open spec fn piece_accepted(s: BitTorrentProtocol, index: u32, begin: u32, block: Seq<u8>) ->
    bool {
    &&& index < s.num_pieces
    &&& begin + block.len() <= s.partial_file.collection.pieces@[index as int].length
    &&& !spec_has_piece(s.partial_file, index as int)
}

/// A score bumped by `delta`, stopping at the top instead of wrapping.
pub open spec fn bumped(score: u64, delta: u64) -> u64 {
    if score + delta <= u64::MAX {
        (score + delta) as u64
    } else {
        u64::MAX
    }
}

impl BitTorrentProtocol {
    pub fn new(metainfo: &MetaInfo) -> (r: BitTorrentProtocol)
        requires
            file_info_wf(metainfo.info),
            spec_total_length(metainfo.info.mode_info) <= u64::MAX,
        ensures
            strategy_wf(r),
            r.num_pieces == metainfo.info.pieces@.len(),
            r.piece_length == metainfo.info.piece_length,
            forall|i: int| 0 <= i < r.num_pieces ==> !bits_of(&r.requested)[i],
            forall|i: int|
                0 <= i < r.num_pieces ==> (#[trigger] r.partial_file.collection.pieces@[i]).hash@
                    == metainfo.info.pieces@[i]@
                    && r.partial_file.collection.pieces@[i].data@.len() == 0
                    && r.partial_file.collection.pieces@[i].length
                    == crate::metainfo::spec_piece_len(metainfo.info, i),
            forall|i: int| 0 <= i < r.num_pieces ==> !spec_has_piece(#[trigger] r.partial_file, i),
    {
        let num_pieces = metainfo.info.pieces.len();
        let partial_file = PartialFile::new(&metainfo.info);
        BitTorrentProtocol {
            num_pieces,
            piece_length: metainfo.info.piece_length,
            partial_file,
            requested: bitvec_from_elem(num_pieces, false),
        }
    }

    /// The block a peer asked for, if the piece is verified and the range
    /// fits.
    pub fn piece_for_request(&self, index: usize, begin: usize, length: usize) -> (r: Option<
        Vec<u8>,
    >)
        requires
            strategy_wf(*self),
        ensures
            ({
                let pieces = self.partial_file.collection.pieces@;
                &&& (r is Some) == (index < self.num_pieces && begin + length
                    <= pieces[index as int].data@.len() && spec_has_piece(
                    self.partial_file,
                    index as int,
                ))
                &&& r matches Some(v) ==> v@ == pieces[index as int].data@.subrange(
                    begin as int,
                    begin + length,
                )
            }),
    {
        if index >= self.partial_file.piece_count() {
            return None;
        }
        self.partial_file.read(index, begin, length)
    }

    /// The pieces this peer claims and we still lack.
    pub fn missing_pieces(&self, peer_file: &PeerFile) -> (r: bit_vec::BitVec)
        requires
            strategy_wf(*self),
            bits_of(&peer_file.pieces).len() == self.num_pieces,
        ensures
            bits_of(&r).len() == self.num_pieces,
            forall|i: int|
                0 <= i < self.num_pieces ==> bits_of(&r)[i] == (!spec_has_piece(
                    self.partial_file,
                    i,
                ) && bits_of(&peer_file.pieces)[i]),
    {
        let mut missing = self.partial_file.bitfield();
        bitvec_negate(&mut missing);
        bitvec_and(&mut missing, &peer_file.pieces);
        missing
    }

    /// A matching handshake makes the peer ready and greets it with our
    /// unchoke, interest, and bitfield; a wrong info hash ends the
    /// connection.
    pub fn on_handshake(
        &self,
        peer: &mut PeerState,
        local_hash: &[u8],
        their_hash: &[u8],
    )
        requires
            strategy_wf(*self),
        ensures
            their_hash@ == local_hash@ ==> *final(peer) == (PeerState {
                has_handshake: true,
                am_choking: false,
                am_interested: true,
                buffer: final(peer).buffer,
                ..*old(peer)
            }),
            their_hash@ == local_hash@ ==> final(peer).buffer.bytes_out@ == old(peer).buffer.bytes_out@ + msg_bytes(PeerMsgView::Unchoke) + msg_bytes(
                PeerMsgView::Interested,
            ) + msg_bytes(PeerMsgView::Bitfield(local_bits(*self))),
            their_hash@ != local_hash@ ==> *final(peer) == (PeerState {
                disconnected: true,
                ..*old(peer)
            }),
            final(peer).buffer.bytes_in@ == old(peer).buffer.bytes_in@,
    {
        if crate::bencode::decode::byte_seq_cmp(their_hash, local_hash) == 0 {
            peer.has_handshake = true;
            peer.choke(false);
            peer.interested(true);
            let bits = self.partial_file.bitfield();
            proof {
                assert(bits_of(&bits) =~= local_bits(*self));
            }
            peer.write_message_out(PeerMsg::Bitfield(bits));
        } else {
            peer.disconnect();
        }
    }

    /// A `Have` scores the peer, and when the peer is not choking us and
    /// we lack the announced piece and have not requested it yet, asks for
    /// it at once.
    pub fn on_have(&mut self, peer: &mut PeerState, piece_index: usize)
        requires
            strategy_wf(*old(self)),
        ensures
            strategy_wf(*final(self)),
            *final(peer) == (PeerState {
                score: bumped(old(peer).score, HAVE_SCORE),
                buffer: final(peer).buffer,
                ..*old(peer)
            }),
            final(peer).buffer.bytes_in@ == old(peer).buffer.bytes_in@,
            final(self).partial_file == old(self).partial_file,
            final(self).num_pieces == old(self).num_pieces,
            final(self).piece_length == old(self).piece_length,
            have_triggers_request(*old(self), *old(peer), piece_index as int) ==> {
                &&& final(peer).buffer.bytes_out@ == old(peer).buffer.bytes_out@ + msgs_bytes(
                    chunk_requests(piece_index as u32, 0, old(self).piece_length as u32),
                )
                &&& bits_of(&final(self).requested) == bits_of(&old(self).requested).update(
                    piece_index as int,
                    true,
                )
            },
            !have_triggers_request(*old(self), *old(peer), piece_index as int) ==> {
                &&& final(peer).buffer.bytes_out@ == old(peer).buffer.bytes_out@
                &&& final(self).requested == old(self).requested
            },
    {
        peer.score = bump(peer.score, HAVE_SCORE);
        if piece_index < self.num_pieces {
            let already = match bitvec_get(&self.requested, piece_index) {
                Some(b) => b,
                None => true,
            };
            if !peer.peer_choking && !already && !self.partial_file.has_piece(piece_index) {
                peer.request_piece(piece_index as u32, self.piece_length as u32);
                bitvec_set(&mut self.requested, piece_index, true);
            }
        }
    }

    /// A `Bitfield` scores the peer (the bits themselves were applied as
    /// the message was framed).
    pub fn on_bitfield(&self, peer: &mut PeerState)
        ensures
            *final(peer) == (PeerState { score: bumped(old(peer).score, BITFIELD_SCORE), ..*old(peer) }),
    {
        peer.score = bump(peer.score, BITFIELD_SCORE);
    }

    /// Serves a `Request` when we are not choking the peer, the length is
    /// within the block cap and the piece is verified; a served request
    /// scores the peer.
    pub fn on_request(&self, peer: &mut PeerState, index: u32, begin: u32, length: u32)
        requires
            strategy_wf(*self),
        ensures
            request_served(*self, *old(peer), index, begin, length) ==> {
                &&& *final(peer) == (PeerState {
                    score: bumped(old(peer).score, REQUEST_SCORE),
                    buffer: final(peer).buffer,
                    ..*old(peer)
                })
                &&& final(peer).buffer.bytes_out@ == old(peer).buffer.bytes_out@ + msgs_bytes(
                    chunk_pieces(
                        index,
                        begin,
                        self.partial_file.collection.pieces@[index as int].data@.subrange(
                            begin as int,
                            begin + length,
                        ),
                    ),
                )
                &&& final(peer).buffer.bytes_in@ == old(peer).buffer.bytes_in@
            },
            !request_served(*self, *old(peer), index, begin, length) ==> *final(peer) == *old(peer),
    {
        if peer.am_choking || length > MAX_BLOCK_LEN {
            return ;
        }
        match self.piece_for_request(index as usize, begin as usize, length as usize) {
            Some(data) => {
                peer.score = bump(peer.score, REQUEST_SCORE);
                peer.send_piece_data(index, begin, data);
            },
            None => {},
        }
    }

    /// Stores an arriving block and scores the peer; reports whether this
    /// block completed and verified its piece.
    pub fn on_piece(&mut self, peer: &mut PeerState, index: u32, begin: u32, block: Vec<u8>) -> (r:
        bool)
        requires
            strategy_wf(*old(self)),
        ensures
            strategy_wf(*final(self)),
            final(self).num_pieces == old(self).num_pieces,
            final(self).piece_length == old(self).piece_length,
            final(self).requested == old(self).requested,
            *final(peer) == (PeerState {
                score: bumped(old(peer).score, PIECE_SCORE),
                buffer: final(peer).buffer,
                ..*old(peer)
            }),
            final(peer).buffer.bytes_in@ == old(peer).buffer.bytes_in@,
            final(peer).buffer.bytes_out@ == old(peer).buffer.bytes_out@,
            final(self).partial_file.piece_count == old(self).partial_file.piece_count,
            final(self).partial_file.piece_length == old(self).partial_file.piece_length,
            final(self).partial_file.collection.pieces@.len() == old(self).partial_file.collection.pieces@.len(),
            forall|i: int|
                0 <= i < old(self).partial_file.collection.pieces@.len() && i != index ==> final(self).partial_file.collection.pieces@[i] == old(self).partial_file.collection.pieces@[
                    i],
            index < old(self).num_pieces ==> {
                let p_old = old(self).partial_file.collection.pieces@[index as int];
                let p_new = final(self).partial_file.collection.pieces@[index as int];
                &&& p_new.length == p_old.length
                &&& p_new.hash@ == p_old.hash@
                &&& p_new.data@ == (if piece_accepted(*old(self), index, begin, block@) {
                    crate::file::write_at(p_old.data@, begin as int, block@)
                } else {
                    p_old.data@
                })
            },
            index >= old(self).num_pieces ==> final(self).partial_file == old(self).partial_file,
            r == (index < old(self).num_pieces && !spec_has_piece(
                old(self).partial_file,
                index as int,
            ) && spec_has_piece(final(self).partial_file, index as int)),
    {
        peer.score = bump(peer.score, PIECE_SCORE);
        if index as usize >= self.partial_file.piece_count() {
            return false;
        }
        let had = self.partial_file.has_piece(index as usize);
        self.partial_file.add_piece(index as usize, begin as usize, block);
        let has_now = self.partial_file.has_piece(index as usize);
        !had && has_now
    }
}

/// Adds without wrapping: the score stops at the top.
fn bump(score: u64, delta: u64) -> (r: u64)
    ensures
        r == bumped(score, delta),
{
    if score <= u64::MAX - delta {
        score + delta
    } else {
        u64::MAX
    }
}

} // verus!
