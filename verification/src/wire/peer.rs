//! The peer server: it owns the peer table and the policy, greets new
//! connections, dispatches every inbound message, and sweeps peers that
//! fell silent.

use vstd::prelude::*;

use crate::bits::bits_of;
use crate::metainfo::{file_info_wf, spec_total_length, MetaInfo, SHA1Hash20b};
use crate::wire::action::PeerId;
use crate::wire::msg::{lemma_protocol_id, msg_bytes, PeerMsg, PeerMsgView};
use crate::wire::peer_info::{chunk_requests, msgs_bytes, PeerState, KEEPALIVE_MS, TIMEOUT_MS};
use crate::wire::strategy::{strategy_wf, BitTorrentProtocol};

verus! {

/// Counters the tracker dialogue reports.
#[derive(Debug, Clone, Copy)]
pub struct Stats {
    pub uploaded: usize,
    pub downloaded: usize,
    pub peer_count: usize,
}

impl Stats {
    pub fn new() -> (r: Stats)
        ensures
            r.uploaded == 0 && r.downloaded == 0 && r.peer_count == 0,
    {
        Stats { uploaded: 0, downloaded: 0, peer_count: 0 }
    }
}

/// Whether a peer stays in the table at time `now`: it has not hung up and
/// has sent something within the timeout.
pub open spec fn peer_keep(p: PeerState, now: u64) -> bool {
    !p.disconnected && now <= p.last_msg_time + TIMEOUT_MS
}

/// The peers that stay, in order.
pub open spec fn retained(s: Seq<PeerState>, now: u64) -> Seq<PeerState>
    decreases s.len(),
{
    if s.len() == 0 {
        Seq::empty()
    } else if peer_keep(s.last(), now) {
        retained(s.drop_last(), now).push(s.last())
    } else {
        retained(s.drop_last(), now)
    }
}

/// The ids of the peers that go, in order.
pub open spec fn dropped_ids(s: Seq<PeerState>, now: u64) -> Seq<PeerId>
    decreases s.len(),
{
    if s.len() == 0 {
        Seq::empty()
    } else if peer_keep(s.last(), now) {
        dropped_ids(s.drop_last(), now)
    } else {
        dropped_ids(s.drop_last(), now).push(s.last().peer_id)
    }
}

/// A sweep removes a silent peer exactly once: sweeping again at the same
/// time removes nothing further.
pub proof fn lemma_timeout_removed_once(s: Seq<PeerState>, now: u64)
    ensures
        retained(retained(s, now), now) == retained(s, now),
        dropped_ids(retained(s, now), now) == Seq::<PeerId>::empty(),
    decreases s.len(),
{
    if s.len() == 0 {
    } else {
        lemma_timeout_removed_once(s.drop_last(), now);
        if peer_keep(s.last(), now) {
            let r = retained(s, now);
            assert(r == retained(s.drop_last(), now).push(s.last()));
            assert(r.len() > 0);
            assert(r.drop_last() =~= retained(s.drop_last(), now));
            assert(r.last() == s.last());
        }
    }
}

/// The server: the torrent's identity, the policy, and the peer table.
pub struct PeerServer {
    pub hash: SHA1Hash20b,
    pub our_peer_id: String,
    pub strategy: BitTorrentProtocol,
    pub peers: Vec<PeerState>,
    pub next_peer_id: PeerId,
}

pub open spec fn server_wf(s: PeerServer) -> bool {
    &&& strategy_wf(s.strategy)
    &&& s.hash@.len() == 20
    &&& forall|i: int|
        0 <= i < s.peers@.len() ==> bits_of(&(#[trigger] s.peers@[i]).file.pieces).len()
            == s.strategy.num_pieces
    &&& forall|i: int| 0 <= i < s.peers@.len() ==> (#[trigger] s.peers@[i]).peer_id < s.next_peer_id
    &&& forall|i: int, j: int|
        0 <= i < j < s.peers@.len() ==> (#[trigger] s.peers@[i]).peer_id != (
        #[trigger] s.peers@[j]).peer_id
}

impl PeerServer {
    pub fn new(metainfo: &MetaInfo, hash: SHA1Hash20b, our_peer_id: &str) -> (r: PeerServer)
        requires
            file_info_wf(metainfo.info),
            spec_total_length(metainfo.info.mode_info) <= u64::MAX,
            hash@.len() == 20,
        ensures
            server_wf(r),
            r.peers@.len() == 0,
            r.hash@ == hash@,
            r.strategy.num_pieces == metainfo.info.pieces@.len(),
    {
        PeerServer {
            hash,
            our_peer_id: our_peer_id.to_owned(),
            strategy: BitTorrentProtocol::new(metainfo),
            peers: Vec::new(),
            next_peer_id: 1,
        }
    }

    /// Admits a new connection: a fresh peer record with our handshake
    /// already queued on its outbound buffer.
    pub fn add_peer(&mut self, now: u64) -> (r: PeerId)
        requires
            server_wf(*old(self)),
            old(self).next_peer_id < PeerId::MAX,
        ensures
            server_wf(*final(self)),
            final(self).peers@.len() == old(self).peers@.len() + 1,
            ({
                let p = final(self).peers@.last();
                &&& p.peer_id == r
                &&& !p.has_handshake
                &&& !p.disconnected
                &&& p.peer_choking && p.am_choking
                &&& !p.peer_interested && !p.am_interested
                &&& p.last_msg_time == now && p.last_msg_sent_time == now
                &&& p.score == 0
                &&& p.buffer.bytes_in@.len() == 0
                &&& p.buffer.bytes_out@ == msg_bytes(
                    PeerMsgView::HandShake(
                        crate::wire::msg::pstr(),
                        old(self).hash@,
                        crate::wire::msg::resize20(
                            vstd::utf8::encode_utf8(old(self).our_peer_id@),
                        ),
                    ),
                )
            }),
            forall|i: int|
                0 <= i < old(self).peers@.len() ==> final(self).peers@[i] == old(self).peers@[i],
            r == old(self).next_peer_id,
            final(self).next_peer_id == old(self).next_peer_id + 1,
            final(self).strategy == old(self).strategy,
    {
        let id = self.next_peer_id;
        self.next_peer_id += 1;
        let num_pieces = self.strategy.num_pieces;
        let piece_size = self.strategy.piece_length as usize;
        let mut peer = PeerState::new(num_pieces, piece_size, id, now);
        let proto: String = "BitTorrent protocol".to_owned();
        proof {
            lemma_protocol_id();
        }
        let shake = PeerMsg::handshake(proto, clone_string(&self.our_peer_id), &self.hash);
        peer.write_message_out(shake);
        proof {
            assert(Seq::<u8>::empty() + msg_bytes(shake@) =~= msg_bytes(shake@));
        }
        self.peers.push(peer);
        proof {
            assert forall|i: int|
                0 <= i < self.peers@.len() implies bits_of(
                &(#[trigger] self.peers@[i]).file.pieces,
            ).len() == self.strategy.num_pieces by {
                if i < old(self).peers@.len() {
                    assert(self.peers@[i] == old(self).peers@[i]);
                }
            }
        }
        id
    }

    /// The position of the peer with this id, if it is still in the table.
    pub fn find_peer(&self, id: PeerId) -> (r: Option<usize>)
        ensures
            r matches Some(i) ==> i < self.peers@.len() && self.peers@[i as int].peer_id == id,
            r is None ==> forall|i: int|
                0 <= i < self.peers@.len() ==> (#[trigger] self.peers@[i]).peer_id != id,
    {
        let mut i: usize = 0;
        while i < self.peers.len()
            invariant
                i <= self.peers@.len(),
                forall|j: int| 0 <= j < i ==> (#[trigger] self.peers@[j]).peer_id != id,
            decreases self.peers@.len() - i,
        {
            if self.peers[i].peer_id == id {
                return Some(i);
            }
            i += 1;
        }
        None
    }

    /// Dispatches one already-framed message from peer `idx`: the
    /// handshake gate first, then the policy.  Reports whether a piece was
    /// completed by this message.
    #[verifier::rlimit(100)]
    #[verifier::spinoff_prover]
    pub fn on_message_receive(&mut self, idx: usize, msg: PeerMsg, now: u64) -> (completed: Option<
        u32,
    >)
        requires
            server_wf(*old(self)),
            idx < old(self).peers@.len(),
        ensures
            server_wf(*final(self)),
            final(self).peers@.len() == old(self).peers@.len(),
            final(self).strategy.num_pieces == old(self).strategy.num_pieces,
            final(self).strategy.piece_length == old(self).strategy.piece_length,
            final(self).hash@ == old(self).hash@,
            completed is None ==> forall|i: int|
                0 <= i < old(self).peers@.len() && i != idx ==> final(self).peers@[i] == old(self).peers@[i],
            // a completed piece is announced to every handshaked peer
            completed matches Some(p) ==> forall|i: int|
                0 <= i < old(self).peers@.len() && i != idx ==> #[trigger] final(self).peers@[i]
                    == (if old(self).peers@[i].has_handshake {
                    PeerState { buffer: final(self).peers@[i].buffer, ..old(self).peers@[i] }
                } else {
                    old(self).peers@[i]
                }) && (old(self).peers@[i].has_handshake ==> final(self).peers@[i].buffer.bytes_out@ == old(self).peers@[i].buffer.bytes_out@
                    + msg_bytes(PeerMsgView::Have(p)) && final(self).peers@[i].buffer.bytes_in@
                    == old(self).peers@[i].buffer.bytes_in@),
            final(self).peers@[idx as int].last_msg_time == now,
            ({
                let p0 = old(self).peers@[idx as int];
                let p1 = final(self).peers@[idx as int];
                let s0 = old(self).strategy;
                let s1 = final(self).strategy;
                if !p0.has_handshake {
                    // the handshake gate: latch exactly on a matching hash,
                    // drop the connection on anything else
                    &&& s1 == s0
                    &&& completed is None
                    &&& (match msg {
                        PeerMsg::HandShake(_, th, _) => if th@ == old(self).hash@ {
                            p1 == (PeerState {
                                has_handshake: true,
                                am_choking: false,
                                am_interested: true,
                                last_msg_time: now,
                                buffer: p1.buffer,
                                ..p0
                            }) && p1.buffer.bytes_out@ == p0.buffer.bytes_out@ + msg_bytes(
                                PeerMsgView::Unchoke,
                            ) + msg_bytes(PeerMsgView::Interested) + msg_bytes(
                                PeerMsgView::Bitfield(crate::wire::strategy::local_bits(s0)),
                            ) && p1.buffer.bytes_in@ == p0.buffer.bytes_in@
                        } else {
                            p1 == (PeerState { disconnected: true, last_msg_time: now, ..p0 })
                        },
                        _ => p1 == (PeerState { disconnected: true, last_msg_time: now, ..p0 }),
                    })
                } else {
                    match msg {
                        PeerMsg::Have(pi) => {
                            &&& p1 == (PeerState {
                                score: crate::wire::strategy::bumped(
                                    p0.score,
                                    crate::wire::strategy::HAVE_SCORE,
                                ),
                                last_msg_time: now,
                                buffer: p1.buffer,
                                ..p0
                            })
                            &&& p1.buffer.bytes_in@ == p0.buffer.bytes_in@
                            &&& s1.partial_file == s0.partial_file
                            &&& (if crate::wire::strategy::have_triggers_request(
                                s0,
                                p0,
                                pi as int,
                            ) {
                                p1.buffer.bytes_out@ == p0.buffer.bytes_out@
                                    + crate::wire::peer_info::msgs_bytes(
                                    crate::wire::peer_info::chunk_requests(
                                        pi,
                                        0,
                                        s0.piece_length as u32,
                                    ),
                                ) && bits_of(&s1.requested) == bits_of(&s0.requested).update(
                                    pi as int,
                                    true,
                                )
                            } else {
                                p1.buffer.bytes_out@ == p0.buffer.bytes_out@ && s1.requested
                                    == s0.requested
                            })
                            &&& completed is None
                        },
                        PeerMsg::Bitfield(_) => p1 == (PeerState {
                            score: crate::wire::strategy::bumped(
                                p0.score,
                                crate::wire::strategy::BITFIELD_SCORE,
                            ),
                            last_msg_time: now,
                            ..p0
                        }) && s1 == s0 && completed is None,
                        PeerMsg::Request(index, begin, length) => {
                            &&& s1 == s0
                            &&& completed is None
                            &&& (if crate::wire::strategy::request_served(
                                s0,
                                p0,
                                index,
                                begin,
                                length,
                            ) {
                                p1 == (PeerState {
                                    score: crate::wire::strategy::bumped(
                                        p0.score,
                                        crate::wire::strategy::REQUEST_SCORE,
                                    ),
                                    last_msg_time: now,
                                    buffer: p1.buffer,
                                    ..p0
                                }) && p1.buffer.bytes_out@ == p0.buffer.bytes_out@
                                    + crate::wire::peer_info::msgs_bytes(
                                    crate::wire::peer_info::chunk_pieces(
                                        index,
                                        begin,
                                        s0.partial_file.collection.pieces@[index as int].data@
                                            .subrange(begin as int, begin + length),
                                    ),
                                ) && p1.buffer.bytes_in@ == p0.buffer.bytes_in@
                            } else {
                                p1 == (PeerState { last_msg_time: now, ..p0 })
                            })
                        },
                        PeerMsg::Piece(index, begin, block) => {
                            &&& p1 == (PeerState {
                                score: crate::wire::strategy::bumped(
                                    p0.score,
                                    crate::wire::strategy::PIECE_SCORE,
                                ),
                                last_msg_time: now,
                                buffer: p1.buffer,
                                ..p0
                            })
                            &&& p1.buffer.bytes_in@ == p0.buffer.bytes_in@
                            &&& (completed is Some ==> p1.buffer.bytes_out@
                                == p0.buffer.bytes_out@ + msg_bytes(PeerMsgView::Have(index)))
                            &&& (completed is None ==> p1.buffer.bytes_out@
                                == p0.buffer.bytes_out@)
                            &&& s1.requested == s0.requested
                            &&& s1.partial_file.collection.pieces@.len()
                                == s0.partial_file.collection.pieces@.len()
                            &&& (forall|i: int|
                                0 <= i < s0.partial_file.collection.pieces@.len() && i != index
                                    ==> s1.partial_file.collection.pieces@[i]
                                    == s0.partial_file.collection.pieces@[i])
                            &&& (index < s0.num_pieces ==> {
                                let piece_old = s0.partial_file.collection.pieces@[index as int];
                                let piece_new = s1.partial_file.collection.pieces@[index as int];
                                &&& piece_new.length == piece_old.length
                                &&& piece_new.hash@ == piece_old.hash@
                                &&& piece_new.data@ == (
                                if crate::wire::strategy::piece_accepted(s0, index, begin, block@) {
                                    crate::file::write_at(piece_old.data@, begin as int, block@)
                                } else {
                                    piece_old.data@
                                })
                            })
                            &&& (index >= s0.num_pieces ==> s1.partial_file == s0.partial_file)
                            &&& completed == (
                            if index < s0.num_pieces && !crate::file::spec_has_piece(
                                s0.partial_file,
                                index as int,
                            ) && crate::file::spec_has_piece(s1.partial_file, index as int) {
                                Some(index)
                            } else {
                                None
                            })
                        },
                        _ => p1 == (PeerState { last_msg_time: now, ..p0 }) && s1 == s0
                            && completed is None,
                    }
                }
            }),
            completed matches Some(p) ==> p < old(self).strategy.num_pieces
                && crate::file::spec_has_piece(final(self).strategy.partial_file, p as int),
    {
        let ghost old_peers = self.peers@;
        let peer = &mut self.peers[idx];
        peer.last_msg_time = now;
        let mut completed: Option<u32> = None;
        if !peer.has_handshake {
            match msg {
                PeerMsg::HandShake(_, their_hash, _) => {
                    self.strategy.on_handshake(peer, self.hash.as_slice(), their_hash.as_slice());
                },
                _ => {
                    peer.disconnect();
                },
            }
        } else {
            match msg {
                PeerMsg::HandShake(..) => {},
                PeerMsg::KeepAlive => {},
                PeerMsg::Choke => {},
                PeerMsg::Unchoke => {},
                PeerMsg::Interested => {},
                PeerMsg::NotInterested => {},
                PeerMsg::Have(pi) => {
                    self.strategy.on_have(peer, pi as usize);
                },
                PeerMsg::Bitfield(_) => {
                    self.strategy.on_bitfield(peer);
                },
                PeerMsg::Request(index, begin, length) => {
                    self.strategy.on_request(peer, index, begin, length);
                },
                PeerMsg::Piece(index, begin, block) => {
                    let done = self.strategy.on_piece(peer, index, begin, block);
                    if done {
                        completed = Some(index);
                    }
                },
                PeerMsg::Cancel(..) => {},
                PeerMsg::Port(_) => {},
            }
        }
        proof {
            assert forall|i: int|
                0 <= i < self.peers@.len() implies bits_of(
                &(#[trigger] self.peers@[i]).file.pieces,
            ).len() == self.strategy.num_pieces by {
                if i != idx {
                    assert(self.peers@[i] == old_peers[i]);
                }
            }
        }
        match completed {
            Some(piece) => {
                let ghost mid = self.peers@;
                proof {
                    assert(mid.len() == old_peers.len());
                    assert forall|i: int|
                        0 <= i < old_peers.len() && i != idx implies mid[i] == #[trigger]
                        old_peers[i] by {}
                    assert(mid[idx as int].has_handshake);
                }
                self.broadcast_have(piece);
                proof {
                    assert(self.peers@.len() == mid.len());
                    assert(self.peers@[idx as int].buffer.bytes_out@ == mid[
                        idx as int].buffer.bytes_out@ + msg_bytes(PeerMsgView::Have(piece)));
                    assert forall|i: int|
                        0 <= i < old_peers.len() && i != idx implies #[trigger] self.peers@[i]
                        == (if old_peers[i].has_handshake {
                        PeerState { buffer: self.peers@[i].buffer, ..old_peers[i] }
                    } else {
                        old_peers[i]
                    }) && (old_peers[i].has_handshake ==> self.peers@[i].buffer.bytes_out@
                        == old_peers[i].buffer.bytes_out@ + msg_bytes(PeerMsgView::Have(piece))
                        && self.peers@[i].buffer.bytes_in@
                        == old_peers[i].buffer.bytes_in@) by {
                        assert(mid[i] == old_peers[i]);
                        assert(self.peers@[i] == (if mid[i].has_handshake {
                            PeerState { buffer: self.peers@[i].buffer, ..mid[i] }
                        } else {
                            mid[i]
                        }));
                        if mid[i].has_handshake {
                            assert(self.peers@[i].buffer.bytes_out@ == mid[i].buffer.bytes_out@
                                + msg_bytes(PeerMsgView::Have(piece)));
                            assert(self.peers@[i].buffer.bytes_in@ == mid[i].buffer.bytes_in@);
                        }
                    }
                }
            },
            None => {},
        }
        completed
    }

    /// Announces a completed piece to every peer that finished the
    /// handshake.
    pub fn broadcast_have(&mut self, piece: u32)
        requires
            server_wf(*old(self)),
        ensures
            server_wf(*final(self)),
            *final(self) == (PeerServer { peers: final(self).peers, ..*old(self) }),
            final(self).peers@.len() == old(self).peers@.len(),
            final(self).strategy == old(self).strategy,
            forall|i: int|
                0 <= i < old(self).peers@.len() ==> {
                    let p = old(self).peers@[i];
                    #[trigger] final(self).peers@[i] == if p.has_handshake {
                        PeerState {
                            buffer: final(self).peers@[i].buffer,
                            ..p
                        }
                    } else {
                        p
                    }
                },
            forall|i: int|
                0 <= i < old(self).peers@.len() && old(self).peers@[i].has_handshake ==> (
                #[trigger] final(self).peers@[i]).buffer.bytes_out@ == old(self).peers@[i].buffer.bytes_out@ + crate::wire::msg::msg_bytes(
                    PeerMsgView::Have(piece),
                ) && final(self).peers@[i].buffer.bytes_in@ == old(self).peers@[i].buffer.bytes_in@,
    {
        let ghost old_peers = self.peers@;
        let mut i: usize = 0;
        #[verifier::loop_isolation(false)]
        while i < self.peers.len()
            invariant
                i <= self.peers@.len(),
                self.peers@.len() == old_peers.len(),
                *self == (PeerServer { peers: self.peers, ..*old(self) }),
                forall|j: int| i <= j < old_peers.len() ==> self.peers@[j] == old_peers[j],
                forall|j: int|
                    0 <= j < i ==> {
                        let p = old_peers[j];
                        #[trigger] self.peers@[j] == if p.has_handshake {
                            PeerState { buffer: self.peers@[j].buffer, ..p }
                        } else {
                            p
                        }
                    },
                forall|j: int|
                    0 <= j < i && old_peers[j].has_handshake ==> (
                    #[trigger] self.peers@[j]).buffer.bytes_out@
                        == old_peers[j].buffer.bytes_out@ + crate::wire::msg::msg_bytes(
                        PeerMsgView::Have(piece),
                    ) && self.peers@[j].buffer.bytes_in@ == old_peers[j].buffer.bytes_in@,
            decreases self.peers@.len() - i,
        {
            let peer = &mut self.peers[i];
            if peer.has_handshake {
                peer.send_have(piece);
            }
            i += 1;
        }
    }

    /// Sends a keep-alive to every peer the local side has been silent
    /// toward for longer than the keep-alive period.
    #[verifier::rlimit(100)]
    #[verifier::spinoff_prover]
    pub fn send_keepalives(&mut self, now: u64)
        requires
            server_wf(*old(self)),
        ensures
            server_wf(*final(self)),
            final(self).strategy == old(self).strategy,
            final(self).peers@.len() == old(self).peers@.len(),
            forall|i: int|
                0 <= i < old(self).peers@.len() ==> {
                    let p = old(self).peers@[i];
                    #[trigger] final(self).peers@[i] == if p.last_msg_sent_time + KEEPALIVE_MS
                        < now {
                        PeerState {
                            last_msg_sent_time: now,
                            buffer: final(self).peers@[i].buffer,
                            ..p
                        }
                    } else {
                        p
                    }
                },
            forall|i: int|
                0 <= i < old(self).peers@.len() && old(self).peers@[i].last_msg_sent_time
                    + KEEPALIVE_MS < now ==> (#[trigger] final(self).peers@[i]).buffer.bytes_out@
                    == old(self).peers@[i].buffer.bytes_out@ + msg_bytes(PeerMsgView::KeepAlive)
                    && final(self).peers@[i].buffer.bytes_in@ == old(self).peers@[i].buffer.bytes_in@,
    {
        let ghost old_peers = self.peers@;
        let mut i: usize = 0;
        #[verifier::loop_isolation(false)]
        while i < self.peers.len()
            invariant
                i <= self.peers@.len(),
                self.peers@.len() == old_peers.len(),
                *self == (PeerServer { peers: self.peers, ..*old(self) }),
                forall|j: int| i <= j < old_peers.len() ==> self.peers@[j] == old_peers[j],
                forall|j: int|
                    0 <= j < i ==> {
                        let p = old_peers[j];
                        #[trigger] self.peers@[j] == if p.last_msg_sent_time + KEEPALIVE_MS
                            < now {
                            PeerState {
                                last_msg_sent_time: now,
                                buffer: self.peers@[j].buffer,
                                ..p
                            }
                        } else {
                            p
                        }
                    },
                forall|j: int|
                    0 <= j < i && old_peers[j].last_msg_sent_time + KEEPALIVE_MS < now ==> (
                    #[trigger] self.peers@[j]).buffer.bytes_out@
                        == old_peers[j].buffer.bytes_out@ + msg_bytes(PeerMsgView::KeepAlive)
                        && self.peers@[j].buffer.bytes_in@ == old_peers[j].buffer.bytes_in@,
            decreases self.peers@.len() - i,
        {
            let peer = &mut self.peers[i];
            if peer.last_msg_sent_time < now && now - peer.last_msg_sent_time > KEEPALIVE_MS {
                peer.write_message_out(PeerMsg::KeepAlive);
                peer.last_msg_sent_time = now;
            }
            i += 1;
        }
        proof {
            assert forall|i2: int|
                0 <= i2 < self.peers@.len() implies bits_of(
                &(#[trigger] self.peers@[i2]).file.pieces,
            ).len() == self.strategy.num_pieces by {
                assert(bits_of(&old_peers[i2].file.pieces).len() == self.strategy.num_pieces);
            }
        }
    }

    /// Sweeps the table: every peer that hung up or stayed silent past the
    /// timeout leaves, everyone else stays in order.  The sweep removes
    /// each such peer exactly once (`lemma_timeout_removed_once`).
    #[verifier::rlimit(100)]
    #[verifier::spinoff_prover]
    pub fn remove_old_peers(&mut self, now: u64) -> (removed: Vec<PeerId>)
        requires
            server_wf(*old(self)),
        ensures
            server_wf(*final(self)),
            final(self).strategy == old(self).strategy,
            final(self).peers@ == retained(old(self).peers@, now),
            removed@ == dropped_ids(old(self).peers@, now),
            forall|i: int|
                0 <= i < final(self).peers@.len() ==> peer_keep(
                    #[trigger] final(self).peers@[i],
                    now,
                ),
    {
        let ghost old_peers = self.peers@;
        let mut kept: Vec<PeerState> = Vec::new();
        let mut removed: Vec<PeerId> = Vec::new();
        let mut i: usize = 0;
        let total = self.peers.len();
        proof {
            assert(self.peers@ =~= old_peers.skip(0));
            assert(old_peers.take(0).len() == 0);
            assert(retained(old_peers.take(0), now) =~= Seq::<PeerState>::empty());
            assert(dropped_ids(old_peers.take(0), now) =~= Seq::<PeerId>::empty());
        }
        #[verifier::loop_isolation(false)]
        while i < total
            invariant
                i <= total == old_peers.len(),
                self.peers@ == old_peers.skip(i as int),
                *self == (PeerServer { peers: self.peers, ..*old(self) }),
                kept@ == retained(old_peers.take(i as int), now),
                removed@ == dropped_ids(old_peers.take(i as int), now),
                forall|j: int| 0 <= j < kept@.len() ==> peer_keep(#[trigger] kept@[j], now),
            decreases total - i,
        {
            let peer = self.peers.remove(0);
            proof {
                assert(old_peers.skip(i as int)[0] == old_peers[i as int]);
                assert(peer == old_peers[i as int]);
                assert(self.peers@ =~= old_peers.skip(i + 1));
            }
            let silent_for_too_long = peer.last_msg_time < now && now - peer.last_msg_time
                > TIMEOUT_MS;
            let ghost before_kept = kept@;
            let ghost before_removed = removed@;
            if peer.disconnected || silent_for_too_long {
                removed.push(peer.peer_id);
            } else {
                kept.push(peer);
            }
            i += 1;
            proof {
                assert(old_peers.take(i as int).drop_last() =~= old_peers.take(i - 1));
                assert(old_peers.take(i as int).last() == old_peers[i - 1]);
            }
        }
        proof {
            assert(old_peers.take(total as int) =~= old_peers);
        }
        self.peers = kept;
        proof {
            lemma_retained_keeps_shape(old_peers, now, self.strategy.num_pieces as int);
            lemma_retained_ids(old_peers, now, self.next_peer_id);
        }
        removed
    }
}

/// A peer a request may go to: it finished the handshake, is still
/// connected, and is not choking us.
pub open spec fn peer_eligible(p: PeerState) -> bool {
    p.has_handshake && !p.disconnected && !p.peer_choking
}

/// Whether some eligible peer claims piece `p`.
pub open spec fn claimed_by_eligible(peers: Seq<PeerState>, p: int) -> bool {
    exists|j: int|
        0 <= j < peers.len() && peer_eligible(#[trigger] peers[j]) && 0 <= p < bits_of(
            &peers[j].file.pieces,
        ).len() && bits_of(&peers[j].file.pieces)[p]
}

/// A piece the scheduler still wants: in range, not stored, not yet asked
/// of anyone.
pub open spec fn piece_wanted(s: BitTorrentProtocol, p: int) -> bool {
    &&& 0 <= p < s.num_pieces
    &&& !crate::file::spec_has_piece(s.partial_file, p)
    &&& !bits_of(&s.requested)[p]
}

/// Budgets that can never bind: even all pieces together fit one peer's
/// piece and byte allowances.
pub open spec fn budgets_cover(s: BitTorrentProtocol) -> bool {
    &&& s.num_pieces <= crate::wire::strategy::MAX_PIECES_PEER
    &&& s.num_pieces * s.piece_length <= crate::wire::strategy::MAX_BYTES_PER_REQUEST
}

/// How many peers claim piece `p`, eligible or not.
pub open spec fn claimant_count(peers: Seq<PeerState>, p: int) -> int
    decreases peers.len(),
{
    if peers.len() == 0 {
        0
    } else {
        claimant_count(peers.drop_last(), p) + (if 0 <= p < bits_of(
            &peers.last().file.pieces,
        ).len() && bits_of(&peers.last().file.pieces)[p] {
            1int
        } else {
            0int
        })
    }
}

/// `seg` appears contiguously somewhere in `hay`.
pub open spec fn contains_segment(hay: Seq<u8>, seg: Seq<u8>) -> bool {
    exists|off: int|
        0 <= off && off + seg.len() <= hay.len() && #[trigger] hay.subrange(off, off + seg.len())
            == seg
}

/// A contained segment stays contained when more is appended.
proof fn lemma_contains_extend(hay: Seq<u8>, seg: Seq<u8>, extra: Seq<u8>)
    requires
        contains_segment(hay, seg),
    ensures
        contains_segment(hay + extra, seg),
{
    let off = choose|off: int|
        0 <= off && off + seg.len() <= hay.len() && #[trigger] hay.subrange(off, off + seg.len())
            == seg;
    assert((hay + extra).subrange(off, off + seg.len()) =~= hay.subrange(off, off + seg.len()));
}

/// What was just appended is contained.
proof fn lemma_contains_append(hay: Seq<u8>, seg: Seq<u8>)
    ensures
        contains_segment(hay + seg, seg),
{
    let off = hay.len() as int;
    assert((hay + seg).subrange(off, off + seg.len()) =~= seg);
}

/// Every peer's buffer grew by exactly the request chunks of pieces newly
/// marked between the two states, each claimed by a willing peer.
pub open spec fn request_log_ok(pre: PeerServer, post: PeerServer) -> bool {
    forall|j: int|
        0 <= j < pre.peers@.len() ==> exists|ps: Seq<u32>|
            #![trigger requests_concat(ps, pre.strategy.piece_length as u32)]
            (#[trigger] post.peers@[j]).buffer.bytes_out@ == pre.peers@[j].buffer.bytes_out@
                + requests_concat(ps, pre.strategy.piece_length as u32) && (forall|k: int|
                0 <= k < ps.len() ==> bits_of(&post.strategy.requested)[(#[trigger] ps[k]) as int]
                    && !bits_of(&pre.strategy.requested)[ps[k] as int] && ps[k]
                    < pre.strategy.num_pieces && peer_eligible(pre.peers@[j]) && (
                ps[k] as int) < bits_of(&pre.peers@[j].file.pieces).len() && bits_of(
                    &pre.peers@[j].file.pieces,
                )[ps[k] as int])
}

/// The wire bytes of whole-piece requests for each listed piece, in order.
pub open spec fn requests_concat(pieces: Seq<u32>, plen: u32) -> Seq<u8>
    decreases pieces.len(),
{
    if pieces.len() == 0 {
        Seq::empty()
    } else {
        requests_concat(pieces.drop_last(), plen) + msgs_bytes(
            chunk_requests(pieces.last(), 0, plen),
    )
    }
}

proof fn lemma_requests_concat_push(pieces: Seq<u32>, p: u32, plen: u32)
    ensures
        requests_concat(pieces.push(p), plen) == requests_concat(pieces, plen) + msgs_bytes(
            chunk_requests(p, 0, plen),
        ),
{
    assert(pieces.push(p).drop_last() =~= pieces);
    assert(pieces.push(p).last() == p);
}

/// The marks in `b` that `a` does not have, among the first `k` positions.
pub open spec fn marks_added(a: Seq<bool>, b: Seq<bool>, k: int) -> int
    decreases k,
{
    if k <= 0 {
        0
    } else {
        marks_added(a, b, k - 1) + (if 0 <= k - 1 < b.len() && b[k - 1] && !(0 <= k - 1 < a.len()
            && a[k - 1]) {
            1int
        } else {
            0int
        })
    }
}

proof fn lemma_marks_added_nonneg(a: Seq<bool>, b: Seq<bool>, k: int)
    ensures
        0 <= marks_added(a, b, k),
        marks_added(a, b, k) <= (if k >= 0 {
            k
        } else {
            0
        }),
    decreases k,
{
    if k > 0 {
        lemma_marks_added_nonneg(a, b, k - 1);
    }
}

/// Setting one unset mark raises the count by at most one, and only the
/// prefixes past it.
proof fn lemma_marks_added_update(a: Seq<bool>, b: Seq<bool>, p: int, k: int)
    requires
        0 <= p < b.len(),
    ensures
        marks_added(a, b.update(p, true), k) == marks_added(a, b, k) + (if p < k && !(0 <= p
            < a.len() && a[p]) && !b[p] {
            1int
        } else {
            0int
        }),
    decreases k,
{
    if k > 0 {
        lemma_marks_added_update(a, b, p, k - 1);
        assert(b.update(p, true).len() == b.len());
        if k - 1 != p && 0 <= k - 1 < b.len() {
            assert(b.update(p, true)[k - 1] == b[k - 1]);
        }
    }
}

/// A position still unmarked keeps the count strictly below `k`.
proof fn lemma_marks_added_excl(a: Seq<bool>, b: Seq<bool>, p: int, k: int)
    requires
        0 <= p < k,
        !(0 <= p < b.len() && b[p]),
    ensures
        marks_added(a, b, k) <= k - 1,
    decreases k,
{
    lemma_marks_added_nonneg(a, b, k);
    if p == k - 1 {
        lemma_marks_added_nonneg(a, b, k - 1);
    } else {
        lemma_marks_added_excl(a, b, p, k - 1);
    }
}

impl PeerServer {
    /// Asks peers for the pieces we lack, rarest first across all claimed
    /// bitfields with ties broken by lowest index, from the highest-scored
    /// willing peer, within the per-peer piece and byte budgets.
    #[verifier::rlimit(100)]
    #[verifier::spinoff_prover]
    pub fn request_missing(&mut self)
        requires
            server_wf(*old(self)),
        ensures
            server_wf(*final(self)),
            final(self).peers@.len() == old(self).peers@.len(),
            final(self).strategy.partial_file == old(self).strategy.partial_file,
            final(self).strategy.num_pieces == old(self).strategy.num_pieces,
            final(self).strategy.piece_length == old(self).strategy.piece_length,
            forall|i: int|
                0 <= i < old(self).peers@.len() ==> #[trigger] final(self).peers@[i] == (
                PeerState { buffer: final(self).peers@[i].buffer, ..old(self).peers@[i] }),
            forall|i: int|
                0 <= i < old(self).peers@.len() ==> (#[trigger] final(self).peers@[i]).buffer.bytes_in@ == old(self).peers@[i].buffer.bytes_in@,
            forall|i: int|
                0 <= i < old(self).peers@.len() ==> old(self).peers@[i].buffer.bytes_out@.is_prefix_of(
                    (#[trigger] final(self).peers@[i]).buffer.bytes_out@,
                ),
            // marks only grow
            forall|i: int|
                0 <= i < old(self).strategy.num_pieces && bits_of(
                    &old(self).strategy.requested,
                )[i] ==> #[trigger] bits_of(&final(self).strategy.requested)[i],
            // a new mark is a piece we lack, claimed by a willing peer, and
            // its requests now sit on such a peer's outbound buffer
            forall|i: int|
                0 <= i < old(self).strategy.num_pieces && #[trigger] bits_of(
                    &final(self).strategy.requested,
                )[i] && !bits_of(&old(self).strategy.requested)[i] ==> piece_wanted(
                    old(self).strategy,
                    i,
                ) && claimed_by_eligible(old(self).peers@, i) && (exists|j: int|
                    0 <= j < old(self).peers@.len() && peer_eligible(
                        #[trigger] old(self).peers@[j],
                    ) && contains_segment(
                        final(self).peers@[j].buffer.bytes_out@,
                        msgs_bytes(
                            chunk_requests(i as u32, 0, old(self).strategy.piece_length as u32),
                        ),
                    )),
            // each peer's buffer grew by exactly the request chunks of
            // pieces newly marked, all of them claimed by that peer
            request_log_ok(*old(self), *final(self)),
            // where the budgets cannot bind, every wanted claimed piece is
            // asked for
            budgets_cover(old(self).strategy) ==> forall|q: int|
                piece_wanted(old(self).strategy, q) && claimed_by_eligible(old(self).peers@, q)
                    ==> #[trigger] bits_of(&final(self).strategy.requested)[q],
    {
        let ghost old_peers = self.peers@;
        let ghost old_req = bits_of(&old(self).strategy.requested);
        let n = self.strategy.num_pieces;
        let m = self.peers.len();
        let plen = self.strategy.piece_length;
        // how many peers claim each piece
        let mut counts: Vec<usize> = Vec::new();
        let mut p: usize = 0;
        #[verifier::loop_isolation(false)]
        while p < n
            invariant
                p == counts@.len() <= n,
                *self == *old(self),
                forall|q: int| 0 <= q < p ==> counts@[q] == claimant_count(old_peers, q),
            decreases n - p,
        {
            let mut c: usize = 0;
            let mut i: usize = 0;
            #[verifier::loop_isolation(false)]
            while i < m
                invariant
                    i <= m,
                    c <= i,
                    *self == *old(self),
                    c == claimant_count(old_peers.take(i as int), p as int),
                decreases m - i,
            {
                let claims = self.peers[i].file.has_piece(p);
                proof {
                    assert(old_peers.take(i + 1).drop_last() =~= old_peers.take(i as int));
                    assert(old_peers.take(i + 1).last() == old_peers[i as int]);
                }
                if claims {
                    c += 1;
                }
                i += 1;
            }
            proof {
                assert(old_peers.take(m as int) =~= old_peers);
            }
            counts.push(c);
            p += 1;
        }
        // per-peer budgets for this round
        let mut pieces_assigned: Vec<usize> = empty_counts(m);
        let mut bytes_assigned: Vec<u64> = empty_bytes(m);
        let ghost mut logs: Seq<Seq<u32>> = Seq::new(m as nat, |j: int| Seq::<u32>::empty());
        proof {
            assert forall|j: int|
                0 <= j < m implies (#[trigger] self.peers@[j]).buffer.bytes_out@
                == old_peers[j].buffer.bytes_out@ + requests_concat(logs[j], plen as u32) by {
                assert(requests_concat(logs[j], plen as u32) =~= Seq::<u8>::empty());
                assert(old_peers[j].buffer.bytes_out@ + Seq::<u8>::empty()
                    =~= old_peers[j].buffer.bytes_out@);
            }
            lemma_marks_added_nonneg(old_req, bits_of(&self.strategy.requested), n as int);
            assert forall|q: int|
                0 <= q < n && claimed_by_eligible(old_peers, q) implies claimant_count(
                old_peers,
                q,
            ) >= 1 by {
                let j = choose|j: int|
                    0 <= j < old_peers.len() && peer_eligible(#[trigger] old_peers[j]) && 0 <= q
                        < bits_of(&old_peers[j].file.pieces).len() && bits_of(
                        &old_peers[j].file.pieces,
                    )[q];
                lemma_claimant_bounds(old_peers, q, j);
            }
        }
        let mut round: usize = 0;
        #[verifier::loop_isolation(false)]
        while round < m
            invariant
                counts@.len() == n,
                pieces_assigned@.len() == m,
                bytes_assigned@.len() == m,
                self.peers@.len() == old_peers.len() == m,
                *self == (PeerServer {
                    peers: self.peers,
                    strategy: self.strategy,
                    ..*old(self)
                }),
                self.strategy == (BitTorrentProtocol {
                    requested: self.strategy.requested,
                    ..old(self).strategy
                }),
                bits_of(&self.strategy.requested).len() == n,
                forall|q: int| 0 <= q < n ==> counts@[q] == claimant_count(old_peers, q),
                forall|i: int|
                    0 <= i < m ==> #[trigger] self.peers@[i] == (PeerState {
                        buffer: self.peers@[i].buffer,
                        ..old_peers[i]
                    }),
                forall|i: int|
                    0 <= i < m ==> (#[trigger] self.peers@[i]).buffer.bytes_in@
                        == old_peers[i].buffer.bytes_in@,
                forall|i: int|
                    0 <= i < m ==> old_peers[i].buffer.bytes_out@.is_prefix_of(
                        (#[trigger] self.peers@[i]).buffer.bytes_out@,
                    ),
                logs.len() == m,
                forall|j: int|
                    0 <= j < m ==> (#[trigger] self.peers@[j]).buffer.bytes_out@
                        == old_peers[j].buffer.bytes_out@ + requests_concat(
                        logs[j],
                        plen as u32,
                    ),
                forall|j: int, k: int|
                    #![trigger logs[j][k]]
                    0 <= j < m && 0 <= k < logs[j].len() ==> bits_of(&self.strategy.requested)[
                        logs[j][k] as int] && !old_req[logs[j][k] as int] && logs[j][k] < n
                        && peer_eligible(old_peers[j]) && (logs[j][k] as int) < bits_of(
                        &old_peers[j].file.pieces,
                    ).len() && bits_of(&old_peers[j].file.pieces)[logs[j][k] as int],
                forall|i: int|
                    0 <= i < n && old_req[i] ==> #[trigger] bits_of(
                        &self.strategy.requested,
                    )[i],
                forall|i: int|
                    0 <= i < n && #[trigger] bits_of(&self.strategy.requested)[i] && !old_req[i]
                        ==> piece_wanted(old(self).strategy, i) && claimed_by_eligible(
                        old_peers,
                        i,
                    ) && (exists|j: int|
                        0 <= j < m && peer_eligible(#[trigger] old_peers[j]) && contains_segment(
                            self.peers@[j].buffer.bytes_out@,
                            msgs_bytes(chunk_requests(i as u32, 0, plen as u32)),
                        )),
                forall|j: int|
                    0 <= j < m ==> (#[trigger] bytes_assigned@[j]) as int == pieces_assigned@[j]
                        * plen,
                forall|j: int|
                    0 <= j < m ==> #[trigger] pieces_assigned@[j] as int <= marks_added(
                        old_req,
                        bits_of(&self.strategy.requested),
                        n as int,
                    ),
                budgets_cover(old(self).strategy) ==> forall|q: int|
                    0 <= q < n && piece_wanted(old(self).strategy, q) && claimed_by_eligible(
                        old_peers,
                        q,
                    ) && claimant_count(old_peers, q) <= round ==> #[trigger] bits_of(
                        &self.strategy.requested,
                    )[q],
            decreases m - round,
        {
            let rarity = round + 1;
            let mut piece: usize = 0;
            #[verifier::loop_isolation(false)]
            while piece < n
                invariant
                    counts@.len() == n,
                    pieces_assigned@.len() == m,
                    bytes_assigned@.len() == m,
                    self.peers@.len() == old_peers.len() == m,
                    rarity == round + 1,
                    *self == (PeerServer {
                        peers: self.peers,
                        strategy: self.strategy,
                        ..*old(self)
                    }),
                    self.strategy == (BitTorrentProtocol {
                        requested: self.strategy.requested,
                        ..old(self).strategy
                    }),
                    bits_of(&self.strategy.requested).len() == n,
                    forall|q: int| 0 <= q < n ==> counts@[q] == claimant_count(old_peers, q),
                    forall|i: int|
                        0 <= i < m ==> #[trigger] self.peers@[i] == (PeerState {
                            buffer: self.peers@[i].buffer,
                            ..old_peers[i]
                        }),
                    forall|i: int|
                        0 <= i < m ==> (#[trigger] self.peers@[i]).buffer.bytes_in@
                            == old_peers[i].buffer.bytes_in@,
                    forall|i: int|
                        0 <= i < m ==> old_peers[i].buffer.bytes_out@.is_prefix_of(
                            (#[trigger] self.peers@[i]).buffer.bytes_out@,
                        ),
                    logs.len() == m,
                    forall|j: int|
                        0 <= j < m ==> (#[trigger] self.peers@[j]).buffer.bytes_out@
                            == old_peers[j].buffer.bytes_out@ + requests_concat(
                            logs[j],
                            plen as u32,
                        ),
                    forall|j: int, k: int|
                        #![trigger logs[j][k]]
                        0 <= j < m && 0 <= k < logs[j].len() ==> bits_of(
                            &self.strategy.requested,
                        )[logs[j][k] as int] && !old_req[logs[j][k] as int] && logs[j][k] < n
                            && peer_eligible(old_peers[j]) && (logs[j][k] as int) < bits_of(
                            &old_peers[j].file.pieces,
                        ).len() && bits_of(&old_peers[j].file.pieces)[logs[j][k] as int],
                    forall|i: int|
                        0 <= i < n && old_req[i] ==> #[trigger] bits_of(
                            &self.strategy.requested,
                        )[i],
                    forall|i: int|
                        0 <= i < n && #[trigger] bits_of(&self.strategy.requested)[i]
                            && !old_req[i] ==> piece_wanted(old(self).strategy, i)
                            && claimed_by_eligible(old_peers, i) && (exists|j: int|
                            0 <= j < m && peer_eligible(
                                #[trigger] old_peers[j],
                            ) && contains_segment(
                                self.peers@[j].buffer.bytes_out@,
                                msgs_bytes(chunk_requests(i as u32, 0, plen as u32)),
                            )),
                    forall|j: int|
                        0 <= j < m ==> (#[trigger] bytes_assigned@[j]) as int
                            == pieces_assigned@[j] * plen,
                    forall|j: int|
                        0 <= j < m ==> #[trigger] pieces_assigned@[j] as int <= marks_added(
                            old_req,
                            bits_of(&self.strategy.requested),
                            n as int,
                        ),
                    budgets_cover(old(self).strategy) ==> forall|q: int|
                        0 <= q < n && piece_wanted(old(self).strategy, q) && claimed_by_eligible(
                            old_peers,
                            q,
                        ) && (claimant_count(old_peers, q) <= round || (claimant_count(
                            old_peers,
                            q,
                        ) == rarity && q < piece)) ==> #[trigger] bits_of(
                            &self.strategy.requested,
                        )[q],
                decreases n - piece,
            {
                let already = match crate::bits::bitvec_get(&self.strategy.requested, piece) {
                    Some(b) => b,
                    None => true,
                };
                let wanted = counts[piece] == rarity && !self.strategy.partial_file.has_piece(
                    piece,
                ) && !already;
                if wanted {
                    // the best-scored peer that claims the piece and has
                    // budget left
                    let mut best: Option<usize> = None;
                    let mut i: usize = 0;
                    #[verifier::loop_isolation(false)]
                    while i < m
                        invariant
                            i <= m,
                            pieces_assigned@.len() == m,
                            bytes_assigned@.len() == m,
                            best matches Some(b) ==> b < m && peer_eligible(old_peers[b as int])
                                && piece < bits_of(&old_peers[b as int].file.pieces).len()
                                && bits_of(&old_peers[b as int].file.pieces)[piece as int]
                                && pieces_assigned@[b as int]
                                < crate::wire::strategy::MAX_PIECES_PEER && plen
                                <= crate::wire::strategy::MAX_BYTES_PER_REQUEST && bytes_assigned@[
                                b as int] <= crate::wire::strategy::MAX_BYTES_PER_REQUEST - plen,
                            best is None ==> forall|j2: int|
                                0 <= j2 < i ==> !(peer_eligible(#[trigger] old_peers[j2]) && piece
                                    < bits_of(&old_peers[j2].file.pieces).len() && bits_of(
                                    &old_peers[j2].file.pieces,
                                )[piece as int] && pieces_assigned@[j2]
                                    < crate::wire::strategy::MAX_PIECES_PEER && plen
                                    <= crate::wire::strategy::MAX_BYTES_PER_REQUEST
                                    && bytes_assigned@[j2]
                                    <= crate::wire::strategy::MAX_BYTES_PER_REQUEST - plen),
                        decreases m - i,
                    {
                        let peer = &self.peers[i];
                        let eligible = peer.has_handshake && !peer.disconnected
                            && !peer.peer_choking && peer.file.has_piece(piece)
                            && pieces_assigned[i] < crate::wire::strategy::MAX_PIECES_PEER
                            && plen <= crate::wire::strategy::MAX_BYTES_PER_REQUEST
                            && bytes_assigned[i]
                            <= crate::wire::strategy::MAX_BYTES_PER_REQUEST - plen;
                        if eligible {
                            best = match best {
                                Some(b) => if self.peers[i].score > self.peers[b].score {
                                    Some(i)
                                } else {
                                    Some(b)
                                },
                                None => Some(i),
                            };
                        }
                        i += 1;
                    }
                    match best {
                        Some(chosen) => {
                            let ghost before = self.peers@;
                            let ghost req_before = bits_of(&self.strategy.requested);
                            let target = &mut self.peers[chosen];
                            target.request_piece(piece as u32, plen as u32);
                            crate::bits::bitvec_set(&mut self.strategy.requested, piece, true);
                            let old_count = pieces_assigned[chosen];
                            pieces_assigned[chosen] = old_count + 1;
                            let old_bytes = bytes_assigned[chosen];
                            bytes_assigned[chosen] = old_bytes + plen;
                            proof {
                                let seg = msgs_bytes(
                                    chunk_requests(piece as u32, 0, plen as u32),
                                );
                                let req_now = bits_of(&self.strategy.requested);
                                assert(req_now == req_before.update(piece as int, true));
                                let old_logs = logs;
                                logs = logs.update(
                                    chosen as int,
                                    logs[chosen as int].push(piece as u32),
                                );
                                lemma_requests_concat_push(
                                    old_logs[chosen as int],
                                    piece as u32,
                                    plen as u32,
                                );
                                assert forall|j: int|
                                    0 <= j < m implies (#[trigger] self.peers@[j]).buffer
                                    .bytes_out@ == old_peers[j].buffer.bytes_out@
                                    + requests_concat(logs[j], plen as u32) by {
                                    if j == chosen {
                                        assert(self.peers@[j].buffer.bytes_out@
                                            =~= old_peers[j].buffer.bytes_out@
                                            + requests_concat(logs[j], plen as u32));
                                    } else {
                                        assert(self.peers@[j] == before[j]);
                                        assert(logs[j] == old_logs[j]);
                                    }
                                }
                                assert forall|j: int, k: int|
                                    #![trigger logs[j][k]]
                                    0 <= j < m && 0 <= k < logs[j].len() implies bits_of(
                                    &self.strategy.requested,
                                )[logs[j][k] as int] && !old_req[logs[j][k] as int] && logs[j][k]
                                    < n && peer_eligible(old_peers[j]) && (logs[j][k] as int)
                                    < bits_of(&old_peers[j].file.pieces).len() && bits_of(
                                    &old_peers[j].file.pieces,
                                )[logs[j][k] as int] by {
                                    if j == chosen && k == logs[j].len() - 1 {
                                        assert(logs[j][k] == piece as u32);
                                        assert(!req_before[piece as int]);
                                        assert(!old_req[piece as int]);
                                    } else {
                                        assert(logs[j][k] == old_logs[j][k]);
                                        assert(req_before[old_logs[j][k] as int]);
                                    }
                                }
                                lemma_marks_added_update(
                                    old_req,
                                    req_before,
                                    piece as int,
                                    n as int,
                                );
                                assert((old_count + 1) * plen == old_count * plen + plen)
                                    by (nonlinear_arith);
                                assert forall|i2: int| 0 <= i2 < m implies old_peers[
                                    i2].buffer.bytes_out@.is_prefix_of(
                                    (#[trigger] self.peers@[i2]).buffer.bytes_out@,
                                ) by {
                                    if i2 == chosen {
                                        lemma_prefix_extend(
                                            old_peers[i2].buffer.bytes_out@,
                                            before[i2].buffer.bytes_out@,
                                            seg,
                                        );
                                    } else {
                                        assert(self.peers@[i2] == before[i2]);
                                    }
                                }
                                lemma_contains_append(before[chosen as int].buffer.bytes_out@, seg);
                                assert forall|i2: int|
                                    0 <= i2 < n && #[trigger] req_now[i2] && !old_req[i2] implies
                                    piece_wanted(old(self).strategy, i2) && claimed_by_eligible(
                                    old_peers,
                                    i2,
                                ) && (exists|j: int|
                                    0 <= j < m && peer_eligible(
                                        #[trigger] old_peers[j],
                                    ) && contains_segment(
                                        self.peers@[j].buffer.bytes_out@,
                                        msgs_bytes(chunk_requests(i2 as u32, 0, plen as u32)),
                                    )) by {
                                    if i2 == piece {
                                        assert(peer_eligible(old_peers[chosen as int]));
                                        assert(claimed_by_eligible(old_peers, piece as int));
                                        assert(contains_segment(
                                            self.peers@[chosen as int].buffer.bytes_out@,
                                            seg,
                                        ));
                                    } else {
                                        assert(req_before[i2]);
                                        let j = choose|j: int|
                                            0 <= j < m && peer_eligible(
                                                #[trigger] old_peers[j],
                                            ) && contains_segment(
                                                before[j].buffer.bytes_out@,
                                                msgs_bytes(
                                                    chunk_requests(i2 as u32, 0, plen as u32),
                                                ),
                                            );
                                        if j == chosen {
                                            lemma_contains_extend(
                                                before[j].buffer.bytes_out@,
                                                msgs_bytes(
                                                    chunk_requests(i2 as u32, 0, plen as u32),
                                                ),
                                                seg,
                                            );
                                        } else {
                                            assert(self.peers@[j] == before[j]);
                                        }
                                    }
                                }
                            }
                        },
                        None => {
                            proof {
                                if budgets_cover(old(self).strategy) {
                                    let q = piece as int;
                                    if piece_wanted(old(self).strategy, q) && claimed_by_eligible(
                                        old_peers,
                                        q,
                                    ) {
                                        let j = choose|j: int|
                                            0 <= j < old_peers.len() && peer_eligible(
                                                #[trigger] old_peers[j],
                                            ) && 0 <= q < bits_of(
                                                &old_peers[j].file.pieces,
                                            ).len() && bits_of(&old_peers[j].file.pieces)[q];
                                        lemma_marks_added_excl(
                                            old_req,
                                            bits_of(&self.strategy.requested),
                                            q,
                                            n as int,
                                        );
                                        assert(pieces_assigned@[j] as int <= n - 1);
                                        assert(n >= 1);
                                        assert(plen <= n * plen && (n - 1) * plen <= n * plen
                                            - plen) by (nonlinear_arith)
                                            requires
                                                n >= 1,
                                                plen >= 0,
                                        ;
                                        assert(pieces_assigned@[j] as int * plen <= (n - 1)
                                            * plen) by (nonlinear_arith)
                                            requires
                                                pieces_assigned@[j] as int <= n - 1,
                                                plen >= 0,
                                        ;
                                        assert(bytes_assigned@[j] as int <= n * plen - plen);
                                        assert(false);
                                    }
                                }
                            }
                        },
                    }
                }
                piece += 1;
            }
            round += 1;
        }
        proof {
            assert forall|j: int|
                0 <= j < old(self).peers@.len() implies exists|ps: Seq<u32>|
                #![trigger requests_concat(ps, old(self).strategy.piece_length as u32)]
                (#[trigger] final(self).peers@[j]).buffer.bytes_out@ == old(
                    self,
                ).peers@[j].buffer.bytes_out@ + requests_concat(
                    ps,
                    old(self).strategy.piece_length as u32,
                ) && (forall|k: int|
                    0 <= k < ps.len() ==> bits_of(&final(self).strategy.requested)[(
                    #[trigger] ps[k]) as int] && !bits_of(&old(self).strategy.requested)[
                    ps[k] as int] && ps[k] < old(self).strategy.num_pieces && peer_eligible(
                        old(self).peers@[j],
                    ) && (ps[k] as int) < bits_of(&old(self).peers@[j].file.pieces).len()
                        && bits_of(&old(self).peers@[j].file.pieces)[ps[k] as int]) by {
                let witness = logs[j];
                assert(final(self).peers@[j].buffer.bytes_out@ == old(
                    self,
                ).peers@[j].buffer.bytes_out@ + requests_concat(
                    witness,
                    old(self).strategy.piece_length as u32,
                ));
                assert forall|k: int|
                    0 <= k < witness.len() implies bits_of(&final(self).strategy.requested)[(
                    #[trigger] witness[k]) as int] && !bits_of(&old(self).strategy.requested)[
                    witness[k] as int] && witness[k] < old(self).strategy.num_pieces
                    && peer_eligible(old(self).peers@[j]) && (witness[k] as int) < bits_of(
                    &old(self).peers@[j].file.pieces,
                ).len() && bits_of(&old(self).peers@[j].file.pieces)[witness[k] as int] by {
                    assert(logs[j][k] == witness[k]);
                    assert(bits_of(&self.strategy.requested)[logs[j][k] as int]);
                }
            }
            assert(request_log_ok(*old(self), *final(self)));
            if budgets_cover(old(self).strategy) {
                assert forall|q: int|
                    piece_wanted(old(self).strategy, q) && claimed_by_eligible(
                        old_peers,
                        q,
                    ) implies #[trigger] bits_of(&final(self).strategy.requested)[q] by {
                    let j = choose|j: int|
                        0 <= j < old_peers.len() && peer_eligible(#[trigger] old_peers[j]) && 0
                            <= q < bits_of(&old_peers[j].file.pieces).len() && bits_of(
                            &old_peers[j].file.pieces,
                        )[q];
                    lemma_claimant_bounds(old_peers, q, j);
                }
            }
        }
    }

    /// One timer round: keep-alives go out, the silent leave, and missing
    /// pieces are requested.  Returns the ids of the removed peers.
    pub fn on_tick(&mut self, now: u64) -> (removed: Vec<PeerId>)
        requires
            server_wf(*old(self)),
        ensures
            server_wf(*final(self)),
            forall|i: int|
                0 <= i < final(self).peers@.len() ==> peer_keep(
                    #[trigger] final(self).peers@[i],
                    now,
                ),
            // the sweep removes exactly the peers of the incoming table
            // that hung up or timed out, and keeps the rest in order
            removed@ == dropped_ids(old(self).peers@, now),
            final(self).peers@.len() == retained(old(self).peers@, now).len(),
            forall|i: int|
                0 <= i < final(self).peers@.len() ==> (#[trigger] final(self).peers@[i]).peer_id
                    == retained(old(self).peers@, now)[i].peer_id,
    {
        let ghost entry_peers = self.peers@;
        self.send_keepalives(now);
        self.request_missing();
        let ghost mid = self.peers@;
        proof {
            assert forall|i: int|
                0 <= i < entry_peers.len() implies peer_keep(#[trigger] entry_peers[i], now)
                == peer_keep(mid[i], now) && entry_peers[i].peer_id == mid[i].peer_id by {}
            lemma_sweep_congruent(entry_peers, mid, now);
        }
        self.remove_old_peers(now)
    }
}

/// Two tables whose entries agree on survival and identity are swept
/// alike.
proof fn lemma_sweep_congruent(s1: Seq<PeerState>, s2: Seq<PeerState>, now: u64)
    requires
        s1.len() == s2.len(),
        forall|i: int|
            0 <= i < s1.len() ==> peer_keep(#[trigger] s1[i], now) == peer_keep(s2[i], now)
                && s1[i].peer_id == s2[i].peer_id,
    ensures
        dropped_ids(s1, now) == dropped_ids(s2, now),
        retained(s1, now).len() == retained(s2, now).len(),
        forall|i: int|
            0 <= i < retained(s1, now).len() ==> (#[trigger] retained(s1, now)[i]).peer_id
                == retained(s2, now)[i].peer_id,
    decreases s1.len(),
{
    if s1.len() > 0 {
        let d1 = s1.drop_last();
        let d2 = s2.drop_last();
        assert(forall|i: int| 0 <= i < d1.len() ==> #[trigger] d1[i] == s1[i]);
        assert(forall|i: int| 0 <= i < d2.len() ==> #[trigger] d2[i] == s2[i]);
        lemma_sweep_congruent(d1, d2, now);
        if peer_keep(s1.last(), now) {
            let r1 = retained(s1, now);
            let r2 = retained(s2, now);
            assert(r1 == retained(d1, now).push(s1.last()));
            assert(r2 == retained(d2, now).push(s2.last()));
            assert forall|i: int|
                0 <= i < r1.len() implies (#[trigger] r1[i]).peer_id == r2[i].peer_id by {
                if i < r1.len() - 1 {
                    assert(r1[i] == retained(d1, now)[i] && r2[i] == retained(d2, now)[i]);
                } else {
                    assert(r1[i] == s1.last() && r2[i] == s2.last());
                    assert(s1[s1.len() - 1].peer_id == s2[s2.len() - 1].peer_id);
                }
            }
        } else {
            assert(dropped_ids(s1, now) == dropped_ids(d1, now).push(s1.last().peer_id));
            assert(s1[s1.len() - 1].peer_id == s2[s2.len() - 1].peer_id);
        }
    }
}

/// The sweep keeps peer ids below the id counter and pairwise distinct.
proof fn lemma_retained_ids(s: Seq<PeerState>, now: u64, bound: PeerId)
    requires
        forall|i: int| 0 <= i < s.len() ==> (#[trigger] s[i]).peer_id < bound,
        forall|i: int, j: int|
            0 <= i < j < s.len() ==> (#[trigger] s[i]).peer_id != (#[trigger] s[j]).peer_id,
    ensures
        forall|i: int|
            0 <= i < retained(s, now).len() ==> (#[trigger] retained(s, now)[i]).peer_id < bound,
        forall|i: int, j: int|
            0 <= i < j < retained(s, now).len() ==> (#[trigger] retained(s, now)[i]).peer_id != (
            #[trigger] retained(s, now)[j]).peer_id,
        forall|i: int|
            #![trigger retained(s, now)[i]]
            0 <= i < retained(s, now).len() ==> exists|k: int|
                0 <= k < s.len() && retained(s, now)[i] == #[trigger] s[k],
    decreases s.len(),
{
    if s.len() > 0 {
        let d = s.drop_last();
        assert(forall|i: int| 0 <= i < d.len() ==> #[trigger] d[i] == s[i]);
        lemma_retained_ids(d, now, bound);
        let rd = retained(d, now);
        let r = retained(s, now);
        assert forall|i: int|
            #![trigger rd[i]]
            0 <= i < rd.len() implies exists|k: int|
            0 <= k < s.len() && rd[i] == #[trigger] s[k] by {
            let k = choose|k: int| 0 <= k < d.len() && rd[i] == #[trigger] d[k];
            assert(rd[i] == s[k]);
        }
        if peer_keep(s.last(), now) {
            assert(r == rd.push(s.last()));
            assert forall|i: int| 0 <= i < r.len() implies (#[trigger] r[i]).peer_id < bound by {
                if i < r.len() - 1 {
                    assert(r[i] == rd[i]);
                } else {
                    assert(r[i] == s.last());
                }
            }
            assert forall|i: int, j: int|
                0 <= i < j < r.len() implies (#[trigger] r[i]).peer_id != (
            #[trigger] r[j]).peer_id by {
                if j < r.len() - 1 {
                    assert(r[i] == rd[i] && r[j] == rd[j]);
                } else {
                    assert(r[i] == rd[i] && r[j] == s.last());
                    let k = choose|k: int| 0 <= k < s.len() && rd[i] == #[trigger] s[k];
                    if k == s.len() - 1 {
                        let k2 = choose|k2: int| 0 <= k2 < d.len() && rd[i] == #[trigger] d[k2];
                        assert(rd[i] == s[k2]);
                        assert(s[k2].peer_id != s.last().peer_id);
                    } else {
                        assert(s[k].peer_id != s[s.len() - 1].peer_id);
                    }
                }
            }
            assert forall|i: int|
                #![trigger r[i]]
                0 <= i < r.len() implies exists|k: int|
                0 <= k < s.len() && r[i] == #[trigger] s[k] by {
                if i < r.len() - 1 {
                    assert(r[i] == rd[i]);
                } else {
                    assert(r[i] == s[s.len() - 1]);
                }
            }
        }
    }
}

/// A claimant puts the claimant count between one and the table's size.
proof fn lemma_claimant_bounds(peers: Seq<PeerState>, p: int, j: int)
    requires
        0 <= j < peers.len(),
        0 <= p < bits_of(&peers[j].file.pieces).len(),
        bits_of(&peers[j].file.pieces)[p],
    ensures
        1 <= claimant_count(peers, p) <= peers.len(),
    decreases peers.len(),
{
    lemma_claimant_upper(peers, p);
    if j == peers.len() - 1 {
        lemma_claimant_lower_zero(peers.drop_last(), p);
    } else {
        assert(peers.drop_last()[j] == peers[j]);
        lemma_claimant_bounds(peers.drop_last(), p, j);
    }
}

proof fn lemma_claimant_upper(peers: Seq<PeerState>, p: int)
    ensures
        0 <= claimant_count(peers, p) <= peers.len(),
    decreases peers.len(),
{
    if peers.len() > 0 {
        lemma_claimant_upper(peers.drop_last(), p);
    }
}

proof fn lemma_claimant_lower_zero(peers: Seq<PeerState>, p: int)
    ensures
        claimant_count(peers, p) >= 0,
    decreases peers.len(),
{
    if peers.len() > 0 {
        lemma_claimant_lower_zero(peers.drop_last(), p);
    }
}

/// A prefix stays a prefix when more is appended.
proof fn lemma_prefix_extend(a: Seq<u8>, b: Seq<u8>, c: Seq<u8>)
    requires
        a.is_prefix_of(b),
    ensures
        a.is_prefix_of(b + c),
{
    assert((b + c).take(a.len() as int) =~= b.take(a.len() as int));
}

fn empty_counts(m: usize) -> (r: Vec<usize>)
    ensures
        r@.len() == m,
        forall|i: int| 0 <= i < m ==> r@[i] == 0,
{
    let mut v: Vec<usize> = Vec::new();
    let mut i: usize = 0;
    while i < m
        invariant
            i == v@.len() <= m,
            forall|j: int| 0 <= j < i ==> v@[j] == 0,
        decreases m - i,
    {
        v.push(0);
        i += 1;
    }
    v
}

fn empty_bytes(m: usize) -> (r: Vec<u64>)
    ensures
        r@.len() == m,
        forall|i: int| 0 <= i < m ==> r@[i] == 0,
{
    let mut v: Vec<u64> = Vec::new();
    let mut i: usize = 0;
    while i < m
        invariant
            i == v@.len() <= m,
            forall|j: int| 0 <= j < i ==> v@[j] == 0,
        decreases m - i,
    {
        v.push(0);
        i += 1;
    }
    v
}

/// Every retained peer was in the table, so its bitfield keeps the
/// table's shape.
proof fn lemma_retained_keeps_shape(s: Seq<PeerState>, now: u64, n: int)
    requires
        forall|i: int| 0 <= i < s.len() ==> bits_of(&(#[trigger] s[i]).file.pieces).len() == n,
    ensures
        forall|i: int|
            0 <= i < retained(s, now).len() ==> bits_of(
                &(#[trigger] retained(s, now)[i]).file.pieces,
            ).len() == n,
    decreases s.len(),
{
    if s.len() > 0 {
        assert(forall|i: int|
            0 <= i < s.drop_last().len() ==> bits_of(
                &(#[trigger] s.drop_last()[i]).file.pieces,
            ).len() == n);
        lemma_retained_keeps_shape(s.drop_last(), now, n);
        if peer_keep(s.last(), now) {
            let r = retained(s, now);
            assert(r == retained(s.drop_last(), now).push(s.last()));
            assert forall|i: int| 0 <= i < r.len() implies bits_of(
                &(#[trigger] r[i]).file.pieces,
            ).len() == n by {
                if i < r.len() - 1 {
                    assert(r[i] == retained(s.drop_last(), now)[i]);
                } else {
                    assert(r[i] == s.last());
                }
            }
        }
    }
}

/// A fresh copy of a string.
fn clone_string(s: &String) -> (r: String)
    ensures
        r@ == s@,
{
    s.as_str().to_owned()
}

} // verus!
