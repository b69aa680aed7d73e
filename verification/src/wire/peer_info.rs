//! One connected peer: its protocol flags, its claimed bitfield, its two
//! byte buffers, and the framing that turns inbound bytes into messages.

use vstd::prelude::*;

use crate::file::PeerFile;
use crate::bits::bits_of;
use crate::wire::action::PeerId;
use crate::wire::msg::{msg_bytes, msg_parse, MsgOutcome, PeerMsg, PeerMsgView};
use vstd::slice::slice_subrange;

verus! {

/// The inbound and outbound byte buffers of one connection.
pub struct MessageBuffer {
    pub bytes_in: Vec<u8>,
    pub bytes_out: Vec<u8>,
}

impl MessageBuffer {
    pub fn new() -> (r: MessageBuffer)
        ensures
            r.bytes_in@.len() == 0,
            r.bytes_out@.len() == 0,
    {
        MessageBuffer { bytes_in: Vec::new(), bytes_out: Vec::new() }
    }

    /// Appends bytes read from the socket.
    pub fn write_in(&mut self, bytes: &[u8])
        ensures
            final(self).bytes_in@ == old(self).bytes_in@ + bytes@,
            final(self).bytes_out@ == old(self).bytes_out@,
    {
        let mut incoming = vstd::slice::slice_to_vec(bytes);
        self.bytes_in.append(&mut incoming);
    }

    /// Appends bytes to be written to the socket.
    pub fn write_out(&mut self, bytes: Vec<u8>)
        ensures
            final(self).bytes_out@ == old(self).bytes_out@ + bytes@,
            final(self).bytes_in@ == old(self).bytes_in@,
    {
        let mut outgoing = bytes;
        self.bytes_out.append(&mut outgoing);
    }

    /// Hands out up to `max` queued outbound bytes; what was not taken
    /// stays queued.
    pub fn take_out(&mut self, max: usize) -> (r: Vec<u8>)
        ensures
            ({
                let taken = if max <= old(self).bytes_out@.len() {
                    max as int
                } else {
                    old(self).bytes_out@.len() as int
                };
                r@ == old(self).bytes_out@.take(taken) && final(self).bytes_out@ == old(
                    self,
                ).bytes_out@.skip(taken)
            }),
            final(self).bytes_in@ == old(self).bytes_in@,
    {
        let n = if max <= self.bytes_out.len() {
            max
        } else {
            self.bytes_out.len()
        };
        let taken = vstd::slice::slice_to_vec(
            vstd::slice::slice_subrange(self.bytes_out.as_slice(), 0, n),
        );
        let rest = self.bytes_out.split_off(n);
        self.bytes_out = rest;
        taken
    }
}

/// The block size used when requesting or sending piece data.
pub const BLOCK_SIZE: u32 = 16384;

/// The requests that fetch a whole piece in blocks of at most
/// `BLOCK_SIZE` bytes.
pub open spec fn chunk_requests(piece: u32, from: u32, total: u32) -> Seq<PeerMsgView>
    decreases total - from,
{
    if from >= total {
        Seq::empty()
    } else if total - from <= BLOCK_SIZE {
        seq![PeerMsgView::Request(piece, from, (total - from) as u32)]
    } else {
        seq![PeerMsgView::Request(piece, from, BLOCK_SIZE)] + chunk_requests(
            piece,
            (from + BLOCK_SIZE) as u32,
            total,
        )
    }
}

/// The piece messages that carry `data` in blocks of at most `BLOCK_SIZE`
/// bytes.
pub open spec fn chunk_pieces(piece: u32, begin: u32, data: Seq<u8>) -> Seq<PeerMsgView>
    decreases data.len(),
{
    if data.len() == 0 {
        Seq::empty()
    } else if data.len() <= BLOCK_SIZE {
        seq![PeerMsgView::Piece(piece, begin, data)]
    } else {
        seq![PeerMsgView::Piece(piece, begin, data.take(BLOCK_SIZE as int))] + chunk_pieces(
            piece,
            (begin + BLOCK_SIZE) as u32,
            data.skip(BLOCK_SIZE as int),
        )
    }
}

/// The wire bytes of a run of messages, in order.
pub open spec fn msgs_bytes(ms: Seq<PeerMsgView>) -> Seq<u8>
    decreases ms.len(),
{
    if ms.len() == 0 {
        Seq::empty()
    } else {
        msg_bytes(ms[0]) + msgs_bytes(ms.skip(1))
    }
}

/// How long a peer may stay silent before it is dropped, in milliseconds.
pub const TIMEOUT_MS: u64 = 300000;

/// How long the local side may stay silent before a keep-alive is owed.
pub const KEEPALIVE_MS: u64 = 30000;

/// Everything the protocol tracks about one connected peer.
pub struct PeerState {
    pub peer_id: PeerId,
    pub has_handshake: bool,
    pub disconnected: bool,
    pub peer_choking: bool,
    pub peer_interested: bool,
    pub am_choking: bool,
    pub am_interested: bool,
    pub last_msg_time: u64,
    pub last_msg_sent_time: u64,
    pub connection_time: u64,
    pub file: PeerFile,
    pub score: u64,
    pub piece_size: usize,
    pub buffer: MessageBuffer,
}

impl PeerState {
    /// A fresh connection: both sides choked, neither interested, nothing
    /// exchanged yet.
    pub fn new(len: usize, piece_size: usize, id: PeerId, now: u64) -> (r: PeerState)
        ensures
            r.peer_id == id,
            !r.has_handshake,
            !r.disconnected,
            r.peer_choking && r.am_choking,
            !r.peer_interested && !r.am_interested,
            r.last_msg_time == now && r.last_msg_sent_time == now && r.connection_time == now,
            bits_of(&r.file.pieces) == Seq::new(len as nat, |i: int| false),
            r.score == 0,
            r.piece_size == piece_size,
            r.buffer.bytes_in@.len() == 0 && r.buffer.bytes_out@.len() == 0,
    {
        PeerState {
            peer_id: id,
            has_handshake: false,
            disconnected: false,
            peer_choking: true,
            peer_interested: false,
            am_choking: true,
            am_interested: false,
            last_msg_time: now,
            last_msg_sent_time: now,
            connection_time: now,
            file: PeerFile::new(len),
            score: 0,
            piece_size: piece_size,
            buffer: MessageBuffer::new(),
        }
    }

    /// Frames `msg` onto the outbound buffer.
    pub fn write_message_out(&mut self, msg: PeerMsg)
        requires
            crate::wire::msg::msg_encodable(msg@),
        ensures
            final(self).buffer.bytes_out@ == old(self).buffer.bytes_out@ + msg_bytes(msg@),
            final(self).buffer.bytes_in@ == old(self).buffer.bytes_in@,
            *final(self) == (PeerState { buffer: final(self).buffer, ..*old(self) }),
    {
        let bytes = msg.encode();
        self.buffer.write_out(bytes);
    }

    /// Declares our interest and tells the peer.
    pub fn interested(&mut self, flag: bool)
        ensures
            final(self).am_interested == flag,
            final(self).buffer.bytes_out@ == old(self).buffer.bytes_out@ + msg_bytes(
                if flag {
                    PeerMsgView::Interested
                } else {
                    PeerMsgView::NotInterested
                },
            ),
            final(self).buffer.bytes_in@ == old(self).buffer.bytes_in@,
            *final(self) == (PeerState {
                am_interested: flag,
                buffer: final(self).buffer,
                ..*old(self)
            }),
    {
        self.write_message_out(
            if flag {
                PeerMsg::Interested
            } else {
                PeerMsg::NotInterested
            },
        );
        self.am_interested = flag;
    }

    /// Chokes or unchokes the peer and tells it.
    pub fn choke(&mut self, flag: bool)
        ensures
            final(self).am_choking == flag,
            final(self).buffer.bytes_out@ == old(self).buffer.bytes_out@ + msg_bytes(
                if flag {
                    PeerMsgView::Choke
                } else {
                    PeerMsgView::Unchoke
                },
            ),
            final(self).buffer.bytes_in@ == old(self).buffer.bytes_in@,
            *final(self) == (PeerState {
                am_choking: flag,
                buffer: final(self).buffer,
                ..*old(self)
            }),
    {
        self.write_message_out(
            if flag {
                PeerMsg::Choke
            } else {
                PeerMsg::Unchoke
            },
        );
        self.am_choking = flag;
    }

    /// Announces that we now have a piece.
    pub fn send_have(&mut self, piece_index: u32)
        ensures
            final(self).buffer.bytes_out@ == old(self).buffer.bytes_out@ + msg_bytes(
                PeerMsgView::Have(piece_index),
            ),
            final(self).buffer.bytes_in@ == old(self).buffer.bytes_in@,
            *final(self) == (PeerState { buffer: final(self).buffer, ..*old(self) }),
    {
        self.write_message_out(PeerMsg::Have(piece_index));
    }

    /// Marks the connection as over.
    pub fn disconnect(&mut self)
        ensures
            *final(self) == (PeerState { disconnected: true, ..*old(self) }),
    {
        self.disconnected = true;
    }

    /// Appends socket bytes to the inbound buffer.
    pub fn read_from_peer(&mut self, bytes: &[u8])
        ensures
            final(self).buffer.bytes_in@ == old(self).buffer.bytes_in@ + bytes@,
            final(self).buffer.bytes_out@ == old(self).buffer.bytes_out@,
            *final(self) == (PeerState { buffer: final(self).buffer, ..*old(self) }),
    {
        self.buffer.write_in(bytes);
    }

    /// Hands out up to `max` outbound bytes to write to the socket.
    pub fn write_to_peer(&mut self, max: usize) -> (r: Vec<u8>)
        ensures
            ({
                let taken = if max <= old(self).buffer.bytes_out@.len() {
                    max as int
                } else {
                    old(self).buffer.bytes_out@.len() as int
                };
                r@ == old(self).buffer.bytes_out@.take(taken) && final(self).buffer.bytes_out@
                    == old(self).buffer.bytes_out@.skip(taken)
            }),
            final(self).buffer.bytes_in@ == old(self).buffer.bytes_in@,
            *final(self) == (PeerState { buffer: final(self).buffer, ..*old(self) }),
    {
        self.buffer.take_out(max)
    }

    /// Asks the peer for a whole piece, block by block.
    pub fn request_piece(&mut self, piece_index: u32, piece_len: u32)
        ensures
            final(self).buffer.bytes_out@ == old(self).buffer.bytes_out@ + msgs_bytes(
                chunk_requests(piece_index, 0, piece_len),
            ),
            final(self).buffer.bytes_in@ == old(self).buffer.bytes_in@,
            *final(self) == (PeerState { buffer: final(self).buffer, ..*old(self) }),
    {
        let ghost base = old(self).buffer.bytes_out@;
        let ghost whole = msgs_bytes(chunk_requests(piece_index, 0, piece_len));
        let mut from: u32 = 0;
        #[verifier::loop_isolation(false)]
        while from < piece_len
            invariant
                from <= piece_len,
                self.buffer.bytes_out@ + msgs_bytes(chunk_requests(piece_index, from, piece_len))
                    == base + whole,
                self.buffer.bytes_in@ == old(self).buffer.bytes_in@,
                *self == (PeerState { buffer: self.buffer, ..*old(self) }),
            decreases piece_len - from,
        {
            let len = if piece_len - from <= BLOCK_SIZE {
                piece_len - from
            } else {
                BLOCK_SIZE
            };
            let ghost before = self.buffer.bytes_out@;
            self.write_message_out(PeerMsg::Request(piece_index, from, len));
            proof {
                let rest = chunk_requests(piece_index, from, piece_len);
                let m = PeerMsgView::Request(piece_index, from, len);
                assert(rest == seq![m] + chunk_requests(
                    piece_index,
                    (from + len) as u32,
                    piece_len,
                ) || rest == seq![m]) by {
                    if piece_len - from <= BLOCK_SIZE {
                        assert(rest =~= seq![m]);
                    }
                }
                assert(msgs_bytes(seq![m]) =~= msg_bytes(m)) by {
                    assert(seq![m][0] == m);
                    assert(seq![m].skip(1) =~= Seq::<PeerMsgView>::empty());
                    assert(msgs_bytes(Seq::<PeerMsgView>::empty()) =~= Seq::<u8>::empty());
                }
                if piece_len - from > BLOCK_SIZE {
                    assert(rest[0] == m);
                    assert(rest.skip(1) =~= chunk_requests(
                        piece_index,
                        (from + len) as u32,
                        piece_len,
                    ));
                    assert(msgs_bytes(rest) == msg_bytes(m) + msgs_bytes(rest.skip(1)));
                } else {
                    assert(chunk_requests(piece_index, (from + len) as u32, piece_len)
                        =~= Seq::<PeerMsgView>::empty());
                    assert(msgs_bytes(rest) == msg_bytes(m) + msgs_bytes(chunk_requests(
                        piece_index,
                        (from + len) as u32,
                        piece_len,
                    )));
                }
                assert(self.buffer.bytes_out@ + msgs_bytes(chunk_requests(
                    piece_index,
                    (from + len) as u32,
                    piece_len,
                )) =~= base + whole);
            }
            from = from + len;
        }
        proof {
            assert(msgs_bytes(chunk_requests(piece_index, from, piece_len))
                =~= Seq::<u8>::empty());
            assert(self.buffer.bytes_out@ =~= base + whole);
        }
    }

    /// Sends piece data to the peer, block by block.
    pub fn send_piece_data(&mut self, index: u32, begin: u32, data: Vec<u8>)
        requires
            begin + data@.len() <= u32::MAX,
        ensures
            final(self).buffer.bytes_out@ == old(self).buffer.bytes_out@ + msgs_bytes(
                chunk_pieces(index, begin, data@),
            ),
            final(self).buffer.bytes_in@ == old(self).buffer.bytes_in@,
            *final(self) == (PeerState { buffer: final(self).buffer, ..*old(self) }),
    {
        let ghost base = old(self).buffer.bytes_out@;
        let ghost whole = msgs_bytes(chunk_pieces(index, begin, data@));
        let total = data.len();
        proof {
            assert(data@.skip(0) =~= data@);
        }
        let mut off: usize = 0;
        #[verifier::loop_isolation(false)]
        while off < total
            invariant
                off <= total == data@.len(),
                begin + total <= u32::MAX,
                self.buffer.bytes_out@ + msgs_bytes(
                    chunk_pieces(index, (begin + off) as u32, data@.skip(off as int)),
                ) == base + whole,
                self.buffer.bytes_in@ == old(self).buffer.bytes_in@,
                *self == (PeerState { buffer: self.buffer, ..*old(self) }),
            decreases total - off,
        {
            let len = if total - off <= BLOCK_SIZE as usize {
                total - off
            } else {
                BLOCK_SIZE as usize
            };
            let block = vstd::slice::slice_to_vec(
                vstd::slice::slice_subrange(data.as_slice(), off, off + len),
            );
            let ghost tail = data@.skip(off as int);
            let ghost m = PeerMsgView::Piece(index, (begin + off) as u32, block@);
            proof {
                assert(block@ =~= tail.take(len as int));
                if tail.len() <= BLOCK_SIZE {
                    assert(tail.take(len as int) =~= tail);
                }
            }
            self.write_message_out(PeerMsg::Piece(index, begin + off as u32, block));
            proof {
                let rest = chunk_pieces(index, (begin + off) as u32, tail);
                if tail.len() <= BLOCK_SIZE {
                    assert(rest =~= seq![m]);
                    assert(msgs_bytes(rest) == msg_bytes(m) + msgs_bytes(
                        Seq::<PeerMsgView>::empty(),
                    )) by {
                        assert(rest[0] == m);
                        assert(rest.skip(1) =~= Seq::<PeerMsgView>::empty());
                    }
                    assert(tail.skip(len as int) =~= Seq::<u8>::empty());
                    assert(chunk_pieces(index, (begin + off + len) as u32, tail.skip(len as int))
                        =~= Seq::<PeerMsgView>::empty());
                } else {
                    assert(rest[0] == m);
                    assert(rest.skip(1) =~= chunk_pieces(
                        index,
                        (begin + off + len) as u32,
                        tail.skip(len as int),
                    ));
                    assert(msgs_bytes(rest) == msg_bytes(m) + msgs_bytes(rest.skip(1)));
                }
                assert(data@.skip(off + len) =~= tail.skip(len as int));
                assert(self.buffer.bytes_out@ + msgs_bytes(chunk_pieces(
                    index,
                    (begin + off + len) as u32,
                    data@.skip(off + len),
                )) =~= base + whole);
            }
            off = off + len;
        }
        proof {
            assert(data@.skip(total as int).len() == 0);
            assert(msgs_bytes(chunk_pieces(index, (begin + total) as u32, data@.skip(
                total as int,
            ))) =~= Seq::<u8>::empty());
            assert(self.buffer.bytes_out@ =~= base + whole);
        }
    }

    /// Takes one message off the inbound buffer, if a whole frame is
    /// there.  Choke, interest and bitfield messages update the peer's
    /// flags as they pass; a malformed frame marks the peer disconnected.
    pub fn message(&mut self) -> (r: Option<PeerMsg>)
        ensures
            match msg_parse(old(self).buffer.bytes_in@) {
                MsgOutcome::Msg(m, n) => {
                    &&& r matches Some(got) && got@ == m
                    &&& final(self).buffer.bytes_in@ == old(self).buffer.bytes_in@.skip(n)
                    &&& final(self).buffer.bytes_out@ == old(self).buffer.bytes_out@
                    &&& (match m {
                        PeerMsgView::Choke => *final(self) == (PeerState {
                            peer_choking: true,
                            buffer: final(self).buffer,
                            ..*old(self)
                        }),
                        PeerMsgView::Unchoke => *final(self) == (PeerState {
                            peer_choking: false,
                            buffer: final(self).buffer,
                            ..*old(self)
                        }),
                        PeerMsgView::Interested => *final(self) == (PeerState {
                            peer_interested: true,
                            buffer: final(self).buffer,
                            ..*old(self)
                        }),
                        PeerMsgView::NotInterested => *final(self) == (PeerState {
                            peer_interested: false,
                            buffer: final(self).buffer,
                            ..*old(self)
                        }),
                        PeerMsgView::Have(i) => *final(self) == (PeerState {
                            file: final(self).file,
                            buffer: final(self).buffer,
                            ..*old(self)
                        }) && bits_of(&final(self).file.pieces) == (if i < bits_of(
                            &old(self).file.pieces,
                        ).len() {
                            bits_of(&old(self).file.pieces).update(i as int, true)
                        } else {
                            bits_of(&old(self).file.pieces)
                        }),
                        PeerMsgView::Bitfield(bits) => *final(self) == (PeerState {
                            file: final(self).file,
                            buffer: final(self).buffer,
                            ..*old(self)
                        }) && bits_of(&final(self).file.pieces) == Seq::new(
                            bits_of(&old(self).file.pieces).len(),
                            |i: int|
                                if i < bits.len() {
                                    bits[i]
                                } else {
                                    bits_of(&old(self).file.pieces)[i]
                                },
                        ),
                        _ => *final(self) == (PeerState {
                            buffer: final(self).buffer,
                            ..*old(self)
                        }),
                    })
                },
                MsgOutcome::Incomplete => r is None && *final(self) == *old(self),
                MsgOutcome::Invalid => r is None && *final(self) == (PeerState {
                    disconnected: true,
                    ..*old(self)
                }),
            },
    {
        let parsed = crate::wire::msg::parse_peermsg(self.buffer.bytes_in.as_slice());
        match parsed {
            Ok((msg, consumed)) => {
                let rest = self.buffer.bytes_in.split_off(consumed);
                self.buffer.bytes_in = rest;
                match &msg {
                    PeerMsg::Choke => {
                        self.peer_choking = true;
                    },
                    PeerMsg::Unchoke => {
                        self.peer_choking = false;
                    },
                    PeerMsg::Interested => {
                        self.peer_interested = true;
                    },
                    PeerMsg::NotInterested => {
                        self.peer_interested = false;
                    },
                    PeerMsg::Have(piece_index) => {
                        let idx = *piece_index;
                        let ghost before = bits_of(&self.file.pieces);
                        self.file.set(idx as usize, true);
                        proof {
                            assert(bits_of(&self.file.pieces) == (if (idx as int) < before.len() {
                                before.update(idx as int, true)
                            } else {
                                before
                            }));
                        }
                    },
                    PeerMsg::Bitfield(bitfield) => {
                        let limit = self.file.length();
                        let n = crate::bits::bitvec_len(bitfield);
                        let ghost prior = *self;
                        let mut i: usize = 0;
                        #[verifier::loop_isolation(false)]
                        while i < n && i < limit
                            invariant
                                *self == (PeerState { file: self.file, ..prior }),
                                i <= n,
                                n == bits_of(bitfield).len(),
                                bits_of(&self.file.pieces).len() == limit,
                                forall|j: int|
                                    0 <= j < i && j < limit ==> bits_of(&self.file.pieces)[j]
                                        == bits_of(bitfield)[j],
                                forall|j: int|
                                    i <= j < limit ==> bits_of(&self.file.pieces)[j] == bits_of(
                                        &old(self).file.pieces,
                                    )[j],
                            decreases n - i,
                        {
                            let bit = match crate::bits::bitvec_get(bitfield, i) {
                                Some(b) => b,
                                None => false,
                            };
                            self.file.set(i, bit);
                            i += 1;
                        }
                        proof {
                            assert(bits_of(&self.file.pieces) =~= Seq::new(
                                bits_of(&old(self).file.pieces).len(),
                                |j: int|
                                    if j < bits_of(bitfield).len() {
                                        bits_of(bitfield)[j]
                                    } else {
                                        bits_of(&old(self).file.pieces)[j]
                                    },
                            ));
                        }
                    },
                    _ => {},
                }
                Some(msg)
            },
            Err(e) => {
                match e {
                    crate::wire::msg::MsgParseError::TooShort => None,
                    _ => {
                        self.disconnected = true;
                        None
                    },
                }
            },
        }
    }
}

} // verus!
