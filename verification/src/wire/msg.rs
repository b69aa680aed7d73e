//! The peer-wire message codec: length-prefixed frames, the 68-byte
//! handshake, and the canonical byte layout of every message.

use vstd::prelude::*;

use crate::bits::{
    bits_of, bits_to_bytes, bitvec_from_bytes, bitvec_to_bytes, bytes_to_bits,
    lemma_bits_bytes_round_trip, pad_to_byte,
};
use crate::metainfo::SHA1Hash20b;
use vstd::slice::{slice_index_get, slice_subrange, slice_to_vec};
use vstd::string::StringSliceAdditionalSpecFns;

verus! {

/// The largest frame a peer may send for anything but a piece block.
pub const MAX_FRAME_LEN: u32 = 0x100000;

/// The largest block a `Piece` message may carry.
pub const MAX_BLOCK_LEN: u32 = 0x20000;

/// A handshake is exactly this many bytes.
pub const HANDSHAKE_LEN: usize = 68;

/// The four leading bytes of a handshake read as a length prefix:
/// `<19>"Bit"` big-endian.
pub const HANDSHAKE_MAGIC: u32 = 323119476;

/// A message of the peer-wire protocol.
#[derive(Debug, PartialEq)]
pub enum PeerMsg {
    // protocol id, info hash, peer id
    HandShake(String, SHA1Hash20b, SHA1Hash20b),
    KeepAlive,
    Choke,
    Unchoke,
    Interested,
    NotInterested,
    Have(u32),
    Bitfield(bit_vec::BitVec),
    Request(u32, u32, u32),
    Piece(u32, u32, Vec<u8>),
    Cancel(u32, u32, u32),
    Port(u32),
}

/// The abstract value of a message.
pub enum PeerMsgView {
    HandShake(Seq<u8>, Seq<u8>, Seq<u8>),
    KeepAlive,
    Choke,
    Unchoke,
    Interested,
    NotInterested,
    Have(u32),
    Bitfield(Seq<bool>),
    Request(u32, u32, u32),
    Piece(u32, u32, Seq<u8>),
    Cancel(u32, u32, u32),
    Port(u32),
}

impl View for PeerMsg {
    type V = PeerMsgView;

    open spec fn view(&self) -> PeerMsgView {
        match self {
            PeerMsg::HandShake(p, ih, pid) => PeerMsgView::HandShake(
                vstd::utf8::encode_utf8(p@),
                ih@,
                pid@,
            ),
            PeerMsg::KeepAlive => PeerMsgView::KeepAlive,
            PeerMsg::Choke => PeerMsgView::Choke,
            PeerMsg::Unchoke => PeerMsgView::Unchoke,
            PeerMsg::Interested => PeerMsgView::Interested,
            PeerMsg::NotInterested => PeerMsgView::NotInterested,
            PeerMsg::Have(i) => PeerMsgView::Have(*i),
            PeerMsg::Bitfield(bv) => PeerMsgView::Bitfield(bits_of(bv)),
            PeerMsg::Request(i, b, l) => PeerMsgView::Request(*i, *b, *l),
            PeerMsg::Piece(i, b, blk) => PeerMsgView::Piece(*i, *b, blk@),
            PeerMsg::Cancel(i, b, l) => PeerMsgView::Cancel(*i, *b, *l),
            PeerMsg::Port(p) => PeerMsgView::Port(*p),
        }
    }
}

// ---------------------------------------------------------------------------
// Big-endian 32-bit words
// ---------------------------------------------------------------------------

/// The four big-endian bytes of a 32-bit word.
pub open spec fn be32(n: u32) -> Seq<u8> {
    seq![
        (n / 0x1000000) as u8,
        ((n / 0x10000) % 0x100) as u8,
        ((n / 0x100) % 0x100) as u8,
        (n % 0x100) as u8,
    ]
}

/// The word four big-endian bytes denote.
pub open spec fn be32_val(b0: u8, b1: u8, b2: u8, b3: u8) -> u32 {
    ((b0 as int) * 0x1000000 + (b1 as int) * 0x10000 + (b2 as int) * 0x100 + (b3 as int)) as u32
}

pub proof fn lemma_be32_round(n: u32)
    ensures
        be32(n).len() == 4,
        be32_val(be32(n)[0], be32(n)[1], be32(n)[2], be32(n)[3]) == n,
{
    assert((n / 0x1000000) * 0x1000000 + ((n / 0x10000) % 0x100) * 0x10000 + ((n / 0x100) % 0x100)
        * 0x100 + n % 0x100 == n) by (nonlinear_arith);
}

/// Appends the four big-endian bytes of `n`.
fn write_u32_be(out: &mut Vec<u8>, n: u32)
    ensures
        final(out)@ == old(out)@ + be32(n),
{
    out.push((n / 0x1000000) as u8);
    out.push(((n / 0x10000) % 0x100) as u8);
    out.push(((n / 0x100) % 0x100) as u8);
    out.push((n % 0x100) as u8);
    proof {
        assert(final(out)@ =~= old(out)@ + be32(n));
    }
}

/// Reads a big-endian 32-bit word at `pos`.
fn read_u32_be(bytes: &[u8], pos: usize) -> (r: u32)
    requires
        pos + 4 <= bytes@.len(),
        bytes@.len() <= usize::MAX,
    ensures
        r == be32_val(
            bytes@[pos as int],
            bytes@[pos + 1],
            bytes@[pos + 2],
            bytes@[pos + 3],
        ),
{
    let b0 = *slice_index_get(bytes, pos);
    let b1 = *slice_index_get(bytes, pos + 1);
    let b2 = *slice_index_get(bytes, pos + 2);
    let b3 = *slice_index_get(bytes, pos + 3);
    (b0 as u32) * 0x1000000 + (b1 as u32) * 0x10000 + (b2 as u32) * 0x100 + (b3 as u32)
}

// ---------------------------------------------------------------------------
// The canonical byte layout
// ---------------------------------------------------------------------------

/// The bytes of the fixed protocol identifier, "BitTorrent protocol".
pub open spec fn pstr() -> Seq<u8> {
    seq![
        66u8, 105, 116, 84, 111, 114, 114, 101, 110, 116, 32, 112, 114, 111, 116, 111, 99, 111,
        108,
    ]
}

/// Eight reserved zero bytes.
pub open spec fn reserved8() -> Seq<u8> {
    seq![0u8, 0, 0, 0, 0, 0, 0, 0]
}

/// A message the protocol can carry: the handshake uses the fixed protocol
/// identifier and 20-byte digests, a bitfield fills whole bytes and fits a
/// frame, a block respects the block cap, and a port fits 16 bits.
pub open spec fn msg_wf(m: PeerMsgView) -> bool {
    match m {
        PeerMsgView::HandShake(p, ih, pid) => p == pstr() && ih.len() == 20 && pid.len() == 20,
        PeerMsgView::Bitfield(bits) => bits.len() % 8 == 0 && bits.len() / 8 + 1
            <= MAX_FRAME_LEN,
        PeerMsgView::Piece(_, _, blk) => blk.len() <= MAX_BLOCK_LEN,
        PeerMsgView::Port(p) => p < 0x10000,
        _ => true,
    }
}

/// The machine limits encoding needs: lengths that fit the length prefix
/// and a protocol identifier that fits its length byte.
pub open spec fn msg_encodable(m: PeerMsgView) -> bool {
    match m {
        PeerMsgView::HandShake(p, _, _) => p.len() < 256,
        PeerMsgView::Bitfield(bits) => bits.len() / 8 + 2 <= u32::MAX,
        PeerMsgView::Piece(_, _, blk) => blk.len() + 9 <= u32::MAX,
        _ => true,
    }
}

/// The wire bytes of a message.
pub open spec fn msg_bytes(m: PeerMsgView) -> Seq<u8> {
    match m {
        PeerMsgView::HandShake(p, ih, pid) => seq![p.len() as u8] + p + reserved8() + ih + pid,
        PeerMsgView::KeepAlive => be32(0),
        PeerMsgView::Choke => be32(1) + seq![0u8],
        PeerMsgView::Unchoke => be32(1) + seq![1u8],
        PeerMsgView::Interested => be32(1) + seq![2u8],
        PeerMsgView::NotInterested => be32(1) + seq![3u8],
        PeerMsgView::Have(i) => be32(5) + seq![4u8] + be32(i),
        PeerMsgView::Bitfield(bits) => {
            let payload = bits_to_bytes(pad_to_byte(bits));
            be32((payload.len() + 1) as u32) + seq![5u8] + payload
        },
        PeerMsgView::Request(i, b, l) => be32(13) + seq![6u8] + be32(i) + be32(b) + be32(l),
        PeerMsgView::Piece(i, b, blk) => be32((9 + blk.len()) as u32) + seq![7u8] + be32(i)
            + be32(b) + blk,
        PeerMsgView::Cancel(i, b, l) => be32(13) + seq![8u8] + be32(i) + be32(b) + be32(l),
        PeerMsgView::Port(p) => be32(3) + seq![9u8] + seq![((p / 0x100) % 0x100) as u8, (
            p % 0x100) as u8],
    }
}

/// What one attempt to take a message off the front of a byte stream can
/// yield: a message and its cursor, a request for more bytes, or a fatal
/// rejection.
pub enum MsgOutcome {
    Msg(PeerMsgView, int),
    Incomplete,
    Invalid,
}

/// Parses the 68-byte handshake at the head of `bytes`.
pub open spec fn handshake_parse(bytes: Seq<u8>) -> MsgOutcome {
    if bytes.len() < 68 {
        MsgOutcome::Incomplete
    } else if bytes[0] != 19 {
        MsgOutcome::Invalid
    } else if bytes.subrange(1, 20) != pstr() {
        MsgOutcome::Invalid
    } else {
        MsgOutcome::Msg(
            PeerMsgView::HandShake(
                bytes.subrange(1, 20),
                bytes.subrange(28, 48),
                bytes.subrange(48, 68),
            ),
            68,
        )
    }
}

/// A frame length a given id allows: fixed sizes for the fixed messages,
/// the block cap for a piece, anything within the frame cap for a
/// bitfield.
pub open spec fn frame_shape_ok(id: u8, flen: int) -> bool {
    if id == 0 || id == 1 || id == 2 || id == 3 {
        flen == 1
    } else if id == 4 {
        flen == 5
    } else if id == 5 {
        true
    } else if id == 6 || id == 8 {
        flen == 13
    } else if id == 7 {
        9 <= flen && flen - 9 <= MAX_BLOCK_LEN
    } else if id == 9 {
        flen == 3
    } else {
        false
    }
}

/// Parses one frame at the head of `bytes`: a length prefix, then an id and
/// its payload; the handshake announces itself through its first four
/// bytes.  A length the announced id cannot carry is rejected as soon as
/// the id byte is visible, before the rest of the frame arrives.
pub open spec fn msg_parse(bytes: Seq<u8>) -> MsgOutcome {
    if bytes.len() < 4 {
        MsgOutcome::Incomplete
    } else {
        let flen = be32_val(bytes[0], bytes[1], bytes[2], bytes[3]) as int;
        if flen == 0 {
            MsgOutcome::Msg(PeerMsgView::KeepAlive, 4)
        } else if flen == HANDSHAKE_MAGIC {
            handshake_parse(bytes)
        } else if flen > MAX_FRAME_LEN {
            MsgOutcome::Invalid
        } else if bytes.len() < 5 {
            MsgOutcome::Incomplete
        } else {
            let id = bytes[4];
            if !frame_shape_ok(id, flen) {
                MsgOutcome::Invalid
            } else if 4 + flen > bytes.len() {
                MsgOutcome::Incomplete
            } else if id == 0 {
                MsgOutcome::Msg(PeerMsgView::Choke, 5)
            } else if id == 1 {
                MsgOutcome::Msg(PeerMsgView::Unchoke, 5)
            } else if id == 2 {
                MsgOutcome::Msg(PeerMsgView::Interested, 5)
            } else if id == 3 {
                MsgOutcome::Msg(PeerMsgView::NotInterested, 5)
            } else if id == 4 {
                MsgOutcome::Msg(
                    PeerMsgView::Have(be32_val(bytes[5], bytes[6], bytes[7], bytes[8])),
                    9,
                )
            } else if id == 5 {
                MsgOutcome::Msg(
                    PeerMsgView::Bitfield(bytes_to_bits(bytes.subrange(5, 4 + flen))),
                    4 + flen,
                )
            } else if id == 6 {
                MsgOutcome::Msg(
                    PeerMsgView::Request(
                        be32_val(bytes[5], bytes[6], bytes[7], bytes[8]),
                        be32_val(bytes[9], bytes[10], bytes[11], bytes[12]),
                        be32_val(bytes[13], bytes[14], bytes[15], bytes[16]),
                    ),
                    17,
                )
            } else if id == 7 {
                MsgOutcome::Msg(
                    PeerMsgView::Piece(
                        be32_val(bytes[5], bytes[6], bytes[7], bytes[8]),
                        be32_val(bytes[9], bytes[10], bytes[11], bytes[12]),
                        bytes.subrange(13, 4 + flen),
                    ),
                    4 + flen,
                )
            } else if id == 8 {
                MsgOutcome::Msg(
                    PeerMsgView::Cancel(
                        be32_val(bytes[5], bytes[6], bytes[7], bytes[8]),
                        be32_val(bytes[9], bytes[10], bytes[11], bytes[12]),
                        be32_val(bytes[13], bytes[14], bytes[15], bytes[16]),
                    ),
                    17,
                )
            } else {
                MsgOutcome::Msg(
                    PeerMsgView::Port(((bytes[5] as int) * 0x100 + (bytes[6] as int)) as u32),
                    7,
                )
            }
        }
    }
}

/// Why a frame could not be parsed.
#[derive(Debug, PartialEq)]
pub enum MsgParseError {
    TooShort,
    TooShortForId,
    InvalidId,
    Malformed(&'static str),
    UnknownProtocol,
}

/// The id byte of each framed message; the handshake and the keep-alive
/// carry none.
pub open spec fn msg_id(m: PeerMsgView) -> Option<u8> {
    match m {
        PeerMsgView::HandShake(_, _, _) => None,
        PeerMsgView::KeepAlive => None,
        PeerMsgView::Choke => Some(0u8),
        PeerMsgView::Unchoke => Some(1u8),
        PeerMsgView::Interested => Some(2u8),
        PeerMsgView::NotInterested => Some(3u8),
        PeerMsgView::Have(_) => Some(4u8),
        PeerMsgView::Bitfield(_) => Some(5u8),
        PeerMsgView::Request(_, _, _) => Some(6u8),
        PeerMsgView::Piece(_, _, _) => Some(7u8),
        PeerMsgView::Cancel(_, _, _) => Some(8u8),
        PeerMsgView::Port(_) => Some(9u8),
    }
}

/// Twenty bytes: the input truncated or zero-padded.
pub open spec fn resize20(s: Seq<u8>) -> Seq<u8> {
    if s.len() >= 20 {
        s.take(20)
    } else {
        s + Seq::new((20 - s.len()) as nat, |i: int| 0u8)
    }
}

impl PeerMsg {
    pub fn id(&self) -> (r: Option<u8>)
        ensures
            r == msg_id(self@),
    {
        match self {
            PeerMsg::KeepAlive => None,
            PeerMsg::HandShake(..) => None,
            PeerMsg::Choke => Some(0),
            PeerMsg::Unchoke => Some(1),
            PeerMsg::Interested => Some(2),
            PeerMsg::NotInterested => Some(3),
            PeerMsg::Have(_) => Some(4),
            PeerMsg::Bitfield(_) => Some(5),
            PeerMsg::Request(_, _, _) => Some(6),
            PeerMsg::Piece(_, _, _) => Some(7),
            PeerMsg::Cancel(_, _, _) => Some(8),
            PeerMsg::Port(_) => Some(9),
        }
    }

    /// The local half of the handshake: the peer id is brought to exactly
    /// twenty bytes.
    pub fn handshake(protocol_id: String, peer_id: String, hash: &SHA1Hash20b) -> (r: PeerMsg)
        ensures
            r@ == PeerMsgView::HandShake(
                vstd::utf8::encode_utf8(protocol_id@),
                hash@,
                resize20(vstd::utf8::encode_utf8(peer_id@)),
            ),
    {
        let pb = peer_id.as_str().as_bytes();
        let mut id: Vec<u8>;
        if pb.len() >= 20 {
            id = slice_to_vec(slice_subrange(pb, 0, 20));
            proof {
                assert(id@ =~= resize20(vstd::utf8::encode_utf8(peer_id@)));
            }
        } else {
            id = slice_to_vec(pb);
            while id.len() < 20
                invariant
                    pb@.len() < 20,
                    pb@.len() <= id@.len() <= 20,
                    id@ == pb@ + Seq::new((id@.len() - pb@.len()) as nat, |i: int| 0u8),
                decreases 20 - id@.len(),
            {
                id.push(0);
                proof {
                    assert(id@ =~= pb@ + Seq::new((id@.len() - pb@.len()) as nat, |i: int| 0u8));
                }
            }
            proof {
                assert(id@ =~= resize20(vstd::utf8::encode_utf8(peer_id@)));
            }
        }
        PeerMsg::HandShake(protocol_id, slice_to_vec(hash.as_slice()), id)
    }

    /// The wire bytes of this message.
    pub fn encode(&self) -> (out: Vec<u8>)
        requires
            msg_encodable(self@),
        ensures
            out@ == msg_bytes(self@),
    {
        let mut out: Vec<u8> = Vec::new();
        match self {
            PeerMsg::HandShake(p, ih, pid) => {
                let pb = p.as_str().as_bytes();
                out.push(pb.len() as u8);
                extend_from(&mut out, pb);
                out.push(0);
                out.push(0);
                out.push(0);
                out.push(0);
                out.push(0);
                out.push(0);
                out.push(0);
                out.push(0);
                extend_from(&mut out, ih.as_slice());
                extend_from(&mut out, pid.as_slice());
                proof {
                    assert(out@ =~= msg_bytes(self@));
                }
            },
            PeerMsg::KeepAlive => {
                write_u32_be(&mut out, 0);
            },
            PeerMsg::Choke => {
                write_u32_be(&mut out, 1);
                out.push(0);
                proof {
                    assert(out@ =~= msg_bytes(self@));
                }
            },
            PeerMsg::Unchoke => {
                write_u32_be(&mut out, 1);
                out.push(1);
                proof {
                    assert(out@ =~= msg_bytes(self@));
                }
            },
            PeerMsg::Interested => {
                write_u32_be(&mut out, 1);
                out.push(2);
                proof {
                    assert(out@ =~= msg_bytes(self@));
                }
            },
            PeerMsg::NotInterested => {
                write_u32_be(&mut out, 1);
                out.push(3);
                proof {
                    assert(out@ =~= msg_bytes(self@));
                }
            },
            PeerMsg::Have(i) => {
                write_u32_be(&mut out, 5);
                out.push(4);
                write_u32_be(&mut out, *i);
                proof {
                    assert(out@ =~= msg_bytes(self@));
                }
            },
            PeerMsg::Bitfield(bv) => {
                let payload = bitvec_to_bytes(bv);
                proof {
                    let bits = bits_of(bv);
                    let pad = pad_to_byte(bits);
                    assert(pad.len() == bits.len() + (8 - bits.len() % 8) % 8);
                    assert(payload@.len() == pad.len() / 8);
                    assert(pad.len() / 8 <= bits.len() / 8 + 1) by (nonlinear_arith)
                        requires
                            pad.len() == bits.len() + (8 - bits.len() % 8) % 8,
                    ;
                }
                write_u32_be(&mut out, payload.len() as u32 + 1);
                out.push(5);
                extend_from(&mut out, payload.as_slice());
                proof {
                    assert(out@ =~= msg_bytes(self@));
                }
            },
            PeerMsg::Request(i, b, l) => {
                write_u32_be(&mut out, 13);
                out.push(6);
                write_u32_be(&mut out, *i);
                write_u32_be(&mut out, *b);
                write_u32_be(&mut out, *l);
                proof {
                    assert(out@ =~= msg_bytes(self@));
                }
            },
            PeerMsg::Piece(i, b, blk) => {
                write_u32_be(&mut out, 9 + blk.len() as u32);
                out.push(7);
                write_u32_be(&mut out, *i);
                write_u32_be(&mut out, *b);
                extend_from(&mut out, blk.as_slice());
                proof {
                    assert(out@ =~= msg_bytes(self@));
                }
            },
            PeerMsg::Cancel(i, b, l) => {
                write_u32_be(&mut out, 13);
                out.push(8);
                write_u32_be(&mut out, *i);
                write_u32_be(&mut out, *b);
                write_u32_be(&mut out, *l);
                proof {
                    assert(out@ =~= msg_bytes(self@));
                }
            },
            PeerMsg::Port(p) => {
                write_u32_be(&mut out, 3);
                out.push(9);
                out.push(((*p / 0x100) % 0x100) as u8);
                out.push((*p % 0x100) as u8);
                proof {
                    assert(out@ =~= msg_bytes(self@));
                }
            },
        }
        out
    }
}

/// Appends a byte slice.
fn extend_from(out: &mut Vec<u8>, s: &[u8])
    ensures
        final(out)@ == old(out)@ + s@,
{
    let mut i: usize = 0;
    while i < s.len()
        invariant
            i <= s@.len(),
            out@ == old(out)@ + s@.take(i as int),
        decreases s@.len() - i,
    {
        out.push(*slice_index_get(s, i));
        i += 1;
        proof {
            assert(s@.take(i as int) =~= s@.take(i - 1).push(s@[i - 1]));
            assert(out@ =~= old(out)@ + s@.take(i as int));
        }
    }
    proof {
        assert(s@.take(s@.len() as int) =~= s@);
    }
}

/// Parses the 68-byte handshake: accepted exactly when the first twenty
/// bytes are `<19>"BitTorrent protocol"`.
pub fn parse_handshake(bytes: &[u8]) -> (r: Result<(PeerMsg, usize), MsgParseError>)
    ensures
        match r {
            Ok(p) => handshake_parse(bytes@) == MsgOutcome::Msg(p.0@, p.1 as int) && p.1
                <= bytes@.len(),
            Err(e) => handshake_parse(bytes@) == (if e is TooShort {
                MsgOutcome::Incomplete
            } else {
                MsgOutcome::Invalid
            }),
        },
{
    let len = bytes.len();
    if len < 68 {
        return Err(MsgParseError::TooShort);
    }
    if *slice_index_get(bytes, 0) != 19 {
        return Err(MsgParseError::Malformed(
            "expected handshake to have protocol id of 19 bytes",
        ));
    }
    let expected = expected_protocol_bytes();
    let mut i: usize = 0;
    while i < 19
        invariant
            i <= 19,
            len == bytes@.len(),
            len >= 68,
            expected@ == pstr(),
            forall|j: int| 0 <= j < i ==> bytes@[1 + j] == pstr()[j],
        decreases 19 - i,
    {
        if *slice_index_get(bytes, 1 + i) != expected[i] {
            proof {
                assert(bytes@.subrange(1, 20)[i as int] == bytes@[1 + i]);
                assert(bytes@.subrange(1, 20) != pstr());
            }
            return Err(MsgParseError::UnknownProtocol);
        }
        i += 1;
    }
    proof {
        assert(bytes@.subrange(1, 20) =~= pstr());
    }
    let proto_vec = slice_to_vec(slice_subrange(bytes, 1, 20));
    let proto = match crate::text::string_from_utf8(proto_vec) {
        Some(s) => s,
        None => {
            proof {
                lemma_pstr_is_utf8();
            }
            return Err(MsgParseError::UnknownProtocol);
        },
    };
    let info_hash = slice_to_vec(slice_subrange(bytes, 28, 48));
    let peer_id = slice_to_vec(slice_subrange(bytes, 48, 68));
    Ok((PeerMsg::HandShake(proto, info_hash, peer_id), 68))
}

/// The fixed protocol identifier as bytes.
fn expected_protocol_bytes() -> (r: Vec<u8>)
    ensures
        r@ == pstr(),
{
    let r: Vec<u8> = vec![
        66u8, 105, 116, 84, 111, 114, 114, 101, 110, 116, 32, 112, 114, 111, 116, 111, 99, 111,
        108,
    ];
    proof {
        assert(r@ =~= pstr());
    }
    r
}

/// The protocol identifier literal encodes to exactly the fixed bytes.
pub proof fn lemma_protocol_id()
    ensures
        vstd::utf8::encode_utf8("BitTorrent protocol"@) == pstr(),
        vstd::utf8::encode_utf8("BitTorrent protocol"@).len() == 19,
{
    reveal_strlit("BitTorrent protocol");
    let chars = "BitTorrent protocol"@;
    assert(chars =~= seq![
        'B', 'i', 't', 'T', 'o', 'r', 'r', 'e', 'n', 't', ' ', 'p', 'r', 'o', 't', 'o', 'c', 'o',
        'l',
    ]);
    lemma_ascii_chars_encode(chars);
    assert(66u32 & 0x7F == 66 && 105u32 & 0x7F == 105 && 116u32 & 0x7F == 116 && 84u32 & 0x7F
        == 84 && 111u32 & 0x7F == 111 && 114u32 & 0x7F == 114 && 101u32 & 0x7F == 101 && 110u32
        & 0x7F == 110 && 32u32 & 0x7F == 32 && 112u32 & 0x7F == 112 && 99u32 & 0x7F == 99
        && 108u32 & 0x7F == 108) by (bit_vector);
    assert(vstd::utf8::encode_utf8(chars) =~= pstr());
}

/// The fixed protocol identifier is valid UTF-8 (it is plain ASCII).
proof fn lemma_pstr_is_utf8()
    ensures
        vstd::utf8::valid_utf8(pstr()),
{
    let chars = seq![
        'B', 'i', 't', 'T', 'o', 'r', 'r', 'e', 'n', 't', ' ', 'p', 'r', 'o', 't', 'o', 'c', 'o',
        'l',
    ];
    lemma_ascii_chars_encode(chars);
    assert(66u32 & 0x7F == 66 && 105u32 & 0x7F == 105 && 116u32 & 0x7F == 116 && 84u32 & 0x7F
        == 84 && 111u32 & 0x7F == 111 && 114u32 & 0x7F == 114 && 101u32 & 0x7F == 101 && 110u32
        & 0x7F == 110 && 32u32 & 0x7F == 32 && 112u32 & 0x7F == 112 && 99u32 & 0x7F == 99
        && 108u32 & 0x7F == 108) by (bit_vector);
    assert(vstd::utf8::encode_utf8(chars) =~= pstr());
    vstd::utf8::encode_utf8_valid_utf8(chars);
}

/// The UTF-8 encoding of ASCII characters is one leading byte per
/// character.
proof fn lemma_ascii_chars_encode(chars: Seq<char>)
    requires
        forall|i: int| #![trigger chars[i]] 0 <= i < chars.len() ==> (chars[i] as u32) < 0x80,
    ensures
        vstd::utf8::encode_utf8(chars).len() == chars.len(),
        forall|i: int|
            #![trigger chars[i]]
            0 <= i < chars.len() ==> vstd::utf8::encode_utf8(chars)[i]
                == vstd::utf8::leading_byte_width_1(chars[i] as u32),
    decreases chars.len(),
{
    if chars.len() > 0 {
        let c: u32 = chars[0] as u32;
        assert(c < 0x80);
        assert(vstd::utf8::has_width_1_encoding(c));
        assert(vstd::utf8::encode_scalar(c) =~= seq![vstd::utf8::leading_byte_width_1(c)]);
        assert(vstd::utf8::encode_utf8(chars) == vstd::utf8::encode_scalar(c)
            + vstd::utf8::encode_utf8(chars.drop_first()));
        assert forall|i: int|
            #![trigger chars.drop_first()[i]]
            0 <= i < chars.drop_first().len() implies (chars.drop_first()[i] as u32) < 0x80 by {
            assert(chars.drop_first()[i] == chars[i + 1]);
        }
        lemma_ascii_chars_encode(chars.drop_first());
        assert forall|i: int|
            #![trigger chars[i]]
            0 <= i < chars.len() implies vstd::utf8::encode_utf8(chars)[i]
                == vstd::utf8::leading_byte_width_1(chars[i] as u32) by {
            if i > 0 {
                assert(chars.drop_first()[i - 1] == chars[i]);
            }
        }
    }
}

/// Parses one frame: the length prefix, then the id and its payload.  When
/// fewer bytes are available than the frame needs, `TooShort` asks for
/// more without consuming anything; the other errors reject the stream.
pub fn parse_peermsg(bytes: &[u8]) -> (r: Result<(PeerMsg, usize), MsgParseError>)
    ensures
        match r {
            Ok(p) => msg_parse(bytes@) == MsgOutcome::Msg(p.0@, p.1 as int) && p.1
                <= bytes@.len(),
            Err(e) => msg_parse(bytes@) == (if e is TooShort {
                MsgOutcome::Incomplete
            } else {
                MsgOutcome::Invalid
            }),
        },
{
    let len = bytes.len();
    if len < 4 {
        return Err(MsgParseError::TooShort);
    }
    let flen32 = read_u32_be(bytes, 0);
    if flen32 == 0 {
        return Ok((PeerMsg::KeepAlive, 4));
    }
    if flen32 == HANDSHAKE_MAGIC {
        return parse_handshake(bytes);
    }
    if flen32 > MAX_FRAME_LEN {
        return Err(MsgParseError::Malformed("length prefix exceeds the frame cap"));
    }
    let flen = flen32 as usize;
    if len < 5 {
        return Err(MsgParseError::TooShort);
    }
    let id = *slice_index_get(bytes, 4);
    // reject a length the id cannot carry before waiting for the payload
    let shape_ok = match id {
        0 | 1 | 2 | 3 => flen == 1,
        4 => flen == 5,
        5 => true,
        6 | 8 => flen == 13,
        7 => flen >= 9 && flen - 9 <= MAX_BLOCK_LEN as usize,
        9 => flen == 3,
        _ => false,
    };
    if !shape_ok {
        if id > 9 {
            return Err(MsgParseError::InvalidId);
        }
        if id == 7 {
            return Err(MsgParseError::Malformed("piece block exceeds the block cap"));
        }
        return Err(MsgParseError::TooShortForId);
    }
    if 4 + flen > len {
        return Err(MsgParseError::TooShort);
    }
    match id {
        0 => Ok((PeerMsg::Choke, 5)),
        1 => Ok((PeerMsg::Unchoke, 5)),
        2 => Ok((PeerMsg::Interested, 5)),
        3 => Ok((PeerMsg::NotInterested, 5)),
        4 => Ok((PeerMsg::Have(read_u32_be(bytes, 5)), 9)),
        5 => {
            let payload = slice_subrange(bytes, 5, 4 + flen);
            Ok((PeerMsg::Bitfield(bitvec_from_bytes(payload)), 4 + flen))
        },
        6 => Ok((
            PeerMsg::Request(
                read_u32_be(bytes, 5),
                read_u32_be(bytes, 9),
                read_u32_be(bytes, 13),
            ),
            17,
        )),
        7 => {
            let block = slice_to_vec(slice_subrange(bytes, 13, 4 + flen));
            Ok((PeerMsg::Piece(read_u32_be(bytes, 5), read_u32_be(bytes, 9), block), 4 + flen))
        },
        8 => Ok((
            PeerMsg::Cancel(
                read_u32_be(bytes, 5),
                read_u32_be(bytes, 9),
                read_u32_be(bytes, 13),
            ),
            17,
        )),
        _ => {
            let hi = *slice_index_get(bytes, 5);
            let lo = *slice_index_get(bytes, 6);
            Ok((PeerMsg::Port((hi as u32) * 0x100 + (lo as u32)), 7))
        },
    }
}

// ---------------------------------------------------------------------------
// The wire round trip
// ---------------------------------------------------------------------------

/// Decoding the wire bytes of any well-formed message, with anything after
/// them, yields exactly that message and consumes exactly its bytes.
#[verifier::rlimit(100)]
pub proof fn lemma_msg_round_trip(m: PeerMsgView, rest: Seq<u8>)
    requires
        msg_wf(m),
    ensures
        msg_parse(msg_bytes(m) + rest) == MsgOutcome::Msg(m, msg_bytes(m).len() as int),
{
    let enc = msg_bytes(m);
    let b = enc + rest;
    match m {
        PeerMsgView::HandShake(p, ih, pid) => {
            assert(p == pstr());
            assert(p.len() == 19);
            assert(enc.len() == 68);
            assert(b[0] == 19 && b[1] == 66 && b[2] == 105 && b[3] == 116);
            assert(be32_val(19, 66, 105, 116) == HANDSHAKE_MAGIC);
            assert(b.subrange(1, 20) =~= pstr());
            assert(b.subrange(28, 48) =~= ih);
            assert(b.subrange(48, 68) =~= pid);
        },
        PeerMsgView::KeepAlive => {
            lemma_be32_round(0);
            assert(b[0] == be32(0)[0] && b[1] == be32(0)[1] && b[2] == be32(0)[2] && b[3] == be32(
                0,
            )[3]);
        },
        PeerMsgView::Choke => {
            lemma_frame_round(b, 1, 0, enc.len() as int);
        },
        PeerMsgView::Unchoke => {
            lemma_frame_round(b, 1, 1, enc.len() as int);
        },
        PeerMsgView::Interested => {
            lemma_frame_round(b, 1, 2, enc.len() as int);
        },
        PeerMsgView::NotInterested => {
            lemma_frame_round(b, 1, 3, enc.len() as int);
        },
        PeerMsgView::Have(i) => {
            lemma_frame_round(b, 5, 4, enc.len() as int);
            lemma_be32_round(i);
            assert(b[5] == be32(i)[0] && b[6] == be32(i)[1] && b[7] == be32(i)[2] && b[8] == be32(
                i,
            )[3]);
        },
        PeerMsgView::Bitfield(bits) => {
            let payload = bits_to_bytes(pad_to_byte(bits));
            assert(pad_to_byte(bits) =~= bits);
            assert(payload.len() == bits.len() / 8);
            lemma_frame_round(b, (payload.len() + 1) as u32, 5, enc.len() as int);
            assert(b.subrange(5, 4 + (payload.len() + 1) as int) =~= payload);
            lemma_bits_bytes_round_trip(bits);
        },
        PeerMsgView::Request(i, bg, l) => {
            lemma_frame_round(b, 13, 6, enc.len() as int);
            lemma_be32_round(i);
            lemma_be32_round(bg);
            lemma_be32_round(l);
            assert(b[5] == be32(i)[0] && b[6] == be32(i)[1] && b[7] == be32(i)[2] && b[8] == be32(
                i,
            )[3]);
            assert(b[9] == be32(bg)[0] && b[10] == be32(bg)[1] && b[11] == be32(bg)[2] && b[12]
                == be32(bg)[3]);
            assert(b[13] == be32(l)[0] && b[14] == be32(l)[1] && b[15] == be32(l)[2] && b[16]
                == be32(l)[3]);
        },
        PeerMsgView::Piece(i, bg, blk) => {
            lemma_frame_round(b, (9 + blk.len()) as u32, 7, enc.len() as int);
            lemma_be32_round(i);
            lemma_be32_round(bg);
            assert(b[5] == be32(i)[0] && b[6] == be32(i)[1] && b[7] == be32(i)[2] && b[8] == be32(
                i,
            )[3]);
            assert(b[9] == be32(bg)[0] && b[10] == be32(bg)[1] && b[11] == be32(bg)[2] && b[12]
                == be32(bg)[3]);
            assert(b.subrange(13, 4 + (9 + blk.len()) as int) =~= blk);
        },
        PeerMsgView::Cancel(i, bg, l) => {
            lemma_frame_round(b, 13, 8, enc.len() as int);
            lemma_be32_round(i);
            lemma_be32_round(bg);
            lemma_be32_round(l);
            assert(b[5] == be32(i)[0] && b[6] == be32(i)[1] && b[7] == be32(i)[2] && b[8] == be32(
                i,
            )[3]);
            assert(b[9] == be32(bg)[0] && b[10] == be32(bg)[1] && b[11] == be32(bg)[2] && b[12]
                == be32(bg)[3]);
            assert(b[13] == be32(l)[0] && b[14] == be32(l)[1] && b[15] == be32(l)[2] && b[16]
                == be32(l)[3]);
        },
        PeerMsgView::Port(p) => {
            lemma_frame_round(b, 3, 9, enc.len() as int);
            assert(b[5] == ((p / 0x100) % 0x100) as u8 && b[6] == (p % 0x100) as u8);
            assert((((p / 0x100) % 0x100) as u8 as int) * 0x100 + ((p % 0x100) as u8 as int)
                == p) by (nonlinear_arith)
                requires
                    p < 0x10000,
            ;
        },
    }
}

/// The length prefix and id byte of a non-handshake frame read back as
/// written.
proof fn lemma_frame_round(b: Seq<u8>, flen: u32, id: u8, enc_len: int)
    requires
        1 <= flen <= MAX_FRAME_LEN,
        enc_len == 4 + flen,
        b.len() >= enc_len,
        b[0] == be32(flen)[0] && b[1] == be32(flen)[1] && b[2] == be32(flen)[2] && b[3] == be32(
            flen,
        )[3],
        b[4] == id,
    ensures
        be32_val(b[0], b[1], b[2], b[3]) == flen,
        flen != HANDSHAKE_MAGIC,
        4 + flen <= b.len(),
{
    lemma_be32_round(flen);
}

/// A 68-byte prefix whose first twenty bytes are `<19>"BitTorrent
/// protocol"` is accepted whatever follows; any other first byte is
/// rejected outright once 68 bytes are there.
pub proof fn lemma_handshake_acceptance(bytes: Seq<u8>)
    ensures
        (bytes.len() >= 68 && bytes[0] == 19 && bytes.subrange(1, 20) == pstr())
            ==> handshake_parse(bytes) == MsgOutcome::Msg(
            PeerMsgView::HandShake(pstr(), bytes.subrange(28, 48), bytes.subrange(48, 68)),
            68,
        ),
        (bytes.len() >= 68 && bytes[0] != 19) ==> handshake_parse(bytes) is Invalid,
        bytes.len() < 68 ==> handshake_parse(bytes) is Incomplete,
{
}

} // verus!
