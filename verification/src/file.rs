//! The piece store: a piece-indexed blob accumulator with per-piece SHA-1
//! verification, and the bitfield that tracks what a remote peer claims.

use vstd::prelude::*;

use crate::bits::{bits_of, bitvec_from_elem, bitvec_get, bitvec_len, bitvec_set};
use crate::hashing::{sha1_digest, sha1_of};
use crate::metainfo::{file_info_wf, spec_piece_len, spec_total_length, FileInfo, SHA1Hash20b};
use vstd::slice::{slice_index_get, slice_subrange, slice_to_vec};

verus! {

/// One piece of the content: the bytes received so far, the length and
/// digest the metainfo promised, and a cached completion flag.
pub struct Piece {
    pub data: Vec<u8>,
    pub length: u32,
    pub hash: SHA1Hash20b,
    pub definitely_complete: bool,
}

/// A piece is complete exactly when its bytes fill its declared length and
/// hash to the expected digest.
pub open spec fn piece_done(data: Seq<u8>, length: int, hash: Seq<u8>) -> bool {
    data.len() == length && sha1_of(data) == hash
}

/// The cached flag never claims more than the data shows, and the data
/// never runs past the declared length.
pub open spec fn piece_wf(p: Piece) -> bool {
    &&& p.definitely_complete ==> piece_done(p.data@, p.length as int, p.hash@)
    &&& p.data@.len() <= p.length
}

/// The bytes after writing `block` at `offset`, zero-extending as needed.
pub open spec fn write_at(data: Seq<u8>, offset: int, block: Seq<u8>) -> Seq<u8> {
    let new_len = if data.len() >= offset + block.len() {
        data.len() as int
    } else {
        offset + block.len()
    };
    Seq::new(
        new_len as nat,
        |i: int|
            if offset <= i < offset + block.len() {
                block[i - offset]
            } else if i < data.len() {
                data[i]
            } else {
                0u8
            },
    )
}

impl Piece {
    pub fn new(length: u32, hash: SHA1Hash20b) -> (r: Piece)
        ensures
            r.data@.len() == 0,
            r.length == length,
            r.hash@ == hash@,
            !r.definitely_complete,
            piece_wf(r),
    {
        Piece { data: Vec::new(), length, hash, definitely_complete: false }
    }

    /// Whether the piece's bytes now hash to the expected digest at full
    /// length.  The result is cached once it turns true.
    pub fn is_complete(&mut self) -> (r: bool)
        requires
            piece_wf(*old(self)),
        ensures
            r == piece_done(old(self).data@, old(self).length as int, old(self).hash@),
            final(self).data@ == old(self).data@,
            final(self).length == old(self).length,
            final(self).hash@ == old(self).hash@,
            piece_wf(*final(self)),
    {
        if self.definitely_complete {
            return true;
        }
        if self.data.len() != self.length as usize {
            return false;
        }
        let digest = sha1_digest(self.data.as_slice());
        let complete = crate::bencode::decode::byte_seq_cmp(
            digest.as_slice(),
            self.hash.as_slice(),
        ) == 0;
        if complete {
            self.definitely_complete = true;
        }
        complete
    }

    /// Writes `block` at `offset`, zero-extending the buffer, iff the range
    /// fits the declared length and the piece is not already complete.
    pub fn add(&mut self, offset: usize, block: &[u8]) -> (r: bool)
        requires
            piece_wf(*old(self)),
        ensures
            r == (offset + block@.len() <= old(self).length && !piece_done(
                old(self).data@,
                old(self).length as int,
                old(self).hash@,
            )),
            r ==> final(self).data@ == write_at(old(self).data@, offset as int, block@),
            !r ==> final(self).data@ == old(self).data@,
            final(self).length == old(self).length,
            final(self).hash@ == old(self).hash@,
            piece_wf(*final(self)),
    {
        if block.len() > self.length as usize || offset > self.length as usize - block.len() {
            return false;
        }
        if self.is_complete() {
            return false;
        }
        let needed = offset + block.len();
        let ghost old_data = self.data@;
        if self.data.len() < needed {
            self.data.resize(needed, 0);
            proof {
                assert(self.data@ =~= old_data + Seq::new(
                    (needed - old_data.len()) as nat,
                    |i: int| 0u8,
                ));
            }
        }
        proof {
            assert(!self.definitely_complete);
        }
        let mut i: usize = 0;
        #[verifier::loop_isolation(false)]
        while i < block.len()
            invariant
                i <= block@.len(),
                offset + block@.len() <= self.data@.len(),
                self.data@.len() == write_at(old_data, offset as int, block@).len(),
                forall|j: int|
                    0 <= j < self.data@.len() && !(offset <= j < offset + i)
                        ==> self.data@[j] == (if j < old_data.len() {
                        old_data[j]
                    } else {
                        0u8
                    }),
                forall|j: int| offset <= j < offset + i ==> self.data@[j] == block@[j - offset],
                !self.definitely_complete,
                self.length == old(self).length,
                self.hash@ == old(self).hash@,
            decreases block@.len() - i,
        {
            let b = *slice_index_get(block, i);
            self.data[offset + i] = b;
            i += 1;
        }
        proof {
            assert(self.data@ =~= write_at(old_data, offset as int, block@));
        }
        true
    }

    /// The `length` bytes at `begin`, available only once the piece is
    /// complete.
    pub fn get_offset(&mut self, begin: usize, length: usize) -> (r: Option<&[u8]>)
        requires
            piece_wf(*old(self)),
        ensures
            final(self).data@ == old(self).data@,
            final(self).length == old(self).length,
            final(self).hash@ == old(self).hash@,
            piece_wf(*final(self)),
            (r is Some) == (begin + length <= old(self).data@.len() && piece_done(
                old(self).data@,
                old(self).length as int,
                old(self).hash@,
            )),
            r matches Some(s) ==> s@ == old(self).data@.subrange(
                begin as int,
                begin + length,
            ),
    {
        if length > self.data.len() || begin > self.data.len() - length {
            return None;
        }
        if !self.is_complete() {
            return None;
        }
        Some(slice_subrange(self.data.as_slice(), begin, begin + length))
    }
}

/// The pieces of one torrent, each at most `piece_size` bytes.
pub struct PieceCollection {
    pub pieces: Vec<Piece>,
    pub piece_size: u64,
}

pub open spec fn collection_wf(c: PieceCollection) -> bool {
    forall|i: int| 0 <= i < c.pieces@.len() ==> piece_wf(#[trigger] c.pieces@[i])
}

impl PieceCollection {
    /// One piece per digest, each expecting `size` bytes.
    pub fn new(pieces: &Vec<SHA1Hash20b>, size: u64) -> (r: PieceCollection)
        requires
            size <= u32::MAX,
        ensures
            r.pieces@.len() == pieces@.len(),
            forall|i: int|
                0 <= i < pieces@.len() ==> (#[trigger] r.pieces@[i]).hash@ == pieces@[i]@
                    && r.pieces@[i].length == size && r.pieces@[i].data@.len() == 0,
            r.piece_size == size,
            collection_wf(r),
    {
        let mut vec: Vec<Piece> = Vec::new();
        let mut i: usize = 0;
        while i < pieces.len()
            invariant
                i == vec@.len() <= pieces@.len(),
                size <= u32::MAX,
                forall|j: int|
                    0 <= j < i ==> (#[trigger] vec@[j]).hash@ == pieces@[j]@ && vec@[j].length
                        == size && vec@[j].data@.len() == 0 && !vec@[j].definitely_complete,
            decreases pieces@.len() - i,
        {
            vec.push(Piece::new(size as u32, slice_to_vec(pieces[i].as_slice())));
            i += 1;
        }
        proof {
            assert forall|i2: int| 0 <= i2 < vec@.len() implies piece_wf(#[trigger] vec@[i2]) by {
                assert(!vec@[i2].definitely_complete && vec@[i2].data@.len() == 0);
            }
        }
        PieceCollection { pieces: vec, piece_size: size }
    }

    /// Hands `block` to piece `index`; accepted iff the index is in range,
    /// the range fits that piece, and the piece is not yet complete.
    pub fn add(&mut self, index: usize, offset: usize, block: Vec<u8>) -> (r: bool)
        requires
            collection_wf(*old(self)),
        ensures
            collection_wf(*final(self)),
            final(self).pieces@.len() == old(self).pieces@.len(),
            final(self).piece_size == old(self).piece_size,
            r == (index < old(self).pieces@.len() && offset + block@.len() <= old(self).pieces@[index as int].length && !piece_done(
                old(self).pieces@[index as int].data@,
                old(self).pieces@[index as int].length as int,
                old(self).pieces@[index as int].hash@,
            )),
            r ==> final(self).pieces@[index as int].data@ == write_at(
                old(self).pieces@[index as int].data@,
                offset as int,
                block@,
            ),
            forall|i: int|
                0 <= i < old(self).pieces@.len() && i != index
                    ==> final(self).pieces@[i] == old(self).pieces@[i],
            index < old(self).pieces@.len() ==> final(self).pieces@[index as int].length == old(self).pieces@[index as int].length && final(self).pieces@[index as int].hash@ == old(self).pieces@[index as int].hash@,
            !r ==> forall|i: int|
                0 <= i < old(self).pieces@.len() ==> (#[trigger] final(self).pieces@[i]).data@
                    == old(self).pieces@[i].data@,
    {
        if index >= self.pieces.len() {
            return false;
        }
        let ghost old_pieces = self.pieces@;
        let piece = &mut self.pieces[index];
        let accepted = piece.add(offset, block.as_slice());
        proof {
            assert(forall|i: int|
                0 <= i < old_pieces.len() && i != index ==> final(self).pieces@[i] == old_pieces[
                    i]);
        }
        accepted
    }
}

/// The local, partially downloaded content.
pub struct PartialFile {
    pub collection: PieceCollection,
    pub piece_count: usize,
    pub piece_length: u64,
}

/// Every piece is well formed and sized as the metainfo prescribed: all of
/// `piece_length` except a shorter tail.
pub open spec fn partial_file_wf(pf: PartialFile) -> bool {
    &&& collection_wf(pf.collection)
    &&& pf.collection.pieces@.len() == pf.piece_count
    &&& forall|i: int|
        0 <= i < pf.piece_count ==> (#[trigger] pf.collection.pieces@[i]).length
            <= pf.piece_length
}

/// Whether piece `i` of the store is complete.
pub open spec fn spec_has_piece(pf: PartialFile, i: int) -> bool {
    piece_done(
        pf.collection.pieces@[i].data@,
        pf.collection.pieces@[i].length as int,
        pf.collection.pieces@[i].hash@,
    )
}

impl PartialFile {
    /// A fresh store shaped by the metainfo: one piece per digest, the
    /// last one shortened to the tail length.
    pub fn new(info: &FileInfo) -> (r: PartialFile)
        requires
            file_info_wf(*info),
            spec_total_length(info.mode_info) <= u64::MAX,
        ensures
            partial_file_wf(r),
            r.piece_count == info.pieces@.len(),
            r.piece_length == info.piece_length,
            forall|i: int|
                0 <= i < r.piece_count ==> (#[trigger] r.collection.pieces@[i]).hash@
                    == info.pieces@[i]@ && r.collection.pieces@[i].length == spec_piece_len(
                    *info,
                    i,
                ) && r.collection.pieces@[i].data@.len() == 0,
    {
        let n = info.pieces.len();
        let total = info.total_length();
        let mut vec: Vec<Piece> = Vec::new();
        let mut i: usize = 0;
        proof {
            lemma_tail_bounds(*info);
        }
        #[verifier::loop_isolation(false)]
        while i < n
            invariant
                i == vec@.len() <= n,
                forall|j: int|
                    0 <= j < i ==> (#[trigger] vec@[j]).hash@ == info.pieces@[j]@ && vec@[j].length
                        == spec_piece_len(*info, j) && vec@[j].data@.len() == 0
                        && !vec@[j].definitely_complete,
            decreases n - i,
        {
            let len: u64 = if i + 1 < n {
                info.piece_length
            } else {
                total - (n as u64 - 1) * info.piece_length
            };
            proof {
                if i + 1 >= n {
                    assert((n - 1) * info.piece_length == (n as u64 - 1) as int
                        * info.piece_length);
                }
            }
            vec.push(Piece::new(len as u32, slice_to_vec(info.pieces[i].as_slice())));
            i += 1;
        }
        let collection = PieceCollection { pieces: vec, piece_size: info.piece_length };
        proof {
            assert forall|i2: int| 0 <= i2 < collection.pieces@.len() implies piece_wf(
                #[trigger] collection.pieces@[i2],
            ) by {
                assert(!collection.pieces@[i2].definitely_complete
                    && collection.pieces@[i2].data@.len() == 0);
            }
            assert forall|i2: int| 0 <= i2 < n implies (
            #[trigger] collection.pieces@[i2]).length <= info.piece_length by {
                lemma_tail_bounds(*info);
            }
        }
        PartialFile { collection, piece_count: n, piece_length: info.piece_length }
    }

    /// Whether piece `i` is complete: its bytes fill the expected length
    /// and hash to the expected digest.
    pub fn has_piece(&self, i: usize) -> (r: bool)
        requires
            i < self.piece_count,
            partial_file_wf(*self),
        ensures
            r == spec_has_piece(*self, i as int),
    {
        let piece = &self.collection.pieces[i];
        if piece.data.len() != piece.length as usize {
            return false;
        }
        let digest = sha1_digest(piece.data.as_slice());
        crate::bencode::decode::byte_seq_cmp(digest.as_slice(), piece.hash.as_slice()) == 0
    }

    /// Whether every piece is complete.
    pub fn is_complete(&self) -> (r: bool)
        requires
            partial_file_wf(*self),
        ensures
            r == forall|i: int| 0 <= i < self.piece_count ==> spec_has_piece(*self, i),
    {
        let mut i: usize = 0;
        #[verifier::loop_isolation(false)]
        while i < self.piece_count
            invariant
                i <= self.piece_count,
                forall|j: int| 0 <= j < i ==> spec_has_piece(*self, j),
            decreases self.piece_count - i,
        {
            if !self.has_piece(i) {
                return false;
            }
            i += 1;
        }
        true
    }

    /// The completion flag of every piece, in order.
    pub fn bit_array(&self) -> (r: Vec<bool>)
        requires
            partial_file_wf(*self),
        ensures
            r@.len() == self.piece_count,
            forall|i: int| 0 <= i < self.piece_count ==> r@[i] == spec_has_piece(*self, i),
    {
        let mut bits: Vec<bool> = Vec::new();
        let mut i: usize = 0;
        #[verifier::loop_isolation(false)]
        while i < self.piece_count
            invariant
                i == bits@.len() <= self.piece_count,
                forall|j: int| 0 <= j < i ==> bits@[j] == spec_has_piece(*self, j),
            decreases self.piece_count - i,
        {
            let b = self.has_piece(i);
            bits.push(b);
            i += 1;
        }
        bits
    }

    /// The completion flags as a bit vector.
    pub fn bitfield(&self) -> (r: bit_vec::BitVec)
        requires
            partial_file_wf(*self),
        ensures
            bits_of(&r).len() == self.piece_count,
            forall|i: int|
                0 <= i < self.piece_count ==> bits_of(&r)[i] == spec_has_piece(*self, i),
    {
        let mut bv = bitvec_from_elem(self.piece_count, false);
        let mut i: usize = 0;
        #[verifier::loop_isolation(false)]
        while i < self.piece_count
            invariant
                i <= self.piece_count,
                bits_of(&bv).len() == self.piece_count,
                forall|j: int| 0 <= j < i ==> bits_of(&bv)[j] == spec_has_piece(*self, j),
            decreases self.piece_count - i,
        {
            let b = self.has_piece(i);
            bitvec_set(&mut bv, i, b);
            i += 1;
        }
        bv
    }

    pub fn get_piece(&self, i: usize) -> (r: &Piece)
        requires
            i < self.piece_count,
            partial_file_wf(*self),
        ensures
            *r == self.collection.pieces@[i as int],
    {
        &self.collection.pieces[i]
    }

    /// The `length` bytes of piece `i` starting at `begin`, available only
    /// once the piece is complete.
    pub fn read(&self, i: usize, begin: usize, length: usize) -> (r: Option<Vec<u8>>)
        requires
            i < self.piece_count,
            partial_file_wf(*self),
        ensures
            (r is Some) == (begin + length <= self.collection.pieces@[i as int].data@.len()
                && spec_has_piece(*self, i as int)),
            r matches Some(v) ==> v@ == self.collection.pieces@[i as int].data@.subrange(
                begin as int,
                begin + length,
            ),
    {
        let piece = &self.collection.pieces[i];
        if length > piece.data.len() || begin > piece.data.len() - length {
            return None;
        }
        if !self.has_piece(i) {
            return None;
        }
        Some(slice_to_vec(slice_subrange(piece.data.as_slice(), begin, begin + length)))
    }

    /// Hands `block` to piece `index`.
    pub fn add_piece(&mut self, index: usize, offset: usize, block: Vec<u8>) -> (r: bool)
        requires
            partial_file_wf(*old(self)),
        ensures
            partial_file_wf(*final(self)),
            final(self).piece_count == old(self).piece_count,
            final(self).piece_length == old(self).piece_length,
            r == (index < old(self).piece_count && offset + block@.len() <= old(self).collection.pieces@[index as int].length && !spec_has_piece(
                *old(self),
                index as int,
            )),
            r ==> final(self).collection.pieces@[index as int].data@ == write_at(
                old(self).collection.pieces@[index as int].data@,
                offset as int,
                block@,
            ),
            forall|i: int|
                0 <= i < old(self).piece_count && i != index
                    ==> final(self).collection.pieces@[i] == old(self).collection.pieces@[i],
            index < old(self).piece_count ==> final(self).collection.pieces@[index as int].hash@ == old(self).collection.pieces@[index as int].hash@ && final(self).collection.pieces@[index as int].length == old(self).collection.pieces@[index as int].length,
            !r ==> forall|i: int|
                0 <= i < old(self).piece_count ==> (#[trigger] final(self).collection.pieces@[i]).data@ == old(self).collection.pieces@[i].data@,
    {
        let ghost old_pieces = self.collection.pieces@;
        let r = self.collection.add(index, offset, block);
        r
    }

    /// How many pieces the torrent has.
    pub fn piece_count(&self) -> (r: usize)
        ensures
            r == self.piece_count,
    {
        self.piece_count
    }

    /// The nominal piece length.
    pub fn piece_length(&self) -> (r: u64)
        ensures
            r == self.piece_length,
    {
        self.piece_length
    }
}

proof fn lemma_tail_bounds(info: FileInfo)
    requires
        file_info_wf(info),
    ensures
        0 < spec_total_length(info.mode_info) - (info.pieces@.len() - 1) * info.piece_length
            <= info.piece_length,
{
    let n = info.pieces@.len() as int;
    let pl = info.piece_length as int;
    let total = spec_total_length(info.mode_info);
    assert(n * pl == (n - 1) * pl + pl) by (nonlinear_arith);
}

/// The bitfield a remote peer claims: which pieces it says it has.
pub struct PeerFile {
    pub pieces: bit_vec::BitVec,
}

impl PeerFile {
    pub fn new(length: usize) -> (r: PeerFile)
        ensures
            bits_of(&r.pieces) == Seq::new(length as nat, |i: int| false),
    {
        PeerFile { pieces: bitvec_from_elem(length, false) }
    }

    /// A fresh, empty claim bitfield with the same length as `pieces`.
    pub fn from(pieces: &bit_vec::BitVec) -> (r: PeerFile)
        ensures
            bits_of(&r.pieces) == Seq::new(bits_of(pieces).len(), |i: int| false),
    {
        PeerFile { pieces: bitvec_from_elem(bitvec_len(pieces), false) }
    }

    /// Sets bit `index`; out-of-range indices are ignored.
    pub fn set(&mut self, index: usize, flag: bool)
        ensures
            bits_of(&final(self).pieces) == if index < bits_of(&old(self).pieces).len() {
                bits_of(&old(self).pieces).update(index as int, flag)
            } else {
                bits_of(&old(self).pieces)
            },
    {
        if index < bitvec_len(&self.pieces) {
            bitvec_set(&mut self.pieces, index, flag);
        }
    }

    pub fn length(&self) -> (r: usize)
        ensures
            r == bits_of(&self.pieces).len(),
    {
        bitvec_len(&self.pieces)
    }

    /// Whether the peer claims piece `i`; false past the end.
    pub fn has_piece(&self, i: usize) -> (r: bool)
        ensures
            r == (i < bits_of(&self.pieces).len() && bits_of(&self.pieces)[i as int]),
    {
        match bitvec_get(&self.pieces, i) {
            Some(b) => b,
            None => false,
        }
    }
}

// ---------------------------------------------------------------------------
// Assembling a piece from non-overlapping blocks
// ---------------------------------------------------------------------------

/// The result of applying a sequence of writes in order.
pub open spec fn apply_writes(data: Seq<u8>, ws: Seq<(int, Seq<u8>)>) -> Seq<u8>
    decreases ws.len(),
{
    if ws.len() == 0 {
        data
    } else {
        apply_writes(write_at(data, ws[0].0, ws[0].1), ws.skip(1))
    }
}

/// Whether some write covers position `p`.
pub open spec fn covers(ws: Seq<(int, Seq<u8>)>, p: int) -> bool {
    exists|j: int| 0 <= j < ws.len() && (#[trigger] ws[j]).0 <= p < ws[j].0 + ws[j].1.len()
}

/// Writes that stay within `length` bytes, do not overlap, and together
/// cover every byte of the piece.
pub open spec fn writes_cover(ws: Seq<(int, Seq<u8>)>, length: int) -> bool {
    &&& forall|j: int| 0 <= j < ws.len() ==> 0 <= (#[trigger] ws[j]).0 && ws[j].0 + ws[j].1.len()
        <= length
    &&& forall|j: int, k: int|
        0 <= j < k < ws.len() ==> ((#[trigger] ws[j]).0 + ws[j].1.len() <= (#[trigger] ws[k]).0
            || ws[k].0 + ws[k].1.len() <= ws[j].0)
    &&& forall|p: int| 0 <= p < length ==> #[trigger] covers(ws, p)
}

/// The byte that the write covering position `p` carries.
pub open spec fn covered_value(ws: Seq<(int, Seq<u8>)>, p: int) -> u8 {
    let j = choose|j: int| 0 <= j < ws.len() && (#[trigger] ws[j]).0 <= p < ws[j].0 + ws[j].1.len();
    ws[j].1[p - ws[j].0]
}

/// The working form: applying in-bounds writes keeps the buffer within
/// `length`, leaves bytes outside every applied write unchanged (zero when
/// newly exposed), and sets each written range to its block.
pub proof fn lemma_apply_writes_partial(data: Seq<u8>, ws: Seq<(int, Seq<u8>)>, length: int)
    requires
        data.len() <= length,
        forall|j: int| 0 <= j < ws.len() ==> 0 <= (#[trigger] ws[j]).0 && ws[j].0 + ws[j].1.len()
            <= length,
    ensures
        apply_writes(data, ws).len() <= length,
        forall|p: int|
            #![trigger apply_writes(data, ws)[p]]
            0 <= p < apply_writes(data, ws).len() && (forall|j: int|
                0 <= j < ws.len() ==> !((#[trigger] ws[j]).0 <= p < ws[j].0 + ws[j].1.len()))
                ==> apply_writes(data, ws)[p] == (if p < data.len() {
                data[p]
            } else {
                0u8
            }),
        forall|j: int, p: int|
            #![trigger ws[j].1[p - ws[j].0]]
            0 <= j < ws.len() && ws[j].0 <= p < ws[j].0 + ws[j].1.len() && (forall|k: int|
                j < k < ws.len() ==> !((#[trigger] ws[k]).0 <= p < ws[k].0 + ws[k].1.len()))
                ==> apply_writes(data, ws)[p] == ws[j].1[p - ws[j].0],
    decreases ws.len(),
{
    if ws.len() > 0 {
        let d1 = write_at(data, ws[0].0, ws[0].1);
        assert(d1.len() <= length);
        assert forall|j: int| 0 <= j < ws.skip(1).len() implies 0 <= (#[trigger] ws.skip(1)[j]).0
            && ws.skip(1)[j].0 + ws.skip(1)[j].1.len() <= length by {
            assert(ws.skip(1)[j] == ws[j + 1]);
        }
        lemma_apply_writes_partial(d1, ws.skip(1), length);
        assert forall|p: int|
            #![trigger apply_writes(data, ws)[p]]
            0 <= p < apply_writes(data, ws).len() && (forall|j: int|
                0 <= j < ws.len() ==> !((#[trigger] ws[j]).0 <= p < ws[j].0 + ws[j].1.len()))
            implies apply_writes(data, ws)[p] == (if p < data.len() {
            data[p]
        } else {
            0u8
        }) by {
            assert(!(ws[0].0 <= p < ws[0].0 + ws[0].1.len()));
            assert forall|j: int|
                0 <= j < ws.skip(1).len() implies !((#[trigger] ws.skip(1)[j]).0 <= p < ws.skip(
                1,
            )[j].0 + ws.skip(1)[j].1.len()) by {
                assert(ws.skip(1)[j] == ws[j + 1]);
            }
        }
        assert forall|j: int, p: int|
            #![trigger ws[j].1[p - ws[j].0]]
            0 <= j < ws.len() && ws[j].0 <= p < ws[j].0 + ws[j].1.len() && (forall|k: int|
                j < k < ws.len() ==> !((#[trigger] ws[k]).0 <= p < ws[k].0 + ws[k].1.len()))
            implies apply_writes(data, ws)[p] == ws[j].1[p - ws[j].0] by {
            assert(apply_writes(data, ws) == apply_writes(d1, ws.skip(1)));
            if j == 0 {
                assert(d1[p] == ws[0].1[p - ws[0].0]);
                assert forall|k: int|
                    0 <= k < ws.skip(1).len() implies !((#[trigger] ws.skip(1)[k]).0 <= p
                    < ws.skip(1)[k].0 + ws.skip(1)[k].1.len()) by {
                    assert(ws.skip(1)[k] == ws[k + 1]);
                }
                assert(p < d1.len());
                lemma_apply_writes_grows(d1, ws.skip(1));
                assert(p < apply_writes(d1, ws.skip(1)).len());
                assert(apply_writes(d1, ws.skip(1))[p] == (if p < d1.len() {
                    d1[p]
                } else {
                    0u8
                }));
            } else {
                assert(ws.skip(1)[j - 1] == ws[j]);
                assert forall|k: int|
                    j - 1 < k < ws.skip(1).len() implies !((#[trigger] ws.skip(1)[k]).0 <= p
                    < ws.skip(1)[k].0 + ws.skip(1)[k].1.len()) by {
                    assert(ws.skip(1)[k] == ws[k + 1]);
                }
                assert(apply_writes(d1, ws.skip(1))[p] == ws.skip(1)[j - 1].1[p - ws.skip(1)[j
                    - 1].0]);
            }
        }
    }
}

/// Non-overlapping writes that cover a whole piece, with content whose
/// digest matches, make the piece complete.
pub proof fn lemma_piece_assembly(ws: Seq<(int, Seq<u8>)>, length: int, hash: Seq<u8>)
    requires
        length > 0,
        writes_cover(ws, length),
        sha1_of(Seq::new(length as nat, |p: int| covered_value(ws, p))) == hash,
    ensures
        piece_done(apply_writes(Seq::<u8>::empty(), ws), length, hash),
{
    lemma_apply_writes_partial(Seq::<u8>::empty(), ws, length);
    let out = apply_writes(Seq::<u8>::empty(), ws);
    // every position is covered, so the buffer reaches full length
    assert(out.len() == length) by {
        if out.len() < length {
            let p = out.len() as int;
            assert(covers(ws, p));
            let j = choose|j: int|
                0 <= j < ws.len() && (#[trigger] ws[j]).0 <= p < ws[j].0 + ws[j].1.len();
            lemma_apply_writes_len_reaches(Seq::<u8>::empty(), ws, j);
            assert(false);
        }
    }
    assert forall|p: int| 0 <= p < length implies out[p] == covered_value(ws, p) by {
        assert(covers(ws, p));
        let j = choose|j: int|
            0 <= j < ws.len() && (#[trigger] ws[j]).0 <= p < ws[j].0 + ws[j].1.len();
        assert(0 <= j < ws.len() && ws[j].0 <= p < ws[j].0 + ws[j].1.len());
        assert forall|k: int| j < k < ws.len() implies !((#[trigger] ws[k]).0 <= p < ws[k].0
            + ws[k].1.len()) by {
            assert(ws[j].0 + ws[j].1.len() <= ws[k].0 || ws[k].0 + ws[k].1.len() <= ws[j].0);
        }
    }
    assert(out =~= Seq::new(length as nat, |p: int| covered_value(ws, p)));
}

/// Once some write's whole range is applied, the buffer is at least that
/// long.
proof fn lemma_apply_writes_len_reaches(data: Seq<u8>, ws: Seq<(int, Seq<u8>)>, j: int)
    requires
        0 <= j < ws.len(),
    ensures
        apply_writes(data, ws).len() >= ws[j].0 + ws[j].1.len(),
    decreases ws.len(),
{
    let d1 = write_at(data, ws[0].0, ws[0].1);
    if j == 0 {
        lemma_apply_writes_grows(d1, ws.skip(1));
    } else {
        assert(ws.skip(1)[j - 1] == ws[j]);
        lemma_apply_writes_len_reaches(d1, ws.skip(1), j - 1);
    }
}

/// Applying writes never shrinks the buffer.
proof fn lemma_apply_writes_grows(data: Seq<u8>, ws: Seq<(int, Seq<u8>)>)
    ensures
        apply_writes(data, ws).len() >= data.len(),
    decreases ws.len(),
{
    if ws.len() > 0 {
        lemma_apply_writes_grows(write_at(data, ws[0].0, ws[0].1), ws.skip(1));
    }
}

} // verus!
