//! Bit arrays, held in `bit_vec::BitVec` behind contracts over `bits_of`,
//! and the packing of bits into bytes, most significant bit first, that the
//! wire format uses.

use vstd::prelude::*;

verus! {

#[verifier::external_type_specification]
#[verifier::external_body]
#[verifier::reject_recursive_types(B)]
pub struct ExBitVec<B>(bit_vec::BitVec<B>);

/// The bits a `BitVec` holds, in order.
pub uninterp spec fn bits_of(bv: &bit_vec::BitVec) -> Seq<bool>;

/// Whether bit `k` of a byte is set, counting the most significant bit as
/// bit 0.
pub open spec fn bit_at(byte: u8, k: int) -> bool {
    byte & (1u8 << ((7 - k) as u8)) != 0
}

/// The bits of a byte string, eight per byte, most significant first.
pub open spec fn bytes_to_bits(bs: Seq<u8>) -> Seq<bool> {
    Seq::new(bs.len() * 8, |i: int| bit_at(bs[i / 8], i % 8))
}

/// One byte from eight bits, most significant first.
pub open spec fn pack8(bits: Seq<bool>) -> u8 {
    (((if bits[0] { 128int } else { 0int }) + (if bits[1] { 64int } else { 0int }) + (if bits[2] {
        32int
    } else {
        0int
    }) + (if bits[3] { 16int } else { 0int }) + (if bits[4] { 8int } else { 0int }) + (if bits[5] {
        4int
    } else {
        0int
    }) + (if bits[6] { 2int } else { 0int }) + (if bits[7] { 1int } else { 0int })) as u8)
}

/// Bytes from bits whose count is a multiple of eight.
pub open spec fn bits_to_bytes(bits: Seq<bool>) -> Seq<u8> {
    Seq::new(bits.len() / 8, |j: int| pack8(bits.subrange(8 * j, 8 * j + 8)))
}

/// Bits padded with zeros up to a byte boundary.
pub open spec fn pad_to_byte(bits: Seq<bool>) -> Seq<bool> {
    bits + Seq::new(((8 - bits.len() % 8) % 8) as nat, |i: int| false)
}

/// Unpacking a packed byte recovers each bit.
pub proof fn lemma_pack8_bit_at(bits: Seq<bool>, k: int)
    requires
        bits.len() == 8,
        0 <= k < 8,
    ensures
        bit_at(pack8(bits), k) == bits[k],
{
    let x0: u8 = if bits[0] { 1 } else { 0 };
    let x1: u8 = if bits[1] { 1 } else { 0 };
    let x2: u8 = if bits[2] { 1 } else { 0 };
    let x3: u8 = if bits[3] { 1 } else { 0 };
    let x4: u8 = if bits[4] { 1 } else { 0 };
    let x5: u8 = if bits[5] { 1 } else { 0 };
    let x6: u8 = if bits[6] { 1 } else { 0 };
    let x7: u8 = if bits[7] { 1 } else { 0 };
    let v = pack8(bits);
    assert(v == (x0 * 128 + x1 * 64 + x2 * 32 + x3 * 16 + x4 * 8 + x5 * 4 + x6 * 2 + x7) as u8);
    let sh: u8 = (7 - k) as u8;
    assert((v & (1u8 << sh) != 0) == (if sh == 7 {
        x0 == 1
    } else if sh == 6 {
        x1 == 1
    } else if sh == 5 {
        x2 == 1
    } else if sh == 4 {
        x3 == 1
    } else if sh == 3 {
        x4 == 1
    } else if sh == 2 {
        x5 == 1
    } else if sh == 1 {
        x6 == 1
    } else {
        x7 == 1
    })) by (bit_vector)
        requires
            v == (x0 * 128 + x1 * 64 + x2 * 32 + x3 * 16 + x4 * 8 + x5 * 4 + x6 * 2 + x7) as u8,
            x0 <= 1 && x1 <= 1 && x2 <= 1 && x3 <= 1 && x4 <= 1 && x5 <= 1 && x6 <= 1 && x7 <= 1,
            sh <= 7,
    ;
}

/// Packing bits into bytes and unpacking them again is the identity, for a
/// bit count that is a multiple of eight.
pub proof fn lemma_bits_bytes_round_trip(bits: Seq<bool>)
    requires
        bits.len() % 8 == 0,
    ensures
        bytes_to_bits(bits_to_bytes(bits)) == bits,
{
    let bs = bits_to_bytes(bits);
    assert(bs.len() == bits.len() / 8);
    assert forall|i: int| 0 <= i < bits.len() implies bytes_to_bits(bs)[i] == bits[i] by {
        let j = i / 8;
        let k = i % 8;
        assert(0 <= j < bs.len());
        assert(bs[j] == pack8(bits.subrange(8 * j, 8 * j + 8)));
        lemma_pack8_bit_at(bits.subrange(8 * j, 8 * j + 8), k);
        assert(bits.subrange(8 * j, 8 * j + 8)[k] == bits[8 * j + k]);
        assert(8 * j + k == i);
    }
    assert(bytes_to_bits(bs) =~= bits);
}

/// Relies on bit_vec::BitVec::from_elem: `len` copies of `bit`.
#[verifier::external_body]
pub fn bitvec_from_elem(len: usize, bit: bool) -> (r: bit_vec::BitVec)
    ensures
        bits_of(&r) == Seq::new(len as nat, |i: int| bit),
{
    bit_vec::BitVec::from_elem(len, bit)
}

/// Relies on bit_vec::BitVec::len.
#[verifier::external_body]
pub fn bitvec_len(bv: &bit_vec::BitVec) -> (r: usize)
    ensures
        r == bits_of(bv).len(),
{
    bv.len()
}

/// Relies on bit_vec::BitVec::get: the bit at `i`, or nothing past the end.
#[verifier::external_body]
pub fn bitvec_get(bv: &bit_vec::BitVec, i: usize) -> (r: Option<bool>)
    ensures
        r == if i < bits_of(bv).len() {
            Some(bits_of(bv)[i as int])
        } else {
            Option::<bool>::None
        },
{
    bv.get(i)
}

/// Relies on bit_vec::BitVec::set, which asks for an index in range.
#[verifier::external_body]
pub fn bitvec_set(bv: &mut bit_vec::BitVec, i: usize, x: bool)
    requires
        i < bits_of(old(bv)).len(),
    ensures
        bits_of(final(bv)) == bits_of(old(bv)).update(i as int, x),
{
    bv.set(i, x)
}

/// Relies on bit_vec::BitVec::from_bytes: eight bits per byte, most
/// significant first.
#[verifier::external_body]
pub fn bitvec_from_bytes(bytes: &[u8]) -> (r: bit_vec::BitVec)
    ensures
        bits_of(&r) == bytes_to_bits(bytes@),
{
    bit_vec::BitVec::from_bytes(bytes)
}

/// Relies on bit_vec::BitVec::to_bytes: the bits packed eight to a byte,
/// most significant first, zero-padded to a byte boundary.
#[verifier::external_body]
pub fn bitvec_to_bytes(bv: &bit_vec::BitVec) -> (r: Vec<u8>)
    ensures
        r@ == bits_to_bytes(pad_to_byte(bits_of(bv))),
{
    bv.to_bytes()
}

/// Relies on bit_vec::BitVec::negate: every bit flipped.
#[verifier::external_body]
pub fn bitvec_negate(bv: &mut bit_vec::BitVec)
    ensures
        bits_of(final(bv)) == bits_of(old(bv)).map_values(|b: bool| !b),
{
    bv.negate()
}

/// Relies on bit_vec::BitVec::and, which asks for equal lengths: the
/// pointwise conjunction, reporting whether anything changed.
#[verifier::external_body]
pub fn bitvec_and(bv: &mut bit_vec::BitVec, other: &bit_vec::BitVec) -> (r: bool)
    requires
        bits_of(old(bv)).len() == bits_of(other).len(),
    ensures
        bits_of(final(bv)) == Seq::new(
            bits_of(old(bv)).len(),
            |i: int| bits_of(old(bv))[i] && bits_of(other)[i],
        ),
        r == (bits_of(final(bv)) != bits_of(old(bv))),
{
    bv.and(other)
}

} // verus!
