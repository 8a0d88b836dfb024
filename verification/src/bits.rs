//! Bit sequences and their byte-level packing.
//!
//! The codec works on mathematical bit sequences (`Seq<bool>`). At run time
//! those sequences live in `bit_vec::BitVec`; the trusted wrappers below give
//! each `BitVec` operation a contract over `spec_bits`, the sequence a vector
//! holds. The packing convention is most-significant-bit first, with the
//! final partial byte padded by zero bits, on both the encode and the decode
//! side.

use vstd::prelude::*;

verus! {

/// Bit `k` (0 = most significant) of byte `x`.
pub open spec fn byte_bit(x: u8, k: int) -> bool {
    (x >> (7 - k) as u8) & 1 == 1
}

/// The eight bits of `x`, most significant first.
pub open spec fn byte_to_bits(x: u8) -> Seq<bool> {
    Seq::new(8, |k: int| byte_bit(x, k))
}

/// The byte whose bits, most significant first, are the eight-bit sequence `s`.
pub open spec fn bits_to_byte(s: Seq<bool>) -> u8
    recommends
        s.len() == 8,
{
    ((if s[0] { 128int } else { 0int }) + (if s[1] { 64int } else { 0int }) + (if s[2] {
        32int
    } else {
        0int
    }) + (if s[3] { 16int } else { 0int }) + (if s[4] { 8int } else { 0int }) + (if s[5] {
        4int
    } else {
        0int
    }) + (if s[6] { 2int } else { 0int }) + (if s[7] { 1int } else { 0int })) as u8
}

/// Every bit of every byte of `bs`, most significant bit of each byte first.
pub open spec fn bytes_to_bits(bs: Seq<u8>) -> Seq<bool> {
    Seq::new(bs.len() * 8, |i: int| byte_bit(bs[i / 8], i % 8))
}

/// The number of bytes needed to hold `n` bits.
pub open spec fn bytes_for_bits(n: int) -> int {
    (n + 7) / 8
}

/// `bits` extended with zero bits to the next byte boundary.
pub open spec fn pad_to_byte(bits: Seq<bool>) -> Seq<bool> {
    bits + Seq::new(
        (bytes_for_bits(bits.len() as int) * 8 - bits.len()) as nat,
        |i: int| false,
    )
}

/// `bits` packed into bytes, most significant bit first, the final partial
/// byte padded with zero bits.
pub open spec fn pack_bits(bits: Seq<bool>) -> Seq<u8> {
    Seq::new(
        bytes_for_bits(bits.len() as int) as nat,
        |j: int| bits_to_byte(pad_to_byte(bits).subrange(j * 8, j * 8 + 8)),
    )
}

/// Packing and unpacking are mutually inverse on each byte: reading bit `k`
/// of the byte built from an eight-bit chunk gives the chunk back.
pub proof fn lemma_bits_to_byte_bit(s: Seq<bool>, k: int)
    requires
        s.len() == 8,
        0 <= k < 8,
    ensures
        byte_bit(bits_to_byte(s), k) == s[k],
{
    let b0: u8 = if s[0] { 1 } else { 0 };
    let b1: u8 = if s[1] { 1 } else { 0 };
    let b2: u8 = if s[2] { 1 } else { 0 };
    let b3: u8 = if s[3] { 1 } else { 0 };
    let b4: u8 = if s[4] { 1 } else { 0 };
    let b5: u8 = if s[5] { 1 } else { 0 };
    let b6: u8 = if s[6] { 1 } else { 0 };
    let b7: u8 = if s[7] { 1 } else { 0 };
    let v: u8 = (b0 * 128 + b1 * 64 + b2 * 32 + b3 * 16 + b4 * 8 + b5 * 4 + b6 * 2 + b7) as u8;
    assert(v == bits_to_byte(s));
    assert(b0 <= 1 && b1 <= 1 && b2 <= 1 && b3 <= 1 && b4 <= 1 && b5 <= 1 && b6 <= 1 && b7 <= 1);
    assert((v >> 7u8) & 1 == b0 && (v >> 6u8) & 1 == b1 && (v >> 5u8) & 1 == b2 && (v >> 4u8) & 1
        == b3 && (v >> 3u8) & 1 == b4 && (v >> 2u8) & 1 == b5 && (v >> 1u8) & 1 == b6 && (v >> 0u8)
        & 1 == b7) by (bit_vector)
        requires
            v == (b0 * 128 + b1 * 64 + b2 * 32 + b3 * 16 + b4 * 8 + b5 * 4 + b6 * 2 + b7) as u8,
            b0 <= 1 && b1 <= 1 && b2 <= 1 && b3 <= 1 && b4 <= 1 && b5 <= 1 && b6 <= 1 && b7 <= 1,
    ;
}

/// The byte built from the eight bits of `x` is `x` itself.
pub proof fn lemma_byte_to_bits_to_byte(x: u8)
    ensures
        bits_to_byte(byte_to_bits(x)) == x,
{
    let v: u8 = bits_to_byte(byte_to_bits(x));
    assert(((if (x >> 7u8) & 1 == 1 { 128u8 } else { 0u8 }) + (if (x >> 6u8) & 1 == 1 {
        64u8
    } else {
        0u8
    }) + (if (x >> 5u8) & 1 == 1 { 32u8 } else { 0u8 }) + (if (x >> 4u8) & 1 == 1 {
        16u8
    } else {
        0u8
    }) + (if (x >> 3u8) & 1 == 1 { 8u8 } else { 0u8 }) + (if (x >> 2u8) & 1 == 1 {
        4u8
    } else {
        0u8
    }) + (if (x >> 1u8) & 1 == 1 { 2u8 } else { 0u8 }) + (if (x >> 0u8) & 1 == 1 {
        1u8
    } else {
        0u8
    })) as u8 == x) by (bit_vector);
}

/// The eight bits of the byte built from an eight-bit sequence are that
/// sequence.
pub proof fn lemma_bits_roundtrip8(s: Seq<bool>)
    requires
        s.len() == 8,
    ensures
        byte_to_bits(bits_to_byte(s)) == s,
{
    assert forall|k: int| 0 <= k < 8 implies byte_to_bits(bits_to_byte(s))[k] == s[k] by {
        lemma_bits_to_byte_bit(s, k);
    }
    assert(byte_to_bits(bits_to_byte(s)) =~= s);
}

/// Unpacking packed bits gives the original bits back, followed by the
/// zero-bit padding of the final byte.
pub proof fn lemma_unpack_pack(bits: Seq<bool>)
    ensures
        bytes_to_bits(pack_bits(bits)) == pad_to_byte(bits),
        pad_to_byte(bits).len() == bytes_for_bits(bits.len() as int) * 8,
        forall|i: int|
            0 <= i < bits.len() ==> #[trigger] bytes_to_bits(pack_bits(bits))[i] == bits[i],
        forall|i: int|
            bits.len() <= i < pad_to_byte(bits).len() ==> !(#[trigger] bytes_to_bits(
                pack_bits(bits),
            )[i]),
{
    let padded = pad_to_byte(bits);
    let packed = pack_bits(bits);
    let unpacked = bytes_to_bits(packed);
    assert(padded.len() == bytes_for_bits(bits.len() as int) * 8);
    assert(unpacked.len() == padded.len());
    assert forall|i: int| 0 <= i < padded.len() implies unpacked[i] == padded[i] by {
        let j = i / 8;
        let k = i % 8;
        let chunk = padded.subrange(j * 8, j * 8 + 8);
        lemma_bits_to_byte_bit(chunk, k);
        assert(chunk[k] == padded[j * 8 + k]);
    }
    assert(unpacked =~= padded);
}

/// Unpacking a concatenation of byte sequences unpacks each in turn.
pub proof fn lemma_bytes_to_bits_concat(a: Seq<u8>, b: Seq<u8>)
    ensures
        bytes_to_bits(a + b) == bytes_to_bits(a) + bytes_to_bits(b),
{
    let lhs = bytes_to_bits(a + b);
    let rhs = bytes_to_bits(a) + bytes_to_bits(b);
    assert((a + b).len() == a.len() + b.len());
    assert(lhs.len() == rhs.len());
    assert forall|i: int| 0 <= i < lhs.len() implies lhs[i] == rhs[i] by {
        let al = a.len() as int;
        if i < 8 * al {
            assert(i / 8 < al && 0 <= i / 8) by (nonlinear_arith)
                requires
                    0 <= i < 8 * al,
            ;
            assert((a + b)[i / 8] == a[i / 8]);
        } else {
            let j = i - 8 * al;
            assert(j / 8 == i / 8 - al && j % 8 == i % 8 && 0 <= j / 8 && al <= i / 8)
                by (nonlinear_arith)
                requires
                    0 <= al,
                    8 * al <= i,
                    j == i - 8 * al,
            ;
            assert((a + b)[i / 8] == b[i / 8 - al]);
        }
    }
    assert(lhs =~= rhs);
}

#[verifier::external_type_specification]
#[verifier::external_body]
#[verifier::reject_recursive_types(B)]
pub struct ExBitVec<B>(bit_vec::BitVec<B>);

/// The sequence of bits a `bit_vec::BitVec` holds, in index order.
pub uninterp spec fn spec_bits(v: bit_vec::BitVec) -> Seq<bool>;

/// Relies on bit_vec::BitVec::new: creates an empty vector.
#[verifier::external_body]
pub(crate) fn bv_new() -> (r: bit_vec::BitVec)
    ensures
        spec_bits(r) == Seq::<bool>::empty(),
{
    bit_vec::BitVec::new()
}

/// Relies on bit_vec::BitVec::len: returns the number of bits held.
#[verifier::external_body]
pub(crate) fn bv_len(v: &bit_vec::BitVec) -> (r: usize)
    ensures
        r == spec_bits(*v).len(),
{
    v.len()
}

/// Relies on bit_vec::BitVec::push: appends one bit at the end. The
/// precondition keeps the bit count from overflowing, on which `push` panics.
#[verifier::external_body]
pub(crate) fn bv_push(v: &mut bit_vec::BitVec, b: bool)
    requires
        spec_bits(*old(v)).len() < usize::MAX,
    ensures
        spec_bits(*final(v)) == spec_bits(*old(v)).push(b),
{
    v.push(b)
}

/// Relies on bit_vec::BitVec::get: `Some` bit at index `i` when `i` is in
/// range, `None` otherwise.
#[verifier::external_body]
pub(crate) fn bv_get(v: &bit_vec::BitVec, i: usize) -> (r: Option<bool>)
    ensures
        r == if i < spec_bits(*v).len() {
            Some(spec_bits(*v)[i as int])
        } else {
            None::<bool>
        },
{
    v.get(i)
}

/// Relies on bit_vec::BitVec::extend (the std `Extend<bool>` impl), which
/// pushes every bit of the iterator in order; `iter` yields the bits of
/// `other` in index order.
#[verifier::external_body]
pub(crate) fn bv_extend(v: &mut bit_vec::BitVec, other: &bit_vec::BitVec)
    requires
        spec_bits(*old(v)).len() + spec_bits(*other).len() <= usize::MAX,
    ensures
        spec_bits(*final(v)) == spec_bits(*old(v)) + spec_bits(*other),
{
    v.extend(other.iter())
}

/// Relies on bit_vec::BitVec's `Clone` impl, which copies the block storage
/// and the bit count: the copy holds the same bits.
#[verifier::external_body]
pub(crate) fn bv_clone(v: &bit_vec::BitVec) -> (r: bit_vec::BitVec)
    ensures
        spec_bits(r) == spec_bits(*v),
{
    v.clone()
}

/// Relies on bit_vec::BitVec::to_bytes: packs the bits into bytes, most
/// significant bit of each byte first, the final partial byte padded with
/// zero bits.
#[verifier::external_body]
pub(crate) fn bv_to_bytes(v: &bit_vec::BitVec) -> (r: Vec<u8>)
    ensures
        r@ == pack_bits(spec_bits(*v)),
{
    v.to_bytes()
}

/// Relies on bit_vec::BitVec::from_bytes: each byte becomes eight bits, most
/// significant bit first. The precondition keeps the bit count within
/// `usize`, which the conversion demands.
#[verifier::external_body]
pub(crate) fn bv_from_bytes(bytes: &Vec<u8>) -> (r: bit_vec::BitVec)
    requires
        bytes@.len() * 8 <= usize::MAX,
    ensures
        spec_bits(r) == bytes_to_bits(bytes@),
{
    bit_vec::BitVec::from_bytes(bytes.as_slice())
}

} // verus!
