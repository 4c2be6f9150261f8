use bitvec::order::Lsb0;
use bitvec::vec::BitVec;
use vstd::prelude::*;

verus! {

/// A growable sequence of bits over a byte buffer, least significant bit of
/// each byte first. Every value is built by `bitvec_from_bytes`, `bitvec_new`
/// and `bitvec_push` alone, so its bits start at the front of the buffer and
/// the unused bits of its last byte stay zero.
#[verifier::external_body]
pub struct BitStream {
    inner: BitVec<u8, Lsb0>,
}

/// The bits a stream holds, in order.
pub uninterp spec fn bits_of(v: BitStream) -> Seq<bool>;

/// Bit `j` (0 is the least significant) of byte `x`.
pub open spec fn byte_bit(x: u8, j: int) -> bool {
    (x >> (j as u8)) & 1 == 1
}

/// The bits of a byte sequence, least significant bit of each byte first.
pub open spec fn bits_of_bytes(b: Seq<u8>) -> Seq<bool> {
    Seq::new(8 * b.len(), |i: int| byte_bit(b[i / 8], i % 8))
}

/// The longest bit-vector: `usize::MAX >> 3` bits.
pub open spec fn max_bits() -> int {
    usize::MAX as int / 8
}

/// Relies on BitVec::from_slice: the bits of the bytes, Lsb0 within each byte.
#[verifier::external_body]
pub(crate) fn bitvec_from_bytes(b: &[u8]) -> (r: BitStream)
    requires
        8 * b@.len() <= max_bits(),
    ensures
        bits_of(r) == bits_of_bytes(b@),
{
    BitStream { inner: BitVec::<u8, Lsb0>::from_slice(b) }
}

/// Relies on BitVec::new: an empty bit-vector.
#[verifier::external_body]
pub(crate) fn bitvec_new() -> (r: BitStream)
    ensures
        bits_of(r) == Seq::<bool>::empty(),
{
    BitStream { inner: BitVec::<u8, Lsb0>::new() }
}

/// Relies on BitVec::len: the number of bits held.
#[verifier::external_body]
pub(crate) fn bitvec_len(v: &BitStream) -> (r: usize)
    ensures
        r == bits_of(*v).len(),
{
    v.inner.len()
}

/// Relies on indexing a BitVec (`Index<usize>`): the bit at `i`.
#[verifier::external_body]
pub(crate) fn bitvec_get(v: &BitStream, i: usize) -> (r: bool)
    requires
        i < bits_of(*v).len(),
    ensures
        r == bits_of(*v)[i as int],
{
    v.inner[i]
}

/// Relies on BitVec::push: appends one bit.
#[verifier::external_body]
pub(crate) fn bitvec_push(v: &mut BitStream, x: bool)
    requires
        bits_of(*old(v)).len() + 1 <= max_bits(),
    ensures
        bits_of(*final(v)) == bits_of(*old(v)).push(x),
{
    v.inner.push(x)
}

/// Relies on BitVec::into_vec: the buffer as bytes, Lsb0 within each byte. The
/// stream's bits start at the front of the buffer and BitVec::push fills a new
/// byte with zeros, so the bits after the last one read as zero.
#[verifier::external_body]
pub(crate) fn bitvec_into_bytes(v: BitStream) -> (r: Vec<u8>)
    ensures
        r@.len() == (bits_of(v).len() + 7) / 8,
        bits_of_bytes(r@) == pad_to_byte(bits_of(v)),
{
    v.inner.into_vec()
}

/// `s` followed by zero bits up to the next multiple of 8.
pub open spec fn pad_to_byte(s: Seq<bool>) -> Seq<bool> {
    s + Seq::new((((s.len() + 7) / 8) * 8 - s.len()) as nat, |i: int| false)
}

} // verus!
