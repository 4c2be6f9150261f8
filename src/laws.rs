use crate::block::{
    block_slots, chunk_len, data_before, decode_bits, decode_block, encode_bits, encode_block,
    encoded_slots, extract, is_parity_slot, parity_of, placed, syndrome, with_parity,
};
use crate::bits::{bits_of_bytes, byte_bit, pad_to_byte};
use crate::code::Code;
use vstd::arithmetic::power2::{lemma2_to64, pow2};
use vstd::prelude::*;

verus! {

/// `x ^ y` stays below a power of two `m` that both stay below.
proof fn lemma_xor_below(x: u64, y: u64, m: u64)
    requires
        x < m,
        y < m,
        m != 0,
        m & ((m - 1) as u64) == 0,
    ensures
        x ^ y < m,
{
    assert(x < m && y < m && m != 0 && m & ((m - 1) as u64) == 0 ==> x ^ y < m) by (bit_vector);
}

/// Flipping slot `j` changes the syndrome by `j`.
pub proof fn lemma_flip_syndrome(s: Seq<bool>, j: int)
    requires
        0 <= j < s.len(),
        s.len() <= u64::MAX,
    ensures
        syndrome(s.update(j, !s[j])) == syndrome(s) ^ (j as u64),
    decreases s.len(),
{
    let t = s.update(j, !s[j]);
    let a = syndrome(s.drop_last());
    let last = (s.len() - 1) as u64;
    if j == s.len() - 1 {
        assert(t.drop_last() =~= s.drop_last());
        assert(a ^ 0u64 == (a ^ last) ^ last) by (bit_vector);
        assert(a ^ last == (a ^ 0u64) ^ last) by (bit_vector);
    } else {
        lemma_flip_syndrome(s.drop_last(), j);
        assert(t.drop_last() =~= s.drop_last().update(j, !s[j]));
        let x: u64 = if s.last() { last } else { 0u64 };
        let jj = j as u64;
        assert((a ^ jj) ^ x == (a ^ x) ^ jj) by (bit_vector);
    }
}

/// Flipping one slot flips the overall parity.
pub proof fn lemma_flip_parity(s: Seq<bool>, j: int)
    requires
        0 <= j < s.len(),
    ensures
        parity_of(s.update(j, !s[j])) == !parity_of(s),
    decreases s.len(),
{
    let t = s.update(j, !s[j]);
    if j == s.len() - 1 {
        assert(t.drop_last() =~= s.drop_last());
    } else {
        lemma_flip_parity(s.drop_last(), j);
        assert(t.drop_last() =~= s.drop_last().update(j, !s[j]));
    }
}

/// The syndrome of a block of at most `m` slots, `m` a power of two, is below `m`.
pub proof fn lemma_syndrome_below(s: Seq<bool>, m: u64)
    requires
        s.len() <= m,
        m != 0,
        m & ((m - 1) as u64) == 0,
    ensures
        syndrome(s) < m,
    decreases s.len(),
{
    if s.len() > 0 {
        lemma_syndrome_below(s.drop_last(), m);
        let x: u64 = if s.last() { (s.len() - 1) as u64 } else { 0u64 };
        lemma_xor_below(syndrome(s.drop_last()), x, m);
    }
}

/// Changing a parity slot leaves the data slots alone.
pub proof fn lemma_extract_update_parity(s: Seq<bool>, j: int, x: bool)
    requires
        0 <= j < s.len(),
        is_parity_slot(j),
    ensures
        extract(s.update(j, x)) == extract(s),
    decreases s.len(),
{
    let t = s.update(j, x);
    if j == s.len() - 1 {
        assert(t.drop_last() =~= s.drop_last());
    } else {
        lemma_extract_update_parity(s.drop_last(), j, x);
        assert(t.drop_last() =~= s.drop_last().update(j, x));
    }
}

/// `2^e` is a parity slot, and no slot strictly between `2^e` and `2^(e+1)` is.
proof fn lemma_parity_slots_between(e: nat)
    requires
        e <= 32,
    ensures
        is_parity_slot(pow2(e) as int),
        forall|i: int| pow2(e) < i < 2 * pow2(e) ==> !is_parity_slot(i),
{
    lemma_pow2_u64(e);
    let p = pow2(e) as u64;
    assert(p != 0 && p & ((p - 1) as u64) == 0);
    assert forall|i: int| pow2(e) < i < 2 * pow2(e) implies !is_parity_slot(i) by {
        let x = i as u64;
        assert(p != 0 && p & ((p - 1) as u64) == 0 && p <= 0x1_0000_0000 && p < x && x < 2 * p
            ==> x & ((x - 1) as u64) != 0) by (bit_vector);
    }
}

/// `2^e` for `e <= 32` is a power of two as a `u64` too.
proof fn lemma_pow2_u64(e: nat)
    requires
        e <= 32,
    ensures
        pow2(e) <= 0x1_0000_0000,
        pow2(e) > 0,
        (pow2(e) as u64) & ((pow2(e) - 1) as u64) == 0,
        2 * pow2(e) == pow2(e + 1),
{
    crate::code::lemma_pow2_ge(e);
    vstd::arithmetic::power2::lemma_pow2_pos(e);
    vstd::arithmetic::power2::lemma_pow2_unfold(e + 1);
    vstd::bits::lemma_u64_shl_is_mul(1, e as u64);
    let ee = e as u64;
    assert(ee < 64 ==> (1u64 << ee) & (((1u64 << ee) - 1) as u64) == 0) by (bit_vector);
}

/// The data slots below `2^e` number `2^e - 1 - e`.
proof fn lemma_data_count(e: nat)
    requires
        1 <= e <= 32,
    ensures
        data_before(pow2(e) as int) == pow2(e) - 1 - e,
    decreases e,
{
    lemma2_to64();
    if e == 1 {
        assert(is_parity_slot(1)) by {
            assert(1u64 & 0u64 == 0) by (bit_vector);
        }
        assert(data_before(0) == 0);
        assert(is_parity_slot(0));
        assert(data_before(1) == 0);
        assert(data_before(2) == 0);
    } else {
        let f = (e - 1) as nat;
        lemma_data_count(f);
        lemma_parity_slots_between(f);
        lemma_pow2_u64(f);
        let p = pow2(f) as int;
        assert forall|i: int| p < i <= 2 * p implies data_before(i) == data_before(p) + (i - p
            - 1) by {
            lemma_data_run(p, i);
        }
    }
}

proof fn lemma_data_run(p: int, i: int)
    requires
        0 < p < i <= 2 * p,
        is_parity_slot(p),
        forall|j: int| p < j < 2 * p ==> !is_parity_slot(j),
    ensures
        data_before(i) == data_before(p) + (i - p - 1),
    decreases i,
{
    if i > p + 1 {
        lemma_data_run(p, i - 1);
    }
}

/// Two blocks that agree on their data slots carry the same data.
pub proof fn lemma_extract_agree(s1: Seq<bool>, s2: Seq<bool>)
    requires
        s1.len() == s2.len(),
        forall|i: int| 0 <= i < s1.len() && !is_parity_slot(i) ==> s1[i] == s2[i],
    ensures
        extract(s1) == extract(s2),
    decreases s1.len(),
{
    if s1.len() > 0 {
        lemma_extract_agree(s1.drop_last(), s2.drop_last());
    }
}

/// The data slots of `placed` hold `d`, padded with zeros.
proof fn lemma_extract_placed(code: Code, d: Seq<bool>, i: int)
    requires
        0 <= i <= code.slots(),
    ensures
        extract(placed(code, d).take(i)) =~= Seq::new(
            data_before(i),
            |t: int| t < d.len() && d[t],
        ),
    decreases i,
{
    let s = placed(code, d).take(i);
    if i > 0 {
        lemma_extract_placed(code, d, i - 1);
        assert(s.drop_last() =~= placed(code, d).take(i - 1));
    }
}

/// The data bits that one block carries: `d` padded with zeros to `k` bits.
pub open spec fn padded(code: Code, d: Seq<bool>) -> Seq<bool> {
    Seq::new(code.k(), |t: int| t < d.len() && d[t])
}

/// A block's data slots carry the data it was encoded from, zero-padded to `k` bits.
pub proof fn lemma_extract_encoded(code: Code, d: Seq<bool>)
    requires
        code.valid(),
    ensures
        extract(encoded_slots(code, d)) == padded(code, d),
{
    code.lemma_dimensions();
    lemma_data_count(code.log_slots());
    lemma_extract_placed(code, d, code.slots() as int);
    assert(placed(code, d).take(code.slots() as int) =~= placed(code, d));
    lemma_extract_agree(encoded_slots(code, d), placed(code, d));
    assert(code.k() == code.slots() - 1 - code.log_slots());
}

/// Widening a low-bit mask from `p - 1` to `2p - 1`, `p` a power of two, adds bit `p`.
proof fn lemma_mask_step(s0: u64, p: u64)
    requires
        p != 0,
        p & ((p - 1) as u64) == 0,
        p <= 0x1_0000_0000,
    ensures
        s0 & p != 0 ==> (s0 ^ (s0 & ((p - 1) as u64))) ^ p == s0 ^ (s0 & ((2 * p - 1) as u64)),
        s0 & p == 0 ==> s0 ^ (s0 & ((p - 1) as u64)) == s0 ^ (s0 & ((2 * p - 1) as u64)),
{
    let q: u64 = (2 * p - 1) as u64;
    assert(p != 0 && p & ((p - 1) as u64) == 0 && p <= 0x1_0000_0000 && q == ((p - 1) as u64) | p
        ==> (s0 & p != 0 ==> (s0 ^ (s0 & ((p - 1) as u64))) ^ p == s0 ^ (s0 & q))) by (bit_vector);
    assert(p != 0 && p & ((p - 1) as u64) == 0 && p <= 0x1_0000_0000 && q == ((p - 1) as u64) | p
        ==> (s0 & p == 0 ==> s0 ^ (s0 & ((p - 1) as u64)) == s0 ^ (s0 & q))) by (bit_vector);
    assert(p != 0 && p & ((p - 1) as u64) == 0 && p <= 0x1_0000_0000 ==> ((p + p - 1) as u64) == ((p - 1) as u64) | p) by (bit_vector);
}

/// `placed` with the parity slots below `lim` set as `with_parity` sets them.
spec fn parity_below(code: Code, d: Seq<bool>, lim: int) -> Seq<bool> {
    let s0 = syndrome(placed(code, d));
    Seq::new(
        code.slots(),
        |i: int|
            if i == 0 {
                false
            } else if is_parity_slot(i) {
                i < lim && s0 & (i as u64) != 0
            } else {
                placed(code, d)[i]
            },
    )
}

proof fn lemma_parity_below(code: Code, d: Seq<bool>, e: nat)
    requires
        code.valid(),
        e <= code.log_slots(),
    ensures
        syndrome(parity_below(code, d, pow2(e) as int)) == syndrome(placed(code, d)) ^ (
        syndrome(placed(code, d)) & ((pow2(e) - 1) as u64)),
    decreases e,
{
    code.lemma_dimensions();
    let s0 = syndrome(placed(code, d));
    lemma2_to64();
    if e == 0 {
        assert(parity_below(code, d, 1) =~= placed(code, d));
        assert(s0 ^ (s0 & 0u64) == s0) by (bit_vector);
    } else {
        let f = (e - 1) as nat;
        lemma_parity_below(code, d, f);
        lemma_pow2_u64(f);
        lemma_parity_slots_between(f);
        crate::code::lemma_pow2_strictly_increases_le(e, code.log_slots());
        let p = pow2(f) as int;
        let prev = parity_below(code, d, p);
        let next = parity_below(code, d, 2 * p);
        let pp = p as u64;
        let lo = s0 ^ (s0 & ((pp - 1) as u64));
        assert(pp != 0 && pp & ((pp - 1) as u64) == 0);
        if s0 & pp != 0 {
            assert(next =~= prev.update(p, !prev[p]));
            lemma_flip_syndrome(prev, p);
            lemma_mask_step(s0, pp);
        } else {
            assert(next =~= prev);
            lemma_mask_step(s0, pp);
        }
    }
}

/// Below a power of two `m`, masking by `m - 1` keeps every bit.
proof fn lemma_mask_all(s0: u64, m: u64)
    requires
        m != 0,
        m & ((m - 1) as u64) == 0,
        s0 < m,
    ensures
        s0 ^ (s0 & ((m - 1) as u64)) == 0,
{
    assert(m != 0 && m & ((m - 1) as u64) == 0 && s0 < m ==> s0 ^ (s0 & ((m - 1) as u64)) == 0)
        by (bit_vector);
}

/// `with_parity` cancels the syndrome of the data slots.
#[verifier::rlimit(20)]
proof fn lemma_with_parity_syndrome(code: Code, d: Seq<bool>)
    requires
        code.valid(),
    ensures
        syndrome(with_parity(code, d)) == 0,
{
    code.lemma_dimensions();
    let e = code.log_slots();
    lemma_parity_below(code, d, e);
    lemma_pow2_u64(e);
    let m = code.slots();
    assert(parity_below(code, d, m as int) =~= with_parity(code, d));
    let mm = m as u64;
    lemma_syndrome_below(placed(code, d), mm);
    lemma_mask_all(syndrome(placed(code, d)), mm);
}

/// Every encoded block is a codeword: the XOR of the indices of its set slots
/// is 0, and for extended Hamming the XOR of all its bits is 0 too.
#[verifier::rlimit(20)]
pub proof fn lemma_parity_discipline(code: Code, d: Seq<bool>)
    requires
        code.valid(),
    ensures
        syndrome(block_slots(code, encode_block(code, d))) == 0,
        code.is_extended() ==> !parity_of(encode_block(code, d)),
{
    code.lemma_dimensions();
    lemma_with_parity_syndrome(code, d);
    let w = with_parity(code, d);
    let full = encoded_slots(code, d);
    if code.is_extended() {
        assert(encode_block(code, d) =~= full);
        assert(block_slots(code, encode_block(code, d)) =~= full);
        if parity_of(w) {
            lemma_flip_parity(w, 0);
            lemma_flip_syndrome(w, 0);
            assert(full =~= w.update(0, !w[0]));
            assert(0u64 ^ 0u64 == 0u64) by (bit_vector);
        } else {
            assert(full =~= w);
        }
    } else {
        assert(full == w);
        assert(block_slots(code, encode_block(code, d)) =~= full);
    }
}

/// With no error, a block decodes to the data it was encoded from, padded
/// with zeros to `k` bits.
pub proof fn lemma_block_round_trip(code: Code, d: Seq<bool>)
    requires
        code.valid(),
    ensures
        decode_block(code, encode_block(code, d)) == Some(padded(code, d)),
{
    lemma_parity_discipline(code, d);
    lemma_extract_encoded(code, d);
    code.lemma_dimensions();
    assert(block_slots(code, encode_block(code, d)) =~= encoded_slots(code, d));
}

/// One flipped bit anywhere in a block is corrected: the block decodes as if
/// nothing had been flipped.
#[verifier::rlimit(20)]
pub proof fn lemma_single_error_corrected(code: Code, d: Seq<bool>, q: int)
    requires
        code.valid(),
        0 <= q < code.n(),
    ensures
        decode_block(code, encode_block(code, d).update(q, !encode_block(code, d)[q]))
            == decode_block(code, encode_block(code, d)),
        decode_block(code, encode_block(code, d).update(q, !encode_block(code, d)[q]))
            == Some(padded(code, d)),
{
    lemma_block_round_trip(code, d);
    lemma_parity_discipline(code, d);
    code.lemma_dimensions();
    let c = encode_block(code, d);
    let full = encoded_slots(code, d);
    let j = q + code.base();
    assert(block_slots(code, c) =~= full);
    let f = block_slots(code, c.update(q, !c[q]));
    assert(f =~= full.update(j, !full[j]));
    lemma_flip_syndrome(full, j);
    let jj = j as u64;
    assert(0u64 ^ jj == jj) by (bit_vector);
    assert(syndrome(f) == jj);
    if j == 0 {
        lemma_extract_update_parity(full, 0, !full[0]);
    } else {
        assert(f.update(j, !f[j]) =~= full);
    }
}

/// Two flipped bits in an extended Hamming block are always detected.
#[verifier::rlimit(20)]
pub proof fn lemma_double_error_detected(code: Code, d: Seq<bool>, q1: int, q2: int)
    requires
        code.valid(),
        code.is_extended(),
        0 <= q1 < code.n(),
        0 <= q2 < code.n(),
        q1 != q2,
    ensures
        decode_block(
            code,
            encode_block(code, d).update(q1, !encode_block(code, d)[q1]).update(
                q2,
                !encode_block(code, d)[q2],
            ),
        ) is None,
{
    lemma_parity_discipline(code, d);
    code.lemma_dimensions();
    let c = encode_block(code, d);
    assert(c =~= encoded_slots(code, d));
    let c1 = c.update(q1, !c[q1]);
    let c2 = c1.update(q2, !c[q2]);
    assert(c2 =~= c1.update(q2, !c1[q2]));
    assert(block_slots(code, c2) =~= c2);
    lemma_flip_syndrome(c, q1);
    lemma_flip_syndrome(c1, q2);
    lemma_flip_parity(c, q1);
    lemma_flip_parity(c1, q2);
    let a = q1 as u64;
    let b = q2 as u64;
    assert(a != b ==> (0u64 ^ a) ^ b != 0u64) by (bit_vector);
    assert((0u64 ^ a) ^ b == a ^ b) by (bit_vector);
    lemma_pow2_u64(code.log_slots());
    let mm = code.slots() as u64;
    lemma_xor_below(a, b, mm);
    let syn = syndrome(c2);
    lemma_flip_parity(c2, syn as int);
}

/// `x` is `d` followed by zero bits only.
pub open spec fn zero_extension(x: Seq<bool>, d: Seq<bool>) -> bool {
    x.len() >= d.len() && x.take(d.len() as int) == d && forall|i: int|
        d.len() <= i < x.len() ==> !x[i]
}

proof fn lemma_syndrome_zeros(s: Seq<bool>)
    requires
        forall|i: int| 0 <= i < s.len() ==> !s[i],
    ensures
        syndrome(s) == 0,
        extract(s).len() <= s.len(),
        forall|i: int| 0 <= i < extract(s).len() ==> !extract(s)[i],
    decreases s.len(),
{
    if s.len() > 0 {
        lemma_syndrome_zeros(s.drop_last());
        assert(0u64 ^ 0u64 == 0u64) by (bit_vector);
    }
}

/// Zero bits decode to zero bits.
proof fn lemma_decode_zeros(code: Code, z: Seq<bool>)
    requires
        code.valid(),
        forall|i: int| 0 <= i < z.len() ==> !z[i],
    ensures
        decode_bits(code, z) matches Some(x) && forall|i: int| 0 <= i < x.len() ==> !x[i],
    decreases z.len(),
{
    code.lemma_dimensions();
    if z.len() > 0 {
        let w = chunk_len(z.len() as int, code.n() as int);
        let s = block_slots(code, z.take(w));
        lemma_syndrome_zeros(s);
        lemma_decode_zeros(code, z.skip(w));
    }
}

/// Encoded data followed by any number of zero bits decodes to the data
/// followed by zero bits.
proof fn lemma_stream_round_trip(code: Code, d: Seq<bool>, z: Seq<bool>)
    requires
        code.valid(),
        forall|i: int| 0 <= i < z.len() ==> !z[i],
    ensures
        decode_bits(code, encode_bits(code, d) + z) matches Some(x) && zero_extension(x, d),
    decreases d.len(),
{
    code.lemma_dimensions();
    if d.len() == 0 {
        assert(encode_bits(code, d) + z =~= z);
        lemma_decode_zeros(code, z);
        if let Some(x) = decode_bits(code, z) {
            assert(x.take(0) =~= d);
        }
    } else {
        let k = code.k() as int;
        let n = code.n() as int;
        let w = chunk_len(d.len() as int, k);
        let blk = encode_block(code, d.take(w));
        let tail = encode_bits(code, d.skip(w));
        lemma_stream_round_trip(code, d.skip(w), z);
        lemma_block_round_trip(code, d.take(w));
        let e = encode_bits(code, d) + z;
        assert(blk.len() == n);
        assert(e =~= blk + (tail + z));
        assert(e.take(chunk_len(e.len() as int, n)) =~= blk);
        assert(e.skip(chunk_len(e.len() as int, n)) =~= tail + z);
        let first = padded(code, d.take(w));
        let rest = decode_bits(code, tail + z)->0;
        let x = first + rest;
        assert(decode_bits(code, e) == Some(x));
        if w == k {
            assert(first =~= d.take(w));
            assert forall|i: int| d.len() <= i < x.len() implies !x[i] by {
                assert(x[i] == rest[i - k]);
            }
            assert(x.take(d.len() as int) =~= d) by {
                assert(rest.take(d.skip(w).len() as int) =~= d.skip(w));
                assert forall|i: int| 0 <= i < d.len() implies x[i] == d[i] by {
                    if i >= k {
                        assert(x[i] == rest[i - k]);
                        assert(d.skip(w)[i - k] == d[i]);
                        assert(rest.take(d.skip(w).len() as int)[i - k] == rest[i - k]);
                    }
                }
            }
        } else {
            assert(d.skip(w).len() == 0);
            assert(x.take(d.len() as int) =~= d);
            assert forall|i: int| d.len() <= i < x.len() implies !x[i] by {
                if i >= k {
                    assert(x[i] == rest[i - k]);
                }
            }
        }
    }
}

/// A byte is fixed by its eight bits.
proof fn lemma_byte_from_bits(x: u8, y: u8)
    requires
        forall|j: int| 0 <= j < 8 ==> byte_bit(x, j) == byte_bit(y, j),
    ensures
        x == y,
{
    assert(byte_bit(x, 0) == byte_bit(y, 0));
    assert(byte_bit(x, 1) == byte_bit(y, 1));
    assert(byte_bit(x, 2) == byte_bit(y, 2));
    assert(byte_bit(x, 3) == byte_bit(y, 3));
    assert(byte_bit(x, 4) == byte_bit(y, 4));
    assert(byte_bit(x, 5) == byte_bit(y, 5));
    assert(byte_bit(x, 6) == byte_bit(y, 6));
    assert(byte_bit(x, 7) == byte_bit(y, 7));
    assert(((x >> 0u8) & 1 == 1) == ((y >> 0u8) & 1 == 1) && ((x >> 1u8) & 1 == 1) == ((y >> 1u8)
        & 1 == 1) && ((x >> 2u8) & 1 == 1) == ((y >> 2u8) & 1 == 1) && ((x >> 3u8) & 1 == 1) == ((y
        >> 3u8) & 1 == 1) && ((x >> 4u8) & 1 == 1) == ((y >> 4u8) & 1 == 1) && ((x >> 5u8) & 1
        == 1) == ((y >> 5u8) & 1 == 1) && ((x >> 6u8) & 1 == 1) == ((y >> 6u8) & 1 == 1) && ((x
        >> 7u8) & 1 == 1) == ((y >> 7u8) & 1 == 1) ==> x == y) by (bit_vector);
}

/// Round trip: what `encode` makes of the bytes `b` (any bytes `e` whose bits
/// are its output) decodes without error, and any bytes `r` whose bits are
/// that decoded output are `b` followed by zero bytes only.
pub proof fn lemma_round_trip(code: Code, b: Seq<u8>, e: Seq<u8>, r: Seq<u8>)
    requires
        code.valid(),
        bits_of_bytes(e) == pad_to_byte(encode_bits(code, bits_of_bytes(b))),
    ensures
        decode_bits(code, bits_of_bytes(e)) is Some,
        bits_of_bytes(r) == pad_to_byte(decode_bits(code, bits_of_bytes(e))->0) ==> r.len()
            >= b.len() && r.take(b.len() as int) == b && forall|i: int|
            b.len() <= i < r.len() ==> r[i] == 0,
{
    let db = bits_of_bytes(b);
    let enc = encode_bits(code, db);
    let z = Seq::new((((enc.len() + 7) / 8) * 8 - enc.len()) as nat, |i: int| false);
    lemma_stream_round_trip(code, db, z);
    let x = decode_bits(code, bits_of_bytes(e))->0;
    if bits_of_bytes(r) == pad_to_byte(x) {
        let rb = bits_of_bytes(r);
        assert(rb.len() >= x.len());
        assert forall|i: int| 0 <= i < rb.len() && i >= db.len() implies !rb[i] by {
            if i < x.len() {
                assert(rb[i] == x[i]);
            }
        }
        assert forall|i: int| 0 <= i < db.len() implies rb[i] == db[i] by {
            assert(x.take(db.len() as int)[i] == db[i]);
        }
        assert forall|i: int| 0 <= i < b.len() implies r[i] == b[i] by {
            assert forall|j: int| 0 <= j < 8 implies byte_bit(r[i], j) == byte_bit(b[i], j) by {
                assert(rb[8 * i + j] == db[8 * i + j]);
                assert((8 * i + j) / 8 == i && (8 * i + j) % 8 == j);
            }
            lemma_byte_from_bits(r[i], b[i]);
        }
        assert(r.take(b.len() as int) =~= b);
        assert forall|i: int| b.len() <= i < r.len() implies r[i] == 0 by {
            assert forall|j: int| 0 <= j < 8 implies byte_bit(r[i], j) == byte_bit(0u8, j) by {
                assert(!rb[8 * i + j]);
                assert((8 * i + j) / 8 == i && (8 * i + j) % 8 == j);
                let jj = j as u8;
                assert((0u8 >> jj) & 1u8 != 1u8) by (bit_vector);
                assert(!byte_bit(0u8, j));
                assert(rb[8 * i + j] == byte_bit(r[i], j));
            }
            lemma_byte_from_bits(r[i], 0u8);
        }
    }
}

/// The encoded stream holds one block of `n` bits for each started chunk of
/// `k` data bits.
pub proof fn lemma_encoded_len(code: Code, d: Seq<bool>)
    requires
        code.valid(),
    ensures
        encode_bits(code, d).len() == ((d.len() + code.k() - 1) / code.k() as int) * code.n(),
    decreases d.len(),
{
    code.lemma_dimensions();
    let k = code.k() as int;
    let n = code.n() as int;
    if d.len() > 0 {
        let w = chunk_len(d.len() as int, k);
        lemma_encoded_len(code, d.skip(w));
        assert(encoded_slots(code, d.take(w)).len() == code.slots());
        assert(encode_block(code, d.take(w)).len() == n);
        assert(encode_bits(code, d).len() == n + encode_bits(code, d.skip(w)).len());
        let len = d.len() as int;
        assert(d.skip(w).len() == len - w);
        if len >= k {
            assert((len - k + k - 1) / k + 1 == (len + k - 1) / k) by (nonlinear_arith)
                requires
                    k > 0,
                    len >= k,
            {
                vstd::arithmetic::div_mod::lemma_div_plus_one(len - 1, k);
            }
            assert(((len - k + k - 1) / k) * n + n == ((len + k - 1) / k) * n) by (nonlinear_arith)
                requires
                    (len - k + k - 1) / k + 1 == (len + k - 1) / k,
            ;
        } else {
            assert((len + k - 1) / k == 1) by (nonlinear_arith)
                requires
                    0 < len < k,
            ;
            assert((0 + k - 1) / k == 0) by (nonlinear_arith)
                requires
                    k > 0,
            ;
        }
    } else {
        assert((0 + k - 1) / k == 0) by (nonlinear_arith)
            requires
                k > 0,
        ;
    }
}

/// Block `j` of an encoded stream is the encoding of chunk `j` of the data,
/// so it is a codeword.
proof fn lemma_stream_blocks(code: Code, d: Seq<bool>, j: int)
    requires
        code.valid(),
        0 <= j,
        (j + 1) * code.n() <= encode_bits(code, d).len(),
    ensures
        syndrome(
            block_slots(
                code,
                encode_bits(code, d).subrange(j * code.n(), (j + 1) * code.n()),
            ),
        ) == 0,
        code.is_extended() ==> !parity_of(
            encode_bits(code, d).subrange(j * code.n(), (j + 1) * code.n()),
        ),
    decreases d.len(),
{
    code.lemma_dimensions();
    let n = code.n() as int;
    let k = code.k() as int;
    if d.len() == 0 {
        assert(encode_bits(code, d).len() == 0);
        assert((j + 1) * n >= n) by (nonlinear_arith)
            requires
                j >= 0,
                n > 0,
        ;
    } else {
        let w = chunk_len(d.len() as int, k);
        let blk = encode_block(code, d.take(w));
        let rest = encode_bits(code, d.skip(w));
        assert(encoded_slots(code, d.take(w)).len() == code.slots());
        assert(blk.len() == n);
        let e = encode_bits(code, d);
        assert(e == blk + rest);
        if j == 0 {
            assert(j * n == 0 && (j + 1) * n == n) by (nonlinear_arith)
                requires
                    j == 0,
            ;
            assert(e.subrange(0, n) =~= blk);
            lemma_parity_discipline(code, d.take(w));
        } else {
            assert(j * n == (j - 1) * n + n && (j + 1) * n == j * n + n) by (nonlinear_arith);
            assert((j - 1) * n >= 0) by (nonlinear_arith)
                requires
                    j >= 1,
                    n > 0,
            ;
            lemma_stream_blocks(code, d.skip(w), j - 1);
            assert(e.subrange(j * n, (j + 1) * n) =~= rest.subrange((j - 1) * n, j * n));
        }
    }
}

/// Every whole block of what `encode` makes of the bytes `b` (any bytes `e`
/// whose bits are its output) is a codeword: the XOR of the slot indices of its
/// set bits is 0, and for extended Hamming its bits XOR to 0 too.
pub proof fn lemma_encoded_blocks_are_codewords(code: Code, b: Seq<u8>, e: Seq<u8>, j: int)
    requires
        code.valid(),
        bits_of_bytes(e) == pad_to_byte(encode_bits(code, bits_of_bytes(b))),
        0 <= j < (8 * b.len() + code.k() - 1) / code.k() as int,
    ensures
        syndrome(
            block_slots(code, bits_of_bytes(e).subrange(j * code.n(), (j + 1) * code.n())),
        ) == 0,
        code.is_extended() ==> !parity_of(
            bits_of_bytes(e).subrange(j * code.n(), (j + 1) * code.n()),
        ),
{
    code.lemma_dimensions();
    let d = bits_of_bytes(b);
    let enc = encode_bits(code, d);
    let n = code.n() as int;
    let nb = (8 * b.len() + code.k() - 1) / code.k() as int;
    lemma_encoded_len(code, d);
    assert((j + 1) * n <= nb * n) by (nonlinear_arith)
        requires
            j < nb,
            n > 0,
    ;
    assert(j * n >= 0) by (nonlinear_arith)
        requires
            j >= 0,
            n > 0,
    ;
    assert(d.len() == 8 * b.len());
    assert(enc.len() == nb * n);
    lemma_stream_blocks(code, d, j);
    let padded_enc = pad_to_byte(enc);
    assert forall|i: int| 0 <= i < enc.len() implies padded_enc[i] == enc[i] by {}
    let lo = j * n;
    let hi = (j + 1) * n;
    assert(hi == lo + n) by (nonlinear_arith)
        requires
            lo == j * n,
            hi == (j + 1) * n,
    ;
    assert(hi <= enc.len());
    assert forall|i: int| 0 <= i < n implies bits_of_bytes(e).subrange(lo, hi)[i] == enc.subrange(
        lo,
        hi,
    )[i] by {
        assert(bits_of_bytes(e)[lo + i] == padded_enc[lo + i]);
    }
    assert(bits_of_bytes(e).subrange(lo, hi) =~= enc.subrange(lo, hi));
}

} // verus!
