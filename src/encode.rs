use crate::bits::{
    bits_of, bits_of_bytes, bitvec_from_bytes, bitvec_get, bitvec_into_bytes, bitvec_len,
    bitvec_new, bitvec_push, max_bits, pad_to_byte, BitStream,
};
use crate::block::{
    chunk_len, data_before, encode_bits, encode_block, encoded_slots, parity_of,
    placed, slot_parity, slot_syndrome, syndrome, with_parity,
};
use crate::code::Code;
use crate::error::HammingError;
use vstd::prelude::*;

verus! {

/// Inputs of `len` bytes encode under `code` to a stream that a `BitStream`
/// can hold: with at most 4 block bits per data bit, `32 * len` bits, plus one
/// block for the chunk that the last data bits start.
pub open spec fn encode_fits(code: Code, len: nat) -> bool {
    32 * len + code.n() <= max_bits()
}

/// Appends to `out` the block that encodes the `w` data bits of `bits` at `pos`.
fn encode_chunk(code: &Code, bits: &BitStream, pos: usize, w: usize, out: &mut BitStream)
    requires
        code.valid(),
        0 < w <= code.k(),
        pos + w <= bits_of(*bits).len(),
        bits_of(*bits).len() <= max_bits(),
        bits_of(*old(out)).len() + code.n() <= max_bits(),
    ensures
        bits_of(*final(out)) == bits_of(*old(out)) + encode_block(
            *code,
            bits_of(*bits).subrange(pos as int, pos + w),
        ),
{
    let ghost d = bits_of(*bits).subrange(pos as int, pos + w);
    proof {
        code.lemma_dimensions();
    }
    let base: usize = match code {
        Code::Hamming(_) => 1,
        Code::EHamming(_) => 0,
    };
    let m: usize = code.block_bits() as usize + base;

    // The data bits in their slots, parity slots zero.
    let mut slots: Vec<bool> = Vec::new();
    let mut i: usize = 0;
    let mut j: usize = 0;
    while i < m
        invariant
            i <= m,
            m == code.slots(),
            j == data_before(i as int),
            j <= i,
            d == bits_of(*bits).subrange(pos as int, pos + w),
            pos + w <= bits_of(*bits).len(),
            bits_of(*bits).len() <= max_bits(),
            slots@ =~= placed(*code, d).take(i as int),
        decreases m - i,
    {
        if i == 0 || (i as u64) & ((i - 1) as u64) == 0 {
            slots.push(false);
        } else {
            if j < w {
                let x = bitvec_get(bits, pos + j);
                slots.push(x);
            } else {
                slots.push(false);
            }
            j = j + 1;
        }
        i = i + 1;
    }

    assert(placed(*code, d).take(m as int) =~= placed(*code, d));

    // Their syndrome.
    let s0 = slot_syndrome(&slots);

    // Parity slots set from the syndrome.
    let mut block: Vec<bool> = Vec::new();
    i = 0;
    while i < m
        invariant
            i <= m,
            m == code.slots(),
            slots@ =~= placed(*code, d),
            s0 == syndrome(placed(*code, d)),
            block@ =~= with_parity(*code, d).take(i as int),
        decreases m - i,
    {
        if i == 0 {
            block.push(false);
        } else if (i as u64) & ((i - 1) as u64) == 0 {
            block.push(s0 & (i as u64) != 0);
        } else {
            block.push(slots[i]);
        }
        i = i + 1;
    }
    assert(block@ =~= with_parity(*code, d));

    // The overall parity.
    let odd = slot_parity(&block);

    // The block, without the scratch slot of plain Hamming.
    let ghost full = encoded_slots(*code, d);
    i = base;
    while i < m
        invariant
            base <= i <= m,
            m == code.slots(),
            base == code.base(),
            m == code.n() + base,
            block@ =~= with_parity(*code, d),
            odd == parity_of(block@),
            full == encoded_slots(*code, d),
            bits_of(*old(out)).len() + code.n() <= max_bits(),
            bits_of(*out) =~= bits_of(*old(out)) + full.skip(base as int).take(i - base),
        decreases m - i,
    {
        let x = if i == 0 {
            odd
        } else {
            block[i]
        };
        proof {
            assert(full.skip(base as int).take(i + 1 - base) =~= full.skip(base as int).take(
                i - base,
            ).push(x));
        }
        bitvec_push(out, x);
        i = i + 1;
    }
    assert(full.skip(base as int).take(m - base) =~= full.skip(base as int));
}

/// Encodes `input` block by block: each chunk of `data_bits` bits (the last one
/// padded with zeros) becomes one block of `block_bits` bits; the blocks are
/// concatenated and padded with zeros to a whole number of bytes.
pub fn encode(input: &[u8], code: &Code) -> (r: Result<Vec<u8>, HammingError>)
    requires
        code.valid(),
        encode_fits(*code, input@.len()),
    ensures
        r matches Ok(v) && bits_of_bytes(v@) == pad_to_byte(
            encode_bits(*code, bits_of_bytes(input@)),
        ),
{
    proof {
        code.lemma_dimensions();
    }
    let bits = bitvec_from_bytes(input);
    let ghost d = bits_of(bits);
    let len = bitvec_len(&bits);
    let k = code.data_bits() as usize;
    let n = code.block_bits() as usize;
    let mut out = bitvec_new();
    let mut pos: usize = 0;
    let ghost mut count: nat = 0;
    assert(d.skip(0) =~= d);
    assert(bits_of(out) + encode_bits(*code, d) =~= encode_bits(*code, d));
    while pos < len
        invariant
            code.valid(),
            d == bits_of(bits),
            len == d.len(),
            4 * len + n <= max_bits(),
            k == code.k(),
            n == code.n(),
            0 < k,
            n <= 4 * k,
            n <= 0x1_0000_0000,
            pos <= len,
            pos == count * k || pos == len,
            bits_of(out).len() == count * n,
            count * k <= len + k,
            bits_of(out) + encode_bits(*code, d.skip(pos as int)) == encode_bits(*code, d),
        decreases len - pos,
    {
        let w = if len - pos < k {
            len - pos
        } else {
            k
        };
        proof {
            assert(count * k <= len) by (nonlinear_arith)
                requires
                    pos == count * k,
                    pos <= len,
            ;
            assert(count * n <= 4 * len) by (nonlinear_arith)
                requires
                    count * k <= len,
                    n <= 4 * k,
            ;
            code.lemma_dimensions();
            let rest = d.skip(pos as int);
            assert(w == chunk_len(rest.len() as int, k as int));
            assert(rest.take(w as int) =~= d.subrange(pos as int, pos + w));
            assert(rest.skip(w as int) =~= d.skip(pos + w));
            let ws = with_parity(*code, d.subrange(pos as int, pos + w));
            assert(ws.len() == code.slots());
        }
        let ghost before = bits_of(out);
        encode_chunk(code, &bits, pos, w, &mut out);
        proof {
            let rest = d.skip(pos as int);
            let blk = encode_block(*code, d.subrange(pos as int, pos + w));
            assert(encode_bits(*code, rest) == blk + encode_bits(*code, rest.skip(w as int)));
            assert(before + blk + encode_bits(*code, d.skip(pos + w)) =~= before + (blk
                + encode_bits(*code, d.skip(pos + w))));
            assert(encoded_slots(*code, d.subrange(pos as int, pos + w)).len() == n + code.base());
            assert((count + 1) * k == count * k + k) by (nonlinear_arith);
            assert((count + 1) * n == count * n + n) by (nonlinear_arith);
            count = count + 1;
        }
        pos = pos + w;
    }
    assert(d.skip(pos as int) =~= Seq::<bool>::empty());
    assert(bits_of(out) + Seq::<bool>::empty() =~= bits_of(out));
    Ok(bitvec_into_bytes(out))
}

} // verus!
