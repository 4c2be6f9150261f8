use crate::bits::{
    bits_of, bits_of_bytes, bitvec_from_bytes, bitvec_get, bitvec_into_bytes, bitvec_len,
    bitvec_new, bitvec_push, max_bits, pad_to_byte, BitStream,
};
use crate::block::{
    block_slots, chunk_len, corrected, decode_bits, decode_block, extract,
    lemma_extract_len, slot_parity, slot_syndrome,
};
use crate::code::Code;
use crate::error::HammingError;
use vstd::prelude::*;

verus! {

/// Decodes the `w` bits of `bits` at `pos` as one block (short if it is the
/// last one) and appends its data bits to `out`; false where the block cannot
/// be decoded.
fn decode_chunk(code: &Code, bits: &BitStream, pos: usize, w: usize, out: &mut BitStream) -> (ok:
    bool)
    requires
        code.valid(),
        0 < w <= code.n(),
        pos + w <= bits_of(*bits).len(),
        bits_of(*bits).len() <= max_bits(),
        bits_of(*old(out)).len() + w <= max_bits(),
    ensures
        ok == decode_block(*code, bits_of(*bits).subrange(pos as int, pos + w)) is Some,
        ok ==> bits_of(*final(out)) == bits_of(*old(out)) + decode_block(
            *code,
            bits_of(*bits).subrange(pos as int, pos + w),
        )->0,
        ok ==> decode_block(*code, bits_of(*bits).subrange(pos as int, pos + w))->0.len() <= w,
{
    let ghost c = bits_of(*bits).subrange(pos as int, pos + w);
    let ghost full = block_slots(*code, c);
    let base: usize = match code {
        Code::Hamming(_) => 1,
        Code::EHamming(_) => 0,
    };
    assert(base == code.base());

    // The block in slot coordinates.
    let mut s: Vec<bool> = Vec::new();
    if base == 1 {
        s.push(false);
    }
    let mut i: usize = 0;
    while i < w
        invariant
            i <= w,
            base == code.base(),
            c == bits_of(*bits).subrange(pos as int, pos + w),
            full == block_slots(*code, c),
            full.len() == w + base,
            pos + w <= bits_of(*bits).len(),
            bits_of(*bits).len() <= max_bits(),
            s@ =~= full.take(base + i),
        decreases w - i,
    {
        let x = bitvec_get(bits, pos + i);
        s.push(x);
        i = i + 1;
    }
    assert(full.take(base + w) =~= full);

    // Correction.
    let syn = slot_syndrome(&s);
    if syn != 0 {
        if syn >= s.len() as u64 {
            return false;
        }
        let idx = syn as usize;
        let flipped = !s[idx];
        s.set(idx, flipped);
        if base == 0 {
            if slot_parity(&s) {
                return false;
            }
        }
    }
    let ghost t = corrected(*code, c)->0;
    assert(s@ =~= t);

    // The data slots, in order.
    let len = s.len();
    i = 0;
    while i < len
        invariant
            i <= len,
            len == s@.len(),
            len == w + base,
            base <= 1,
            s@ == t,
            bits_of(*old(out)).len() + w <= max_bits(),
            bits_of(*out) =~= bits_of(*old(out)) + extract(s@.take(i as int)),
        decreases len - i,
    {
        proof {
            assert(s@.take(i + 1).drop_last() =~= s@.take(i as int));
            assert(s@.take(i + 1).last() == s@[i as int]);
            lemma_extract_len(s@.take(i as int));
        }
        if !(i == 0 || (i as u64) & ((i - 1) as u64) == 0) {
            bitvec_push(out, s[i]);
        }
        i = i + 1;
    }
    assert(s@.take(len as int) =~= s@);
    proof {
        lemma_extract_len(t);
    }
    true
}

/// Decodes `input` block by block: each run of `block_bits` bits (the last one
/// possibly short) is corrected by its syndrome and gives up its data bits; the
/// data bits are concatenated and padded with zeros to a whole number of bytes.
pub fn decode(input: &[u8], code: &Code) -> (r: Result<Vec<u8>, HammingError>)
    requires
        code.valid(),
        8 * input@.len() <= max_bits(),
    ensures
        match r {
            Ok(v) => decode_bits(*code, bits_of_bytes(input@)) matches Some(x) && bits_of_bytes(v@)
                == pad_to_byte(x),
            Err(e) => e == HammingError::Decode && decode_bits(*code, bits_of_bytes(input@)) is None,
        },
{
    proof {
        code.lemma_dimensions();
    }
    let bits = bitvec_from_bytes(input);
    let ghost d = bits_of(bits);
    let len = bitvec_len(&bits);
    let n = code.block_bits() as usize;
    let mut out = bitvec_new();
    let mut pos: usize = 0;
    assert(d.skip(0) =~= d);
    assert(Seq::<bool>::empty() + d =~= d);
    while pos < len
        invariant
            code.valid(),
            d == bits_of(bits),
            d == bits_of_bytes(input@),
            len == d.len(),
            len <= max_bits(),
            n == code.n(),
            0 < n,
            pos <= len,
            bits_of(out).len() <= pos,
            decode_bits(*code, d.skip(pos as int)) is None ==> decode_bits(*code, d) is None,
            decode_bits(*code, d.skip(pos as int)) matches Some(rest) ==> decode_bits(*code, d)
                == Some(bits_of(out) + rest),
        decreases len - pos,
    {
        let w = if len - pos < n {
            len - pos
        } else {
            n
        };
        let ghost before = bits_of(out);
        let ghost rest = d.skip(pos as int);
        proof {
            assert(w == chunk_len(rest.len() as int, n as int));
            assert(rest.take(w as int) =~= d.subrange(pos as int, pos + w));
            assert(rest.skip(w as int) =~= d.skip(pos + w));
        }
        let ok = decode_chunk(code, &bits, pos, w, &mut out);
        if !ok {
            assert(decode_bits(*code, rest) is None);
            return Err(HammingError::Decode);
        }
        proof {
            let first = decode_block(*code, d.subrange(pos as int, pos + w))->0;
            match decode_bits(*code, d.skip(pos + w)) {
                Some(tail) => {
                    assert(before + (first + tail) =~= before + first + tail);
                },
                None => {},
            }
        }
        pos = pos + w;
    }
    assert(d.skip(pos as int) =~= Seq::<bool>::empty());
    assert(bits_of(out) + Seq::<bool>::empty() =~= bits_of(out));
    Ok(bitvec_into_bytes(out))
}

} // verus!
