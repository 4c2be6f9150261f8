use crate::code::Code;
use vstd::prelude::*;

verus! {

/// Slot `i` of a block is reserved for parity: index 0 and the powers of two.
pub open spec fn is_parity_slot(i: int) -> bool {
    i == 0 || (i as u64) & ((i - 1) as u64) == 0
}

/// The number of data slots below slot `i`.
pub open spec fn data_before(i: int) -> nat
    decreases i,
{
    if i <= 0 {
        0
    } else if is_parity_slot(i - 1) {
        data_before(i - 1)
    } else {
        data_before(i - 1) + 1
    }
}

/// XOR of the indices of the set slots.
pub open spec fn syndrome(s: Seq<bool>) -> u64
    decreases s.len(),
{
    if s.len() == 0 {
        0
    } else {
        syndrome(s.drop_last()) ^ (if s.last() { (s.len() - 1) as u64 } else { 0u64 })
    }
}

/// XOR of all the bits.
pub open spec fn parity_of(s: Seq<bool>) -> bool
    decreases s.len(),
{
    if s.len() == 0 {
        false
    } else {
        parity_of(s.drop_last()) != s.last()
    }
}

/// The data slots of `s`, in order.
pub open spec fn extract(s: Seq<bool>) -> Seq<bool>
    decreases s.len(),
{
    if s.len() == 0 {
        seq![]
    } else if is_parity_slot(s.len() - 1) {
        extract(s.drop_last())
    } else {
        extract(s.drop_last()).push(s.last())
    }
}

/// The data bits `d` laid into the data slots of a block, in order, with zeros
/// past the end of `d` and in every parity slot.
pub open spec fn placed(code: Code, d: Seq<bool>) -> Seq<bool> {
    Seq::new(
        code.slots(),
        |i: int| !is_parity_slot(i) && data_before(i) < d.len() && d[data_before(i) as int],
    )
}

/// `placed` with each power-of-two slot `j` set where bit `j` of its syndrome is set.
pub open spec fn with_parity(code: Code, d: Seq<bool>) -> Seq<bool> {
    let s0 = syndrome(placed(code, d));
    Seq::new(
        code.slots(),
        |i: int|
            if i == 0 {
                false
            } else if is_parity_slot(i) {
                s0 & (i as u64) != 0
            } else {
                placed(code, d)[i]
            },
    )
}

/// All the slots of the block that encodes `d`: slot 0 carries the overall
/// parity for extended Hamming and is a zero scratch slot for Hamming.
pub open spec fn encoded_slots(code: Code, d: Seq<bool>) -> Seq<bool> {
    let w = with_parity(code, d);
    if code.is_extended() {
        w.update(0, parity_of(w))
    } else {
        w
    }
}

/// The `n` bits of the block that encodes the data bits `d` (at most `k` of them).
pub open spec fn encode_block(code: Code, d: Seq<bool>) -> Seq<bool> {
    encoded_slots(code, d).skip(code.base() as int)
}

/// The bits of a received block (or of a short final one) in slot coordinates.
pub open spec fn block_slots(code: Code, c: Seq<bool>) -> Seq<bool> {
    if code.is_extended() {
        c
    } else {
        seq![false] + c
    }
}

/// The slots of a received block after the correction its syndrome points
/// to, or `None` where the block cannot be decoded: the syndrome points past
/// the block, or, for extended Hamming, a corrected block still has odd parity.
pub open spec fn corrected(code: Code, c: Seq<bool>) -> Option<Seq<bool>> {
    let s = block_slots(code, c);
    let syn = syndrome(s);
    if syn == 0 {
        Some(s)
    } else if syn >= s.len() {
        None
    } else {
        let t = s.update(syn as int, !s[syn as int]);
        if code.is_extended() && parity_of(t) {
            None
        } else {
            Some(t)
        }
    }
}

/// The data bits decoded from one received block `c`.
pub open spec fn decode_block(code: Code, c: Seq<bool>) -> Option<Seq<bool>> {
    match corrected(code, c) {
        Some(t) => Some(extract(t)),
        None => None,
    }
}

/// The length of the next chunk of `w` bits out of `len`.
pub open spec fn chunk_len(len: int, w: int) -> int {
    if len < w {
        len
    } else {
        w
    }
}

/// The blocks that encode the data bits `d`, chunk by chunk of `k` bits.
pub open spec fn encode_bits(code: Code, d: Seq<bool>) -> Seq<bool>
    decreases d.len(),
{
    if d.len() == 0 || code.k() == 0 {
        seq![]
    } else {
        let w = chunk_len(d.len() as int, code.k() as int);
        encode_block(code, d.take(w)) + encode_bits(code, d.skip(w))
    }
}

/// The data bits decoded from the received bits `e`, block by block of `n`
/// bits, the last block possibly short; `None` where a block cannot be decoded.
pub open spec fn decode_bits(code: Code, e: Seq<bool>) -> Option<Seq<bool>>
    decreases e.len(),
{
    if e.len() == 0 || code.n() == 0 {
        Some(seq![])
    } else {
        let w = chunk_len(e.len() as int, code.n() as int);
        match decode_block(code, e.take(w)) {
            None => None,
            Some(first) => match decode_bits(code, e.skip(w)) {
                None => None,
                Some(rest) => Some(first + rest),
            },
        }
    }
}

} // verus!

verus! {

/// The syndrome of the slots `s`.
pub fn slot_syndrome(s: &Vec<bool>) -> (r: u64)
    ensures
        r == syndrome(s@),
{
    let mut r: u64 = 0;
    let mut i: usize = 0;
    while i < s.len()
        invariant
            i <= s@.len(),
            r == syndrome(s@.take(i as int)),
        decreases s@.len() - i,
    {
        proof {
            assert(s@.take(i + 1).drop_last() =~= s@.take(i as int));
            assert(s@.take(i + 1).last() == s@[i as int]);
            assert(r ^ 0u64 == r) by (bit_vector);
        }
        if s[i] {
            r = r ^ (i as u64);
        }
        i = i + 1;
    }
    assert(s@.take(s@.len() as int) =~= s@);
    r
}

/// The overall parity of the slots `s`.
pub fn slot_parity(s: &Vec<bool>) -> (r: bool)
    ensures
        r == parity_of(s@),
{
    let mut r = false;
    let mut i: usize = 0;
    while i < s.len()
        invariant
            i <= s@.len(),
            r == parity_of(s@.take(i as int)),
        decreases s@.len() - i,
    {
        proof {
            assert(s@.take(i + 1).drop_last() =~= s@.take(i as int));
            assert(s@.take(i + 1).last() == s@[i as int]);
        }
        r = r != s[i];
        i = i + 1;
    }
    assert(s@.take(s@.len() as int) =~= s@);
    r
}

/// Slot 0 is a parity slot, so a non-empty block has fewer data bits than slots.
pub proof fn lemma_extract_len(s: Seq<bool>)
    ensures
        extract(s).len() <= s.len(),
        s.len() > 0 ==> extract(s).len() < s.len(),
    decreases s.len(),
{
    if s.len() > 0 {
        lemma_extract_len(s.drop_last());
    }
}

} // verus!
