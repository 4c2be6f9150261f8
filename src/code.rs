use vstd::arithmetic::power2::{lemma2_to64, lemma2_to64_rest, lemma_pow2_strictly_increases, pow2};
use vstd::bits::{lemma_u64_pow2_no_overflow, lemma_u64_shl_is_mul};
use vstd::prelude::*;

verus! {

/// A member of the Hamming family of block codes.
#[derive(Debug, Clone, PartialEq, Eq, Structural)]
pub enum Code {
    /// Hamming(2^p - 1, 2^p - 1 - p); the field is the number of parity bits p.
    Hamming(u32),
    /// Extended Hamming(2^(p-1), 2^(p-1) - p); the field is the number of parity bits p,
    /// the overall parity bit included.
    EHamming(u32),
}

/// The largest number of parity bits for which a block size fits in a `u32`.
pub const MAX_PARITY_BITS: u32 = 32;

impl Code {
    /// The codes whose dimensions are defined and fit in a `u32`.
    pub open spec fn valid(self) -> bool {
        match self {
            Code::Hamming(p) => 2 <= p <= MAX_PARITY_BITS,
            Code::EHamming(p) => 3 <= p <= MAX_PARITY_BITS,
        }
    }

    pub open spec fn is_extended(self) -> bool {
        self is EHamming
    }

    pub open spec fn parity(self) -> nat {
        match self {
            Code::Hamming(p) => p as nat,
            Code::EHamming(p) => p as nat,
        }
    }

    /// The block size n.
    pub open spec fn n(self) -> nat {
        match self {
            Code::Hamming(p) => (pow2(p as nat) - 1) as nat,
            Code::EHamming(p) => pow2((p - 1) as nat),
        }
    }

    /// The number of data bits k carried by one block.
    pub open spec fn k(self) -> nat {
        match self {
            Code::Hamming(p) => (pow2(p as nat) - 1 - p) as nat,
            Code::EHamming(p) => (pow2((p - 1) as nat) - p) as nat,
        }
    }

    /// The number of slots the block occupies once the Hamming case is given a
    /// scratch slot 0: always a power of two.
    pub open spec fn slots(self) -> nat {
        match self {
            Code::Hamming(p) => pow2(p as nat),
            Code::EHamming(p) => pow2((p - 1) as nat),
        }
    }

    /// The slot index of block position 0: 1 for Hamming, 0 for extended Hamming.
    pub open spec fn base(self) -> nat {
        if self.is_extended() { 0 } else { 1 }
    }

    /// The exponent of `slots`.
    pub open spec fn log_slots(self) -> nat {
        match self {
            Code::Hamming(p) => p as nat,
            Code::EHamming(p) => (p - 1) as nat,
        }
    }

    /// H(3,1): Hamming with 2 parity bits.
    pub fn h3_1() -> (r: Code)
        ensures
            r == Code::Hamming(2),
    {
        Code::Hamming(2)
    }

    /// H(7,4): Hamming with 3 parity bits.
    pub fn h7_4() -> (r: Code)
        ensures
            r == Code::Hamming(3),
    {
        Code::Hamming(3)
    }

    /// H(15,11): Hamming with 4 parity bits.
    pub fn h15_11() -> (r: Code)
        ensures
            r == Code::Hamming(4),
    {
        Code::Hamming(4)
    }

    /// EH(4,1): extended Hamming with 3 parity bits.
    pub fn eh4_1() -> (r: Code)
        ensures
            r == Code::EHamming(3),
    {
        Code::EHamming(3)
    }

    /// EH(8,4): extended Hamming with 4 parity bits.
    pub fn eh8_4() -> (r: Code)
        ensures
            r == Code::EHamming(4),
    {
        Code::EHamming(4)
    }

    /// EH(16,11): extended Hamming with 5 parity bits.
    pub fn eh16_11() -> (r: Code)
        ensures
            r == Code::EHamming(5),
    {
        Code::EHamming(5)
    }

    /// The code, if any, whose blocks are `b` bits long.
    pub fn from_block_size(b: u32) -> (r: Option<Self>)
        ensures
            r matches Some(c) ==> c.valid() && c.n() == b,
            r is None ==> forall|c: Code| c.valid() ==> c.n() != b,
    {
        let mut p: u32 = 2;
        while p <= MAX_PARITY_BITS
            invariant
                2 <= p <= MAX_PARITY_BITS + 1,
                forall|c: Code| c.valid() && c.parity() < p ==> c.n() != b,
            decreases MAX_PARITY_BITS + 1 - p,
        {
            let h = Code::Hamming(p);
            if h.block_bits() == b {
                return Some(h);
            }
            if p >= 3 {
                let e = Code::EHamming(p);
                if e.block_bits() == b {
                    return Some(e);
                }
            }
            p = p + 1;
        }
        None
    }

    /// The number of bits n of one block.
    pub fn block_bits(&self) -> (r: u32)
        requires
            self.valid(),
        ensures
            r == self.n(),
    {
        proof {
            self.lemma_dimensions();
        }
        match self {
            Code::Hamming(p) => (pow2_u64(*p) - 1) as u32,
            Code::EHamming(p) => pow2_u64(*p - 1) as u32,
        }
    }

    /// The number of data bits k carried by one block.
    pub fn data_bits(&self) -> (r: u32)
        requires
            self.valid(),
        ensures
            r == self.k(),
    {
        proof {
            self.lemma_dimensions();
        }
        match self {
            Code::Hamming(p) => (pow2_u64(*p) - 1 - *p as u64) as u32,
            Code::EHamming(p) => (pow2_u64(*p - 1) - *p as u64) as u32,
        }
    }

    /// The number of parity bits, the overall parity bit of extended Hamming included.
    pub fn parity_bits(&self) -> (r: u32)
        ensures
            r == self.parity(),
    {
        match self {
            Code::Hamming(p) => *p,
            Code::EHamming(p) => *p,
        }
    }

    /// Every valid code has `n = k + parity`, `n > k > 0`, and a slot count
    /// `slots = 2^log_slots = n + base`.
    pub proof fn lemma_dimensions(self)
        requires
            self.valid(),
        ensures
            self.n() == self.k() + self.parity(),
            self.n() > self.k() > 0,
            self.n() <= 4 * self.k(),
            self.n() <= u32::MAX,
            self.slots() == pow2(self.log_slots()),
            self.slots() == self.n() + self.base(),
            2 <= self.log_slots() <= 32,
    {
        lemma_pow2_ge(self.log_slots());
        lemma2_to64();
        lemma2_to64_rest();
    }
}

/// `2^e > e + 1` once `e >= 2`, and `2^e <= 2^32` for `e <= 32`.
pub proof fn lemma_pow2_ge(e: nat)
    ensures
        e >= 2 ==> pow2(e) > e + 1,
        e >= 3 ==> pow2(e) >= 2 * e + 2,
        e <= 32 ==> pow2(e) <= 0x1_0000_0000,
    decreases e,
{
    lemma2_to64();
    if e > 3 {
        lemma_pow2_ge((e - 1) as nat);
        vstd::arithmetic::power2::lemma_pow2_unfold(e);
    }
    if e <= 32 {
        lemma_pow2_strictly_increases_le(e, 32);
    }
}

pub(crate) proof fn lemma_pow2_strictly_increases_le(e1: nat, e2: nat)
    requires
        e1 <= e2,
    ensures
        pow2(e1) <= pow2(e2),
{
    if e1 < e2 {
        lemma_pow2_strictly_increases(e1, e2);
    }
}

/// `2^e` as a `u64`.
pub fn pow2_u64(e: u32) -> (r: u64)
    requires
        e <= 32,
    ensures
        r == pow2(e as nat),
{
    proof {
        lemma_u64_pow2_no_overflow(e as nat);
        lemma_pow2_ge(e as nat);
        lemma_u64_shl_is_mul(1, e as u64);
    }
    1u64 << (e as u64)
}

/// The dimensions of the smallest codes of each family, as tabulated:
/// (n, k, parity) for Hamming with p = 2..5 and extended Hamming with p = 3..5.
pub proof fn lemma_dimension_table()
    ensures
        Code::Hamming(2).n() == 3 && Code::Hamming(2).k() == 1 && Code::Hamming(2).parity() == 2,
        Code::Hamming(3).n() == 7 && Code::Hamming(3).k() == 4 && Code::Hamming(3).parity() == 3,
        Code::Hamming(4).n() == 15 && Code::Hamming(4).k() == 11 && Code::Hamming(4).parity() == 4,
        Code::Hamming(5).n() == 31 && Code::Hamming(5).k() == 26 && Code::Hamming(5).parity() == 5,
        Code::EHamming(3).n() == 4 && Code::EHamming(3).k() == 1 && Code::EHamming(3).parity() == 3,
        Code::EHamming(4).n() == 8 && Code::EHamming(4).k() == 4 && Code::EHamming(4).parity() == 4,
        Code::EHamming(5).n() == 16 && Code::EHamming(5).k() == 11 && Code::EHamming(5).parity()
            == 5,
{
    lemma2_to64();
}

} // verus!
