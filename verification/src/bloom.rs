//! A filter that says of an address that it was certainly not sampled, or that it may have been.
use vstd::prelude::*;
use crate::bitmap;

verus! {

/// The number of words of the filter.
pub const BLOOM_WORDS: usize = 1024;

/// The number of bits of the filter.
pub const BLOOM_BITS: u64 = 65536;

/// The first bit for an address.
pub open spec fn first_bit(addr: usize) -> int {
    ((addr as u64).wrapping_mul(0x9e37_79b9_7f4a_7c15) >> 17) as int % BLOOM_BITS as int
}

/// The second bit for an address.
pub open spec fn second_bit(addr: usize) -> int {
    let a = addr as u64;
    let h1 = a.wrapping_mul(0x9e37_79b9_7f4a_7c15) >> 17;
    let h2 = (a ^ (a >> 33)).wrapping_mul(0xff51_afd7_ed55_8ccd) >> 17;
    (h1 ^ h2) as int % BLOOM_BITS as int
}

/// Whether a filter with these bits answers that an address may have been sampled.
pub open spec fn admits(bits: Set<int>, addr: usize) -> bool {
    bits.contains(first_bit(addr)) && bits.contains(second_bit(addr))
}

/// The bits with those of an address.
pub open spec fn with_address(bits: Set<int>, addr: usize) -> Set<int> {
    bits.insert(first_bit(addr)).insert(second_bit(addr))
}

/// The filter. An address that was inserted is always admitted; one that was not may be.
pub struct SampleBloom {
    bits: [u64; BLOOM_WORDS],
}

impl SampleBloom {
    /// Whether bit `i` is set.
    pub closed spec fn has(self, i: int) -> bool {
        0 <= i < BLOOM_BITS && bitmap::word_bit(self.bits@[i / 64], (i % 64) as u64)
    }
}

impl View for SampleBloom {
    type V = Set<int>;

    open spec fn view(&self) -> Set<int> {
        Set::new(|i: int| self.has(i))
    }
}

impl SampleBloom {
    /// An empty filter.
    pub fn new() -> (res: SampleBloom)
        ensures
            res@ == Set::<int>::empty(),
    {
        let res = SampleBloom { bits: [0u64; BLOOM_WORDS] };
        proof {
            assert forall|i: int| !res.has(i) by {
                if 0 <= i < BLOOM_BITS {
                    bitmap::lemma_word_zero((i % 64) as u64);
                }
            }
            assert(res@ =~= Set::<int>::empty());
        }
        res
    }

    /// The two bits for an address.
    fn positions(addr: usize) -> (res: (u64, u64))
        ensures
            res.0 == first_bit(addr),
            res.1 == second_bit(addr),
            res.0 < BLOOM_BITS,
            res.1 < BLOOM_BITS,
    {
        let a: u64 = addr as u64;
        let h1: u64 = a.wrapping_mul(0x9e37_79b9_7f4a_7c15) >> 17;
        let h2: u64 = (a ^ (a >> 33)).wrapping_mul(0xff51_afd7_ed55_8ccd) >> 17;
        (h1 % BLOOM_BITS, (h1 ^ h2) % BLOOM_BITS)
    }

    /// Set one bit.
    fn set(&mut self, p: u64)
        requires
            p < BLOOM_BITS,
        ensures
            final(self)@ == old(self)@.insert(p as int),
    {
        let w: usize = (p / 64) as usize;
        let b: u64 = p % 64;
        let ghost before = *self;
        let word: u64 = self.bits[w] | (1u64 << b);
        self.bits[w] = word;
        proof {
            assert forall|j: int| self.has(j) == (before.has(j) || j == p) by {
                if 0 <= j < BLOOM_BITS {
                    bitmap::lemma_word_set(before.bits@[w as int], b, (j % 64) as u64);
                }
            }
            bitmap::lemma_word_set(before.bits@[w as int], b, b);
            assert(self.has(p as int));
            assert(self@ =~= before@.insert(p as int));
        }
    }

    /// Read one bit.
    fn get(&self, p: u64) -> (res: bool)
        requires
            p < BLOOM_BITS,
        ensures
            res == self@.contains(p as int),
    {
        let b: u64 = p % 64;
        proof {
            bitmap::lemma_word_get(self.bits@[p as int / 64], b);
        }
        (self.bits[(p / 64) as usize] >> b) & 1u64 != 0u64
    }

    /// Record that an address was sampled.
    pub fn insert(&mut self, addr: usize)
        ensures
            final(self)@ == with_address(old(self)@, addr),
    {
        let (p1, p2): (u64, u64) = Self::positions(addr);
        self.set(p1);
        self.set(p2);
    }

    /// Whether an address may have been sampled; `false` is certain.
    pub fn maybe_contains(&self, addr: usize) -> (res: bool)
        ensures
            res == admits(self@, addr),
    {
        let (p1, p2): (u64, u64) = Self::positions(addr);
        self.get(p1) && self.get(p2)
    }

    /// Forget every address.
    pub fn reset(&mut self)
        ensures
            final(self)@ == Set::<int>::empty(),
    {
        let mut w: usize = 0;
        while w < BLOOM_WORDS
            invariant
                w <= BLOOM_WORDS,
                forall|i: int| 0 <= i < w ==> #[trigger] self.bits@[i] == 0,
            decreases BLOOM_WORDS - w,
        {
            self.bits[w] = 0;
            w = w + 1;
        }
        proof {
            assert forall|i: int| !self.has(i) by {
                if 0 <= i < BLOOM_BITS {
                    assert(self.bits@[i / 64] == 0);
                    bitmap::lemma_word_zero((i % 64) as u64);
                }
            }
            assert(self@ =~= Set::<int>::empty());
        }
    }
}

impl Default for SampleBloom {
    fn default() -> (res: SampleBloom)
        ensures
            res@ == Set::<int>::empty(),
    {
        SampleBloom::new()
    }
}

/// An inserted address is admitted, and stays so whatever is inserted after it; and a filter
/// in which nothing was inserted admits nothing.
pub proof fn law_no_false_negatives(bits: Set<int>, addr: usize, later: usize)
    ensures
        admits(with_address(bits, addr), addr),
        admits(bits, addr) ==> admits(with_address(bits, later), addr),
        !admits(Set::empty(), addr),
{
}

/// An address adds two bits at most, which are bits of the filter, and takes none away: so a filter
/// of few addresses stays mostly clear, and turns most others away. What it admits has both its
/// bits set.
pub proof fn law_an_address_sets_two_bits(bits: Set<int>, addr: usize)
    requires
        bits.finite(),
    ensures
        with_address(bits, addr).len() <= bits.len() + 2,
        bits.subset_of(with_address(bits, addr)),
        forall|i: int| #[trigger]
            with_address(bits, addr).contains(i) && !bits.contains(i) ==> 0 <= i < BLOOM_BITS,
        first_bit(addr) == second_bit(addr) || !admits(Set::empty().insert(first_bit(addr)), addr),
{
    let once = bits.insert(first_bit(addr));
    vstd::arithmetic::div_mod::lemma_mod_bound(
        ((addr as u64).wrapping_mul(0x9e37_79b9_7f4a_7c15) >> 17) as int,
        BLOOM_BITS as int,
    );
    let a = addr as u64;
    let h1 = a.wrapping_mul(0x9e37_79b9_7f4a_7c15) >> 17;
    let h2 = (a ^ (a >> 33)).wrapping_mul(0xff51_afd7_ed55_8ccd) >> 17;
    vstd::arithmetic::div_mod::lemma_mod_bound((h1 ^ h2) as int, BLOOM_BITS as int);
    assert(once.len() <= bits.len() + 1);
    assert(once.insert(second_bit(addr)).len() <= once.len() + 1);
}

} // verus!
