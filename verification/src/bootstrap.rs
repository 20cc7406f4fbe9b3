//! The bump allocator that metadata comes from.
use vstd::prelude::*;
use crate::overflow;
use crate::overflow::align_up;

verus! {

/// A contiguous address range handed out from the bottom up and never taken back.
pub struct BumpArena {
    base: usize,
    len: usize,
    used: usize,
}

impl BumpArena {
    /// First address of the range.
    pub closed spec fn base(self) -> int {
        self.base as int
    }

    /// Length of the range in bytes.
    pub closed spec fn len(self) -> int {
        self.len as int
    }

    /// Bytes handed out so far, padding included.
    pub closed spec fn used(self) -> int {
        self.used as int
    }

    /// The range does not wrap, and what was handed out lies in it.
    pub open spec fn wf(self) -> bool {
        0 <= self.used() <= self.len() && 0 <= self.base() && self.base() + self.len() <= usize::MAX
    }

    /// Where the next `align`-aligned block would start.
    pub open spec fn next_start(self, align: int) -> int {
        overflow::round_up(self.base() + self.used(), align)
    }

    /// An arena over `[base, base + len)`.
    pub fn new(base: usize, len: usize) -> (res: BumpArena)
        requires
            base + len <= usize::MAX,
        ensures
            res.wf(),
            res.base() == base,
            res.len() == len,
            res.used() == 0,
    {
        BumpArena { base, len, used: 0 }
    }

    /// Hand out `bytes` bytes at the next multiple of `align`, or `None`, with nothing
    /// changed, when they do not fit.
    pub fn vend(&mut self, bytes: usize, align: usize) -> (res: Option<usize>)
        requires
            old(self).wf(),
            overflow::is_pow2(align as int),
        ensures
            final(self).wf(),
            final(self).base() == old(self).base(),
            final(self).len() == old(self).len(),
            match res {
                Some(a) => {
                    &&& a == old(self).next_start(align as int)
                    &&& a + bytes <= old(self).base() + old(self).len()
                    &&& final(self).used() == a + bytes - old(self).base()
                },
                None => {
                    &&& old(self).next_start(align as int) + bytes > old(self).base() + old(
                        self,
                    ).len()
                    &&& final(self).used() == old(self).used()
                },
            },
    {
        proof {
            let k = choose|k: nat| align as int == #[trigger] vstd::arithmetic::power2::pow2(k);
            vstd::arithmetic::power2::lemma_pow2_pos(k);
            overflow::lemma_round_up(self.base + self.used, align as int);
        }
        let start: usize = match align_up(self.base + self.used, align) {
            Some(s) => s,
            None => return None,
        };
        let end: usize = match start.checked_add(bytes) {
            Some(e) => e,
            None => return None,
        };
        if end > self.base + self.len {
            return None;
        }
        self.used = end - self.base;
        Some(start)
    }

    /// Whether `addr` lies in the arena's range.
    pub fn contains(&self, addr: usize) -> (res: bool)
        ensures
            res == (self.base() <= addr < self.base() + self.len()),
    {
        addr >= self.base && addr - self.base < self.len
    }
}

} // verus!
