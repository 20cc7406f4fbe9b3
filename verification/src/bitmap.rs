//! Page bitmaps: the set of pages of one hugepage that have some property.
use vstd::prelude::*;
use vstd::set_lib::*;

verus! {

/// Size of one allocator page in bytes (16 KiB).
pub const PAGE_SIZE: usize = 16384;

/// The request size at and above which the hugepage backend serves (2 MiB).
pub const HUGE_THRESHOLD: usize = 2097152;

/// The platform hugepage size in bytes; a whole power-of-two number of allocator pages.
pub const HUGEPAGE_SIZE: usize = HUGE_THRESHOLD;

/// Allocator pages per hugepage.
pub const PAGES_PER_HUGEPAGE: usize = 128;

/// `u64` words in a per-hugepage page bitmap.
pub const BITMAP_WORDS: usize = 2;

/// Bit `i` of the word `w`.
pub open spec fn word_bit(w: u64, i: u64) -> bool {
    (w >> i) & 1u64 == 1u64
}

/// The pages `[start, start + len)`.
pub open spec fn page_run(start: int, len: int) -> Set<int> {
    set_int_range(start, start + len)
}

/// Every page of a hugepage.
pub open spec fn all_pages() -> Set<int> {
    set_int_range(0, PAGES_PER_HUGEPAGE as int)
}

/// A set of pages of one hugepage, one bit per page.
#[derive(Clone, Copy, Debug)]
pub struct PageBitmap {
    words: [u64; BITMAP_WORDS],
}

impl PageBitmap {
    /// Whether page `i` is in the set.
    pub closed spec fn has(self, i: int) -> bool {
        0 <= i < PAGES_PER_HUGEPAGE && word_bit(self.words@[i / 64], (i % 64) as u64)
    }
}

impl View for PageBitmap {
    type V = Set<int>;

    open spec fn view(&self) -> Set<int> {
        Set::new(|i: int| self.has(i))
    }
}

/// Setting a bit of a word sets that bit alone.
pub proof fn lemma_word_set(w: u64, i: u64, j: u64)
    by (bit_vector)
    requires
        i < 64,
        j < 64,
    ensures
        word_bit(w | (1u64 << i), j) == (i == j || word_bit(w, j)),
{
}

/// Clearing a bit of a word clears that bit alone.
pub proof fn lemma_word_clear(w: u64, i: u64, j: u64)
    by (bit_vector)
    requires
        i < 64,
        j < 64,
    ensures
        word_bit(w & !(1u64 << i), j) == (i != j && word_bit(w, j)),
{
}

/// The word 0 has no bit.
pub proof fn lemma_word_zero(j: u64)
    by (bit_vector)
    requires
        j < 64,
    ensures
        !word_bit(0u64, j),
{
}

/// Reading a bit of a word.
pub proof fn lemma_word_get(w: u64, i: u64)
    by (bit_vector)
    requires
        i < 64,
    ensures
        ((w >> i) & 1u64 != 0u64) == word_bit(w, i),
{
}

/// A page set is a finite set of pages of one hugepage.
pub proof fn lemma_pages_bounded(s: Set<int>)
    requires
        s.subset_of(all_pages()),
    ensures
        s.finite(),
        s.len() <= PAGES_PER_HUGEPAGE,
        s.len() == 0 <==> s == Set::<int>::empty(),
        s.len() == PAGES_PER_HUGEPAGE <==> s == all_pages(),
{
    lemma_int_range(0, PAGES_PER_HUGEPAGE as int);
    lemma_set_subset_finite(all_pages(), s);
    lemma_len_subset(s, all_pages());
    if s.len() == 0 {
        s.lemma_len0_is_empty();
    }
    if s.len() == PAGES_PER_HUGEPAGE {
        lemma_subset_equality(s, all_pages());
    }
}

impl PageBitmap {
    /// The view of a bitmap only holds pages of the hugepage.
    pub proof fn lemma_view(self)
        ensures
            self@.subset_of(all_pages()),
            self@.finite(),
            self@.len() <= PAGES_PER_HUGEPAGE,
            self@.len() == 0 <==> self@ == Set::<int>::empty(),
            self@.len() == PAGES_PER_HUGEPAGE <==> self@ == all_pages(),
    {
        lemma_pages_bounded(self@);
    }

    /// The empty page set.
    pub fn empty() -> (res: PageBitmap)
        ensures
            res@ == Set::<int>::empty(),
    {
        let res = PageBitmap { words: [0u64; BITMAP_WORDS] };
        proof {
            assert forall|i: int| !res.has(i) by {
                if 0 <= i < PAGES_PER_HUGEPAGE {
                    lemma_word_zero((i % 64) as u64);
                }
            }
            assert(res@ =~= Set::<int>::empty());
        }
        res
    }

    /// Whether page `i` is in the set.
    pub fn get(&self, i: usize) -> (res: bool)
        requires
            i < PAGES_PER_HUGEPAGE,
        ensures
            res == self@.contains(i as int),
    {
        proof {
            lemma_word_get(self.words@[i as int / 64], (i % 64) as u64);
        }
        (self.words[i / 64] >> ((i % 64) as u64)) & 1u64 != 0u64
    }

    /// Add page `i`.
    pub fn set(&mut self, i: usize)
        requires
            i < PAGES_PER_HUGEPAGE,
        ensures
            final(self)@ == old(self)@.insert(i as int),
    {
        let w: usize = i / 64;
        let b: u64 = (i % 64) as u64;
        let ghost before = *self;
        let word: u64 = self.words[w] | (1u64 << b);
        self.words[w] = word;
        proof {
            assert forall|j: int| self.has(j) == (before.has(j) || j == i) by {
                if 0 <= j < PAGES_PER_HUGEPAGE {
                    lemma_word_set(before.words@[w as int], b, (j % 64) as u64);
                }
            }
            lemma_word_set(before.words@[w as int], b, b);
            assert(self.has(i as int));
            assert(self@ =~= before@.insert(i as int));
        }
    }

    /// Remove page `i`.
    pub fn clear(&mut self, i: usize)
        requires
            i < PAGES_PER_HUGEPAGE,
        ensures
            final(self)@ == old(self)@.remove(i as int),
    {
        let w: usize = i / 64;
        let b: u64 = (i % 64) as u64;
        let ghost before = *self;
        let word: u64 = self.words[w] & !(1u64 << b);
        self.words[w] = word;
        proof {
            assert forall|j: int| self.has(j) == (before.has(j) && j != i) by {
                if 0 <= j < PAGES_PER_HUGEPAGE {
                    lemma_word_clear(before.words@[w as int], b, (j % 64) as u64);
                }
            }
            assert(self@ =~= before@.remove(i as int));
        }
    }

    /// How many pages the set holds.
    pub fn count(&self) -> (res: usize)
        ensures
            res == self@.len(),
            res <= PAGES_PER_HUGEPAGE,
            res == 0 <==> self@ == Set::<int>::empty(),
            res == PAGES_PER_HUGEPAGE <==> self@ == all_pages(),
    {
        let res: usize = self.count_run(0, PAGES_PER_HUGEPAGE);
        proof {
            self.lemma_view();
            assert(self@.intersect(page_run(0, PAGES_PER_HUGEPAGE as int)) =~= self@);
        }
        res
    }

    /// How many pages of `[start, start + len)` the set holds.
    pub fn count_run(&self, start: usize, len: usize) -> (res: usize)
        requires
            start + len <= PAGES_PER_HUGEPAGE,
        ensures
            res == self@.intersect(page_run(start as int, len as int)).len(),
            res <= len,
            res == len <==> page_run(start as int, len as int).subset_of(self@),
            res == 0 <==> self@.disjoint(page_run(start as int, len as int)),
    {
        let mut n: usize = 0;
        let mut i: usize = start;
        let end: usize = start + len;
        proof {
            assert(self@.intersect(page_run(start as int, 0)) =~= Set::<int>::empty());
        }
        while i < end
            invariant
                start <= i <= end <= PAGES_PER_HUGEPAGE,
                n <= i - start,
                self@.intersect(page_run(start as int, i - start)).finite(),
                n == self@.intersect(page_run(start as int, i - start)).len(),
            decreases end - i,
        {
            let ghost done = self@.intersect(page_run(start as int, i - start));
            let ghost next = self@.intersect(page_run(start as int, i + 1 - start));
            if self.get(i) {
                n = n + 1;
                proof {
                    assert(next =~= done.insert(i as int));
                }
            } else {
                proof {
                    assert(next =~= done);
                }
            }
            i = i + 1;
        }
        proof {
            let run = page_run(start as int, len as int);
            let both = self@.intersect(run);
            lemma_int_range(start as int, start + len);
            if n == len {
                lemma_subset_equality(both, run);
                assert forall|p: int| run.contains(p) implies self@.contains(p) by {
                    assert(both.contains(p));
                }
            }
            if run.subset_of(self@) {
                assert(both =~= run);
            }
            if n == 0 {
                both.lemma_len0_is_empty();
                assert forall|p: int| !(self@.contains(p) && run.contains(p)) by {
                    assert(!both.contains(p));
                }
            }
            if self@.disjoint(run) {
                assert(both =~= Set::<int>::empty());
            }
        }
        n
    }

    /// Whether no page of `[start, start + len)` is in the set.
    pub fn run_is_clear(&self, start: usize, len: usize) -> (res: bool)
        requires
            start + len <= PAGES_PER_HUGEPAGE,
        ensures
            res == self@.disjoint(page_run(start as int, len as int)),
    {
        let mut i: usize = start;
        let end: usize = start + len;
        while i < end
            invariant
                start <= i <= end <= PAGES_PER_HUGEPAGE,
                end == start + len,
                self@.disjoint(page_run(start as int, i - start)),
            decreases end - i,
        {
            if self.get(i) {
                proof {
                    assert(page_run(start as int, len as int).contains(i as int));
                }
                return false;
            }
            i = i + 1;
        }
        true
    }

    /// Whether every page of `[start, start + len)` is in the set.
    pub fn run_is_fully_set(&self, start: usize, len: usize) -> (res: bool)
        requires
            start + len <= PAGES_PER_HUGEPAGE,
        ensures
            res == page_run(start as int, len as int).subset_of(self@),
    {
        self.count_run(start, len) == len
    }

    /// Add every page of `[start, start + len)`.
    pub fn set_run(&mut self, start: usize, len: usize)
        requires
            start + len <= PAGES_PER_HUGEPAGE,
        ensures
            final(self)@ == old(self)@.union(page_run(start as int, len as int)),
    {
        let mut k: usize = start;
        let end: usize = start + len;
        let ghost before = self@;
        proof {
            assert(self@ =~= before.union(page_run(start as int, 0)));
        }
        while k < end
            invariant
                start <= k <= end <= PAGES_PER_HUGEPAGE,
                self@ == before.union(page_run(start as int, k - start)),
            decreases end - k,
        {
            self.set(k);
            k = k + 1;
            proof {
                assert(self@ =~= before.union(page_run(start as int, k - start)));
            }
        }
    }

    /// Remove every page of `[start, start + len)`.
    pub fn clear_run(&mut self, start: usize, len: usize)
        requires
            start + len <= PAGES_PER_HUGEPAGE,
        ensures
            final(self)@ == old(self)@.difference(page_run(start as int, len as int)),
    {
        let mut k: usize = start;
        let end: usize = start + len;
        let ghost before = self@;
        proof {
            assert(self@ =~= before.difference(page_run(start as int, 0)));
        }
        while k < end
            invariant
                start <= k <= end <= PAGES_PER_HUGEPAGE,
                self@ == before.difference(page_run(start as int, k - start)),
            decreases end - k,
        {
            self.clear(k);
            k = k + 1;
            proof {
                assert(self@ =~= before.difference(page_run(start as int, k - start)));
            }
        }
    }

    /// Whether every page of this set is in `other` too.
    pub fn is_subset(&self, other: &PageBitmap) -> (res: bool)
        ensures
            res == self@.subset_of(other@),
    {
        let mut i: usize = 0;
        while i < PAGES_PER_HUGEPAGE
            invariant
                i <= PAGES_PER_HUGEPAGE,
                forall|p: int| 0 <= p < i && self@.contains(p) ==> other@.contains(p),
            decreases PAGES_PER_HUGEPAGE - i,
        {
            if self.get(i) && !other.get(i) {
                return false;
            }
            i = i + 1;
        }
        proof {
            self.lemma_view();
        }
        true
    }

    /// Whether no page is in both sets.
    pub fn is_disjoint(&self, other: &PageBitmap) -> (res: bool)
        ensures
            res == self@.disjoint(other@),
    {
        let mut i: usize = 0;
        while i < PAGES_PER_HUGEPAGE
            invariant
                i <= PAGES_PER_HUGEPAGE,
                forall|p: int| 0 <= p < i && self@.contains(p) ==> !other@.contains(p),
            decreases PAGES_PER_HUGEPAGE - i,
        {
            if self.get(i) && other.get(i) {
                return false;
            }
            i = i + 1;
        }
        proof {
            self.lemma_view();
        }
        true
    }

    /// The first page at or after `from` that is in the set when `want`, or out of it when
    /// not; `PAGES_PER_HUGEPAGE` when there is none.
    pub fn seek(&self, from: usize, want: bool) -> (res: usize)
        requires
            from <= PAGES_PER_HUGEPAGE,
        ensures
            from <= res <= PAGES_PER_HUGEPAGE,
            forall|p: int| from <= p < res ==> self@.contains(p) != want,
            res < PAGES_PER_HUGEPAGE ==> self@.contains(res as int) == want,
    {
        let mut i: usize = from;
        while i < PAGES_PER_HUGEPAGE
            invariant
                from <= i <= PAGES_PER_HUGEPAGE,
                forall|p: int| from <= p < i ==> self@.contains(p) != want,
            decreases PAGES_PER_HUGEPAGE - i,
        {
            if self.get(i) == want {
                return i;
            }
            i = i + 1;
        }
        i
    }

    /// The first multiple of `stride` at which `pages` consecutive pages fit outside the set.
    pub fn find_run_aligned(&self, pages: usize, stride: usize) -> (res: Option<usize>)
        requires
            0 < pages <= PAGES_PER_HUGEPAGE,
            0 < stride <= PAGES_PER_HUGEPAGE,
        ensures
            res == first_fit(self@, pages as int, stride as int),
    {
        let mut off: usize = 0;
        proof {
            assert(0int % (stride as int) == 0) by (nonlinear_arith)
                requires
                    stride > 0,
            ;
        }
        while off + pages <= PAGES_PER_HUGEPAGE
            invariant
                0 < pages <= PAGES_PER_HUGEPAGE,
                0 < stride <= PAGES_PER_HUGEPAGE,
                off <= 2 * PAGES_PER_HUGEPAGE,
                off as int % stride as int == 0,
                forall|o: int| 0 <= o < off ==> !fits_at(self@, o, pages as int, stride as int),
            decreases 2 * PAGES_PER_HUGEPAGE - off,
        {
            if self.run_is_clear(off, pages) {
                proof {
                    lemma_first_fit(self@, off as int, pages as int, stride as int);
                }
                return Some(off);
            }
            proof {
                assert forall|o: int| 0 <= o < off + stride implies !fits_at(
                    self@,
                    o,
                    pages as int,
                    stride as int,
                ) by {
                    if off < o {
                        lemma_between_multiples(off as int, o, stride as int);
                    }
                }
                assert((off + stride) as int % stride as int == 0) by (nonlinear_arith)
                    requires
                        off as int % stride as int == 0,
                        stride > 0,
                ;
            }
            off = off + stride;
        }
        None
    }
}

/// Whether `pages` pages fit outside `taken` at page offset `off`, a multiple of `stride`.
pub open spec fn fits_at(taken: Set<int>, off: int, pages: int, stride: int) -> bool {
    &&& 0 <= off
    &&& off + pages <= PAGES_PER_HUGEPAGE
    &&& off % stride == 0
    &&& taken.disjoint(page_run(off, pages))
}

/// The lowest offset at which `pages` pages fit outside `taken`, if there is one.
pub open spec fn first_fit(taken: Set<int>, pages: int, stride: int) -> Option<usize> {
    if exists|off: int| fits_at(taken, off, pages, stride) {
        Some(
            choose|off: usize|
                #![trigger fits_at(taken, off as int, pages, stride)]
                fits_at(taken, off as int, pages, stride) && forall|o: int|
                    0 <= o < off ==> !fits_at(taken, o, pages, stride),
        )
    } else {
        None
    }
}

/// The offset that [`first_fit`] names is the only one that fits with none below it.
pub proof fn lemma_first_fit(taken: Set<int>, off: int, pages: int, stride: int)
    requires
        fits_at(taken, off, pages, stride),
        0 <= pages,
        forall|o: int| 0 <= o < off ==> !fits_at(taken, o, pages, stride),
    ensures
        first_fit(taken, pages, stride) == Some(off as usize),
        off as usize == off,
{
    assert(fits_at(taken, (off as usize) as int, pages, stride));
}

proof fn lemma_between_multiples(lo: int, x: int, stride: int)
    by (nonlinear_arith)
    requires
        lo % stride == 0,
        stride > 0,
        lo < x < lo + stride,
    ensures
        x % stride != 0,
{
    let q = lo / stride;
    assert(lo == q * stride);
    if x % stride == 0 {
        let r = x / stride;
        assert(x == r * stride);
        assert(q < r < q + 1);
    }
}

/// A first fit lies inside the hugepage.
pub proof fn lemma_fit_bounds(taken: Set<int>, pages: int, stride: int)
    requires
        first_fit(taken, pages, stride) is Some,
        0 <= pages,
        0 < stride,
    ensures
        fits_at(taken, first_fit(taken, pages, stride)->0 as int, pages, stride),
{
    let off = choose|off: int| fits_at(taken, off, pages, stride);
    lemma_least_fit(taken, pages, stride, off);
}

/// Below the offset that [`first_fit`] names nothing fits.
pub proof fn lemma_fit_is_lowest(taken: Set<int>, pages: int, stride: int)
    requires
        first_fit(taken, pages, stride) is Some,
        0 <= pages,
        0 < stride,
    ensures
        forall|o: int|
            0 <= o < first_fit(taken, pages, stride)->0 ==> !#[trigger] fits_at(
                taken,
                o,
                pages,
                stride,
            ),
{
    let off = choose|off: int| fits_at(taken, off, pages, stride);
    lemma_least_of_fits(taken, pages, stride, off);
}

/// Some fit has none below it, and the named one is that.
proof fn lemma_least_of_fits(taken: Set<int>, pages: int, stride: int, off: int)
    requires
        fits_at(taken, off, pages, stride),
        0 <= pages,
    ensures
        forall|o: int|
            0 <= o < first_fit(taken, pages, stride)->0 ==> !#[trigger] fits_at(
                taken,
                o,
                pages,
                stride,
            ),
    decreases off,
{
    if exists|o: int| 0 <= o < off && fits_at(taken, o, pages, stride) {
        let o = choose|o: int| 0 <= o < off && fits_at(taken, o, pages, stride);
        lemma_least_of_fits(taken, pages, stride, o);
    } else {
        lemma_first_fit(taken, off, pages, stride);
    }
}

/// Where something fits, there is a least offset at which it does.
proof fn lemma_least_fit(taken: Set<int>, pages: int, stride: int, off: int)
    requires
        fits_at(taken, off, pages, stride),
        0 <= pages,
    ensures
        first_fit(taken, pages, stride) is Some,
        fits_at(taken, first_fit(taken, pages, stride)->0 as int, pages, stride),
    decreases off,
{
    if exists|o: int| 0 <= o < off && fits_at(taken, o, pages, stride) {
        let o = choose|o: int| 0 <= o < off && fits_at(taken, o, pages, stride);
        lemma_least_fit(taken, pages, stride, o);
    } else {
        lemma_first_fit(taken, off, pages, stride);
    }
}

} // verus!
