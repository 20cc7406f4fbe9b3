//! Hugepage bins: how full a hugepage is, and in what state.
use vstd::prelude::*;
use crate::flags::Lifetime;

verus! {

/// How hot a page run or a hugepage is. Advisory: it steers placement, never safety.
#[derive(Clone, Copy, PartialEq, Eq, Debug, Structural)]
pub enum Hotness {
    /// Idle or explicitly cold: the first candidate for a partial subrelease.
    Cold,
    /// No signal.
    Neutral,
    /// Frequently accessed: packed densely.
    Hot,
}

impl Hotness {
    /// The place on the scale `Cold < Neutral < Hot`.
    pub open spec fn rank(self) -> int {
        match self {
            Hotness::Cold => 0,
            Hotness::Neutral => 1,
            Hotness::Hot => 2,
        }
    }

    /// The hotter of two.
    pub open spec fn hotter(self, other: Hotness) -> Hotness {
        if self.rank() >= other.rank() {
            self
        } else {
            other
        }
    }

    /// The class of a request's hotness hint.
    pub open spec fn of_hint(hotness: int) -> Hotness {
        if hotness == 0 {
            Hotness::Cold
        } else if hotness >= 128 {
            Hotness::Hot
        } else {
            Hotness::Neutral
        }
    }

    /// The class of a request's `0..=255` hotness hint: `0` is cold, 128 and above hot.
    pub fn from_hint(hotness: u8) -> (res: Hotness)
        ensures
            res == Hotness::of_hint(hotness as int),
    {
        if hotness == 0 {
            Hotness::Cold
        } else if hotness >= 128 {
            Hotness::Hot
        } else {
            Hotness::Neutral
        }
    }

    /// The hotter of two: one hot resident keeps its hugepage hot.
    pub fn join(self, other: Hotness) -> (res: Hotness)
        ensures
            res == self.hotter(other),
    {
        match self {
            Hotness::Hot => self,
            Hotness::Cold => other,
            Hotness::Neutral => match other {
                Hotness::Hot => other,
                _ => self,
            },
        }
    }
}

impl Default for Hotness {
    fn default() -> (res: Hotness)
        ensures
            res == Hotness::Neutral,
    {
        Hotness::Neutral
    }
}

/// Advisory placement hints: they steer the placement score and nothing else.
#[derive(Clone, Copy, PartialEq, Eq, Debug, Structural)]
pub struct PlaceHints {
    /// Hotness class.
    pub hotness: Hotness,
    /// Expected lifetime.
    pub lifetime: Lifetime,
}

impl PlaceHints {
    /// The given hotness and an unspecified lifetime.
    pub fn hot(hotness: Hotness) -> (res: PlaceHints)
        ensures
            res.hotness == hotness,
            res.lifetime == Lifetime::Unspecified,
    {
        PlaceHints { hotness, lifetime: Lifetime::Unspecified }
    }

    /// No signal on either axis.
    pub open spec fn neutral() -> PlaceHints {
        PlaceHints { hotness: Hotness::Neutral, lifetime: Lifetime::Unspecified }
    }
}

impl Default for PlaceHints {
    fn default() -> (res: PlaceHints)
        ensures
            res == PlaceHints::neutral(),
    {
        PlaceHints { hotness: Hotness::Neutral, lifetime: Lifetime::Unspecified }
    }
}

/// The nine bins a hugepage can be filed in.
#[derive(Clone, Copy, PartialEq, Eq, Debug, Structural)]
pub enum HugeBin {
    /// No live page and no subreleased one: kept backed for quick reuse.
    EmptyBacked,
    /// Less than an eighth live.
    NearlyEmpty,
    /// From one to three eighths live, not cold.
    Sparse,
    /// From three to five eighths live.
    Medium,
    /// Five eighths live or more, not full, not hot.
    NearlyFull,
    /// Every page live, not hot.
    Full,
    /// At least one page was returned to the operating system.
    PartialSubreleased,
    /// From one to three eighths live, and cold: the first candidate for a subrelease.
    ColdSparse,
    /// Five eighths live or more, and hot.
    HotDense,
}

impl HugeBin {
    /// The number of bins.
    pub const COUNT: usize = 9;

    /// The bin's place in the array of bin lists.
    pub open spec fn number(self) -> int {
        match self {
            HugeBin::EmptyBacked => 0,
            HugeBin::NearlyEmpty => 1,
            HugeBin::Sparse => 2,
            HugeBin::Medium => 3,
            HugeBin::NearlyFull => 4,
            HugeBin::Full => 5,
            HugeBin::PartialSubreleased => 6,
            HugeBin::ColdSparse => 7,
            HugeBin::HotDense => 8,
        }
    }

    /// The bin's place in the array of bin lists.
    pub fn index(self) -> (res: usize)
        ensures
            res == self.number(),
            res < HugeBin::COUNT,
    {
        match self {
            HugeBin::EmptyBacked => 0,
            HugeBin::NearlyEmpty => 1,
            HugeBin::Sparse => 2,
            HugeBin::Medium => 3,
            HugeBin::NearlyFull => 4,
            HugeBin::Full => 5,
            HugeBin::PartialSubreleased => 6,
            HugeBin::ColdSparse => 7,
            HugeBin::HotDense => 8,
        }
    }

    /// The bin's name in statistics.
    pub open spec fn name(self) -> Seq<char> {
        match self {
            HugeBin::EmptyBacked => "empty_backed"@,
            HugeBin::NearlyEmpty => "nearly_empty"@,
            HugeBin::Sparse => "sparse"@,
            HugeBin::Medium => "medium"@,
            HugeBin::NearlyFull => "nearly_full"@,
            HugeBin::Full => "full"@,
            HugeBin::PartialSubreleased => "partial_subreleased"@,
            HugeBin::ColdSparse => "cold_sparse"@,
            HugeBin::HotDense => "hot_dense"@,
        }
    }

    /// The bin's name in statistics.
    pub fn as_str(self) -> (res: &'static str)
        ensures
            res@ == self.name(),
    {
        match self {
            HugeBin::EmptyBacked => "empty_backed",
            HugeBin::NearlyEmpty => "nearly_empty",
            HugeBin::Sparse => "sparse",
            HugeBin::Medium => "medium",
            HugeBin::NearlyFull => "nearly_full",
            HugeBin::Full => "full",
            HugeBin::PartialSubreleased => "partial_subreleased",
            HugeBin::ColdSparse => "cold_sparse",
            HugeBin::HotDense => "hot_dense",
        }
    }
}

/// How many whole eighths of `total` are used, with `used * 8` capped at the machine word.
pub open spec fn occupancy_band(used: int, total: int) -> int {
    (if used * 8 > usize::MAX {
        usize::MAX as int
    } else {
        used * 8
    }) / total
}

/// The bin of a hugepage with `used` of `total` pages live and `subreleased` pages returned.
pub open spec fn bin_for(used: int, total: int, subreleased: int, hotness: Hotness) -> HugeBin {
    if subreleased > 0 {
        HugeBin::PartialSubreleased
    } else if used == 0 {
        HugeBin::EmptyBacked
    } else if used >= total {
        if hotness == Hotness::Hot {
            HugeBin::HotDense
        } else {
            HugeBin::Full
        }
    } else {
        let band = occupancy_band(used, total);
        if band == 0 {
            HugeBin::NearlyEmpty
        } else if band <= 2 {
            if hotness == Hotness::Cold {
                HugeBin::ColdSparse
            } else {
                HugeBin::Sparse
            }
        } else if band <= 4 {
            HugeBin::Medium
        } else if hotness == Hotness::Hot {
            HugeBin::HotDense
        } else {
            HugeBin::NearlyFull
        }
    }
}

/// The bin of a hugepage, from its occupancy and state. A subreleased page dominates; an
/// empty hugepage is backed, a full one hot or not; anything between goes by eighths.
pub fn classify_bin(used: usize, total: usize, subreleased: usize, hotness: Hotness) -> (res:
    HugeBin)
    ensures
        res == bin_for(used as int, total as int, subreleased as int, hotness),
{
    if subreleased > 0 {
        return HugeBin::PartialSubreleased;
    }
    if used == 0 {
        return HugeBin::EmptyBacked;
    }
    if used >= total {
        return match hotness {
            Hotness::Hot => HugeBin::HotDense,
            _ => HugeBin::Full,
        };
    }
    let scaled: usize = match used.checked_mul(8) {
        Some(v) => v,
        None => usize::MAX,
    };
    let band: usize = scaled / total;
    if band == 0 {
        HugeBin::NearlyEmpty
    } else if band <= 2 {
        match hotness {
            Hotness::Cold => HugeBin::ColdSparse,
            _ => HugeBin::Sparse,
        }
    } else if band <= 4 {
        HugeBin::Medium
    } else {
        match hotness {
            Hotness::Hot => HugeBin::HotDense,
            _ => HugeBin::NearlyFull,
        }
    }
}

/// The bins in the order in which placement scans them, densest first.
#[verifier::opaque]
pub open spec fn packing_order() -> Seq<HugeBin> {
    seq![
        HugeBin::HotDense,
        HugeBin::NearlyFull,
        HugeBin::Medium,
        HugeBin::Sparse,
        HugeBin::ColdSparse,
        HugeBin::NearlyEmpty,
        HugeBin::PartialSubreleased,
        HugeBin::EmptyBacked,
    ]
}

/// Placement scans eight of the nine bins.
pub proof fn lemma_packing_order_len()
    ensures
        packing_order().len() == 8,
{
    reveal(packing_order);
}

/// The bin in place `k` of the packing order.
pub fn packing_bin(k: usize) -> (res: HugeBin)
    requires
        k < packing_order().len(),
    ensures
        res == packing_order()[k as int],
{
    proof {
        reveal(packing_order);
    }
    if k == 0 {
        HugeBin::HotDense
    } else if k == 1 {
        HugeBin::NearlyFull
    } else if k == 2 {
        HugeBin::Medium
    } else if k == 3 {
        HugeBin::Sparse
    } else if k == 4 {
        HugeBin::ColdSparse
    } else if k == 5 {
        HugeBin::NearlyEmpty
    } else if k == 6 {
        HugeBin::PartialSubreleased
    } else {
        HugeBin::EmptyBacked
    }
}

/// The bin of a full hugepage that is not hot has no room, and placement skips it; every
/// other bin is scanned exactly once.
pub proof fn law_packing_order_is_every_bin_but_full(bin: HugeBin)
    ensures
        bin != HugeBin::Full <==> packing_order().contains(bin),
        forall|i: int, j: int|
            0 <= i < j < packing_order().len() ==> packing_order()[i] != packing_order()[j],
{
    reveal(packing_order);
    let o = packing_order();
    assert(o[0] == HugeBin::HotDense);
    assert(o[1] == HugeBin::NearlyFull);
    assert(o[2] == HugeBin::Medium);
    assert(o[3] == HugeBin::Sparse);
    assert(o[4] == HugeBin::ColdSparse);
    assert(o[5] == HugeBin::NearlyEmpty);
    assert(o[6] == HugeBin::PartialSubreleased);
    assert(o[7] == HugeBin::EmptyBacked);
}

/// The coverage metrics of a set of hugepages, in bytes.
#[derive(Clone, Copy, PartialEq, Eq, Debug)]
pub struct HugeStats {
    /// Bytes of the hugepages opened so far.
    pub coverage_bytes: u64,
    /// Live bytes on hugepages with no subreleased page.
    pub live_bytes_on_intact: u64,
    /// Live bytes on hugepages with a subreleased page.
    pub live_bytes_on_partial: u64,
    /// Backed bytes of empty hugepages.
    pub empty_backed_bytes: u64,
    /// Released bytes of empty hugepages.
    pub empty_released_bytes: u64,
    /// Released bytes of hugepages that hold a live page.
    pub partial_subreleased_bytes: u64,
    /// Backed but free bytes of hugepages that hold a live page.
    pub fragmentation_bytes: u64,
    /// Live bytes in all.
    pub live_total_bytes: u64,
    /// Hugepages in each bin.
    pub bins: [u32; HugeBin::COUNT],
}

/// `a + b`, capped at `max`.
pub open spec fn capped_sum(a: int, b: int, max: int) -> int {
    if a + b > max {
        max
    } else {
        a + b
    }
}

impl Default for HugeStats {
    fn default() -> (res: HugeStats)
        ensures
            res.is_zero(),
    {
        HugeStats {
            coverage_bytes: 0,
            live_bytes_on_intact: 0,
            live_bytes_on_partial: 0,
            empty_backed_bytes: 0,
            empty_released_bytes: 0,
            partial_subreleased_bytes: 0,
            fragmentation_bytes: 0,
            live_total_bytes: 0,
            bins: [0u32; HugeBin::COUNT],
        }
    }
}

impl HugeStats {
    /// Whether every metric is zero.
    pub open spec fn is_zero(self) -> bool {
        &&& self.coverage_bytes == 0
        &&& self.live_bytes_on_intact == 0
        &&& self.live_bytes_on_partial == 0
        &&& self.empty_backed_bytes == 0
        &&& self.empty_released_bytes == 0
        &&& self.partial_subreleased_bytes == 0
        &&& self.fragmentation_bytes == 0
        &&& self.live_total_bytes == 0
        &&& forall|b: int| 0 <= b < HugeBin::COUNT ==> #[trigger] self.bins@[b] == 0
    }

    /// The coverage ratio in basis points: the live bytes on intact hugepages over all live
    /// bytes, at most 10000, with the product capped at the machine word.
    pub open spec fn ratio_bp(self) -> int {
        if self.live_total_bytes == 0 {
            10_000
        } else {
            let scaled = if self.live_bytes_on_intact * 10_000 > u64::MAX {
                u64::MAX as int
            } else {
                self.live_bytes_on_intact * 10_000
            };
            let bp = scaled / (self.live_total_bytes as int);
            if bp > 10_000 {
                10_000
            } else {
                bp
            }
        }
    }

    /// The coverage ratio in basis points (`0..=10000`); 10000 when nothing is live.
    pub fn coverage_ratio_bp(self) -> (res: u32)
        ensures
            res == self.ratio_bp(),
            res <= 10_000,
    {
        if self.live_total_bytes == 0 {
            return 10_000;
        }
        let scaled: u64 = match self.live_bytes_on_intact.checked_mul(10_000) {
            Some(v) => v,
            None => u64::MAX,
        };
        let bp: u64 = scaled / self.live_total_bytes;
        if bp > 10_000 {
            10_000
        } else {
            bp as u32
        }
    }

    /// Whether `self` is the field-wise sum of `a` and `b`, each field capped at its largest
    /// value.
    pub open spec fn is_sum(self, a: HugeStats, b: HugeStats) -> bool {
        let m = u64::MAX as int;
        &&& self.coverage_bytes == capped_sum(a.coverage_bytes as int, b.coverage_bytes as int, m)
        &&& self.live_bytes_on_intact == capped_sum(
            a.live_bytes_on_intact as int,
            b.live_bytes_on_intact as int,
            m,
        )
        &&& self.live_bytes_on_partial == capped_sum(
            a.live_bytes_on_partial as int,
            b.live_bytes_on_partial as int,
            m,
        )
        &&& self.empty_backed_bytes == capped_sum(
            a.empty_backed_bytes as int,
            b.empty_backed_bytes as int,
            m,
        )
        &&& self.empty_released_bytes == capped_sum(
            a.empty_released_bytes as int,
            b.empty_released_bytes as int,
            m,
        )
        &&& self.partial_subreleased_bytes == capped_sum(
            a.partial_subreleased_bytes as int,
            b.partial_subreleased_bytes as int,
            m,
        )
        &&& self.fragmentation_bytes == capped_sum(
            a.fragmentation_bytes as int,
            b.fragmentation_bytes as int,
            m,
        )
        &&& self.live_total_bytes == capped_sum(
            a.live_total_bytes as int,
            b.live_total_bytes as int,
            m,
        )
        &&& forall|i: int|
            0 <= i < HugeBin::COUNT ==> #[trigger] self.bins@[i] == capped_sum(
                a.bins@[i] as int,
                b.bins@[i] as int,
                u32::MAX as int,
            )
    }

    /// The field-wise saturating sum, for the total over several backends.
    pub fn add(self, o: HugeStats) -> (res: HugeStats)
        ensures
            res.is_sum(self, o),
    {
        let mut bins: [u32; HugeBin::COUNT] = self.bins;
        let mut i: usize = 0;
        while i < HugeBin::COUNT
            invariant
                i <= HugeBin::COUNT,
                forall|j: int|
                    0 <= j < i ==> #[trigger] bins@[j] == capped_sum(
                        self.bins@[j] as int,
                        o.bins@[j] as int,
                        u32::MAX as int,
                    ),
                forall|j: int| i <= j < HugeBin::COUNT ==> #[trigger] bins@[j] == self.bins@[j],
            decreases HugeBin::COUNT - i,
        {
            bins[i] = bins[i].saturating_add(o.bins[i]);
            i = i + 1;
        }
        HugeStats {
            coverage_bytes: self.coverage_bytes.saturating_add(o.coverage_bytes),
            live_bytes_on_intact: self.live_bytes_on_intact.saturating_add(o.live_bytes_on_intact),
            live_bytes_on_partial: self.live_bytes_on_partial.saturating_add(
                o.live_bytes_on_partial,
            ),
            empty_backed_bytes: self.empty_backed_bytes.saturating_add(o.empty_backed_bytes),
            empty_released_bytes: self.empty_released_bytes.saturating_add(o.empty_released_bytes),
            partial_subreleased_bytes: self.partial_subreleased_bytes.saturating_add(
                o.partial_subreleased_bytes,
            ),
            fragmentation_bytes: self.fragmentation_bytes.saturating_add(o.fragmentation_bytes),
            live_total_bytes: self.live_total_bytes.saturating_add(o.live_total_bytes),
            bins,
        }
    }
}

} // verus!
