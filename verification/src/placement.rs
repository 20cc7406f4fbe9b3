//! What is learned of an allocation site from its sampled allocations and frees, and the
//! placement hints that follow from it. All of it is advice: a hint steers which hugepage a run
//! lands in and nothing else.
use vstd::prelude::*;
use crate::flags::Lifetime;
use crate::huge_bin::{Hotness, PlaceHints};

verus! {

/// An allocation site: a hash of the call stack of a sampled allocation.
#[derive(Clone, Copy, PartialEq, Eq, PartialOrd, Ord, Hash, Debug, Default, Structural)]
pub struct StackId(pub u64);

impl StackId {
    /// The site of a sample whose stack could not be captured.
    pub fn unknown() -> (res: StackId)
        ensures
            res == StackId(0),
    {
        StackId(0)
    }

    /// Whether a stack was captured.
    pub fn is_known(self) -> (res: bool)
        ensures
            res == (self != StackId(0)),
    {
        self.0 != 0
    }
}

/// How long objects live, as measured. The order is that of the expected lifetime.
#[derive(Clone, Copy, PartialEq, Eq, PartialOrd, Ord, Debug, Structural)]
pub enum LifetimeClass {
    /// Nothing is known.
    Unknown,
    /// Freed at once.
    Ephemeral,
    /// A request or a transaction.
    Short,
    /// Seconds.
    Medium,
    /// A phase of the process.
    Long,
    /// Until the end.
    Persistent,
}

impl LifetimeClass {
    /// The number of classes.
    pub const COUNT: usize = 6;

    /// From this age in milliseconds on an object is no longer ephemeral.
    pub const EPHEMERAL_MAX_MS: u64 = 1;

    /// From this age in milliseconds on an object is no longer short-lived.
    pub const SHORT_MAX_MS: u64 = 1_000;

    /// From this age in milliseconds on an object is no longer medium-lived.
    pub const MEDIUM_MAX_MS: u64 = 60_000;

    /// From this age in milliseconds on an object is persistent.
    pub const LONG_MAX_MS: u64 = 3_600_000;

    /// The place on the scale of lifetimes.
    pub open spec fn rank(self) -> int {
        match self {
            LifetimeClass::Unknown => 0,
            LifetimeClass::Ephemeral => 1,
            LifetimeClass::Short => 2,
            LifetimeClass::Medium => 3,
            LifetimeClass::Long => 4,
            LifetimeClass::Persistent => 5,
        }
    }

    /// The class in place `i` of the scale.
    pub open spec fn at_rank(i: int) -> LifetimeClass {
        if i == 1 {
            LifetimeClass::Ephemeral
        } else if i == 2 {
            LifetimeClass::Short
        } else if i == 3 {
            LifetimeClass::Medium
        } else if i == 4 {
            LifetimeClass::Long
        } else if i == 5 {
            LifetimeClass::Persistent
        } else {
            LifetimeClass::Unknown
        }
    }

    /// The class of an object of that age.
    pub open spec fn of_age(age_ms: int) -> LifetimeClass {
        if age_ms < Self::EPHEMERAL_MAX_MS {
            LifetimeClass::Ephemeral
        } else if age_ms < Self::SHORT_MAX_MS {
            LifetimeClass::Short
        } else if age_ms < Self::MEDIUM_MAX_MS {
            LifetimeClass::Medium
        } else if age_ms < Self::LONG_MAX_MS {
            LifetimeClass::Long
        } else {
            LifetimeClass::Persistent
        }
    }

    /// The coarse hint for the class.
    pub open spec fn coarse(self) -> Lifetime {
        match self {
            LifetimeClass::Unknown => Lifetime::Unspecified,
            LifetimeClass::Ephemeral => Lifetime::Short,
            LifetimeClass::Short => Lifetime::Short,
            LifetimeClass::Medium => Lifetime::Medium,
            LifetimeClass::Long => Lifetime::Long,
            LifetimeClass::Persistent => Lifetime::Long,
        }
    }

    /// The name of the class.
    pub open spec fn name(self) -> Seq<char> {
        match self {
            LifetimeClass::Unknown => "unknown"@,
            LifetimeClass::Ephemeral => "ephemeral"@,
            LifetimeClass::Short => "short"@,
            LifetimeClass::Medium => "medium"@,
            LifetimeClass::Long => "long"@,
            LifetimeClass::Persistent => "persistent"@,
        }
    }

    /// The class of an object of that measured age; never unknown.
    pub fn from_age_ms(age_ms: u64) -> (res: LifetimeClass)
        ensures
            res == LifetimeClass::of_age(age_ms as int),
    {
        if age_ms < Self::EPHEMERAL_MAX_MS {
            LifetimeClass::Ephemeral
        } else if age_ms < Self::SHORT_MAX_MS {
            LifetimeClass::Short
        } else if age_ms < Self::MEDIUM_MAX_MS {
            LifetimeClass::Medium
        } else if age_ms < Self::LONG_MAX_MS {
            LifetimeClass::Long
        } else {
            LifetimeClass::Persistent
        }
    }

    /// The place on the scale of lifetimes.
    pub fn index(self) -> (res: usize)
        ensures
            res == self.rank(),
            res < LifetimeClass::COUNT,
    {
        match self {
            LifetimeClass::Unknown => 0,
            LifetimeClass::Ephemeral => 1,
            LifetimeClass::Short => 2,
            LifetimeClass::Medium => 3,
            LifetimeClass::Long => 4,
            LifetimeClass::Persistent => 5,
        }
    }

    /// The class in place `i` of the scale; unknown when there is none.
    pub fn from_index(i: usize) -> (res: LifetimeClass)
        ensures
            res == LifetimeClass::at_rank(i as int),
    {
        match i {
            1 => LifetimeClass::Ephemeral,
            2 => LifetimeClass::Short,
            3 => LifetimeClass::Medium,
            4 => LifetimeClass::Long,
            5 => LifetimeClass::Persistent,
            _ => LifetimeClass::Unknown,
        }
    }

    /// The name of the class.
    pub fn as_str(self) -> (res: &'static str)
        ensures
            res@ == self.name(),
    {
        match self {
            LifetimeClass::Unknown => "unknown",
            LifetimeClass::Ephemeral => "ephemeral",
            LifetimeClass::Short => "short",
            LifetimeClass::Medium => "medium",
            LifetimeClass::Long => "long",
            LifetimeClass::Persistent => "persistent",
        }
    }

    /// The coarse hint for the class.
    pub fn to_hint(self) -> (res: Lifetime)
        ensures
            res == self.coarse(),
    {
        match self {
            LifetimeClass::Unknown => Lifetime::Unspecified,
            LifetimeClass::Ephemeral => Lifetime::Short,
            LifetimeClass::Short => Lifetime::Short,
            LifetimeClass::Medium => Lifetime::Medium,
            LifetimeClass::Long => Lifetime::Long,
            LifetimeClass::Persistent => Lifetime::Long,
        }
    }
}

impl Default for LifetimeClass {
    fn default() -> (res: LifetimeClass)
        ensures
            res == LifetimeClass::Unknown,
    {
        LifetimeClass::Unknown
    }
}

/// An older object is of the same class or a longer-lived one; every class is in its own place
/// on the scale; a longer-lived class never gives a shorter-lived hint; and only the unknown
/// class gives none.
pub proof fn law_lifetime_scale(a: int, b: int, c: LifetimeClass, d: LifetimeClass)
    requires
        0 <= a <= b,
        c.rank() <= d.rank(),
    ensures
        LifetimeClass::of_age(a).rank() <= LifetimeClass::of_age(b).rank(),
        LifetimeClass::of_age(a) != LifetimeClass::Unknown,
        LifetimeClass::at_rank(c.rank()) == c,
        c.coarse().rank() <= d.coarse().rank(),
        c.coarse() == Lifetime::Unspecified <==> c == LifetimeClass::Unknown,
{
}

/// `n`, capped at the largest count.
pub open spec fn cap32(n: int) -> int {
    if n > u32::MAX {
        u32::MAX as int
    } else {
        n
    }
}

/// The sum of the first `n` counts.
pub open spec fn sum_counts(s: Seq<u32>, n: int) -> int
    decreases n,
{
    if n <= 0 {
        0
    } else {
        sum_counts(s, n - 1) + s[n - 1]
    }
}

/// A histogram, mathematically.
#[verifier::ext_equal]
pub struct HistogramView {
    /// Lifetimes by class.
    pub counts: Seq<u32>,
    /// How many are of objects that were still live.
    pub censored: u32,
}

impl HistogramView {
    /// No lifetimes.
    pub open spec fn empty() -> HistogramView {
        HistogramView {
            counts: Seq::new(LifetimeClass::COUNT as nat, |i: int| 0u32),
            censored: 0,
        }
    }

    /// With one more lifetime of the class.
    pub open spec fn with(self, class: LifetimeClass) -> HistogramView {
        HistogramView {
            counts: self.counts.update(
                class.rank(),
                cap32(self.counts[class.rank()] + 1) as u32,
            ),
            ..self
        }
    }

    /// With one more lifetime, of an object that was still live.
    pub open spec fn with_censored(self, class: LifetimeClass) -> HistogramView {
        HistogramView { censored: cap32(self.censored + 1) as u32, ..self.with(class) }
    }

    /// All lifetimes, capped.
    pub open spec fn all(self) -> int {
        cap32(sum_counts(self.counts, LifetimeClass::COUNT as int))
    }

    /// The class with the most lifetimes is in place `i`, the longest-lived one when there are
    /// several; 0 when there are no lifetimes.
    pub open spec fn peaks_at(self, i: int) -> bool {
        ||| {
            &&& i == 0
            &&& forall|j: int| 0 < j < LifetimeClass::COUNT ==> #[trigger] self.counts[j] == 0
        }
        ||| {
            &&& 0 < i < LifetimeClass::COUNT
            &&& self.counts[i] > 0
            &&& forall|j: int|
                0 < j < LifetimeClass::COUNT ==> #[trigger] self.counts[j] <= self.counts[i]
            &&& forall|j: int|
                i < j < LifetimeClass::COUNT ==> #[trigger] self.counts[j] < self.counts[i]
        }
    }

    /// Where the histogram peaks.
    pub open spec fn peak(self) -> int {
        choose|i: int| self.peaks_at(i)
    }

    /// How many lifetimes the most frequent class has.
    pub open spec fn peak_count(self) -> int {
        if self.peak() == 0 {
            0
        } else {
            self.counts[self.peak()] as int
        }
    }

    /// A histogram peaks in one place only.
    pub proof fn lemma_peak(self, i: int)
        requires
            self.peaks_at(i),
            self.counts.len() == LifetimeClass::COUNT,
        ensures
            self.peak() == i,
    {
        let j = self.peak();
        assert(self.peaks_at(j));
        if i == 0 {
            if j != 0 {
                assert(self.counts[j] == 0);
            }
        } else if j == 0 {
            assert(self.counts[i] == 0);
        } else {
            assert(self.counts[i] <= self.counts[j]);
            assert(self.counts[j] <= self.counts[i]);
        }
    }
}

/// Counts of lifetimes by class. The class of an object that was still live is a lower bound.
#[derive(Clone, Copy, PartialEq, Eq, Debug)]
pub struct LifetimeHistogram {
    counts: [u32; LifetimeClass::COUNT],
    censored: u32,
}

impl View for LifetimeHistogram {
    type V = HistogramView;

    closed spec fn view(&self) -> HistogramView {
        HistogramView { counts: self.counts@, censored: self.censored }
    }
}

impl Default for LifetimeHistogram {
    fn default() -> (res: LifetimeHistogram)
        ensures
            res@ == HistogramView::empty(),
    {
        let h = LifetimeHistogram { counts: [0u32; LifetimeClass::COUNT], censored: 0 };
        proof {
            assert(h@.counts =~= HistogramView::empty().counts);
        }
        h
    }
}

impl LifetimeHistogram {
    /// Every histogram has a count for each class.
    pub proof fn lemma_len(self)
        ensures
            self@.counts.len() == LifetimeClass::COUNT,
    {
    }

    /// Record the lifetime of an object that was freed.
    pub fn record(&mut self, class: LifetimeClass)
        ensures
            final(self)@ == old(self)@.with(class),
    {
        let i: usize = class.index();
        self.counts[i] = self.counts[i].saturating_add(1);
        proof {
            assert(self@ =~= old(self)@.with(class));
        }
    }

    /// Record the lifetime so far of an object that is still live.
    pub fn record_censored(&mut self, floor: LifetimeClass)
        ensures
            final(self)@ == old(self)@.with_censored(floor),
    {
        self.record(floor);
        self.censored = self.censored.saturating_add(1);
    }

    /// All lifetimes.
    pub fn total(&self) -> (res: u32)
        ensures
            res == self@.all(),
    {
        let mut sum: u32 = 0;
        let mut i: usize = 0;
        while i < LifetimeClass::COUNT
            invariant
                i <= LifetimeClass::COUNT,
                sum == cap32(sum_counts(self@.counts, i as int)),
                0 <= sum_counts(self@.counts, i as int),
            decreases LifetimeClass::COUNT - i,
        {
            sum = sum.saturating_add(self.counts[i]);
            i = i + 1;
        }
        sum
    }

    /// How many lifetimes are of objects that were still live.
    pub fn censored(&self) -> (res: u32)
        ensures
            res == self@.censored,
    {
        self.censored
    }

    /// The lifetimes of one class.
    pub fn count(&self, class: LifetimeClass) -> (res: u32)
        ensures
            res == self@.counts[class.rank()],
    {
        self.counts[class.index()]
    }

    /// The class with the most lifetimes, the longest-lived one when there are several, and how
    /// many it has; unknown and 0 when there are none.
    pub fn dominant(&self) -> (res: (LifetimeClass, u32))
        ensures
            res.0.rank() == self@.peak(),
            self@.peaks_at(res.0.rank()),
            res.1 == self@.peak_count(),
    {
        let mut best: usize = 0;
        let mut best_n: u32 = 0;
        let mut i: usize = 1;
        while i < LifetimeClass::COUNT
            invariant
                1 <= i <= LifetimeClass::COUNT,
                best < i,
                best == 0 ==> best_n == 0,
                best > 0 ==> best_n == self@.counts[best as int] > 0,
                forall|j: int| 0 < j < i ==> #[trigger] self@.counts[j] <= best_n,
                forall|j: int| best < j < i ==> #[trigger] self@.counts[j] < best_n || best == 0,
            decreases LifetimeClass::COUNT - i,
        {
            let n: u32 = self.counts[i];
            proof {
                assert(n == self@.counts[i as int]);
            }
            if n >= best_n && n > 0 {
                best_n = n;
                best = i;
            }
            i = i + 1;
        }
        proof {
            assert(self@.peaks_at(best as int));
            self.lemma_len();
            self@.lemma_peak(best as int);
        }
        (LifetimeClass::from_index(best), best_n)
    }
}

/// How many buckets a size distribution monitors.
pub const SIZE_DIST_K: usize = 4;

/// A bucket is monitored.
pub open spec fn monitors(s: Seq<(u16, u32, u32)>, bucket: u16) -> bool {
    exists|i: int| 0 <= i < s.len() && (#[trigger] s[i]).0 == bucket
}

/// Where a monitored bucket stands.
pub open spec fn place_of(s: Seq<(u16, u32, u32)>, bucket: u16) -> int {
    choose|i: int| 0 <= i < s.len() && (#[trigger] s[i]).0 == bucket
}

/// The first of the least counts stands at `i`.
pub open spec fn least_at(s: Seq<(u16, u32, u32)>, i: int) -> bool {
    &&& 0 <= i < s.len()
    &&& forall|j: int| 0 <= j < s.len() ==> s[i].1 <= (#[trigger] s[j]).1
    &&& forall|j: int| 0 <= j < i ==> s[i].1 < (#[trigger] s[j]).1
}

/// Where the first of the least counts stands.
pub open spec fn least_place(s: Seq<(u16, u32, u32)>) -> int {
    choose|i: int| least_at(s, i)
}

/// The entries after one more observation: a monitored bucket counts one more; another takes
/// a free entry; and without one it takes over the entry with the least count, which it may be
/// overcounted by.
pub open spec fn observed(s: Seq<(u16, u32, u32)>, bucket: u16) -> Seq<(u16, u32, u32)> {
    if monitors(s, bucket) {
        let i = place_of(s, bucket);
        s.update(i, (bucket, cap32(s[i].1 + 1) as u32, s[i].2))
    } else if s.len() < SIZE_DIST_K {
        s.push((bucket, 1u32, 0u32))
    } else {
        let i = least_place(s);
        s.update(i, (bucket, cap32(s[i].1 + 1) as u32, s[i].1))
    }
}

/// No bucket is monitored twice, and not too many are.
pub open spec fn entries_ok(s: Seq<(u16, u32, u32)>) -> bool {
    &&& s.len() <= SIZE_DIST_K
    &&& forall|i: int, j: int|
        #![trigger s[i], s[j]]
        0 <= i < j < s.len() ==> s[i].0 != s[j].0
}

/// A size distribution, mathematically.
#[verifier::ext_equal]
pub struct DistView {
    /// Bucket, count and overcount of each monitored bucket.
    pub entries: Seq<(u16, u32, u32)>,
    /// All observations.
    pub total: u32,
}

impl DistView {
    /// No observations.
    pub open spec fn empty() -> DistView {
        DistView { entries: Seq::empty(), total: 0 }
    }

    /// With one more observation.
    pub open spec fn with(self, bucket: u16) -> DistView {
        DistView {
            entries: observed(self.entries, bucket),
            total: cap32(self.total + 1) as u32,
        }
    }

    /// What a sequence of observations leaves, the last one made last.
    pub open spec fn of(history: Seq<u16>) -> DistView
        decreases history.len(),
    {
        if history.len() == 0 {
            DistView::empty()
        } else {
            DistView::of(history.drop_last()).with(history.last())
        }
    }

    /// The entry at `i` has the largest count, and is the first that has.
    pub open spec fn leads(self, i: int) -> bool {
        let s = self.entries;
        &&& 0 <= i < s.len()
        &&& forall|j: int| 0 <= j < s.len() ==> (#[trigger] s[j]).1 <= s[i].1
        &&& forall|j: int| 0 <= j < i ==> (#[trigger] s[j]).1 < s[i].1
    }
}

/// A bounded summary of the sizes that a site allocates. Each monitored bucket has a count, and
/// a bound on how much of the count is not its own.
#[derive(Clone, Copy, PartialEq, Eq, Debug)]
pub struct SizeClassDist {
    buckets: [u16; SIZE_DIST_K],
    counts: [u32; SIZE_DIST_K],
    errors: [u32; SIZE_DIST_K],
    len: u8,
    total: u32,
}

impl View for SizeClassDist {
    type V = DistView;

    closed spec fn view(&self) -> DistView {
        DistView {
            entries: Seq::new(
                self.len as nat,
                |i: int| (self.buckets@[i], self.counts@[i], self.errors@[i]),
            ),
            total: self.total,
        }
    }
}

impl Default for SizeClassDist {
    fn default() -> (res: SizeClassDist)
        ensures
            res.wf(),
            res@ == DistView::empty(),
    {
        let d = SizeClassDist {
            buckets: [0u16; SIZE_DIST_K],
            counts: [0u32; SIZE_DIST_K],
            errors: [0u32; SIZE_DIST_K],
            len: 0,
            total: 0,
        };
        proof {
            assert(d@.entries =~= Seq::<(u16, u32, u32)>::empty());
        }
        d
    }
}

impl SizeClassDist {
    /// The bucket of requests above the small sizes and below a hugepage.
    pub const BUCKET_MEDIUM: u16 = 0xfffe;

    /// The bucket of large requests.
    pub const BUCKET_LARGE: u16 = 0xffff;

    /// No bucket is monitored twice, and not too many are.
    pub open spec fn wf(self) -> bool {
        entries_ok(self@.entries)
    }

    /// Observe one allocation of `bucket`.
    pub fn observe(&mut self, bucket: u16)
        requires
            old(self).wf(),
        ensures
            final(self).wf(),
            final(self)@ == old(self)@.with(bucket),
    {
        let ghost s = self@.entries;
        let ghost before = *self;
        let len: usize = self.len as usize;
        self.total = self.total.saturating_add(1);
        let mut i: usize = 0;
        while i < len
            invariant
                len == s.len() <= SIZE_DIST_K,
                len == self.len,
                i <= len,
                s == self@.entries,
                entries_ok(s),
                s == old(self)@.entries,
                self.total == cap32(old(self)@.total + 1),
                forall|j: int| 0 <= j < i ==> (#[trigger] s[j]).0 != bucket,
            decreases len - i,
        {
            proof {
                assert(s[i as int].0 == self.buckets@[i as int]);
                assert(s[i as int].1 == self.counts@[i as int]);
            }
            if self.buckets[i] == bucket {
                self.counts[i] = self.counts[i].saturating_add(1);
                proof {
                    assert(monitors(s, bucket));
                    let p = place_of(s, bucket);
                    assert(s[p].0 == bucket);
                    assert(p == i);
                    assert(self@.entries =~= observed(s, bucket));
                }
                return;
            }
            i = i + 1;
        }
        proof {
            assert(!monitors(s, bucket));
        }
        if len < SIZE_DIST_K {
            self.buckets[len] = bucket;
            self.counts[len] = 1;
            self.errors[len] = 0;
            self.len = self.len + 1;
            proof {
                assert(self@.entries =~= s.push((bucket, 1u32, 0u32)));
            }
            return;
        }
        let mut min_i: usize = 0;
        let mut k: usize = 1;
        while k < SIZE_DIST_K
            invariant
                1 <= k <= SIZE_DIST_K,
                min_i < k,
                s == self@.entries,
                s.len() == SIZE_DIST_K,
                self.len == SIZE_DIST_K,
                forall|j: int|
                    0 <= j < k ==> self.counts@[min_i as int] <= #[trigger] self.counts@[j],
                forall|j: int|
                    0 <= j < min_i ==> self.counts@[min_i as int] < #[trigger] self.counts@[j],
            decreases SIZE_DIST_K - k,
        {
            if self.counts[k] < self.counts[min_i] {
                min_i = k;
            }
            k = k + 1;
        }
        let min: u32 = self.counts[min_i];
        proof {
            assert forall|j: int| 0 <= j < s.len() implies (#[trigger] s[j]).1 == self.counts@[j] by {}
            assert(least_at(s, min_i as int));
            lemma_least_place(s, min_i as int);
        }
        self.buckets[min_i] = bucket;
        self.counts[min_i] = min.saturating_add(1);
        self.errors[min_i] = min;
        proof {
            assert(self@.entries =~= observed(s, bucket));
        }
    }

    /// The most observed bucket, the first when there are several, and its count; `None` when
    /// nothing was observed.
    pub fn dominant(&self) -> (res: Option<(u16, u32)>)
        requires
            self.wf(),
        ensures
            match res {
                Some((bucket, count)) => exists|i: int| #[trigger]
                    self@.leads(i) && self@.entries[i].0 == bucket && self@.entries[i].1 == count,
                None => self@.entries.len() == 0,
            },
    {
        let ghost s = self@.entries;
        let len: usize = self.len as usize;
        if len == 0 {
            return None;
        }
        let mut best: usize = 0;
        let mut i: usize = 1;
        while i < len
            invariant
                len == self.len == s.len() <= SIZE_DIST_K,
                1 <= i <= len,
                best < i,
                forall|j: int| 0 <= j < i ==> #[trigger] self.counts@[j] <= self.counts@[best as int],
                forall|j: int|
                    0 <= j < best ==> #[trigger] self.counts@[j] < self.counts@[best as int],
            decreases len - i,
        {
            if self.counts[i] > self.counts[best] {
                best = i;
            }
            i = i + 1;
        }
        proof {
            assert forall|j: int| 0 <= j < s.len() implies (#[trigger] s[j]).1 == self.counts@[j] by {}
            assert(self@.leads(best as int));
        }
        Some((self.buckets[best], self.counts[best]))
    }

    /// Bucket, count and overcount of each monitored bucket.
    pub fn entries(&self) -> (res: Vec<(u16, u32, u32)>)
        requires
            self.wf(),
        ensures
            res@ == self@.entries,
    {
        let mut out: Vec<(u16, u32, u32)> = Vec::new();
        let len: usize = self.len as usize;
        let mut i: usize = 0;
        while i < len
            invariant
                len == self.len == self@.entries.len() <= SIZE_DIST_K,
                i <= len,
                out@ == self@.entries.take(i as int),
            decreases len - i,
        {
            out.push((self.buckets[i], self.counts[i], self.errors[i]));
            i = i + 1;
            proof {
                assert(out@ =~= self@.entries.take(i as int));
            }
        }
        proof {
            assert(self@.entries.take(len as int) =~= self@.entries);
        }
        out
    }

    /// All observations.
    pub fn total(&self) -> (res: u32)
        ensures
            res == self@.total,
    {
        self.total
    }
}

/// The first of the least counts stands in one place only.
proof fn lemma_least_place(s: Seq<(u16, u32, u32)>, i: int)
    requires
        least_at(s, i),
    ensures
        least_place(s) == i,
{
    let j = least_place(s);
    assert(least_at(s, j));
    assert(s[i].1 <= s[j].1 && s[j].1 <= s[i].1);
}

/// A full table of entries has a least count.
proof fn lemma_some_least(s: Seq<(u16, u32, u32)>, n: int)
    requires
        0 < n <= s.len(),
    ensures
        exists|i: int|
            {
                &&& 0 <= i < n
                &&& (forall|j: int| 0 <= j < n ==> s[i].1 <= (#[trigger] s[j]).1)
                &&& (forall|j: int| 0 <= j < i ==> s[i].1 < (#[trigger] s[j]).1)
                &&& #[trigger] least_at(s.take(n), i)
            },
    decreases n,
{
    let t = s.take(n);
    if n == 1 {
        assert(least_at(t, 0));
    } else {
        lemma_some_least(s, n - 1);
        let i = choose|i: int|
            {
                &&& 0 <= i < n - 1
                &&& (forall|j: int| 0 <= j < n - 1 ==> s[i].1 <= (#[trigger] s[j]).1)
                &&& (forall|j: int| 0 <= j < i ==> s[i].1 < (#[trigger] s[j]).1)
                &&& #[trigger] least_at(s.take(n - 1), i)
            };
        if s[n - 1].1 < s[i].1 {
            assert(least_at(t, n - 1));
        } else {
            assert(least_at(t, i));
        }
    }
}

/// The entries after a history of observations.
pub open spec fn summary(history: Seq<u16>) -> Seq<(u16, u32, u32)>
    decreases history.len(),
{
    if history.len() == 0 {
        Seq::empty()
    } else {
        observed(summary(history.drop_last()), history.last())
    }
}

/// How often a bucket occurs in a history.
pub open spec fn frequency(history: Seq<u16>, bucket: u16) -> int
    decreases history.len(),
{
    if history.len() == 0 {
        0
    } else {
        frequency(history.drop_last(), bucket) + (if history.last() == bucket {
            1int
        } else {
            0int
        })
    }
}

/// The counts of all entries.
pub open spec fn mass(s: Seq<(u16, u32, u32)>) -> int
    decreases s.len(),
{
    if s.len() == 0 {
        0
    } else {
        mass(s.drop_last()) + s.last().1
    }
}

proof fn lemma_mass_update(s: Seq<(u16, u32, u32)>, i: int, e: (u16, u32, u32))
    requires
        0 <= i < s.len(),
    ensures
        mass(s.update(i, e)) == mass(s) - s[i].1 + e.1,
        s[i].1 <= mass(s),
    decreases s.len(),
{
    let t = s.update(i, e);
    lemma_mass_positive(s.drop_last());
    if i == s.len() - 1 {
        assert(t.drop_last() =~= s.drop_last());
    } else {
        assert(t.drop_last() =~= s.drop_last().update(i, e));
        lemma_mass_update(s.drop_last(), i, e);
    }
}

proof fn lemma_mass_positive(s: Seq<(u16, u32, u32)>)
    ensures
        0 <= mass(s),
    decreases s.len(),
{
    if s.len() > 0 {
        lemma_mass_positive(s.drop_last());
    }
}

/// The entries are a right summary of the history.
spec fn summarises(h: Seq<u16>, s: Seq<(u16, u32, u32)>) -> bool {
    &&& entries_ok(s)
    &&& mass(s) == h.len()
    &&& forall|i: int|
        #![trigger s[i]]
        0 <= i < s.len() ==> s[i].2 <= s[i].1 && s[i].1 - s[i].2 <= frequency(h, s[i].0) <= s[i].1
    &&& forall|b: u16, i: int|
        #![trigger frequency(h, b), s[i]]
        !monitors(s, b) && 0 <= i < s.len() && s.len() == SIZE_DIST_K ==> frequency(h, b) <= s[i].1
    &&& forall|b: u16|
        #![trigger frequency(h, b)]
        !monitors(s, b) && s.len() < SIZE_DIST_K ==> frequency(h, b) == 0
}

proof fn lemma_summarises(h: Seq<u16>)
    requires
        h.len() <= u32::MAX,
    ensures
        summarises(h, summary(h)),
    decreases h.len(),
{
    if h.len() == 0 {
        assert(entries_ok(summary(h)));
    } else {
        let g = h.drop_last();
        let b = h.last();
        lemma_summarises(g);
        let s = summary(g);
        let t = summary(h);
        assert(t == observed(s, b));
        assert forall|c: u16| frequency(h, c) == #[trigger] frequency(g, c) + (if c == b {
            1int
        } else {
            0int
        }) by {}
        if monitors(s, b) {
            let p = place_of(s, b);
            assert(s[p].0 == b);
            lemma_mass_update(s, p, (b, cap32(s[p].1 + 1) as u32, s[p].2));
            assert forall|c: u16| monitors(t, c) == #[trigger] monitors(s, c) by {
                lemma_same_buckets(s, t, c);
            }
            assert(summarises(h, t)) by {
                lemma_summary_step(h, g, s, t, b);
            }
        } else if s.len() < SIZE_DIST_K {
            assert(t.drop_last() =~= s);
            assert forall|c: u16| monitors(t, c) == (#[trigger] monitors(s, c) || c == b) by {
                lemma_pushed_bucket(s, (b, 1u32, 0u32), c);
            }
            assert(frequency(g, b) == 0);
            assert forall|c: u16| #![trigger frequency(h, c)] !monitors(t, c) implies frequency(h, c)
                == 0 by {
                assert(!monitors(s, c));
                assert(frequency(g, c) == 0);
            }
            assert forall|i: int| #![trigger t[i]] 0 <= i < t.len() implies t[i].2 <= t[i].1 && t[i].1
                - t[i].2 <= frequency(h, t[i].0) <= t[i].1 by {
                if i < s.len() {
                    assert(t[i] == s[i]);
                    assert(frequency(h, s[i].0) == frequency(g, s[i].0) + (if s[i].0 == b {
                        1int
                    } else {
                        0int
                    }));
                    assert(s[i].0 != b);
                }
            }
            assert forall|c: u16, i: int|
                #![trigger frequency(h, c), t[i]]
                !monitors(t, c) && 0 <= i < t.len() && t.len()
                    == SIZE_DIST_K implies frequency(h, c) <= t[i].1 by {
                assert(frequency(h, c) == 0);
            }
        } else {
            lemma_some_least(s, s.len() as int);
            assert(s.take(s.len() as int) =~= s);
            let p = least_place(s);
            assert(least_at(s, p));
            let e = (b, cap32(s[p].1 + 1) as u32, s[p].1);
            lemma_mass_update(s, p, e);
            assert(frequency(g, b) <= s[p].1) by {
                assert(frequency(g, b) <= s[p].1);
            }
            lemma_frequency_positive(g, b);
            assert(entries_ok(t)) by {
                assert forall|i: int, j: int|
                    #![trigger t[i], t[j]]
                    0 <= i < j < t.len() implies t[i].0 != t[j].0 by {
                    if i == p {
                        assert(t[j] == s[j]);
                        assert(s[j].0 != b);
                    } else if j == p {
                        assert(t[i] == s[i]);
                        assert(s[i].0 != b);
                    } else {
                        assert(s[i].0 != s[j].0);
                    }
                }
            }
            assert forall|i: int| #![trigger t[i]] 0 <= i < t.len() implies t[i].2 <= t[i].1 && t[i].1
                - t[i].2 <= frequency(h, t[i].0) <= t[i].1 by {
                if i != p {
                    assert(t[i] == s[i]);
                    assert(s[i].0 != b);
                    assert(frequency(h, s[i].0) == frequency(g, s[i].0));
                }
            }
            assert forall|c: u16, i: int|
                #![trigger frequency(h, c), t[i]]
                !monitors(t, c) && 0 <= i < t.len() && t.len()
                    == SIZE_DIST_K implies frequency(h, c) <= t[i].1 by {
                assert(t[p].0 == b);
                assert(c != b);
                assert(frequency(h, c) == frequency(g, c));
                assert(s[p].1 <= s[i].1);
                if monitors(s, c) {
                    let m = place_of(s, c);
                    assert(s[m].0 == c);
                    if m != p {
                        assert(t[m].0 == c);
                    }
                    assert(frequency(g, c) <= s[p].1);
                } else {
                    assert(frequency(g, c) <= s[p].1);
                }
            }
        }
    }
}

/// Counting one more of a monitored bucket keeps a summary right.
proof fn lemma_summary_step(
    h: Seq<u16>,
    g: Seq<u16>,
    s: Seq<(u16, u32, u32)>,
    t: Seq<(u16, u32, u32)>,
    b: u16,
)
    requires
        summarises(g, s),
        h.len() == g.len() + 1,
        h.len() <= u32::MAX,
        monitors(s, b),
        t == observed(s, b),
        mass(t) == h.len(),
        forall|c: u16| frequency(h, c) == #[trigger] frequency(g, c) + (if c == b {
            1int
        } else {
            0int
        }),
        forall|c: u16| monitors(t, c) == #[trigger] monitors(s, c),
    ensures
        summarises(h, t),
{
    let p = place_of(s, b);
    assert(s[p].0 == b);
    lemma_mass_update(s, p, (b, cap32(s[p].1 + 1) as u32, s[p].2));
    assert forall|i: int| #![trigger t[i]] 0 <= i < t.len() implies t[i].2 <= t[i].1 && t[i].1
        - t[i].2 <= frequency(h, t[i].0) <= t[i].1 by {
        assert(frequency(h, s[i].0) == frequency(g, s[i].0) + (if s[i].0 == b {
            1int
        } else {
            0int
        }));
    }
    assert forall|c: u16, i: int|
        #![trigger frequency(h, c), t[i]]
        !monitors(t, c) && 0 <= i < t.len() && t.len() == SIZE_DIST_K
            implies frequency(h, c) <= t[i].1 by {
        assert(!monitors(s, c));
        assert(frequency(g, c) <= s[i].1);
    }
    assert forall|c: u16|
        #![trigger frequency(h, c)]
        !monitors(t, c) && t.len() < SIZE_DIST_K implies frequency(h, c) == 0 by {
        assert(!monitors(s, c));
        assert(frequency(g, c) == 0);
    }
}

/// Updating a count keeps which buckets are monitored.
proof fn lemma_same_buckets(s: Seq<(u16, u32, u32)>, t: Seq<(u16, u32, u32)>, c: u16)
    requires
        t.len() == s.len(),
        forall|i: int| #![trigger t[i]] 0 <= i < s.len() ==> t[i].0 == s[i].0,
    ensures
        monitors(t, c) == monitors(s, c),
{
    if monitors(s, c) {
        let i = place_of(s, c);
        assert(s[i].0 == c);
        assert(t[i].0 == c);
    }
    if monitors(t, c) {
        let i = place_of(t, c);
        assert(t[i].0 == c);
        assert(s[i].0 == c);
    }
}

/// A new entry monitors its bucket besides the others.
proof fn lemma_pushed_bucket(s: Seq<(u16, u32, u32)>, e: (u16, u32, u32), c: u16)
    ensures
        monitors(s.push(e), c) == (monitors(s, c) || c == e.0),
{
    let t = s.push(e);
    if monitors(s, c) {
        let i = place_of(s, c);
        assert(s[i].0 == c);
        assert(t[i].0 == c);
    }
    assert(t[s.len() as int] == e);
    if monitors(t, c) {
        let i = place_of(t, c);
        assert(t[i].0 == c);
        if i < s.len() {
            assert(s[i].0 == c);
        }
    }
}

proof fn lemma_frequency_positive(h: Seq<u16>, b: u16)
    ensures
        0 <= frequency(h, b),
    decreases h.len(),
{
    if h.len() > 0 {
        lemma_frequency_positive(h.drop_last(), b);
    }
}

/// Whatever was observed, as long as the counts did not run full: a monitored bucket occurred
/// at most as often as its count says, and at least as often as its count without the
/// overcount.
pub proof fn law_monitored_counts_are_bounds(history: Seq<u16>, i: int)
    requires
        history.len() <= u32::MAX,
        0 <= i < summary(history).len(),
    ensures
        ({
            let (bucket, count, error) = summary(history)[i];
            count - error <= frequency(history, bucket) <= count
        }),
{
    lemma_summarises(history);
}

/// Whatever was observed, as long as the counts did not run full: the counts of the monitored
/// buckets add up to the number of observations, which is also the total.
pub proof fn law_counts_add_up(history: Seq<u16>)
    requires
        history.len() <= u32::MAX,
    ensures
        DistView::of(history).entries == summary(history),
        DistView::of(history).total == history.len(),
        mass(DistView::of(history).entries) == history.len(),
    decreases history.len(),
{
    lemma_summarises(history);
    if history.len() > 0 {
        law_counts_add_up(history.drop_last());
    }
}

/// A bucket that makes up more than its share of what was observed is monitored.
pub proof fn law_heavy_hitters_are_monitored(history: Seq<u16>, bucket: u16)
    requires
        history.len() <= u32::MAX,
        frequency(history, bucket) * SIZE_DIST_K > history.len(),
    ensures
        monitors(summary(history), bucket),
{
    lemma_summarises(history);
    let s = summary(history);
    let f = frequency(history, bucket);
    if !monitors(s, bucket) {
        if s.len() < SIZE_DIST_K {
            assert(f == 0);
        } else {
            assert forall|i: int| 0 <= i < s.len() implies f <= (#[trigger] s[i]).1 by {
                assert(frequency(history, bucket) <= s[i].1);
            }
            reveal_with_fuel(mass, 5);
            assert(s.drop_last().drop_last().drop_last().drop_last().len() == 0);
            assert(mass(s) == s[0].1 + s[1].1 + s[2].1 + s[3].1);
        }
    }
}

/// The number of samples from which on what was learned counts in full.
pub const CONFIDENT_SAMPLES: u32 = 32;

/// The confidence in basis points from which on what was learned is acted on.
pub const DEFAULT_MIN_CONFIDENCE_BP: u32 = 6_000;

/// Full scale in basis points.
pub const BP_ONE: u64 = 10_000;

/// `n`, capped at the largest amount.
pub open spec fn cap64(n: int) -> int {
    if n > u64::MAX {
        u64::MAX as int
    } else {
        n
    }
}

/// How much a number of samples counts, in basis points.
pub open spec fn maturity(n: int) -> int {
    if n >= CONFIDENT_SAMPLES {
        BP_ONE as int
    } else {
        (n * BP_ONE) / (CONFIDENT_SAMPLES as int)
    }
}

/// A profile, mathematically.
#[verifier::ext_equal]
pub struct ProfileView {
    /// The site.
    pub stack_id: StackId,
    /// What sizes it allocates.
    pub sizes: DistView,
    /// How long its objects live.
    pub lifetimes: HistogramView,
    /// The hotness hints of its allocations, added up.
    pub hotness_sum: u64,
    /// Its sampled allocations.
    pub alloc_count: u32,
    /// Its sampled frees.
    pub free_count: u32,
    /// Its sampled bytes that are live.
    pub live_bytes: u64,
    /// When it was first seen.
    pub first_ms: u64,
    /// When it last allocated.
    pub last_alloc_ms: u64,
    /// When it last freed.
    pub last_free_ms: u64,
}

/// Events per second over `[first, last]` milliseconds; 0 over no time.
pub open spec fn events_per_second(count: int, first: int, last: int) -> int {
    if last <= first {
        0
    } else {
        (count * 1_000) / (last - first)
    }
}

impl ProfileView {
    /// A site of which nothing is known.
    pub open spec fn fresh(stack_id: StackId, now: u64) -> ProfileView {
        ProfileView {
            stack_id,
            sizes: DistView::empty(),
            lifetimes: HistogramView::empty(),
            hotness_sum: 0,
            alloc_count: 0,
            free_count: 0,
            live_bytes: 0,
            first_ms: now,
            last_alloc_ms: now,
            last_free_ms: now,
        }
    }

    /// After a sampled allocation.
    pub open spec fn allocated(self, bucket: u16, bytes: u64, hint: u8, now: u64) -> ProfileView {
        ProfileView {
            sizes: self.sizes.with(bucket),
            hotness_sum: cap64(self.hotness_sum + hint) as u64,
            alloc_count: cap32(self.alloc_count + 1) as u32,
            live_bytes: cap64(self.live_bytes + bytes) as u64,
            last_alloc_ms: now,
            first_ms: if now < self.first_ms {
                now
            } else {
                self.first_ms
            },
            ..self
        }
    }

    /// After a sampled free of an object of that age.
    pub open spec fn freed(self, age: u64, bytes: u64, now: u64) -> ProfileView {
        ProfileView {
            lifetimes: self.lifetimes.with(LifetimeClass::of_age(age as int)),
            free_count: cap32(self.free_count + 1) as u32,
            live_bytes: if bytes > self.live_bytes {
                0
            } else {
                (self.live_bytes - bytes) as u64
            },
            last_free_ms: now,
            ..self
        }
    }

    /// After an object of that age was found still live.
    pub open spec fn censored(self, age: u64) -> ProfileView {
        ProfileView {
            lifetimes: self.lifetimes.with_censored(LifetimeClass::of_age(age as int)),
            ..self
        }
    }

    /// The mean hotness hint.
    pub open spec fn mean_hotness(self) -> int {
        if self.alloc_count == 0 {
            0
        } else {
            (self.hotness_sum as int / self.alloc_count as int) % 256
        }
    }

    /// How much the hotness is to be trusted.
    pub open spec fn hotness_trust(self) -> int {
        maturity(self.alloc_count as int)
    }

    /// How much the lifetime is to be trusted: by how many lifetimes there are, and how many of
    /// them agree.
    pub open spec fn lifetime_trust(self) -> int {
        let all = self.lifetimes.all();
        if all == 0 {
            0
        } else {
            (maturity(all) * ((self.lifetimes.peak_count() * BP_ONE) / all)) / (BP_ONE as int)
        }
    }

    /// How much the profile is to be trusted as a whole.
    pub open spec fn trust(self) -> int {
        if self.hotness_trust() <= self.lifetime_trust() {
            self.hotness_trust()
        } else {
            self.lifetime_trust()
        }
    }

    /// The hints of the profile, each only if it is trusted enough.
    pub open spec fn hints(self, min_bp: int) -> PlaceHints {
        PlaceHints {
            hotness: if self.hotness_trust() >= min_bp {
                Hotness::of_hint(self.mean_hotness())
            } else {
                Hotness::Neutral
            },
            lifetime: if self.lifetime_trust() >= min_bp {
                LifetimeClass::at_rank(self.lifetimes.peak()).coarse()
            } else {
                Lifetime::Unspecified
            },
        }
    }

    /// As long as the allocations are counted in full, the hints add up to what they can.
    pub open spec fn hotness_ok(self) -> bool {
        self.alloc_count < u32::MAX ==> self.hotness_sum <= 255 * self.alloc_count
    }
}

/// How much a number of samples counts, in basis points.
fn maturity_bp(n: u32) -> (res: u32)
    ensures
        res == maturity(n as int),
        res <= BP_ONE,
{
    let capped: u64 = if n < CONFIDENT_SAMPLES {
        n as u64
    } else {
        CONFIDENT_SAMPLES as u64
    };
    ((capped * BP_ONE) / (CONFIDENT_SAMPLES as u64)) as u32
}

/// What is known of one allocation site.
#[derive(Clone, Copy, PartialEq, Eq, Debug)]
pub struct AllocationSiteProfile {
    stack_id: StackId,
    size_dist: SizeClassDist,
    lifetimes: LifetimeHistogram,
    hotness_sum: u64,
    alloc_count: u32,
    free_count: u32,
    sampled_live_bytes: u64,
    first_ms: u64,
    last_alloc_ms: u64,
    last_free_ms: u64,
}

impl View for AllocationSiteProfile {
    type V = ProfileView;

    closed spec fn view(&self) -> ProfileView {
        ProfileView {
            stack_id: self.stack_id,
            sizes: self.size_dist@,
            lifetimes: self.lifetimes@,
            hotness_sum: self.hotness_sum,
            alloc_count: self.alloc_count,
            free_count: self.free_count,
            live_bytes: self.sampled_live_bytes,
            first_ms: self.first_ms,
            last_alloc_ms: self.last_alloc_ms,
            last_free_ms: self.last_free_ms,
        }
    }
}

impl AllocationSiteProfile {
    /// The size distribution is good.
    pub open spec fn wf(self) -> bool {
        entries_ok(self@.sizes.entries)
    }

    /// A site of which nothing is known.
    pub fn new(stack_id: StackId, now_ms: u64) -> (res: AllocationSiteProfile)
        ensures
            res.wf(),
            res@ == ProfileView::fresh(stack_id, now_ms),
    {
        AllocationSiteProfile {
            stack_id,
            size_dist: SizeClassDist::default(),
            lifetimes: LifetimeHistogram::default(),
            hotness_sum: 0,
            alloc_count: 0,
            free_count: 0,
            sampled_live_bytes: 0,
            first_ms: now_ms,
            last_alloc_ms: now_ms,
            last_free_ms: now_ms,
        }
    }

    /// The site.
    pub fn stack_id(&self) -> (res: StackId)
        ensures
            res == self@.stack_id,
    {
        self.stack_id
    }

    /// Record a sampled allocation.
    pub fn record_alloc(&mut self, bucket: u16, bytes: u64, hotness_hint: u8, now_ms: u64)
        requires
            old(self).wf(),
        ensures
            final(self).wf(),
            final(self)@ == old(self)@.allocated(bucket, bytes, hotness_hint, now_ms),
    {
        self.size_dist.observe(bucket);
        self.hotness_sum = self.hotness_sum.saturating_add(hotness_hint as u64);
        self.alloc_count = self.alloc_count.saturating_add(1);
        self.sampled_live_bytes = self.sampled_live_bytes.saturating_add(bytes);
        self.last_alloc_ms = now_ms;
        if now_ms < self.first_ms {
            self.first_ms = now_ms;
        }
    }

    /// Record a sampled free: the object lived `age_ms` milliseconds and held `bytes` bytes.
    pub fn record_free(&mut self, age_ms: u64, bytes: u64, now_ms: u64)
        requires
            old(self).wf(),
        ensures
            final(self).wf(),
            final(self)@ == old(self)@.freed(age_ms, bytes, now_ms),
    {
        self.lifetimes.record(LifetimeClass::from_age_ms(age_ms));
        self.free_count = self.free_count.saturating_add(1);
        self.sampled_live_bytes = self.sampled_live_bytes.saturating_sub(bytes);
        self.last_free_ms = now_ms;
    }

    /// Record an object that has lived `age_ms` milliseconds so far and is still live.
    pub fn record_censored(&mut self, age_ms: u64)
        requires
            old(self).wf(),
        ensures
            final(self).wf(),
            final(self)@ == old(self)@.censored(age_ms),
    {
        self.lifetimes.record_censored(LifetimeClass::from_age_ms(age_ms));
    }

    /// The mean hotness hint; 0 when nothing was allocated.
    pub fn hotness_estimate(&self) -> (res: u8)
        ensures
            res == self@.mean_hotness(),
    {
        if self.alloc_count == 0 {
            0
        } else {
            ((self.hotness_sum / self.alloc_count as u64) % 256) as u8
        }
    }

    /// How long its objects live.
    pub fn lifetimes(&self) -> (res: &LifetimeHistogram)
        ensures
            res@ == self@.lifetimes,
    {
        &self.lifetimes
    }

    /// What sizes it allocates.
    pub fn size_distribution(&self) -> (res: &SizeClassDist)
        ensures
            res@ == self@.sizes,
    {
        &self.size_dist
    }

    /// Its sampled bytes that are live.
    pub fn sampled_live_bytes(&self) -> (res: u64)
        ensures
            res == self@.live_bytes,
    {
        self.sampled_live_bytes
    }

    /// Its sampled allocations and frees.
    pub fn counts(&self) -> (res: (u32, u32))
        ensures
            res == (self@.alloc_count, self@.free_count),
    {
        (self.alloc_count, self.free_count)
    }

    /// When it last allocated.
    pub fn last_alloc_ms(&self) -> (res: u64)
        ensures
            res == self@.last_alloc_ms,
    {
        self.last_alloc_ms
    }

    /// Sampled allocations per second.
    pub fn allocation_rate(&self) -> (res: u64)
        ensures
            res == events_per_second(
                self@.alloc_count as int,
                self@.first_ms as int,
                self@.last_alloc_ms as int,
            ),
    {
        Self::rate(self.alloc_count, self.first_ms, self.last_alloc_ms)
    }

    /// Sampled frees per second.
    pub fn free_rate(&self) -> (res: u64)
        ensures
            res == events_per_second(
                self@.free_count as int,
                self@.first_ms as int,
                self@.last_free_ms as int,
            ),
    {
        Self::rate(self.free_count, self.first_ms, self.last_free_ms)
    }

    /// Events per second over `[first_ms, last_ms]`; 0 over no time.
    fn rate(count: u32, first_ms: u64, last_ms: u64) -> (res: u64)
        ensures
            res == events_per_second(count as int, first_ms as int, last_ms as int),
    {
        let window: u64 = last_ms.saturating_sub(first_ms);
        if window == 0 {
            return 0;
        }
        (count as u64 * 1_000) / window
    }

    /// How much the hotness is to be trusted, in basis points.
    pub fn hotness_confidence_bp(&self) -> (res: u32)
        ensures
            res == self@.hotness_trust(),
            res <= BP_ONE,
    {
        maturity_bp(self.alloc_count)
    }

    /// How much the lifetime is to be trusted, in basis points. Objects that are still live are
    /// evidence too.
    pub fn lifetime_confidence_bp(&self) -> (res: u32)
        ensures
            res == self@.lifetime_trust(),
            res <= BP_ONE,
    {
        let observed: u32 = self.lifetimes.total();
        if observed == 0 {
            return 0;
        }
        let (_class, dom) = self.lifetimes.dominant();
        proof {
            self.lifetimes.lemma_len();
            lemma_peak_within_total(self@.lifetimes);
            assert((dom * 10_000) / (observed as int) <= 10_000) by (nonlinear_arith)
                requires
                    0 <= dom <= observed,
                    observed > 0,
            ;
        }
        let concentration: u64 = (dom as u64 * BP_ONE) / (observed as u64);
        let mature: u64 = maturity_bp(observed) as u64;
        proof {
            assert(mature * concentration <= 10_000 * 10_000) by (nonlinear_arith)
                requires
                    mature <= 10_000,
                    concentration <= 10_000,
            ;
        }
        ((mature * concentration) / BP_ONE) as u32
    }

    /// How much the profile is to be trusted as a whole: the less of the two.
    pub fn confidence_bp(&self) -> (res: u32)
        ensures
            res == self@.trust(),
            res <= BP_ONE,
    {
        let h: u32 = self.hotness_confidence_bp();
        let l: u32 = self.lifetime_confidence_bp();
        if h <= l {
            h
        } else {
            l
        }
    }

    /// The class with the most lifetimes.
    pub fn dominant_lifetime(&self) -> (res: LifetimeClass)
        ensures
            res == LifetimeClass::at_rank(self@.lifetimes.peak()),
    {
        self.lifetimes.dominant().0
    }

    /// The placement hints of the site. The hotness and the lifetime are each given only when
    /// they are trusted enough.
    pub fn place_hints(&self, min_bp: u32) -> (res: PlaceHints)
        ensures
            res == self@.hints(min_bp as int),
    {
        let hotness: Hotness = if self.hotness_confidence_bp() >= min_bp {
            Hotness::from_hint(self.hotness_estimate())
        } else {
            Hotness::Neutral
        };
        let lifetime: Lifetime = if self.lifetime_confidence_bp() >= min_bp {
            self.dominant_lifetime().to_hint()
        } else {
            Lifetime::Unspecified
        };
        PlaceHints { hotness, lifetime }
    }
}

/// The most frequent class has no more lifetimes than there are.
proof fn lemma_peak_within_total(h: HistogramView)
    requires
        h.counts.len() == LifetimeClass::COUNT,
        h.peaks_at(h.peak()),
    ensures
        0 <= h.peak_count() <= h.all(),
{
    reveal_with_fuel(sum_counts, 7);
    let i = h.peak();
    assert(sum_counts(h.counts, 6) == h.counts[0] + h.counts[1] + h.counts[2] + h.counts[3]
        + h.counts[4] + h.counts[5]);
}

/// More samples never count for less, and no number of them counts for more than full scale.
pub proof fn law_maturity_grows(a: int, b: int)
    requires
        0 <= a <= b,
    ensures
        0 <= maturity(a) <= maturity(b) <= BP_ONE,
        maturity(0) == 0,
{
}

/// While the allocations are counted in full, the mean hotness is the mean of the hints, and no
/// operation ends that.
pub proof fn law_hotness_is_the_mean(
    p: ProfileView,
    bucket: u16,
    bytes: u64,
    hint: u8,
    age: u64,
    now: u64,
)
    requires
        p.hotness_ok(),
    ensures
        p.allocated(bucket, bytes, hint, now).hotness_ok(),
        p.freed(age, bytes, now).hotness_ok(),
        p.censored(age).hotness_ok(),
        0 < p.alloc_count < u32::MAX ==> p.mean_hotness() == p.hotness_sum as int
            / p.alloc_count as int,
{
    if 0 < p.alloc_count < u32::MAX {
        let s = p.hotness_sum as int;
        let n = p.alloc_count as int;
        assert(0 <= s / n <= 255) by (nonlinear_arith)
            requires
                0 <= s <= 255 * n,
                n > 0,
        ;
    }
}

/// A site of which nothing is known gives no hint, whatever confidence is asked for.
pub proof fn law_fresh_profile_is_neutral(id: StackId, now: u64, min_bp: int)
    requires
        min_bp > 0,
    ensures
        ProfileView::fresh(id, now).hints(min_bp) == PlaceHints::neutral(),
{
    let h = HistogramView::empty();
    reveal_with_fuel(sum_counts, 7);
    assert(sum_counts(h.counts, 6) == 0);
}

} // verus!
