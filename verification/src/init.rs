//! The phases of start-up, re-entrancy, and the summary that is written in a crash.
use vstd::prelude::*;
use vstd::string::*;
use vstd::utf8::*;

verus! {

/// A phase of start-up.
#[derive(Clone, Copy, PartialEq, Eq, PartialOrd, Ord, Debug, Structural)]
pub enum InitPhase {
    /// Nothing is initialized.
    StaticZero,
    /// The metadata allocator is live.
    BootstrapMetadata,
    /// The features of the system are known.
    OsDiscovery,
    /// The arena registry and the default arena exist.
    ArenaRegistry,
    /// The per-processor fast path is set up.
    PerCpuSetup,
    /// Background threads and profiling are armed.
    BackgroundAndProfiling,
    /// Everything is up.
    Operational,
}

impl InitPhase {
    /// The number of the phase.
    pub open spec fn number(self) -> u8 {
        match self {
            InitPhase::StaticZero => 0,
            InitPhase::BootstrapMetadata => 1,
            InitPhase::OsDiscovery => 2,
            InitPhase::ArenaRegistry => 3,
            InitPhase::PerCpuSetup => 4,
            InitPhase::BackgroundAndProfiling => 5,
            InitPhase::Operational => 6,
        }
    }

    /// The number of the phase.
    pub fn to_u8(self) -> (res: u8)
        ensures
            res == self.number(),
    {
        match self {
            InitPhase::StaticZero => 0,
            InitPhase::BootstrapMetadata => 1,
            InitPhase::OsDiscovery => 2,
            InitPhase::ArenaRegistry => 3,
            InitPhase::PerCpuSetup => 4,
            InitPhase::BackgroundAndProfiling => 5,
            InitPhase::Operational => 6,
        }
    }

    /// The phase of that number; the last one for a number beyond it.
    pub fn from_u8(v: u8) -> (res: InitPhase)
        ensures
            res.number() == (if v <= 6 {
                v
            } else {
                6
            }),
    {
        match v {
            0 => InitPhase::StaticZero,
            1 => InitPhase::BootstrapMetadata,
            2 => InitPhase::OsDiscovery,
            3 => InitPhase::ArenaRegistry,
            4 => InitPhase::PerCpuSetup,
            5 => InitPhase::BackgroundAndProfiling,
            _ => InitPhase::Operational,
        }
    }
}

/// Two phases of one number are the same.
pub proof fn law_number_determines_the_phase(a: InitPhase, b: InitPhase)
    requires
        a.number() == b.number(),
    ensures
        a == b,
{
}

/// What the phase number becomes when it is to advance: the target when that is later, else
/// nothing new.
pub fn advanced(current: u8, target: u8) -> (res: Option<u8>)
    ensures
        res == (if current < target {
            Some(target)
        } else {
            None
        }),
{
    if current >= target {
        None
    } else {
        Some(target)
    }
}

/// The phase that start-up is in. It never goes back.
#[derive(Clone, Copy, PartialEq, Eq, Debug, Structural)]
pub struct PhaseTracker {
    phase: InitPhase,
}

impl View for PhaseTracker {
    type V = InitPhase;

    closed spec fn view(&self) -> InitPhase {
        self.phase
    }
}

impl PhaseTracker {
    /// Start-up that has not begun.
    pub fn new() -> (res: PhaseTracker)
        ensures
            res@ == InitPhase::StaticZero,
    {
        PhaseTracker { phase: InitPhase::StaticZero }
    }

    /// The phase.
    pub fn current(&self) -> (res: InitPhase)
        ensures
            res == self@,
    {
        self.phase
    }

    /// Go on to `phase`; `false`, with nothing changed, when start-up is that far already.
    pub fn advance_to(&mut self, phase: InitPhase) -> (res: bool)
        ensures
            res == (old(self)@.number() < phase.number()),
            final(self)@ == (if res {
                phase
            } else {
                old(self)@
            }),
            final(self)@.number() >= old(self)@.number(),
    {
        match advanced(self.phase.to_u8(), phase.to_u8()) {
            Some(_) => {
                self.phase = phase;
                true
            },
            None => false,
        }
    }

    /// Whether everything is up.
    pub fn is_operational(&self) -> (res: bool)
        ensures
            res == (self@ == InitPhase::Operational),
    {
        self.phase == InitPhase::Operational
    }
}

impl Default for PhaseTracker {
    fn default() -> (res: PhaseTracker)
        ensures
            res@ == InitPhase::StaticZero,
    {
        PhaseTracker::new()
    }
}

/// How deep a thread is in a domain that must not be entered again.
#[derive(Clone, Copy, PartialEq, Eq, Debug, Structural)]
pub struct ReentryDomain {
    depth: u32,
}

impl View for ReentryDomain {
    type V = u32;

    closed spec fn view(&self) -> u32 {
        self.depth
    }
}

impl ReentryDomain {
    /// A thread outside the domain.
    pub fn new() -> (res: ReentryDomain)
        ensures
            res@ == 0,
    {
        ReentryDomain { depth: 0 }
    }

    /// Whether the thread is inside.
    pub fn active(&self) -> (res: bool)
        ensures
            res == (self@ != 0),
    {
        self.depth != 0
    }

    /// Enter the domain, once more.
    pub fn enter(&mut self)
        ensures
            final(self)@ == old(self)@.wrapping_add(1),
    {
        self.depth = self.depth.wrapping_add(1);
    }

    /// Leave the domain, once.
    pub fn leave(&mut self)
        ensures
            final(self)@ == old(self)@.wrapping_sub(1),
    {
        self.depth = self.depth.wrapping_sub(1);
    }
}

impl Default for ReentryDomain {
    fn default() -> (res: ReentryDomain)
        ensures
            res@ == 0,
    {
        ReentryDomain::new()
    }
}

/// Leaving undoes entering, and a thread that entered is inside.
pub proof fn law_leave_undoes_enter(depth: u32)
    ensures
        depth.wrapping_add(1).wrapping_sub(1) == depth,
        depth < u32::MAX ==> depth.wrapping_add(1) != 0,
{
}

/// The top-level counters, as they can be read in a crash.
#[derive(Clone, Copy, PartialEq, Eq, Debug, Structural)]
pub struct CrashSummary {
    /// The number of the start-up phase.
    pub init_phase: u8,
    /// Bytes ever handed out.
    pub allocated_bytes: u64,
    /// Bytes ever freed.
    pub freed_bytes: u64,
    /// Bytes in use.
    pub live_bytes: u64,
    /// Operations in flight.
    pub in_flight_ops: u64,
    /// Whether background work is enabled.
    pub background_enabled: bool,
}

impl Default for CrashSummary {
    fn default() -> (res: CrashSummary)
        ensures
            res == (CrashSummary {
                init_phase: 0,
                allocated_bytes: 0,
                freed_bytes: 0,
                live_bytes: 0,
                in_flight_ops: 0,
                background_enabled: false,
            }),
    {
        CrashSummary {
            init_phase: 0,
            allocated_bytes: 0,
            freed_bytes: 0,
            live_bytes: 0,
            in_flight_ops: 0,
            background_enabled: false,
        }
    }
}

/// A number in decimal.
pub open spec fn decimal(n: int) -> Seq<u8>
    decreases n,
{
    if n < 10 {
        seq![(48 + n) as u8]
    } else {
        decimal(n / 10).push((48 + n % 10) as u8)
    }
}

/// The number that decimal digits stand for.
pub open spec fn number_of(digits: Seq<u8>) -> int
    decreases digits.len(),
{
    if digits.len() == 0 {
        0
    } else {
        10 * number_of(digits.drop_last()) + (digits.last() - 48)
    }
}

/// A number in decimal reads as that number, in digits only, with no digit too many.
pub proof fn law_decimal_reads_back(n: int)
    requires
        0 <= n,
    ensures
        number_of(decimal(n)) == n,
        decimal(n).len() > 0,
        forall|i: int| 0 <= i < decimal(n).len() ==> 48 <= #[trigger] decimal(n)[i] <= 57,
        n > 0 ==> decimal(n)[0] != 48,
    decreases n,
{
    reveal_with_fuel(number_of, 2);
    if n >= 10 {
        law_decimal_reads_back(n / 10);
        assert(decimal(n).drop_last() =~= decimal(n / 10));
    } else {
        assert(decimal(n).drop_last() =~= Seq::<u8>::empty());
    }
}

/// The line for a counter.
pub open spec fn line(key: Seq<char>, value: int) -> Seq<u8> {
    encode_utf8(key) + encode_utf8("="@) + decimal(value) + encode_utf8("\n"@)
}

impl CrashSummary {
    /// The whole text of the summary.
    pub open spec fn text(self) -> Seq<u8> {
        encode_utf8("topomalloc crash summary\n"@) + line("init_phase"@, self.init_phase as int)
            + line("live_bytes"@, self.live_bytes as int) + line(
            "allocated_bytes"@,
            self.allocated_bytes as int,
        ) + line("freed_bytes"@, self.freed_bytes as int) + line(
            "in_flight_ops"@,
            self.in_flight_ops as int,
        ) + line(
            "background_enabled"@,
            if self.background_enabled {
                1
            } else {
                0
            },
        )
    }
}

/// As much of `text` as fits has been written to the start of `buf`, which is else as it was.
pub open spec fn holds(before: Seq<u8>, buf: Seq<u8>, text: Seq<u8>, len: int) -> bool {
    &&& buf.len() == before.len()
    &&& len == (if text.len() < buf.len() {
        text.len() as int
    } else {
        buf.len() as int
    })
    &&& buf =~= text.take(len) + before.skip(len)
}

/// As much of `more` as fits has been written from `len` on, up to `end`.
pub open spec fn appended(
    before: Seq<u8>,
    after: Seq<u8>,
    more: Seq<u8>,
    len: int,
    end: int,
) -> bool {
    &&& after.len() == before.len()
    &&& 0 <= len <= before.len()
    &&& end == (if len + more.len() < before.len() {
        len + more.len()
    } else {
        before.len() as int
    })
    &&& forall|i: int|
        #![trigger after[i]]
        0 <= i < after.len() ==> after[i] == (if len <= i < end {
            more[i - len]
        } else {
            before[i]
        })
}

/// Write as much of `s` as fits into `buf` from `len` on; where that ends.
fn append(buf: &mut [u8], len: usize, s: &[u8]) -> (res: usize)
    requires
        len <= old(buf)@.len(),
    ensures
        appended(old(buf)@, final(buf)@, s@, len as int, res as int),
{
    let mut end: usize = len;
    let mut i: usize = 0;
    while i < s.len() && end < buf.len()
        invariant
            i <= s@.len(),
            end == len + i,
            end <= buf@.len(),
            buf@.len() == old(buf)@.len(),
            forall|j: int|
                #![trigger buf@[j]]
                0 <= j < buf@.len() ==> buf@[j] == (if len <= j < end {
                    s@[j - len]
                } else {
                    old(buf)@[j]
                }),
        decreases s@.len() - i,
    {
        buf[end] = s[i];
        end = end + 1;
        i = i + 1;
    }
    end
}

/// Powers of ten.
spec fn power_of_ten(k: int) -> int
    decreases k,
{
    if k <= 0 {
        1
    } else {
        10 * power_of_ten(k - 1)
    }
}

/// Write a number in decimal into `buf` from `len` on; where that ends.
fn append_decimal(buf: &mut [u8], len: usize, value: u64) -> (res: usize)
    requires
        len <= old(buf)@.len(),
    ensures
        appended(old(buf)@, final(buf)@, decimal(value as int), len as int, res as int),
{
    let mut digits: [u8; 20] = [0u8; 20];
    let mut n: u64 = value;
    let mut i: usize = 20;
    proof {
        reveal_with_fuel(power_of_ten, 21);
        assert(power_of_ten(20) == 100_000_000_000_000_000_000);
        assert(decimal(n as int) + digits@.skip(20) =~= decimal(value as int));
    }
    while n >= 10
        invariant
            1 <= i <= 20,
            digits@.len() == 20,
            n < power_of_ten(i as int),
            decimal(n as int) + digits@.skip(i as int) == decimal(value as int),
        decreases n,
    {
        let ghost before = digits@;
        i = i - 1;
        let digit: u8 = (n % 10) as u8;
        digits[i] = 48 + digit;
        proof {
            assert(power_of_ten(i + 1) == 10 * power_of_ten(i as int));
            assert(i >= 1) by {
                if i == 0 {
                    assert(power_of_ten(1) == 10 * power_of_ten(0));
                    assert(power_of_ten(0) == 1);
                }
            }
            assert(decimal(n as int) == decimal(n as int / 10).push((48 + n % 10) as u8));
            assert(decimal(n as int / 10) + digits@.skip(i as int) =~= decimal(n as int)
                + before.skip(i + 1));
        }
        n = n / 10;
    }
    i = i - 1;
    let ghost before = digits@;
    digits[i] = 48 + n as u8;
    proof {
        assert(digits@.skip(i as int) =~= decimal(n as int) + before.skip(i + 1));
    }
    append(buf, len, vstd::slice::slice_subrange(digits.as_slice(), i, 20))
}

/// Write the line for a counter into `buf` from `len` on; where that ends.
fn append_line(buf: &mut [u8], len: usize, key: &str, value: u64) -> (res: usize)
    requires
        len <= old(buf)@.len(),
    ensures
        appended(old(buf)@, final(buf)@, line(key@, value as int), len as int, res as int),
{
    let ghost b0 = buf@;
    let end: usize = append(buf, len, key.as_bytes());
    let ghost b1 = buf@;
    let end2: usize = append(buf, end, "=".as_bytes());
    let ghost b2 = buf@;
    let end3: usize = append_decimal(buf, end2, value);
    let ghost b3 = buf@;
    let end4: usize = append(buf, end3, "\n".as_bytes());
    proof {
        let k = encode_utf8(key@);
        let e = encode_utf8("="@);
        let d = decimal(value as int);
        lemma_chained(b0, b1, b2, k, e, len as int, end as int, end2 as int);
        lemma_chained(b0, b2, b3, k + e, d, len as int, end2 as int, end3 as int);
        lemma_chained(
            b0,
            b3,
            buf@,
            k + e + d,
            encode_utf8("\n"@),
            len as int,
            end3 as int,
            end4 as int,
        );
    }
    end4
}

/// Writing one text after another writes both.
proof fn lemma_chained(
    before: Seq<u8>,
    mid: Seq<u8>,
    after: Seq<u8>,
    a: Seq<u8>,
    b: Seq<u8>,
    len: int,
    m: int,
    end: int,
)
    requires
        appended(before, mid, a, len, m),
        appended(mid, after, b, m, end),
    ensures
        appended(before, after, a + b, len, end),
{
    assert forall|i: int| #![trigger after[i]] 0 <= i < after.len() implies after[i] == (if len <= i
        < end {
        (a + b)[i - len]
    } else {
        before[i]
    }) by {
        if i < m {
            assert(after[i] == mid[i]);
        } else if i < end {
            assert(m == len + a.len());
        } else {
            assert(after[i] == mid[i]);
        }
    }
}

impl CrashSummary {
    /// Write as much of the text as fits into `buf`, with nothing allocated; how much that was.
    pub fn write(&self, buf: &mut [u8]) -> (res: usize)
        ensures
            holds(old(buf)@, final(buf)@, self.text(), res as int),
    {
        let ghost b0 = buf@;
        let header: &str = "topomalloc crash summary\n";
        let n0: usize = append(buf, 0, header.as_bytes());
        let ghost b1 = buf@;
        let n1: usize = append_line(buf, n0, "init_phase", self.init_phase as u64);
        let ghost b2 = buf@;
        let n2: usize = append_line(buf, n1, "live_bytes", self.live_bytes);
        let ghost b3 = buf@;
        let n3: usize = append_line(buf, n2, "allocated_bytes", self.allocated_bytes);
        let ghost b4 = buf@;
        let n4: usize = append_line(buf, n3, "freed_bytes", self.freed_bytes);
        let ghost b5 = buf@;
        let n5: usize = append_line(buf, n4, "in_flight_ops", self.in_flight_ops);
        let ghost b6 = buf@;
        let enabled: u64 = if self.background_enabled {
            1
        } else {
            0
        };
        let n6: usize = append_line(buf, n5, "background_enabled", enabled);
        proof {
            let t0 = encode_utf8("topomalloc crash summary\n"@);
            let l1 = line("init_phase"@, self.init_phase as int);
            let l2 = line("live_bytes"@, self.live_bytes as int);
            let l3 = line("allocated_bytes"@, self.allocated_bytes as int);
            let l4 = line("freed_bytes"@, self.freed_bytes as int);
            let l5 = line("in_flight_ops"@, self.in_flight_ops as int);
            let l6 = line("background_enabled"@, enabled as int);
            lemma_chained(b0, b1, b2, t0, l1, 0, n0 as int, n1 as int);
            lemma_chained(b0, b2, b3, t0 + l1, l2, 0, n1 as int, n2 as int);
            lemma_chained(b0, b3, b4, t0 + l1 + l2, l3, 0, n2 as int, n3 as int);
            lemma_chained(b0, b4, b5, t0 + l1 + l2 + l3, l4, 0, n3 as int, n4 as int);
            lemma_chained(b0, b5, b6, t0 + l1 + l2 + l3 + l4, l5, 0, n4 as int, n5 as int);
            lemma_chained(
                b0,
                b6,
                buf@,
                t0 + l1 + l2 + l3 + l4 + l5,
                l6,
                0,
                n5 as int,
                n6 as int,
            );
            assert(buf@ =~= self.text().take(n6 as int) + b0.skip(n6 as int));
        }
        n6
    }
}

/// The text does not depend on the buffer: what fits a short buffer is the start of what fits a
/// longer one.
pub proof fn law_short_summary_is_a_prefix(
    s: CrashSummary,
    a: (Seq<u8>, Seq<u8>, int),
    b: (Seq<u8>, Seq<u8>, int),
)
    requires
        holds(a.0, a.1, s.text(), a.2),
        holds(b.0, b.1, s.text(), b.2),
        a.0.len() <= b.0.len(),
    ensures
        a.2 <= b.2,
        a.1.take(a.2) == b.1.take(a.2),
{
    assert(a.1.take(a.2) =~= s.text().take(a.2));
    assert(b.1.take(a.2) =~= s.text().take(a.2));
}

} // verus!
