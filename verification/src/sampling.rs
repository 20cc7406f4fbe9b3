//! When an allocation is sampled, and the stack that a sample was taken at.
use vstd::prelude::*;
use vstd::arithmetic::power2::*;
use crate::placement::StackId;
use crate::placement_table;

verus! {

/// How often to sample.
#[derive(Clone, Copy, PartialEq, Eq, Debug, Structural)]
pub struct SampleConfig {
    /// The mean number of bytes between samples; 0 samples nothing.
    pub sample_rate_bytes: u64,
}

impl SampleConfig {
    /// The mean number of bytes between samples by default.
    pub const DEFAULT_RATE_BYTES: u64 = 1048576;

    /// Sample nothing.
    pub fn disabled() -> (res: SampleConfig)
        ensures
            res == (SampleConfig { sample_rate_bytes: 0 }),
    {
        SampleConfig { sample_rate_bytes: 0 }
    }

    /// Whether anything is sampled.
    pub fn enabled(self) -> (res: bool)
        ensures
            res == (self.sample_rate_bytes != 0),
    {
        self.sample_rate_bytes != 0
    }
}

impl Default for SampleConfig {
    fn default() -> (res: SampleConfig)
        ensures
            res == (SampleConfig { sample_rate_bytes: SampleConfig::DEFAULT_RATE_BYTES }),
    {
        SampleConfig { sample_rate_bytes: Self::DEFAULT_RATE_BYTES }
    }
}

/// A stream of pseudo-random numbers.
#[derive(Clone, Copy, Debug)]
pub struct Rng {
    state: u64,
}

/// The state after `state`.
pub open spec fn next_state(state: u64) -> u64 {
    state.wrapping_add(Rng::GAMMA)
}

impl View for Rng {
    type V = u64;

    closed spec fn view(&self) -> u64 {
        self.state
    }
}

impl Rng {
    /// The increment of the state.
    pub const GAMMA: u64 = 0x9e37_79b9_7f4a_7c15;

    /// The stream that starts at `seed`.
    pub fn new(seed: u64) -> (res: Rng)
        ensures
            res@ == seed,
    {
        Rng { state: seed }
    }

    /// The next number.
    pub fn next_u64(&mut self) -> (res: u64)
        ensures
            final(self)@ == next_state(old(self)@),
            res == placement_table::mix(final(self)@),
    {
        self.state = self.state.wrapping_add(Self::GAMMA);
        placement_table::splitmix64(self.state)
    }
}

/// The natural logarithm of 2, in units of `2^-32`.
pub const LN2_Q32: u64 = 2_977_044_472;

/// What the mean interval is scaled by, in units of `2^-32`, to make up for the logarithm being
/// interpolated.
pub const MEAN_CORRECTION_Q32: u64 = 4_127_133_696;

/// `2^32`.
pub const Q32_ONE: u64 = 0x1_0000_0000;

/// The binary logarithm of `r` in units of `2^-32`, interpolated between powers of two; 0 for 0.
pub open spec fn log2_q32(r: int) -> int {
    if r <= 0 {
        0
    } else {
        let k = log2_floor(r);
        k * Q32_ONE + ((r - pow2(k as nat)) * Q32_ONE) / (pow2(k as nat) as int)
    }
}

/// `k` is the largest exponent with `2^k <= r`.
pub open spec fn is_log2_floor(r: int, k: int) -> bool {
    0 <= k && pow2(k as nat) <= r < pow2((k + 1) as nat)
}

/// The largest exponent `k` with `2^k <= r`.
pub open spec fn log2_floor(r: int) -> int {
    choose|k: int| is_log2_floor(r, k)
}

/// The interval to the next sample that the random number `r` gives, for a mean of `mean`
/// bytes: `-mean * ln(r / 2^64)` in fixed point, at least 1.
pub open spec fn interval(mean: int, r: int) -> int {
    let bits = 64 * Q32_ONE - log2_q32(r);
    let nats = (bits * LN2_Q32) / (Q32_ONE as int);
    let bytes = ((((mean * nats) / (Q32_ONE as int)) * MEAN_CORRECTION_Q32) / (Q32_ONE as int));
    if bytes < 1 {
        1
    } else if bytes > u64::MAX {
        u64::MAX as int
    } else {
        bytes
    }
}

/// The largest power of two up to `r`, and its exponent.
fn floor_log2(r: u64) -> (res: (u64, u64))
    requires
        r > 0,
    ensures
        res.0 == log2_floor(r as int),
        res.0 < 64,
        res.1 == pow2(res.0 as nat),
        res.1 <= r < 2 * res.1,
{
    let mut k: u64 = 0;
    let mut p: u64 = 1;
    proof {
        lemma2_to64();
    }
    while p <= r / 2
        invariant
            p == pow2(k as nat),
            1 <= p <= r,
            k < 64,
        decreases r - p,
    {
        proof {
            lemma_pow2_unfold((k + 1) as nat);
            lemma2_to64();
            lemma2_to64_rest();
            if k == 63 {
                assert(p == 0x8000_0000_0000_0000);
            }
        }
        p = p * 2;
        k = k + 1;
    }
    proof {
        lemma_pow2_unfold((k + 1) as nat);
        lemma_log2_floor(r as int, k as int);
    }
    (k, p)
}

/// There is one largest power of two up to `r`.
proof fn lemma_log2_floor(r: int, k: int)
    requires
        0 <= k,
        pow2(k as nat) <= r < pow2((k + 1) as nat),
    ensures
        log2_floor(r) == k,
{
    let j = log2_floor(r);
    assert(is_log2_floor(r, k));
    assert(is_log2_floor(r, j));
    if j < k {
        if j + 1 < k {
            lemma_pow2_strictly_increases((j + 1) as nat, k as nat);
        }
    } else if k < j {
        if k + 1 < j {
            lemma_pow2_strictly_increases((k + 1) as nat, j as nat);
        }
    }
}

/// The logarithm of a 64-bit number is less than 64.
proof fn lemma_log2_bound(r: u64)
    ensures
        0 <= log2_q32(r as int) < 64 * Q32_ONE,
{
    if r > 0 {
        lemma2_to64();
        lemma2_to64_rest();
        lemma_some_log2(r as int, 64);
        let k = log2_floor(r as int);
        if k >= 64 {
            if k > 64 {
                lemma_pow2_strictly_increases(64, k as nat);
            }
        }
        lemma_pow2_unfold((k + 1) as nat);
        let p = pow2(k as nat) as int;
        lemma_pow2_pos(k as nat);
        assert(0 <= ((r - p) * 0x1_0000_0000) / p < 0x1_0000_0000) by (nonlinear_arith)
            requires
                0 < p <= r < 2 * p,
        ;
    }
}

/// A positive number below a power of two has a largest power of two up to it.
proof fn lemma_some_log2(r: int, n: nat)
    requires
        1 <= r < pow2(n),
    ensures
        0 <= log2_floor(r),
        pow2(log2_floor(r) as nat) <= r < pow2((log2_floor(r) + 1) as nat),
    decreases n,
{
    lemma2_to64();
    if n == 0 {
    } else if pow2((n - 1) as nat) <= r {
        let k = n - 1;
        assert(is_log2_floor(r, k));
    } else {
        lemma_some_log2(r, (n - 1) as nat);
    }
}

/// Draw the interval to the next sample.
fn exp_interval(mean: u64, rng: &mut Rng) -> (res: u64)
    ensures
        final(rng)@ == next_state(old(rng)@),
        res == interval(mean as int, placement_table::mix(next_state(old(rng)@)) as int),
{
    let r: u64 = rng.next_u64();
    proof {
        lemma_log2_bound(r);
    }
    let log2_r: u64 = if r == 0 {
        0
    } else {
        let (k, p): (u64, u64) = floor_log2(r);
        proof {
            assert(((r - p) * 0x1_0000_0000) / (p as int) < 0x1_0000_0000) by (nonlinear_arith)
                requires
                    0 < p <= r < 2 * p,
            ;
        }
        let frac: u64 = (((r - p) as u128 * Q32_ONE as u128) / (p as u128)) as u64;
        k * Q32_ONE + frac
    };
    proof {
        assert(log2_r == log2_q32(r as int));
    }
    let bits: u64 = 64 * Q32_ONE - log2_r;
    proof {
        assert(bits * LN2_Q32 <= 0x40_0000_0000 * 2_977_044_472) by (nonlinear_arith)
            requires
                0 <= bits <= 0x40_0000_0000,
                LN2_Q32 == 2_977_044_472,
        ;
    }
    let nats: u64 = ((bits as u128 * LN2_Q32 as u128) / (Q32_ONE as u128)) as u64;
    proof {
        assert(mean * nats <= 0xffff_ffff_ffff_ffff * 0x40_0000_0000) by (nonlinear_arith)
            requires
                0 <= mean <= 0xffff_ffff_ffff_ffff,
                0 <= nats <= 0x40_0000_0000,
        ;
    }
    let scaled: u128 = (mean as u128 * nats as u128) / (Q32_ONE as u128);
    proof {
        assert(scaled * MEAN_CORRECTION_Q32 <= 0x40_0000_0000 * 0x1_0000_0000 * 4_127_133_696)
            by (nonlinear_arith)
            requires
                0 <= scaled <= 0x40_0000_0000 * 0x1_0000_0000,
                MEAN_CORRECTION_Q32 == 4_127_133_696,
        ;
    }
    let corrected: u128 = (scaled * MEAN_CORRECTION_Q32 as u128) / (Q32_ONE as u128);
    if corrected < 1 {
        1
    } else if corrected > u64::MAX as u128 {
        u64::MAX
    } else {
        corrected as u64
    }
}

/// The smallest and the largest budget.
pub open spec fn clamp_budget(n: int) -> int {
    if n < i64::MIN {
        i64::MIN as int
    } else if n > i64::MAX {
        i64::MAX as int
    } else {
        n
    }
}

/// A sampler, mathematically.
#[verifier::ext_equal]
pub struct SamplerView {
    /// How often to sample.
    pub config: SampleConfig,
    /// The random numbers to come.
    pub rng: u64,
    /// Bytes until the next sample.
    pub until: int,
}

impl SamplerView {
    /// A new sampler.
    pub open spec fn initial(config: SampleConfig, seed: u64) -> SamplerView {
        if config.sample_rate_bytes == 0 {
            SamplerView { config, rng: seed, until: i64::MAX as int }
        } else {
            SamplerView {
                config,
                rng: next_state(seed),
                until: clamp_budget(
                    interval(
                        config.sample_rate_bytes as int,
                        placement_table::mix(next_state(seed)) as int,
                    ),
                ),
            }
        }
    }

    /// What is left after an allocation of `bytes` bytes.
    pub open spec fn spent(self, bytes: int) -> int {
        clamp_budget(self.until - clamp_budget(bytes))
    }

    /// Whether an allocation of `bytes` bytes is sampled.
    pub open spec fn fires(self, bytes: int) -> bool {
        self.config.sample_rate_bytes != 0 && self.spent(bytes) <= 0
    }

    /// After an allocation of `bytes` bytes.
    pub open spec fn after(self, bytes: int) -> SamplerView {
        if self.config.sample_rate_bytes == 0 {
            self
        } else if !self.fires(bytes) {
            SamplerView { until: self.spent(bytes), ..self }
        } else {
            SamplerView {
                rng: next_state(self.rng),
                until: clamp_budget(
                    self.spent(bytes) + clamp_budget(
                        interval(
                            self.config.sample_rate_bytes as int,
                            placement_table::mix(next_state(self.rng)) as int,
                        ),
                    ),
                ),
                ..self
            }
        }
    }
}

/// Decides which allocations are sampled: one every so many bytes on average, the intervals
/// being exponential. The budget is clamped to what an `i64` holds.
#[derive(Clone, Copy, Debug)]
pub struct Sampler {
    config: SampleConfig,
    rng: Rng,
    bytes_until: i64,
}

impl View for Sampler {
    type V = SamplerView;

    closed spec fn view(&self) -> SamplerView {
        SamplerView { config: self.config, rng: self.rng@, until: self.bytes_until as int }
    }
}

/// A byte count as a budget.
fn to_budget(n: u64) -> (res: i64)
    ensures
        res == clamp_budget(n as int),
        res >= 0,
{
    if n > i64::MAX as u64 {
        i64::MAX
    } else {
        n as i64
    }
}

/// The nearest budget.
fn clamp(n: i128) -> (res: i64)
    ensures
        res == clamp_budget(n as int),
{
    if n < i64::MIN as i128 {
        i64::MIN
    } else if n > i64::MAX as i128 {
        i64::MAX
    } else {
        n as i64
    }
}

impl Sampler {
    /// A sampler whose random numbers start at `seed`.
    pub fn new(config: SampleConfig, seed: u64) -> (res: Sampler)
        ensures
            res@ == SamplerView::initial(config, seed),
    {
        let mut rng: Rng = Rng::new(seed);
        let bytes_until: i64 = if config.enabled() {
            to_budget(exp_interval(config.sample_rate_bytes, &mut rng))
        } else {
            i64::MAX
        };
        Sampler { config, rng, bytes_until }
    }

    /// Whether anything is sampled.
    pub fn enabled(&self) -> (res: bool)
        ensures
            res == (self@.config.sample_rate_bytes != 0),
    {
        self.config.enabled()
    }

    /// The mean number of bytes between samples.
    pub fn rate_bytes(&self) -> (res: u64)
        ensures
            res == self@.config.sample_rate_bytes,
    {
        self.config.sample_rate_bytes
    }

    /// Whether to sample an allocation of `bytes` bytes: it uses up what was left until the next
    /// sample. What it exceeds that by is carried over.
    pub fn should_sample(&mut self, bytes: usize) -> (res: bool)
        ensures
            res == old(self)@.fires(bytes as int),
            final(self)@ == old(self)@.after(bytes as int),
    {
        if !self.config.enabled() {
            return false;
        }
        self.bytes_until = clamp(self.bytes_until as i128 - to_budget(bytes as u64) as i128);
        if self.bytes_until > 0 {
            return false;
        }
        let next: u64 = exp_interval(self.config.sample_rate_bytes, &mut self.rng);
        self.bytes_until = clamp(self.bytes_until as i128 + to_budget(next) as i128);
        true
    }
}

/// An interval is at least 1, and at most 43 times the mean.
pub proof fn law_interval_is_bounded(mean: u64, r: u64)
    requires
        mean >= 1,
    ensures
        1 <= interval(mean as int, r as int) <= 43 * mean,
{
    lemma_log2_bound(r);
    let bits = 64 * Q32_ONE - log2_q32(r as int);
    let nats = (bits * LN2_Q32) / (Q32_ONE as int);
    assert(nats <= 64 * LN2_Q32);
    assert(mean * nats <= mean * (64 * 2_977_044_472)) by (nonlinear_arith)
        requires
            0 <= nats <= 64 * 2_977_044_472,
            mean >= 1,
    ;
    let scaled = (mean * nats) / (Q32_ONE as int);
    assert(scaled <= (mean * (64 * 2_977_044_472)) / 0x1_0000_0000);
    assert(0 <= scaled) by (nonlinear_arith)
        requires
            0 <= nats,
            mean >= 1,
            scaled == (mean * nats) / 0x1_0000_0000,
    ;
    let bytes = (scaled * MEAN_CORRECTION_Q32) / (Q32_ONE as int);
    assert(scaled <= 45 * mean);
    assert(scaled * 0x1_0000_0000 <= mean * 190530846208);
    assert(bytes <= 43 * mean);
}

/// The budget never exceeds 43 times the mean, and an allocation of at least that much is
/// sampled.
pub proof fn law_huge_allocations_are_sampled(s: SamplerView, bytes: usize)
    requires
        s.config.sample_rate_bytes != 0,
        s.until <= 43 * s.config.sample_rate_bytes,
        i64::MIN <= s.until,
    ensures
        s.after(bytes as int).until <= 43 * s.config.sample_rate_bytes,
        43 * s.config.sample_rate_bytes <= bytes && s.until <= i64::MAX ==> s.fires(bytes as int),
{
    law_interval_is_bounded(
        s.config.sample_rate_bytes,
        placement_table::mix(next_state(s.rng)),
    );
}

/// A new sampler's budget is bounded likewise.
pub proof fn law_first_interval_is_bounded(config: SampleConfig, seed: u64)
    requires
        config.sample_rate_bytes != 0,
    ensures
        1 <= SamplerView::initial(config, seed).until <= 43 * config.sample_rate_bytes,
{
    law_interval_is_bounded(config.sample_rate_bytes, placement_table::mix(next_state(seed)));
}

/// Samples are taken by the byte: an allocation is sampled when it reaches what was left until
/// the next sample; one that does not leaves less by exactly its bytes; and one that does carries
/// over what it exceeded it by, so that the next is due that much sooner.
pub proof fn law_samples_are_taken_by_the_byte(s: SamplerView, bytes: usize)
    requires
        s.config.sample_rate_bytes != 0,
        43 * s.config.sample_rate_bytes <= i64::MAX,
        i64::MIN <= s.until - bytes,
        s.until <= i64::MAX,
        bytes <= i64::MAX,
    ensures
        s.fires(bytes as int) <==> bytes >= s.until,
        bytes < s.until ==> s.after(bytes as int) == (SamplerView { until: s.until - bytes, ..s }),
        bytes >= s.until ==> 1 <= s.after(bytes as int).until - (s.until - bytes) <= 43
            * s.config.sample_rate_bytes,
        bytes >= s.until ==> s.after(bytes as int).rng != s.rng,
{
    law_interval_is_bounded(
        s.config.sample_rate_bytes,
        placement_table::mix(next_state(s.rng)),
    );
}

/// Two allocations use up what one of both sizes would, while neither is sampled.
pub proof fn law_small_allocations_add_up(s: SamplerView, a: usize, b: usize)
    requires
        0 < s.until <= i64::MAX,
        a + b < s.until,
    ensures
        !s.fires(a as int),
        !s.after(a as int).fires(b as int),
        s.after(a as int).after(b as int) == s.after((a + b) as int),
{
}

/// The logarithm grows with its argument.
proof fn lemma_log2_grows(a: u64, b: u64)
    requires
        a <= b,
    ensures
        log2_q32(a as int) <= log2_q32(b as int),
{
    lemma_log2_bound(a);
    lemma_log2_bound(b);
    if a > 0 {
        lemma2_to64();
        lemma2_to64_rest();
        lemma_some_log2(a as int, 64);
        lemma_some_log2(b as int, 64);
        let j = log2_floor(a as int);
        let k = log2_floor(b as int);
        let p = pow2(j as nat) as int;
        let q = pow2(k as nat) as int;
        lemma_pow2_pos(j as nat);
        lemma_pow2_pos(k as nat);
        lemma_pow2_unfold((j + 1) as nat);
        lemma_pow2_unfold((k + 1) as nat);
        if k < j {
            if k + 1 < j {
                lemma_pow2_strictly_increases((k + 1) as nat, j as nat);
            }
        }
        assert(j <= k);
        assert(((a - p) * 0x1_0000_0000) / p < 0x1_0000_0000) by (nonlinear_arith)
            requires
                0 < p <= a < 2 * p,
        ;
        assert(0 <= ((b - q) * 0x1_0000_0000) / q) by (nonlinear_arith)
            requires
                0 < q <= b,
        ;
        if j == k {
            assert(((a - p) * 0x1_0000_0000) / p <= ((b - p) * 0x1_0000_0000) / p)
                by (nonlinear_arith)
                requires
                    0 < p <= a <= b,
            ;
        }
    }
}

/// Doubling the argument adds one to the logarithm.
proof fn lemma_log2_of_double(r: u64)
    requires
        0 < r,
        2 * r <= u64::MAX,
    ensures
        log2_q32(2 * r) == log2_q32(r as int) + Q32_ONE,
{
    lemma2_to64();
    lemma2_to64_rest();
    lemma_some_log2(r as int, 64);
    let k = log2_floor(r as int);
    let p = pow2(k as nat) as int;
    lemma_pow2_pos(k as nat);
    lemma_pow2_unfold((k + 1) as nat);
    lemma_pow2_unfold((k + 2) as nat);
    lemma_log2_floor(2 * r, k + 1);
    let x = (r - p) * Q32_ONE;
    assert((2 * r - 2 * p) * Q32_ONE == 2 * x) by (nonlinear_arith)
        requires
            x == (r - p) * Q32_ONE,
    ;
    assert((2 * x) / (2 * p) == x / p) by {
        vstd::arithmetic::div_mod::lemma_div_denominator(2 * x, 2, p);
        assert((2 * x) / 2 == x);
    }
}

/// The logarithm of twice a number in 64 bits, as an interval sees it.
spec fn nats_of(r: int) -> int {
    ((64 * Q32_ONE - log2_q32(r)) * LN2_Q32) / (Q32_ONE as int)
}

/// The intervals are exponential: a larger draw gives a shorter one; and twice the draw gives one
/// that is shorter by two thirds of the mean, whatever the draw, as near as whole bytes allow.
pub proof fn law_intervals_are_exponential(mean: u64, r: u64, larger: u64)
    requires
        1 <= mean <= 0x1_0000_0000,
        r <= larger,
    ensures
        interval(mean as int, larger as int) <= interval(mean as int, r as int),
        0 < r && 2 * r <= u64::MAX && interval(mean as int, 2 * r) > 1 ==> {
            let shorter = interval(mean as int, r as int) - interval(mean as int, 2 * r);
            660 * mean - 3_000 <= 1_000 * shorter <= 667 * mean + 3_000
        },
{
    lemma_log2_bound(r);
    lemma_log2_bound(larger);
    lemma_log2_grows(r, larger);
    let a = nats_of(r as int);
    let b = nats_of(larger as int);
    assert(0 <= b <= a <= 64 * LN2_Q32);
    lemma_scaled(mean as int, b, a);
    if 0 < r && 2 * r <= u64::MAX {
        lemma_log2_of_double(r);
        lemma_log2_bound((2 * r) as u64);
        let c = nats_of(2 * r);
        assert(c == a - LN2_Q32);
        lemma_scaled(mean as int, c, a);
        assert(mean * a == mean * c + mean * LN2_Q32) by (nonlinear_arith)
            requires
                c == a - LN2_Q32,
        ;
    }
}

/// Scaling by the mean and the correction keeps the order, and fits.
proof fn lemma_scaled(mean: int, b: int, a: int)
    requires
        1 <= mean <= 0x1_0000_0000,
        0 <= b <= a <= 64 * LN2_Q32,
    ensures
        0 <= mean * b <= mean * a,
        ((mean * b) / (Q32_ONE as int)) <= ((mean * a) / (Q32_ONE as int)),
        (((mean * a) / (Q32_ONE as int)) * MEAN_CORRECTION_Q32) / (Q32_ONE as int) <= u64::MAX,
{
    assert(0 <= mean * b <= mean * a <= 0x1_0000_0000 * (64 * 2_977_044_472)) by (nonlinear_arith)
        requires
            1 <= mean <= 0x1_0000_0000,
            0 <= b <= a <= 64 * 2_977_044_472,
    ;
}

/// Nothing is sampled when sampling is off, and nothing changes.
pub proof fn law_disabled_sampler_never_fires(s: SamplerView, bytes: int)
    requires
        s.config.sample_rate_bytes == 0,
    ensures
        !s.fires(bytes),
        s.after(bytes) == s,
{
}

/// How many frames a stack buffer holds.
pub const MAX_STACK_FRAMES: usize = 32;

/// A captured stack, in a buffer that never grows.
#[derive(Clone, Copy, Debug)]
pub struct StackBuf {
    frames: [usize; MAX_STACK_FRAMES],
    len: usize,
}

/// The hash `h` with the first `n` frames mixed in, in order.
pub open spec fn fold_frames(h: u64, frames: Seq<usize>, n: int) -> u64
    decreases n,
{
    if n <= 0 {
        h
    } else {
        placement_table::mix(fold_frames(h, frames, n - 1) ^ (frames[n - 1] as u64))
    }
}

/// The site that a stack stands for: none for an empty one, and never none for another.
pub open spec fn site_of(frames: Seq<usize>) -> StackId {
    let h = fold_frames(
        0x9e37_79b9_7f4a_7c15u64 ^ (frames.len() as u64),
        frames,
        frames.len() as int,
    );
    if frames.len() == 0 {
        StackId(0)
    } else if h == 0 {
        StackId(1)
    } else {
        StackId(h)
    }
}

impl View for StackBuf {
    type V = Seq<usize>;

    closed spec fn view(&self) -> Seq<usize> {
        self.frames@.take(self.len as int)
    }
}

impl StackBuf {
    /// The frames fit the buffer.
    pub closed spec fn wf(self) -> bool {
        self.len <= MAX_STACK_FRAMES
    }

    /// All that the buffer has room for, captured or not.
    pub closed spec fn storage(self) -> Seq<usize> {
        self.frames@
    }

    /// An empty stack.
    pub fn new() -> (res: StackBuf)
        ensures
            res.wf(),
            res@ == Seq::<usize>::empty(),
            res.storage() == Seq::new(MAX_STACK_FRAMES as nat, |i: int| 0usize),
    {
        let s = StackBuf { frames: [0usize; MAX_STACK_FRAMES], len: 0 };
        proof {
            assert(s@ =~= Seq::<usize>::empty());
            assert(s.storage() =~= Seq::new(MAX_STACK_FRAMES as nat, |i: int| 0usize));
        }
        s
    }

    /// Forget the stack.
    pub fn clear(&mut self)
        ensures
            final(self).wf(),
            final(self)@ == Seq::<usize>::empty(),
            final(self).storage() == old(self).storage(),
    {
        self.len = 0;
        proof {
            assert(self@ =~= Seq::<usize>::empty());
        }
    }

    /// Append a frame; a full buffer stays as it is.
    pub fn push(&mut self, frame: usize)
        requires
            old(self).wf(),
        ensures
            final(self).wf(),
            final(self)@ == (if old(self)@.len() < MAX_STACK_FRAMES {
                old(self)@.push(frame)
            } else {
                old(self)@
            }),
            final(self).storage() == (if old(self)@.len() < MAX_STACK_FRAMES {
                old(self).storage().update(old(self)@.len() as int, frame)
            } else {
                old(self).storage()
            }),
    {
        if self.len < MAX_STACK_FRAMES {
            let i: usize = self.len;
            self.frames[i] = frame;
            self.len = self.len + 1;
            proof {
                assert(self@ =~= old(self)@.push(frame));
            }
        }
    }

    /// The whole buffer, to be filled directly; [`set_len`](Self::set_len) then says how much of
    /// it is the stack.
    pub fn frames_mut(&mut self) -> (res: &mut [usize; MAX_STACK_FRAMES])
        requires
            old(self).wf(),
        ensures
            final(self).wf(),
            res@ == old(self).storage(),
            final(self).storage() == final(res)@,
            final(self)@ == final(res)@.take(old(self)@.len() as int),
    {
        &mut self.frames
    }

    /// Say how many frames were filled in, at most what the buffer holds.
    pub fn set_len(&mut self, len: usize)
        ensures
            final(self).wf(),
            final(self).storage() == old(self).storage(),
            final(self)@ == old(self).storage().take(
                if len < MAX_STACK_FRAMES {
                    len as int
                } else {
                    MAX_STACK_FRAMES as int
                },
            ),
    {
        self.len = if len < MAX_STACK_FRAMES {
            len
        } else {
            MAX_STACK_FRAMES
        };
    }

    /// The captured frames.
    pub fn frames(&self) -> (res: &[usize])
        requires
            self.wf(),
        ensures
            res@ == self@,
            res@.len() <= MAX_STACK_FRAMES,
    {
        let res = vstd::slice::slice_subrange(self.frames.as_slice(), 0, self.len);
        proof {
            assert(res@ =~= self@);
        }
        res
    }

    /// The site that the stack stands for.
    pub fn stack_id(&self) -> (res: StackId)
        requires
            self.wf(),
        ensures
            res == site_of(self@),
            res != StackId(0) <==> self@.len() > 0,
    {
        if self.len == 0 {
            return StackId::unknown();
        }
        let start: u64 = 0x9e37_79b9_7f4a_7c15 ^ (self.len as u64);
        let mut h: u64 = start;
        let mut i: usize = 0;
        while i < self.len
            invariant
                self.wf(),
                i <= self.len,
                h == fold_frames(start, self@, i as int),
            decreases self.len - i,
        {
            h = placement_table::splitmix64(h ^ (self.frames[i] as u64));
            i = i + 1;
        }
        if h == 0 {
            StackId(1)
        } else {
            StackId(h)
        }
    }
}

impl Default for StackBuf {
    fn default() -> (res: StackBuf)
        ensures
            res.wf(),
            res@ == Seq::<usize>::empty(),
    {
        StackBuf::new()
    }
}

/// Stacks of one depth that differ in one frame stand for different sites, wherever they differ;
/// but for the hash that would stand for no stack, which shares its site with the next.
pub proof fn law_frames_tell_sites_apart(s: Seq<usize>, t: Seq<usize>, k: int)
    requires
        s.len() == t.len() <= MAX_STACK_FRAMES,
        0 <= k < s.len(),
        s[k] != t[k],
        forall|i: int| #![trigger s[i]] 0 <= i < s.len() && i != k ==> s[i] == t[i],
    ensures
        site_of(s) == site_of(t) ==> site_of(s) == StackId(1),
{
    let h = 0x9e37_79b9_7f4a_7c15u64 ^ (s.len() as u64);
    lemma_folds_apart(h, s, t, k, s.len() as int);
}

/// The hashes of two stacks that differ in frame `k` differ from there on.
proof fn lemma_folds_apart(h: u64, s: Seq<usize>, t: Seq<usize>, k: int, n: int)
    requires
        s.len() == t.len(),
        0 <= k < n <= s.len(),
        s[k] != t[k],
        forall|i: int| #![trigger s[i]] 0 <= i < s.len() && i != k ==> s[i] == t[i],
    ensures
        fold_frames(h, s, n) != fold_frames(h, t, n),
    decreases n,
{
    let a = fold_frames(h, s, n - 1);
    let b = fold_frames(h, t, n - 1);
    let x = s[n - 1] as u64;
    let y = t[n - 1] as u64;
    if k < n - 1 {
        lemma_folds_apart(h, s, t, k, n - 1);
        assert(s[n - 1] == t[n - 1]);
        assert(a ^ x != b ^ x) by (bit_vector)
            requires
                a != b,
        ;
    } else {
        lemma_folds_alike(h, s, t, n - 1);
        assert(a ^ x != a ^ y) by (bit_vector)
            requires
                x != y,
        ;
    }
    if placement_table::mix(a ^ x) == placement_table::mix(b ^ y) {
        placement_table::law_hashes_are_distinct(a ^ x, b ^ y);
    }
}

/// The hashes of stacks agree as far as the stacks do.
proof fn lemma_folds_alike(h: u64, s: Seq<usize>, t: Seq<usize>, n: int)
    requires
        0 <= n <= s.len(),
        n <= t.len(),
        forall|i: int| #![trigger s[i]] 0 <= i < n ==> s[i] == t[i],
    ensures
        fold_frames(h, s, n) == fold_frames(h, t, n),
    decreases n,
{
    if n > 0 {
        lemma_folds_alike(h, s, t, n - 1);
        assert(s[n - 1] == t[n - 1]);
    }
}

} // verus!
