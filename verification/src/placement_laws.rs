//! What is learned of an allocation site: confidence comes of many samples that agree, and a hint
//! says what most of them say.
use vstd::prelude::*;
use crate::flags::Lifetime;
use crate::huge_bin::Hotness;
use crate::placement;
use crate::placement::{
    HistogramView, LifetimeClass, ProfileView, BP_ONE, CONFIDENT_SAMPLES,
};

verus! {

/// The lifetimes of a class.
pub open spec fn count_of(h: HistogramView, c: LifetimeClass) -> int {
    h.counts[c.rank()] as int
}

/// There are `n` lifetimes in all.
pub open spec fn has_total(h: HistogramView, n: int) -> bool {
    n == count_of(h, LifetimeClass::Unknown) + count_of(h, LifetimeClass::Ephemeral) + count_of(
        h,
        LifetimeClass::Short,
    ) + count_of(h, LifetimeClass::Medium) + count_of(h, LifetimeClass::Long) + count_of(
        h,
        LifetimeClass::Persistent,
    )
}

/// No class has more lifetimes than `c`, which is known and has some; a longer-lived one has
/// fewer.
pub open spec fn leads(h: HistogramView, c: LifetimeClass) -> bool {
    &&& c != LifetimeClass::Unknown
    &&& count_of(h, c) > 0
    &&& forall|d: LifetimeClass| #[trigger]
        d.rank() != 0 && d != c ==> if d.rank() > c.rank() {
            count_of(h, d) < count_of(h, c)
        } else {
            count_of(h, d) <= count_of(h, c)
        }
}

/// Six counts and their sum.
proof fn lemma_total(h: HistogramView)
    ensures
        has_total(h, placement::sum_counts(h.counts, LifetimeClass::COUNT as int)),
{
    reveal_with_fuel(placement::sum_counts, 7);
}

/// The leading class is where the histogram peaks.
proof fn lemma_leads(h: HistogramView, c: LifetimeClass)
    requires
        h.counts.len() == LifetimeClass::COUNT,
        leads(h, c),
    ensures
        h.peak() == c.rank(),
        h.peak_count() == count_of(h, c),
        h.peaks_at(c.rank()),
        0 < c.rank() < LifetimeClass::COUNT,
{
    assert forall|j: int| 0 < j < LifetimeClass::COUNT implies #[trigger] h.counts[j]
        <= h.counts[c.rank()] && (c.rank() < j ==> h.counts[j] < h.counts[c.rank()]) by {
        let d = LifetimeClass::at_rank(j);
        assert(d.rank() == j);
    }
    assert(h.peaks_at(c.rank()));
    h.lemma_peak(c.rank());
}

/// With lifetimes of a known class some class leads.
pub proof fn law_some_class_leads(h: HistogramView, c: LifetimeClass) -> (d: LifetimeClass)
    requires
        h.counts.len() == LifetimeClass::COUNT,
        c != LifetimeClass::Unknown,
        count_of(h, c) > 0,
    ensures
        leads(h, d),
{
    let n = |k: int| h.counts[k] as int;
    let best: int = 1;
    let best = if n(2) >= n(best) {
        2
    } else {
        best
    };
    let best = if n(3) >= n(best) {
        3
    } else {
        best
    };
    let best = if n(4) >= n(best) {
        4
    } else {
        best
    };
    let best = if n(5) >= n(best) {
        5
    } else {
        best
    };
    let d = LifetimeClass::at_rank(best);
    assert(1 <= c.rank() <= 5);
    assert(n(c.rank()) <= n(best));
    assert forall|e: LifetimeClass| #[trigger] e.rank() != 0 && e != d implies if e.rank()
        > d.rank() {
        count_of(h, e) < count_of(h, d)
    } else {
        count_of(h, e) <= count_of(h, d)
    } by {
        assert(1 <= e.rank() <= 5);
    }
    d
}

/// A mature site is trusted by how many of its lifetimes agree: from [`CONFIDENT_SAMPLES`] on,
/// the trust is the share of the leading class in basis points, rounded down.
pub proof fn law_trust_is_the_share_that_agrees(p: ProfileView, c: LifetimeClass, n: int)
    requires
        p.lifetimes.counts.len() == LifetimeClass::COUNT,
        leads(p.lifetimes, c),
        has_total(p.lifetimes, n),
        CONFIDENT_SAMPLES <= n <= u32::MAX,
    ensures
        p.lifetime_trust() * n <= count_of(p.lifetimes, c) * BP_ONE < (p.lifetime_trust() + 1) * n,
{
    let h = p.lifetimes;
    lemma_total(h);
    lemma_leads(h, c);
    let k = count_of(h, c);
    let q = (k * BP_ONE) / n;
    assert((10_000 * q) / 10_000 == q);
    assert(q * n <= k * BP_ONE < (q + 1) * n) by (nonlinear_arith)
        requires
            q == (k * BP_ONE) / n,
            n > 0,
    ;
}

/// When all lifetimes of a mature site agree, it is trusted in full, and its hint is what they
/// say, whatever confidence is asked for.
pub proof fn law_agreement_is_trusted_in_full(
    p: ProfileView,
    c: LifetimeClass,
    n: int,
    min_bp: int,
)
    requires
        p.lifetimes.counts.len() == LifetimeClass::COUNT,
        c != LifetimeClass::Unknown,
        CONFIDENT_SAMPLES <= n <= u32::MAX,
        count_of(p.lifetimes, c) == n,
        has_total(p.lifetimes, n),
        min_bp <= BP_ONE,
    ensures
        p.lifetime_trust() == BP_ONE,
        p.hints(min_bp).lifetime == c.coarse(),
{
    let h = p.lifetimes;
    assert forall|d: LifetimeClass| #[trigger] d.rank() != 0 && d != c implies count_of(h, d)
        == 0 by {}
    assert(leads(h, c));
    lemma_leads(h, c);
    law_trust_is_the_share_that_agrees(p, c, n);
    let t = p.lifetime_trust();
    assert(t == 10_000) by (nonlinear_arith)
        requires
            t * n <= n * 10_000 < (t + 1) * n,
            n > 0,
    ;
}

/// More evidence of the same kind never lowers the trust: one more lifetime of the leading class,
/// of an object freed or still live, leaves it leading and the trust no less.
pub proof fn law_agreement_does_not_lower_trust(
    p: ProfileView,
    q: ProfileView,
    c: LifetimeClass,
)
    requires
        p.lifetimes.counts.len() == LifetimeClass::COUNT,
        leads(p.lifetimes, c),
        q.lifetimes == p.lifetimes.with(c) || q.lifetimes == p.lifetimes.with_censored(c),
    ensures
        leads(q.lifetimes, c),
        p.lifetime_trust() <= q.lifetime_trust(),
{
    let h = p.lifetimes;
    let g = q.lifetimes;
    assert(g.counts == h.counts.update(c.rank(), placement::cap32(h.counts[c.rank()] + 1) as u32));
    assert forall|d: LifetimeClass| #[trigger] d.rank() != 0 && d != c implies if d.rank()
        > c.rank() {
        count_of(g, d) < count_of(g, c)
    } else {
        count_of(g, d) <= count_of(g, c)
    } by {
        assert(d.rank() != c.rank());
    }
    lemma_leads(h, c);
    lemma_leads(g, c);
    lemma_total(h);
    lemma_total(g);
    let a = h.all();
    let b = g.all();
    let k = count_of(h, c);
    let m = count_of(g, c);
    assert(0 < k <= a);
    let x = (k * BP_ONE) / a;
    let y = (m * BP_ONE) / b;
    assert(x <= y) by {
        if m == k + 1 && b == a + 1 {
            assert((k * 10_000) / a <= ((k + 1) * 10_000) / (a + 1)) by (nonlinear_arith)
                requires
                    0 < k <= a,
            {
                let x = (k * 10_000) / a;
                assert(x * a <= k * 10_000);
                assert(x <= 10_000);
                assert(x * (a + 1) <= (k + 1) * 10_000);
            }
        } else {
            assert(a == b);
            assert((k * 10_000) / a <= (m * 10_000) / a) by (nonlinear_arith)
                requires
                    0 < k <= m,
                    0 < a,
            ;
        }
    }
    placement::law_maturity_grows(a, b);
    let u = placement::maturity(a);
    let w = placement::maturity(b);
    assert(0 <= x) by (nonlinear_arith)
        requires
            x == (k * BP_ONE) / a,
            0 < k,
            0 < a,
    ;
    assert((u * x) / 10_000 <= (w * y) / 10_000) by {
        assert(u * x <= w * y) by (nonlinear_arith)
            requires
                0 <= u <= w,
                0 <= x <= y,
        ;
    }
}

/// Evidence to the contrary never raises the trust in a mature site: one more lifetime of a class
/// that does not come to lead leaves it no higher.
pub proof fn law_disagreement_does_not_raise_trust(
    p: ProfileView,
    q: ProfileView,
    c: LifetimeClass,
    d: LifetimeClass,
    n: int,
)
    requires
        p.lifetimes.counts.len() == LifetimeClass::COUNT,
        leads(p.lifetimes, c),
        d != c,
        q.lifetimes == p.lifetimes.with(d) || q.lifetimes == p.lifetimes.with_censored(d),
        leads(q.lifetimes, c),
        has_total(p.lifetimes, n),
        CONFIDENT_SAMPLES <= n < u32::MAX,
    ensures
        q.lifetime_trust() <= p.lifetime_trust(),
{
    let h = p.lifetimes;
    let g = q.lifetimes;
    assert(d.rank() != c.rank());
    assert(g.counts == h.counts.update(d.rank(), placement::cap32(h.counts[d.rank()] + 1) as u32));
    lemma_leads(h, c);
    lemma_leads(g, c);
    lemma_total(h);
    lemma_total(g);
    let k = count_of(h, c);
    assert(count_of(g, c) == k);
    let a = h.all();
    let b = g.all();
    assert(a <= b);
    assert((k * 10_000) / b <= (k * 10_000) / a) by (nonlinear_arith)
        requires
            0 < k,
            0 < a <= b,
    ;
    let x = (k * 10_000) / a;
    let y = (k * 10_000) / b;
    assert((10_000 * x) / 10_000 == x);
    assert((10_000 * y) / 10_000 == y);
}

/// Few samples are trusted by their number: short of [`CONFIDENT_SAMPLES`], no more than the
/// share of it that they are, however they agree; and when they all agree, exactly that much.
pub proof fn law_few_samples_are_trusted_little(p: ProfileView, c: LifetimeClass, n: int)
    requires
        p.lifetimes.counts.len() == LifetimeClass::COUNT,
        leads(p.lifetimes, c),
        has_total(p.lifetimes, n),
        n < CONFIDENT_SAMPLES,
    ensures
        p.lifetime_trust() * CONFIDENT_SAMPLES <= n * BP_ONE,
        count_of(p.lifetimes, c) == n ==> n * BP_ONE < (p.lifetime_trust() + 1) * CONFIDENT_SAMPLES,
{
    let h = p.lifetimes;
    lemma_total(h);
    lemma_leads(h, c);
    let k = count_of(h, c);
    let x = (k * 10_000) / n;
    let m = (n * 10_000) / 32;
    assert(0 <= x <= 10_000) by (nonlinear_arith)
        requires
            x == (k * 10_000) / n,
            0 < k <= n,
    ;
    assert((m * x) / 10_000 <= m) by (nonlinear_arith)
        requires
            0 <= x <= 10_000,
            0 <= m,
    ;
    if k == n {
        assert((n * 10_000) / n == 10_000) by (nonlinear_arith)
            requires
                n > 0,
        ;
        assert((m * 10_000) / 10_000 == m);
    }
}

/// A lifetime hint is what the leading class says, and is given exactly when the trust reaches
/// what is asked for.
pub proof fn law_lifetime_hint_is_the_leading_class(p: ProfileView, c: LifetimeClass, min_bp: int)
    requires
        p.lifetimes.counts.len() == LifetimeClass::COUNT,
        leads(p.lifetimes, c),
    ensures
        p.lifetime_trust() >= min_bp <==> p.hints(min_bp).lifetime != Lifetime::Unspecified,
        p.lifetime_trust() >= min_bp ==> p.hints(min_bp).lifetime == c.coarse(),
{
    lemma_leads(p.lifetimes, c);
}

/// An object that lived less than a second is hinted as short-lived, one that lived less than a
/// minute as medium-lived, and any other as long-lived; less than a millisecond is ephemeral, and
/// an hour persistent.
pub proof fn law_hints_go_by_age(age_ms: int)
    requires
        0 <= age_ms,
    ensures
        LifetimeClass::of_age(age_ms).coarse() == Lifetime::Short <==> age_ms < 1_000,
        LifetimeClass::of_age(age_ms).coarse() == Lifetime::Medium <==> 1_000 <= age_ms < 60_000,
        LifetimeClass::of_age(age_ms).coarse() == Lifetime::Long <==> age_ms >= 60_000,
        LifetimeClass::of_age(age_ms) == LifetimeClass::Ephemeral <==> age_ms < 1,
        LifetimeClass::of_age(age_ms) == LifetimeClass::Persistent <==> age_ms >= 3_600_000,
{
}

/// A lifetime counts for its class and for no other, up to the largest count; one of an object
/// still live is counted as such besides.
pub proof fn law_lifetimes_count_for_their_class(
    h: HistogramView,
    c: LifetimeClass,
    d: LifetimeClass,
)
    requires
        h.counts.len() == LifetimeClass::COUNT,
        count_of(h, c) < u32::MAX,
        h.censored < u32::MAX,
    ensures
        count_of(h.with(c), d) == count_of(h, d) + (if c == d {
            1int
        } else {
            0
        }),
        count_of(h.with_censored(c), d) == count_of(h.with(c), d),
        h.with(c).censored == h.censored,
        h.with_censored(c).censored == h.censored + 1,
        h.with(c).counts.len() == LifetimeClass::COUNT,
{
}

/// A site is hot when its hints come to 128 on average, cold when they come to less than one, and
/// neutral between; and nothing is said before the hotness is trusted as much as is asked for,
/// which takes that share of [`CONFIDENT_SAMPLES`] allocations.
pub proof fn law_hotness_hint_is_the_average(p: ProfileView, min_bp: int)
    requires
        p.hotness_ok(),
        0 < p.alloc_count < u32::MAX,
        0 < min_bp <= BP_ONE,
    ensures
        p.hints(min_bp).hotness == Hotness::Hot <==> p.hotness_sum >= 128 * p.alloc_count
            && p.alloc_count * BP_ONE >= min_bp * CONFIDENT_SAMPLES,
        p.hints(min_bp).hotness == Hotness::Cold <==> p.hotness_sum < p.alloc_count
            && p.alloc_count * BP_ONE >= min_bp * CONFIDENT_SAMPLES,
{
    placement::law_hotness_is_the_mean(p, 0, 0, 0, 0, 0);
    let s = p.hotness_sum as int;
    let n = p.alloc_count as int;
    assert(s / n >= 128 <==> s >= 128 * n) by (nonlinear_arith)
        requires
            n > 0,
    ;
    assert(s / n == 0 <==> s < n) by (nonlinear_arith)
        requires
            n > 0,
            s >= 0,
    ;
    if n < CONFIDENT_SAMPLES {
        assert((n * 10_000) / 32 >= min_bp <==> n * 10_000 >= min_bp * 32);
    }
}

/// A site as a whole is trusted no more than its hotness and no more than its lifetime, and as
/// much as one of them.
pub proof fn law_trust_is_the_weaker(p: ProfileView)
    ensures
        p.trust() <= p.hotness_trust(),
        p.trust() <= p.lifetime_trust(),
        p.trust() == p.hotness_trust() || p.trust() == p.lifetime_trust(),
{
}

/// Events per second are counted over the time that they took, rounded down.
pub proof fn law_rate_is_events_over_time(count: int, first: int, last: int)
    requires
        0 <= count,
    ensures
        ({
            let r = placement::events_per_second(count, first, last);
            &&& last > first ==> r * (last - first) <= count * 1_000 < (r + 1) * (last - first)
            &&& last <= first ==> r == 0
        }),
{
    if last > first {
        let x = count * 1_000;
        let w = last - first;
        assert((x / w) * w <= x < (x / w + 1) * w) by (nonlinear_arith)
            requires
                w > 0,
        ;
    }
}

/// A sampled free undoes what its allocation added to the live bytes, as long as they can be
/// counted; and each is counted once, at its time.
pub proof fn law_free_balances_allocation(
    p: ProfileView,
    bucket: u16,
    bytes: u64,
    hint: u8,
    now: u64,
    age: u64,
    later: u64,
)
    requires
        p.live_bytes + bytes <= u64::MAX,
        p.hotness_sum + hint <= u64::MAX,
        p.alloc_count < u32::MAX,
        p.free_count < u32::MAX,
    ensures
        ({
            let a = p.allocated(bucket, bytes, hint, now);
            let f = a.freed(age, bytes, later);
            &&& a.live_bytes == p.live_bytes + bytes
            &&& f.live_bytes == p.live_bytes
            &&& a.alloc_count == p.alloc_count + 1
            &&& f.alloc_count == a.alloc_count
            &&& f.free_count == p.free_count + 1
            &&& a.free_count == p.free_count
            &&& a.hotness_sum == p.hotness_sum + hint
            &&& f.hotness_sum == a.hotness_sum
            &&& a.last_alloc_ms == now
            &&& f.last_alloc_ms == now
            &&& f.last_free_ms == later
            &&& a.first_ms <= now
            &&& a.first_ms <= p.first_ms
            &&& a.first_ms == now || a.first_ms == p.first_ms
            &&& a.lifetimes == p.lifetimes
            &&& f.sizes == a.sizes
            &&& f.stack_id == p.stack_id
        }),
{
}

} // verus!
