//! Overflow-safe arithmetic for sizes, alignments and page counts. Nothing here wraps: a
//! request whose size does not fit the machine word is answered `None`.
use vstd::arithmetic::power2::*;
use vstd::prelude::*;

verus! {

/// Whether `n` is a power of two.
pub open spec fn is_pow2(n: int) -> bool {
    exists|k: nat| n == #[trigger] pow2(k)
}

/// The least multiple of `align` that is at least `value`.
pub open spec fn round_up(value: int, align: int) -> int {
    ((value + align - 1) / align) * align
}

/// `ceil(a / b)`.
pub open spec fn ceil_div(a: int, b: int) -> int {
    (a + b - 1) / b
}

/// A power of two is positive; twice a positive number is a power of two exactly when the
/// number is; and the only odd power of two is 1.
pub proof fn lemma_pow2_step(n: int)
    requires
        n > 0,
    ensures
        is_pow2(2 * n) <==> is_pow2(n),
        n % 2 == 1 ==> (is_pow2(n) <==> n == 1),
{
    assert(pow2(0) == 1) by {
        vstd::arithmetic::power2::lemma2_to64();
    }
    if is_pow2(n) {
        let k = choose|k: nat| n == #[trigger] pow2(k);
        lemma_pow2_unfold((k + 1) as nat);
        assert(2 * n == pow2((k + 1) as nat));
        if k > 0 {
            lemma_pow2_unfold(k);
        }
    }
    if is_pow2(2 * n) {
        let k = choose|k: nat| 2 * n == #[trigger] pow2(k);
        assert(k > 0);
        lemma_pow2_unfold(k);
        assert(n == pow2((k - 1) as nat));
    }
    if n == 1 {
        assert(n == pow2(0));
    }
}

/// Whether `n` is a power of two.
pub fn is_power_of_two(n: usize) -> (res: bool)
    ensures
        res == is_pow2(n as int),
{
    if n == 0 {
        proof {
            assert forall|k: nat| 0 != #[trigger] pow2(k) by {
                lemma_pow2_pos(k);
            }
        }
        return false;
    }
    let mut v: usize = n;
    while v % 2 == 0
        invariant
            v > 0,
            is_pow2(v as int) <==> is_pow2(n as int),
        decreases v,
    {
        proof {
            lemma_pow2_step(v as int / 2);
            assert(v as int == 2 * (v as int / 2));
        }
        v = v / 2;
    }
    proof {
        lemma_pow2_step(v as int);
    }
    v == 1
}

/// A power of two divides every power of two that is no smaller.
pub proof fn lemma_pow2_divides(a: int, b: int)
    requires
        is_pow2(a),
        is_pow2(b),
        a <= b,
    ensures
        a > 0,
        b % a == 0,
{
    let i = choose|k: nat| a == #[trigger] pow2(k);
    let j = choose|k: nat| b == #[trigger] pow2(k);
    lemma_pow2_pos(i);
    if i > j {
        vstd::arithmetic::power2::lemma_pow2_strictly_increases(j, i);
    }
    let d = (j - i) as nat;
    vstd::arithmetic::power2::lemma_pow2_adds(i, d);
    assert(b == a * pow2(d));
    assert(b % a == 0) by (nonlinear_arith)
        requires
            b == a * pow2(d),
            a > 0,
    ;
}

/// Rounding up reaches a multiple of `align`, less than one `align` above `value`.
pub proof fn lemma_round_up(value: int, align: int)
    requires
        align > 0,
        value >= 0,
    ensures
        value <= round_up(value, align) < value + align,
        round_up(value, align) % align == 0,
        round_up(value, align) == ceil_div(value, align) * align,
        round_up(value, align) / align == ceil_div(value, align),
{
    let s = value + align - 1;
    let q = s / align;
    vstd::arithmetic::div_mod::lemma_fundamental_div_mod(s, align);
    assert(align * q == q * align) by (nonlinear_arith);
    vstd::arithmetic::div_mod::lemma_mod_multiples_basic(q, align);
    vstd::arithmetic::div_mod::lemma_div_multiples_vanish(q, align);
}

/// Round `value` up to the next multiple of `align`, a power of two; `None` when that does
/// not fit a machine word.
pub fn align_up(value: usize, align: usize) -> (res: Option<usize>)
    requires
        is_pow2(align as int),
    ensures
        match res {
            Some(r) => r == round_up(value as int, align as int),
            None => round_up(value as int, align as int) > usize::MAX,
        },
{
    proof {
        let k = choose|k: nat| align as int == #[trigger] pow2(k);
        lemma_pow2_pos(k);
        lemma_round_up(value as int, align as int);
    }
    let mask: usize = align - 1;
    match value.checked_add(mask) {
        Some(sum) => {
            let q: usize = sum / align;
            proof {
                let r = round_up(value as int, align as int);
                assert(r == q * align);
                assert(r <= sum) by {
                    vstd::arithmetic::div_mod::lemma_fundamental_div_mod(sum as int, align as int);
                    assert(align * q == q * align) by (nonlinear_arith);
                }
            }
            Some(q * align)
        },
        None => {
            proof {
                lemma_top_is_aligned(align);
                let top = usize::MAX + 1;
                let r = round_up(value as int, align as int);
                if r <= usize::MAX {
                    lemma_multiples_apart(r, top, align as int);
                }
            }
            None
        },
    }
}

/// One past the largest machine word is a multiple of every power of two that fits one.
proof fn lemma_top_is_aligned(align: usize)
    requires
        is_pow2(align as int),
    ensures
        (usize::MAX + 1) % (align as int) == 0,
{
    vstd::arithmetic::power2::lemma2_to64();
    vstd::arithmetic::power2::lemma2_to64_rest();
    assert(is_pow2(usize::MAX + 1)) by {
        if usize::MAX + 1 == 0x1_0000_0000 {
            assert(usize::MAX + 1 == pow2(32));
        } else {
            assert(usize::MAX + 1 == pow2(64));
        }
    }
    lemma_pow2_divides(align as int, usize::MAX + 1);
}

/// Two multiples of `d` that differ are at least `d` apart.
proof fn lemma_multiples_apart(a: int, b: int, d: int)
    by (nonlinear_arith)
    requires
        d > 0,
        a % d == 0,
        b % d == 0,
        a < b,
    ensures
        a + d <= b,
{
    let x = a / d;
    let y = b / d;
    assert(a == x * d);
    assert(b == y * d);
    assert(x < y);
    assert((y - x) * d >= d);
}

/// `n * elem_size`, or `None` when that does not fit a machine word.
pub fn array_bytes(n: usize, elem_size: usize) -> (res: Option<usize>)
    ensures
        match res {
            Some(r) => r == n * elem_size,
            None => n * elem_size > usize::MAX,
        },
{
    n.checked_mul(elem_size)
}

/// How many pages of `page_size` bytes, a power of two, hold `bytes`; `None` when the rounded
/// size does not fit a machine word.
pub fn pages_for(bytes: usize, page_size: usize) -> (res: Option<usize>)
    requires
        is_pow2(page_size as int),
    ensures
        match res {
            Some(r) => {
                &&& r == ceil_div(bytes as int, page_size as int)
                &&& r * page_size <= usize::MAX
            },
            None => round_up(bytes as int, page_size as int) > usize::MAX,
        },
{
    proof {
        let k = choose|k: nat| page_size as int == #[trigger] pow2(k);
        lemma_pow2_pos(k);
        lemma_round_up(bytes as int, page_size as int);
    }
    match align_up(bytes, page_size) {
        Some(r) => Some(r / page_size),
        None => None,
    }
}

/// Rounding up never loses a byte and never adds a whole unit; an exact multiple is kept.
pub proof fn law_round_up_is_the_least_multiple(value: int, align: int, m: int)
    requires
        is_pow2(align),
        0 <= value,
        m % align == 0,
        value <= m,
    ensures
        value <= round_up(value, align) <= m,
        value % align == 0 ==> round_up(value, align) == value,
{
    let k = choose|k: nat| align == #[trigger] pow2(k);
    lemma_pow2_pos(k);
    lemma_round_up(value, align);
    let r = round_up(value, align);
    if r > m {
        lemma_multiples_apart(m, r, align);
    }
    if value % align == 0 && value < r {
        lemma_multiples_apart(value, r, align);
    }
}

/// Dividing and rounding up gives as many as it takes and not one more.
pub proof fn law_ceil_div_is_as_many_as_it_takes(a: int, b: int)
    requires
        0 <= a,
        0 < b,
    ensures
        (ceil_div(a, b) - 1) * b < a <= ceil_div(a, b) * b,
{
    let x = a + b - 1;
    assert((x / b) * b <= x < (x / b + 1) * b) by (nonlinear_arith)
        requires
            b > 0,
    ;
    assert((x / b - 1) * b == (x / b) * b - b) by (nonlinear_arith);
    assert((x / b + 1) * b == (x / b) * b + b) by (nonlinear_arith);
}

/// The turn after `n`, counted modulo `count`.
pub proof fn lemma_next_turn(n: int, count: int)
    requires
        0 <= n,
        0 < count,
    ensures
        (n + 1) % count == (if n % count == count - 1 {
            0
        } else {
            n % count + 1
        }),
{
    vstd::arithmetic::div_mod::lemma_add_mod_noop(n, 1, count);
    if n % count == count - 1 {
        assert(count % count == 0) by (nonlinear_arith)
            requires
                count > 0,
        ;
        if count == 1 {
            assert((n + 1) % 1 == 0);
        } else {
            assert(1int % count == 1) by (nonlinear_arith)
                requires
                    count > 1,
            ;
        }
    } else {
        assert(1int % count == 1) by (nonlinear_arith)
            requires
                count > 1,
        ;
        vstd::arithmetic::div_mod::lemma_small_mod((n % count + 1) as nat, count as nat);
    }
}

/// Distinct numbers below `n` are at most `n`.
pub proof fn lemma_distinct_below(s: Seq<usize>, n: int)
    requires
        0 <= n,
        s.no_duplicates(),
        forall|a: int| #![trigger s[a]] 0 <= a < s.len() ==> s[a] < n,
    ensures
        s.len() <= n,
    decreases n,
{
    if n == 0 {
        if s.len() > 0 {
            assert(s[0] < 0);
        }
    } else if s.contains((n - 1) as usize) {
        let k = s.index_of((n - 1) as usize);
        let t = s.remove(k);
        assert forall|a: int| #![trigger t[a]] 0 <= a < t.len() implies t[a] < n - 1 by {
            let b = if a < k {
                a
            } else {
                a + 1
            };
            assert(t[a] == s[b]);
            assert(s[b] < n);
            assert(s[b] != s[k]);
        }
        assert(t.no_duplicates()) by {
            assert forall|a: int, b: int|
                0 <= a < b < t.len() implies t[a] != t[b] by {
                let c = if a < k {
                    a
                } else {
                    a + 1
                };
                let d = if b < k {
                    b
                } else {
                    b + 1
                };
                assert(t[a] == s[c] && t[b] == s[d]);
            }
        }
        lemma_distinct_below(t, n - 1);
    } else {
        assert forall|a: int| #![trigger s[a]] 0 <= a < s.len() implies s[a] < n - 1 by {
            assert(s[a] < n);
            assert(s.contains(s[a]));
        }
        lemma_distinct_below(s, n - 1);
    }
}

} // verus!
