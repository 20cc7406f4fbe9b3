//! What freeing the allocations of an arena does: all of them, and nothing else.
use vstd::prelude::*;
use crate::extent::ExtentSource;
use crate::ids::ArenaId;
use crate::large;
use crate::large::{LargeView, PoolView};
use crate::pagemap::PageMapView;

verus! {

/// What the steps so far did to the pool: the slots are as they were, and those that were freed
/// are free besides those that were.
proof fn lemma_steps<X: ExtentSource>(
    states: Seq<(LargeView<X>, PageMapView)>,
    freed: Seq<int>,
    oks: Seq<bool>,
    arena: ArenaId,
    n: int,
)
    requires
        0 <= n <= freed.len(),
        states.len() == freed.len() + 1,
        oks.len() == freed.len(),
        forall|k: int|
            #![trigger freed[k]]
            0 <= k < freed.len() ==> large::drain_step(
                states[k],
                states[k + 1],
                arena,
                freed[k],
                oks[k],
            ),
        large::pool_ok(states[0].0.pool),
    ensures
        states[n].0.pool.base == states[0].0.pool.base,
        states[n].0.pool.cap == states[0].0.pool.cap,
        states[n].0.pool.slots == states[0].0.pool.slots,
        states[n].0.pool.free.len() == states[0].0.pool.free.len() + n,
        forall|k: int|
            #![trigger freed[k]]
            0 <= k < n ==> 0 <= freed[k] < states[0].0.pool.slots.len()
                && states[0].0.pool.slots[freed[k]].0.arena == arena,
        forall|x: u32| #[trigger]
            states[n].0.pool.free.contains(x) <==> states[0].0.pool.free.contains(x) || exists|
                k: int,
            | #![trigger freed[k]] 0 <= k < n && freed[k] == x,
    decreases n,
{
    if n > 0 {
        lemma_steps(states, freed, oks, arena, n - 1);
        let i = freed[n - 1];
        assert(large::drain_step(states[n - 1], states[n], arena, i, oks[n - 1]));
        let v = states[n - 1].0.pool;
        let w = states[n].0.pool;
        assert(large::found_of(v, states[n - 1].1, arena, i));
        large::lemma_address(v, i);
        assert(large::resolves(v, states[n - 1].1, v.slots[i].0.base) == Some(i));
        assert(w.free == v.free.push(i as u32));
        assert forall|x: u32| #[trigger] w.free.contains(x) <==> states[0].0.pool.free.contains(x)
            || exists|k: int| #![trigger freed[k]] 0 <= k < n && freed[k] == x by {
            if w.free.contains(x) {
                let a = choose|a: int| 0 <= a < w.free.len() && w.free[a] == x;
                if a < v.free.len() {
                    assert(v.free[a] == x);
                    assert(v.free.contains(x));
                } else {
                    assert(freed[n - 1] == x);
                }
            }
            if v.free.contains(x) {
                let a = choose|a: int| 0 <= a < v.free.len() && v.free[a] == x;
                assert(w.free[a] == x);
            }
            if x == i {
                assert(w.free[v.free.len() as int] == x);
            }
        }
    }
}

/// Freeing the allocations of an arena frees allocations of that arena and no other: as many as it
/// says, each of the arena; every other slot is in use if it was, and as it was. When it says that
/// all went well, no allocation of the arena is found any more.
pub proof fn law_arena_is_freed_and_no_other<X: ExtentSource>(
    states: Seq<(LargeView<X>, PageMapView)>,
    freed: Seq<int>,
    oks: Seq<bool>,
    arena: ArenaId,
    res: (usize, usize, bool),
    j: int,
)
    requires
        large::drains(states, freed, oks, arena, res),
        large::pool_ok(states[0].0.pool),
        0 <= j < states[0].0.pool.slots.len(),
    ensures
        ({
            let v = states[0].0.pool;
            let w = states.last().0.pool;
            &&& w.slots == v.slots
            &&& w.live_count() == v.live_count() - res.0
            &&& v.slots[j].0.arena != arena ==> w.live(j) == v.live(j)
            &&& v.live(j) && !w.live(j) ==> v.slots[j].0.arena == arena
            &&& res.2 && v.slots[j].0.arena == arena ==> large::resolves(
                w,
                states.last().1,
                v.slots[j].0.base,
            ) != Some(j) || v.slots[j].0.base == 0
        }),
{
    let n = freed.len() as int;
    let v = states[0].0.pool;
    let w = states[n].0.pool;
    lemma_steps(states, freed, oks, arena, n);
    if v.slots[j].0.arena != arena && w.free.contains(j as u32) && !v.free.contains(j as u32) {
        let k = choose|k: int| #![trigger freed[k]] 0 <= k < n && freed[k] == j as u32;
        assert(v.slots[freed[k]].0.arena == arena);
    }
    assert(v.free.contains(j as u32) ==> w.free.contains(j as u32));
    if res.2 && v.slots[j].0.arena == arena {
        assert(!large::found_of(w, states[n].1, arena, j));
    }
}

/// The usable bytes of the allocations in some slots.
pub open spec fn bytes_of(v: PoolView, slots: Seq<int>) -> int
    decreases slots.len(),
{
    if slots.len() == 0 {
        0
    } else {
        bytes_of(v, slots.drop_last()) + v.slots[slots.last()].0.usable
    }
}

/// The bytes that it says are those of the allocations that were freed, as far as they can be
/// counted.
pub proof fn law_arena_bytes_are_those_freed<X: ExtentSource>(
    states: Seq<(LargeView<X>, PageMapView)>,
    freed: Seq<int>,
    oks: Seq<bool>,
    arena: ArenaId,
    res: (usize, usize, bool),
)
    requires
        large::drains(states, freed, oks, arena, res),
        large::pool_ok(states[0].0.pool),
    ensures
        res.0 == freed.len(),
        bytes_of(states[0].0.pool, freed) <= usize::MAX ==> res.1 == bytes_of(
            states[0].0.pool,
            freed,
        ),
        bytes_of(states[0].0.pool, freed) > usize::MAX ==> res.1 == usize::MAX,
{
    let n = freed.len() as int;
    lemma_bytes(states, freed, oks, arena, n);
    assert(freed.take(n) =~= freed);
}

proof fn lemma_bytes<X: ExtentSource>(
    states: Seq<(LargeView<X>, PageMapView)>,
    freed: Seq<int>,
    oks: Seq<bool>,
    arena: ArenaId,
    n: int,
)
    requires
        0 <= n <= freed.len(),
        states.len() == freed.len() + 1,
        oks.len() == freed.len(),
        forall|k: int|
            #![trigger freed[k]]
            0 <= k < freed.len() ==> large::drain_step(
                states[k],
                states[k + 1],
                arena,
                freed[k],
                oks[k],
            ),
        large::pool_ok(states[0].0.pool),
    ensures
        ({
            let all = bytes_of(states[0].0.pool, freed.take(n));
            &&& 0 <= all
            &&& large::usable_total(states, freed, n) == (if all > usize::MAX {
                usize::MAX as int
            } else {
                all
            })
        }),
    decreases n,
{
    if n > 0 {
        lemma_bytes(states, freed, oks, arena, n - 1);
        lemma_steps(states, freed, oks, arena, n - 1);
        assert(freed.take(n).drop_last() =~= freed.take(n - 1));
    }
}

} // verus!
