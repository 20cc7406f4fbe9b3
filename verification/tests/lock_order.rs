//! The order of the locks and the ranks that a thread holds.
use topo_core::lock::{
    held_lock_count, reset_lock_checker, HeldRanks, LockOrder, LockRank, RankedLock,
};

#[test]
fn distinct_ranks_are_strictly_increasing() {
    let order = [
        LockRank::GLOBAL_CONFIG,
        LockRank::ARENA_REGISTRY,
        LockRank::ARENA,
        LockRank::FRONT_END,
        LockRank::TRANSFER,
        LockRank::CENTRAL,
        LockRank::SPAN_POOL,
        LockRank::SPAN,
        LockRank::BACKEND,
        LockRank::STATS,
    ];
    for pair in order.windows(2) {
        assert!(
            pair[0] < pair[1],
            "lock ranks must be a strict total order: {} !< {}",
            pair[0],
            pair[1]
        );
    }
}

#[test]
fn acquire_release_roundtrips() {
    let mut held = HeldRanks::new();
    let mut l: RankedLock<{ LockRank::CENTRAL }> = RankedLock::new();
    assert_eq!(l.rank(), LockRank::CENTRAL);
    l.acquire(&mut held);
    assert_eq!(
        held_lock_count(&held),
        1
    );
    l.release(&mut held);
    assert_eq!(held_lock_count(&held), 0);
}

#[test]
fn guard_releases_on_drop() {
    let mut held = HeldRanks::new();
    let mut l: RankedLock<{ LockRank::SPAN }> = RankedLock::new();
    {
        let g = l.lock(&mut held);
        assert_eq!(held_lock_count(&held), 1);
        g.unlock(&mut l, &mut held);
    }
    assert_eq!(held_lock_count(&held), 0);
    let again = l.lock(&mut held);
    assert!(l.is_locked());
    again.unlock(&mut l, &mut held);
}

#[test]
fn increasing_nesting_is_accepted() {
    let mut held = HeldRanks::new();
    let mut c: RankedLock<{ LockRank::CENTRAL }> = RankedLock::new();
    let mut sp: RankedLock<{ LockRank::SPAN_POOL }> = RankedLock::new();
    let mut s: RankedLock<{ LockRank::SPAN }> = RankedLock::new();
    let mut b: RankedLock<{ LockRank::BACKEND }> = RankedLock::new();
    let _gc = c.lock(&mut held);
    let _gsp = sp.lock(&mut held);
    let _gs = s.lock(&mut held);
    let _gb = b.lock(&mut held);
    assert_eq!(
        held_lock_count(&held),
        4
    );
}

#[test]
fn out_of_order_release_is_tolerated() {
    let mut held = HeldRanks::new();
    let mut a: RankedLock<{ LockRank::CENTRAL }> = RankedLock::new();
    let mut b: RankedLock<{ LockRank::SPAN }> = RankedLock::new();
    a.acquire(&mut held);
    b.acquire(&mut held);
    a.release(&mut held);
    b.release(&mut held);
    assert_eq!(held_lock_count(&held), 0);
}

#[test]
fn out_of_order_acquire_trips_the_checker() {
    let mut held = HeldRanks::new();
    let mut high: RankedLock<{ LockRank::BACKEND }> = RankedLock::new();
    let low: RankedLock<{ LockRank::CENTRAL }> = RankedLock::new();
    high.acquire(&mut held);
    let caught = held.enter(low.rank());
    assert!(
        caught.is_err(),
        "out-of-order acquire must trip the checker"
    );
    assert_eq!(caught, Err(LockOrder::Holding(LockRank::BACKEND)));
    reset_lock_checker(&mut held);
}

#[test]
fn force_reset_clears_a_held_lock() {
    let mut held = HeldRanks::new();
    let mut l: RankedLock<{ LockRank::BACKEND }> = RankedLock::new();
    l.acquire(&mut held);

    l.force_reset();

    reset_lock_checker(&mut held);
    l.acquire(&mut held);
    l.release(&mut held);
}

#[test]
fn without_the_checker_any_order_is_taken_and_nothing_is_counted() {
    let mut held = HeldRanks::unchecked();
    let mut high: RankedLock<{ LockRank::BACKEND }> = RankedLock::new();
    let mut low: RankedLock<{ LockRank::CENTRAL }> = RankedLock::new();
    high.acquire(&mut held);
    low.acquire(&mut held);
    assert!(high.is_locked() && low.is_locked());
    assert_eq!(held_lock_count(&held), 0);
    assert_eq!(held.enter(LockRank::GLOBAL_CONFIG), Ok(()));
    assert_eq!(held_lock_count(&held), 0);
    high.release(&mut held);
    assert!(!high.is_locked() && low.is_locked());
    reset_lock_checker(&mut held);
    high.acquire(&mut held);
    assert_eq!(held_lock_count(&held), 0);
}
