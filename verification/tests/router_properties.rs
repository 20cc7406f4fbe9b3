//! Properties of the placement across nodes on concrete values.
use std::cell::{Cell, RefCell};

use topo_core::backend::{BackendError, Region, RegionCacheHook, TopoBackingProvider};
use topo_core::bitmap::{HUGEPAGE_SIZE, PAGE_SIZE};
use topo_core::bootstrap::BumpArena;
use topo_core::flags::{Hints, NumaPolicy};
use topo_core::huge_backend::{HugeConfig, HugePageBackend};
use topo_core::ids::{ArenaId, CoreId, NodeId};
use topo_core::node_router::{NodeRouter, NodeRouterStats, RouterControl};
use topo_core::pinned::FixedCore;
use topo_core::topology::{RebalanceMove, Topology, TopologyBuilder};

/// Hands out one stretch of addresses, and answers `release` and `decommit` as it is told.
struct Stub {
    base: usize,
    release: Result<(), BackendError>,
    released: Cell<u32>,
    decommits: bool,
}

impl TopoBackingProvider for Stub {
    fn reserve(&mut self, _a: ArenaId, size: usize, _align: usize) -> Result<Region, BackendError> {
        Ok(Region {
            base: self.base,
            len: size,
        })
    }
    fn commit(&mut self, _r: Region, _o: usize, _l: usize) -> Result<(), BackendError> {
        Ok(())
    }
    fn decommit(&mut self, _r: Region, _o: usize, _l: usize) -> Result<(), BackendError> {
        if self.decommits {
            Ok(())
        } else {
            Err(BackendError::OutOfMemory)
        }
    }
    fn revoke_descendants(&mut self, _a: ArenaId, _r: Region) -> Result<(), BackendError> {
        Ok(())
    }
    fn release(&mut self, _a: ArenaId, _r: Region) -> Result<(), BackendError> {
        self.released.set(self.released.get() + 1);
        self.release
    }
    fn bind_node(&mut self, _r: Region, _os_node: u32) -> Result<(), BackendError> {
        Ok(())
    }
    fn name(&self) -> &'static str {
        "stub"
    }
}

type Router = NodeRouter<Stub, FixedCore>;

const BASE: usize = 0x4000_0000_0000;
const STEP: usize = 0x10_0000_0000;

fn nodes(n: u32) -> TopologyBuilder {
    let mut b = TopologyBuilder::new(n);
    for c in 0..n {
        b.set_cpu(c, c, c);
    }
    b
}

fn router(topo: Topology, cap: usize, release: fn(usize) -> Result<(), BackendError>, decommits: bool) -> Option<Router> {
    let m = RefCell::new(BumpArena::new(0x10_0000, 1 << 21));
    NodeRouter::build(topo, FixedCore(CoreId(0)), |target: Option<NodeId>| {
        let slot = target.map_or(0, |n| n.0 as usize + 1);
        HugePageBackend::new(
            Stub {
                base: BASE + slot * STEP,
                release: release(slot),
                released: Cell::new(0),
                decommits,
            },
            &mut m.borrow_mut(),
            ArenaId::default_arena(),
            HugeConfig::with_capacity(cap),
        )
        .ok()
    })
}

fn plain(topo: Topology, cap: usize) -> Router {
    router(topo, cap, |_| Ok(()), true).expect("router")
}

fn bind(node: u32) -> Hints {
    Hints {
        numa: NumaPolicy::Bind(NodeId(node)),
        ..Default::default()
    }
}

#[test]
fn a_router_is_not_built_when_a_backend_is_not() {
    assert!(router(nodes(2).build(), 0, |_| Ok(()), true).is_none());
}

#[test]
fn spilling_goes_by_distance_and_then_by_number() {
    let mut b = nodes(4);
    b.set_distance(2, 0, 30);
    b.set_distance(2, 1, 11);
    b.set_distance(2, 3, 30);
    let r = plain(b.build(), 1);
    assert_eq!(r.spill_order(2), vec![1, 0, 3]);
    let mut c = nodes(4);
    c.set_distance(2, 0, 30);
    c.set_distance(2, 1, 255);
    c.set_distance(2, 3, 20);
    let r = plain(c.build(), 1);
    assert_eq!(r.spill_order(2), vec![3, 0, 1], "the farthest comes last");
}

#[test]
fn the_farthest_node_still_serves() {
    let mut b = nodes(2);
    b.set_distance(0, 1, 255);
    let mut r = plain(b.build(), 1);
    let near = r.try_alloc(HUGEPAGE_SIZE, PAGE_SIZE, bind(0)).unwrap();
    let far = r.try_alloc(HUGEPAGE_SIZE, PAGE_SIZE, bind(0)).unwrap();
    let unbound = r.try_alloc(HUGEPAGE_SIZE, PAGE_SIZE, bind(0)).unwrap();
    assert_eq!(r.node_of_addr(near.base), Some(0));
    assert_eq!(r.node_of_addr(far.base), Some(1));
    assert!(r.addr_in_default(unbound.base));
    assert_eq!(r.stats().spillovers, 2);
    assert!(r.try_alloc(HUGEPAGE_SIZE, PAGE_SIZE, bind(0)).is_none());
}

#[test]
fn policies_name_their_node() {
    let mut r = plain(nodes(3).build(), 1);
    assert_eq!(r.choose_node(NumaPolicy::Local), Some(0));
    assert_eq!(r.choose_node(NumaPolicy::Bind(NodeId(2))), Some(2));
    assert_eq!(r.choose_node(NumaPolicy::OsDefault), None);
    assert_eq!(r.choose_node(NumaPolicy::ArenaPolicy), None);
    let turns: Vec<Option<usize>> = (0..5).map(|_| r.choose_node(NumaPolicy::Interleave)).collect();
    assert_eq!(turns, vec![Some(0), Some(1), Some(2), Some(0), Some(1)]);
    assert_eq!(r.local_node(CoreId(1)), 1);
    assert_eq!(r.node_count(), 3);
}

#[test]
fn one_node_serves_every_policy() {
    let mut r = plain(Topology::single_domain(2), 2);
    assert_eq!(r.choose_node(NumaPolicy::Bind(NodeId(7))), Some(0));
    assert_eq!(r.spill_order(0), Vec::<usize>::new());
    let d = r
        .try_alloc(PAGE_SIZE, PAGE_SIZE, Hints { numa: NumaPolicy::OsDefault, ..Default::default() })
        .unwrap();
    assert_eq!(r.owner(d.base), Some(0));
}

#[test]
fn a_served_region_goes_home_and_a_strange_one_nowhere() {
    let mut r = plain(nodes(2).build(), 2);
    let p = r.try_alloc(3 * PAGE_SIZE, PAGE_SIZE, bind(1)).unwrap();
    assert_eq!(r.owner(p.base), Some(1));
    assert_eq!(r.node_of_addr(p.base), Some(1));
    assert_eq!(r.try_trim(p, PAGE_SIZE), Some(2 * PAGE_SIZE));
    let cut = Region {
        base: p.base,
        len: PAGE_SIZE,
    };
    assert!(r.try_cache_revoking(cut, ArenaId::default_arena()));
    assert!(!r.try_cache(cut), "freed already");
    let strange = Region {
        base: 0x1000_0000,
        len: PAGE_SIZE,
    };
    assert_eq!(r.owner(strange.base), None);
    assert!(!r.try_cache(strange));
    assert!(!r.try_cache_revoking(strange, ArenaId::default_arena()));
    assert_eq!(r.try_trim(strange, 1), None);
    let s = r.state_bytes();
    assert_eq!((s.active, s.dirty, s.muzzy, s.released), (0, 0, 0, 0));
}

#[test]
fn a_request_refused_everywhere_is_no_spillover() {
    let mut r = plain(nodes(2).build(), 1);
    assert!(r.try_alloc(2 * HUGEPAGE_SIZE, PAGE_SIZE, bind(0)).is_none());
    assert_eq!(r.stats().spillovers, 0);
    let pressures = r.sample_pressure();
    assert_eq!(pressures.len(), 2);
    assert_eq!(pressures[0].demand_bytes, HUGEPAGE_SIZE as u64);
    assert_eq!(pressures[1].demand_bytes, 0);
    assert_eq!(r.sample_pressure()[0].demand_bytes, 0, "sampling starts anew");
}

#[test]
fn the_unbound_backend_spills_to_the_nodes() {
    let mut r = plain(nodes(2).build(), 1);
    let hints = Hints {
        numa: NumaPolicy::OsDefault,
        ..Default::default()
    };
    let a = r.alloc_default(HUGEPAGE_SIZE, PAGE_SIZE, hints).unwrap();
    assert!(r.addr_in_default(a.base));
    let b = r.alloc_default(HUGEPAGE_SIZE, PAGE_SIZE, hints).unwrap();
    assert_eq!(r.node_of_addr(b.base), Some(0));
    let c = r.alloc_bound(0, HUGEPAGE_SIZE, PAGE_SIZE, bind(0)).unwrap();
    assert_eq!(r.node_of_addr(c.base), Some(1));
    assert_eq!(r.stats().spillovers, 2);
}

#[test]
fn idle_hugepages_of_every_backend_are_returned_but_for_the_reserve() {
    let mut r = plain(nodes(2).build(), 4);
    for node in 0..2 {
        let regions: Vec<Region> = (0..3)
            .map(|_| r.try_alloc(HUGEPAGE_SIZE, PAGE_SIZE, bind(node)).unwrap())
            .collect();
        for p in regions {
            assert!(r.try_cache(p));
        }
    }
    assert_eq!(RouterControl::release_idle(&mut r, 1), 4 * HUGEPAGE_SIZE);
    assert_eq!(r.release_idle(1), 0);
    assert_eq!(r.release_idle(0), 2 * HUGEPAGE_SIZE);
    assert!(r.check_invariants());
}

#[test]
fn a_move_that_returns_nothing_is_not_counted_as_bytes() {
    let mut r = router(nodes(2).build(), 2, |_| Ok(()), false).unwrap();
    let p = r.try_alloc(HUGEPAGE_SIZE, PAGE_SIZE, bind(0)).unwrap();
    assert!(r.try_cache(p));
    let planned = RebalanceMove {
        src: NodeId(0),
        dst: NodeId(1),
        bytes: HUGEPAGE_SIZE as u64,
    };
    let done = RouterControl::rebalance_tick(&mut r, |pressures, topo| {
        assert_eq!(pressures[0].free_bytes, HUGEPAGE_SIZE as u64);
        assert_eq!(topo.node_count(), 2);
        Some(planned)
    });
    assert_eq!(done, Some(RebalanceMove { bytes: 0, ..planned }));
    let s = RouterControl::stats(&r);
    assert_eq!(
        s,
        NodeRouterStats {
            nodes: 2,
            bind_failures: 0,
            rebalance_moves: 1,
            rebalance_released_bytes: 0,
            spillovers: 0,
        }
    );
    assert_eq!(RouterControl::rebalance_tick(&mut r, |_, _| None), None);
    assert_eq!(r.stats().rebalance_moves, 1);
}

#[test]
fn teardown_answers_the_first_error_and_gives_the_rest_back() {
    let mut r = router(
        nodes(2).build(),
        2,
        |slot| match slot {
            1 => Err(BackendError::InvalidRequest),
            2 => Err(BackendError::OutOfMemory),
            _ => Ok(()),
        },
        true,
    )
    .unwrap();
    assert_eq!(r.teardown(), Err(BackendError::InvalidRequest));
    assert!(r.try_alloc(PAGE_SIZE, PAGE_SIZE, bind(0)).is_none());
    assert!(r.try_alloc(PAGE_SIZE, PAGE_SIZE, bind(1)).is_none());
    assert_eq!(plain(nodes(2).build(), 1).teardown(), Ok(()));
}

#[test]
fn a_refresh_happens_only_on_a_mismatch() {
    let mut r = plain(nodes(2).build(), 1);
    assert!(!r.refresh_if_mismatch(1, NodeId(1), || nodes(2).build()));
    let mut swapped = TopologyBuilder::new(2);
    swapped.set_cpu(0, 1, 1);
    swapped.set_cpu(1, 0, 0);
    let swapped = swapped.build();
    assert!(swapped.detect_mismatch(0, NodeId(0)));
    RouterControl::refresh(&mut r, swapped);
    assert_eq!(r.local_node(CoreId(0)), 1);
}
