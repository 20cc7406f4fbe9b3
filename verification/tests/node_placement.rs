//! Placement across nodes.
use std::cell::{Cell, RefCell};

use topo_core::backend::{BackendError, Region, RegionCacheHook, TopoBackingProvider};
use topo_core::bitmap::{HUGEPAGE_SIZE, PAGE_SIZE};
use topo_core::bootstrap::BumpArena;
use topo_core::flags::{Hints, HugepagePolicy, NumaPolicy};
use topo_core::huge_backend::{HugeConfig, HugePageBackend};
use topo_core::ids::{ArenaId, CoreId, NodeId};
use topo_core::node_router::{NodeRouter, RouterControl};
use topo_core::pinned::FixedCore;
use topo_core::topology::{
    NodePressure, RebalanceMove, Topology, TopologyBuilder, MAX_NODES,
};

struct MockProvider {
    next: Cell<usize>,
    owned: RefCell<Vec<usize>>,
    fail_bind: bool,
    fail_release: bool,
}

impl MockProvider {
    fn new(from: usize, fail_bind: bool) -> Self {
        Self {
            next: Cell::new(from),
            owned: RefCell::new(Vec::new()),
            fail_bind,
            fail_release: false,
        }
    }
}

impl TopoBackingProvider for MockProvider {
    fn reserve(&mut self, _a: ArenaId, size: usize, align: usize) -> Result<Region, BackendError> {
        if size == 0 || !align.is_power_of_two() {
            return Err(BackendError::InvalidRequest);
        }
        let base = (self.next.get() + align - 1) / align * align;
        self.next.set(base + size);
        self.owned.borrow_mut().push(base);
        Ok(Region { base, len: size })
    }
    fn commit(&mut self, _r: Region, _o: usize, _l: usize) -> Result<(), BackendError> {
        Ok(())
    }
    fn decommit(&mut self, region: Region, offset: usize, len: usize) -> Result<(), BackendError> {
        assert!(offset + len <= region.len);
        Ok(())
    }
    fn revoke_descendants(&mut self, _a: ArenaId, _r: Region) -> Result<(), BackendError> {
        Ok(())
    }
    fn release(&mut self, _a: ArenaId, region: Region) -> Result<(), BackendError> {
        if self.fail_release {
            return Err(BackendError::InvalidRequest);
        }
        let mut owned = self.owned.borrow_mut();
        let i = owned
            .iter()
            .position(|&b| b == region.base)
            .ok_or(BackendError::InvalidRequest)?;
        owned.swap_remove(i);
        Ok(())
    }
    fn bind_node(&mut self, _region: Region, _os_node: u32) -> Result<(), BackendError> {
        if self.fail_bind {
            Err(BackendError::OutOfMemory)
        } else {
            Ok(())
        }
    }
    fn name(&self) -> &'static str {
        "mock"
    }
}

type Router = NodeRouter<MockProvider, FixedCore>;

/// Where the backend of a node reserves its address space.
fn place_of(target: Option<NodeId>) -> usize {
    let slot = match target {
        Some(n) => n.0 as usize + 1,
        None => 0,
    };
    0x4000_0000_0000 + slot * 0x10_0000_0000
}

fn meta(bytes: usize) -> RefCell<BumpArena> {
    RefCell::new(BumpArena::new(0x10_0000, bytes))
}

fn two_node_topo() -> Topology {
    let mut b = TopologyBuilder::new(2);
    b.set_cpu(0, 0, 0);
    b.set_cpu(1, 1, 1);
    b.build()
}

fn build(topo: Topology, bytes: usize, fail_bind_node1: bool, cap: impl Fn(Option<NodeId>) -> usize) -> Router {
    let m = meta(bytes);
    NodeRouter::build(topo, FixedCore(CoreId(0)), |target| {
        let fail = matches!(target, Some(n) if fail_bind_node1 && n.0 == 1);
        HugePageBackend::new(
            MockProvider::new(place_of(target), fail),
            &mut m.borrow_mut(),
            ArenaId::default_arena(),
            HugeConfig::with_capacity(cap(target)),
        )
        .ok()
    })
    .expect("router")
}

fn router(topo: Topology, cap: usize, fail_bind_node1: bool) -> Router {
    build(topo, 1 << 21, fail_bind_node1, |_| cap)
}

fn router_caps(cap0: usize, cap1: usize) -> Router {
    build(two_node_topo(), 1 << 21, false, |target| match target {
        Some(n) if n.0 == 0 => cap0,
        Some(_) => cap1,
        None => cap0.max(cap1),
    })
}

fn hints(numa: NumaPolicy) -> Hints {
    Hints {
        numa,
        ..Default::default()
    }
}

/// Moves what one node has idle beyond its own demand to the node that lacks most.
fn plan(pressures: &Vec<NodePressure>, _topo: &Topology) -> Option<RebalanceMove> {
    let mut best: Option<RebalanceMove> = None;
    for (i, src) in pressures.iter().enumerate() {
        let surplus = src.free_bytes.saturating_sub(src.demand_bytes);
        for (j, dst) in pressures.iter().enumerate() {
            let lack = dst.demand_bytes.saturating_sub(dst.free_bytes);
            let bytes = surplus.min(lack);
            if i != j && bytes > best.map_or(0, |b| b.bytes) {
                best = Some(RebalanceMove {
                    src: NodeId(i as u32),
                    dst: NodeId(j as u32),
                    bytes,
                });
            }
        }
    }
    best
}

#[test]
fn avoid_hugepage_declines_without_polluting_demand() {
    let mut r = router_caps(2, 2);

    let big = r
        .try_alloc(HUGEPAGE_SIZE, PAGE_SIZE, hints(NumaPolicy::Bind(NodeId(1))))
        .expect("hugepage on node 1");
    assert!(r.try_cache(big), "freed => empty-backed on node 1");

    let avoid = Hints {
        hugepage: HugepagePolicy::Avoid,
        ..Default::default()
    };
    for _ in 0..4 {
        assert!(
            r.try_alloc(64 * 1024, PAGE_SIZE, avoid).is_none(),
            "NO_HUGEPAGE declines the hugepage backend"
        );
    }
    assert_eq!(
        r.stats().spillovers,
        0,
        "an avoid-decline is not a spillover"
    );

    assert!(
        r.rebalance_tick(plan).is_none(),
        "an avoid never fabricates rebalancer demand"
    );
    assert_eq!(r.stats().rebalance_moves, 0);
}

#[test]
fn router_scales_to_max_nodes() {
    let mut tb = TopologyBuilder::new(MAX_NODES as u32);
    for c in 0..MAX_NODES as u32 {
        tb.set_cpu(c, c, c);
    }
    let mut r = build(tb.build(), 1 << 22, false, |_target| 1);
    assert_eq!(r.node_count(), MAX_NODES);
    let mut regions = Vec::new();
    for node in 0..MAX_NODES {
        let p = r
            .try_alloc(
                64 * 1024,
                PAGE_SIZE,
                hints(NumaPolicy::Bind(NodeId(node as u32))),
            )
            .expect("bind alloc");
        assert_eq!(
            r.node_of_addr(p.base),
            Some(node),
            "Bind({node}) -> node {node}"
        );
        regions.push(p);
    }

    let d = r
        .try_alloc(64 * 1024, PAGE_SIZE, hints(NumaPolicy::OsDefault))
        .expect("default");
    assert!(r.addr_in_default(d.base));
    regions.push(d);
    for p in regions {
        assert!(r.try_cache(p));
    }
    assert!(r.check_invariants());
}

#[test]
fn routes_to_the_bound_node_and_frees_home() {
    let mut r = router(two_node_topo(), 8, false);
    assert_eq!(r.node_count(), 2);
    let p0 = r
        .try_alloc(64 * 1024, PAGE_SIZE, hints(NumaPolicy::Bind(NodeId(0))))
        .expect("a0");
    let p1 = r
        .try_alloc(64 * 1024, PAGE_SIZE, hints(NumaPolicy::Bind(NodeId(1))))
        .expect("a1");
    assert_eq!(
        r.node_of_addr(p0.base),
        Some(0),
        "Bind(0) -> node 0"
    );
    assert_eq!(
        r.node_of_addr(p1.base),
        Some(1),
        "Bind(1) -> node 1"
    );

    assert!(r.try_cache(p0));
    assert!(r.try_cache(p1));
    assert!(r.check_invariants());
    assert_eq!(r.stats().bind_failures, 0);
}

#[test]
fn placement_never_breaks_the_allocation_contract() {
    let policies = [
        NumaPolicy::Local,
        NumaPolicy::Bind(NodeId(0)),
        NumaPolicy::Bind(NodeId(1)),
        NumaPolicy::Bind(NodeId(99)),
        NumaPolicy::Interleave,
        NumaPolicy::OsDefault,
        NumaPolicy::ArenaPolicy,
    ];

    let sizes = [
        64 * 1024usize,
        200 * 1024,
        HUGEPAGE_SIZE,
        HUGEPAGE_SIZE + PAGE_SIZE,
    ];
    for fail_bind in [false, true] {
        let mut r = router(two_node_topo(), 16, fail_bind);
        for &policy in &policies {
            for &size in &sizes {
                let region = r.try_alloc(size, PAGE_SIZE, hints(policy)).unwrap_or_else(|| {
                    panic!("policy {policy:?} size {size} (fail_bind={fail_bind}) was not served")
                });

                assert!(
                    region.len >= size,
                    "{policy:?} size {size}: region len {} < requested",
                    region.len
                );

                assert_eq!(
                    region.base % PAGE_SIZE,
                    0,
                    "{policy:?} size {size}: region misaligned"
                );

                assert!(
                    r.try_cache(region),
                    "{policy:?} size {size}: free-home failed"
                );
            }
        }
        assert!(
            r.check_invariants(),
            "router well-formed after the contract sweep (fail_bind={fail_bind})"
        );
    }
}

#[test]
fn single_node_router_places_everything_on_node_0() {
    let mut r = router(Topology::single_domain(4), 4, false);
    assert_eq!(r.node_count(), 1);

    let p = r
        .try_alloc(64 * 1024, PAGE_SIZE, hints(NumaPolicy::Bind(NodeId(3))))
        .expect("a");
    assert_eq!(r.node_of_addr(p.base), Some(0));
    assert!(r.try_cache(p));

    let d = r
        .try_alloc(64 * 1024, PAGE_SIZE, hints(NumaPolicy::OsDefault))
        .expect("default");
    assert_eq!(r.node_of_addr(d.base), Some(0));
    assert!(
        !r.addr_in_default(d.base),
        "no separate default on a single node"
    );
    assert!(r.try_cache(d));
}

#[test]
fn os_default_uses_the_unbound_first_touch_backend() {
    let mut r = router(two_node_topo(), 8, false);
    assert_eq!(r.node_count(), 2);
    let d = r
        .try_alloc(64 * 1024, PAGE_SIZE, hints(NumaPolicy::OsDefault))
        .expect("default");
    assert!(
        r.addr_in_default(d.base),
        "OsDefault -> the unbound default backend"
    );
    assert_eq!(
        r.node_of_addr(d.base),
        None,
        "not a bound per-node backend"
    );
    let a = r
        .try_alloc(64 * 1024, PAGE_SIZE, hints(NumaPolicy::ArenaPolicy))
        .expect("arena");
    assert!(
        r.addr_in_default(a.base),
        "ArenaPolicy is first-touch too"
    );
    let b1 = r
        .try_alloc(64 * 1024, PAGE_SIZE, hints(NumaPolicy::Bind(NodeId(1))))
        .expect("bind");
    assert_eq!(
        r.node_of_addr(b1.base),
        Some(1),
        "Bind still routes to the node"
    );
    assert!(!r.addr_in_default(b1.base));
    for p in [d, a, b1] {
        assert!(
            r.try_cache(p),
            "each region frees home to its owning backend"
        );
    }
    assert!(r.check_invariants());
}

#[test]
fn spillover_prefers_the_nearest_node() {
    let mut tb = TopologyBuilder::new(3);
    tb.set_cpu(0, 0, 0);
    tb.set_cpu(1, 1, 1);
    tb.set_cpu(2, 2, 2);
    tb.set_distance(0, 1, 12);
    tb.set_distance(0, 2, 30);
    let topo = tb.build();
    let mut r = build(topo, 1 << 21, false, |target| match target {
        Some(n) if n.0 == 0 => 1,
        _ => 4,
    });
    let fill = r
        .try_alloc(HUGEPAGE_SIZE, PAGE_SIZE, hints(NumaPolicy::Bind(NodeId(0))))
        .expect("fill node 0");
    assert_eq!(r.node_of_addr(fill.base), Some(0));
    let spill = r
        .try_alloc(HUGEPAGE_SIZE, PAGE_SIZE, hints(NumaPolicy::Bind(NodeId(0))))
        .expect("spill");
    assert_eq!(
        r.node_of_addr(spill.base),
        Some(1),
        "spilled to the nearer node 1, not the farther node 2"
    );
    assert_eq!(r.stats().spillovers, 1);
    for p in [fill, spill] {
        assert!(r.try_cache(p));
    }
    assert!(r.check_invariants());
}

#[test]
fn bind_failure_is_counted_but_not_fatal() {
    let mut r = router(two_node_topo(), 4, true);
    assert_eq!(r.stats().bind_failures, 1);
    let p = r
        .try_alloc(64 * 1024, PAGE_SIZE, hints(NumaPolicy::Bind(NodeId(1))))
        .expect("a");
    assert_eq!(
        r.node_of_addr(p.base),
        Some(1),
        "still serves node 1"
    );
    assert!(r.try_cache(p));
}

#[test]
fn refresh_changes_local_placement() {
    let mut r = router(two_node_topo(), 4, false);
    let a = r
        .try_alloc(64 * 1024, PAGE_SIZE, hints(NumaPolicy::Local))
        .expect("a");
    assert_eq!(r.node_of_addr(a.base), Some(0));
    assert!(r.try_cache(a));

    let mut b = TopologyBuilder::new(2);
    b.set_cpu(0, 1, 1);
    b.set_cpu(1, 0, 0);
    assert!(
        r.refresh_if_mismatch(0, NodeId(1), || b.build()),
        "a moved cpu refreshes"
    );
    let a2 = r
        .try_alloc(64 * 1024, PAGE_SIZE, hints(NumaPolicy::Local))
        .expect("a2");
    assert_eq!(
        r.node_of_addr(a2.base),
        Some(1),
        "Local follows the refreshed map"
    );
    assert!(r.try_cache(a2));
}

#[test]
fn interleave_round_robins_across_backends() {
    let mut r = router(two_node_topo(), 8, false);
    let mut nodes = Vec::new();
    let mut regions = Vec::new();
    for _ in 0..4 {
        let p = r
            .try_alloc(64 * 1024, PAGE_SIZE, hints(NumaPolicy::Interleave))
            .expect("a");
        nodes.push(r.node_of_addr(p.base).unwrap());
        regions.push(p);
    }
    assert_eq!(nodes, vec![0, 1, 0, 1], "interleave alternates nodes");
    for p in regions {
        assert!(r.try_cache(p));
    }
}

#[test]
fn rebalance_tick_releases_idle_donor_memory() {
    let mut r = router_caps(3, 1);

    let big = r
        .try_alloc(HUGEPAGE_SIZE, PAGE_SIZE, hints(NumaPolicy::Bind(NodeId(0))))
        .expect("whole hugepage on node 0");
    assert_eq!(r.node_of_addr(big.base), Some(0));
    assert!(r.try_cache(big), "freed => empty-backed on node 0");

    let held = r
        .try_alloc(HUGEPAGE_SIZE, PAGE_SIZE, hints(NumaPolicy::Bind(NodeId(1))))
        .expect("node 1's one hugepage");
    assert_eq!(r.node_of_addr(held.base), Some(1));

    let spill = r
        .try_alloc(HUGEPAGE_SIZE, PAGE_SIZE, hints(NumaPolicy::Bind(NodeId(1))))
        .expect("a spillover to node 0");
    assert_eq!(
        r.node_of_addr(spill.base),
        Some(0),
        "spilled to node 0"
    );
    assert!(r.try_cache(spill));
    assert_eq!(r.stats().spillovers, 1, "the miss was a recorded spillover");
    let m = r
        .rebalance_tick(plan)
        .expect("node 0 free + node 1 demand => a move");
    assert_eq!(m.src, NodeId(0), "donor is the idle node");
    assert_eq!(m.dst, NodeId(1), "recipient is the starved node");
    let s = r.stats();
    assert_eq!(s.rebalance_moves, 1);
    assert!(
        s.rebalance_released_bytes > 0,
        "idle donor memory returned to the OS"
    );
    let fillers = vec![held];
    for p in fillers {
        assert!(r.try_cache(p));
    }
    assert!(r.check_invariants());
}
