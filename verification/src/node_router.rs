//! Placement across the nodes of a machine: one backend bound to each node, and on a machine of
//! several an unbound one, whose pages land where they are first touched.
use vstd::prelude::*;
use crate::backend::{
    BackendError, Region, RegionCacheHook, StateBytes, TopoBackingProvider,
};
use crate::bitmap::{HUGEPAGE_SIZE, PAGE_SIZE};
use crate::filler_model;
use crate::filler_model::Metric;
use crate::flags::{Hints, HugepagePolicy, NumaPolicy};
use crate::huge_backend;
use crate::huge_backend::{DrainStep, HugePageBackend};
use crate::huge_laws;
use crate::ids::{ArenaId, CoreId, NodeId};
use crate::overflow;
use crate::pinned::CoreProvider;
use crate::topology::{NodePressure, RebalanceMove, Topology, TopologyView, MAX_NODES};

verus! {

/// The running counters.
#[derive(Clone, Copy, PartialEq, Eq, Debug, Structural)]
pub struct NodeRouterStats {
    /// Nodes placed across.
    pub nodes: u32,
    /// Nodes whose memory could not be bound: locality lost, nothing else.
    pub bind_failures: u64,
    /// Moves carried out.
    pub rebalance_moves: u64,
    /// Bytes that the moves returned.
    pub rebalance_released_bytes: u64,
    /// Allocations served elsewhere than they were first asked for.
    pub spillovers: u64,
}

/// A router, mathematically.
pub struct RouterView<P: TopoBackingProvider> {
    /// The nodes.
    pub nodes: int,
    /// The backends of the nodes, then the unbound one when there are several nodes.
    pub backends: Seq<HugePageBackend<P>>,
    /// The snapshot of the machine.
    pub topo: TopologyView,
    /// Interleaved requests so far.
    pub interleave: u32,
    /// Requests that each node could not serve since they were last sampled.
    pub failures: Seq<u64>,
    /// The counters.
    pub stats: NodeRouterStats,
}

/// Node `i` is tried before node `j` for what node `from` could not serve: it is nearer, or as
/// near with a smaller number.
pub open spec fn spills_before(topo: TopologyView, from: int, i: int, j: int) -> bool {
    let a = topo.distance(from as u32, i as u32);
    let b = topo.distance(from as u32, j as u32);
    a < b || (a == b && i < j)
}

/// Node `i` can be spilled to from node `from`: it is any other node, however far.
pub open spec fn spills_to(nodes: int, from: int, i: int) -> bool {
    0 <= i < nodes && i != from
}

/// All nodes but node `from`, nearest first.
pub open spec fn nearest_first(
    topo: TopologyView,
    nodes: int,
    from: int,
    order: Seq<usize>,
) -> bool {
    &&& forall|a: int, b: int|
        #![trigger order[a], order[b]]
        0 <= a < b < order.len() ==> spills_before(topo, from, order[a] as int, order[b] as int)
    &&& forall|i: usize| #[trigger] order.contains(i) <==> spills_to(nodes, from, i as int)
}

/// The order in which an unbound request asks the backends of `nodes` nodes.
pub open spec fn default_order(nodes: int, order: Seq<usize>) -> bool {
    if nodes == 1 {
        order == seq![0usize]
    } else {
        &&& order.len() == nodes + 1
        &&& order[0] == nodes
        &&& forall|i: int| #![trigger order[i]] 0 < i <= nodes ==> order[i] == i - 1
    }
}

/// The order in which a request for node `from` asks the backends: that node, the others
/// nearest first, and the unbound one.
pub open spec fn bound_order(
    topo: TopologyView,
    nodes: int,
    from: int,
    order: Seq<usize>,
) -> bool {
    exists|others: Seq<usize>|
        {
            &&& #[trigger] nearest_first(topo, nodes, from, others)
            &&& order == seq![from as usize] + others + (if nodes > 1 {
                seq![nodes as usize]
            } else {
                Seq::empty()
            })
        }
}

/// No backend is asked twice, and each is there.
pub open spec fn order_ok(backends: int, order: Seq<usize>) -> bool {
    &&& order.no_duplicates()
    &&& forall|a: int| #![trigger order[a]] 0 <= a < order.len() ==> order[a] < backends
}

/// Asking the backends in order: those before the `k`-th declined, the `k`-th served when there
/// is one, and the rest are as they were.
pub open spec fn asked<P: TopoBackingProvider>(
    before: Seq<HugePageBackend<P>>,
    after: Seq<HugePageBackend<P>>,
    order: Seq<usize>,
    k: int,
    bytes: usize,
    align: usize,
    hints: Hints,
    res: Option<Region>,
) -> bool {
    &&& after.len() == before.len()
    &&& 0 <= k <= order.len()
    &&& res is Some <==> k < order.len()
    &&& forall|a: int|
        #![trigger order[a]]
        0 <= a < k ==> before[order[a] as int].allocates(
            after[order[a] as int],
            bytes,
            align,
            huge_backend::place_hints(hints),
            None,
        )
    &&& res is Some ==> before[order[k] as int].allocates(
        after[order[k] as int],
        bytes,
        align,
        huge_backend::place_hints(hints),
        res,
    )
    &&& forall|i: int|
        #![trigger after[i]]
        0 <= i < before.len() && (forall|a: int|
            #![trigger order[a]]
            0 <= a <= k && a < order.len() ==> order[a] != i) ==> after[i] == before[i]
}

/// The smaller of two numbers.
pub open spec fn lesser(a: int, b: int) -> int {
    if a < b {
        a
    } else {
        b
    }
}

/// The first answer that is an error, if any is.
pub open spec fn first_error(answers: Seq<Result<(), BackendError>>) -> Result<(), BackendError>
    decreases answers.len(),
{
    if answers.len() == 0 {
        Ok(())
    } else {
        let before = first_error(answers.drop_last());
        if before is Ok {
            answers.last()
        } else {
            before
        }
    }
}

/// The sum of some numbers.
pub open spec fn sum(s: Seq<int>) -> int
    decreases s.len(),
{
    if s.len() == 0 {
        0
    } else {
        sum(s.drop_last()) + s.last()
    }
}

/// How many of some nodes were not bound.
pub open spec fn unbound(bound: Seq<bool>) -> int
    decreases bound.len(),
{
    if bound.len() == 0 {
        0
    } else {
        unbound(bound.drop_last()) + (if bound.last() {
            0int
        } else {
            1int
        })
    }
}

impl<P: TopoBackingProvider> RouterView<P> {
    /// The first backend that owns an address.
    pub open spec fn owned_by(self, addr: int, i: int) -> bool {
        &&& 0 <= i < self.backends.len()
        &&& self.backends[i]@.region.has(addr)
        &&& forall|j: int|
            #![trigger self.backends[j]]
            0 <= j < i ==> !self.backends[j]@.region.has(addr)
    }

    /// No backend owns an address.
    pub open spec fn foreign(self, addr: int) -> bool {
        forall|j: int|
            #![trigger self.backends[j]]
            0 <= j < self.backends.len() ==> !self.backends[j]@.region.has(addr)
    }

    /// The backends of a router whose backend `i` became `b`.
    pub open spec fn with_backend(self, i: int, b: HugePageBackend<P>) -> RouterView<P> {
        RouterView { backends: self.backends.update(i, b), ..self }
    }

    /// The node that an explicit policy names, when the running core is `core`; `None` for a
    /// policy that leaves placement to the first touch.
    pub open spec fn target(self, policy: NumaPolicy, core: CoreId) -> Option<int> {
        match policy {
            NumaPolicy::OsDefault => None,
            NumaPolicy::ArenaPolicy => None,
            NumaPolicy::Interleave => Some(self.interleave as int % self.nodes),
            NumaPolicy::Local => Some(
                lesser(self.topo.node_of(core.0 as int) as int, self.nodes - 1),
            ),
            NumaPolicy::Bind(node) => Some(
                if node.0 < self.nodes {
                    node.0 as int
                } else {
                    0
                },
            ),
        }
    }

    /// The router once the node for a policy was chosen.
    pub open spec fn after_choice(self, policy: NumaPolicy) -> RouterView<P> {
        if policy is Interleave {
            RouterView { interleave: self.interleave.wrapping_add(1), ..self }
        } else {
            self
        }
    }

    /// The router after the backends were asked in order, first for node `from` if any.
    pub open spec fn routed(
        self,
        after: RouterView<P>,
        from: Option<int>,
        order: Seq<usize>,
        k: int,
        bytes: usize,
        align: usize,
        hints: Hints,
        res: Option<Region>,
    ) -> bool {
        &&& match from {
            Some(node) => bound_order(self.topo, self.nodes, node, order),
            None => default_order(self.nodes, order),
        }
        &&& asked(self.backends, after.backends, order, k, bytes, align, hints, res)
        &&& after.nodes == self.nodes
        &&& after.topo == self.topo
        &&& after.interleave == self.interleave
        &&& after.failures == (match from {
            Some(node) if k > 0 => self.failures.update(
                node,
                self.failures[node].wrapping_add(1),
            ),
            _ => self.failures,
        })
        &&& after.stats == (NodeRouterStats {
            spillovers: if k > 0 && res is Some {
                self.stats.spillovers.wrapping_add(1)
            } else {
                self.stats.spillovers
            },
            ..self.stats
        })
    }

    /// What each node has idle and what it could not serve.
    pub open spec fn pressures(self, s: Seq<NodePressure>) -> bool {
        &&& s.len() == self.nodes
        &&& forall|i: int|
            #![trigger s[i]]
            0 <= i < s.len() ==> {
                &&& s[i].free_bytes == self.backends[i]@.filler.total(Metric::EmptyBacked)
                &&& s[i].demand_bytes == lesser(
                    self.failures[i] * HUGEPAGE_SIZE,
                    u64::MAX as int,
                )
            }
    }

    /// Nothing was missed since the last sample.
    pub open spec fn sampled(self) -> RouterView<P> {
        RouterView { failures: Seq::new(self.failures.len(), |i: int| 0u64), ..self }
    }

    /// A move was carried out: its source keeps what lies below the move, and returned
    /// `moved.bytes`. A source that is no node returns nothing.
    pub open spec fn moves(
        self,
        after: RouterView<P>,
        plan: RebalanceMove,
        donor_free: u64,
        moved: RebalanceMove,
    ) -> bool {
        let src = plan.src.0 as int;
        let keep = if donor_free > plan.bytes {
            donor_free - plan.bytes
        } else {
            0
        };
        &&& moved == (RebalanceMove { bytes: moved.bytes, ..plan })
        &&& src < self.nodes ==> self.backends[src].shrinks(
            after.backends[src],
            keep / (HUGEPAGE_SIZE as int),
            moved.bytes as int,
        )
        &&& src >= self.nodes ==> moved.bytes == 0
        &&& after == (RouterView {
            backends: if src < self.nodes {
                self.backends.update(src, after.backends[src])
            } else {
                self.backends
            },
            stats: NodeRouterStats {
                rebalance_moves: self.stats.rebalance_moves.wrapping_add(1),
                rebalance_released_bytes: self.stats.rebalance_released_bytes.wrapping_add(
                    moved.bytes,
                ),
                ..self.stats
            },
            ..self
        })
    }

    /// Every backend returned its empty hugepages beyond `reserve`, `bytes` each.
    pub open spec fn idles(self, after: RouterView<P>, reserve: int, bytes: Seq<int>) -> bool {
        &&& after == (RouterView { backends: after.backends, ..self })
        &&& after.backends.len() == self.backends.len()
        &&& bytes.len() == self.backends.len()
        &&& forall|i: int|
            #![trigger bytes[i]]
            0 <= i < bytes.len() ==> self.backends[i].shrinks(
                after.backends[i],
                reserve,
                bytes[i],
            )
    }

    /// Every backend gave its reservation back, with those answers.
    pub open spec fn tears_down(
        self,
        after: RouterView<P>,
        answers: Seq<Result<(), BackendError>>,
    ) -> bool {
        &&& after == (RouterView { backends: after.backends, ..self })
        &&& after.backends.len() == self.backends.len()
        &&& answers.len() == self.backends.len()
        &&& forall|i: int|
            #![trigger answers[i]]
            0 <= i < answers.len() ==> self.backends[i].tears_down(
                after.backends[i],
                answers[i],
            )
    }
}

/// The order for a node names each backend at most once.
proof fn lemma_bound_order(topo: TopologyView, nodes: int, from: int, order: Seq<usize>)
    requires
        0 <= from < nodes,
        nodes < usize::MAX,
        bound_order(topo, nodes, from, order),
    ensures
        order_ok(
            if nodes > 1 {
                nodes + 1
            } else {
                1
            },
            order,
        ),
        order.len() >= 1,
        order[0] == from,
{
    let others = choose|others: Seq<usize>|
        {
            &&& #[trigger] nearest_first(topo, nodes, from, others)
            &&& order == seq![from as usize] + others + (if nodes > 1 {
                seq![nodes as usize]
            } else {
                Seq::empty()
            })
        };
    assert forall|a: int|
        0 <= a < others.len() implies others[a] < nodes && #[trigger] others[a] != from by {
        assert(others.contains(others[a]));
    }
    assert forall|a: int, b: int|
        0 <= a < b < order.len() implies order[a] != order[b] by {
        if a >= 1 && b < 1 + others.len() {
            assert(order[a] == others[a - 1]);
            assert(order[b] == others[b - 1]);
            assert(spills_before(topo, from, others[a - 1] as int, others[b - 1] as int));
        } else if b < 1 + others.len() {
            assert(order[b] == others[b - 1]);
        } else if a >= 1 {
            assert(order[a] == others[a - 1]);
        }
    }
    assert forall|a: int| #![trigger order[a]] 0 <= a < order.len() implies order[a] < (if nodes
        > 1 {
        nodes + 1
    } else {
        1
    }) by {
        if 1 <= a < 1 + others.len() {
            assert(order[a] == others[a - 1]);
        }
    }
}

/// Routes requests to the backends of the nodes.
pub struct NodeRouter<P: TopoBackingProvider, C: CoreProvider> {
    backends: Vec<HugePageBackend<P>>,
    nodes: usize,
    topo: Topology,
    core: C,
    interleave: u32,
    failures: Vec<u64>,
    bind_failures: u64,
    rebalance_moves: u64,
    rebalance_released_bytes: u64,
    spillovers: u64,
}

impl<P: TopoBackingProvider, C: CoreProvider> View for NodeRouter<P, C> {
    type V = RouterView<P>;

    closed spec fn view(&self) -> RouterView<P> {
        RouterView {
            nodes: self.nodes as int,
            backends: self.backends@,
            topo: self.topo@,
            interleave: self.interleave,
            failures: self.failures@,
            stats: NodeRouterStats {
                nodes: self.nodes as u32,
                bind_failures: self.bind_failures,
                rebalance_moves: self.rebalance_moves,
                rebalance_released_bytes: self.rebalance_released_bytes,
                spillovers: self.spillovers,
            },
        }
    }
}

impl<P: TopoBackingProvider, C: CoreProvider> NodeRouter<P, C> {
    /// What says which core is running.
    pub closed spec fn cores(self) -> C {
        self.core
    }

    /// What the router keeps: a good backend for each node, and the unbound one when there are
    /// several nodes.
    pub open spec fn wf(self) -> bool {
        let v = self@;
        &&& 1 <= v.nodes <= MAX_NODES
        &&& v.backends.len() == (if v.nodes > 1 {
            v.nodes + 1
        } else {
            1
        })
        &&& v.failures.len() == v.nodes
        &&& v.stats.nodes == v.nodes
        &&& forall|i: int| #![trigger v.backends[i]] 0 <= i < v.backends.len() ==> v.backends[i].wf()
    }

    /// Build a router over a snapshot. `make` makes the backend of each node in turn, which is
    /// then bound to the node, and for `None` the unbound one, which it is asked for only when
    /// there are several nodes. No router comes of no nodes, of more than [`MAX_NODES`], or when
    /// a backend cannot be made, which ends the building; all backends before it were made. A
    /// node that cannot be bound is counted, no more. A call of `make` leaves no trace in it, so
    /// that the contract names the answers it gave and not how often it was called.
    pub fn build<F: Fn(Option<NodeId>) -> Option<HugePageBackend<P>>>(
        topo: Topology,
        core: C,
        make: F,
    ) -> (res: Option<NodeRouter<P, C>>)
        requires
            forall|t: Option<NodeId>| #[trigger] call_requires(make, (t,)),
            forall|t: Option<NodeId>, b: HugePageBackend<P>| #[trigger]
                call_ensures(make, (t,), Some(b)) ==> b.wf(),
        ensures
            match res {
                Some(r) => {
                    &&& r.wf()
                    &&& r.cores() == core
                    &&& r@.nodes == topo@.nodes
                    &&& r@.topo == topo@
                    &&& r@.interleave == 0
                    &&& r@.failures == Seq::new(topo@.nodes as nat, |i: int| 0u64)
                    &&& topo@.nodes > 1 ==> call_ensures(
                        make,
                        (None,),
                        Some(r@.backends[topo@.nodes]),
                    )
                    &&& exists|made: Seq<HugePageBackend<P>>, bound: Seq<bool>|
                        {
                            &&& all_made(make, made)
                            &&& #[trigger] all_bound(
                                made,
                                r@.backends,
                                topo@,
                                topo@.nodes,
                                bound,
                            )
                            &&& r@.stats.bind_failures == unbound(bound)
                        }
                    &&& r@.stats.rebalance_moves == 0
                    &&& r@.stats.rebalance_released_bytes == 0
                    &&& r@.stats.spillovers == 0
                },
                None => {
                    ||| topo@.nodes == 0
                    ||| topo@.nodes > MAX_NODES
                    ||| exists|made: Seq<HugePageBackend<P>>|
                        {
                            &&& #[trigger] all_made(make, made)
                            &&& made.len() < topo@.nodes
                            &&& call_ensures(make, (Some(NodeId(made.len() as u32)),), None)
                        }
                    ||| exists|made: Seq<HugePageBackend<P>>|
                        {
                            &&& #[trigger] all_made(make, made)
                            &&& made.len() == topo@.nodes > 1
                            &&& call_ensures(make, (None,), None)
                        }
                },
            },
    {
        let n: usize = topo.node_count() as usize;
        if n == 0 || n > MAX_NODES {
            return None;
        }
        let mut backends: Vec<HugePageBackend<P>> = Vec::new();
        let mut failures: Vec<u64> = Vec::new();
        let mut bind_failures: u64 = 0;
        let ghost mut made: Seq<HugePageBackend<P>> = Seq::empty();
        let ghost mut bound: Seq<bool> = Seq::empty();
        let mut i: usize = 0;
        while i < n
            invariant
                i <= n <= MAX_NODES,
                n == topo@.nodes,
                backends@.len() == i,
                failures@ == Seq::new(i as nat, |j: int| 0u64),
                forall|t: Option<NodeId>| #[trigger] call_requires(make, (t,)),
                forall|t: Option<NodeId>, b: HugePageBackend<P>| #[trigger]
                    call_ensures(make, (t,), Some(b)) ==> b.wf(),
                forall|j: int| #![trigger backends@[j]] 0 <= j < i ==> backends@[j].wf(),
                all_made(make, made),
                all_bound(made, backends@, topo@, i as int, bound),
                0 <= unbound(bound) <= i,
                bind_failures == unbound(bound),
            decreases n - i,
        {
            let node: NodeId = NodeId(i as u32);
            let os_node: u32 = topo.os_node_of(node);
            let mut backend: HugePageBackend<P> = match make(Some(node)) {
                Some(b) => b,
                None => return None,
            };
            let ghost fresh = backend;
            let ok: bool = backend.bind_region(os_node);
            if !ok {
                bind_failures = bind_failures + 1;
            }
            let ghost before = backends@;
            let ghost earlier = bound;
            let ghost others = made;
            backends.push(backend);
            failures.push(0);
            i = i + 1;
            proof {
                bound = bound.push(ok);
                made = made.push(fresh);
                assert(bound.drop_last() =~= earlier);
                assert(failures@ =~= Seq::new(i as nat, |j: int| 0u64));
                assert forall|j: int|
                    #![trigger made[j]]
                    #![trigger bound[j]]
                    0 <= j < i implies made[j].binds(
                    backends@[j],
                    topo@.os_name(j as u32),
                    bound[j],
                ) by {
                    if j < others.len() {
                        assert(others[j].binds(before[j], topo@.os_name(j as u32), earlier[j]));
                        assert(backends@[j] == before[j] && made[j] == others[j]);
                    }
                }
                assert forall|j: int| #![trigger made[j]] 0 <= j < i implies call_ensures(
                    make,
                    (Some(NodeId(j as u32)),),
                    Some(made[j]),
                ) by {
                    if j < others.len() {
                        assert(made[j] == others[j]);
                    }
                }
            }
        }
        let ghost nodes_only = backends@;
        if n > 1 {
            match make(None) {
                Some(b) => backends.push(b),
                None => return None,
            }
        }
        proof {
            assert(all_bound(made, backends@, topo@, n as int, bound)) by {
                assert forall|j: int|
                    #![trigger made[j]]
                    #![trigger bound[j]]
                    0 <= j < n implies made[j].binds(
                    backends@[j],
                    topo@.os_name(j as u32),
                    bound[j],
                ) by {
                    assert(made[j].binds(nodes_only[j], topo@.os_name(j as u32), bound[j]));
                    assert(backends@[j] == nodes_only[j]);
                }
            }
        }
        Some(
            NodeRouter {
                backends,
                nodes: n,
                topo,
                core,
                interleave: 0,
                failures,
                bind_failures,
                rebalance_moves: 0,
                rebalance_released_bytes: 0,
                spillovers: 0,
            },
        )
    }

    /// The nodes.
    pub fn node_count(&self) -> (res: usize)
        ensures
            res == self@.nodes,
    {
        self.nodes
    }

    /// The first backend that owns `addr`, or `None` for a foreign address.
    pub fn owner(&self, addr: usize) -> (res: Option<usize>)
        ensures
            match res {
                Some(i) => self@.owned_by(addr as int, i as int),
                None => self@.foreign(addr as int),
            },
    {
        let mut i: usize = 0;
        while i < self.backends.len()
            invariant
                i <= self@.backends.len(),
                self@.backends == self.backends@,
                forall|j: int|
                    #![trigger self@.backends[j]]
                    0 <= j < i ==> !self@.backends[j]@.region.has(addr as int),
            decreases self.backends.len() - i,
        {
            if self.backends[i].owns_addr(addr) {
                return Some(i);
            }
            i = i + 1;
        }
        None
    }

    /// The node whose backend owns `addr`, or `None` for a foreign address and for one of the
    /// unbound backend.
    pub fn node_of_addr(&self, addr: usize) -> (res: Option<usize>)
        requires
            self.wf(),
        ensures
            match res {
                Some(i) => i < self@.nodes && self@.owned_by(addr as int, i as int),
                None => forall|i: int| #[trigger]
                    self@.owned_by(addr as int, i) ==> i == self@.nodes,
            },
    {
        match self.owner(addr) {
            Some(i) => if i < self.nodes {
                Some(i)
            } else {
                None
            },
            None => None,
        }
    }

    /// Whether `addr` lies in the unbound backend.
    pub fn addr_in_default(&self, addr: usize) -> (res: bool)
        requires
            self.wf(),
        ensures
            res == (self@.nodes > 1 && self@.backends[self@.nodes]@.region.has(addr as int)),
    {
        self.nodes > 1 && self.backends[self.nodes].owns_addr(addr)
    }

    /// The node of a core, or the last node where the snapshot names one beyond it.
    pub fn local_node(&self, core: CoreId) -> (res: usize)
        requires
            self.wf(),
        ensures
            res == lesser(self@.topo.node_of(core.0 as int) as int, self@.nodes - 1),
    {
        let node: usize = self.topo.node_of_cpu(core.0).0 as usize;
        if node < self.nodes - 1 {
            node
        } else {
            self.nodes - 1
        }
    }

    /// The node for a policy: the running core's, the one that is named (node 0 when it does
    /// not exist), or the next in turn; `None` for a policy that leaves placement to the first
    /// touch.
    pub fn choose_node(&mut self, policy: NumaPolicy) -> (res: Option<usize>)
        requires
            old(self).wf(),
        ensures
            final(self).wf(),
            final(self).cores() == old(self).cores(),
            final(self)@ == old(self)@.after_choice(policy),
            exists|core: CoreId|
                (policy is Local ==> old(self).cores().may_run_on(core)) && #[trigger] old(
                    self,
                )@.target(policy, core) == (match res {
                    Some(node) => Some(node as int),
                    None => None,
                }),
            res matches Some(node) ==> node < old(self)@.nodes,
    {
        let ghost before = self@;
        proof {
            assert(!(policy is Local) ==> before.target(policy, CoreId(0)) == before.target(
                policy,
                CoreId(1),
            ));
        }
        match policy {
            NumaPolicy::OsDefault => None,
            NumaPolicy::ArenaPolicy => None,
            NumaPolicy::Interleave => {
                let turn: usize = self.interleave as usize;
                self.interleave = self.interleave.wrapping_add(1);
                Some(turn % self.nodes)
            },
            NumaPolicy::Local => {
                let core: CoreId = self.core.current_core();
                proof {
                    assert(before.target(policy, core) is Some);
                }
                Some(self.local_node(core))
            },
            NumaPolicy::Bind(node) => Some(
                if (node.0 as usize) < self.nodes {
                    node.0 as usize
                } else {
                    0
                },
            ),
        }
    }

    /// Take a new snapshot of the machine. The backends stay as they are: only the node of a
    /// core and the distances change.
    pub fn refresh(&mut self, topo: Topology)
        requires
            old(self).wf(),
        ensures
            final(self).wf(),
            final(self).cores() == old(self).cores(),
            final(self)@ == (RouterView { topo: topo@, ..old(self)@ }),
    {
        self.topo = topo;
    }

    /// Take a snapshot that `rebuild` makes when the present one has a processor elsewhere than
    /// where it was seen; whether it did.
    pub fn refresh_if_mismatch<F: FnOnce() -> Topology>(
        &mut self,
        cpu: u32,
        observed: NodeId,
        rebuild: F,
    ) -> (res: bool)
        requires
            old(self).wf(),
            call_requires(rebuild, ()),
        ensures
            final(self).wf(),
            final(self).cores() == old(self).cores(),
            res == (old(self)@.topo.node_of(cpu as int) != observed.0),
            !res ==> final(self)@ == old(self)@,
            res ==> exists|topo: Topology| #[trigger]
                call_ensures(rebuild, (), topo) && final(self)@ == (RouterView {
                    topo: topo@,
                    ..old(self)@
                }),
    {
        if self.topo.detect_mismatch(cpu, observed) {
            let topo: Topology = rebuild();
            self.refresh(topo);
            true
        } else {
            false
        }
    }
}

impl<P: TopoBackingProvider, C: CoreProvider> NodeRouter<P, C> {
    /// All nodes but node `node`, nearest first.
    pub fn spill_order(&self, node: usize) -> (res: Vec<usize>)
        requires
            self.wf(),
            node < self@.nodes,
        ensures
            nearest_first(self@.topo, self@.nodes, node as int, res@),
    {
        let n: usize = self.nodes;
        let ghost topo = self@.topo;
        let mut dist: Vec<u8> = Vec::new();
        let mut tried: Vec<bool> = Vec::new();
        let mut i: usize = 0;
        while i < n
            invariant
                i <= n <= MAX_NODES,
                node < n,
                topo == self.topo@,
                dist@.len() == i,
                tried@.len() == i,
                forall|j: int|
                    #![trigger dist@[j]]
                    0 <= j < i ==> dist@[j] == topo.distance(node as u32, j as u32),
                forall|j: int| #![trigger tried@[j]] 0 <= j < i ==> tried@[j] == (j == node),
            decreases n - i,
        {
            dist.push(self.topo.distance(NodeId(node as u32), NodeId(i as u32)));
            tried.push(i == node);
            i = i + 1;
        }
        let mut order: Vec<usize> = Vec::new();
        loop
            invariant
                node < n <= MAX_NODES,
                dist@.len() == n,
                tried@.len() == n,
                order@.len() <= n,
                forall|j: int|
                    #![trigger dist@[j]]
                    0 <= j < n ==> dist@[j] == topo.distance(node as u32, j as u32),
                forall|a: int, b: int|
                    #![trigger order@[a], order@[b]]
                    0 <= a < b < order@.len() ==> spills_before(
                        topo,
                        node as int,
                        order@[a] as int,
                        order@[b] as int,
                    ),
                forall|a: int|
                    #![trigger order@[a]]
                    0 <= a < order@.len() ==> spills_to(n as int, node as int, order@[a] as int),
                forall|j: int|
                    #![trigger tried@[j]]
                    0 <= j < n ==> tried@[j] == (j == node || order@.contains(j as usize)),
                forall|j: int, a: int|
                    #![trigger tried@[j], order@[a]]
                    0 <= j < n && !tried@[j] && 0 <= a < order@.len() ==> spills_before(
                        topo,
                        node as int,
                        order@[a] as int,
                        j,
                    ),
            ensures
                nearest_first(topo, n as int, node as int, order@),
            decreases n - order@.len(),
        {
            let mut best: usize = n;
            let mut k: usize = 0;
            while k < n
                invariant
                    k <= n <= MAX_NODES,
                    dist@.len() == n,
                    tried@.len() == n,
                    best == n ==> forall|j: int| #![trigger tried@[j]] 0 <= j < k ==> tried@[j],
                    best < n ==> best < k && !tried@[best as int] && forall|j: int|
                        #![trigger tried@[j]]
                        0 <= j < k && !tried@[j] ==> dist@[best as int] < dist@[j] || (
                        dist@[best as int] == dist@[j] && best <= j),
                    best <= n,
                decreases n - k,
            {
                if !tried[k] && (best == n || dist[k] < dist[best]) {
                    best = k;
                }
                k = k + 1;
            }
            if best == n {
                proof {
                    assert forall|i: usize| #[trigger] order@.contains(i) <==> spills_to(
                        n as int,
                        node as int,
                        i as int,
                    ) by {
                        if spills_to(n as int, node as int, i as int) {
                            assert(tried@[i as int]);
                        }
                        if order@.contains(i) {
                            let a = order@.index_of(i);
                            assert(order@[a] == i);
                        }
                    }
                }
                break;
            }
            let ghost before = order@;
            let ghost left = tried@;
            proof {
                assert(!left[best as int]);
                assert(!before.contains(best));
            }
            tried.set(best, true);
            order.push(best);
            proof {
                assert(order@.no_duplicates()) by {
                    assert forall|a: int, b: int|
                        0 <= a < b < order@.len() implies order@[a] != order@[b] by {
                        if b < before.len() {
                            assert(order@[a] == before[a] && order@[b] == before[b]);
                        } else {
                            assert(before.contains(before[a]));
                        }
                    }
                }
                assert forall|a: int| #![trigger order@[a]] 0 <= a < order@.len() implies spills_to(
                    n as int,
                    node as int,
                    order@[a] as int,
                ) by {
                    if a < before.len() {
                        assert(order@[a] == before[a]);
                    }
                }
                assert forall|j: int| #![trigger tried@[j]] 0 <= j < n implies tried@[j] == (j
                    == node || order@.contains(j as usize)) by {
                    if j == best {
                        assert(order@[order@.len() - 1] == best);
                    } else {
                        assert(tried@[j] == left[j]);
                        if before.contains(j as usize) {
                            let a = before.index_of(j as usize);
                            assert(order@[a] == j as usize);
                        }
                        if order@.contains(j as usize) {
                            let a = order@.index_of(j as usize);
                            assert(a < before.len());
                            assert(before[a] == j as usize);
                        }
                    }
                }
                assert forall|j: int, a: int|
                    #![trigger tried@[j], order@[a]]
                    0 <= j < n && !tried@[j] && 0 <= a < order@.len() implies spills_before(
                    topo,
                    node as int,
                    order@[a] as int,
                    j,
                ) by {
                    assert(tried@[j] == left[j]);
                    assert(dist@[j] == topo.distance(node as u32, j as u32));
                    assert(dist@[best as int] == topo.distance(node as u32, best as u32));
                    if a < before.len() {
                        assert(order@[a] == before[a]);
                    }
                }
                assert forall|a: int, b: int|
                    #![trigger order@[a], order@[b]]
                    0 <= a < b < order@.len() implies spills_before(
                    topo,
                    node as int,
                    order@[a] as int,
                    order@[b] as int,
                ) by {
                    if b < before.len() {
                        assert(order@[a] == before[a] && order@[b] == before[b]);
                    } else {
                        assert(order@[a] == before[a]);
                        assert(!left[best as int]);
                    }
                }
                overflow::lemma_distinct_below(order@, n as int);
            }
        }
        order
    }

    /// Ask the backends in order until one serves; where in the order that was.
    fn ask(&mut self, order: &Vec<usize>, bytes: usize, align: usize, hints: Hints) -> (res: (
        usize,
        Option<Region>,
    ))
        requires
            old(self).wf(),
            order_ok(old(self)@.backends.len() as int, order@),
            hints.hugepage != HugepagePolicy::Avoid,
        ensures
            final(self).wf(),
            final(self).cores() == old(self).cores(),
            final(self)@ == (RouterView { backends: final(self)@.backends, ..old(self)@ }),
            asked(
                old(self)@.backends,
                final(self)@.backends,
                order@,
                res.0 as int,
                bytes,
                align,
                hints,
                res.1,
            ),
            res.1 matches Some(region) ==> region.base as int % (align as int) == 0 && region.len
                == overflow::round_up(bytes as int, PAGE_SIZE as int),
    {
        let ghost before = *self;
        let ghost was = self@.backends;
        let mut k: usize = 0;
        while k < order.len()
            invariant
                before == *old(self),
                was == before@.backends,
                self.wf(),
                self.cores() == before.cores(),
                self@ == (RouterView { backends: self@.backends, ..before@ }),
                hints.hugepage != HugepagePolicy::Avoid,
                k <= order@.len(),
                order_ok(was.len() as int, order@),
                self@.backends.len() == was.len(),
                forall|a: int|
                    #![trigger order@[a]]
                    0 <= a < k ==> was[order@[a] as int].allocates(
                        self@.backends[order@[a] as int],
                        bytes,
                        align,
                        huge_backend::place_hints(hints),
                        None,
                    ),
                forall|i: int|
                    #![trigger self@.backends[i]]
                    0 <= i < was.len() && (forall|a: int|
                        #![trigger order@[a]]
                        0 <= a < k ==> order@[a] != i) ==> self@.backends[i] == was[i],
            decreases order@.len() - k,
        {
            let i: usize = order[k];
            let ghost prev = self@.backends;
            proof {
                assert(prev[i as int] == was[i as int]);
                assert(prev[i as int].wf());
            }
            let res: Option<Region> = self.backends[i].try_alloc(bytes, align, hints);
            proof {
                let now = self@.backends;
                assert(now =~= prev.update(i as int, now[i as int]));
                assert forall|j: int| #![trigger now[j]] 0 <= j < now.len() implies now[j].wf() by {
                    if j != i {
                        assert(now[j] == prev[j]);
                    }
                }
                assert forall|a: int| #![trigger order@[a]] 0 <= a < k implies was[order@[a] as int].allocates(
                    now[order@[a] as int],
                    bytes,
                    align,
                    huge_backend::place_hints(hints),
                    None,
                ) by {
                    assert(order@[a] != order@[k as int]);
                    assert(now[order@[a] as int] == prev[order@[a] as int]);
                }
                assert forall|j: int|
                    #![trigger now[j]]
                    0 <= j < was.len() && (forall|a: int|
                        #![trigger order@[a]]
                        0 <= a <= k && a < order@.len() ==> order@[a] != j) implies now[j]
                    == was[j] by {
                    assert(order@[k as int] != j);
                    assert(now[j] == prev[j]);
                }
            }
            if res.is_some() {
                return (k, res);
            }
            k = k + 1;
        }
        (k, None)
    }

    /// Serve a request for node `node`: from its backend, else from the nearest other one that
    /// can, else from the unbound one. A node that could not serve is counted.
    pub fn alloc_bound(&mut self, node: usize, bytes: usize, align: usize, hints: Hints) -> (res:
        Option<Region>)
        requires
            old(self).wf(),
            node < old(self)@.nodes,
            hints.hugepage != HugepagePolicy::Avoid,
        ensures
            final(self).wf(),
            final(self).cores() == old(self).cores(),
            exists|order: Seq<usize>, k: int| #[trigger]
                old(self)@.routed(
                    final(self)@,
                    Some(node as int),
                    order,
                    k,
                    bytes,
                    align,
                    hints,
                    res,
                ),
            res matches Some(region) ==> region.base as int % (align as int) == 0 && region.len
                == overflow::round_up(bytes as int, PAGE_SIZE as int),
    {
        let ghost before = self@;
        let others: Vec<usize> = self.spill_order(node);
        let mut order: Vec<usize> = Vec::new();
        order.push(node);
        let mut j: usize = 0;
        while j < others.len()
            invariant
                j <= others@.len(),
                order@ == seq![node] + others@.take(j as int),
            decreases others@.len() - j,
        {
            order.push(others[j]);
            j = j + 1;
            proof {
                assert(order@ =~= seq![node] + others@.take(j as int));
            }
        }
        if self.nodes > 1 {
            order.push(self.nodes);
        }
        proof {
            assert(others@.take(others@.len() as int) =~= others@);
            assert(order@ =~= seq![node] + others@ + (if before.nodes > 1 {
                seq![before.nodes as usize]
            } else {
                Seq::empty()
            }));
            assert(nearest_first(before.topo, before.nodes, node as int, others@));
            assert(bound_order(before.topo, before.nodes, node as int, order@));
            lemma_bound_order(before.topo, before.nodes, node as int, order@);
        }
        let (k, res): (usize, Option<Region>) = self.ask(&order, bytes, align, hints);
        if k > 0 {
            let missed: u64 = self.failures[node].wrapping_add(1);
            self.failures.set(node, missed);
            if res.is_some() {
                self.spillovers = self.spillovers.wrapping_add(1);
            }
        }
        proof {
            assert(self@.backends == self.backends@);
            assert(before.routed(
                self@,
                Some(node as int),
                order@,
                k as int,
                bytes,
                align,
                hints,
                res,
            ));
        }
        res
    }

    /// Serve a request that leaves placement to the first touch: from the unbound backend, else
    /// from the first node's that can; with one node, from its backend.
    pub fn alloc_default(&mut self, bytes: usize, align: usize, hints: Hints) -> (res: Option<
        Region,
    >)
        requires
            old(self).wf(),
            hints.hugepage != HugepagePolicy::Avoid,
        ensures
            final(self).wf(),
            final(self).cores() == old(self).cores(),
            exists|order: Seq<usize>, k: int| #[trigger]
                old(self)@.routed(final(self)@, None, order, k, bytes, align, hints, res),
            res matches Some(region) ==> region.base as int % (align as int) == 0 && region.len
                == overflow::round_up(bytes as int, PAGE_SIZE as int),
    {
        let ghost before = self@;
        let mut order: Vec<usize> = Vec::new();
        if self.nodes > 1 {
            order.push(self.nodes);
            let mut i: usize = 0;
            while i < self.nodes
                invariant
                    i <= self.nodes <= MAX_NODES,
                    order@.len() == i + 1,
                    order@[0] == self.nodes,
                    forall|j: int| #![trigger order@[j]] 0 < j <= i ==> order@[j] == j - 1,
                decreases self.nodes - i,
            {
                order.push(i);
                i = i + 1;
            }
        } else {
            order.push(0);
            proof {
                assert(order@ =~= seq![0usize]);
            }
        }
        proof {
            assert(default_order(before.nodes, order@));
            assert(order_ok(before.backends.len() as int, order@));
        }
        let (k, res): (usize, Option<Region>) = self.ask(&order, bytes, align, hints);
        if k > 0 && res.is_some() {
            self.spillovers = self.spillovers.wrapping_add(1);
        }
        proof {
            assert(self@.backends == self.backends@);
            assert(before.routed(self@, None, order@, k as int, bytes, align, hints, res));
        }
        res
    }
}

impl<P: TopoBackingProvider, C: CoreProvider> NodeRouter<P, C> {
    /// What each node has idle, and a hugepage for each request it could not serve since this
    /// was last asked.
    pub fn sample_pressure(&mut self) -> (res: Vec<NodePressure>)
        requires
            old(self).wf(),
        ensures
            final(self).wf(),
            final(self).cores() == old(self).cores(),
            final(self)@ == old(self)@.sampled(),
            old(self)@.pressures(res@),
    {
        let ghost before = *self;
        let mut res: Vec<NodePressure> = Vec::new();
        let mut i: usize = 0;
        while i < self.nodes
            invariant
                before.wf(),
                self.wf(),
                self.cores() == before.cores(),
                self@ == (RouterView { failures: self@.failures, ..before@ }),
                self@.failures.len() == before@.failures.len(),
                i <= self.nodes,
                self.nodes == before@.nodes,
                res@.len() == i,
                forall|j: int|
                    #![trigger self@.failures[j]]
                    0 <= j < self.nodes ==> self@.failures[j] == (if j < i {
                        0
                    } else {
                        before@.failures[j]
                    }),
                forall|j: int|
                    #![trigger res@[j]]
                    0 <= j < i ==> {
                        &&& res@[j].free_bytes == before@.backends[j]@.filler.total(
                            Metric::EmptyBacked,
                        )
                        &&& res@[j].demand_bytes == lesser(
                            before@.failures[j] * HUGEPAGE_SIZE,
                            u64::MAX as int,
                        )
                    },
            decreases self.nodes - i,
        {
            proof {
                assert(self@.backends[i as int].wf());
                assert(self@.failures[i as int] == before@.failures[i as int]);
            }
            let free_bytes: u64 = self.backends[i].coverage().empty_backed_bytes;
            let demand_bytes: u64 = match self.failures[i].checked_mul(HUGEPAGE_SIZE as u64) {
                Some(bytes) => bytes,
                None => u64::MAX,
            };
            self.failures.set(i, 0);
            res.push(NodePressure { free_bytes, demand_bytes });
            i = i + 1;
        }
        proof {
            assert(self@.failures =~= Seq::new(before@.failures.len(), |j: int| 0u64));
        }
        res
    }

    /// Carry a move out: the source keeps what lies below the move of the `donor_free` bytes it
    /// has idle, in whole hugepages, and returns the rest. Answers the move with what was
    /// returned.
    pub fn execute_move(&mut self, plan: RebalanceMove, donor_free: u64) -> (res: RebalanceMove)
        requires
            old(self).wf(),
        ensures
            final(self).wf(),
            final(self).cores() == old(self).cores(),
            old(self)@.moves(final(self)@, plan, donor_free, res),
    {
        let ghost before = self@;
        let src: usize = plan.src.0 as usize;
        let keep: u64 = donor_free.saturating_sub(plan.bytes);
        let mut moved: RebalanceMove = plan;
        moved.bytes = 0;
        if src < self.nodes {
            let hugepages: u64 = keep / (HUGEPAGE_SIZE as u64);
            let reserve: usize = if hugepages <= usize::MAX as u64 {
                hugepages as usize
            } else {
                usize::MAX
            };
            proof {
                assert(self@.backends[src as int].wf());
            }
            let ghost donor = self@.backends[src as int];
            let released: usize = self.backends[src].release_empty_excess(reserve);
            moved.bytes = released as u64;
            proof {
                let now = self@.backends;
                assert(now =~= before.backends.update(src as int, now[src as int]));
                assert forall|j: int| #![trigger now[j]] 0 <= j < now.len() implies now[j].wf() by {
                    if j != src {
                        assert(now[j] == before.backends[j]);
                    }
                }
                lemma_large_reserve(donor, now[src as int], reserve as int, hugepages as int, released as int);
            }
        }
        self.rebalance_moves = self.rebalance_moves.wrapping_add(1);
        self.rebalance_released_bytes = self.rebalance_released_bytes.wrapping_add(moved.bytes);
        moved
    }

    /// Sample the nodes, let `plan` pick a move, and carry it out; the move with what was
    /// returned, or `None` when none was picked.
    pub fn rebalance_tick<F: FnOnce(&Vec<NodePressure>, &Topology) -> Option<RebalanceMove>>(
        &mut self,
        plan: F,
    ) -> (res: Option<RebalanceMove>)
        requires
            old(self).wf(),
            forall|p: &Vec<NodePressure>, t: &Topology| #[trigger] call_requires(plan, (p, t)),
        ensures
            final(self).wf(),
            final(self).cores() == old(self).cores(),
            exists|p: Vec<NodePressure>, t: Topology, planned: Option<RebalanceMove>|
                #![trigger call_ensures(plan, (&p, &t), planned)]
                {
                    &&& call_ensures(plan, (&p, &t), planned)
                    &&& old(self)@.pressures(p@)
                    &&& t@ == old(self)@.topo
                    &&& rebalanced(old(self)@, final(self)@, p@, planned, res)
                },
    {
        let ghost before = self@;
        let pressures: Vec<NodePressure> = self.sample_pressure();
        let planned: Option<RebalanceMove> = plan(&pressures, &self.topo);
        let ghost topo = self.topo;
        proof {
            assert(call_ensures(plan, (&pressures, &topo), planned));
        }
        match planned {
            None => None,
            Some(m) => {
                let src: usize = m.src.0 as usize;
                let donor_free: u64 = if src < pressures.len() {
                    pressures[src].free_bytes
                } else {
                    0
                };
                let moved: RebalanceMove = self.execute_move(m, donor_free);
                proof {
                    assert(rebalanced(before, self@, pressures@, planned, Some(moved)));
                }
                Some(moved)
            },
        }
    }

    /// Return the empty hugepages of every backend but for `reserve_per_node` in each; the bytes
    /// returned.
    pub fn release_idle(&mut self, reserve_per_node: usize) -> (res: usize)
        requires
            old(self).wf(),
        ensures
            final(self).wf(),
            final(self).cores() == old(self).cores(),
            exists|bytes: Seq<int>| #[trigger]
                old(self)@.idles(final(self)@, reserve_per_node as int, bytes) && res == lesser(
                    sum(bytes),
                    usize::MAX as int,
                ),
    {
        let ghost before = self@;
        let mut released: usize = 0;
        let ghost mut bytes: Seq<int> = Seq::empty();
        let mut i: usize = 0;
        while i < self.backends.len()
            invariant
                self.wf(),
                before == old(self)@,
                self.cores() == old(self).cores(),
                self@ == (RouterView { backends: self@.backends, ..before }),
                self@.backends.len() == before.backends.len(),
                i <= self@.backends.len(),
                bytes.len() == i,
                0 <= sum(bytes),
                released == lesser(sum(bytes), usize::MAX as int),
                forall|j: int|
                    #![trigger bytes[j]]
                    0 <= j < i ==> before.backends[j].shrinks(
                        self@.backends[j],
                        reserve_per_node as int,
                        bytes[j],
                    ),
                forall|j: int|
                    #![trigger self@.backends[j]]
                    i <= j < before.backends.len() ==> self@.backends[j] == before.backends[j],
            decreases self@.backends.len() - i,
        {
            let ghost prev = self@.backends;
            let ghost earlier = bytes;
            proof {
                assert(prev[i as int].wf());
            }
            let n: usize = self.backends[i].release_empty_excess(reserve_per_node);
            released = released.saturating_add(n);
            proof {
                let now = self@.backends;
                assert(now =~= prev.update(i as int, now[i as int]));
                assert forall|j: int| #![trigger now[j]] 0 <= j < now.len() implies now[j].wf() by {
                    if j != i {
                        assert(now[j] == prev[j]);
                    }
                }
                bytes = bytes.push(n as int);
                assert(bytes.drop_last() =~= earlier);
                assert forall|j: int| #![trigger bytes[j]] 0 <= j < i + 1 implies before.backends[j].shrinks(
                    now[j],
                    reserve_per_node as int,
                    bytes[j],
                ) by {
                    if j < i {
                        assert(bytes[j] == earlier[j]);
                        assert(now[j] == prev[j]);
                    }
                }
            }
            i = i + 1;
        }
        proof {
            assert(before.idles(self@, reserve_per_node as int, bytes));
        }
        released
    }

    /// The running counters.
    pub fn stats(&self) -> (res: NodeRouterStats)
        ensures
            res == self@.stats,
    {
        NodeRouterStats {
            nodes: self.nodes as u32,
            bind_failures: self.bind_failures,
            rebalance_moves: self.rebalance_moves,
            rebalance_released_bytes: self.rebalance_released_bytes,
            spillovers: self.spillovers,
        }
    }

    /// Every backend, the unbound one too, can be looked over.
    pub open spec fn checkable(self) -> bool {
        forall|i: int|
            0 <= i < self@.backends.len() ==> (#[trigger] self@.backends[i]).checkable()
    }

    /// Every backend, the unbound one too, is consistent.
    pub open spec fn consistent(self) -> bool {
        forall|i: int|
            0 <= i < self@.backends.len() ==> (#[trigger] self@.backends[i]).consistent()
    }

    /// Whether every backend is as it should be. All are in a good router.
    pub fn check_invariants(&self) -> (res: bool)
        requires
            self.checkable(),
        ensures
            res == self.consistent(),
            self.wf() ==> res,
    {
        let mut i: usize = 0;
        while i < self.backends.len()
            invariant
                self.checkable(),
                self@.backends == self.backends@,
                i <= self.backends@.len(),
                forall|j: int| 0 <= j < i ==> (#[trigger] self@.backends[j]).consistent(),
            decreases self.backends.len() - i,
        {
            proof {
                assert(self@.backends[i as int].checkable());
            }
            if !self.backends[i].check_invariants() {
                proof {
                    assert(!self@.backends[i as int].consistent());
                    assert(self.wf() ==> self@.backends[i as int].wf());
                }
                return false;
            }
            i = i + 1;
        }
        true
    }

    /// Give every reservation back. The first error is answered; the rest are given back all
    /// the same.
    pub fn teardown(&mut self) -> (res: Result<(), BackendError>)
        requires
            old(self).wf(),
        ensures
            final(self).wf(),
            final(self).cores() == old(self).cores(),
            exists|answers: Seq<Result<(), BackendError>>| #[trigger]
                old(self)@.tears_down(final(self)@, answers) && res == first_error(answers),
    {
        let ghost before = self@;
        let mut first: Result<(), BackendError> = Ok(());
        let ghost mut answers: Seq<Result<(), BackendError>> = Seq::empty();
        let mut i: usize = 0;
        while i < self.backends.len()
            invariant
                self.wf(),
                before == old(self)@,
                self.cores() == old(self).cores(),
                self@ == (RouterView { backends: self@.backends, ..before }),
                self@.backends.len() == before.backends.len(),
                i <= self@.backends.len(),
                answers.len() == i,
                first == first_error(answers),
                forall|j: int|
                    #![trigger answers[j]]
                    0 <= j < i ==> before.backends[j].tears_down(self@.backends[j], answers[j]),
                forall|j: int|
                    #![trigger self@.backends[j]]
                    i <= j < before.backends.len() ==> self@.backends[j] == before.backends[j],
            decreases self@.backends.len() - i,
        {
            let ghost prev = self@.backends;
            let ghost earlier = answers;
            proof {
                assert(prev[i as int].wf());
            }
            let answer: Result<(), BackendError> = self.backends[i].teardown();
            if first.is_ok() {
                first = answer;
            }
            proof {
                let now = self@.backends;
                assert(now =~= prev.update(i as int, now[i as int]));
                assert forall|j: int| #![trigger now[j]] 0 <= j < now.len() implies now[j].wf() by {
                    if j != i {
                        assert(now[j] == prev[j]);
                    }
                }
                answers = answers.push(answer);
                assert(answers.drop_last() =~= earlier);
                assert forall|j: int| #![trigger answers[j]] 0 <= j < i + 1 implies before.backends[j].tears_down(
                    now[j],
                    answers[j],
                ) by {
                    if j < i {
                        assert(answers[j] == earlier[j]);
                        assert(now[j] == prev[j]);
                    }
                }
            }
            i = i + 1;
        }
        proof {
            assert(before.tears_down(self@, answers));
        }
        first
    }
}

/// What a rebalancing did, whatever was planned: nothing but the sampling when no move was
/// picked; else the move was carried out with what its source had idle.
pub open spec fn rebalanced<P: TopoBackingProvider>(
    before: RouterView<P>,
    after: RouterView<P>,
    pressures: Seq<NodePressure>,
    planned: Option<RebalanceMove>,
    res: Option<RebalanceMove>,
) -> bool {
    match (planned, res) {
        (None, None) => after == before.sampled(),
        (Some(plan), Some(moved)) => before.sampled().moves(
            after,
            plan,
            if plan.src.0 < pressures.len() {
                pressures[plan.src.0 as int].free_bytes
            } else {
                0
            },
            moved,
        ),
        _ => false,
    }
}

/// A reserve of more hugepages than can be counted keeps them all.
proof fn lemma_large_reserve<P: TopoBackingProvider>(
    before: HugePageBackend<P>,
    after: HugePageBackend<P>,
    reserve: int,
    wanted: int,
    bytes: int,
)
    requires
        before.wf(),
        before.shrinks(after, reserve, bytes),
        wanted == reserve || (reserve == usize::MAX && reserve < wanted),
    ensures
        before.shrinks(after, wanted, bytes),
{
    let v = before@.filler;
    let w = after@.filler;
    before.lemma_wf();
    if wanted != reserve && !before@.released {
        assert forall|i: int|
            0 <= i < v.pages.len() && i < v.opened implies !#[trigger] before.in_excess(
            i,
            reserve,
        ) && !before.in_excess(i, wanted) by {
            filler_model::lemma_sum_bounds(Metric::EmptyBackedPages, v.pages, i);
        }
        assert forall|i: int|
            #![trigger w.pages[i]]
            0 <= i < v.pages.len() implies if i < v.opened && before.in_excess(i, wanted) {
            before.drained(i, v.pages[i], w.pages[i])
        } else {
            w.pages[i] == v.pages[i]
        } by {
            if i < v.opened {
                assert(!before.in_excess(i, reserve));
            }
        }
        let steps = choose|steps: Seq<DrainStep>| #[trigger]
            before.drains(after, reserve, steps) && bytes == huge_backend::taken_bytes(steps);
        assert(steps.len() == 0) by {
            if steps.len() > 0 {
                assert(before.in_excess(steps[0].page, reserve));
            }
        }
        assert(before.drains(after, wanted, steps));
    }
}

impl<P: TopoBackingProvider, C: CoreProvider> RegionCacheHook for NodeRouter<P, C> {
    open spec fn hook_wf(&self) -> bool {
        self.wf()
    }

    /// A request that avoids hugepages is declined before a node is chosen, so that no node
    /// counts it as missed. Any other goes to the node of its policy, or to the unbound backend.
    open spec fn may_serve(
        &self,
        after: &Self,
        bytes: usize,
        align: usize,
        hints: Hints,
        res: Option<Region>,
    ) -> bool {
        &&& after.cores() == self.cores()
        &&& hints.hugepage == HugepagePolicy::Avoid ==> res is None && after@ == self@
        &&& hints.hugepage != HugepagePolicy::Avoid ==> exists|
            core: CoreId,
            order: Seq<usize>,
            k: int,
        |
            {
                &&& hints.numa is Local ==> self.cores().may_run_on(core)
                &&& #[trigger] served(self@, after@, core, order, k, bytes, align, hints, res)
            }
    }

    /// The region goes back to the first backend that owns its address; to none when none does.
    open spec fn may_take(&self, after: &Self, region: Region, res: bool) -> bool {
        &&& after.cores() == self.cores()
        &&& self@.foreign(region.base as int) ==> !res && after@ == self@
        &&& forall|i: int| #[trigger]
            self@.owned_by(region.base as int, i) ==> {
                &&& after@ == self@.with_backend(i, after@.backends[i])
                &&& self@.backends[i].frees(after@.backends[i], region, res)
            }
    }

    /// The region goes back to the first backend that owns its address, once what `arena`
    /// derived from it is revoked; to none when none does.
    open spec fn may_take_revoking(
        &self,
        after: &Self,
        region: Region,
        arena: ArenaId,
        res: bool,
    ) -> bool {
        &&& after.cores() == self.cores()
        &&& self@.foreign(region.base as int) ==> !res && after@ == self@
        &&& forall|i: int| #[trigger]
            self@.owned_by(region.base as int, i) ==> {
                &&& after@ == self@.with_backend(i, after@.backends[i])
                &&& self@.backends[i].revokes(after@.backends[i], region, arena, res)
            }
    }

    /// The region is cut by the first backend that owns its address; by none when none does.
    open spec fn may_cut(
        &self,
        after: &Self,
        region: Region,
        new_len: usize,
        res: Option<usize>,
    ) -> bool {
        &&& after.cores() == self.cores()
        &&& self@.foreign(region.base as int) ==> res is None && after@ == self@
        &&& forall|i: int| #[trigger]
            self@.owned_by(region.base as int, i) ==> {
                &&& after@ == self@.with_backend(i, after@.backends[i])
                &&& self@.backends[i].trims(after@.backends[i], region, new_len, res)
            }
    }

    /// The router reports nothing of its own.
    fn state_bytes(&self) -> (res: StateBytes)
        ensures
            res == (StateBytes { reserved: 0, active: 0, dirty: 0, muzzy: 0, released: 0 }),
    {
        StateBytes { reserved: 0, active: 0, dirty: 0, muzzy: 0, released: 0 }
    }

    fn try_alloc(&mut self, bytes: usize, align: usize, hints: Hints) -> (res: Option<Region>)
        ensures
            res matches Some(region) ==> region.base as int % (align as int) == 0 && region.len
                == overflow::round_up(bytes as int, PAGE_SIZE as int),
    {
        if hints.hugepage == HugepagePolicy::Avoid {
            return None;
        }
        let ghost before = self@;
        let node: Option<usize> = self.choose_node(hints.numa);
        let ghost middle = self@;
        let ghost from: Option<int> = match node {
            Some(i) => Some(i as int),
            None => None,
        };
        let ghost core = choose|core: CoreId|
            (hints.numa is Local ==> old(self).cores().may_run_on(core)) && #[trigger] before.target(
                hints.numa,
                core,
            ) == from;
        let res: Option<Region> = match node {
            Some(i) => self.alloc_bound(i, bytes, align, hints),
            None => self.alloc_default(bytes, align, hints),
        };
        proof {
            let (order, k) = choose|order: Seq<usize>, k: int| #[trigger]
                middle.routed(self@, from, order, k, bytes, align, hints, res);
            assert(served(before, self@, core, order, k, bytes, align, hints, res));
        }
        res
    }

    fn try_cache(&mut self, region: Region) -> (res: bool) {
        let ghost before = self@;
        match self.owner(region.base) {
            Some(i) => {
                proof {
                    assert(before.backends[i as int].wf());
                    lemma_one_owner(before, region.base as int, i as int);
                }
                let res: bool = self.backends[i].try_cache(region);
                proof {
                    lemma_one_changed(before.backends, self@.backends, i as int);
                    assert(self@.backends =~= before.backends.update(i as int, self@.backends[i as int]));
                }
                res
            },
            None => false,
        }
    }

    fn try_cache_revoking(&mut self, region: Region, arena: ArenaId) -> (res: bool) {
        let ghost before = self@;
        match self.owner(region.base) {
            Some(i) => {
                proof {
                    assert(before.backends[i as int].wf());
                    lemma_one_owner(before, region.base as int, i as int);
                }
                let res: bool = self.backends[i].try_cache_revoking(region, arena);
                proof {
                    lemma_one_changed(before.backends, self@.backends, i as int);
                    assert(self@.backends =~= before.backends.update(i as int, self@.backends[i as int]));
                }
                res
            },
            None => false,
        }
    }

    fn try_trim(&mut self, region: Region, new_len: usize) -> (res: Option<usize>) {
        let ghost before = self@;
        match self.owner(region.base) {
            Some(i) => {
                proof {
                    assert(before.backends[i as int].wf());
                    lemma_one_owner(before, region.base as int, i as int);
                }
                let res: Option<usize> = self.backends[i].try_trim(region, new_len);
                proof {
                    lemma_one_changed(before.backends, self@.backends, i as int);
                    assert(self@.backends =~= before.backends.update(i as int, self@.backends[i as int]));
                }
                res
            },
            None => None,
        }
    }
}

/// What a request did when the running core was `core`: it went to the node of its policy, or
/// to the unbound backend, and the backends were asked in that order up to the `k`-th.
pub open spec fn served<P: TopoBackingProvider>(
    before: RouterView<P>,
    after: RouterView<P>,
    core: CoreId,
    order: Seq<usize>,
    k: int,
    bytes: usize,
    align: usize,
    hints: Hints,
    res: Option<Region>,
) -> bool {
    before.after_choice(hints.numa).routed(
        after,
        before.target(hints.numa, core),
        order,
        k,
        bytes,
        align,
        hints,
        res,
    )
}

/// Only one backend is the first that owns an address.
proof fn lemma_one_owner<P: TopoBackingProvider>(v: RouterView<P>, addr: int, i: int)
    requires
        v.owned_by(addr, i),
    ensures
        !v.foreign(addr),
        forall|j: int| #[trigger] v.owned_by(addr, j) ==> j == i,
{
    assert(v.backends[i]@.region.has(addr));
    assert forall|j: int| #[trigger] v.owned_by(addr, j) implies j == i by {
        assert(v.backends[j]@.region.has(addr));
    }
}

/// Changing one backend keeps the others good.
proof fn lemma_one_changed<P: TopoBackingProvider>(
    before: Seq<HugePageBackend<P>>,
    after: Seq<HugePageBackend<P>>,
    i: int,
)
    requires
        0 <= i < before.len(),
        after == before.update(i, after[i]),
        after[i].wf(),
        forall|j: int| #![trigger before[j]] 0 <= j < before.len() ==> before[j].wf(),
    ensures
        forall|j: int| #![trigger after[j]] 0 <= j < after.len() ==> after[j].wf(),
{
    assert forall|j: int| #![trigger after[j]] 0 <= j < after.len() implies after[j].wf() by {
        if j != i {
            assert(after[j] == before[j]);
        }
    }
}

/// The backends of the first nodes were made, each of them by its number.
pub open spec fn all_made<
    P: TopoBackingProvider,
    F: Fn(Option<NodeId>) -> Option<HugePageBackend<P>>,
>(make: F, made: Seq<HugePageBackend<P>>) -> bool {
    forall|i: int|
        #![trigger made[i]]
        0 <= i < made.len() ==> call_ensures(make, (Some(NodeId(i as u32)),), Some(made[i]))
}

/// The first `n` backends were asked to bind to their nodes once they were made, and `bound` says
/// of which that was granted.
pub open spec fn all_bound<P: TopoBackingProvider>(
    made: Seq<HugePageBackend<P>>,
    backends: Seq<HugePageBackend<P>>,
    topo: TopologyView,
    n: int,
    bound: Seq<bool>,
) -> bool {
    &&& made.len() == n
    &&& bound.len() == n
    &&& forall|i: int|
        #![trigger made[i]]
        #![trigger bound[i]]
        0 <= i < n ==> made[i].binds(backends[i], topo.os_name(i as u32), bound[i])
}

/// The maintenance of a router by its host, whatever its backends are.
///
/// The relations say what an operation may answer and what the router then is, so that a caller
/// learns of each call what was asked and what came of it.
pub trait RouterControl: Sized {
    /// What the router keeps.
    spec fn control_wf(&self) -> bool;

    /// What a plan is shown: what each node has idle and could not serve, and the snapshot.
    spec fn may_show(&self, pressures: Seq<NodePressure>, topo: TopologyView) -> bool;

    /// The outcomes of [`rebalance_tick`](Self::rebalance_tick) once a move was picked or not.
    spec fn may_rebalance(
        &self,
        after: &Self,
        pressures: Seq<NodePressure>,
        planned: Option<RebalanceMove>,
        res: Option<RebalanceMove>,
    ) -> bool;

    /// The outcomes of [`refresh`](Self::refresh).
    spec fn may_refresh(&self, after: &Self, topo: TopologyView) -> bool;

    /// The outcomes of [`release_idle`](Self::release_idle).
    spec fn may_idle(&self, after: &Self, reserve_per_node: usize, res: usize) -> bool;

    /// The running counters.
    spec fn counters(&self) -> NodeRouterStats;

    /// Let `plan` pick a move and carry it out.
    fn rebalance_tick<F: FnOnce(&Vec<NodePressure>, &Topology) -> Option<RebalanceMove>>(
        &mut self,
        plan: F,
    ) -> (res: Option<RebalanceMove>)
        requires
            old(self).control_wf(),
            forall|p: &Vec<NodePressure>, t: &Topology| #[trigger] call_requires(plan, (p, t)),
        ensures
            final(self).control_wf(),
            exists|p: Vec<NodePressure>, t: Topology, planned: Option<RebalanceMove>|
                #![trigger call_ensures(plan, (&p, &t), planned)]
                {
                    &&& call_ensures(plan, (&p, &t), planned)
                    &&& old(self).may_show(p@, t@)
                    &&& old(self).may_rebalance(final(self), p@, planned, res)
                },
    ;

    /// Take a new snapshot of the machine.
    fn refresh(&mut self, topo: Topology)
        requires
            old(self).control_wf(),
        ensures
            final(self).control_wf(),
            old(self).may_refresh(final(self), topo@),
    ;

    /// Return the empty hugepages of every backend but for a reserve in each.
    fn release_idle(&mut self, reserve_per_node: usize) -> (res: usize)
        requires
            old(self).control_wf(),
        ensures
            final(self).control_wf(),
            old(self).may_idle(final(self), reserve_per_node, res),
    ;

    /// The running counters.
    fn stats(&self) -> (res: NodeRouterStats)
        ensures
            res == self.counters(),
    ;
}

impl<P: TopoBackingProvider, C: CoreProvider> RouterControl for NodeRouter<P, C> {
    open spec fn control_wf(&self) -> bool {
        self.wf()
    }

    open spec fn may_show(&self, pressures: Seq<NodePressure>, topo: TopologyView) -> bool {
        self@.pressures(pressures) && topo == self@.topo
    }

    open spec fn may_rebalance(
        &self,
        after: &Self,
        pressures: Seq<NodePressure>,
        planned: Option<RebalanceMove>,
        res: Option<RebalanceMove>,
    ) -> bool {
        rebalanced(self@, after@, pressures, planned, res)
    }

    open spec fn may_refresh(&self, after: &Self, topo: TopologyView) -> bool {
        after@ == (RouterView { topo, ..self@ })
    }

    open spec fn may_idle(&self, after: &Self, reserve_per_node: usize, res: usize) -> bool {
        exists|bytes: Seq<int>| #[trigger]
            self@.idles(after@, reserve_per_node as int, bytes) && res == lesser(
                sum(bytes),
                usize::MAX as int,
            )
    }

    open spec fn counters(&self) -> NodeRouterStats {
        self@.stats
    }

    fn rebalance_tick<F: FnOnce(&Vec<NodePressure>, &Topology) -> Option<RebalanceMove>>(
        &mut self,
        plan: F,
    ) -> (res: Option<RebalanceMove>) {
        NodeRouter::rebalance_tick(self, plan)
    }

    fn refresh(&mut self, topo: Topology) {
        NodeRouter::refresh(self, topo)
    }

    fn release_idle(&mut self, reserve_per_node: usize) -> (res: usize) {
        NodeRouter::release_idle(self, reserve_per_node)
    }

    fn stats(&self) -> (res: NodeRouterStats) {
        NodeRouter::stats(self)
    }
}

/// The order of spilling is fixed by the snapshot.
pub proof fn law_spill_order_is_fixed(
    topo: TopologyView,
    nodes: int,
    from: int,
    a: Seq<usize>,
    b: Seq<usize>,
)
    requires
        nearest_first(topo, nodes, from, a),
        nearest_first(topo, nodes, from, b),
    ensures
        a == b,
    decreases a.len(),
{
    if a.len() == 0 || b.len() == 0 {
        if a.len() > 0 {
            assert(a.contains(a[0]));
            assert(b.contains(a[0]));
        }
        if b.len() > 0 {
            assert(b.contains(b[0]));
            assert(a.contains(b[0]));
        }
        assert(a =~= b);
    } else {
        lemma_same_prefix(topo, nodes, from, a, b, lesser(a.len() as int, b.len() as int));
        if a.len() < b.len() {
            let x = b[a.len() as int];
            assert(b.contains(x));
            assert(a.contains(x));
            let k = a.index_of(x);
            assert(a[k] == b[k]);
            assert(spills_before(topo, from, b[k] as int, x as int));
        } else if b.len() < a.len() {
            let x = a[b.len() as int];
            assert(a.contains(x));
            assert(b.contains(x));
            let k = b.index_of(x);
            assert(a[k] == b[k]);
            assert(spills_before(topo, from, a[k] as int, x as int));
        }
        assert(a =~= b);
    }
}

/// Two orders of spilling agree as far as both go.
proof fn lemma_same_prefix(
    topo: TopologyView,
    nodes: int,
    from: int,
    a: Seq<usize>,
    b: Seq<usize>,
    n: int,
)
    requires
        nearest_first(topo, nodes, from, a),
        nearest_first(topo, nodes, from, b),
        0 <= n <= a.len(),
        n <= b.len(),
    ensures
        forall|i: int| #![trigger a[i]] 0 <= i < n ==> a[i] == b[i],
    decreases n,
{
    if n > 0 {
        lemma_same_prefix(topo, nodes, from, a, b, n - 1);
        let i = n - 1;
        assert(a.contains(a[i]) && b.contains(b[i]));
        assert(b.contains(a[i]) && a.contains(b[i]));
        let j = b.index_of(a[i]);
        let k = a.index_of(b[i]);
        assert(b[j] == a[i] && a[k] == b[i]);
        if j < i {
            assert(a[j] == b[j]);
            assert(spills_before(topo, from, a[j] as int, a[i] as int));
        }
        if k < i {
            assert(a[k] == b[k]);
            assert(spills_before(topo, from, b[k] as int, b[i] as int));
        }
        if j > i && k > i {
            assert(spills_before(topo, from, b[i] as int, b[j] as int));
            assert(spills_before(topo, from, a[i] as int, a[k] as int));
        }
    }
}

/// Interleaved requests take the nodes in turn, until the counter wraps.
pub proof fn law_interleave_takes_turns<P: TopoBackingProvider>(
    v: RouterView<P>,
    core: CoreId,
    later: CoreId,
)
    requires
        1 <= v.nodes,
        v.interleave < u32::MAX,
    ensures
        ({
            let first = v.target(NumaPolicy::Interleave, core)->0;
            let second = v.after_choice(NumaPolicy::Interleave).target(
                NumaPolicy::Interleave,
                later,
            )->0;
            second == (if first + 1 == v.nodes {
                0
            } else {
                first + 1
            })
        }),
{
    overflow::lemma_next_turn(v.interleave as int, v.nodes);
}

/// The node for a policy is a node of the router.
pub proof fn law_target_is_a_node<P: TopoBackingProvider>(
    v: RouterView<P>,
    policy: NumaPolicy,
    core: CoreId,
)
    requires
        1 <= v.nodes,
    ensures
        v.target(policy, core) matches Some(node) ==> 0 <= node < v.nodes,
        v.target(policy, core) is None <==> policy is OsDefault || policy is ArenaPolicy,
{
    vstd::arithmetic::div_mod::lemma_mod_bound(v.interleave as int, v.nodes);
}

/// On a machine of one node every policy asks that node's backend and no other.
pub proof fn law_one_node_serves_all<P: TopoBackingProvider>(
    v: RouterView<P>,
    policy: NumaPolicy,
    core: CoreId,
    order: Seq<usize>,
)
    requires
        v.nodes == 1,
        match v.target(policy, core) {
            Some(node) => bound_order(v.topo, v.nodes, node, order),
            None => default_order(v.nodes, order),
        },
    ensures
        order == seq![0usize],
{
    law_target_is_a_node(v, policy, core);
    if let Some(node) = v.target(policy, core) {
        let others = choose|others: Seq<usize>|
            {
                &&& #[trigger] nearest_first(v.topo, v.nodes, node, others)
                &&& order == seq![node as usize] + others + Seq::<usize>::empty()
            };
        if others.len() > 0 {
            assert(others.contains(others[0]));
        }
        assert(order =~= seq![0usize]);
    }
}

/// Wherever a request was served, whatever its policy and whether nodes are bound or not, the
/// region goes home: it is owned by the backend that served it, which can free it.
pub proof fn law_served_region_goes_home<P: TopoBackingProvider>(
    before: RouterView<P>,
    after: RouterView<P>,
    from: Option<int>,
    order: Seq<usize>,
    k: int,
    bytes: usize,
    align: usize,
    hints: Hints,
    region: Region,
)
    requires
        before.routed(after, from, order, k, bytes, align, hints, Some(region)),
        order_ok(before.backends.len() as int, order),
        forall|i: int|
            #![trigger before.backends[i]]
            0 <= i < before.backends.len() ==> before.backends[i].wf()
                && before.backends[i]@.region.len >= before.backends[i]@.filler.pages.len()
                * HUGEPAGE_SIZE,
        forall|i: int, j: int, addr: int|
            #![trigger before.backends[i]@.region.has(addr), before.backends[j]@.region.has(addr)]
            0 <= i < j < before.backends.len() ==> !(before.backends[i]@.region.has(addr)
                && before.backends[j]@.region.has(addr)),
    ensures
        after.owned_by(region.base as int, order[k] as int),
        after.backends[order[k] as int]@.is_allocated(region),
{
    let h = order[k] as int;
    let addr = region.base as int;
    assert(before.backends[h].wf());
    huge_laws::law_allocation_can_be_freed(
        before.backends[h],
        after.backends[h],
        bytes,
        align,
        huge_backend::place_hints(hints),
        region,
    );
    huge_laws::law_allocation_keeps_the_reservation(
        before.backends[h],
        after.backends[h],
        bytes,
        align,
        huge_backend::place_hints(hints),
        Some(region),
    );
    assert(before.backends[h]@.region.has(addr));
    assert forall|j: int| #![trigger after.backends[j]] 0 <= j < h implies !after.backends[j]@.region.has(
        addr,
    ) by {
        if forall|a: int|
            #![trigger order[a]]
            0 <= a <= k && a < order.len() ==> order[a] != j {
            assert(after.backends[j] == before.backends[j]);
        } else {
            let a = choose|a: int|
                #![trigger order[a]]
                0 <= a <= k && a < order.len() && order[a] == j;
            huge_laws::law_allocation_keeps_the_reservation(
                before.backends[j],
                after.backends[j],
                bytes,
                align,
                huge_backend::place_hints(hints),
                None,
            );
        }
        assert(!before.backends[j]@.region.has(addr));
    }
}

/// A request is refused only when every backend declined it, that of every node and the unbound
/// one, whatever its policy and however far apart the nodes are.
pub proof fn law_refused_everywhere<P: TopoBackingProvider>(
    before: RouterView<P>,
    after: RouterView<P>,
    from: Option<int>,
    order: Seq<usize>,
    k: int,
    bytes: usize,
    align: usize,
    hints: Hints,
    i: int,
)
    requires
        before.routed(after, from, order, k, bytes, align, hints, None),
        1 <= before.nodes <= MAX_NODES,
        before.backends.len() == (if before.nodes > 1 {
            before.nodes + 1
        } else {
            1
        }),
        0 <= i < before.backends.len(),
        from matches Some(node) ==> 0 <= node < before.nodes,
    ensures
        before.backends[i].allocates(
            after.backends[i],
            bytes,
            align,
            huge_backend::place_hints(hints),
            None,
        ),
{
    assert(order.contains(i as usize)) by {
        match from {
            Some(node) => {
                let others = choose|others: Seq<usize>|
                    {
                        &&& #[trigger] nearest_first(before.topo, before.nodes, node, others)
                        &&& order == seq![node as usize] + others + (if before.nodes > 1 {
                            seq![before.nodes as usize]
                        } else {
                            Seq::empty()
                        })
                    };
                if i == node {
                    assert(order[0] == i);
                } else if i == before.nodes {
                    assert(order[order.len() - 1] == i);
                } else {
                    assert(others.contains(i as usize));
                    let a = others.index_of(i as usize);
                    assert(order[a + 1] == others[a]);
                }
            },
            None => {
                if before.nodes == 1 {
                    assert(order[0] == i);
                } else if i == before.nodes {
                    assert(order[0] == i);
                } else {
                    assert(order[i + 1] == i);
                }
            },
        }
    }
    let a = order.index_of(i as usize);
    assert(order[a] == i);
}

} // verus!
