//! What routing is for: memory comes from the node that was asked for or the nearest that has
//! some, and idle memory leaves a node by as much as was asked, and no more.
use vstd::prelude::*;
use crate::backend::{BackendError, Region, Request, TopoBackingProvider};
use crate::bitmap;
use crate::bitmap::{HUGEPAGE_SIZE, PAGES_PER_HUGEPAGE};
use crate::filler_model;
use crate::filler_model::{FillerView, HugePageView, Metric};
use crate::flags::{Hints, NumaPolicy};
use crate::huge_backend;
use crate::huge_backend::HugePageBackend;
use crate::ids::{CoreId, NodeId};
use crate::node_router;
use crate::node_router::RouterView;
use crate::topology::{NodePressure, RebalanceMove};

verus! {

/// Hugepage `p` holds backed pages and nothing live.
pub open spec fn idle(p: HugePageView) -> bool {
    p.live.len() == 0 && p.committed.len() > 0
}

/// The idle hugepages among the first `n`.
pub open spec fn idle_hugepages(v: FillerView, n: int) -> int
    decreases n,
{
    if n <= 0 {
        0
    } else {
        idle_hugepages(v, n - 1) + (if idle(v.pages[n - 1]) {
            1int
        } else {
            0
        })
    }
}

/// The backed bytes of the idle hugepages among the first `n`.
pub open spec fn idle_bytes(v: FillerView, n: int) -> int
    decreases n,
{
    if n <= 0 {
        0
    } else {
        idle_bytes(v, n - 1) + (if idle(v.pages[n - 1]) {
            v.pages[n - 1].committed.len() * bitmap::PAGE_SIZE
        } else {
            0
        })
    }
}

/// Every idle hugepage is backed entirely.
pub open spec fn idle_whole(v: FillerView) -> bool {
    forall|i: int|
        #![trigger v.pages[i]]
        0 <= i < v.opened && idle(v.pages[i]) ==> v.pages[i].committed.len() == PAGES_PER_HUGEPAGE
}

/// The provider takes back what it is offered.
pub open spec fn willing<P: TopoBackingProvider>(b: HugePageBackend<P>) -> bool {
    forall|q: Request| #[trigger]
        b.source().answers().contains(q) ==> match q {
            Request::Revoke { answer, .. } => answer is Ok,
            Request::Decommit { answer, .. } => answer is Ok,
            _ => true,
        }
}

/// The smaller of two.
pub open spec fn at_most(a: int, b: int) -> int {
    if a <= b {
        a
    } else {
        b
    }
}

/// The metrics count the idle hugepages and their bytes.
proof fn lemma_idle(v: FillerView, n: int)
    requires
        0 <= n <= v.pages.len(),
    ensures
        filler_model::sum_pages(Metric::EmptyBackedPages, v.pages, n) == idle_hugepages(v, n),
        filler_model::sum_pages(Metric::EmptyBacked, v.pages, n) == idle_bytes(v, n),
        0 <= idle_hugepages(v, n) <= n,
        0 <= idle_bytes(v, n),
    decreases n,
{
    if n > 0 {
        lemma_idle(v, n - 1);
    }
}

/// Whole idle hugepages hold a hugepage each.
proof fn lemma_whole(v: FillerView, n: int)
    requires
        0 <= n <= v.opened,
        v.opened <= v.pages.len(),
        idle_whole(v),
    ensures
        idle_bytes(v, n) == idle_hugepages(v, n) * HUGEPAGE_SIZE,
    decreases n,
{
    if n > 0 {
        lemma_whole(v, n - 1);
        assert(idle(v.pages[n - 1]) ==> v.pages[n - 1].committed.len() == PAGES_PER_HUGEPAGE);
    }
}

/// A willing provider refuses no run.
proof fn lemma_willing<P: TopoBackingProvider>(b: HugePageBackend<P>, base: int, len: int)
    requires
        willing(b),
    ensures
        !b.may_refuse(base, len),
{
    if b.may_refuse(base, len) {
        let asked = choose|asked: Seq<Request>| #[trigger]
            b@.takes_back(base, len, false, asked) && b.may_answer(asked);
        assert(asked.len() > 0);
        assert(b.source().answers().contains(asked[0]));
        if asked.len() > 1 {
            assert(b.source().answers().contains(asked[1]));
        }
    }
}

/// What a backend keeps of its idle hugepages, counted up to the `n`th.
proof fn lemma_kept<P: TopoBackingProvider>(
    before: HugePageBackend<P>,
    after: HugePageBackend<P>,
    reserve: int,
    bytes: int,
    n: int,
)
    requires
        before.wf(),
        !before@.released,
        before.shrinks(after, reserve, bytes),
        0 <= reserve,
        0 <= n <= before@.filler.opened,
    ensures
        idle_hugepages(after@.filler, n) >= at_most(reserve, idle_hugepages(before@.filler, n)),
        idle_whole(before@.filler) ==> idle_bytes(after@.filler, n) >= at_most(
            reserve,
            idle_hugepages(before@.filler, n),
        ) * HUGEPAGE_SIZE,
        willing(before) ==> idle_hugepages(after@.filler, n) == at_most(
            reserve,
            idle_hugepages(before@.filler, n),
        ),
        willing(before) && idle_whole(before@.filler) ==> idle_bytes(after@.filler, n) == at_most(
            reserve,
            idle_hugepages(before@.filler, n),
        ) * HUGEPAGE_SIZE,
    decreases n,
{
    before.lemma_wf();
    if n > 0 {
        lemma_kept(before, after, reserve, bytes, n - 1);
        let v = before@.filler;
        let w = after@.filler;
        let i = n - 1;
        lemma_idle(v, i);
        lemma_idle(w, i);
        assert(v.pages[i].ok());
        let p = v.pages[i];
        let q = w.pages[i];
        if before.in_excess(i, reserve) {
            assert(before.drained(i, p, q));
            if willing(before) {
                assert forall|x: int| !q.committed.contains(x) by {
                    if q.committed.contains(x) {
                        let (off, pages) = choose|off: int, pages: int|
                            before.refused_run(i, x, off, pages);
                        lemma_willing(
                            before,
                            crate::filler_laws::page_address(v, i, off),
                            pages * bitmap::PAGE_SIZE,
                        );
                    }
                }
                assert(q.committed =~= Set::<int>::empty());
            }
        } else {
            assert(q == p);
            assert(idle(p) == p.empty_backed());
        }
    }
}

/// Returning idle hugepages leaves a reserve: as many as were to be kept are idle still, or all
/// if there were fewer; what was live and backed is as it was, and what is idle less was
/// returned. A provider that takes back what it is offered gets all beyond the reserve.
pub proof fn law_release_keeps_the_reserve<P: TopoBackingProvider>(
    before: HugePageBackend<P>,
    after: HugePageBackend<P>,
    reserve: int,
    bytes: int,
)
    requires
        before.wf(),
        before.shrinks(after, reserve, bytes),
        0 <= reserve,
    ensures
        ({
            let v = before@.filler;
            let w = after@.filler;
            let had = idle_hugepages(v, v.opened);
            let has = idle_hugepages(w, w.opened);
            &&& has >= at_most(reserve, had)
            &&& bytes == idle_bytes(v, v.opened) - idle_bytes(w, w.opened)
            &&& willing(before) && !before@.released ==> has == at_most(reserve, had)
            &&& idle_whole(v) ==> idle_bytes(w, w.opened) >= at_most(reserve, had) * HUGEPAGE_SIZE
            &&& forall|i: int|
                #![trigger w.pages[i]]
                0 <= i < v.opened ==> w.pages[i].live == v.pages[i].live && (!idle(v.pages[i])
                    ==> w.pages[i] == v.pages[i])
        }),
{
    before.lemma_wf();
    let v = before@.filler;
    let w = after@.filler;
    lemma_idle(v, v.opened);
    if before@.released {
        if idle_whole(v) {
            lemma_whole(v, v.opened);
        }
    } else {
        lemma_idle(w, w.opened);
        lemma_kept(before, after, reserve, bytes, v.opened);
    }
}

/// A move takes what was asked for: from a node with at least that much idle, in whole hugepages,
/// it leaves the node all that lies below the move, in whole hugepages, and returns less than
/// what was asked for and a hugepage more. A provider that takes back what it is offered gets no
/// less than what was asked for.
pub proof fn law_move_leaves_the_rest<P: TopoBackingProvider>(
    before: RouterView<P>,
    after: RouterView<P>,
    plan: RebalanceMove,
    donor_free: u64,
    moved: RebalanceMove,
)
    requires
        before.moves(after, plan, donor_free, moved),
        0 <= plan.src.0 < before.nodes <= before.backends.len(),
        before.backends[plan.src.0 as int].wf(),
        !before.backends[plan.src.0 as int]@.released,
        ({
            let v = before.backends[plan.src.0 as int]@.filler;
            idle_whole(v) && donor_free == idle_bytes(v, v.opened)
        }),
        plan.bytes <= donor_free,
    ensures
        ({
            let donor = before.backends[plan.src.0 as int];
            let w = after.backends[plan.src.0 as int]@.filler;
            let left = idle_bytes(w, w.opened);
            &&& left + moved.bytes == donor_free
            &&& left > donor_free - plan.bytes - HUGEPAGE_SIZE
            &&& moved.bytes < plan.bytes + HUGEPAGE_SIZE
            &&& willing(donor) ==> moved.bytes >= plan.bytes
            &&& moved.src == plan.src
            &&& moved.dst == plan.dst
        }),
{
    let src = plan.src.0 as int;
    let donor = before.backends[src];
    let v = donor@.filler;
    let w = after.backends[src]@.filler;
    let keep = donor_free - plan.bytes;
    let reserve = keep / (HUGEPAGE_SIZE as int);
    donor.lemma_wf();
    lemma_idle(v, v.opened);
    lemma_idle(w, w.opened);
    lemma_whole(v, v.opened);
    lemma_kept(donor, after.backends[src], reserve, moved.bytes as int, v.opened);
    let had = idle_hugepages(v, v.opened);
    assert(reserve <= had);
}

/// A backend gives up what the plan asks for: with at least that much idle, in whole hugepages,
/// less than that and a hugepage more is returned; and a provider that takes back what it is
/// offered gets no less than what was asked for.
pub proof fn law_planned_release_is_carried_out<P: TopoBackingProvider>(
    before: HugePageBackend<P>,
    after: HugePageBackend<P>,
    asked: int,
    bytes: int,
)
    requires
        before.wf(),
        !before@.released,
        before.gives_up(after, asked, bytes),
        0 < asked <= idle_bytes(before@.filler, before@.filler.opened),
        idle_whole(before@.filler),
    ensures
        bytes < asked + HUGEPAGE_SIZE,
        willing(before) ==> bytes >= asked,
        bytes == idle_bytes(before@.filler, before@.filler.opened) - idle_bytes(
            after@.filler,
            after@.filler.opened,
        ),
{
    let v = before@.filler;
    let w = after@.filler;
    before.lemma_wf();
    lemma_idle(v, v.opened);
    lemma_idle(w, w.opened);
    lemma_whole(v, v.opened);
    let had = idle_hugepages(v, v.opened);
    let n = crate::overflow::ceil_div(asked, HUGEPAGE_SIZE as int);
    assert(n * HUGEPAGE_SIZE >= asked > (n - 1) * HUGEPAGE_SIZE);
    assert(n <= had);
    lemma_kept(before, after, had - n, bytes, v.opened);
}

/// A move of any size leaves a node no fewer idle hugepages than lie in what it keeps, or all
/// that it had; touches no live memory; and changes no other node.
pub proof fn law_move_spares_the_other_nodes<P: TopoBackingProvider>(
    before: RouterView<P>,
    after: RouterView<P>,
    plan: RebalanceMove,
    donor_free: u64,
    moved: RebalanceMove,
    i: int,
)
    requires
        before.moves(after, plan, donor_free, moved),
        before.nodes <= before.backends.len(),
        0 <= i < before.backends.len(),
        before.backends[i].wf(),
    ensures
        i != plan.src.0 || i >= before.nodes ==> after.backends[i] == before.backends[i],
        i == plan.src.0 && i < before.nodes ==> ({
            let v = before.backends[i]@.filler;
            let w = after.backends[i]@.filler;
            let keep = if donor_free >= plan.bytes {
                donor_free - plan.bytes
            } else {
                0
            };
            (idle_hugepages(w, w.opened) + 1) * HUGEPAGE_SIZE > keep || idle_hugepages(w, w.opened)
                >= idle_hugepages(v, v.opened)
        }),
        plan.src.0 >= before.nodes ==> moved.bytes == 0,
        after.stats.rebalance_moves == before.stats.rebalance_moves.wrapping_add(1),
        after.stats.rebalance_released_bytes == before.stats.rebalance_released_bytes.wrapping_add(
            moved.bytes,
        ),
{
    if i == plan.src.0 && i < before.nodes {
        let keep = if donor_free > plan.bytes {
            donor_free - plan.bytes
        } else {
            0
        };
        law_release_keeps_the_reserve(
            before.backends[i],
            after.backends[i],
            keep / (HUGEPAGE_SIZE as int),
            moved.bytes as int,
        );
    }
}

/// A tick of the rebalancer moves what was planned on what was sampled: the donor's idle memory is
/// what the sample says, and the move leaves the rest of it.
pub proof fn law_rebalance_leaves_the_rest<P: TopoBackingProvider>(
    before: RouterView<P>,
    after: RouterView<P>,
    pressures: Seq<NodePressure>,
    plan: RebalanceMove,
    moved: RebalanceMove,
)
    requires
        before.pressures(pressures),
        node_router::rebalanced(before, after, pressures, Some(plan), Some(moved)),
        0 <= plan.src.0 < before.nodes <= before.backends.len(),
        before.backends[plan.src.0 as int].wf(),
        !before.backends[plan.src.0 as int]@.released,
        idle_whole(before.backends[plan.src.0 as int]@.filler),
        plan.bytes <= pressures[plan.src.0 as int].free_bytes,
    ensures
        ({
            let v = before.backends[plan.src.0 as int]@.filler;
            let w = after.backends[plan.src.0 as int]@.filler;
            &&& idle_bytes(w, w.opened) + moved.bytes == idle_bytes(v, v.opened)
            &&& idle_bytes(w, w.opened) > idle_bytes(v, v.opened) - plan.bytes - HUGEPAGE_SIZE
            &&& moved.bytes < plan.bytes + HUGEPAGE_SIZE
            &&& willing(before.backends[plan.src.0 as int]) ==> moved.bytes >= plan.bytes
        }),
{
    let src = plan.src.0 as int;
    let v = before.backends[src]@.filler;
    before.backends[src].lemma_wf();
    lemma_idle(v, v.opened);
    assert(pressures[src].free_bytes == v.total(Metric::EmptyBacked));
    law_move_leaves_the_rest(before.sampled(), after, plan, pressures[src].free_bytes, moved);
}

/// What a node has to offer is its idle memory, and what it lacks a hugepage for each request
/// that it could not serve: a request that its node declined adds one to the demand of that node,
/// and any other to none. One that was served elsewhere counts as spilled.
pub proof fn law_declined_requests_are_demand<P: TopoBackingProvider>(
    before: RouterView<P>,
    after: RouterView<P>,
    from: Option<int>,
    order: Seq<usize>,
    k: int,
    bytes: usize,
    align: usize,
    hints: Hints,
    res: Option<Region>,
    s: Seq<NodePressure>,
    t: Seq<NodePressure>,
    node: int,
)
    requires
        before.routed(after, from, order, k, bytes, align, hints, res),
        before.failures.len() == before.nodes,
        before.pressures(s),
        after.pressures(t),
        0 <= node < before.nodes <= before.backends.len(),
        from matches Some(n) ==> 0 <= n < before.nodes,
        (before.failures[node] + 1) * HUGEPAGE_SIZE <= u64::MAX,
        before.backends[node].wf(),
    ensures
        s[node].demand_bytes == before.failures[node] * HUGEPAGE_SIZE,
        t[node].demand_bytes == s[node].demand_bytes + (if from == Some(node) && k > 0 {
            HUGEPAGE_SIZE as int
        } else {
            0
        }),
        s[node].free_bytes == idle_bytes(
            before.backends[node]@.filler,
            before.backends[node]@.filler.opened,
        ),
        before.stats.spillovers < u64::MAX ==> after.stats.spillovers == before.stats.spillovers + (
        if k > 0 && res is Some {
            1int
        } else {
            0
        }),
{
    let v = before.backends[node]@.filler;
    before.backends[node].lemma_wf();
    lemma_idle(v, v.opened);
    let a = s[node];
    let b = t[node];
    let f = before.failures[node] as int;
    assert((f + 1) * HUGEPAGE_SIZE == f * HUGEPAGE_SIZE + HUGEPAGE_SIZE) by (nonlinear_arith);
    assert(f < u64::MAX) by (nonlinear_arith)
        requires
            (f + 1) * HUGEPAGE_SIZE <= u64::MAX,
            HUGEPAGE_SIZE == 2_097_152,
    ;
    assert(before.failures[node].wrapping_add(1) == f + 1);
    assert(a.demand_bytes == node_router::lesser(
        before.failures[node] * HUGEPAGE_SIZE,
        u64::MAX as int,
    ));
    assert(b.demand_bytes == node_router::lesser(
        after.failures[node] * HUGEPAGE_SIZE,
        u64::MAX as int,
    ));
}

/// Once sampled, nothing that was declined before is counted again.
pub proof fn law_sampling_starts_anew<P: TopoBackingProvider>(
    v: RouterView<P>,
    s: Seq<NodePressure>,
    node: int,
)
    requires
        v.failures.len() == v.nodes,
        v.sampled().pressures(s),
        0 <= node < v.nodes,
    ensures
        s[node].demand_bytes == 0,
        v.sampled().backends == v.backends,
{
}

/// A request names its node: a bound one the node that it is bound to, if there is such a node; a
/// local one that of the running core, if the router has it; and one that leaves placement to the
/// first touch names none.
pub proof fn law_policy_names_its_node<P: TopoBackingProvider>(
    v: RouterView<P>,
    core: CoreId,
    node: NodeId,
)
    requires
        1 <= v.nodes,
    ensures
        node.0 < v.nodes ==> v.target(NumaPolicy::Bind(node), core) == Some(node.0 as int),
        v.topo.node_of(core.0 as int) < v.nodes ==> v.target(NumaPolicy::Local, core) == Some(
            v.topo.node_of(core.0 as int) as int,
        ),
        v.target(NumaPolicy::OsDefault, core) is None,
        v.target(NumaPolicy::ArenaPolicy, core) is None,
{
}

/// A request for a node is served by that node, or by the nearest that has room: every node that
/// is nearer than the one that served it declined, the node itself first of all, and the unbound
/// memory comes last.
pub proof fn law_nearest_node_serves<P: TopoBackingProvider>(
    before: RouterView<P>,
    after: RouterView<P>,
    from: int,
    order: Seq<usize>,
    k: int,
    bytes: usize,
    align: usize,
    hints: Hints,
    region: Region,
    i: int,
)
    requires
        before.routed(after, Some(from), order, k, bytes, align, hints, Some(region)),
        0 <= from < before.nodes < usize::MAX,
        0 <= i < before.nodes,
        i != order[k],
        i == from || order[k] == before.nodes || (order[k] != from && before.topo.distance(
            from as u32,
            i as u32,
        ) < before.topo.distance(from as u32, order[k] as u32)),
    ensures
        before.backends[i].allocates(
            after.backends[i],
            bytes,
            align,
            huge_backend::place_hints(hints),
            None,
        ),
        order[k] <= before.nodes,
{
    let others = choose|others: Seq<usize>|
        {
            &&& #[trigger] node_router::nearest_first(before.topo, before.nodes, from, others)
            &&& order == seq![from as usize] + others + (if before.nodes > 1 {
                seq![before.nodes as usize]
            } else {
                Seq::empty()
            })
        };
    if k >= 1 && k < 1 + others.len() {
        assert(others.contains(others[k - 1]));
    }
    if i == from {
        assert(order[0] == i);
        assert(k > 0);
    } else {
        assert(node_router::spills_to(before.nodes, from, (i as usize) as int));
        assert(others.contains(i as usize));
        let a = others.index_of(i as usize);
        assert(order[a + 1] == i);
        if k == 0 {
            assert(order[k] == from);
        } else if k < 1 + others.len() {
            assert(order[k] == others[k - 1]);
            if a > k - 1 {
                assert(node_router::spills_before(
                    before.topo,
                    from,
                    others[k - 1] as int,
                    others[a] as int,
                ));
            }
            assert(a + 1 < k);
        }
    }
    let a = choose|a: int| #![trigger order[a]] 0 <= a < k && order[a] == i;
    assert(order[a] == i);
}

/// A request without a node asks the unbound memory first.
pub proof fn law_unbound_memory_serves_first_touch<P: TopoBackingProvider>(
    before: RouterView<P>,
    after: RouterView<P>,
    order: Seq<usize>,
    k: int,
    bytes: usize,
    align: usize,
    hints: Hints,
    region: Region,
)
    requires
        before.routed(after, None, order, k, bytes, align, hints, Some(region)),
        before.nodes > 1,
        order[k] != before.nodes,
    ensures
        before.backends[before.nodes].allocates(
            after.backends[before.nodes],
            bytes,
            align,
            huge_backend::place_hints(hints),
            None,
        ),
        after.failures == before.failures,
{
    assert(order[0] == before.nodes);
}

/// The first backend that did not give its reservation back well is the one that is heard of; when
/// all did, all is well.
pub proof fn law_first_failure_is_heard_of(answers: Seq<Result<(), BackendError>>, i: int)
    requires
        0 <= i < answers.len(),
        forall|j: int| #![trigger answers[j]] 0 <= j < i ==> answers[j] is Ok,
    ensures
        answers[i] is Err ==> node_router::first_error(answers) == answers[i],
        node_router::first_error(answers) is Ok ==> answers[i] is Ok,
    decreases answers.len(),
{
    let before = answers.drop_last();
    if i < before.len() {
        assert(before[i] == answers[i]);
        assert forall|j: int| #![trigger before[j]] 0 <= j < i implies before[j] is Ok by {
            assert(before[j] == answers[j]);
        }
        law_first_failure_is_heard_of(before, i);
    } else {
        lemma_no_error(before);
    }
}

proof fn lemma_no_error(answers: Seq<Result<(), BackendError>>)
    requires
        forall|j: int| #![trigger answers[j]] 0 <= j < answers.len() ==> answers[j] is Ok,
    ensures
        node_router::first_error(answers) is Ok,
    decreases answers.len(),
{
    if answers.len() > 0 {
        let before = answers.drop_last();
        assert forall|j: int| #![trigger before[j]] 0 <= j < before.len() implies before[j] is Ok by {
            assert(before[j] == answers[j]);
        }
        lemma_no_error(before);
    }
}

} // verus!
