//! A snapshot of the machine: which processor is on which node, and how far apart nodes are.
use vstd::prelude::*;
use crate::ids::NodeId;

verus! {

/// The most nodes there can be.
pub const MAX_NODES: usize = 8;

/// The distance of a node to itself.
pub const DISTANCE_LOCAL: u8 = 10;

/// The distance between two nodes when nothing is known of it.
pub const DISTANCE_REMOTE: u8 = 20;

/// What a node has and what it lacks.
#[derive(Clone, Copy, PartialEq, Eq, Debug, Structural)]
pub struct NodePressure {
    /// Bytes that could be given back.
    pub free_bytes: u64,
    /// Bytes that could not be had.
    pub demand_bytes: u64,
}

/// A move of memory from a node that has it idle to one that lacks it.
#[derive(Clone, Copy, PartialEq, Eq, Debug, Structural)]
pub struct RebalanceMove {
    /// The node that has it.
    pub src: NodeId,
    /// The node that lacks it.
    pub dst: NodeId,
    /// How much.
    pub bytes: u64,
}

/// A snapshot, mathematically.
#[verifier::ext_equal]
pub struct TopologyView {
    /// The nodes.
    pub nodes: int,
    /// Where each processor is: its node and its last-level cache.
    pub cpus: Seq<(u32, u32)>,
    /// The name that the operating system has for each node.
    pub os_nodes: Seq<u32>,
    /// The distances that are known: from, to, distance; the latest last.
    pub distances: Seq<(u32, u32, u8)>,
}

/// The distance from `a` to `b` that was set last, if any.
pub open spec fn known_distance(s: Seq<(u32, u32, u8)>, a: u32, b: u32) -> Option<u8>
    decreases s.len(),
{
    if s.len() == 0 {
        None
    } else if s.last().0 == a && s.last().1 == b {
        Some(s.last().2)
    } else {
        known_distance(s.drop_last(), a, b)
    }
}

impl TopologyView {
    /// The node of a processor; node 0 when it is not known.
    pub open spec fn node_of(self, cpu: int) -> u32 {
        if 0 <= cpu < self.cpus.len() {
            self.cpus[cpu].0
        } else {
            0
        }
    }

    /// The distance from node `a` to node `b`.
    pub open spec fn distance(self, a: u32, b: u32) -> u8 {
        match known_distance(self.distances, a, b) {
            Some(d) => d,
            None => if a == b {
                DISTANCE_LOCAL
            } else {
                DISTANCE_REMOTE
            },
        }
    }

    /// The name that the operating system has for a node; its own number when it is not known.
    pub open spec fn os_name(self, node: u32) -> u32 {
        if node < self.os_nodes.len() {
            self.os_nodes[node as int]
        } else {
            node
        }
    }
}

/// A snapshot.
pub struct Topology {
    nodes: u32,
    cpus: Vec<(u32, u32)>,
    os_nodes: Vec<u32>,
    distances: Vec<(u32, u32, u8)>,
}

impl View for Topology {
    type V = TopologyView;

    closed spec fn view(&self) -> TopologyView {
        TopologyView {
            nodes: self.nodes as int,
            cpus: self.cpus@,
            os_nodes: self.os_nodes@,
            distances: self.distances@,
        }
    }
}

impl Topology {
    /// One node with `cpus` processors.
    pub fn single_domain(cpus: u32) -> (res: Topology)
        ensures
            res@ == (TopologyView {
                nodes: 1,
                cpus: Seq::new(cpus as nat, |i: int| (0u32, 0u32)),
                os_nodes: Seq::empty(),
                distances: Seq::empty(),
            }),
    {
        let mut of: Vec<(u32, u32)> = Vec::new();
        let mut n: u32 = 0;
        while n < cpus
            invariant
                n <= cpus,
                of@ == Seq::new(n as nat, |i: int| (0u32, 0u32)),
            decreases cpus - n,
        {
            of.push((0, 0));
            n = n + 1;
            proof {
                assert(of@ =~= Seq::new(n as nat, |i: int| (0u32, 0u32)));
            }
        }
        Topology { nodes: 1, cpus: of, os_nodes: Vec::new(), distances: Vec::new() }
    }

    /// The nodes.
    pub fn node_count(&self) -> (res: u32)
        ensures
            res == self@.nodes,
    {
        self.nodes
    }

    /// The node of a processor; node 0 when it is not known.
    pub fn node_of_cpu(&self, cpu: u32) -> (res: NodeId)
        ensures
            res == NodeId(self@.node_of(cpu as int)),
    {
        if (cpu as usize) < self.cpus.len() {
            NodeId(self.cpus[cpu as usize].0)
        } else {
            NodeId(0)
        }
    }

    /// The name that the operating system has for a node.
    pub fn os_node_of(&self, node: NodeId) -> (res: u32)
        ensures
            res == self@.os_name(node.0),
    {
        if (node.0 as usize) < self.os_nodes.len() {
            self.os_nodes[node.0 as usize]
        } else {
            node.0
        }
    }

    /// The distance between two nodes.
    pub fn distance(&self, a: NodeId, b: NodeId) -> (res: u8)
        ensures
            res == self@.distance(a.0, b.0),
    {
        let ghost s = self.distances@;
        let mut i: usize = self.distances.len();
        proof {
            assert(s.take(i as int) =~= s);
        }
        while i > 0
            invariant
                i <= s.len(),
                s == self.distances@,
                known_distance(s.take(i as int), a.0, b.0) == known_distance(s, a.0, b.0),
            decreases i,
        {
            i = i - 1;
            proof {
                assert(s.take(i + 1).drop_last() =~= s.take(i as int));
            }
            let (from, to, d) = self.distances[i];
            if from == a.0 && to == b.0 {
                return d;
            }
        }
        if a.0 == b.0 {
            DISTANCE_LOCAL
        } else {
            DISTANCE_REMOTE
        }
    }

    /// Whether the snapshot has a processor on another node than where it was seen.
    pub fn detect_mismatch(&self, cpu: u32, observed: NodeId) -> (res: bool)
        ensures
            res == (self@.node_of(cpu as int) != observed.0),
    {
        self.node_of_cpu(cpu).0 != observed.0
    }
}

/// Builds a snapshot.
pub struct TopologyBuilder {
    topo: Topology,
}

impl View for TopologyBuilder {
    type V = TopologyView;

    closed spec fn view(&self) -> TopologyView {
        self.topo@
    }
}

/// Processors up to `n`, those that are new on node 0 behind cache 0.
pub open spec fn extended(s: Seq<(u32, u32)>, n: int) -> Seq<(u32, u32)> {
    if n <= s.len() {
        s
    } else {
        s + Seq::new((n - s.len()) as nat, |i: int| (0u32, 0u32))
    }
}

impl TopologyBuilder {
    /// A snapshot of `nodes` nodes with no processors.
    pub fn new(nodes: u32) -> (res: TopologyBuilder)
        ensures
            res@ == (TopologyView {
                nodes: nodes as int,
                cpus: Seq::empty(),
                os_nodes: Seq::empty(),
                distances: Seq::empty(),
            }),
    {
        TopologyBuilder {
            topo: Topology {
                nodes,
                cpus: Vec::new(),
                os_nodes: Vec::new(),
                distances: Vec::new(),
            },
        }
    }

    /// Put a processor on a node, behind a last-level cache.
    pub fn set_cpu(&mut self, cpu: u32, node: u32, llc: u32)
        ensures
            final(self)@ == (TopologyView {
                cpus: extended(old(self)@.cpus, cpu + 1).update(cpu as int, (node, llc)),
                ..old(self)@
            }),
    {
        let ghost s = self.topo.cpus@;
        proof {
            assert(extended(s, s.len() as int) =~= s);
        }
        while self.topo.cpus.len() <= cpu as usize
            invariant
                s == old(self)@.cpus,
                self@ == (TopologyView { cpus: self.topo.cpus@, ..old(self)@ }),
                self.topo.cpus@ == extended(s, self.topo.cpus@.len() as int),
                self.topo.cpus@.len() <= cpu + 1 || self.topo.cpus@.len() == s.len(),
            decreases cpu + 1 - self.topo.cpus@.len(),
        {
            self.topo.cpus.push((0, 0));
            proof {
                assert(self.topo.cpus@ =~= extended(s, self.topo.cpus@.len() as int));
            }
        }
        proof {
            if s.len() > cpu {
                assert(extended(s, cpu + 1) =~= s);
            }
            assert(self.topo.cpus@ =~= extended(s, cpu + 1));
        }
        self.topo.cpus.set(cpu as usize, (node, llc));
    }

    /// Set the distance from one node to another.
    pub fn set_distance(&mut self, a: u32, b: u32, d: u8)
        ensures
            final(self)@ == (TopologyView {
                distances: old(self)@.distances.push((a, b, d)),
                ..old(self)@
            }),
    {
        self.topo.distances.push((a, b, d));
    }

    /// The snapshot.
    pub fn build(self) -> (res: Topology)
        ensures
            res@ == self@,
    {
        self.topo
    }
}

/// The distance that was set last counts, and it counts for that pair of nodes and that direction
/// only; a pair that was never set is near when it is one node, and far otherwise.
pub proof fn law_last_distance_counts(v: TopologyView, a: u32, b: u32, d: u8, x: u32, y: u32)
    ensures
        ({
            let w = TopologyView { distances: v.distances.push((a, b, d)), ..v };
            &&& w.distance(a, b) == d
            &&& (x, y) != (a, b) ==> w.distance(x, y) == v.distance(x, y)
            &&& w.node_of(x as int) == v.node_of(x as int)
        }),
        ({
            let w = TopologyView { distances: Seq::empty(), ..v };
            w.distance(x, y) == (if x == y {
                10u8
            } else {
                20u8
            })
        }),
{
    assert(v.distances.push((a, b, d)).drop_last() =~= v.distances);
}

/// A processor is on the node that it was put on, and the others are where they were; one that
/// was never put anywhere is on the first node.
pub proof fn law_processor_is_where_it_was_put(
    v: TopologyView,
    cpu: u32,
    node: u32,
    llc: u32,
    other: u32,
)
    ensures
        ({
            let w = TopologyView {
                cpus: extended(v.cpus, cpu + 1).update(cpu as int, (node, llc)),
                ..v
            };
            &&& w.node_of(cpu as int) == node
            &&& other != cpu ==> w.node_of(other as int) == v.node_of(other as int)
        }),
        v.cpus.len() <= other ==> v.node_of(other as int) == 0,
{
}

} // verus!
