//! The page map: from every page of the address space to the descriptor that owns it, as a tree
//! of fixed fan-out that is filled as it is touched.
use vstd::prelude::*;
use crate::bitmap::PAGE_SIZE;
use crate::bootstrap::BumpArena;
use crate::overflow;
use crate::span::{LargeDescriptor, LargeRef, SpanDescriptor, SpanRef};

verus! {

/// The binary logarithm of the page size.
pub const PAGE_SHIFT: u32 = 14;

/// The bits of a page number.
pub const PAGENO_BITS: u32 = 50;

/// The bits of a page number that one level of the tree resolves.
pub const RADIX_BITS: u32 = 10;

/// The levels of the tree.
pub const LEVELS: u32 = 5;

/// The slots of a node.
pub const SLOTS: usize = 1024;

/// The metadata bytes of a node.
pub const NODE_BYTES: usize = 8192;

/// The number of pages of the address space.
pub const PAGE_LIMIT: u64 = 0x4_0000_0000_0000;

/// What owns a page.
#[derive(Clone, Copy, PartialEq, Eq, Debug, Structural)]
pub enum PageEntry {
    /// Nothing.
    Empty,
    /// A span.
    Small(SpanRef),
    /// A large allocation.
    Large(LargeRef),
    /// A span whose backing was given back.
    Released(SpanRef),
}

impl PageEntry {
    /// The address in the entry is that of a descriptor: a multiple of 8.
    pub open spec fn aligned(self) -> bool {
        match self {
            PageEntry::Empty => true,
            PageEntry::Small(r) => r.0 % 8 == 0,
            PageEntry::Large(r) => r.0 % 8 == 0,
            PageEntry::Released(r) => r.0 % 8 == 0,
        }
    }

    /// The word that an entry is kept as: the address, with the kind in its low bits.
    pub open spec fn word(self) -> int {
        match self {
            PageEntry::Empty => 0,
            PageEntry::Small(r) => r.0 + 1,
            PageEntry::Large(r) => r.0 + 2,
            PageEntry::Released(r) => r.0 + 3,
        }
    }

    /// The entry that is kept as `bits`; nothing for a word of no kind.
    pub open spec fn of_word(bits: usize) -> PageEntry {
        let addr = (bits - bits % 8) as usize;
        if bits % 8 == 1 {
            PageEntry::Small(SpanRef(addr))
        } else if bits % 8 == 2 {
            PageEntry::Large(LargeRef(addr))
        } else if bits % 8 == 3 {
            PageEntry::Released(SpanRef(addr))
        } else {
            PageEntry::Empty
        }
    }

    /// Whether nothing owns the page.
    pub fn is_empty(&self) -> (res: bool)
        ensures
            res == (*self == PageEntry::Empty),
    {
        match self {
            PageEntry::Empty => true,
            _ => false,
        }
    }

    /// The span that owns the page, or owned it before its backing was given back.
    pub fn span_ptr(&self) -> (res: Option<SpanRef>)
        ensures
            res == (match *self {
                PageEntry::Small(r) => Some(r),
                PageEntry::Released(r) => Some(r),
                _ => None,
            }),
    {
        match *self {
            PageEntry::Small(r) => Some(r),
            PageEntry::Released(r) => Some(r),
            _ => None,
        }
    }

    /// The large allocation that owns the page.
    pub fn large_ptr(&self) -> (res: Option<LargeRef>)
        ensures
            res == (match *self {
                PageEntry::Large(r) => Some(r),
                _ => None,
            }),
    {
        match *self {
            PageEntry::Large(r) => Some(r),
            _ => None,
        }
    }

    /// The word that the entry is kept as.
    pub fn encode(self) -> (res: usize)
        requires
            self.aligned(),
        ensures
            res == self.word(),
            PageEntry::of_word(res) == self,
    {
        match self {
            PageEntry::Empty => 0,
            PageEntry::Small(r) => r.0 + 1,
            PageEntry::Large(r) => r.0 + 2,
            PageEntry::Released(r) => r.0 + 3,
        }
    }

    /// The entry that is kept as `bits`.
    pub fn decode(bits: usize) -> (res: PageEntry)
        ensures
            res == PageEntry::of_word(bits),
    {
        let tag: usize = bits % 8;
        let addr: usize = bits - tag;
        if tag == 1 {
            PageEntry::Small(SpanRef(addr))
        } else if tag == 2 {
            PageEntry::Large(LargeRef(addr))
        } else if tag == 3 {
            PageEntry::Released(SpanRef(addr))
        } else {
            PageEntry::Empty
        }
    }
}

/// Why the page map could not be changed.
#[derive(Clone, Copy, PartialEq, Eq, Debug, Structural)]
pub enum PagemapError {
    /// There is no metadata for another node.
    OutOfMetadata,
}

/// The page of an address.
pub open spec fn page_no(addr: int) -> int {
    addr / (PAGE_SIZE as int)
}

/// The page of an address.
pub fn page_of(addr: usize) -> (res: usize)
    ensures
        res == page_no(addr as int),
        res < PAGE_LIMIT,
{
    addr / PAGE_SIZE
}

/// The page after the last one of `[base, stop)`.
pub open spec fn page_end(base: int, stop: int) -> int {
    if stop <= base {
        page_no(base)
    } else {
        page_no(stop - 1) + 1
    }
}

/// The pages that `[base, stop)` touches: the first, and the one after the last.
pub fn page_range(base: usize, stop: usize) -> (res: (usize, usize))
    ensures
        res.0 == page_no(base as int),
        res.1 == page_end(base as int, stop as int),
        res.0 <= res.1 <= PAGE_LIMIT,
{
    if stop <= base {
        (page_of(base), page_of(base))
    } else {
        (page_of(base), page_of(stop - 1) + 1)
    }
}

/// The page number `p` without its lowest `k` digits.
pub open spec fn shifted(p: int, k: int) -> int
    decreases k,
{
    if k <= 0 {
        p
    } else {
        shifted(p, k - 1) / (SLOTS as int)
    }
}

/// The digit of the page number `p` that level `k` of the tree resolves.
pub open spec fn digit(p: int, k: int) -> int {
    shifted(p, k) % (SLOTS as int)
}

/// The digit of the page number `p` that level `k` of the tree resolves.
pub fn level_index(p: usize, k: u32) -> (res: usize)
    ensures
        res == digit(p as int, k as int),
        res < SLOTS,
{
    let mut q: usize = p;
    let mut i: u32 = 0;
    while i < k
        invariant
            i <= k,
            q == shifted(p as int, i as int),
        decreases k - i,
    {
        q = q / SLOTS;
        i = i + 1;
    }
    q % SLOTS
}

/// A page number is its digits: different pages take different paths in the tree.
pub proof fn law_digits_determine_the_page(p: int, q: int)
    requires
        0 <= p < PAGE_LIMIT,
        0 <= q < PAGE_LIMIT,
        forall|k: int| 0 <= k < LEVELS ==> #[trigger] digit(p, k) == digit(q, k),
    ensures
        p == q,
{
    assert(digit(p, 0) == digit(q, 0));
    assert(digit(p, 1) == digit(q, 1));
    assert(digit(p, 2) == digit(q, 2));
    assert(digit(p, 3) == digit(q, 3));
    assert(digit(p, 4) == digit(q, 4));
    reveal_with_fuel(shifted, 6);
    lemma_root_prefix(p);
    lemma_root_prefix(q);
}

/// No page number has more digits than the tree has levels.
proof fn lemma_root_prefix(p: int)
    requires
        0 <= p < PAGE_LIMIT,
    ensures
        shifted(p, LEVELS as int) == 0,
{
    reveal_with_fuel(shifted, 6);
}

/// A child of a node, or nothing, as nodes keep it: its number plus 1, or 0.
spec fn child(nodes: Seq<Vec<usize>>, at: int, slot: int) -> int {
    nodes[at]@[slot] - 1
}

/// The leaf for page `p` below node `at` of level `k`, or -1.
spec fn leaf_below(nodes: Seq<Vec<usize>>, at: int, k: int, p: int) -> int
    decreases k,
{
    if k <= 0 {
        at
    } else {
        let c = child(nodes, at, digit(p, k));
        if c < 0 {
            -1
        } else {
            leaf_below(nodes, c, k - 1, p)
        }
    }
}

/// The leaf for page `p`, or -1.
spec fn leaf_for(nodes: Seq<Vec<usize>>, root: int, p: int) -> int {
    if root < 0 {
        -1
    } else {
        leaf_below(nodes, root, LEVELS - 1, p)
    }
}

/// The word for page `p`.
spec fn word_for(nodes: Seq<Vec<usize>>, root: int, p: int) -> usize {
    let f = leaf_for(nodes, root, p);
    if f < 0 {
        0
    } else {
        nodes[f]@[digit(p, 0)]
    }
}

/// Where a node stands in the tree: its level, and the page number of its pages without the
/// digits that are resolved at and below it.
pub struct Place {
    /// The level: 0 for a leaf.
    pub level: int,
    /// The page number without those digits.
    pub prefix: int,
}

/// Where the node of level `k` on the path to page `p` stands.
pub open spec fn place_of(p: int, k: int) -> Place {
    Place { level: k, prefix: shifted(p, k + 1) }
}

/// A node that stands there is on the path to page `p`.
pub open spec fn leads_to(q: Place, p: int) -> bool {
    0 <= q.level < LEVELS && q == place_of(p, q.level)
}

/// The places on the paths to the pages `[first, end)`.
pub open spec fn paths(first: int, end: int) -> Set<Place> {
    Set::new(|q: Place| exists|p: int| first <= p < end && #[trigger] leads_to(q, p))
}

/// The places above level `k` on the path to page `p`.
pub open spec fn upper(p: int, k: int) -> Set<Place> {
    Set::new(|q: Place| leads_to(q, p) && q.level > k)
}

/// The path to page `p` was followed, and what was missing on it made, down to level `k`, where
/// a node is still missing.
pub open spec fn stops_at(before: Set<Place>, after: Set<Place>, p: int, k: int) -> bool {
    &&& 0 <= k < LEVELS
    &&& after == before.union(upper(p, k))
    &&& !after.contains(place_of(p, k))
}

/// The places on the paths to the pages `[first, p]` are those to the pages `[first, p)` and those
/// to page `p`.
proof fn lemma_paths_step(first: int, p: int)
    requires
        first <= p,
    ensures
        paths(first, p + 1) == paths(first, p).union(upper(p, -1)),
{
    assert forall|q: Place| #[trigger] paths(first, p + 1).contains(q) <==> paths(
        first,
        p,
    ).contains(q) || upper(p, -1).contains(q) by {
        if paths(first, p + 1).contains(q) {
            let x = choose|x: int| first <= x < p + 1 && #[trigger] leads_to(q, x);
            if x < p {
                assert(paths(first, p).contains(q));
            }
        }
        if upper(p, -1).contains(q) {
            assert(leads_to(q, p));
        }
    }
    assert(paths(first, p + 1) =~= paths(first, p).union(upper(p, -1)));
}

/// One level more of the path to a page is one place more.
proof fn lemma_upper_step(p: int, k: int)
    requires
        0 <= k < LEVELS,
    ensures
        upper(p, k - 1) == upper(p, k).insert(place_of(p, k)),
{
    assert(upper(p, k - 1) =~= upper(p, k).insert(place_of(p, k)));
}

/// The child in slot `s` of node `i` stands one level below it, for that digit.
spec fn child_ok(nodes: Seq<Vec<usize>>, places: Seq<Place>, i: int, s: int) -> bool {
    let c = child(nodes, i, s);
    places[i].level > 0 && c >= 0 ==> {
        &&& c < nodes.len()
        &&& places[c].level == places[i].level - 1
        &&& places[c].prefix == places[i].prefix * SLOTS + s
    }
}

/// The nodes are a tree.
spec fn tree(nodes: Seq<Vec<usize>>, places: Seq<Place>, root: int) -> bool {
    &&& nodes.len() == places.len()
    &&& forall|i: int|
        #![trigger nodes[i]]
        0 <= i < nodes.len() ==> nodes[i]@.len() == SLOTS && places[i].level >= 0
    &&& forall|i: int, s: int|
        0 <= i < nodes.len() && 0 <= s < SLOTS ==> #[trigger] child_ok(nodes, places, i, s)
    &&& root < nodes.len()
    &&& root >= 0 ==> places[root].level == LEVELS - 1 && places[root].prefix == 0
    &&& root < 0 ==> nodes.len() == 0
    &&& places.no_duplicates()
    &&& forall|i: int| 0 <= i < nodes.len() && i != root ==> #[trigger] linked(nodes, places, i)
}

/// Node `i` is the child of a node.
spec fn linked(nodes: Seq<Vec<usize>>, places: Seq<Place>, i: int) -> bool {
    exists|j: int, s: int|
        {
            &&& 0 <= j < nodes.len()
            &&& 0 <= s < SLOTS
            &&& places[j].level > 0
            &&& #[trigger] child(nodes, j, s) == i
        }
}

/// Where a child is missing, no node stands in its place.
proof fn lemma_missing(nodes: Seq<Vec<usize>>, places: Seq<Place>, root: int, at: int, slot: int)
    requires
        tree(nodes, places, root),
        root >= 0,
        0 <= at < nodes.len(),
        0 <= slot < SLOTS,
        places[at].level > 0,
        child(nodes, at, slot) < 0,
        places[at].level < LEVELS,
    ensures
        !places.contains(
            Place { level: places[at].level - 1, prefix: places[at].prefix * SLOTS + slot },
        ),
{
    let place = Place { level: places[at].level - 1, prefix: places[at].prefix * SLOTS + slot };
    if places.contains(place) {
        let i = choose|i: int| 0 <= i < places.len() && places[i] == place;
        assert(nodes[i]@.len() == SLOTS);
        assert(i != root);
        assert(linked(nodes, places, i));
        let (j, s) = choose|j: int, s: int|
            {
                &&& 0 <= j < nodes.len()
                &&& 0 <= s < SLOTS
                &&& places[j].level > 0
                &&& #[trigger] child(nodes, j, s) == i
            };
        assert(child_ok(nodes, places, j, s));
        assert(places[j].prefix == places[at].prefix && s == slot);
        assert(places[j] == places[at]);
        assert(j == at);
    }
}

/// Node `at` is on the path to page `p`, at level `k`.
spec fn on_path(places: Seq<Place>, at: int, k: int, p: int) -> bool {
    &&& 0 <= at < places.len()
    &&& places[at].level == k
    &&& places[at].prefix == shifted(p, k + 1)
}

/// The path from a node on it goes on one level down.
proof fn lemma_step(nodes: Seq<Vec<usize>>, places: Seq<Place>, root: int, at: int, k: int, p: int)
    requires
        tree(nodes, places, root),
        0 < k,
        on_path(places, at, k, p),
        child(nodes, at, digit(p, k)) >= 0,
    ensures
        on_path(places, child(nodes, at, digit(p, k)), k - 1, p),
{
    assert(child_ok(nodes, places, at, digit(p, k)));
    assert(shifted(p, k + 1) == shifted(p, k) / (SLOTS as int));
}

/// A leaf that is found is a leaf, and on the path.
proof fn lemma_leaf(nodes: Seq<Vec<usize>>, places: Seq<Place>, root: int, at: int, k: int, p: int)
    requires
        tree(nodes, places, root),
        0 <= k,
        on_path(places, at, k, p),
        leaf_below(nodes, at, k, p) != -1,
    ensures
        on_path(places, leaf_below(nodes, at, k, p), 0, p),
    decreases k,
{
    if k > 0 {
        lemma_step(nodes, places, root, at, k, p);
        lemma_leaf(nodes, places, root, child(nodes, at, digit(p, k)), k - 1, p);
    }
}

/// A leaf that is found from the root is a leaf, and on the path.
proof fn lemma_found(nodes: Seq<Vec<usize>>, places: Seq<Place>, root: int, p: int)
    requires
        tree(nodes, places, root),
        0 <= p < PAGE_LIMIT,
        leaf_for(nodes, root, p) != -1,
    ensures
        on_path(places, leaf_for(nodes, root, p), 0, p),
{
    lemma_root_prefix(p);
    lemma_leaf(nodes, places, root, root, LEVELS - 1, p);
}

/// Changing a word of a leaf changes no path.
proof fn lemma_same_leaf(
    nodes: Seq<Vec<usize>>,
    later: Seq<Vec<usize>>,
    places: Seq<Place>,
    root: int,
    at: int,
    k: int,
    p: int,
)
    requires
        tree(nodes, places, root),
        later.len() == nodes.len(),
        forall|i: int|
            #![trigger later[i]]
            0 <= i < nodes.len() && places[i].level > 0 ==> later[i] == nodes[i],
        0 <= k,
        on_path(places, at, k, p),
    ensures
        leaf_below(later, at, k, p) == leaf_below(nodes, at, k, p),
    decreases k,
{
    if k > 0 {
        assert(later[at] == nodes[at]);
        if child(nodes, at, digit(p, k)) >= 0 {
            lemma_step(nodes, places, root, at, k, p);
            lemma_same_leaf(
                nodes,
                later,
                places,
                root,
                child(nodes, at, digit(p, k)),
                k - 1,
                p,
            );
        }
    }
}

/// Linking a new node changes no path but those that end where it is linked, and lets those end
/// in it when it is a leaf.
proof fn lemma_linked_leaf(
    nodes: Seq<Vec<usize>>,
    later: Seq<Vec<usize>>,
    places: Seq<Place>,
    root: int,
    spot: (int, int),
    at: int,
    k: int,
    p: int,
)
    requires
        tree(nodes, places, root),
        0 <= spot.0 < nodes.len(),
        0 <= spot.1 < SLOTS,
        places[spot.0].level > 0,
        child(nodes, spot.0, spot.1) < 0,
        later.len() == nodes.len() + 1,
        forall|s: int| 0 <= s < SLOTS ==> #[trigger] later[nodes.len() as int]@[s] == 0,
        forall|i: int|
            #![trigger later[i]]
            0 <= i < nodes.len() && i != spot.0 ==> later[i] == nodes[i],
        later[spot.0]@ == nodes[spot.0]@.update(spot.1, (nodes.len() + 1) as usize),
        nodes.len() < usize::MAX,
        0 <= k,
        on_path(places, at, k, p),
    ensures
        ({
            let old_leaf = leaf_below(nodes, at, k, p);
            let new_leaf = leaf_below(later, at, k, p);
            if old_leaf != -1 {
                new_leaf == old_leaf
            } else {
                ||| new_leaf == -1
                ||| {
                    &&& new_leaf == nodes.len()
                    &&& places[spot.0].level == 1
                    &&& shifted(p, 1) == places[spot.0].prefix * SLOTS + spot.1
                }
            }
        }),
    decreases k,
{
    let n = nodes.len() as int;
    if k > 0 {
        let d = digit(p, k);
        let c = child(nodes, at, d);
        assert(shifted(p, k) == shifted(p, k + 1) * SLOTS + d);
        if c >= 0 {
            lemma_step(nodes, places, root, at, k, p);
            if at == spot.0 {
                assert(d != spot.1);
            }
            assert(child(later, at, d) == c);
            lemma_linked_leaf(nodes, later, places, root, spot, c, k - 1, p);
        } else if at == spot.0 && d == spot.1 {
            assert(child(later, at, d) == n);
            if k - 1 > 0 {
                assert(later[n]@[digit(p, k - 1)] == 0);
                assert(leaf_below(later, n, k - 1, p) == -1);
            } else {
                assert(leaf_below(later, n, k - 1, p) == n);
            }
        } else {
            assert(child(later, at, d) == c);
        }
    }
}

/// Pages with the same higher digits share their leaf.
proof fn lemma_same_group(nodes: Seq<Vec<usize>>, at: int, k: int, p: int, q: int)
    requires
        0 <= k,
        shifted(p, 1) == shifted(q, 1),
    ensures
        leaf_below(nodes, at, k, p) == leaf_below(nodes, at, k, q),
    decreases k,
{
    if k > 0 {
        lemma_same_shift(p, q, k);
        let c = child(nodes, at, digit(p, k));
        if c >= 0 {
            lemma_same_group(nodes, c, k - 1, p, q);
        }
    }
}

proof fn lemma_same_shift(p: int, q: int, k: int)
    requires
        1 <= k,
        shifted(p, 1) == shifted(q, 1),
    ensures
        shifted(p, k) == shifted(q, k),
    decreases k,
{
    if k > 1 {
        lemma_same_shift(p, q, k - 1);
    }
}

/// A page map, mathematically.
#[verifier::ext_equal]
pub struct PageMapView {
    /// The owned pages, and what owns them.
    pub owned: Map<int, PageEntry>,
    /// The pages that the tree has a leaf for.
    pub mapped: Set<int>,
    /// The nodes of the tree, by where they stand.
    pub nodes: Set<Place>,
}

/// The page `p` is in the same leaf as one of the pages `[first, end)`.
pub open spec fn near(p: int, first: int, end: int) -> bool {
    &&& 0 <= p < PAGE_LIMIT
    &&& first < end
    &&& first / (SLOTS as int) <= p / (SLOTS as int) <= (end - 1) / (SLOTS as int)
}

impl PageMapView {
    /// What owns page `p`.
    pub open spec fn entry(self, p: int) -> PageEntry {
        if self.owned.contains_key(p) {
            self.owned[p]
        } else {
            PageEntry::Empty
        }
    }

    /// With the pages `[first, end)` owned by `e`.
    pub open spec fn installed(
        self,
        first: int,
        end: int,
        e: PageEntry,
        nodes: Set<Place>,
    ) -> PageMapView {
        PageMapView {
            owned: Map::new(
                |p: int| self.owned.contains_key(p) || first <= p < end,
                |p: int|
                    if first <= p < end {
                        e
                    } else {
                        self.owned[p]
                    },
            ),
            mapped: self.mapped.union(Set::new(|p: int| near(p, first, end))),
            nodes,
        }
    }

    /// With the mapped pages among `[first, end)` owned by `e`, or by nothing when that is
    /// empty.
    pub open spec fn overwritten(self, first: int, end: int, e: PageEntry) -> PageMapView {
        PageMapView {
            owned: Map::new(
                |p: int|
                    if first <= p < end && self.mapped.contains(p) {
                        e != PageEntry::Empty
                    } else {
                        self.owned.contains_key(p)
                    },
                |p: int|
                    if first <= p < end && self.mapped.contains(p) {
                        e
                    } else {
                        self.owned[p]
                    },
            ),
            ..self
        }
    }
}

/// The page map.
pub struct PageMap {
    nodes: Vec<Vec<usize>>,
    root: usize,
    places: Ghost<Seq<Place>>,
}

/// The owned pages of a tree.
spec fn owned_in(nodes: Seq<Vec<usize>>, root: int) -> Map<int, PageEntry> {
    Map::new(
        |p: int|
            0 <= p < PAGE_LIMIT && PageEntry::of_word(word_for(nodes, root, p)) != PageEntry::Empty,
        |p: int| PageEntry::of_word(word_for(nodes, root, p)),
    )
}

/// The pages that a tree has a leaf for.
spec fn mapped_in(nodes: Seq<Vec<usize>>, root: int) -> Set<int> {
    Set::new(|p: int| 0 <= p < PAGE_LIMIT && leaf_for(nodes, root, p) != -1)
}

impl View for PageMap {
    type V = PageMapView;

    closed spec fn view(&self) -> PageMapView {
        PageMapView {
            owned: owned_in(self.nodes@, self.root - 1),
            mapped: mapped_in(self.nodes@, self.root - 1),
            nodes: self.places@.to_set(),
        }
    }
}

/// What creating `made` nodes did to the metadata.
pub open spec fn spent(before: BumpArena, after: BumpArena, made: int) -> bool {
    &&& after.wf()
    &&& after.base() == before.base()
    &&& after.len() == before.len()
    &&& after.next_start(8) == before.next_start(8) + made * NODE_BYTES
    &&& made == 0 ==> after.used() == before.used()
}

/// There is no metadata for another node.
pub open spec fn exhausted(meta: BumpArena) -> bool {
    meta.next_start(8) + NODE_BYTES > meta.base() + meta.len()
}

impl PageMap {
    /// The nodes are a tree.
    pub closed spec fn wf(self) -> bool {
        tree(self.nodes@, self.places@, self.root - 1)
    }

    /// Owned pages are mapped, and there are finitely many nodes.
    pub proof fn lemma_wf(self)
        requires
            self.wf(),
        ensures
            self@.nodes.finite(),
            forall|p: int| #[trigger]
                self@.owned.contains_key(p) ==> self@.mapped.contains(p) && self@.owned[p]
                    != PageEntry::Empty,
    {
        self.lemma_count();
    }

    /// An empty page map.
    pub fn new() -> (res: PageMap)
        ensures
            res.wf(),
            res@ == (PageMapView { owned: Map::empty(), mapped: Set::empty(), nodes: Set::empty() }),
    {
        let pm = PageMap { nodes: Vec::new(), root: 0, places: Ghost(Seq::empty()) };
        proof {
            assert(pm@.owned =~= Map::<int, PageEntry>::empty());
            assert(pm@.mapped =~= Set::<int>::empty());
            assert(pm@.nodes =~= Set::<Place>::empty());
        }
        pm
    }

    /// No two nodes stand in the same place.
    proof fn lemma_count(self)
        requires
            self.wf(),
        ensures
            self@.nodes.finite(),
            self@.nodes.len() == self.nodes@.len(),
    {
        self.places@.unique_seq_to_set();
        vstd::seq_lib::seq_to_set_is_finite(self.places@);
    }

    /// The metadata bytes of the nodes, capped at the machine word.
    pub fn metadata_bytes(&self) -> (res: usize)
        requires
            self.wf(),
        ensures
            res == (if self@.nodes.len() * NODE_BYTES > usize::MAX {
                usize::MAX as int
            } else {
                self@.nodes.len() * NODE_BYTES
            }),
    {
        proof {
            self.lemma_count();
        }
        match self.nodes.len().checked_mul(NODE_BYTES) {
            Some(n) => n,
            None => usize::MAX,
        }
    }

    /// The leaf for page `p`, if there is one.
    fn find_leaf(&self, p: usize) -> (res: Option<usize>)
        requires
            self.wf(),
            p < PAGE_LIMIT,
        ensures
            match res {
                Some(i) => {
                    &&& i == leaf_for(self.nodes@, self.root - 1, p as int)
                    &&& on_path(self.places@, i as int, 0, p as int)
                },
                None => leaf_for(self.nodes@, self.root - 1, p as int) == -1,
            },
    {
        if self.root == 0 {
            return None;
        }
        proof {
            lemma_root_prefix(p as int);
        }
        let mut at: usize = self.root - 1;
        let mut k: u32 = LEVELS - 1;
        while k > 0
            invariant
                self.wf(),
                k < LEVELS,
                on_path(self.places@, at as int, k as int, p as int),
                leaf_for(self.nodes@, self.root - 1, p as int) == leaf_below(
                    self.nodes@,
                    at as int,
                    k as int,
                    p as int,
                ),
            decreases k,
        {
            let slot: usize = level_index(p, k);
            let c: usize = self.nodes[at][slot];
            if c == 0 {
                return None;
            }
            proof {
                lemma_step(
                    self.nodes@,
                    self.places@,
                    self.root - 1,
                    at as int,
                    k as int,
                    p as int,
                );
            }
            at = c - 1;
            k = k - 1;
        }
        Some(at)
    }

    /// What owns the page of `addr`: every address has an answer, and addresses of one page have
    /// the same.
    pub fn lookup(&self, addr: usize) -> (res: PageEntry)
        requires
            self.wf(),
        ensures
            res == self@.entry(page_no(addr as int)),
    {
        let p: usize = page_of(addr);
        match self.find_leaf(p) {
            Some(leaf) => PageEntry::decode(self.nodes[leaf][p % SLOTS]),
            None => PageEntry::Empty,
        }
    }

    /// A new node with empty slots, linked nowhere yet.
    fn alloc_node(&mut self, meta: &mut BumpArena, Ghost(place): Ghost<Place>) -> (res: Result<
        usize,
        PagemapError,
    >)
        requires
            old(self).wf(),
            old(meta).wf(),
            place.level >= 0,
        ensures
            final(self).root == old(self).root,
            match res {
                Ok(i) => {
                    &&& i == old(self).nodes@.len() < usize::MAX
                    &&& final(self).nodes@.len() == i + 1
                    &&& final(self).nodes@[i as int]@ == Seq::new(SLOTS as nat, |s: int| 0usize)
                    &&& final(self).nodes@.drop_last() == old(self).nodes@
                    &&& final(self).places@ == old(self).places@.push(place)
                    &&& spent(*old(meta), *final(meta), 1)
                },
                Err(e) => {
                    &&& e == PagemapError::OutOfMetadata
                    &&& *final(self) == *old(self)
                    &&& spent(*old(meta), *final(meta), 0)
                    &&& exhausted(*final(meta))
                },
            },
    {
        proof {
            vstd::arithmetic::power2::lemma2_to64();
            assert(overflow::is_pow2(8)) by {
                assert(8 == vstd::arithmetic::power2::pow2(3));
            }
        }
        if meta.vend(NODE_BYTES, 8).is_none() {
            return Err(PagemapError::OutOfMetadata);
        }
        let mut slots: Vec<usize> = Vec::new();
        let mut n: usize = 0;
        while n < SLOTS
            invariant
                n <= SLOTS,
                slots@.len() == n,
                forall|s: int| 0 <= s < n ==> #[trigger] slots@[s] == 0,
            decreases SLOTS - n,
        {
            slots.push(0);
            n = n + 1;
        }
        proof {
            assert(slots@ =~= Seq::new(SLOTS as nat, |s: int| 0usize));
        }
        let i: usize = self.nodes.len();
        self.nodes.push(slots);
        self.places = Ghost(self.places@.push(place));
        proof {
            assert(self.nodes@.drop_last() =~= old(self).nodes@);
            assert(self.nodes.len() == i + 1);
        }
        Ok(i)
    }

    /// The root, created when there is none.
    fn root_or_create(&mut self, meta: &mut BumpArena) -> (res: Result<usize, PagemapError>)
        requires
            old(self).wf(),
            old(meta).wf(),
        ensures
            final(self).wf(),
            final(self)@.owned == old(self)@.owned,
            final(self)@.mapped == old(self)@.mapped,
            old(self)@.nodes.len() <= final(self)@.nodes.len(),
            spent(*old(meta), *final(meta), final(self)@.nodes.len() - old(self)@.nodes.len()),
            match res {
                Ok(i) => {
                    &&& i == final(self).root - 1
                    &&& final(self)@.nodes == old(self)@.nodes.insert(place_of(0, LEVELS - 1))
                },
                Err(e) => {
                    &&& e == PagemapError::OutOfMetadata
                    &&& final(self)@ == old(self)@
                    &&& exhausted(*final(meta))
                    &&& !old(self)@.nodes.contains(place_of(0, LEVELS - 1))
                },
            },
    {
        proof {
            self.lemma_count();
            lemma_root_prefix(0);
        }
        if self.root != 0 {
            proof {
                assert(self.places@[self.root - 1] == place_of(0, LEVELS - 1));
                assert(self@.nodes =~= self@.nodes.insert(place_of(0, LEVELS - 1)));
            }
            return Ok(self.root - 1);
        }
        let ghost nodes = self.nodes@;
        let ghost places = self.places@;
        match self.alloc_node(meta, Ghost(Place { level: LEVELS - 1, prefix: 0 })) {
            Ok(i) => {
                self.root = i + 1;
                proof {
                    let later = self.nodes@;
                    let now = self.places@;
                    assert forall|j: int|
                        #![trigger later[j]]
                        0 <= j < nodes.len() implies later[j] == nodes[j] && now[j] == places[j] by {
                        assert(later.drop_last()[j] == nodes[j]);
                    }
                    assert forall|j: int, s: int|
                        0 <= j < later.len() && 0 <= s < SLOTS implies #[trigger] child_ok(
                        later,
                        now,
                        j,
                        s,
                    ) by {
                        if j < nodes.len() {
                            assert(child_ok(nodes, places, j, s));
                            assert(later[j] == nodes[j]);
                        } else {
                            assert(later[j]@[s] == 0);
                        }
                    }
                    assert forall|j: int| #![trigger later[j]] 0 <= j < later.len() implies later[j]@.len()
                        == SLOTS && now[j].level >= 0 by {
                        if j < nodes.len() {
                            assert(later[j] == nodes[j]);
                        }
                    }
                    assert forall|p: int| leaf_for(later, i as int, p) == -1 by {
                        assert(later[i as int]@[digit(p, LEVELS - 1)] == 0);
                    }
                    assert(now =~= seq![place_of(0, LEVELS - 1)]);
                    assert(self.wf());
                    self.lemma_count();
                    assert(self@.owned =~= old(self)@.owned);
                    assert(self@.mapped =~= old(self)@.mapped);
                    assert(now[0] == place_of(0, LEVELS - 1));
                    assert(self@.nodes =~= old(self)@.nodes.insert(place_of(0, LEVELS - 1)));
                }
                Ok(i)
            },
            Err(e) => Err(e),
        }
    }

    /// The child in slot `slot` of node `at`, created when there is none.
    fn child_or_create(&mut self, meta: &mut BumpArena, at: usize, slot: usize) -> (res: Result<
        usize,
        PagemapError,
    >)
        requires
            old(self).wf(),
            old(meta).wf(),
            old(self).root > 0,
            at < old(self).nodes@.len(),
            slot < SLOTS,
            0 < old(self).places@[at as int].level < LEVELS,
        ensures
            final(self).wf(),
            final(self).root == old(self).root,
            final(self)@.owned == old(self)@.owned,
            old(self)@.nodes.len() <= final(self)@.nodes.len(),
            spent(*old(meta), *final(meta), final(self)@.nodes.len() - old(self)@.nodes.len()),
            forall|i: int|
                #![trigger final(self).places@[i]]
                0 <= i < old(self).places@.len() ==> final(self).places@[i] == old(self).places@[i],
            match res {
                Ok(c) => {
                    &&& c == child(final(self).nodes@, at as int, slot as int)
                    &&& c < final(self).nodes@.len()
                    &&& old(self)@.mapped.subset_of(final(self)@.mapped)
                    &&& forall|p: int| #[trigger]
                        final(self)@.mapped.contains(p) && !old(self)@.mapped.contains(p) ==> {
                            &&& old(self).places@[at as int].level == 1
                            &&& shifted(p, 1) == old(self).places@[at as int].prefix * SLOTS + slot
                        }
                    &&& links_kept(old(self).nodes@, final(self).nodes@)
                    &&& final(self)@.nodes == old(self)@.nodes.insert(
                        Place {
                            level: old(self).places@[at as int].level - 1,
                            prefix: old(self).places@[at as int].prefix * SLOTS + slot,
                        },
                    )
                },
                Err(e) => {
                    &&& e == PagemapError::OutOfMetadata
                    &&& *final(self) == *old(self)
                    &&& exhausted(*final(meta))
                    &&& !old(self)@.nodes.contains(
                        Place {
                            level: old(self).places@[at as int].level - 1,
                            prefix: old(self).places@[at as int].prefix * SLOTS + slot,
                        },
                    )
                },
            },
    {
        proof {
            self.lemma_count();
        }
        let ghost nodes = self.nodes@;
        let ghost places = self.places@;
        let ghost root = self.root - 1;
        let cur: usize = self.nodes[at][slot];
        proof {
            assert(child_ok(nodes, places, at as int, slot as int));
        }
        let ghost place = Place {
            level: places[at as int].level - 1,
            prefix: places[at as int].prefix * SLOTS + slot,
        };
        if cur != 0 {
            proof {
                assert(places[cur - 1] == place);
                assert(self@.nodes =~= self@.nodes.insert(place));
            }
            return Ok(cur - 1);
        }
        proof {
            lemma_missing(nodes, places, root, at as int, slot as int);
        }
        match self.alloc_node(meta, Ghost(place)) {
            Ok(c) => {
                let ghost grown = self.nodes@;
                self.nodes[at][slot] = c + 1;
                proof {
                    let later = self.nodes@;
                    let now = self.places@;
                    assert forall|j: int|
                        #![trigger later[j]]
                        0 <= j < nodes.len() && j != at implies later[j] == nodes[j] by {
                        assert(grown.drop_last()[j] == nodes[j]);
                    }
                    assert(grown.drop_last()[at as int] == nodes[at as int]);
                    assert(later[at as int]@ == nodes[at as int]@.update(
                        slot as int,
                        (nodes.len() + 1) as usize,
                    ));
                    assert(later[c as int] == grown[c as int]);
                    assert forall|j: int|
                        #![trigger now[j]]
                        0 <= j < nodes.len() implies now[j] == places[j] by {}
                    assert forall|j: int, s: int|
                        0 <= j < later.len() && 0 <= s < SLOTS implies #[trigger] child_ok(
                        later,
                        now,
                        j,
                        s,
                    ) by {
                        if j < nodes.len() {
                            assert(child_ok(nodes, places, j, s));
                            if j == at && s == slot {
                                assert(child(later, j, s) == c);
                            } else {
                                assert(later[j]@[s] == nodes[j]@[s]);
                            }
                        } else {
                            assert(later[j]@[s] == 0);
                        }
                    }
                    assert forall|j: int| #![trigger later[j]] 0 <= j < later.len() implies later[j]@.len()
                        == SLOTS && now[j].level >= 0 by {
                        if j < nodes.len() && j != at {
                            assert(later[j] == nodes[j]);
                        }
                    }
                    assert(now.no_duplicates()) by {
                        assert forall|a: int, b: int|
                            0 <= a < b < now.len() implies now[a] != now[b] by {
                            if b == c {
                                assert(places.contains(places[a]));
                            }
                        }
                    }
                    assert forall|j: int| 0 <= j < later.len() && j != root implies #[trigger] linked(
                        later,
                        now,
                        j,
                    ) by {
                        if j == c {
                            assert(child(later, at as int, slot as int) == c);
                        } else {
                            assert(linked(nodes, places, j));
                            let (a, b) = choose|a: int, b: int|
                                {
                                    &&& 0 <= a < nodes.len()
                                    &&& 0 <= b < SLOTS
                                    &&& places[a].level > 0
                                    &&& #[trigger] child(nodes, a, b) == j
                                };
                            assert(now[a] == places[a]);
                            if a != at {
                                assert(later[a] == nodes[a]);
                            }
                            assert(child(later, a, b) == j);
                        }
                    }
                    assert(tree(later, now, root)) by {
                        assert(later.len() == now.len());
                        assert(root >= 0 ==> now[root] == places[root]);
                    }
                    self.lemma_count();
                    assert(self@.nodes =~= old(self)@.nodes.insert(place)) by {
                        assert forall|q: Place| #[trigger] now.contains(q) <==> places.contains(q)
                            || q == place by {
                            if places.contains(q) {
                                let j = places.index_of(q);
                                assert(now[j] == q);
                            }
                            if now.contains(q) {
                                let j = now.index_of(q);
                                if j < places.len() {
                                    assert(places[j] == q);
                                }
                            }
                            assert(now[c as int] == place);
                        }
                    }
                    assert forall|p: int| 0 <= p < PAGE_LIMIT implies ({
                        let a = leaf_for(nodes, root, p);
                        let b = #[trigger] leaf_for(later, root, p);
                        if a != -1 {
                            b == a
                        } else {
                            b == -1 || (b == c && places[at as int].level == 1 && shifted(p, 1)
                                == places[at as int].prefix * SLOTS + slot)
                        }
                    }) by {
                        lemma_root_prefix(p);
                        lemma_linked_leaf(
                            nodes,
                            later,
                            places,
                            root,
                            (at as int, slot as int),
                            root,
                            LEVELS - 1,
                            p,
                        );
                    }
                    assert forall|p: int| 0 <= p < PAGE_LIMIT implies #[trigger] word_for(
                        later,
                        root,
                        p,
                    ) == word_for(nodes, root, p) by {
                        let a = leaf_for(nodes, root, p);
                        let b = leaf_for(later, root, p);
                        if a != -1 {
                            lemma_found(nodes, places, root, p);
                            assert(a != at);
                            assert(later[a] == nodes[a]);
                        } else if b == c {
                            assert(later[c as int]@[digit(p, 0)] == 0);
                        }
                    }
                    assert(self@.owned =~= old(self)@.owned);
                }
                Ok(c)
            },
            Err(e) => Err(e),
        }
    }

    /// The leaf for page `p`, created when there is none.
    fn leaf_or_create(&mut self, meta: &mut BumpArena, p: usize) -> (res: Result<
        usize,
        PagemapError,
    >)
        requires
            old(self).wf(),
            old(meta).wf(),
            p < PAGE_LIMIT,
        ensures
            final(self).wf(),
            final(self)@.owned == old(self)@.owned,
            old(self)@.nodes.len() <= final(self)@.nodes.len(),
            spent(*old(meta), *final(meta), final(self)@.nodes.len() - old(self)@.nodes.len()),
            match res {
                Ok(i) => {
                    &&& final(self)@.nodes == old(self)@.nodes.union(upper(p as int, -1))
                    &&& i == leaf_for(final(self).nodes@, final(self).root - 1, p as int)
                    &&& on_path(final(self).places@, i as int, 0, p as int)
                    &&& final(self)@.mapped == old(self)@.mapped.union(
                        Set::new(|q: int| near(q, p as int, p + 1)),
                    )
                },
                Err(e) => {
                    &&& e == PagemapError::OutOfMetadata
                    &&& final(self)@.mapped == old(self)@.mapped
                    &&& exhausted(*final(meta))
                    &&& exists|k: int| #[trigger]
                        stops_at(old(self)@.nodes, final(self)@.nodes, p as int, k)
                },
            },
    {
        let ghost v = self@;
        let ghost m0 = *meta;
        proof {
            lemma_root_prefix(p as int);
            lemma_root_prefix(0);
            assert(place_of(p as int, LEVELS - 1) == place_of(0, LEVELS - 1));
            assert(upper(p as int, LEVELS - 1) =~= Set::empty());
            assert(v.nodes.union(upper(p as int, LEVELS - 1)) =~= v.nodes);
            lemma_upper_step(p as int, LEVELS - 1);
        }
        let root: usize = match self.root_or_create(meta) {
            Ok(r) => r,
            Err(e) => {
                proof {
                    assert(stops_at(v.nodes, self@.nodes, p as int, LEVELS - 1));
                }
                return Err(e);
            },
        };
        proof {
            assert(self@.nodes =~= v.nodes.union(upper(p as int, LEVELS - 2)));
        }
        let mut at: usize = root;
        let mut k: u32 = LEVELS - 1;
        while k > 0
            invariant
                self.wf(),
                meta.wf(),
                p < PAGE_LIMIT,
                k < LEVELS,
                self.root > 0,
                v == old(self)@,
                m0 == *old(meta),
                self@.owned == v.owned,
                self@.nodes == v.nodes.union(upper(p as int, k - 1)),
                v.nodes.len() <= self@.nodes.len(),
                spent(m0, *meta, self@.nodes.len() - v.nodes.len()),
                on_path(self.places@, at as int, k as int, p as int),
                at == reach(self.nodes@, self.root - 1, LEVELS - 1, k as int, p as int),
                k > 0 ==> self@.mapped == v.mapped,
                k == 0 ==> v.mapped.subset_of(self@.mapped),
                k == 0 ==> forall|q: int| #[trigger]
                    self@.mapped.contains(q) && !v.mapped.contains(q) ==> shifted(q, 1) == shifted(
                        p as int,
                        1,
                    ),
            decreases k,
        {
            let slot: usize = level_index(p, k);
            let ghost before = *self;
            proof {
                assert(shifted(p as int, k as int) == shifted(p as int, k + 1) * SLOTS + slot);
            }
            let c: usize = match self.child_or_create(meta, at, slot) {
                Ok(c) => c,
                Err(e) => {
                    proof {
                        assert(stops_at(v.nodes, self@.nodes, p as int, k - 1));
                    }
                    return Err(e);
                },
            };
            proof {
                lemma_upper_step(p as int, k - 1);
                assert(self@.nodes =~= v.nodes.union(upper(p as int, k - 2)));
                assert(on_path(self.places@, at as int, k as int, p as int));
                lemma_step(
                    self.nodes@,
                    self.places@,
                    self.root - 1,
                    at as int,
                    k as int,
                    p as int,
                );
                lemma_root_prefix(p as int);
                lemma_reach_kept(
                    before.nodes@,
                    self.nodes@,
                    before.places@,
                    before.root - 1,
                    before.root - 1,
                    LEVELS - 1,
                    k as int,
                    p as int,
                );
                lemma_reach_on(
                    self.nodes@,
                    self.root - 1,
                    LEVELS - 1,
                    k as int,
                    p as int,
                );
                if k > 1 {
                    assert(self@.mapped =~= v.mapped);
                }
            }
            at = c;
            k = k - 1;
        }
        proof {
            lemma_reach_on(self.nodes@, self.root - 1, LEVELS - 1, 0, p as int);
            assert(leaf_for(self.nodes@, self.root - 1, p as int) == at);
            assert forall|q: int| #[trigger] self@.mapped.contains(q) <==> v.mapped.contains(q) || near(
                q,
                p as int,
                p + 1,
            ) by {
                if near(q, p as int, p + 1) {
                    reveal_with_fuel(shifted, 2);
                    lemma_same_group(
                        self.nodes@,
                        self.root - 1,
                        LEVELS - 1,
                        p as int,
                        q,
                    );
                }
                if self@.mapped.contains(q) && !v.mapped.contains(q) {
                    reveal_with_fuel(shifted, 2);
                }
            }
            assert(self@.mapped =~= v.mapped.union(Set::new(|q: int| near(q, p as int, p + 1))));
        }
        Ok(at)
    }

    /// Set the word of page `p` in its leaf.
    fn store(&mut self, leaf: usize, p: usize, entry: PageEntry)
        requires
            old(self).wf(),
            p < PAGE_LIMIT,
            leaf == leaf_for(old(self).nodes@, old(self).root - 1, p as int),
            on_path(old(self).places@, leaf as int, 0, p as int),
            entry.aligned(),
        ensures
            final(self).wf(),
            final(self)@ == (PageMapView {
                owned: if entry == PageEntry::Empty {
                    old(self)@.owned.remove(p as int)
                } else {
                    old(self)@.owned.insert(p as int, entry)
                },
                ..old(self)@
            }),
    {
        let ghost nodes = self.nodes@;
        let ghost places = self.places@;
        let ghost root = self.root - 1;
        let word: usize = entry.encode();
        let slot: usize = p % SLOTS;
        self.nodes[leaf][slot] = word;
        proof {
            let later = self.nodes@;
            assert forall|i: int| #![trigger later[i]] 0 <= i < nodes.len() && i != leaf implies later[i]
                == nodes[i] by {}
            assert(later[leaf as int]@ == nodes[leaf as int]@.update(slot as int, word));
            assert forall|j: int, s: int|
                0 <= j < later.len() && 0 <= s < SLOTS implies #[trigger] child_ok(
                later,
                places,
                j,
                s,
            ) by {
                assert(child_ok(nodes, places, j, s));
                if j != leaf {
                    assert(later[j] == nodes[j]);
                }
            }
            assert forall|j: int| #![trigger later[j]] 0 <= j < later.len() implies later[j]@.len()
                == SLOTS && places[j].level >= 0 by {
                assert(nodes[j]@.len() == SLOTS);
            }
            assert forall|j: int| 0 <= j < later.len() && j != root implies #[trigger] linked(
                later,
                places,
                j,
            ) by {
                assert(linked(nodes, places, j));
                let (a, b) = choose|a: int, b: int|
                    {
                        &&& 0 <= a < nodes.len()
                        &&& 0 <= b < SLOTS
                        &&& places[a].level > 0
                        &&& #[trigger] child(nodes, a, b) == j
                    };
                assert(later[a] == nodes[a]);
                assert(child(later, a, b) == j);
            }
            assert forall|q: int| 0 <= q < PAGE_LIMIT implies #[trigger] leaf_for(later, root, q)
                == leaf_for(nodes, root, q) by {
                lemma_root_prefix(q);
                if root >= 0 {
                    lemma_same_leaf(nodes, later, places, root, root, LEVELS - 1, q);
                }
            }
            assert forall|q: int| 0 <= q < PAGE_LIMIT implies #[trigger] word_for(later, root, q)
                == (if q == p {
                word
            } else {
                word_for(nodes, root, q)
            }) by {
                let f = leaf_for(nodes, root, q);
                if f != -1 {
                    lemma_found(nodes, places, root, q);
                    reveal_with_fuel(shifted, 2);
                    if f != leaf {
                        assert(later[f] == nodes[f]);
                    }
                }
            }
            assert(self@.owned =~= (if entry == PageEntry::Empty {
                old(self)@.owned.remove(p as int)
            } else {
                old(self)@.owned.insert(p as int, entry)
            }));
            assert(self@.mapped =~= old(self)@.mapped);
        }
    }

    /// Let `entry` own the pages of `[base, stop)`, creating nodes as needed. On metadata
    /// exhaustion a first part of the pages is owned by it and the rest is as it was.
    fn publish_range(&mut self, meta: &mut BumpArena, base: usize, stop: usize, entry: PageEntry)
        -> (res: Result<(), PagemapError>)
        requires
            old(self).wf(),
            old(meta).wf(),
            entry.aligned(),
            entry != PageEntry::Empty,
        ensures
            final(self).wf(),
            old(self)@.publishes(
                final(self)@,
                *old(meta),
                *final(meta),
                (page_no(base as int), page_end(base as int, stop as int)),
                entry,
                res,
            ),
    {
        let (first, end): (usize, usize) = page_range(base, stop);
        let ghost v = self@;
        let ghost m0 = *meta;
        let mut p: usize = first;
        proof {
            assert(paths(first as int, p as int) =~= Set::empty());
            assert(v.nodes.union(paths(first as int, p as int)) =~= v.nodes);
            assert(self@ =~= v.installed(first as int, p as int, entry, v.nodes));
        }
        while p < end
            invariant
                self.wf(),
                meta.wf(),
                v == old(self)@,
                m0 == *old(meta),
                entry.aligned(),
                entry != PageEntry::Empty,
                first <= p <= end <= PAGE_LIMIT,
                first == page_no(base as int),
                end == page_end(base as int, stop as int),
                self@ == v.installed(first as int, p as int, entry, self@.nodes),
                self@.nodes == v.nodes.union(paths(first as int, p as int)),
                v.nodes.len() <= self@.nodes.len(),
                spent(m0, *meta, self@.nodes.len() - v.nodes.len()),
            decreases end - p,
        {
            let ghost before = self@;
            let leaf: usize = match self.leaf_or_create(meta, p) {
                Ok(leaf) => leaf,
                Err(e) => {
                    proof {
                        assert(self@ =~= v.installed(
                            page_no(base as int),
                            p as int,
                            entry,
                            self@.nodes,
                        ));
                        let pages = (page_no(base as int), page_end(base as int, stop as int));
                        let k = choose|k: int| #[trigger]
                            stops_at(before.nodes, self@.nodes, p as int, k);
                        assert(stops_at(
                            v.nodes.union(paths(pages.0, p as int)),
                            self@.nodes,
                            p as int,
                            k,
                        ));
                        assert(v.publishes_up_to(self@, pages, entry, p as int));
                    }
                    return Err(e);
                },
            };
            self.store(leaf, p, entry);
            proof {
                lemma_near_step(first as int, p as int);
                lemma_paths_step(first as int, p as int);
                assert(self@.nodes =~= v.nodes.union(paths(first as int, p + 1)));
                assert(self@.owned =~= v.installed(
                    first as int,
                    p + 1,
                    entry,
                    self@.nodes,
                ).owned);
                assert(self@.mapped =~= v.installed(
                    first as int,
                    p + 1,
                    entry,
                    self@.nodes,
                ).mapped);
            }
            p = p + 1;
        }
        Ok(())
    }

    /// Let `entry` own the pages of `[base, stop)` that the tree has a leaf for.
    fn overwrite_existing_range(&mut self, base: usize, stop: usize, entry: PageEntry)
        requires
            old(self).wf(),
            entry.aligned(),
        ensures
            final(self).wf(),
            final(self)@ == old(self)@.overwritten(
                page_no(base as int),
                page_end(base as int, stop as int),
                entry,
            ),
    {
        let (first, end): (usize, usize) = page_range(base, stop);
        let ghost v = self@;
        let mut p: usize = first;
        proof {
            assert(self@ =~= v.overwritten(first as int, p as int, entry));
        }
        while p < end
            invariant
                self.wf(),
                v == old(self)@,
                entry.aligned(),
                first <= p <= end <= PAGE_LIMIT,
                first == page_no(base as int),
                end == page_end(base as int, stop as int),
                self@ == v.overwritten(first as int, p as int, entry),
            decreases end - p,
        {
            match self.find_leaf(p) {
                Some(leaf) => {
                    self.store(leaf, p, entry);
                },
                None => {},
            }
            proof {
                assert(self@ =~= v.overwritten(first as int, p + 1, entry));
            }
            p = p + 1;
        }
    }

    /// Let a span own its pages. On metadata exhaustion a first part of its pages is owned by
    /// it, and the rest is as it was.
    pub fn install_span(&mut self, meta: &mut BumpArena, at: SpanRef, span: &SpanDescriptor) -> (res:
        Result<(), PagemapError>)
        requires
            old(self).wf(),
            old(meta).wf(),
            at.0 % 8 == 0,
            span.wf(),
        ensures
            final(self).wf(),
            old(self)@.publishes(
                final(self)@,
                *old(meta),
                *final(meta),
                span_pages(*span),
                PageEntry::Small(at),
                res,
            ),
    {
        let (base, stop): (usize, usize) = span.range();
        self.publish_range(meta, base, stop, PageEntry::Small(at))
    }

    /// Let a large allocation own its pages. On metadata exhaustion a first part of its pages is
    /// owned by it, and the rest is as it was.
    pub fn install_large(&mut self, meta: &mut BumpArena, at: LargeRef, large: &LargeDescriptor)
        -> (res: Result<(), PagemapError>)
        requires
            old(self).wf(),
            old(meta).wf(),
            at.0 % 8 == 0,
            large.wf(),
        ensures
            final(self).wf(),
            old(self)@.publishes(
                final(self)@,
                *old(meta),
                *final(meta),
                large_pages(*large),
                PageEntry::Large(at),
                res,
            ),
    {
        self.publish_range(meta, large.base, large.base + large.usable, PageEntry::Large(at))
    }

    /// Keep the pages of a span whose backing was given back, as released ones of it.
    pub fn release_span(&mut self, at: SpanRef, span: &SpanDescriptor)
        requires
            old(self).wf(),
            at.0 % 8 == 0,
            span.wf(),
        ensures
            final(self).wf(),
            final(self)@ == old(self)@.overwritten(
                span_pages(*span).0,
                span_pages(*span).1,
                PageEntry::Released(at),
            ),
    {
        let (base, stop): (usize, usize) = span.range();
        self.overwrite_existing_range(base, stop, PageEntry::Released(at));
    }

    /// Let nothing own the pages of a span.
    pub fn retire_span(&mut self, span: &SpanDescriptor)
        requires
            old(self).wf(),
            span.wf(),
        ensures
            final(self).wf(),
            final(self)@ == old(self)@.overwritten(
                span_pages(*span).0,
                span_pages(*span).1,
                PageEntry::Empty,
            ),
    {
        let (base, stop): (usize, usize) = span.range();
        self.overwrite_existing_range(base, stop, PageEntry::Empty);
    }

    /// Let nothing own the pages of a large allocation.
    pub fn retire_large(&mut self, large: &LargeDescriptor)
        requires
            old(self).wf(),
            large.wf(),
        ensures
            final(self).wf(),
            final(self)@ == old(self)@.overwritten(
                large_pages(*large).0,
                large_pages(*large).1,
                PageEntry::Empty,
            ),
    {
        self.overwrite_existing_range(large.base, large.base + large.usable, PageEntry::Empty);
    }
}

impl Default for PageMap {
    fn default() -> (res: PageMap)
        ensures
            res.wf(),
            res@ == (PageMapView { owned: Map::empty(), mapped: Set::empty(), nodes: Set::empty() }),
    {
        PageMap::new()
    }
}

/// The pages of a span: the first, and the one after the last.
pub open spec fn span_pages(s: SpanDescriptor) -> (int, int) {
    (page_no(s.base as int), page_end(s.base as int, s.base + s.pages * PAGE_SIZE))
}

/// The pages of a large allocation: the first, and the one after the last.
pub open spec fn large_pages(l: LargeDescriptor) -> (int, int) {
    (page_no(l.base as int), page_end(l.base as int, l.base + l.usable))
}

impl PageMapView {
    /// Of the pages `[pages.0, pages.1)` those before `p` are owned by `e`, and the path to `p`
    /// was made as far as it could be.
    pub open spec fn publishes_up_to(
        self,
        after: PageMapView,
        pages: (int, int),
        e: PageEntry,
        p: int,
    ) -> bool {
        &&& pages.0 <= p < pages.1
        &&& after == self.installed(pages.0, p, e, after.nodes)
        &&& exists|k: int| #[trigger]
            stops_at(self.nodes.union(paths(pages.0, p)), after.nodes, p, k)
    }

    /// What letting `e` own the pages `[pages.0, pages.1)` did. On success they are, and on
    /// metadata exhaustion a first part of them is; nothing else is owned otherwise. The nodes on
    /// the paths to them are there afterwards, and a node was created, and metadata spent on it,
    /// only where one was missing.
    pub open spec fn publishes(
        self,
        after: PageMapView,
        meta: BumpArena,
        meta_after: BumpArena,
        pages: (int, int),
        e: PageEntry,
        res: Result<(), PagemapError>,
    ) -> bool {
        &&& spent(meta, meta_after, after.nodes.len() - self.nodes.len())
        &&& match res {
            Ok(_) => after == self.installed(
                pages.0,
                pages.1,
                e,
                self.nodes.union(paths(pages.0, pages.1)),
            ),
            Err(_) => {
                &&& exhausted(meta_after)
                &&& exists|p: int| #[trigger] self.publishes_up_to(after, pages, e, p)
            },
        }
    }
}

/// The pages near `[first, p]` are those near `[first, p)` and those near `p`.
proof fn lemma_near_step(first: int, p: int)
    requires
        0 <= first <= p,
    ensures
        forall|q: int| #[trigger] near(q, first, p + 1) <==> near(q, first, p) || near(q, p, p + 1),
{
    assert forall|q: int| #[trigger] near(q, first, p + 1) <==> near(q, first, p) || near(
        q,
        p,
        p + 1,
    ) by {}
}

/// What is installed is found at every address of it, and nothing else is found otherwise.
pub proof fn law_install_then_lookup(
    v: PageMapView,
    first: int,
    end: int,
    e: PageEntry,
    nodes: Set<Place>,
    p: int,
)
    requires
        e != PageEntry::Empty,
    ensures
        v.installed(first, end, e, nodes).entry(p) == (if first <= p < end {
            e
        } else {
            v.entry(p)
        }),
{
}

/// Letting pages be owned makes as many nodes as are missing on the paths to them, and as much
/// metadata goes on those; pages that were owned before cost nothing more.
pub proof fn law_nodes_are_made_where_missing(
    before: PageMapView,
    after: PageMapView,
    meta: BumpArena,
    meta_after: BumpArena,
    pages: (int, int),
    e: PageEntry,
)
    requires
        before.nodes.finite(),
        after.nodes.finite(),
        before.publishes(after, meta, meta_after, pages, e, Ok(())),
    ensures
        ({
            let missing = paths(pages.0, pages.1).difference(before.nodes);
            &&& after.nodes.len() == before.nodes.len() + missing.len()
            &&& spent(meta, meta_after, missing.len() as int)
            &&& paths(pages.0, pages.1).subset_of(before.nodes) ==> after.nodes == before.nodes
                && meta_after.used() == meta.used()
        }),
{
    let missing = paths(pages.0, pages.1).difference(before.nodes);
    assert(before.nodes.union(missing) =~= after.nodes);
    vstd::set_lib::lemma_set_subset_finite(after.nodes, missing);
    vstd::set_lib::lemma_set_disjoint_lens(before.nodes, missing);
    if paths(pages.0, pages.1).subset_of(before.nodes) {
        assert(missing =~= Set::empty());
        assert(after.nodes =~= before.nodes);
    }
}

/// Retiring what was installed on unowned pages leaves the owned pages as they were.
pub proof fn law_retire_undoes_install(
    v: PageMapView,
    first: int,
    end: int,
    e: PageEntry,
    nodes: Set<Place>,
)
    requires
        0 <= first <= end <= PAGE_LIMIT,
        forall|p: int| first <= p < end ==> !#[trigger] v.owned.contains_key(p),
    ensures
        v.installed(first, end, e, nodes).overwritten(first, end, PageEntry::Empty).owned == v.owned,
{
    let w = v.installed(first, end, e, nodes);
    let u = w.overwritten(first, end, PageEntry::Empty);
    assert forall|p: int| first <= p < end implies #[trigger] w.mapped.contains(p) by {
        assert(near(p, first, end));
    }
    assert(u.owned =~= v.owned);
}

/// An installed span that is released keeps its pages, as released ones.
pub proof fn law_release_keeps_the_pages(
    v: PageMapView,
    first: int,
    end: int,
    at: SpanRef,
    nodes: Set<Place>,
    p: int,
)
    requires
        0 <= first <= p < end <= PAGE_LIMIT,
    ensures
        v.installed(first, end, PageEntry::Small(at), nodes).overwritten(
            first,
            end,
            PageEntry::Released(at),
        ).entry(p) == PageEntry::Released(at),
{
    let w = v.installed(first, end, PageEntry::Small(at), nodes);
    assert(near(p, first, end));
    assert(w.mapped.contains(p));
}

/// The page of an address is the one of the pages, each [`PAGE_SIZE`] bytes long, that the address
/// lies in.
pub proof fn law_page_holds_the_address(addr: int)
    requires
        0 <= addr,
    ensures
        page_no(addr) * PAGE_SIZE <= addr < (page_no(addr) + 1) * PAGE_SIZE,
{
}

/// What is installed on the pages of some addresses is found at each of them; what is found at an
/// address on none of these pages is what was found before.
proof fn lemma_every_address(
    before: PageMapView,
    after: PageMapView,
    pages: (int, int),
    e: PageEntry,
    base: int,
    stop: int,
    addr: int,
)
    requires
        after == before.installed(pages.0, pages.1, e, after.nodes),
        pages == (page_no(base), page_end(base, stop)),
        e != PageEntry::Empty,
        0 <= base < stop,
        0 <= addr,
    ensures
        base <= addr < stop ==> after.entry(page_no(addr)) == e,
        addr / (PAGE_SIZE as int) < base / (PAGE_SIZE as int) || addr / (PAGE_SIZE as int) > (stop
            - 1) / (PAGE_SIZE as int) ==> after.entry(page_no(addr)) == before.entry(page_no(addr)),
{
}

/// An installed span is found at every address of it; and at an address that shares no page with
/// it, what was found before.
pub proof fn law_span_is_found_at_every_address(
    before: PageMapView,
    after: PageMapView,
    meta: (BumpArena, BumpArena),
    at: SpanRef,
    s: SpanDescriptor,
    addr: int,
)
    requires
        before.publishes(after, meta.0, meta.1, span_pages(s), PageEntry::Small(at), Ok(())),
        s.pages > 0,
        0 <= addr,
    ensures
        s.base <= addr < s.base + s.pages * PAGE_SIZE ==> after.entry(page_no(addr))
            == PageEntry::Small(at),
        addr / (PAGE_SIZE as int) < s.base as int / (PAGE_SIZE as int) || addr / (PAGE_SIZE as int)
            > (s.base + s.pages * PAGE_SIZE - 1) / (PAGE_SIZE as int) ==> after.entry(page_no(addr))
            == before.entry(page_no(addr)),
{
    lemma_every_address(
        before,
        after,
        span_pages(s),
        PageEntry::Small(at),
        s.base as int,
        s.base + s.pages * PAGE_SIZE,
        addr,
    );
}

/// An installed large allocation is found at every usable address of it; and at an address that
/// shares no page with it, what was found before.
pub proof fn law_large_is_found_at_every_address(
    before: PageMapView,
    after: PageMapView,
    meta: (BumpArena, BumpArena),
    at: LargeRef,
    l: LargeDescriptor,
    addr: int,
)
    requires
        before.publishes(after, meta.0, meta.1, large_pages(l), PageEntry::Large(at), Ok(())),
        l.usable > 0,
        0 <= addr,
    ensures
        l.base <= addr < l.base + l.usable ==> after.entry(page_no(addr)) == PageEntry::Large(at),
        addr / (PAGE_SIZE as int) < l.base as int / (PAGE_SIZE as int) || addr / (PAGE_SIZE as int)
            > (l.base + l.usable - 1) / (PAGE_SIZE as int) ==> after.entry(page_no(addr))
            == before.entry(page_no(addr)),
{
    lemma_every_address(
        before,
        after,
        large_pages(l),
        PageEntry::Large(at),
        l.base as int,
        l.base + l.usable,
        addr,
    );
}

/// What is retired is found at no address of it any more, and what is released is found as
/// released at every one; nothing else changes.
pub proof fn law_every_address_is_retired(
    v: PageMapView,
    first: int,
    end: int,
    e: PageEntry,
    p: int,
)
    requires
        first <= p < end ==> v.mapped.contains(p),
    ensures
        v.overwritten(first, end, e).entry(p) == (if first <= p < end {
            e
        } else {
            v.entry(p)
        }),
{
}

/// The node of level `to` on the path to page `p` from node `at` of level `k`, or -1.
spec fn reach(nodes: Seq<Vec<usize>>, at: int, k: int, to: int, p: int) -> int
    decreases k,
{
    if k <= to || k <= 0 {
        at
    } else {
        let c = child(nodes, at, digit(p, k));
        if c < 0 {
            -1
        } else {
            reach(nodes, c, k - 1, to, p)
        }
    }
}

/// The links that were there are still there.
spec fn links_kept(before: Seq<Vec<usize>>, after: Seq<Vec<usize>>) -> bool {
    &&& before.len() <= after.len()
    &&& forall|i: int, s: int|
        0 <= i < before.len() && 0 <= s < SLOTS && #[trigger] child(before, i, s) >= 0 ==> child(
            after,
            i,
            s,
        ) == child(before, i, s)
}

/// A node that was reached is still reached.
proof fn lemma_reach_kept(
    before: Seq<Vec<usize>>,
    after: Seq<Vec<usize>>,
    places: Seq<Place>,
    root: int,
    at: int,
    k: int,
    to: int,
    p: int,
)
    requires
        tree(before, places, root),
        links_kept(before, after),
        0 <= to <= k,
        on_path(places, at, k, p),
        reach(before, at, k, to, p) >= 0,
    ensures
        reach(after, at, k, to, p) == reach(before, at, k, to, p),
    decreases k,
{
    if k > to {
        let c = child(before, at, digit(p, k));
        assert(child(after, at, digit(p, k)) == c);
        lemma_step(before, places, root, at, k, p);
        lemma_reach_kept(before, after, places, root, c, k - 1, to, p);
    }
}

/// The path to a page goes on from each node on it.
proof fn lemma_reach_on(nodes: Seq<Vec<usize>>, at: int, k: int, to: int, p: int)
    requires
        0 <= to <= k,
        reach(nodes, at, k, to, p) >= 0,
    ensures
        leaf_below(nodes, at, k, p) == leaf_below(nodes, reach(nodes, at, k, to, p), to, p),
        to > 0 && child(nodes, reach(nodes, at, k, to, p), digit(p, to)) >= 0 ==> reach(
            nodes,
            at,
            k,
            to - 1,
            p,
        ) == child(nodes, reach(nodes, at, k, to, p), digit(p, to)),
    decreases k,
{
    if k > to {
        let c = child(nodes, at, digit(p, k));
        lemma_reach_on(nodes, c, k - 1, to, p);
    } else if k > 0 && child(nodes, at, digit(p, k)) >= 0 {
        assert(reach(nodes, child(nodes, at, digit(p, k)), k - 1, k - 1, p) == child(
            nodes,
            at,
            digit(p, k),
        ));
    }
}

} // verus!
