//! Descriptors of spans and large allocations, and the table that holds them by address.
use vstd::prelude::*;
use crate::bitmap::PAGE_SIZE;
use crate::ids::{ArenaId, Generation, LargeId, SizeClassId, SpanId};

verus! {

/// The number of size classes.
pub const NUM_SIZE_CLASSES: usize = 72;

/// The address of a span descriptor.
#[derive(Clone, Copy, PartialEq, Eq, Debug, Structural)]
pub struct SpanRef(pub usize);

/// The address of a descriptor of a large allocation.
#[derive(Clone, Copy, PartialEq, Eq, Debug, Structural)]
pub struct LargeRef(pub usize);

/// Whether a span is in use.
#[derive(Clone, Copy, PartialEq, Eq, Debug, Structural)]
pub enum SpanState {
    /// Backed and in use.
    Active,
    /// Its backing was given back, its addresses were not.
    Released,
}

/// Whether a large allocation is in use.
#[derive(Clone, Copy, PartialEq, Eq, Debug, Structural)]
pub enum LargeState {
    /// Backed and in use.
    Active,
    /// Its backing was given back, its addresses were not.
    Released,
}

/// What of a span descriptor stays as it is while the span is in use.
#[derive(Clone, Copy, PartialEq, Eq, Debug, Structural)]
pub struct SpanHeader {
    /// The arena of the span.
    pub arena: ArenaId,
    /// Its size class.
    pub sc: SizeClassId,
    /// Its first address.
    pub base: usize,
    /// Its pages.
    pub pages: u32,
    /// The address of its first object.
    pub object0: usize,
    /// The size of an object.
    pub object_size: usize,
    /// Its objects.
    pub object_count: usize,
}

/// A run of pages that holds small objects of one size class.
#[derive(Clone, Copy, PartialEq, Eq, Debug, Structural)]
pub struct SpanDescriptor {
    /// The span.
    pub id: SpanId,
    /// Its arena.
    pub arena: ArenaId,
    /// Its size class.
    pub sc: SizeClassId,
    /// Its first address.
    pub base: usize,
    /// Its pages.
    pub pages: u32,
    /// The address of its first object.
    pub object0: usize,
    /// The size of an object.
    pub object_size: usize,
    /// Its objects.
    pub object_count: usize,
    /// Whether it is in use.
    pub state: SpanState,
    /// Whether its objects are in quarantine.
    pub quarantined: bool,
    /// The header as it was when the span was sealed, if it was.
    pub seal: Option<SpanHeader>,
}

impl SpanDescriptor {
    /// The span does not reach past the end of the address space.
    pub open spec fn wf(self) -> bool {
        self.base + self.pages * PAGE_SIZE <= usize::MAX
    }

    /// A span in use whose objects start at its base.
    pub fn new(
        id: SpanId,
        arena: ArenaId,
        sc: SizeClassId,
        base: usize,
        pages: u32,
        object_count: usize,
        object_size: usize,
    ) -> (res: SpanDescriptor)
        requires
            base + pages * PAGE_SIZE <= usize::MAX,
        ensures
            res.wf(),
            res == (SpanDescriptor {
                id,
                arena,
                sc,
                base,
                pages,
                object0: base,
                object_size,
                object_count,
                state: SpanState::Active,
                quarantined: false,
                seal: None,
            }),
    {
        SpanDescriptor {
            id,
            arena,
            sc,
            base,
            pages,
            object0: base,
            object_size,
            object_count,
            state: SpanState::Active,
            quarantined: false,
            seal: None,
        }
    }

    /// Its header.
    pub open spec fn header(self) -> SpanHeader {
        SpanHeader {
            arena: self.arena,
            sc: self.sc,
            base: self.base,
            pages: self.pages,
            object0: self.object0,
            object_size: self.object_size,
            object_count: self.object_count,
        }
    }

    /// The header is as it was when the span was sealed. A span that was not sealed passes.
    pub open spec fn intact(self) -> bool {
        self.seal matches Some(h) ==> h == self.header()
    }

    /// Its header.
    fn read_header(&self) -> (res: SpanHeader)
        ensures
            res == self.header(),
    {
        SpanHeader {
            arena: self.arena,
            sc: self.sc,
            base: self.base,
            pages: self.pages,
            object0: self.object0,
            object_size: self.object_size,
            object_count: self.object_count,
        }
    }

    /// The span with a seal on its header, so that a stray write to it is noticed.
    pub fn sealed(self) -> (res: SpanDescriptor)
        ensures
            res == (SpanDescriptor { seal: Some(self.header()), ..self }),
            res.intact(),
    {
        SpanDescriptor { seal: Some(self.read_header()), ..self }
    }

    /// Whether the header is as it was when the span was sealed.
    pub fn is_intact(&self) -> (res: bool)
        ensures
            res == self.intact(),
    {
        match self.seal {
            Some(h) => h == self.read_header(),
            None => true,
        }
    }

    /// Its addresses, from the first to the one after the last.
    pub fn range(&self) -> (res: (usize, usize))
        requires
            self.wf(),
        ensures
            res.0 == self.base,
            res.1 == self.base + self.pages * PAGE_SIZE,
    {
        (self.base, self.base + self.pages as usize * PAGE_SIZE)
    }

    /// What classification reads of the span; `None` when that makes no sense: a broken seal, no
    /// such size class, or objects of no size.
    pub open spec fn geometry(self) -> Option<ClassifyGeometry> {
        if self.intact() && self.sc.view() < NUM_SIZE_CLASSES && self.object_size > 0 {
            Some(
                ClassifyGeometry {
                    state: self.state,
                    quarantined: self.quarantined,
                    base: self.base,
                    object0: self.object0,
                    object_size: self.object_size,
                    object_count: self.object_count,
                    sc: self.sc,
                    arena: self.arena,
                },
            )
        } else {
            None
        }
    }

    /// What classification reads of the span; `None` when that makes no sense.
    pub fn read_consistent_geometry(&self) -> (res: Option<ClassifyGeometry>)
        ensures
            res == self.geometry(),
    {
        if self.is_intact() && self.sc.index() < NUM_SIZE_CLASSES && self.object_size > 0 {
            Some(
                ClassifyGeometry {
                    state: self.state,
                    quarantined: self.quarantined,
                    base: self.base,
                    object0: self.object0,
                    object_size: self.object_size,
                    object_count: self.object_count,
                    sc: self.sc,
                    arena: self.arena,
                },
            )
        } else {
            None
        }
    }
}

/// A header holds all that tells the objects of a span: spans of one header agree in each of it.
pub proof fn law_header_tells_the_objects(a: SpanDescriptor, b: SpanDescriptor)
    requires
        a.header() == b.header(),
    ensures
        a.arena == b.arena,
        a.sc == b.sc,
        a.base == b.base,
        a.pages == b.pages,
        a.object0 == b.object0,
        a.object_size == b.object_size,
        a.object_count == b.object_count,
{
}

/// What classification reads of a span.
#[derive(Clone, Copy, PartialEq, Eq, Debug, Structural)]
pub struct ClassifyGeometry {
    /// Whether the span is in use.
    pub state: SpanState,
    /// Whether its objects are in quarantine.
    pub quarantined: bool,
    /// Its first address.
    pub base: usize,
    /// The address of its first object.
    pub object0: usize,
    /// The size of an object.
    pub object_size: usize,
    /// Its objects.
    pub object_count: usize,
    /// Its size class.
    pub sc: SizeClassId,
    /// Its arena.
    pub arena: ArenaId,
}

/// A large allocation.
#[derive(Clone, Copy, PartialEq, Eq, Debug, Structural)]
pub struct LargeDescriptor {
    /// The allocation.
    pub id: LargeId,
    /// Its arena.
    pub arena: ArenaId,
    /// Its first address.
    pub base: usize,
    /// Its usable bytes.
    pub usable: usize,
    /// Its alignment.
    pub align: usize,
    /// Whether it is in use.
    pub state: LargeState,
    /// How often its place has been used again.
    pub generation: Generation,
}

impl LargeDescriptor {
    /// The allocation does not reach past the end of the address space.
    pub open spec fn wf(self) -> bool {
        self.base + self.usable <= usize::MAX
    }

    /// An allocation in use.
    pub fn new(id: LargeId, arena: ArenaId, base: usize, usable: usize, align: usize) -> (res:
        LargeDescriptor)
        ensures
            res == (LargeDescriptor {
                id,
                arena,
                base,
                usable,
                align,
                state: LargeState::Active,
                generation: Generation(0),
            }),
    {
        LargeDescriptor {
            id,
            arena,
            base,
            usable,
            align,
            state: LargeState::Active,
            generation: Generation::first(),
        }
    }

    /// The same place used for another allocation: a new generation of it.
    pub open spec fn recycled(
        self,
        arena: ArenaId,
        base: usize,
        usable: usize,
        align: usize,
    ) -> LargeDescriptor {
        LargeDescriptor {
            arena,
            base,
            usable,
            align,
            state: LargeState::Active,
            generation: self.generation.successor(),
            ..self
        }
    }

    /// Use the place for another allocation.
    pub fn recycle(&mut self, arena: ArenaId, base: usize, usable: usize, align: usize)
        ensures
            *final(self) == old(self).recycled(arena, base, usable, align),
    {
        self.arena = arena;
        self.base = base;
        self.usable = usable;
        self.align = align;
        self.state = LargeState::Active;
        self.generation = self.generation.next();
    }
}

/// Where descriptors are found by address.
pub trait Descriptors {
    /// The span descriptor at an address.
    spec fn span(&self, at: SpanRef) -> Option<SpanDescriptor>;

    /// The descriptor of a large allocation at an address.
    spec fn large(&self, at: LargeRef) -> Option<LargeDescriptor>;

    /// The span descriptor at an address, if there is one.
    fn span_at(&self, at: SpanRef) -> (res: Option<SpanDescriptor>)
        ensures
            res == self.span(at),
    ;

    /// The descriptor of a large allocation at an address, if there is one.
    fn large_at(&self, at: LargeRef) -> (res: Option<LargeDescriptor>)
        ensures
            res == self.large(at),
    ;
}

/// The last span descriptor at an address.
spec fn last_span(s: Seq<(SpanRef, SpanDescriptor)>, at: SpanRef) -> Option<SpanDescriptor>
    decreases s.len(),
{
    if s.len() == 0 {
        None
    } else if s.last().0 == at {
        Some(s.last().1)
    } else {
        last_span(s.drop_last(), at)
    }
}

/// Setting the only entry for an address sets what is found there, and nothing else.
proof fn lemma_set_span(s: Seq<(SpanRef, SpanDescriptor)>, i: int, at: SpanRef, d: SpanDescriptor, b: SpanRef)
    requires
        0 <= i < s.len(),
        s[i].0 == at,
        forall|j: int| i < j < s.len() ==> (#[trigger] s[j]).0 != at,
    ensures
        last_span(s.update(i, (at, d)), b) == (if b == at {
            Some(d)
        } else {
            last_span(s, b)
        }),
    decreases s.len(),
{
    let t = s.update(i, (at, d));
    if i == s.len() - 1 {
        assert(t.drop_last() =~= s.drop_last());
    } else {
        assert(s[s.len() - 1].0 != at);
        assert(t.drop_last() =~= s.drop_last().update(i, (at, d)));
        lemma_set_span(s.drop_last(), i, at, d, b);
    }
}

/// The last descriptor of a large allocation at an address.
spec fn last_large(s: Seq<(LargeRef, LargeDescriptor)>, at: LargeRef) -> Option<LargeDescriptor>
    decreases s.len(),
{
    if s.len() == 0 {
        None
    } else if s.last().0 == at {
        Some(s.last().1)
    } else {
        last_large(s.drop_last(), at)
    }
}

/// Setting the only entry for an address sets what is found there, and nothing else.
proof fn lemma_set_large(s: Seq<(LargeRef, LargeDescriptor)>, i: int, at: LargeRef, d: LargeDescriptor, b: LargeRef)
    requires
        0 <= i < s.len(),
        s[i].0 == at,
        forall|j: int| i < j < s.len() ==> (#[trigger] s[j]).0 != at,
    ensures
        last_large(s.update(i, (at, d)), b) == (if b == at {
            Some(d)
        } else {
            last_large(s, b)
        }),
    decreases s.len(),
{
    let t = s.update(i, (at, d));
    if i == s.len() - 1 {
        assert(t.drop_last() =~= s.drop_last());
    } else {
        assert(s[s.len() - 1].0 != at);
        assert(t.drop_last() =~= s.drop_last().update(i, (at, d)));
        lemma_set_large(s.drop_last(), i, at, d, b);
    }
}

/// A table of descriptors.
pub struct DescriptorTable {
    spans: Vec<(SpanRef, SpanDescriptor)>,
    larges: Vec<(LargeRef, LargeDescriptor)>,
}

impl DescriptorTable {
    /// An empty table.
    pub fn new() -> (res: DescriptorTable)
        ensures
            forall|at: SpanRef| #[trigger] res.span(at) is None,
            forall|at: LargeRef| #[trigger] res.large(at) is None,
    {
        DescriptorTable { spans: Vec::new(), larges: Vec::new() }
    }

    /// Where the span descriptor at an address is kept.
    fn find_span(&self, at: SpanRef) -> (res: Option<usize>)
        ensures
            match res {
                Some(i) => {
                    &&& i < self.spans@.len()
                    &&& self.spans@[i as int].0 == at
                    &&& forall|j: int| i < j < self.spans@.len() ==> (#[trigger] self.spans@[j]).0 != at
                    &&& last_span(self.spans@, at) == Some(self.spans@[i as int].1)
                },
                None => last_span(self.spans@, at) is None,
            },
    {
        let ghost s = self.spans@;
        let mut i: usize = self.spans.len();
        proof {
            assert(s.take(i as int) =~= s);
        }
        while i > 0
            invariant
                i <= s.len(),
                s == self.spans@,
                last_span(s.take(i as int), at) == last_span(s, at),
                forall|j: int| i <= j < s.len() ==> (#[trigger] s[j]).0 != at,
            decreases i,
        {
            i = i - 1;
            proof {
                assert(s.take(i + 1).drop_last() =~= s.take(i as int));
            }
            let (place, _desc) = self.spans[i];
            if place.0 == at.0 {
                return Some(i);
            }
        }
        None
    }

    /// Set the span descriptor at an address.
    pub fn put_span(&mut self, at: SpanRef, span: SpanDescriptor)
        ensures
            forall|b: SpanRef| #[trigger]
                final(self).span(b) == (if b == at {
                    Some(span)
                } else {
                    old(self).span(b)
                }),
            forall|b: LargeRef| #[trigger] final(self).large(b) == old(self).large(b),
    {
        let ghost s = self.spans@;
        match self.find_span(at) {
            Some(i) => {
                self.spans.set(i, (at, span));
                proof {
                    assert forall|b: SpanRef| #[trigger] self.span(b) == (if b == at {
                        Some(span)
                    } else {
                        old(self).span(b)
                    }) by {
                        lemma_set_span(s, i as int, at, span, b);
                    }
                }
            },
            None => {
                self.spans.push((at, span));
                proof {
                    assert(self.spans@.drop_last() =~= s);
                }
            },
        }
    }

    /// Where the descriptor of a large allocation at an address is kept.
    fn find_large(&self, at: LargeRef) -> (res: Option<usize>)
        ensures
            match res {
                Some(i) => {
                    &&& i < self.larges@.len()
                    &&& self.larges@[i as int].0 == at
                    &&& forall|j: int| i < j < self.larges@.len() ==> (#[trigger] self.larges@[j]).0 != at
                    &&& last_large(self.larges@, at) == Some(self.larges@[i as int].1)
                },
                None => last_large(self.larges@, at) is None,
            },
    {
        let ghost s = self.larges@;
        let mut i: usize = self.larges.len();
        proof {
            assert(s.take(i as int) =~= s);
        }
        while i > 0
            invariant
                i <= s.len(),
                s == self.larges@,
                last_large(s.take(i as int), at) == last_large(s, at),
                forall|j: int| i <= j < s.len() ==> (#[trigger] s[j]).0 != at,
            decreases i,
        {
            i = i - 1;
            proof {
                assert(s.take(i + 1).drop_last() =~= s.take(i as int));
            }
            let (place, _desc) = self.larges[i];
            if place.0 == at.0 {
                return Some(i);
            }
        }
        None
    }

    /// Set the descriptor of a large allocation at an address.
    pub fn put_large(&mut self, at: LargeRef, large: LargeDescriptor)
        ensures
            forall|b: LargeRef| #[trigger]
                final(self).large(b) == (if b == at {
                    Some(large)
                } else {
                    old(self).large(b)
                }),
            forall|b: SpanRef| #[trigger] final(self).span(b) == old(self).span(b),
    {
        let ghost s = self.larges@;
        match self.find_large(at) {
            Some(i) => {
                self.larges.set(i, (at, large));
                proof {
                    assert forall|b: LargeRef| #[trigger] self.large(b) == (if b == at {
                        Some(large)
                    } else {
                        old(self).large(b)
                    }) by {
                        lemma_set_large(s, i as int, at, large, b);
                    }
                }
            },
            None => {
                self.larges.push((at, large));
                proof {
                    assert(self.larges@.drop_last() =~= s);
                }
            },
        }
    }
}

impl Descriptors for DescriptorTable {
    closed spec fn span(&self, at: SpanRef) -> Option<SpanDescriptor> {
        last_span(self.spans@, at)
    }

    closed spec fn large(&self, at: LargeRef) -> Option<LargeDescriptor> {
        last_large(self.larges@, at)
    }

    fn span_at(&self, at: SpanRef) -> (res: Option<SpanDescriptor>) {
        match self.find_span(at) {
            Some(i) => {
                let (_at, desc) = self.spans[i];
                Some(desc)
            },
            None => None,
        }
    }

    fn large_at(&self, at: LargeRef) -> (res: Option<LargeDescriptor>) {
        match self.find_large(at) {
            Some(i) => {
                let (_at, desc) = self.larges[i];
                Some(desc)
            },
            None => None,
        }
    }
}

} // verus!
