//! Identifier newtypes.
use vstd::prelude::*;

verus! {

/// An arena.
#[derive(Clone, Copy, PartialEq, Eq, PartialOrd, Ord, Hash, Debug, Structural)]
pub struct ArenaId(pub u32);

impl ArenaId {
    /// The arena that serves requests naming none.
    pub fn default_arena() -> (res: ArenaId)
        ensures
            res == ArenaId(0),
    {
        ArenaId(0)
    }
}

/// An information-flow label.
#[derive(Clone, Copy, PartialEq, Eq, PartialOrd, Ord, Hash, Debug, Structural)]
pub struct Label(pub u32);

impl Label {
    /// The public label, the only one where there is a single authority.
    pub fn public() -> (res: Label)
        ensures
            res == Label(0),
    {
        Label(0)
    }
}

/// A small-object size class.
#[derive(Clone, Copy, PartialEq, Eq, PartialOrd, Ord, Hash, Debug, Structural)]
pub struct SizeClassId(u16);

impl SizeClassId {
    /// The class number.
    pub closed spec fn view(&self) -> int {
        self.0 as int
    }

    /// The class numbered `index`.
    pub fn new(index: usize) -> (res: SizeClassId)
        requires
            index <= u16::MAX,
        ensures
            res.view() == index,
    {
        SizeClassId(index as u16)
    }

    /// The class number, for indexing a class table.
    pub fn index(self) -> (res: usize)
        ensures
            res == self.view(),
    {
        self.0 as usize
    }
}

/// A small-object span.
#[derive(Clone, Copy, PartialEq, Eq, PartialOrd, Ord, Hash, Debug, Structural)]
pub struct SpanId(pub u32);

/// A large allocation.
#[derive(Clone, Copy, PartialEq, Eq, PartialOrd, Ord, Hash, Debug, Structural)]
pub struct LargeId(pub u32);

/// A dense NUMA node number.
#[derive(Clone, Copy, PartialEq, Eq, PartialOrd, Ord, Hash, Debug, Structural)]
pub struct NodeId(pub u32);

/// A CPU core.
#[derive(Clone, Copy, PartialEq, Eq, PartialOrd, Ord, Hash, Debug, Structural)]
pub struct CoreId(pub u32);

/// A descriptor generation, bumped on every reuse of the descriptor.
#[derive(Clone, Copy, PartialEq, Eq, PartialOrd, Ord, Hash, Debug, Structural)]
pub struct Generation(pub u32);

impl Generation {
    /// The generation of a descriptor that was never reused.
    pub fn first() -> (res: Generation)
        ensures
            res == Generation(0),
    {
        Generation(0)
    }

    /// One more than `self`, wrapping past the largest to 1.
    pub open spec fn successor(self) -> Generation {
        if self.0 == u32::MAX {
            Generation(1)
        } else {
            Generation((self.0 + 1) as u32)
        }
    }

    /// The next generation. It wraps instead of saturating, and skips 0 on the wrap, so a
    /// reused descriptor never reads as a fresh one.
    pub fn next(self) -> (res: Generation)
        ensures
            res == self.successor(),
    {
        if self.0 == u32::MAX {
            Generation(1)
        } else {
            Generation(self.0 + 1)
        }
    }
}

/// The next generation is never the first one, and differs from the one before it.
pub proof fn law_next_generation_is_distinct(g: Generation)
    ensures
        g.successor() != Generation(0),
        g.successor() != g,
{
}

} // verus!
