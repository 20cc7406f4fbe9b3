//! What an arbitrary address is: nothing, an object, the inside of one, or foreign; and which
//! addresses may be freed.
use vstd::prelude::*;
use crate::bootstrap::BumpArena;
use crate::ids::{ArenaId, SizeClassId};
use crate::pagemap;
use crate::pagemap::{PageEntry, PageMap};
use crate::span::{
    ClassifyGeometry, Descriptors, LargeDescriptor, LargeRef, LargeState, SpanDescriptor, SpanHeader,
    SpanRef, SpanState, NUM_SIZE_CLASSES,
};

verus! {

/// A set of addresses that hold the allocator's own metadata.
pub trait MetadataRegion {
    /// Whether `addr` is in the set.
    spec fn covers(&self, addr: int) -> bool;

    /// Whether `addr` is in the set.
    fn contains(&self, addr: usize) -> (res: bool)
        ensures
            res == self.covers(addr as int),
    ;
}

/// The empty set.
pub struct NoMetadata;

impl MetadataRegion for NoMetadata {
    open spec fn covers(&self, addr: int) -> bool {
        false
    }

    fn contains(&self, addr: usize) -> (res: bool) {
        false
    }
}

impl MetadataRegion for BumpArena {
    open spec fn covers(&self, addr: int) -> bool {
        self.base() <= addr < self.base() + self.len()
    }

    fn contains(&self, addr: usize) -> (res: bool) {
        BumpArena::contains(self, addr)
    }
}

/// The union of some sets.
pub struct AnyMetadataRegion<'a, M: MetadataRegion>(pub &'a [&'a M]);

impl<'a, M: MetadataRegion> MetadataRegion for AnyMetadataRegion<'a, M> {
    open spec fn covers(&self, addr: int) -> bool {
        exists|i: int| 0 <= i < self.0@.len() && (#[trigger] self.0@[i]).covers(addr)
    }

    fn contains(&self, addr: usize) -> (res: bool) {
        let mut i: usize = 0;
        while i < self.0.len()
            invariant
                i <= self.0@.len(),
                forall|j: int| 0 <= j < i ==> !(#[trigger] self.0@[j]).covers(addr as int),
            decreases self.0@.len() - i,
        {
            if self.0[i].contains(addr) {
                proof {
                    assert(self.0@[i as int].covers(addr as int));
                }
                return true;
            }
            i = i + 1;
        }
        false
    }
}

/// What an address is.
#[derive(Clone, Copy, PartialEq, Eq, Debug, Structural)]
pub enum PointerClass {
    /// No address.
    Null,
    /// The base of a small object.
    Small {
        /// Its span.
        span: SpanRef,
        /// Its size class.
        sc: SizeClassId,
        /// Its arena.
        arena: ArenaId,
        /// Which object of the span it is.
        object_index: usize,
    },
    /// The base of a large allocation.
    Large {
        /// The allocation.
        desc: LargeRef,
    },
    /// An address inside an owned allocation or span that is no base.
    Interior {
        /// The base of what it is inside of.
        base: usize,
        /// How far inside it is.
        offset: usize,
    },
    /// The allocator's own metadata.
    Metadata,
    /// A page whose backing was given back.
    Released,
    /// An object in quarantine.
    Quarantined,
    /// Not the allocator's.
    External,
}

/// What an address on a page of a span is: the base of an object if it is a whole number of
/// objects behind the first one, and inside otherwise.
pub open spec fn class_in_span(at: SpanRef, g: Option<ClassifyGeometry>, addr: int) -> PointerClass {
    match g {
        None => PointerClass::External,
        Some(g) => {
            let size = g.object_size as int;
            let delta = addr - g.object0;
            if g.state == SpanState::Released {
                PointerClass::Released
            } else if g.quarantined {
                PointerClass::Quarantined
            } else if addr < g.base {
                PointerClass::External
            } else if delta < 0 || delta / size >= g.object_count {
                PointerClass::Interior { base: g.base, offset: (addr - g.base) as usize }
            } else if delta % size == 0 {
                PointerClass::Small {
                    span: at,
                    sc: g.sc,
                    arena: g.arena,
                    object_index: (delta / size) as usize,
                }
            } else {
                PointerClass::Interior {
                    base: (addr - delta % size) as usize,
                    offset: (delta % size) as usize,
                }
            }
        },
    }
}

/// What an address on a page of a large allocation is.
pub open spec fn class_in_large(at: LargeRef, d: Option<LargeDescriptor>, addr: usize) -> PointerClass {
    match d {
        None => PointerClass::External,
        Some(d) => {
            if d.state == LargeState::Released {
                PointerClass::Released
            } else if addr == d.base {
                PointerClass::Large { desc: at }
            } else {
                PointerClass::Interior { base: d.base, offset: addr.wrapping_sub(d.base) }
            }
        },
    }
}

/// What an address is, given what owns its page.
pub open spec fn class_of<M: MetadataRegion, D: Descriptors>(
    entry: PageEntry,
    meta: M,
    descs: D,
    addr: usize,
) -> PointerClass {
    if addr == 0 {
        PointerClass::Null
    } else {
        match entry {
            PageEntry::Empty => if meta.covers(addr as int) {
                PointerClass::Metadata
            } else {
                PointerClass::External
            },
            PageEntry::Small(at) => class_in_span(
                at,
                match descs.span(at) {
                    Some(s) => s.geometry(),
                    None => None,
                },
                addr as int,
            ),
            PageEntry::Large(at) => class_in_large(at, descs.large(at), addr),
            PageEntry::Released(_) => PointerClass::Released,
        }
    }
}

/// What an address is. Every address has an answer, whatever the descriptors say.
pub fn classify_ptr<M: MetadataRegion, D: Descriptors>(
    pm: &PageMap,
    meta: &M,
    descs: &D,
    addr: usize,
) -> (res: PointerClass)
    requires
        pm.wf(),
    ensures
        res == class_of(pm@.entry(pagemap::page_no(addr as int)), *meta, *descs, addr),
{
    if addr == 0 {
        return PointerClass::Null;
    }
    match pm.lookup(addr) {
        PageEntry::Empty => {
            if meta.contains(addr) {
                PointerClass::Metadata
            } else {
                PointerClass::External
            }
        },
        PageEntry::Small(at) => classify_in_span(
            at,
            match descs.span_at(at) {
                Some(span) => span.read_consistent_geometry(),
                None => None,
            },
            addr,
        ),
        PageEntry::Large(at) => classify_in_large(at, descs.large_at(at), addr),
        PageEntry::Released(_) => PointerClass::Released,
    }
}

/// What an address on a page of a span is.
fn classify_in_span(at: SpanRef, geometry: Option<ClassifyGeometry>, addr: usize) -> (res:
    PointerClass)
    requires
        geometry matches Some(g) ==> g.object_size > 0,
    ensures
        res == class_in_span(at, geometry, addr as int),
{
    let g: ClassifyGeometry = match geometry {
        Some(g) => g,
        None => return PointerClass::External,
    };
    if g.state == SpanState::Released {
        return PointerClass::Released;
    }
    if g.quarantined {
        return PointerClass::Quarantined;
    }
    if addr < g.base {
        return PointerClass::External;
    }
    if addr < g.object0 {
        return PointerClass::Interior { base: g.base, offset: addr - g.base };
    }
    let delta: usize = addr - g.object0;
    let index: usize = delta / g.object_size;
    let remainder: usize = delta % g.object_size;
    if index >= g.object_count {
        return PointerClass::Interior { base: g.base, offset: addr - g.base };
    }
    if remainder == 0 {
        PointerClass::Small { span: at, sc: g.sc, arena: g.arena, object_index: index }
    } else {
        proof {
            vstd::arithmetic::div_mod::lemma_mod_decreases(delta as nat, g.object_size as nat);
        }
        PointerClass::Interior { base: addr - remainder, offset: remainder }
    }
}

/// What an address on a page of a large allocation is.
fn classify_in_large(at: LargeRef, desc: Option<LargeDescriptor>, addr: usize) -> (res:
    PointerClass)
    ensures
        res == class_in_large(at, desc, addr),
{
    match desc {
        None => PointerClass::External,
        Some(d) => {
            if d.state == LargeState::Released {
                PointerClass::Released
            } else if addr == d.base {
                PointerClass::Large { desc: at }
            } else {
                PointerClass::Interior { base: d.base, offset: addr.wrapping_sub(d.base) }
            }
        },
    }
}

/// What a free resolves to.
#[derive(Clone, Copy, PartialEq, Eq, Debug, Structural)]
pub enum FreeTarget {
    /// Nothing to do.
    Noop,
    /// A small object.
    Small {
        /// Its span.
        span: SpanRef,
        /// Which object of the span it is.
        object_index: usize,
    },
    /// A large allocation.
    Large {
        /// The allocation.
        desc: LargeRef,
    },
}

/// Why an address may not be freed.
#[derive(Clone, Copy, PartialEq, Eq, Debug, Structural)]
pub enum InvalidFree {
    /// It is inside an allocation.
    Interior {
        /// The base of what it is inside of.
        base: usize,
        /// How far inside it is.
        offset: usize,
    },
    /// It is not the allocator's.
    Foreign,
    /// It is the allocator's own metadata.
    Metadata,
    /// The backing of its page was given back.
    Released,
    /// It is in quarantine: it was freed before.
    DoubleFreeQuarantined,
}

/// What a free of an address of that class resolves to.
pub open spec fn free_of(class: PointerClass) -> Result<FreeTarget, InvalidFree> {
    match class {
        PointerClass::Null => Ok(FreeTarget::Noop),
        PointerClass::Small { span, sc, arena, object_index } => Ok(
            FreeTarget::Small { span, object_index },
        ),
        PointerClass::Large { desc } => Ok(FreeTarget::Large { desc }),
        PointerClass::Interior { base, offset } => Err(InvalidFree::Interior { base, offset }),
        PointerClass::Metadata => Err(InvalidFree::Metadata),
        PointerClass::Released => Err(InvalidFree::Released),
        PointerClass::Quarantined => Err(InvalidFree::DoubleFreeQuarantined),
        PointerClass::External => Err(InvalidFree::Foreign),
    }
}

/// Whether an address may be freed: only a base of an allocation may, and no address, which is
/// nothing to do.
pub fn validate_free<M: MetadataRegion, D: Descriptors>(
    pm: &PageMap,
    meta: &M,
    descs: &D,
    addr: usize,
) -> (res: Result<FreeTarget, InvalidFree>)
    requires
        pm.wf(),
    ensures
        res == free_of(
            class_of(pm@.entry(pagemap::page_no(addr as int)), *meta, *descs, addr),
        ),
{
    match classify_ptr(pm, meta, descs, addr) {
        PointerClass::Null => Ok(FreeTarget::Noop),
        PointerClass::Small { span, sc: _, arena: _, object_index } => Ok(
            FreeTarget::Small { span, object_index },
        ),
        PointerClass::Large { desc } => Ok(FreeTarget::Large { desc }),
        PointerClass::Interior { base, offset } => Err(InvalidFree::Interior { base, offset }),
        PointerClass::Metadata => Err(InvalidFree::Metadata),
        PointerClass::Released => Err(InvalidFree::Released),
        PointerClass::Quarantined => Err(InvalidFree::DoubleFreeQuarantined),
        PointerClass::External => Err(InvalidFree::Foreign),
    }
}

/// The base of an object in use is classified as that object, and an address inside it as
/// inside it.
pub proof fn law_objects_are_recognised(at: SpanRef, g: ClassifyGeometry, index: int, offset: int)
    requires
        g.state == SpanState::Active,
        !g.quarantined,
        g.object_size > 0,
        g.base <= g.object0,
        0 <= index < g.object_count,
        0 <= offset < g.object_size,
        g.object0 + index * g.object_size + offset <= usize::MAX,
    ensures
        ({
            let base = g.object0 + index * g.object_size;
            class_in_span(at, Some(g), base + offset) == (if offset == 0 {
                PointerClass::Small {
                    span: at,
                    sc: g.sc,
                    arena: g.arena,
                    object_index: index as usize,
                }
            } else {
                PointerClass::Interior { base: base as usize, offset: offset as usize }
            })
        }),
{
    let size = g.object_size as int;
    let delta = index * size + offset;
    assert(0 <= index * size) by (nonlinear_arith)
        requires
            0 <= index,
            0 < size,
    ;
    vstd::arithmetic::div_mod::lemma_fundamental_div_mod_converse(delta, size, index, offset);
}

/// Only a base of an allocation in use, or no address at all, may be freed.
pub proof fn law_only_bases_are_freed(class: PointerClass)
    ensures
        free_of(class) is Ok <==> (class is Null || class is Small || class is Large),
{
}

/// A small object that is freed is one that its span was carved into, and the address is its
/// base.
pub proof fn law_freed_objects_are_carved(at: SpanRef, g: ClassifyGeometry, addr: usize)
    requires
        g.object_size > 0,
        class_in_span(at, Some(g), addr as int) is Small,
    ensures
        ({
            let i = class_in_span(at, Some(g), addr as int)->object_index;
            &&& i < g.object_count
            &&& addr == g.object0 + i * g.object_size
            &&& g.state == SpanState::Active
            &&& !g.quarantined
        }),
{
    let size = g.object_size as int;
    let delta = addr - g.object0;
    vstd::arithmetic::div_mod::lemma_fundamental_div_mod(delta, size);
    vstd::arithmetic::div_mod::lemma_div_is_ordered_by_denominator(delta, 1, size);
    assert(size * (delta / size) == (delta / size) * size) by (nonlinear_arith);
}

/// The span is in use and its objects can be told: its seal holds, its size class exists, its
/// objects have a size and lie behind its base, and they are not in quarantine.
pub open spec fn in_use(s: SpanDescriptor) -> bool {
    &&& s.state == SpanState::Active
    &&& !s.quarantined
    &&& s.seal is Some ==> s.seal == Some(s.header())
    &&& s.sc.view() < NUM_SIZE_CLASSES
    &&& s.object_size > 0
    &&& s.base <= s.object0
}

/// A free at the base of an object resolves to that object of that span, whichever it is.
pub proof fn law_free_resolves_to_its_object<M: MetadataRegion, D: Descriptors>(
    meta: M,
    descs: D,
    at: SpanRef,
    s: SpanDescriptor,
    index: usize,
    addr: usize,
)
    requires
        descs.span(at) == Some(s),
        in_use(s),
        index < s.object_count,
        addr == s.object0 + index * s.object_size,
        addr != 0,
    ensures
        free_of(class_of(PageEntry::Small(at), meta, descs, addr)) == Ok::<FreeTarget, InvalidFree>(
            FreeTarget::Small { span: at, object_index: index },
        ),
{
    law_objects_are_recognised(at, s.geometry()->0, index as int, 0);
}

/// A free resolves to an object only at that object's base: on a page of its span, which is in
/// use, at the place of the object with that number, of those that there are.
pub proof fn law_freed_object_is_at_its_base<M: MetadataRegion, D: Descriptors>(
    entry: PageEntry,
    meta: M,
    descs: D,
    addr: usize,
    span: SpanRef,
    object_index: usize,
)
    requires
        free_of(class_of(entry, meta, descs, addr)) == Ok::<FreeTarget, InvalidFree>(
            FreeTarget::Small { span, object_index },
        ),
    ensures
        addr != 0,
        entry == PageEntry::Small(span),
        descs.span(span) is Some,
        ({
            let s = descs.span(span)->0;
            &&& s.state == SpanState::Active
            &&& !s.quarantined
            &&& s.seal is Some ==> s.seal == Some(s.header())
            &&& object_index < s.object_count
            &&& addr == s.object0 + object_index * s.object_size
        }),
{
    let s = descs.span(span)->0;
    let g = s.geometry()->0;
    law_freed_objects_are_carved(span, g, addr);
}

/// A free resolves to a large allocation at its base and nowhere else, and to its own
/// descriptor; and it is nothing to do at no address and nowhere else.
pub proof fn law_free_resolves_to_its_allocation<M: MetadataRegion, D: Descriptors>(
    entry: PageEntry,
    meta: M,
    descs: D,
    addr: usize,
    desc: LargeRef,
)
    ensures
        free_of(class_of(entry, meta, descs, addr)) == Ok::<FreeTarget, InvalidFree>(
            FreeTarget::Large { desc },
        ) <==> {
            &&& addr != 0
            &&& entry == PageEntry::Large(desc)
            &&& descs.large(desc) is Some
            &&& descs.large(desc)->0.state == LargeState::Active
            &&& descs.large(desc)->0.base == addr
        },
        free_of(class_of(entry, meta, descs, addr)) == Ok::<FreeTarget, InvalidFree>(
            FreeTarget::Noop,
        ) <==> addr == 0,
{
}

/// A free inside an allocation is refused, and the refusal names what it is inside of: the base
/// and the distance to it make the address, and the base is that of the object, of the span
/// around the objects, or of the large allocation.
pub proof fn law_interior_free_names_the_base<M: MetadataRegion, D: Descriptors>(
    entry: PageEntry,
    meta: M,
    descs: D,
    addr: usize,
    base: usize,
    offset: usize,
)
    requires
        free_of(class_of(entry, meta, descs, addr)) == Err::<FreeTarget, InvalidFree>(
            InvalidFree::Interior { base, offset },
        ),
    ensures
        match entry {
            PageEntry::Small(at) => {
                let s = descs.span(at)->0;
                &&& descs.span(at) is Some
                &&& s.state == SpanState::Active
                &&& !s.quarantined
                &&& base + offset == addr
                &&& base == s.base || {
                    &&& 0 < offset < s.object_size
                    &&& exists|i: int|
                        0 <= i < s.object_count && base == s.object0 + #[trigger] (i * s.object_size)
                }
            },
            PageEntry::Large(at) => {
                let d = descs.large(at)->0;
                &&& descs.large(at) is Some
                &&& d.state == LargeState::Active
                &&& base == d.base
                &&& addr != d.base
                &&& addr >= d.base ==> base + offset == addr
            },
            _ => false,
        },
{
    if let PageEntry::Small(at) = entry {
        let s = descs.span(at)->0;
        let g = s.geometry()->0;
        let size = g.object_size as int;
        let delta = addr - g.object0;
        if !(addr < g.base || delta < 0 || delta / size >= g.object_count) {
            vstd::arithmetic::div_mod::lemma_fundamental_div_mod(delta, size);
            vstd::arithmetic::div_mod::lemma_mod_division_less_than_divisor(delta, size);
            assert(0 <= delta / size) by (nonlinear_arith)
                requires
                    0 <= delta,
                    0 < size,
            ;
            assert(0 <= delta % size <= delta) by (nonlinear_arith)
                requires
                    0 <= delta,
                    0 < size,
            ;
            let i = delta / size;
            assert(size * i == i * size) by (nonlinear_arith);
            assert(base == s.object0 + i * s.object_size);
        }
    }
}

/// Any other free is refused for what the address is: foreign memory that nothing owns and that
/// is no metadata, the allocator's own metadata, memory whose backing was given back, or objects
/// in quarantine.
pub proof fn law_refusal_says_what_it_is<M: MetadataRegion, D: Descriptors>(
    entry: PageEntry,
    meta: M,
    descs: D,
    addr: usize,
)
    requires
        addr != 0,
    ensures
        ({
            let res = free_of(class_of(entry, meta, descs, addr));
            &&& entry is Empty ==> res == (if meta.covers(addr as int) {
                Err::<FreeTarget, InvalidFree>(InvalidFree::Metadata)
            } else {
                Err(InvalidFree::Foreign)
            })
            &&& res == Err::<FreeTarget, InvalidFree>(InvalidFree::Metadata) ==> entry is Empty
                && meta.covers(addr as int)
            &&& entry is Released ==> res == Err::<FreeTarget, InvalidFree>(InvalidFree::Released)
            &&& entry matches PageEntry::Small(at) ==> match descs.span(at) {
                None => res == Err::<FreeTarget, InvalidFree>(InvalidFree::Foreign),
                Some(s) => {
                    let sound = s.object_size > 0 && s.sc.view() < NUM_SIZE_CLASSES && (s.seal is Some
                        ==> s.seal == Some(s.header()));
                    &&& !sound ==> res == Err::<FreeTarget, InvalidFree>(InvalidFree::Foreign)
                    &&& sound && s.state == SpanState::Released ==> res == Err::<
                        FreeTarget,
                        InvalidFree,
                    >(InvalidFree::Released)
                    &&& sound && s.state == SpanState::Active ==> (s.quarantined <==> res == Err::<
                        FreeTarget,
                        InvalidFree,
                    >(InvalidFree::DoubleFreeQuarantined))
                },
            }
            &&& entry matches PageEntry::Large(at) ==> match descs.large(at) {
                None => res == Err::<FreeTarget, InvalidFree>(InvalidFree::Foreign),
                Some(d) => d.state == LargeState::Released <==> res == Err::<
                    FreeTarget,
                    InvalidFree,
                >(InvalidFree::Released),
            }
        }),
{
}

/// Whatever was written over a field of the header of a sealed span, its addresses are foreign
/// from then on, and none of them may be freed.
pub proof fn law_broken_seals_are_foreign(
    at: SpanRef,
    sealed: SpanHeader,
    s: SpanDescriptor,
    addr: usize,
)
    requires
        s.seal == Some(sealed),
        sealed != s.header(),
    ensures
        class_in_span(at, s.geometry(), addr as int) == PointerClass::External,
        free_of(class_in_span(at, s.geometry(), addr as int)) == Err::<FreeTarget, InvalidFree>(
            InvalidFree::Foreign,
        ),
{
}

} // verus!
