//! The page map: installing, looking up, releasing and retiring.
use topo_core::bitmap::PAGE_SIZE;
use topo_core::bootstrap::BumpArena;
use topo_core::ids::{ArenaId, LargeId, SizeClassId, SpanId};
use topo_core::pagemap::{
    level_index, page_of, page_range, PageEntry, PageMap, PagemapError, LEVELS, NODE_BYTES,
    PAGENO_BITS, PAGE_SHIFT, RADIX_BITS, SLOTS,
};
use topo_core::span::{LargeDescriptor, LargeRef, SpanDescriptor, SpanRef, SpanState};

fn meta(bytes: usize) -> BumpArena {
    BumpArena::new(0x10_0000, bytes)
}

fn at(s: &SpanDescriptor) -> SpanRef {
    SpanRef(0x7000_0000 + s.id.0 as usize * 128)
}

fn small_span(id: u32, base: usize, pages: u32, objects: usize) -> SpanDescriptor {
    SpanDescriptor::new(
        SpanId(id),
        ArenaId::default_arena(),
        SizeClassId::new(0),
        base,
        pages,
        objects,
        16,
    )
}

#[test]
fn geometry_consts_are_consistent() {
    assert_eq!(PAGE_SHIFT, 14);
    assert_eq!(PAGENO_BITS, usize::BITS - 14);
    assert_eq!(LEVELS, PAGENO_BITS.div_ceil(RADIX_BITS));
    assert_eq!(NODE_BYTES, SLOTS * core::mem::size_of::<usize>());
    assert_eq!(SLOTS, 1 << RADIX_BITS);
}

#[test]
fn radix_index_decomposition_is_lossless() {
    let reconstruct = |p: usize| -> usize {
        (0..LEVELS).fold(0usize, |acc, k| {
            acc | (level_index(p, k) << (k * RADIX_BITS))
        })
    };
    let max_p = (1u128 << PAGENO_BITS) - 1;
    let mut probes: Vec<usize> = (0..PAGENO_BITS).map(|s| 1usize << s).collect();
    probes.extend([
        0,
        1,
        (max_p) as usize,
        (max_p / 2) as usize,
        (max_p / 3) as usize,
        0xa5a5_a5a5 & max_p as usize,
    ]);
    for p in probes {
        assert!(p as u128 <= max_p);
        assert_eq!(
            reconstruct(p),
            p,
            "radix decomposition lost bits for p={p:#x}"
        );
        for k in 0..LEVELS {
            assert!(level_index(p, k) < SLOTS);
        }
    }
}

#[test]
fn empty_pagemap_classifies_everything_external() {
    let pm = PageMap::new();
    assert!(pm.lookup(0).is_empty());
    assert!(pm.lookup(0x4000_0000).is_empty());
    assert!(pm.lookup(usize::MAX).is_empty());
    assert_eq!(pm.metadata_bytes(), 0);
}

#[test]
fn entry_encoding_round_trips() {
    let s = small_span(1, 0x4000_0000, 1, 64);
    let sp = at(&s);
    for e in [
        PageEntry::Empty,
        PageEntry::Small(sp),
        PageEntry::Released(sp),
    ] {
        match (e, PageEntry::decode(e.encode())) {
            (PageEntry::Empty, PageEntry::Empty) => {}
            (PageEntry::Small(a), PageEntry::Small(b)) => assert_eq!(a, b),
            (PageEntry::Released(a), PageEntry::Released(b)) => assert_eq!(a, b),
            _ => panic!("encoding did not round-trip"),
        }
    }
    let lp = LargeRef(0x7100_0000);
    match PageEntry::decode(PageEntry::Large(lp).encode()) {
        PageEntry::Large(b) => assert_eq!(b, lp),
        _ => panic!("large did not round-trip"),
    }
}

#[test]
fn install_then_lookup_returns_the_span_for_every_owned_page() {
    let mut m = meta(256 * 1024);
    let mut pm = PageMap::new();
    let base = 0x4000_0000;
    let s = small_span(1, base, 2, 64);
    pm.install_span(&mut m, at(&s), &s).unwrap();

    let (lo, hi) = s.range();
    for addr in [lo, lo + 1, lo + PAGE_SIZE, hi - 1] {
        let sp = pm.lookup(addr).span_ptr().expect("owned page");
        assert_eq!(sp, at(&s));
    }
    assert!(pm.lookup(lo - 1).is_empty());
    assert!(pm.lookup(hi).is_empty());
    assert!(pm.metadata_bytes() > 0);
}

#[test]
fn high_address_space_is_mappable_no_va_cap() {
    let mut m = meta(512 * 1024);
    let mut pm = PageMap::new();
    let high = 1usize << 52;
    let s = small_span(1, high, 1, 64);
    pm.install_span(&mut m, at(&s), &s).unwrap();
    assert_eq!(pm.lookup(high).span_ptr().unwrap(), at(&s));
    assert!(pm.lookup(high + PAGE_SIZE).is_empty());
}

#[test]
fn release_then_retire_transitions_entries() {
    let mut m = meta(256 * 1024);
    let mut pm = PageMap::new();
    let mut s = small_span(1, 0x4000_0000, 1, 64);
    pm.install_span(&mut m, at(&s), &s).unwrap();
    let addr = s.base;
    assert!(matches!(pm.lookup(addr), PageEntry::Small(_)));

    s.state = SpanState::Released;
    pm.release_span(at(&s), &s);
    match pm.lookup(addr) {
        PageEntry::Released(p) => assert_eq!(p, at(&s)),
        other => panic!("expected Released, got {other:?}"),
    }

    pm.retire_span(&s);
    assert!(pm.lookup(addr).is_empty());
}

#[test]
fn two_spans_map_their_own_pages_only() {
    let mut m = meta(2 * 1024 * 1024);
    let mut pm = PageMap::new();
    let a = small_span(1, 0x4000_0000, 1, 64);
    let b = small_span(2, 0x4000_0000 + PAGE_SIZE, 1, 64);
    let c = small_span(3, 0x8000_0000, 1, 64);
    pm.install_span(&mut m, at(&a), &a).unwrap();
    pm.install_span(&mut m, at(&b), &b).unwrap();
    pm.install_span(&mut m, at(&c), &c).unwrap();

    assert_eq!(pm.lookup(a.base).span_ptr().unwrap(), at(&a));
    assert_eq!(pm.lookup(b.base).span_ptr().unwrap(), at(&b));
    assert_eq!(pm.lookup(c.base).span_ptr().unwrap(), at(&c));
}

#[test]
fn large_install_and_retire() {
    let mut m = meta(2 * 1024 * 1024);
    let mut pm = PageMap::new();
    let d = LargeDescriptor::new(
        LargeId(1),
        ArenaId::default_arena(),
        0x1_0000_0000,
        3_000_000,
        4096,
    );
    let end = d.base + d.usable;
    let lp = LargeRef(0x7100_0000);
    pm.install_large(&mut m, lp, &d).unwrap();
    assert_eq!(pm.lookup(d.base).large_ptr().unwrap(), lp);
    assert_eq!(pm.lookup(end - 1).large_ptr().unwrap(), lp);
    assert!(!pm.lookup(end).is_empty());
    let first_unowned = (page_of(end - 1) + 1) << PAGE_SHIFT;
    assert!(pm.lookup(first_unowned).is_empty());

    pm.retire_large(&d);
    assert!(pm.lookup(d.base).is_empty());
}

#[test]
fn install_out_of_metadata_fails_safely() {
    let mut m = meta(4 * 1024);
    let mut pm = PageMap::new();
    let s = small_span(1, 0x4000_0000, 1, 64);
    assert_eq!(
        pm.install_span(&mut m, at(&s), &s),
        Err(PagemapError::OutOfMetadata)
    );
    assert!(pm.lookup(s.base).is_empty());
}

#[test]
fn concurrent_install_and_lookup_never_tears() {
    const N: usize = 64;
    let mut m = meta(2 * 1024 * 1024);
    let mut pm = PageMap::new();
    let spans: Vec<SpanDescriptor> = (0..N)
        .map(|i| small_span(i as u32, 0x4000_0000 + i * PAGE_SIZE, 1, 64))
        .collect();

    for _ in 0..4 {
        for span in &spans {
            pm.install_span(&mut m, at(span), span).unwrap();
            for (i, other) in spans.iter().enumerate() {
                if let Some(p) = pm.lookup(other.base).span_ptr() {
                    assert_eq!(p, at(&spans[i]));
                }
            }
        }
    }

    for (i, span) in spans.iter().enumerate() {
        assert_eq!(pm.lookup(span.base).span_ptr().unwrap(), at(&spans[i]));
    }
}

#[test]
fn page_range_is_inclusive_and_empty_safe() {
    let count = |(first, end): (usize, usize)| end - first;
    assert_eq!(count(page_range(0, 0)), 0);
    assert_eq!(count(page_range(PAGE_SIZE, PAGE_SIZE)), 0);
    assert_eq!(count(page_range(0, 1)), 1);
    assert_eq!(count(page_range(0, PAGE_SIZE)), 1);
    assert_eq!(count(page_range(0, PAGE_SIZE + 1)), 2);
}

#[test]
fn a_partial_install_is_retired_with_the_span() {
    // Pages in two leaves, with metadata for the first leaf's path only.
    let mut m = meta(5 * NODE_BYTES);
    let mut pm = PageMap::new();
    let base = (SLOTS - 1) << PAGE_SHIFT;
    let s = small_span(1, base, 2, 64);
    assert_eq!(
        pm.install_span(&mut m, at(&s), &s),
        Err(PagemapError::OutOfMetadata)
    );
    assert_eq!(pm.lookup(base).span_ptr(), Some(at(&s)));
    assert!(pm.lookup(base + PAGE_SIZE).is_empty());
    pm.retire_span(&s);
    assert!(pm.lookup(base).is_empty());
    assert_eq!(pm.metadata_bytes(), 5 * NODE_BYTES);
}

#[test]
fn release_touches_mapped_pages_only() {
    let mut pm = PageMap::new();
    let s = small_span(1, 0x4000_0000, 1, 64);
    pm.release_span(at(&s), &s);
    assert!(pm.lookup(s.base).is_empty());
    assert_eq!(pm.metadata_bytes(), 0);
}

#[test]
fn default_page_map_is_empty() {
    let pm = PageMap::default();
    assert!(pm.lookup(0x4000_0000).is_empty());
}

#[test]
fn nodes_are_made_where_they_are_missing_and_nowhere_else() {
    let mut m = meta(6 * NODE_BYTES);
    let mut pm = PageMap::new();
    let leaf_bytes = SLOTS * PAGE_SIZE;
    let first = small_span(1, 0x4000_0000_0000, 2, 64);
    pm.install_span(&mut m, at(&first), &first).unwrap();
    assert_eq!(pm.metadata_bytes(), 5 * NODE_BYTES, "a whole path");
    let same = small_span(2, first.base + 8 * PAGE_SIZE, 4, 64);
    pm.install_span(&mut m, at(&same), &same).unwrap();
    pm.install_span(&mut m, at(&first), &first).unwrap();
    assert_eq!(pm.metadata_bytes(), 5 * NODE_BYTES, "every node is there");
    let next = small_span(3, first.base + leaf_bytes - PAGE_SIZE, 2, 64);
    pm.install_span(&mut m, at(&next), &next).unwrap();
    assert_eq!(pm.metadata_bytes(), 6 * NODE_BYTES, "one leaf more");
    assert_eq!(m.vend(1, 1), None, "six nodes are all there was room for");
    pm.retire_span(&next);
    assert_eq!(pm.metadata_bytes(), 6 * NODE_BYTES);
}
