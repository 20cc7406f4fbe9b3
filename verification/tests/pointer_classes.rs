//! What an address is, and which addresses may be freed.
use topo_core::bitmap::PAGE_SIZE;
use topo_core::bootstrap::BumpArena;
use topo_core::ids::{ArenaId, LargeId, SizeClassId, SpanId};
use topo_core::pagemap::{PageEntry, PageMap};
use topo_core::ptr_class::{
    classify_ptr, validate_free, AnyMetadataRegion, FreeTarget, InvalidFree, NoMetadata,
    PointerClass,
};
use topo_core::span::{
    DescriptorTable, LargeDescriptor, LargeRef, SpanDescriptor, SpanRef, SpanState,
};

const AT: SpanRef = SpanRef(0x7000_0000);

fn meta_arena(bytes: usize) -> BumpArena {
    BumpArena::new(0x10_0000, bytes)
}

fn span(base: usize, sc: usize, objects: usize) -> SpanDescriptor {
    SpanDescriptor::new(
        SpanId(1),
        ArenaId::default_arena(),
        SizeClassId::new(sc),
        base,
        1,
        objects,
        16,
    )
}

/// A page map and a table with one span in both.
fn with_span(s: &SpanDescriptor) -> (BumpArena, PageMap, DescriptorTable) {
    let mut m = meta_arena(256 * 1024);
    let mut pm = PageMap::new();
    let mut descs = DescriptorTable::new();
    pm.install_span(&mut m, AT, s).unwrap();
    descs.put_span(AT, *s);
    (m, pm, descs)
}

#[test]
fn null_classifies_null() {
    let pm = PageMap::new();
    assert!(matches!(
        classify_ptr(&pm, &NoMetadata, &DescriptorTable::new(), 0),
        PointerClass::Null
    ));
}

#[test]
fn foreign_pointer_is_external() {
    let pm = PageMap::new();
    assert!(matches!(
        classify_ptr(&pm, &NoMetadata, &DescriptorTable::new(), 0xdead_0000),
        PointerClass::External
    ));
}

#[test]
fn small_base_pointers_classify_small_with_object_index() {
    let s = span(0x4000_0000, 0, 64);
    let (m, pm, descs) = with_span(&s);
    let size = s.object_size;
    let base0 = s.object0;

    for i in [0usize, 1, 31, 63] {
        let addr = base0 + i * size;
        match classify_ptr(&pm, &m, &descs, addr) {
            PointerClass::Small {
                object_index, sc, ..
            } => {
                assert_eq!(object_index, i);
                assert_eq!(sc, SizeClassId::new(0));
            }
            other => panic!("expected Small at object {i}, got {other:?}"),
        }
    }
}

#[test]
fn interior_pointers_are_detected() {
    let s = span(0x4000_0000, 0, 64);
    let (m, pm, descs) = with_span(&s);
    let size = s.object_size;
    let base0 = s.object0;

    let interior = base0 + size + 4;
    match classify_ptr(&pm, &m, &descs, interior) {
        PointerClass::Interior { base, offset } => {
            assert_eq!(base, base0 + size);
            assert_eq!(offset, 4);
        }
        other => panic!("expected Interior, got {other:?}"),
    }
    assert!(matches!(
        validate_free(&pm, &m, &descs, interior),
        Err(InvalidFree::Interior { base, offset }) if base == base0 + size && offset == 4
    ));
}

#[test]
fn trailing_padding_is_interior_not_a_phantom_object() {
    let s = span(0x4000_0000, 0, 4);
    let (m, pm, descs) = with_span(&s);
    let past = s.object0 + 10 * s.object_size;
    assert!(matches!(
        classify_ptr(&pm, &m, &descs, past),
        PointerClass::Interior { .. }
    ));
}

#[test]
fn large_base_and_interior() {
    let mut m = meta_arena(512 * 1024);
    let mut pm = PageMap::new();
    let d = LargeDescriptor::new(
        LargeId(1),
        ArenaId::default_arena(),
        0x1_0000_0000,
        3_000_000,
        4096,
    );
    let lp = LargeRef(0x7100_0000);
    let mut descs = DescriptorTable::new();
    pm.install_large(&mut m, lp, &d).unwrap();
    descs.put_large(lp, d);

    match classify_ptr(&pm, &m, &descs, d.base) {
        PointerClass::Large { desc } => assert_eq!(desc, lp),
        other => panic!("expected Large, got {other:?}"),
    }
    match classify_ptr(&pm, &m, &descs, d.base + 1) {
        PointerClass::Interior { base, offset } => {
            assert_eq!(base, d.base);
            assert_eq!(offset, 1);
        }
        other => panic!("expected Interior, got {other:?}"),
    }
    assert_eq!(
        validate_free(&pm, &m, &descs, d.base),
        Ok(FreeTarget::Large { desc: lp })
    );
}

#[test]
fn released_pages_classify_released() {
    let mut s = span(0x4000_0000, 0, 64);
    let (m, mut pm, mut descs) = with_span(&s);
    s.state = SpanState::Released;
    descs.put_span(AT, s);
    pm.release_span(AT, &s);
    assert!(matches!(
        classify_ptr(&pm, &m, &descs, s.base),
        PointerClass::Released
    ));
    assert!(matches!(
        validate_free(&pm, &m, &descs, s.base),
        Err(InvalidFree::Released)
    ));
}

#[test]
fn released_state_classifies_released_even_before_entries_are_overwritten() {
    let mut s = span(0x4000_0000, 0, 64);
    let (m, pm, mut descs) = with_span(&s);
    s.state = SpanState::Released;
    descs.put_span(AT, s);
    assert!(matches!(pm.lookup(s.base), PageEntry::Small(_)));
    assert!(matches!(
        classify_ptr(&pm, &m, &descs, s.base),
        PointerClass::Released
    ));
}

#[test]
fn quarantined_span_classifies_quarantined() {
    let mut s = span(0x4000_0000, 0, 64);
    let (m, pm, mut descs) = with_span(&s);
    s.quarantined = true;
    descs.put_span(AT, s);
    let base0 = s.object0;
    assert!(matches!(
        classify_ptr(&pm, &m, &descs, base0),
        PointerClass::Quarantined
    ));
    assert!(matches!(
        validate_free(&pm, &m, &descs, base0),
        Err(InvalidFree::DoubleFreeQuarantined)
    ));
}

#[test]
fn composite_metadata_region_recognizes_all_sources() {
    let pm = PageMap::new();
    let descs = DescriptorTable::new();
    let mut boot = BumpArena::new(0x10_0000, 64 * 1024);
    let mut succ = BumpArena::new(0x20_0000, 64 * 1024);
    let from_boot = boot.vend(64, 16).unwrap();
    let from_succ = succ.vend(64, 16).unwrap();

    assert!(matches!(
        classify_ptr(&pm, &boot, &descs, from_succ),
        PointerClass::External
    ));
    let both = [&boot, &succ];
    let all = AnyMetadataRegion(&both);
    assert!(matches!(
        classify_ptr(&pm, &all, &descs, from_boot),
        PointerClass::Metadata
    ));
    assert!(matches!(
        classify_ptr(&pm, &all, &descs, from_succ),
        PointerClass::Metadata
    ));
}

#[test]
fn metadata_pointers_are_distinguished_from_foreign() {
    let mut m = meta_arena(256 * 1024);
    let pm = PageMap::new();
    let descs = DescriptorTable::new();
    let meta_addr = m.vend(64, 16).unwrap();
    assert!(matches!(
        classify_ptr(&pm, &m, &descs, meta_addr),
        PointerClass::Metadata
    ));
    assert!(matches!(
        validate_free(&pm, &m, &descs, meta_addr),
        Err(InvalidFree::Metadata)
    ));
    assert!(matches!(
        classify_ptr(&pm, &m, &descs, 0xffff_0000_0000),
        PointerClass::External
    ));
}

#[test]
fn validate_free_accepts_base_and_null_only() {
    let s = span(0x4000_0000, 0, 64);
    let (m, pm, descs) = with_span(&s);
    let base0 = s.object0;

    assert!(matches!(
        validate_free(&pm, &m, &descs, 0),
        Ok(FreeTarget::Noop)
    ));
    assert!(matches!(
        validate_free(&pm, &m, &descs, base0),
        Ok(FreeTarget::Small {
            object_index: 0,
            ..
        })
    ));
    assert!(matches!(
        validate_free(&pm, &m, &descs, 0x10),
        Err(InvalidFree::Foreign)
    ));
}

#[test]
fn interior_pointer_across_a_page_boundary_stays_interior() {
    let s = SpanDescriptor::new(
        SpanId(1),
        ArenaId::default_arena(),
        SizeClassId::new(0),
        0x4000_0000,
        2,
        2048,
        16,
    );
    let (m, pm, descs) = with_span(&s);
    let size = s.object_size;
    let base0 = s.object0;
    let in_second_page = base0 + (PAGE_SIZE / size) * size;
    assert!(matches!(
        classify_ptr(&pm, &m, &descs, in_second_page),
        PointerClass::Small { .. }
    ));
    assert!(matches!(
        classify_ptr(&pm, &m, &descs, in_second_page + 3),
        PointerClass::Interior { .. }
    ));
}

#[test]
fn classify_is_total_over_a_corrupted_size_class() {
    let mut s = span(0x4000_0000, 0, 64);
    let (m, pm, mut descs) = with_span(&s);
    let addr = s.object0;
    s.sc = SizeClassId::new(40_000);
    descs.put_span(AT, s);
    assert!(matches!(
        classify_ptr(&pm, &m, &descs, addr),
        PointerClass::External
    ));
}

#[test]
fn classify_detects_header_corruption_in_hardened() {
    let mut s = span(0x4000_0000, 0, 64).sealed();
    let (m, pm, mut descs) = with_span(&s);
    let addr = s.object0;
    s.object_count = 12_345;
    descs.put_span(AT, s);
    assert!(matches!(
        classify_ptr(&pm, &m, &descs, addr),
        PointerClass::External
    ));
}

#[test]
fn a_seal_passes_until_the_header_is_written_over() {
    let mut s = span(0x4000_0000, 0, 64).sealed();
    let (m, pm, mut descs) = with_span(&s);
    let addr = s.object0;
    assert!(s.is_intact());
    assert!(matches!(
        classify_ptr(&pm, &m, &descs, addr),
        PointerClass::Small { .. }
    ));
    s.quarantined = true;
    assert!(s.is_intact(), "not part of the header");
    s.base += PAGE_SIZE;
    descs.put_span(AT, s);
    assert!(!s.is_intact());
    assert_eq!(
        validate_free(&pm, &m, &descs, addr),
        Err(InvalidFree::Foreign)
    );
}

#[test]
fn classify_under_recycle_to_higher_base_is_total() {
    let s = span(0x4000_0000, 0, 64);
    let (m, pm, mut descs) = with_span(&s);
    let low = s.object0;
    descs.put_span(AT, span(0x9000_0000, 0, 64));
    assert!(
        pm.lookup(low).span_ptr().is_some(),
        "stale entry still owns the page"
    );
    assert!(matches!(
        classify_ptr(&pm, &m, &descs, low),
        PointerClass::External
    ));
}

#[test]
fn classify_is_consistent_under_concurrent_recycle() {
    let s = span(0x4000_0000, 0, 64);
    let (m, pm, mut descs) = with_span(&s);
    let obj0 = s.object0;
    for n in 0..20_000usize {
        let oc = 1 + (n % 64);
        let base = if n % 2 == 0 { 0x4000_0000 } else { 0x9000_0000 };
        descs.put_span(AT, span(base, 0, oc));
        match classify_ptr(&pm, &m, &descs, obj0) {
            PointerClass::Small {
                object_index: 0, ..
            } => assert_eq!(base, 0x4000_0000),
            PointerClass::External => assert_eq!(base, 0x9000_0000),
            other => panic!("torn classification under recycle: {other:?}"),
        }
    }
}

#[test]
fn a_page_of_an_unknown_descriptor_is_external() {
    let s = span(0x4000_0000, 0, 64);
    let (m, pm, _) = with_span(&s);
    assert_eq!(
        classify_ptr(&pm, &m, &DescriptorTable::new(), s.object0),
        PointerClass::External
    );
}
