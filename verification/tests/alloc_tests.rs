use bootutil::cheap_alloc::{AdrRange, AllocError, CheapAlloc, SlotDefs, RANGE_BUF_LEN};

fn two_slot_alloc() -> CheapAlloc {
    let mut defs = SlotDefs::new();
    defs.set(0, 0x00000, 0x0ffff);
    defs.set(1, 0x10000, 0x1ffff);
    let mut ca = CheapAlloc::new();
    ca.init_with_slotdefs(&defs);
    ca
}

#[test]
fn cheap_alloc_test() {
    assert_eq!(2 + 2, 4);
    let mut defs = SlotDefs::new();
    defs.set(0, 0x00000, 0x0ffff);
    defs.set(1, 0x10000, 0x1ffff);
    let mut ca = CheapAlloc::new();
    ca.init_with_slotdefs(&defs);
    let _ = ca.allocate(0x1 | 0x2, 0x10000, 8);
}

#[test]
fn init_state() {
    let ca = two_slot_alloc();
    assert_eq!(ca.free_pool_len(), RANGE_BUF_LEN);
    for i in 0..8 {
        assert_eq!(ca.slot_free_len(i), 0);
        assert_eq!(ca.slot_used_len(i), 0);
    }
    assert_eq!(ca.slot_bounds(0), (0x00000, 0x0ffff));
    assert_eq!(ca.slot_bounds(1), (0x10000, 0x1ffff));
    assert_eq!(ca.slot_bounds(2), (0, 0));
}

#[test]
fn register_zero_length_is_noop() {
    let mut ca = two_slot_alloc();
    assert_eq!(ca.add_free_range(0, 0x100, 0), Ok(()));
    assert_eq!(ca.free_pool_len(), RANGE_BUF_LEN);
    assert_eq!(ca.slot_free_len(0), 0);
}

#[test]
fn register_and_inspect() {
    let mut ca = two_slot_alloc();
    assert_eq!(ca.add_free_range(0, 0x0, 0x10000), Ok(()));
    assert_eq!(ca.free_pool_len(), RANGE_BUF_LEN - 1);
    assert_eq!(ca.slot_free_len(0), 1);
    assert_eq!(ca.slot_free_at(0, 0), AdrRange { adr: 0x0, bytes: 0x10000 });
}

/// Descriptors are only moved, never created or destroyed: the pool plus
/// every slot's lists always count the whole descriptor pool.
#[test]
fn descriptor_conservation_across_operations() {
    let mut ca = two_slot_alloc();
    assert_eq!(ca.add_free_range(0, 0x0, 0x10000), Ok(()));
    assert_eq!(ca.add_free_range(1, 0x10000, 0x8000), Ok(()));
    let r = ca.allocate(0b01, 0x100, 0x10);
    assert!(r.is_ok());
    let mut counted = ca.free_pool_len();
    for i in 0..8 {
        counted += ca.slot_free_len(i) + ca.slot_used_len(i);
    }
    assert_eq!(counted, RANGE_BUF_LEN);
}

/// Scenario: two slots, one registered range, a small aligned request.
#[test]
fn allocate_first_fit_scenario() {
    let mut ca = two_slot_alloc();
    assert_eq!(ca.add_free_range(0, 0x0, 0x10000), Ok(()));
    let r = ca.allocate(0b01, 0x100, 0x10);
    let x = r.unwrap();
    assert_eq!(x.adr, 0x0);
    assert_eq!(x.slot, 0);
    assert_eq!(ca.slot_used_len(0), 1);
    assert_eq!(ca.slot_used_at(0, 0), AdrRange { adr: 0x0, bytes: 0x100 });
    assert_eq!(ca.slot_free_len(0), 1);
    assert_eq!(ca.slot_free_at(0, 0), AdrRange { adr: 0x100, bytes: 0xff00 });
}

/// Scenario: the only selected slot is far too small.
#[test]
fn allocate_no_fit_scenario() {
    let mut ca = two_slot_alloc();
    assert_eq!(ca.add_free_range(0, 0x0, 0x10000), Ok(()));
    assert_eq!(ca.add_free_range(1, 0x10000, 0x10000), Ok(()));
    let r = ca.allocate(0b10, 0x100000, 0x10);
    assert_eq!(r, Err(AllocError::NoFit));
}

/// A successful allocation is aligned and lies inside the matched range.
#[test]
fn allocate_respects_alignment() {
    let mut ca = two_slot_alloc();
    // an oddly placed range forces an alignment gap
    assert_eq!(ca.add_free_range(0, 0x11, 0x1000), Ok(()));
    let x = ca.allocate(0b01, 0x80, 0x40).unwrap();
    assert_eq!(x.adr % 0x40, 0);
    assert_eq!(x.adr, 0x40);
    assert!(x.adr + 0x80 <= 0x11 + 0x1000);
    // the leading and trailing remainders stay free
    assert_eq!(ca.slot_free_len(0), 2);
    assert_eq!(ca.slot_free_at(0, 0), AdrRange { adr: 0xc0, bytes: 0x11 + 0x1000 - 0xc0 });
    assert_eq!(ca.slot_free_at(0, 1), AdrRange { adr: 0x11, bytes: 0x2f });
    assert_eq!(ca.slot_used_at(0, 0), AdrRange { adr: 0x40, bytes: 0x80 });
}

/// An exact match moves the whole descriptor without splitting.
#[test]
fn allocate_exact_match() {
    let mut ca = two_slot_alloc();
    assert_eq!(ca.add_free_range(0, 0x200, 0x100), Ok(()));
    let before = ca.free_pool_len();
    let x = ca.allocate(0b01, 0x100, 0x10).unwrap();
    assert_eq!(x.adr, 0x200);
    assert_eq!(ca.slot_free_len(0), 0);
    assert_eq!(ca.slot_used_len(0), 1);
    assert_eq!(ca.free_pool_len(), before);
}

/// First fit: the scan takes the first range in list order that is large
/// enough, not a tighter one.
#[test]
fn allocate_takes_first_fit() {
    let mut ca = two_slot_alloc();
    assert_eq!(ca.add_free_range(0, 0x1000, 0x100), Ok(()));
    assert_eq!(ca.add_free_range(0, 0x2000, 0x400), Ok(()));
    // list order is most-recent first: {0x2000,0x400} then {0x1000,0x100}
    let x = ca.allocate(0b01, 0x100, 0x10).unwrap();
    assert_eq!(x.adr, 0x2000);
}

/// Exhaustion: with every descriptor in use, one more registration fails
/// with `Exhausted`, and nothing else.
#[test]
fn register_exhausts_pool() {
    let mut defs = SlotDefs::new();
    defs.set(0, 0x0, 0xffffff);
    let mut ca = CheapAlloc::new();
    ca.init_with_slotdefs(&defs);
    for k in 0..RANGE_BUF_LEN {
        assert_eq!(ca.add_free_range(0, k * 0x100, 0x10), Ok(()));
    }
    assert_eq!(ca.free_pool_len(), 0);
    assert_eq!(
        ca.add_free_range(0, RANGE_BUF_LEN * 0x100, 0x10),
        Err(AllocError::Exhausted)
    );
    assert_eq!(ca.slot_free_len(0), RANGE_BUF_LEN);
}

/// A split that would need a fresh descriptor fails with `Exhausted` when
/// the pool is dry, and the free range is left untouched.
#[test]
fn allocate_split_exhausted() {
    let mut defs = SlotDefs::new();
    defs.set(0, 0x0, 0xffffff);
    let mut ca = CheapAlloc::new();
    ca.init_with_slotdefs(&defs);
    for k in 0..RANGE_BUF_LEN {
        assert_eq!(ca.add_free_range(0, k * 0x100 + 0x10, 0x30), Ok(()));
    }
    assert_eq!(ca.free_pool_len(), 0);
    // the request fits, but needs remainders split off
    let r = ca.allocate(0b01, 0x10, 0x20);
    assert_eq!(r, Err(AllocError::Exhausted));
    assert_eq!(ca.slot_free_len(0), RANGE_BUF_LEN);
    assert_eq!(ca.slot_used_len(0), 0);
}

/// The mask narrows the scan: a fitting range in an unselected slot does
/// not count.
#[test]
fn mask_excludes_slots() {
    let mut ca = two_slot_alloc();
    assert_eq!(ca.add_free_range(0, 0x0, 0x10000), Ok(()));
    assert_eq!(ca.allocate(0b10, 0x100, 0x10), Err(AllocError::NoFit));
    let x = ca.allocate(0b01, 0x100, 0x10).unwrap();
    assert_eq!(x.adr, 0x0);
}
