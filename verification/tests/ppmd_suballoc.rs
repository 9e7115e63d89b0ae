use newtua_stuffit::sitx::ppmd::suballoc::{BrimstoneAlloc, N_INDEXES, UNIT_SIZE};

#[test]
fn index2units_matches_reference_tables() {
    let a = BrimstoneAlloc::new(0);
    assert_eq!(&a.index2units[0..4], &[1, 2, 3, 4]);
    assert_eq!(&a.index2units[4..8], &[6, 8, 10, 12]);
    assert_eq!(&a.index2units[8..12], &[15, 18, 21, 24]);
    assert_eq!(&a.index2units[12..14], &[28, 32]);
    assert_eq!(N_INDEXES, 38);
    assert_eq!(*a.index2units.last().unwrap(), 128);
}

#[test]
fn units2index_maps_num_minus_one_to_smallest_covering_bucket() {
    let a = BrimstoneAlloc::new(0);
    assert_eq!(a.units2index[0], 0);
    assert_eq!(a.units2index[1], 1);
    assert_eq!(a.units2index[127], 37);
}

#[test]
fn init_reserves_first_unit_as_null_sentinel() {
    let mut a = BrimstoneAlloc::new(120);
    a.init();
    assert_eq!(a.low_unit, UNIT_SIZE);
    assert_eq!(a.high_unit, UNIT_SIZE + UNIT_SIZE * 10);
}

#[test]
fn alloc_context_takes_from_the_top_of_the_heap() {
    let mut a = BrimstoneAlloc::new(48);
    a.init();
    let top = a.high_unit;
    let c1 = a.alloc_context();
    assert_eq!(c1, top - UNIT_SIZE);
    let c2 = a.alloc_context();
    assert_eq!(c2, top - 2 * UNIT_SIZE);
    assert_ne!(c1, 0);
    assert_ne!(c2, 0);
}

#[test]
fn alloc_units_takes_from_the_bottom_when_free_list_empty() {
    let mut a = BrimstoneAlloc::new(48);
    a.init();
    let bottom = a.low_unit;
    let u1 = a.alloc_units(1);
    assert_eq!(u1, bottom);
    let u2 = a.alloc_units(1);
    assert_eq!(u2, bottom + UNIT_SIZE);
}

#[test]
fn free_then_alloc_reuses_the_same_block() {
    let mut a = BrimstoneAlloc::new(48);
    a.init();
    let u1 = a.alloc_units(2);
    a.free_units(u1, 2);
    let u2 = a.alloc_units(2);
    assert_eq!(u1, u2, "freed block must come back off the free list");
}

#[test]
fn alloc_exhausts_and_returns_zero() {
    let mut a = BrimstoneAlloc::new(24);
    a.init();
    assert_ne!(a.alloc_units(1), 0);
    assert_ne!(a.alloc_units(1), 0);
    assert_eq!(a.alloc_units(1), 0, "heap exhausted -> null");
}

#[test]
fn alloc_context_and_alloc_units_meet_in_the_middle_then_fail() {
    let mut a = BrimstoneAlloc::new(24);
    a.init();
    assert_ne!(a.alloc_context(), 0);
    assert_ne!(a.alloc_units(1), 0);
    assert_eq!(a.alloc_units(1), 0);
    assert_eq!(a.alloc_context(), 0);
}

#[test]
fn split_block_leaves_a_reusable_remainder_on_the_free_list() {
    let mut a = BrimstoneAlloc::new(48);
    a.init();
    let big = a.alloc_units(4);
    assert_eq!(
        a.low_unit, a.high_unit,
        "heap fully committed by the bump path"
    );
    a.free_units(big, 4);

    let small = a.alloc_units(1);
    assert_eq!(small, big, "split reuses the start of the freed block");
    assert_eq!(
        a.low_unit, a.high_unit,
        "split must not touch low_unit/high_unit"
    );

    let remainder = a.alloc_units(3);
    assert_eq!(
        remainder,
        big + UNIT_SIZE,
        "remainder starts after the 1-unit piece"
    );
    assert_eq!(a.low_unit, a.high_unit);

    assert_eq!(a.alloc_units(1), 0, "heap and free lists both exhausted");
}

#[test]
fn expand_units_grows_in_place_within_the_same_bucket_without_copying() {
    let mut a = BrimstoneAlloc::new(120);
    a.init();
    let off = a.alloc_units(1);
    a.put_u8(off, 0xAB);
    let grown = a.expand_units(off, 1);
    assert_ne!(grown, 0);
    assert_eq!(
        a.get_u8(grown),
        0xAB,
        "expand must preserve the old payload"
    );
}

#[test]
fn shrink_units_preserves_payload_prefix() {
    let mut a = BrimstoneAlloc::new(120);
    a.init();
    let off = a.alloc_units(3);
    a.put_u32(off, 0xdead_beef);
    let shrunk = a.shrink_units(off, 3, 1);
    assert_ne!(shrunk, 0);
    assert_eq!(a.get_u32(shrunk), 0xdead_beef);
}

#[test]
fn u16_and_u32_are_little_endian() {
    let mut a = BrimstoneAlloc::new(48);
    a.init();
    let off = a.alloc_units(1);
    a.put_u16(off, 0x1234);
    assert_eq!(a.get_u8(off), 0x34);
    assert_eq!(a.get_u8(off + 1), 0x12);
    a.put_u32(off, 0x0102_0304);
    assert_eq!(a.get_u8(off), 0x04);
    assert_eq!(a.get_u8(off + 3), 0x01);
}

#[test]
fn copy_within_handles_forward_overlap_like_memmove() {
    let mut a = BrimstoneAlloc::new(48);
    a.init();
    let base = a.low_unit;
    for i in 0..6 {
        a.put_u8(base + i, i as u8);
    }
    a.copy_within(base, base + 1, 4);
    assert_eq!(
        (0..6).map(|i| a.get_u8(base + i)).collect::<Vec<_>>(),
        vec![0, 0, 1, 2, 3, 5]
    );
}
