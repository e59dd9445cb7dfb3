use toolbox::arena::{bump_down_layout, is_power_of_two, Arena, ArenaErr, Layout};

fn layout(size: usize, align: usize) -> Layout {
    Layout::from_size_align(size, align).unwrap()
}

#[test]
fn realloc_heterogenous() {
    let mut arena = Arena::<1, 4>::new_in();

    let r1 = 0..100u8;
    let r2 = 0..100u16;
    let r3 = 0..100u32;

    for (e1, (e2, e3)) in r1.zip(r2.zip(r3)) {
        let h3 = arena.try_alloc(e3).unwrap();
        let h2 = arena.try_alloc(e2).unwrap();
        let h1 = arena.try_alloc(e1).unwrap();

        let v1 = arena.try_get(h1).unwrap();
        assert_eq!(e1, v1);
        let v2 = arena.try_get(h2).unwrap();
        assert_eq!(e2, v2);
        let v3 = arena.try_get(h3).unwrap();
        assert_eq!(e3, v3);
    }
}

#[test]
fn ser_full_circle() {
    let mut arena = Arena::<2, 4>::new_in();

    let _h = arena.try_alloc(0u16).unwrap();

    let mem = arena.as_slice();
    assert_eq!(mem, &[0u8, 0u8]);

    let _new_arena = Arena::<2, 4>::new_in();
}

#[test]
fn bump_down_values() {
    assert_eq!(bump_down_layout(10, layout(3, 4)), Some(4));
    assert_eq!(bump_down_layout(10, layout(2, 2)), Some(8));
    assert_eq!(bump_down_layout(2, layout(3, 1)), None);
    assert_eq!(bump_down_layout(8, layout(0, 8)), Some(8));
    assert_eq!(bump_down_layout(7, layout(0, 8)), Some(0));
    assert_eq!(bump_down_layout(3, layout(3, 1)), Some(0));
}

#[test]
fn layout_validity() {
    assert!(Layout::from_size_align(3, 4).is_some());
    assert!(Layout::from_size_align(0, 1).is_some());
    assert!(Layout::from_size_align(3, 3).is_none());
    assert!(Layout::from_size_align(1, 0).is_none());
    assert!(Layout::from_size_align(usize::MAX, 1).is_none());
    assert!(Layout::from_size_align(isize::MAX as usize, 1).is_some());
    assert!(Layout::from_size_align(isize::MAX as usize, 2).is_none());
    for (s, a) in [(0usize, 1usize), (5, 8), (16, 16), (7, 3), (8, 12)] {
        assert_eq!(
            Layout::from_size_align(s, a).is_some(),
            std::alloc::Layout::from_size_align(s, a).is_ok()
        );
    }
    let l = Layout::new::<u64>();
    assert_eq!((l.size(), l.align()), (8, std::mem::align_of::<u64>()));
    let l = Layout::new::<[u16; 3]>();
    assert_eq!((l.size(), l.align()), (6, 2));
}

#[test]
fn powers_of_two() {
    for n in [1usize, 2, 4, 1024, 1 << 40] {
        assert!(is_power_of_two(n));
    }
    for n in [0usize, 3, 6, 1023, usize::MAX] {
        assert!(!is_power_of_two(n));
    }
}

#[test]
fn layout_positions_and_growth() {
    let mut arena = Arena::<1, 4>::new_in();
    // Region of 4 bytes: a 2-byte block aligned to 2 lands at position 2.
    assert_eq!(arena.try_alloc_layout(layout(2, 2)).unwrap(), 2);
    assert_eq!(arena.as_slice().len(), 2);
    // A byte right below it.
    assert_eq!(arena.try_alloc_layout(layout(1, 1)).unwrap(), 1);
    assert_eq!(arena.as_slice().len(), 3);
    // 4 bytes aligned to 4 do not fit: the region grows to 8, the 3 bytes
    // in use move to its end, and the block lands at 0 with one byte of padding.
    assert_eq!(arena.try_alloc_layout(layout(4, 4)).unwrap(), 0);
    assert_eq!(arena.as_slice().len(), 8);
    // Growth doubles until the request fits: 8 -> 32 for 20 more bytes.
    assert_eq!(arena.try_alloc_layout(layout(20, 1)).unwrap(), 4);
    assert_eq!(arena.as_slice().len(), 28);
}

#[test]
fn bytes_round_trip_and_padding() {
    let mut arena = Arena::<1, 8>::new_in();
    let a = arena.try_alloc_bytes(layout(3, 1), &[1, 2, 3]).unwrap();
    assert_eq!(a, 3);
    let b = arena.try_alloc_bytes(layout(4, 4), &[4, 5, 6, 7]).unwrap();
    // 3 bytes used in a region of 4: growth to 8, block at 0, padding 1.
    assert_eq!(b, 8);
    assert_eq!(arena.as_slice(), &[4, 5, 6, 7, 0, 1, 2, 3]);
    assert_eq!(arena.try_get_bytes(a, 3).unwrap(), &[1, 2, 3]);
    assert_eq!(arena.try_get_bytes(b, 4).unwrap(), &[4, 5, 6, 7]);
    assert_eq!(arena.try_get_bytes(b, 2).unwrap(), &[4, 5]);
}

#[test]
fn get_out_of_range_fails() {
    let mut arena = Arena::<1, 4>::new_in();
    let a = arena.try_alloc_bytes(layout(2, 1), &[9, 9]).unwrap();
    // Within the region of 4 bytes, below the bytes in use: zeros.
    assert_eq!(arena.try_get_bytes(a + 1, 1).unwrap(), &[0]);
    assert_eq!(arena.try_get_bytes(4, 3).unwrap(), &[0, 0, 9]);
    // Before the start of the region, or past its end.
    assert!(arena.try_get_bytes(5, 1).is_err());
    assert!(arena.try_get_bytes(a, 3).is_err());
    assert!(arena.try_get_bytes(0, 0).is_ok());
    let h = arena.try_alloc(5u8).unwrap();
    assert_eq!(arena.try_get(h).unwrap(), 5u8);
    assert_eq!(arena.try_get_partial(h).unwrap(), 5u8);
}

#[test]
fn pointers_are_aligned() {
    let mut arena = Arena::<1, 8>::new_in();
    let _ = arena.try_alloc(1u8).unwrap();
    let h = arena.try_alloc(0x1122_3344u32).unwrap();
    assert_eq!(arena.try_get_ptr(h).unwrap() % 4, 0);
    let _ = arena.try_alloc(1u8).unwrap();
    let g = arena.try_alloc(7u64).unwrap();
    assert_eq!(arena.try_get_ptr(g).unwrap() % 8, 0);
    assert_eq!(arena.try_get(h).unwrap(), 0x1122_3344u32);
    assert_eq!(arena.try_get(g).unwrap(), 7u64);
    assert_eq!(h.offset(), 8);
}

#[test]
fn indices_survive_many_growths() {
    let mut arena = Arena::<2, 8>::new_in();
    let mut handles = Vec::new();
    for i in 0..500u64 {
        handles.push((arena.try_alloc(i * 3).unwrap(), arena.try_alloc(i as u16).unwrap()));
    }
    for (i, (h64, h16)) in handles.into_iter().enumerate() {
        assert_eq!(arena.try_get(h64).unwrap(), i as u64 * 3);
        assert_eq!(arena.try_get(h16).unwrap(), i as u16);
    }
}

#[test]
fn try_new_in_gives_empty_arena() {
    let arena = Arena::<4, 16>::try_new_in().unwrap();
    assert!(arena.as_slice().is_empty());
    assert_eq!(format!("{:?}", ArenaErr), "ArenaErr");
}

#[test]
fn partial_read_of_valid_values() {
    let mut arena = Arena::<1, 1>::new_in();
    let h = arena.try_alloc(true).unwrap();
    assert_eq!(arena.try_get_partial(h).unwrap(), true);
    let g = arena.try_alloc(false).unwrap();
    assert_eq!(arena.try_get_partial(g).unwrap(), false);
    assert_eq!(arena.try_get_partial(h).unwrap(), true);
}

#[test]
fn stored_bytes_are_the_value_bytes() {
    let mut arena = Arena::<4, 4>::new_in();
    let h = arena.try_alloc(0x1122_3344u32).unwrap();
    assert_eq!(arena.as_slice(), &0x1122_3344u32.to_ne_bytes());
    assert_eq!(arena.try_get_bytes(h.offset(), 4).unwrap(), &0x1122_3344u32.to_ne_bytes());
}

#[test]
fn get_reads_handed_out_values() {
    let mut arena = Arena::<1, 4>::new_in();
    let a = arena.try_alloc(0xabu8).unwrap();
    let b = arena.try_alloc(0x1234u16).unwrap();
    let c = arena.try_alloc(0xdead_beefu32).unwrap();
    assert_eq!(arena.get(a), 0xabu8);
    assert_eq!(arena.get(b), 0x1234u16);
    assert_eq!(arena.get(c), 0xdead_beefu32);
}

#[test]
fn pointers_of_handed_out_indices() {
    let mut arena = Arena::<1, 4>::new_in();
    let a = arena.try_alloc(1u8).unwrap();
    let b = arena.try_alloc(2u32).unwrap();
    let used = arena.as_slice().len();
    // The region grew to 8 bytes; all 8 are in use, so positions count from 0.
    assert_eq!(used, 8);
    assert_eq!(arena.try_get_ptr(b).unwrap(), used - b.offset() as usize);
    assert_eq!(arena.try_get_ptr(a).unwrap(), used - a.offset() as usize);
}

#[test]
fn growth_for_a_large_block() {
    let mut arena = Arena::<1, 4>::new_in();
    let h = arena.try_alloc(0x0403_0201u32).unwrap();
    assert_eq!(arena.as_slice().len(), 4);
    // 16 more bytes: the region grows 4 -> 8 -> 16 -> 32.
    let pos = arena.try_alloc_layout(Layout::new::<[u8; 16]>()).unwrap();
    assert_eq!(pos, 12);
    assert_eq!(arena.as_slice().len(), 20);
    assert_eq!(&arena.as_slice()[..16], &[0u8; 16]);
    assert_eq!(&arena.as_slice()[16..], &0x0403_0201u32.to_ne_bytes());
    assert_eq!(arena.get(h), 0x0403_0201u32);
}

#[test]
fn equal_bounds_store_without_padding() {
    let mut arena = Arena::<4, 4>::new_in();
    let _ = arena.try_alloc(1u32).unwrap();
    let _ = arena.try_alloc(7u32).unwrap();
    let _ = arena.try_alloc(6u32).unwrap();
    let mut expected = Vec::new();
    expected.extend_from_slice(&6u32.to_ne_bytes());
    expected.extend_from_slice(&7u32.to_ne_bytes());
    expected.extend_from_slice(&1u32.to_ne_bytes());
    assert_eq!(arena.as_slice(), expected.as_slice());
}
