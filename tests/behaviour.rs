use hopscotch_bimap::BiMap;

#[test]
fn round_trip_left_and_right() {
    let mut a: BiMap<u32, u64> = BiMap::new();
    assert_eq!(a.insert(7, 700), (None, None));
    assert_eq!(a.remove_left(&7), Some(700));
    assert_eq!(a.remove_left(&7), None);

    let mut b: BiMap<u32, u64> = BiMap::new();
    assert_eq!(b.insert(7, 700), (None, None));
    assert_eq!(b.remove_right(&700), Some(7));
    assert_eq!(b.remove_left(&7), None);
}

#[test]
fn overwrite_orphans_old_right() {
    let mut m: BiMap<u32, u64> = BiMap::new();
    assert_eq!(m.insert(1, 10), (None, None));
    assert_eq!(m.insert(1, 20), (Some(10), None));
    assert_eq!(m.remove_right(&10), None);
    assert_eq!(m.remove_left(&1), Some(20));
    assert!(m.pairs().is_empty());
}

#[test]
fn overwrite_orphans_old_left() {
    let mut m: BiMap<u32, u64> = BiMap::new();
    assert_eq!(m.insert(1, 10), (None, None));
    assert_eq!(m.insert(2, 10), (None, Some(1)));
    assert_eq!(m.remove_left(&1), None);
    assert_eq!(m.remove_right(&10), Some(2));
}

#[test]
fn insert_breaks_both_old_pairs() {
    let mut m: BiMap<u32, u64> = BiMap::new();
    m.insert(1, 10);
    m.insert(2, 20);
    assert_eq!(m.insert(1, 20), (Some(10), Some(2)));
    assert_eq!(m.remove_left(&2), None);
    assert_eq!(m.remove_right(&10), None);
    assert_eq!(m.remove_right(&20), Some(1));
}

#[test]
fn reinsert_same_pair() {
    let mut m: BiMap<u32, u64> = BiMap::new();
    m.insert(3, 30);
    assert_eq!(m.insert(3, 30), (Some(30), None));
    assert_eq!(m.remove_left(&3), Some(30));
}

#[test]
fn empty_map_queries() {
    let mut m: BiMap<u64, u8> = BiMap::with_capacity(0);
    assert_eq!(m.remove_left(&0), None);
    assert_eq!(m.remove_right(&0), None);
    assert!(m.pairs().is_empty());
    assert!(m.into_pairs().is_empty());
}

#[test]
fn capacity_lower_bound() {
    for k in [0usize, 1, 2, 9, 10, 11, 29, 30, 31, 32, 100, 1000, 4096] {
        assert!(BiMap::<u32, u32>::with_capacity(k).capacity() >= k);
    }
    assert_eq!(BiMap::<u32, u32>::with_capacity(0).capacity(), 29);
    assert_eq!(BiMap::<u32, u32>::with_capacity(1000).capacity(), 1000);
    assert!(BiMap::<u32, u32>::new().capacity() >= 32);
}

#[test]
fn saturation_grows_the_tables() {
    let mut m: BiMap<u32, u64> = BiMap::with_capacity(0);
    let start = m.capacity();
    for i in 0..2000u32 {
        assert_eq!(m.insert(i, i as u64 * 3 + 1), (None, None));
    }
    assert!(m.capacity() > start);
    assert!(m.capacity() >= 2000);
    assert_eq!(m.pairs().len(), 2000);
    for i in 0..2000u32 {
        if i % 2 == 0 {
            assert_eq!(m.remove_left(&i), Some(i as u64 * 3 + 1));
        } else {
            assert_eq!(m.remove_right(&(i as u64 * 3 + 1)), Some(i));
        }
    }
    assert!(m.into_pairs().is_empty());
}

#[test]
fn colliding_keys_are_displaced() {
    // Below 2^29 a u64 digest is the key itself, so multiples of 32 share
    // an ideal slot in a 32-slot table.
    let mut m: BiMap<u64, u64> = BiMap::with_capacity(0);
    for i in 0..100u64 {
        assert_eq!(m.insert(i * 32, i), (None, None));
    }
    for i in 0..100u64 {
        assert_eq!(m.remove_right(&i), Some(i * 32));
    }
    assert!(m.pairs().is_empty());
}

#[test]
fn displacement_walk_keeps_pairs() {
    let mut m: BiMap<u64, u64> = BiMap::with_capacity(20);
    for i in 0..20u64 {
        m.insert(i * 37 + (i % 3), 1000 + i);
    }
    for i in 0..20u64 {
        assert_eq!(m.remove_left(&(i * 37 + (i % 3))), Some(1000 + i));
    }
}

#[test]
fn pairs_lists_each_pair_once() {
    let mut m: BiMap<u32, u64> = BiMap::new();
    for i in 0..10u32 {
        m.insert(i, 100 + i as u64);
    }
    let mut seen: Vec<(u32, u64)> = m.pairs().into_iter().map(|(l, r)| (*l, *r)).collect();
    seen.sort();
    let want: Vec<(u32, u64)> = (0..10u32).map(|i| (i, 100 + i as u64)).collect();
    assert_eq!(seen, want);
    let mut owned = m.into_pairs();
    owned.sort();
    assert_eq!(owned, want);
}

#[test]
fn scenario_overwrite_then_drain() {
    let mut m: BiMap<u32, u8> = BiMap::with_capacity(0);
    assert_eq!(m.insert(1u32, b'a'), (None, None));
    assert_eq!(m.insert(1u32, b'b'), (Some(b'a'), None));
    assert_eq!(m.remove_right(&b'a'), None);
    assert_eq!(m.remove_left(&1u32), Some(b'b'));
    assert!(m.pairs().is_empty());
    assert!(m.into_pairs().is_empty());
}

#[test]
fn unit_and_bool_keys() {
    let mut m: BiMap<(), bool> = BiMap::new();
    assert_eq!(m.insert((), true), (None, None));
    assert_eq!(m.insert((), false), (Some(true), None));
    assert_eq!(m.remove_right(&false), Some(()));
}

#[test]
fn mixed_width_keys() {
    let mut m: BiMap<u16, usize> = BiMap::new();
    for i in 0..300u16 {
        m.insert(i, (i as usize) << 20);
    }
    for i in 0..300u16 {
        assert_eq!(m.remove_right(&((i as usize) << 20)), Some(i));
    }
}
