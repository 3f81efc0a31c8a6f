use hopscotch_bimap::BiMap;

#[test]
fn test_capacity() {
    BiMap::<(), ()>::with_capacity(0).capacity();
    assert!(BiMap::<(), ()>::with_capacity(1024).capacity() >= 1024);
}

#[test]
fn test_iteration_empty() {
    let map: BiMap<(), ()> = BiMap::new();
    assert_eq!(map.pairs().into_iter().next(), None);
    assert_eq!(map.into_pairs().into_iter().next(), None);
}

#[test]
fn remove_from_empty() {
    let mut map: BiMap<u32, u32> = BiMap::new();
    assert_eq!(map.remove_left(&1024), None);
    assert_eq!(map.remove_right(&1024), None);
}
