use aliu::{AllocStat, BucketList, DetState, Global, HashRef, HashRefSlot, HashState};

#[test]
fn later_duplicate_overrides_and_counts_once() {
    let data = [(1u64, 10u32), (2, 20), (1, 30)];
    let t = HashRef::new_iter(&mut Global, 3, &data).unwrap();
    assert_eq!(t.get(&1), Some(&30));
    assert_eq!(t.get(&2), Some(&20));
    assert_eq!(t.len(), 2);
    assert_eq!(t.capacity(), 3);
}

#[test]
fn every_key_found_and_absent_keys_missing() {
    let data: Vec<(u32, u32)> = (0..100u32).map(|k| (k * 7, k)).collect();
    let t = HashRef::new_iter(&mut Global, 150, &data).unwrap();
    for k in 0..100u32 {
        assert_eq!(t.get(&(k * 7)), Some(&k));
    }
    for k in 0..100u32 {
        assert_eq!(t.get(&(k * 7 + 1)), None);
    }
    assert_eq!(t.len(), 100);
}

#[test]
fn full_table_still_answers() {
    let data = [(5usize, 'a'), (6, 'b'), (7, 'c')];
    let t = HashRef::new_iter(&mut Global, 3, &data).unwrap();
    assert_eq!(t.get(&6), Some(&'b'));
    assert_eq!(t.get(&8), None);
}

#[test]
fn empty_table_has_nothing() {
    let t: HashRef<u64, u64> = HashRef::empty();
    assert_eq!(t.len(), 0);
    assert_eq!(t.capacity(), 0);
    assert_eq!(t.get(&3), None);
    let e: HashRef<u64, u64> = HashRef::new_iter(&mut Global, 0, &[]).unwrap();
    assert_eq!(e.get(&3), None);
}

#[test]
fn table_over_arena() {
    let mut arena = BucketList::with_capacity(1024);
    let data = [(1i64, 1u8), (-1, 2)];
    {
        let t = HashRef::new_iter(&mut arena, 3, &data).unwrap();
        assert_eq!(t.get(&-1), Some(&2));
        assert_eq!(t.get(&0), None);
    }
    assert!(arena.total_used() > 0);
}

#[test]
fn iteration_visits_each_key_once() {
    let data = [(10u16, 1u8), (20, 2), (30, 3)];
    let t = HashRef::new_iter(&mut Global, 4, &data).unwrap();
    let mut it = t.iter();
    let mut seen = Vec::new();
    while let Some((k, v)) = it.next() {
        seen.push((*k, *v));
    }
    seen.sort();
    assert_eq!(seen, vec![(10, 1), (20, 2), (30, 3)]);
    let full = t.slots.iter().filter(|s| matches!(s, HashRefSlot::Full(_, _))).count();
    assert_eq!(full, 3);
}

#[test]
fn hash_is_fixed_and_depends_on_value() {
    let a = DetState.hash_key(&42u64);
    let b = DetState.hash_key(&42u64);
    let c = DetState.hash_key(&43u64);
    assert_eq!(a, b);
    assert_ne!(a, c);
    assert_eq!(DetState.hash_key(&42u32), a);
}

#[test]
fn table_from_map_holds_the_map() {
    let mut m = std::collections::HashMap::new();
    for k in 0..20u64 {
        m.insert(k * 3, k + 100);
    }
    let t = HashRef::new(&mut Global, &m).unwrap();
    assert_eq!(t.len(), 20);
    assert_eq!(t.capacity(), 30);
    for (k, v) in m.iter() {
        assert_eq!(t.get(k), Some(v));
    }
    assert_eq!(t.get(&1), None);
}

#[test]
fn table_from_map_with_state_over_arena() {
    let mut arena = BucketList::new();
    let mut m = std::collections::HashMap::new();
    m.insert(7u32, 70u32);
    let t = HashRef::with_state(&mut arena, &m, DetState).unwrap();
    assert_eq!(t.capacity(), 1);
    assert_eq!(t.get(&7), Some(&70));
    assert_eq!(t.get(&8), None);
}
