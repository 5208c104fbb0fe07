use aliu::{r, AllocStat, BucketList, CopyRange, Global, Pod};

fn pod_of(values: &[i32]) -> Pod<i32> {
    let mut p = Pod::new();
    p.extend_from_slice(values).unwrap();
    p
}

#[test]
fn growth_follows_half_again_policy() {
    let mut p: Pod<u8> = Pod::new();
    assert_eq!(p.capacity(), 0);
    let mut seen = Vec::new();
    let mut last = 0;
    for n in 1..=20usize {
        p.push(n as u8).unwrap();
        assert!(p.capacity() >= n);
        assert!(p.capacity() >= last);
        last = p.capacity();
        if seen.last() != Some(&last) {
            seen.push(last);
        }
    }
    assert_eq!(seen, vec![1, 2, 3, 4, 6, 9, 13, 19, 28]);
}

#[test]
fn reserve_grows_to_needed_or_half_again() {
    let mut p: Pod<u64> = Pod::with_capacity(10);
    assert_eq!(p.capacity(), 10);
    p.reserve(5).unwrap();
    assert_eq!(p.capacity(), 10);
    p.reserve(11).unwrap();
    assert_eq!(p.capacity(), 15);
    p.reserve(40).unwrap();
    assert_eq!(p.capacity(), 40);
}

#[test]
fn indexing_in_both_widths() {
    let data = pod_of(&[1, 2, 3, 4, 5, 6, 7]);
    assert_eq!(data.get(0usize..5).unwrap(), &[1, 2, 3, 4, 5]);
    assert_eq!(data.get(0u32..5).unwrap(), &[1, 2, 3, 4, 5]);
    assert_eq!(data.get(r(2usize, 4)).unwrap(), &[3, 4]);
    assert_eq!(data.get(6u8), Some(&7));
    assert_eq!(data.get(6u16), Some(&7));
    assert_eq!(data.get(7usize), None);
    assert_eq!(data.get(r(3u32, 9)), None);
    assert_eq!(data.get(r(5usize, 4)), None);
}

#[test]
fn splice_replaces_range() {
    let mut p = pod_of(&[1, 2, 3, 4, 5]);
    p.splice(1..3, &[9, 9, 9]).unwrap();
    assert_eq!(p.as_slice(), &[1, 9, 9, 9, 4, 5]);
    p.splice(0..6, &[]).unwrap();
    assert_eq!(p.as_slice(), &[] as &[i32]);
    p.splice(0..0, &[7, 8]).unwrap();
    assert_eq!(p.as_slice(), &[7, 8]);
}

#[test]
fn insert_then_remove_restores() {
    let mut p = pod_of(&[1, 2, 3]);
    p.insert(1, 42).unwrap();
    assert_eq!(p.as_slice(), &[1, 42, 2, 3]);
    assert_eq!(p.remove(1), 42);
    assert_eq!(p.as_slice(), &[1, 2, 3]);
    p.insert(3, 4).unwrap();
    assert_eq!(p.as_slice(), &[1, 2, 3, 4]);
}

#[test]
fn pop_truncate_clear_keep_capacity() {
    let mut p = pod_of(&[1, 2, 3, 4]);
    let cap = p.capacity();
    assert_eq!(p.pop(), Some(4));
    p.truncate(10);
    assert_eq!(p.len(), 3);
    p.truncate(1);
    assert_eq!(p.as_slice(), &[1]);
    p.clear();
    assert_eq!(p.len(), 0);
    assert_eq!(p.pop(), None);
    assert_eq!(p.capacity(), cap);
}

#[test]
fn resize_and_repeat() {
    let mut p = pod_of(&[1, 2]);
    p.resize(5, 0).unwrap();
    assert_eq!(p.as_slice(), &[1, 2, 0, 0, 0]);
    assert_eq!(p.capacity(), 5);
    p.resize(1, 9).unwrap();
    assert_eq!(p.as_slice(), &[1]);
    p.push_repeat(3, 4).unwrap();
    assert_eq!(p.as_slice(), &[1, 3, 3, 3, 3]);
}

#[test]
fn shrink_to_fit_matches_length() {
    let mut p: Pod<u32> = Pod::with_capacity(32);
    p.extend_from_slice(&[5, 6, 7]).unwrap();
    p.shrink_to_fit().unwrap();
    assert_eq!(p.capacity(), 3);
    assert_eq!(p.as_slice(), &[5, 6, 7]);
}

#[test]
fn get_mut_changes_one_element() {
    let mut p = pod_of(&[1, 2, 3]);
    *p.get_mut(1).unwrap() = 20;
    assert!(p.get_mut(3).is_none());
    assert_eq!(p.as_slice(), &[1, 20, 3]);
}

#[test]
fn iterate_and_leak() {
    let p = pod_of(&[4, 5, 6]);
    let mut it = p.into_iter();
    assert_eq!(it.next(), Some(4));
    assert_eq!(it.next(), Some(5));
    assert_eq!(it.next(), Some(6));
    assert_eq!(it.next(), None);
    let q = pod_of(&[8, 9]);
    let s = q.leak();
    assert_eq!(s, &[8, 9]);
}

#[test]
fn element_addresses_step_by_size() {
    let p: Pod<u64> = Pod::with_capacity(4);
    let a0 = p.elem_addr(0).unwrap();
    assert_eq!(p.elem_addr(3), Some(a0 + 24));
    assert_eq!(p.elem_addr(usize::MAX), None);
}

#[test]
fn buffer_over_arena_charges_the_arena() {
    let mut arena = BucketList::with_capacity(256);
    {
        let mut p = Pod::<u32, _>::with_allocator(&mut arena);
        for i in 0..10u32 {
            p.push(i).unwrap();
        }
        assert_eq!(p.capacity(), 13);
        let arena = p.into_allocator();
        assert!(arena.total_used() > 0);
    }
    assert!(arena.total_used() >= 13 * 4);
}

#[test]
fn dropping_a_buffer_that_never_grew_is_free() {
    let p = Pod::<u64, Global>::with_allocator(Global);
    assert_eq!(p.capacity(), 0);
    let _ = p.into_allocator();
}

#[test]
fn copy_range_lengths() {
    let a: CopyRange<usize> = r(3usize, 10);
    let b: CopyRange<u32> = r(2u32, 2);
    assert_eq!(a.len(), 7);
    assert_eq!(b.len(), 0);
}

#[test]
fn helpers() {
    assert_eq!(aliu::const_max(3, 9), 9);
    assert_eq!(aliu::const_max(9, 3), 9);
    assert_eq!(aliu::const_cond(true, 1, 2), 1);
    assert_eq!(aliu::const_cond(false, 1, 2), 2);
    assert_eq!(aliu::expect::<u8, ()>(Ok(5)), 5);
    assert_eq!(aliu::unwrap(Some(6)), 6);
    assert_eq!(aliu::read_file_static("/nonexistent"), "");
}

#[test]
fn equality_ignores_capacity_and_allocator() {
    let a = pod_of(&[1, 2, 3]);
    let mut arena = BucketList::with_capacity(64);
    let mut b = Pod::<i32, _>::with_allocator(&mut arena);
    b.reserve(10).unwrap();
    b.extend_from_slice(&[1, 2, 3]).unwrap();
    assert!(a.contents_eq(&b));
    b.push(4).unwrap();
    assert!(!a.contents_eq(&b));
    let c = pod_of(&[1, 2, 4]);
    assert!(!a.contents_eq(&c));
}

#[test]
fn set_len_shortens_without_releasing() {
    let mut p = pod_of(&[1, 2, 3, 4]);
    let cap = p.capacity();
    p.set_len(2);
    assert_eq!(p.as_slice(), &[1, 2]);
    assert_eq!(p.capacity(), cap);
}
