use aliu::{AllocExt, AllocStat, Allocator, BucketList, Layout, DEFAULT_BUCKET_SIZE};

fn layout(size: usize, align: usize) -> Layout {
    Layout::from_size_align(size, align).unwrap()
}

#[test]
fn fresh_arena_counts_every_byte_until_full() {
    let mut arena = BucketList::with_capacity(128);
    for _ in 0..16 {
        arena.allocate(layout(8, 8)).unwrap();
    }
    assert_eq!(arena.total_used(), 128);
    assert_eq!(arena.total_capacity(), 128);
    arena.allocate(layout(8, 8)).unwrap();
    assert_eq!(arena.total_used(), 136);
    assert_eq!(arena.total_capacity(), 128 + 2097152);
}

#[test]
fn overflowing_request_larger_than_default_gets_its_own_size() {
    let mut arena = BucketList::with_capacity(16);
    let big = DEFAULT_BUCKET_SIZE + 40;
    arena.allocate(layout(big, 8)).unwrap();
    assert_eq!(arena.total_capacity(), 16 + big);
    assert_eq!(arena.total_used(), big);
}

#[test]
fn empty_arena_creates_default_bucket() {
    let mut arena = BucketList::new();
    assert_eq!(arena.total_capacity(), 0);
    assert_eq!(arena.total_used(), 0);
    let b = arena.allocate(layout(24, 4)).unwrap();
    assert_eq!(b.len(), 24);
    assert_eq!(arena.total_capacity(), DEFAULT_BUCKET_SIZE);
    assert_eq!(arena.total_used(), 24);
}

#[test]
fn alignment_padding_is_counted_and_addresses_are_aligned() {
    let mut arena = BucketList::with_capacity(64);
    let a = arena.allocate(layout(1, 1)).unwrap();
    let b = arena.allocate(layout(8, 8)).unwrap();
    assert_eq!(b.base() % 8, 0);
    assert_eq!(b.base(), a.base() + 8);
    assert_eq!(arena.total_used(), 16);
    let c = arena.allocate(layout(2, 4)).unwrap();
    assert_eq!(c.base() % 4, 0);
    assert_eq!(arena.total_used(), 18);
}

#[test]
fn rollback_restores_usage() {
    let mut arena = BucketList::with_capacity(64);
    arena.allocate(layout(16, 8)).unwrap();
    let mark = arena.save();
    let before = arena.total_used();
    arena.allocate(layout(40, 8)).unwrap();
    arena.allocate(layout(40, 8)).unwrap();
    assert_eq!(arena.total_used(), 96);
    arena.set(mark);
    assert_eq!(arena.total_used(), before);
    assert_eq!(arena.total_used(), 16);
}

#[test]
fn rollback_reuses_the_emptied_bucket() {
    let mut arena = BucketList::with_capacity(32);
    let mark = arena.save();
    arena.allocate(layout(32, 8)).unwrap();
    let first = arena.allocate(layout(64, 8)).unwrap();
    let capacity = arena.total_capacity();
    arena.set(mark);
    arena.allocate(layout(32, 8)).unwrap();
    let again = arena.allocate(layout(64, 8)).unwrap();
    assert_eq!(again.base(), first.base());
    assert_eq!(arena.total_capacity(), capacity);
    assert_eq!(arena.total_used(), 96);
}

#[test]
fn rollback_on_arena_that_was_empty() {
    let mut arena = BucketList::new();
    let mark = arena.save();
    arena.allocate(layout(100, 8)).unwrap();
    arena.set(mark);
    assert_eq!(arena.total_used(), 0);
    assert_eq!(arena.total_capacity(), DEFAULT_BUCKET_SIZE);
}

#[test]
fn scope_counts_only_what_it_served_and_rolls_back() {
    let mut arena = BucketList::with_capacity(64);
    arena.allocate(layout(8, 8)).unwrap();
    {
        let mut scope = arena.scoped();
        assert_eq!(scope.total_used(), 0);
        assert_eq!(scope.total_capacity(), 56);
        scope.allocate(layout(16, 8)).unwrap();
        assert_eq!(scope.total_used(), 16);
        {
            let mut inner = scope.chain();
            inner.allocate(layout(64, 8)).unwrap();
            assert_eq!(inner.total_used(), 64);
            assert_eq!(inner.total_capacity(), 40 + DEFAULT_BUCKET_SIZE);
            let back = inner.finish();
            assert_eq!(back.total_used(), 24);
        }
        assert_eq!(scope.total_used(), 16);
        let arena_again = scope.finish();
        assert_eq!(arena_again.total_used(), 8);
    }
    assert_eq!(arena.total_used(), 8);
}

#[test]
fn placed_copies_keep_values() {
    let mut arena = BucketList::with_capacity(64);
    let x = arena.new(7u32).unwrap();
    assert_eq!(*x, 7);
    let s = arena.add_slice(&[1u16, 2, 3]).unwrap();
    assert_eq!(s, &[1, 2, 3]);
    let t = arena.add_str("hello").unwrap();
    assert_eq!(t, "hello");
    assert_eq!(arena.total_used(), 4 + 6 + 5);
}

#[test]
fn layout_rejects_bad_alignment_and_size() {
    assert!(Layout::from_size_align(8, 3).is_err());
    assert!(Layout::from_size_align(8, 0).is_err());
    assert!(Layout::from_size_align(isize::MAX as usize, 8).is_err());
    let l = Layout::from_size_align(isize::MAX as usize - 7, 8).unwrap();
    assert_eq!(l.size(), isize::MAX as usize - 7);
    assert_eq!(l.align(), 8);
}

#[test]
fn global_blocks_have_the_requested_size() {
    let mut g = aliu::Global;
    let b = g.allocate(layout(24, 8)).unwrap();
    assert_eq!(b.len(), 24);
    assert_eq!(b.base() % 8, 0);
    let z = g.allocate_zeroed(layout(5, 1)).unwrap();
    assert_eq!(z.len(), 5);
    let bigger = g.grow(b, layout(24, 8), layout(48, 8)).unwrap();
    assert_eq!(bigger.len(), 48);
    let smaller = g.shrink(bigger, layout(48, 8), layout(16, 8)).unwrap();
    assert_eq!(smaller.len(), 16);
}

#[test]
fn arena_grow_takes_a_fresh_block() {
    let mut arena = BucketList::with_capacity(64);
    let b = arena.allocate(layout(8, 8)).unwrap();
    let g = arena.grow(b, layout(8, 8), layout(16, 8)).unwrap();
    assert_eq!(g.base(), b.base() + 8);
    assert_eq!(arena.total_used(), 24);
}
