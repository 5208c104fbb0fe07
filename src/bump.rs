use crate::alloc_api::{AllocError, AllocStat, Allocator, Layout, MemoryBlock};
use crate::arena_model::{
    fresh, lemma_aligned, lemma_mark_scope_ok, lemma_prefix_used, lemma_restored_wf,
    lemma_served_wf, lemma_small_pow2, lemma_step_scope_ok, lemma_sum_capacity_le_end,
    lemma_sum_used_le_capacity, scope_ok, sum_capacity, sum_used, ArenaState, BucketState,
    MarkState, capacity_since, used_since, DEFAULT_BUCKET_SIZE, MAX_ALIGN,
};
use vstd::prelude::*;

verus! {

#[derive(Clone, Copy)]
struct Bump {
    base: usize,
    current: usize,
    capacity: usize,
}

impl Bump {
    spec fn view(self) -> BucketState {
        BucketState {
            base: self.base as nat,
            used: (self.current - self.base) as nat,
            capacity: self.capacity as nat,
        }
    }

    spec fn wf(self) -> bool {
        self.base <= self.current <= self.base + self.capacity <= usize::MAX
    }

    fn new(base: usize, capacity: usize) -> (r: Bump)
        requires
            base + capacity <= usize::MAX,
        ensures
            r.wf(),
            r.view() == (BucketState { base: base as nat, used: 0, capacity: capacity as nat }),
    {
        Bump { base, current: base, capacity }
    }

    /// Serves `size` bytes at a multiple of `align` from the free tail, if
    /// they fit, and returns their address.
    fn take(&mut self, size: usize, align: usize) -> (r: Option<usize>)
        requires
            old(self).wf(),
            align > 0,
        ensures
            final(self).wf(),
            r is Some <==> old(self).view().fits(size as nat, align as nat),
            r matches Some(a) ==> a == old(self).view().base + old(self).view().used + old(
                self,
            ).view().padding(align as nat) && final(self).view() == old(self).view().with_used(
                old(self).view().used + old(self).view().padding(align as nat) + size as nat,
            ),
            r is None ==> *final(self) == *old(self),
    {
        let used = self.current - self.base;
        let rem = used % align;
        let pad = if rem == 0 {
            0
        } else {
            align - rem
        };
        if pad > self.capacity - used || size > self.capacity - used - pad {
            return None;
        }
        let begin = self.current + pad;
        self.current = begin + size;
        Some(begin)
    }
}

/// A chain of buckets with bump allocation in the current one and rollback
/// to marks. Buckets are laid out one after another in an address space of
/// the arena's own, each on a multiple of 8, and are never resized or moved.
pub struct BucketList {
    allocations: Vec<Bump>,
    index: usize,
}

/// A checkpoint of a [`BucketList`]: the current bucket and how many of its
/// bytes were in use.
#[derive(Clone, Copy, Debug)]
pub struct BucketListMark {
    index: usize,
    current: usize,
}

impl View for BucketListMark {
    type V = MarkState;

    closed spec fn view(&self) -> MarkState {
        MarkState { index: self.index as nat, used: self.current as nat }
    }
}

impl View for BucketList {
    type V = ArenaState;

    closed spec fn view(&self) -> ArenaState {
        ArenaState {
            buckets: self.allocations@.map_values(|b: Bump| b.view()),
            current: self.index as nat,
        }
    }
}

impl BucketList {
    pub const DEFAULT_BUCKET_SIZE: usize = 2097152;

    pub closed spec fn wf(&self) -> bool {
        &&& self@.wf()
        &&& forall|i: int| 0 <= i < self.allocations@.len() ==> (#[trigger] self.allocations@[i]).wf()
    }

    /// An arena with no bucket yet: the first request creates one.
    pub fn new() -> (r: Self)
        ensures
            r.wf(),
            r@.buckets.len() == 0,
            r@.current == 0,
    {
        let r = BucketList { allocations: Vec::new(), index: 0 };
        assert(r@.buckets =~= Seq::<BucketState>::empty());
        r
    }

    /// An arena whose first bucket holds `capacity` bytes.
    pub fn with_capacity(capacity: usize) -> (r: Self)
        requires
            capacity <= isize::MAX - 7,
        ensures
            r.wf(),
            r@ == fresh(capacity as nat),
    {
        let mut allocations: Vec<Bump> = Vec::new();
        allocations.push(Bump::new(8, capacity));
        let r = BucketList { allocations, index: 0 };
        assert(r@.buckets =~= fresh(capacity as nat).buckets);
        r
    }

    /// Captures the current bucket and its usage.
    pub fn save(&self) -> (r: BucketListMark)
        requires
            self.wf(),
        ensures
            r@ == self@.mark(),
    {
        if self.index < self.allocations.len() {
            let b = self.allocations[self.index];
            BucketListMark { index: self.index, current: b.current - b.base }
        } else {
            BucketListMark { index: self.index, current: 0 }
        }
    }

    /// Rolls back to `mark`: the marked bucket gets back the usage it had,
    /// every later bucket is emptied, and the marked bucket becomes current.
    /// Memory handed out since the mark must not be used afterwards; nested
    /// marks are restored innermost first.
    pub fn set(&mut self, mark: BucketListMark)
        requires
            old(self).wf(),
            old(self)@.can_restore(mark@),
        ensures
            final(self).wf(),
            final(self)@ == old(self)@.restored(mark@),
    {
        let len = self.allocations.len();
        if len == 0 {
            return;
        }
        let ghost before = self@;
        let ghost target = before.restored(mark@);
        let mut b = self.allocations[mark.index];
        b.current = b.base + mark.current;
        self.allocations.set(mark.index, b);
        let mut i: usize = mark.index + 1;
        while i < len
            invariant
                mark.index < i <= len,
                len == self.allocations@.len(),
                len == before.buckets.len(),
                before.can_restore(mark@),
                target == before.restored(mark@),
                forall|j: int| 0 <= j < len ==> (#[trigger] self.allocations@[j]).wf(),
                forall|j: int|
                    0 <= j < len ==> (#[trigger] self.allocations@[j]).view() == if j < i {
                        target.buckets[j]
                    } else {
                        before.buckets[j]
                    },
            decreases len - i,
        {
            let mut b = self.allocations[i];
            b.current = b.base;
            self.allocations.set(i, b);
            i = i + 1;
        }
        self.index = mark.index;
        proof {
            lemma_restored_wf(before, mark@);
            assert(self@.buckets =~= target.buckets);
        }
    }

    /// Adds up the bytes in use in the first `k` buckets.
    fn sum_in_use(&self, k: usize) -> (r: usize)
        requires
            self.wf(),
            k <= self@.buckets.len(),
        ensures
            r == sum_used(self@.buckets.take(k as int)),
    {
        let mut used: usize = 0;
        let mut i: usize = 0;
        while i < k
            invariant
                i <= k <= self.allocations@.len(),
                self@.wf(),
                forall|j: int| 0 <= j < self.allocations@.len() ==> (#[trigger] self.allocations@[j]).wf(),
                used == sum_used(self@.buckets.take(i as int)),
            decreases self.allocations@.len() - i,
        {
            let b = self.allocations[i];
            proof {
                let t = self@.buckets.take(i + 1);
                assert(t.drop_last() =~= self@.buckets.take(i as int));
                lemma_sum_used_le_capacity(t);
                lemma_sum_capacity_le_end(t);
            }
            used = used + (b.current - b.base);
            i = i + 1;
        }
        used
    }

    /// Adds up the sizes of the first `k` buckets.
    fn sum_capacity(&self, k: usize) -> (r: usize)
        requires
            self.wf(),
            k <= self@.buckets.len(),
        ensures
            r == sum_capacity(self@.buckets.take(k as int)),
    {
        let mut capacity: usize = 0;
        let mut i: usize = 0;
        while i < k
            invariant
                i <= k <= self.allocations@.len(),
                self@.wf(),
                forall|j: int| 0 <= j < self.allocations@.len() ==> (#[trigger] self.allocations@[j]).wf(),
                capacity == sum_capacity(self@.buckets.take(i as int)),
            decreases self.allocations@.len() - i,
        {
            let b = self.allocations[i];
            proof {
                let t = self@.buckets.take(i + 1);
                assert(t.drop_last() =~= self@.buckets.take(i as int));
                lemma_sum_capacity_le_end(t);
            }
            capacity = capacity + b.capacity;
            i = i + 1;
        }
        capacity
    }
}

impl Allocator for BucketList {
    type Model = ArenaState;

    open spec fn model(&self) -> ArenaState {
        self@
    }

    open spec fn inv(&self) -> bool {
        self.wf()
    }

    /// Alignments above 8 are a configuration error.
    open spec fn supports(m: ArenaState, size: nat, align: nat) -> bool {
        align <= MAX_ALIGN
    }

    open spec fn will_serve(m: ArenaState, size: nat, align: nat) -> bool {
        !m.allocation_fails(size, align)
    }

    open spec fn allocates(m: ArenaState, size: nat, align: nat, b: MemoryBlock, after: ArenaState) -> bool {
        &&& after == m.step(size, align)
        &&& b.base() == m.placement(size, align)
        &&& b.len() == size
    }

    /// Nothing is reclaimed one block at a time.
    open spec fn deallocates(m: ArenaState, b: MemoryBlock, size: nat, align: nat, after: ArenaState) -> bool {
        after == m
    }

    /// Served from the current bucket when the request fits after alignment
    /// padding, else from the empty bucket after it when that one is large
    /// enough, else from a new bucket of `max(size, DEFAULT_BUCKET_SIZE)`
    /// bytes. Fails only when the address space is exhausted, and then
    /// changes nothing.
    fn allocate(&mut self, layout: Layout) -> (r: Result<MemoryBlock, AllocError>)
        ensures
            final(self)@ == old(self)@.step(layout.size() as nat, layout.align() as nat),
            r is Err <==> old(self)@.allocation_fails(layout.size() as nat, layout.align() as nat),
            r matches Ok(b) ==> b.len() == layout.size() && b.base() == old(self)@.placement(
                layout.size() as nat,
                layout.align() as nat,
            ),
    {
        let size = layout.size();
        let align = layout.align();
        let ghost before = self@;
        proof {
            lemma_small_pow2(align as nat);
        }
        let len = self.allocations.len();
        if len > 0 {
            let mut cur = self.allocations[self.index];
            assert(cur.view() == before.buckets[self.index as int]);
            match cur.take(size, align) {
                Some(begin) => {
                    self.allocations.set(self.index, cur);
                    proof {
                        lemma_served_wf(before, size as nat, align as nat);
                        lemma_aligned(cur.base as nat, (begin - cur.base) as nat, align as nat);
                        assert(self@.buckets =~= before.served(size as nat, align as nat).buckets);
                    }
                    return Ok(MemoryBlock::new(begin, size));
                },
                None => {},
            }
            if self.index + 1 < len {
                let mut next = self.allocations[self.index + 1];
                assert(next.view() == before.buckets[self.index + 1]);
                if size <= next.capacity {
                    assert(before.buckets[self.index + 1].used <= before.buckets[self.index + 1].capacity);
                    next.current = next.base + size;
                    self.allocations.set(self.index + 1, next);
                    self.index = self.index + 1;
                    proof {
                        lemma_served_wf(before, size as nat, align as nat);
                        lemma_aligned(next.base as nat, 0, align as nat);
                        assert(self@.buckets =~= before.served(size as nat, align as nat).buckets);
                    }
                    return Ok(MemoryBlock::new(next.base, size));
                }
            }
        }
        let capacity = if size > DEFAULT_BUCKET_SIZE {
            size
        } else {
            DEFAULT_BUCKET_SIZE
        };
        let base = if len == 0 {
            8
        } else {
            let last = self.allocations[len - 1];
            assert(last.view() == before.buckets.last());
            let end = last.base + last.capacity;
            if end > usize::MAX - 7 {
                return Err(AllocError);
            }
            if end % 8 == 0 {
                end
            } else {
                end + 8 - end % 8
            }
        };
        if base > usize::MAX - capacity {
            return Err(AllocError);
        }
        assert(base == before.next_base());
        self.allocations.push(Bump { base, current: base + size, capacity });
        self.index = len;
        proof {
            lemma_served_wf(before, size as nat, align as nat);
            lemma_aligned(base as nat, 0, align as nat);
            assert(self@.buckets =~= before.served(size as nat, align as nat).buckets);
        }
        Ok(MemoryBlock::new(base, size))
    }

    /// Nothing is reclaimed one block at a time: only a rollback frees space.
    fn deallocate(&mut self, block: MemoryBlock, layout: Layout)
        ensures
            *final(self) == *old(self),
    {
    }
}

impl AllocStat for BucketList {
    fn total_used(&self) -> (r: usize)
        ensures
            r == self@.total_used(),
    {
        let r = self.sum_in_use(self.allocations.len());
        assert(self@.buckets.take(self@.buckets.len() as int) =~= self@.buckets);
        r
    }

    fn total_capacity(&self) -> (r: usize)
        ensures
            r == self@.total_capacity(),
    {
        let r = self.sum_capacity(self.allocations.len());
        assert(self@.buckets.take(self@.buckets.len() as int) =~= self@.buckets);
        r
    }
}

/// An arena seen from a mark: allocations go to the arena, and
/// [`ScopedBump::finish`] rolls it back to the mark.
pub struct ScopedBump<'a> {
    mark: BucketListMark,
    alloc: &'a mut BucketList,
}

impl BucketList {
    /// Opens a scope at the current point of the arena.
    pub fn scoped<'a>(&'a mut self) -> (r: ScopedBump<'a>)
        requires
            old(self).wf(),
        ensures
            r.wf(),
            r.arena() == old(self)@,
            r.mark_state() == old(self)@.mark(),
    {
        let mark = self.save();
        proof {
            lemma_mark_scope_ok(self@);
        }
        ScopedBump { mark, alloc: self }
    }
}

impl<'a> ScopedBump<'a> {
    pub closed spec fn arena(&self) -> ArenaState {
        (*self.alloc)@
    }

    pub closed spec fn mark_state(&self) -> MarkState {
        self.mark@
    }

    pub closed spec fn wf(&self) -> bool {
        &&& (*self.alloc).wf()
        &&& scope_ok((*self.alloc)@, self.mark@)
    }

    /// Opens a nested scope at the current point; it must be finished before
    /// this one.
    pub fn chain<'b>(&'b mut self) -> (r: ScopedBump<'b>)
        requires
            old(self).wf(),
        ensures
            r.wf(),
            r.arena() == old(self).arena(),
            r.mark_state() == old(self).arena().mark(),
    {
        let mark = self.alloc.save();
        proof {
            lemma_mark_scope_ok((*self.alloc)@);
        }
        ScopedBump { mark, alloc: &mut *self.alloc }
    }

    /// Closes the scope: the arena goes back to the mark, and is handed back.
    pub fn finish(self) -> (r: &'a mut BucketList)
        requires
            self.wf(),
        ensures
            r.wf(),
            r@ == self.arena().restored(self.mark_state()),
    {
        let ScopedBump { mark, alloc } = self;
        alloc.set(mark);
        alloc
    }
}

impl<'a> Allocator for ScopedBump<'a> {
    type Model = (ArenaState, MarkState);

    open spec fn model(&self) -> (ArenaState, MarkState) {
        (self.arena(), self.mark_state())
    }

    open spec fn inv(&self) -> bool {
        self.wf()
    }

    open spec fn supports(m: (ArenaState, MarkState), size: nat, align: nat) -> bool {
        align <= MAX_ALIGN
    }

    open spec fn will_serve(m: (ArenaState, MarkState), size: nat, align: nat) -> bool {
        !m.0.allocation_fails(size, align)
    }

    open spec fn allocates(
        m: (ArenaState, MarkState),
        size: nat,
        align: nat,
        b: MemoryBlock,
        after: (ArenaState, MarkState),
    ) -> bool {
        &&& after == (m.0.step(size, align), m.1)
        &&& b.base() == m.0.placement(size, align)
        &&& b.len() == size
    }

    open spec fn deallocates(
        m: (ArenaState, MarkState),
        b: MemoryBlock,
        size: nat,
        align: nat,
        after: (ArenaState, MarkState),
    ) -> bool {
        after == m
    }

    /// Served by the arena, as [`BucketList`] serves it.
    fn allocate(&mut self, layout: Layout) -> (r: Result<MemoryBlock, AllocError>)
        ensures
            final(self).arena() == old(self).arena().step(layout.size() as nat, layout.align() as nat),
            final(self).mark_state() == old(self).mark_state(),
            r is Err <==> old(self).arena().allocation_fails(
                layout.size() as nat,
                layout.align() as nat,
            ),
    {
        let ghost before = (*self.alloc)@;
        let align = layout.align();
        let r = self.alloc.allocate(layout);
        proof {
            lemma_step_scope_ok(before, self.mark@, layout.size() as nat, align as nat);
        }
        r
    }

    fn deallocate(&mut self, block: MemoryBlock, layout: Layout) {
    }
}

impl<'a> AllocStat for ScopedBump<'a> {
    fn total_used(&self) -> (r: usize)
        ensures
            r == used_since(self.arena(), self.mark_state()),
    {
        let len = self.alloc.allocations.len();
        if len == 0 {
            return 0;
        }
        let all = self.alloc.total_used();
        let before = self.alloc.sum_in_use(self.mark.index);
        proof {
            let s = (*self.alloc)@.buckets;
            lemma_prefix_used(s, self.mark.index as int);
            lemma_prefix_used(s, self.mark.index + 1);
        }
        all - before - self.mark.current
    }

    fn total_capacity(&self) -> (r: usize)
        ensures
            r == capacity_since(self.arena(), self.mark_state()),
    {
        let len = self.alloc.allocations.len();
        if len == 0 {
            return 0;
        }
        let all = self.alloc.total_capacity();
        let before = self.alloc.sum_capacity(self.mark.index);
        proof {
            let s = (*self.alloc)@.buckets;
            lemma_prefix_used(s, self.mark.index as int);
            lemma_prefix_used(s, self.mark.index + 1);
            assert(s[self.mark.index as int].used <= s[self.mark.index as int].capacity);
        }
        all - before - self.mark.current
    }
}

} // verus!
