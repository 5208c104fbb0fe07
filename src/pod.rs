use crate::alloc_api::{leak_vec, size_fits, AllocError, Allocator, Global, Layout, MemoryBlock};
use crate::basic::{equal_values, SliceIndex};
use vstd::arithmetic::power2::is_pow2;
use vstd::laws_eq::obeys_concrete_eq;
use vstd::layout::{align_of, size_of};
use vstd::prelude::*;

verus! {

/// The capacity chosen when `needed` elements do not fit in `capacity`: half
/// as much again, or what is needed if that is more.
pub open spec fn grown_capacity(capacity: nat, needed: nat) -> nat {
    let g = capacity + capacity / 2;
    if needed > g {
        needed
    } else {
        g
    }
}

/// Whether `n` elements of `size` bytes form a block the allocators accept.
pub open spec fn elems_fit(size: nat, align: nat, n: nat) -> bool {
    n <= isize::MAX && size_fits(size * n, align)
}

/// Size and alignment of one element; blocks are aligned to at least 8.
#[derive(Clone, Copy)]
struct DataInfo {
    size: usize,
    align: usize,
}

impl DataInfo {
    spec fn wf(self) -> bool {
        is_pow2(self.align as int) && self.align >= 8
    }
}

/// The untyped layer of a buffer: the block that backs it, the element
/// layout, and how many elements it holds and has room for. A capacity of
/// zero bytes means no block: the handle is a placeholder that no allocator
/// call ever sees.
struct RawPod {
    data: MemoryBlock,
    info: DataInfo,
    length: usize,
    capacity: usize,
}

impl RawPod {
    spec fn wf(self) -> bool {
        &&& self.info.wf()
        &&& self.length <= self.capacity
        &&& elems_fit(self.info.size as nat, self.info.align as nat, self.capacity as nat)
    }

    spec fn bytes(self) -> nat {
        self.info.size as nat * self.capacity as nat
    }

    fn new(info: DataInfo) -> (r: RawPod)
        requires
            info.wf(),
        ensures
            r.wf(),
            r.info == info,
            r.length == 0,
            r.capacity == 0,
    {
        proof {
            reveal(is_pow2);
            let m = isize::MAX as int;
            let a = info.align as int;
            assert(m % a <= m) by (nonlinear_arith)
                requires
                    a > 0,
                    m >= 0,
            ;
        }
        RawPod { data: MemoryBlock::new(info.align, 0), info, length: 0, capacity: 0 }
    }

    #[inline(always)]
    fn range_is_valid(&self, start: usize, end: usize) -> (r: bool)
        ensures
            r == (start <= end && end <= self.length),
    {
        start <= end && end <= self.length
    }

    /// The layout of `n` elements, if it is one.
    fn layout_for(&self, n: usize) -> (r: Option<Layout>)
        requires
            self.info.wf(),
        ensures
            r is Some <==> elems_fit(self.info.size as nat, self.info.align as nat, n as nat),
            r matches Some(l) ==> l.spec_size() == self.info.size * n && l.spec_align()
                == self.info.align,
    {
        if n > isize::MAX as usize {
            return None;
        }
        let size = self.info.size;
        if size != 0 && n > usize::MAX / size {
            proof {
                assert(size * n > isize::MAX) by (nonlinear_arith)
                    requires
                        size > 0,
                        n > usize::MAX / size,
                ;
            }
            return None;
        }
        proof {
            assert(size * n <= usize::MAX) by (nonlinear_arith)
                requires
                    size == 0 || n <= usize::MAX / size,
            ;
        }
        match Layout::from_size_align(size * n, self.info.align) {
            Ok(l) => Some(l),
            Err(_) => None,
        }
    }

    /// Moves the buffer to room for exactly `elem_capacity` elements, through
    /// the allocator: nothing when the byte size does not change, a release
    /// when it drops to zero, an allocation when it was zero, else a grow or
    /// a shrink. On failure nothing changes.
    fn try_realloc<A: Allocator>(&mut self, alloc: &mut A, elem_capacity: usize) -> (r: Result<
        (),
        AllocError,
    >)
        requires
            old(self).wf(),
            (*old(alloc)).inv(),
            elems_fit(old(self).info.size as nat, old(self).info.align as nat, elem_capacity as nat),
            resize_supported::<A>(
                (*old(alloc)).model(),
                old(self).bytes(),
                old(self).info.size as nat * elem_capacity as nat,
                old(self).info.align as nat,
            ),
        ensures
            final(self).wf(),
            (*final(alloc)).inv(),
            final(self).info == old(self).info,
            resize_served::<A>(
                (*old(alloc)).model(),
                old(self).bytes(),
                old(self).info.size as nat * elem_capacity as nat,
                old(self).info.align as nat,
            ) ==> r is Ok,
            r is Ok ==> final(self).capacity == elem_capacity && final(self).length == if old(
                self,
            ).length <= elem_capacity {
                old(self).length
            } else {
                elem_capacity
            } && resized::<A>(
                (*old(alloc)).model(),
                old(self).data,
                old(self).bytes(),
                final(self).data,
                final(self).bytes(),
                old(self).info.align as nat,
                (*final(alloc)).model(),
            ),
            r is Err ==> *final(self) == *old(self) && (*final(alloc)).model() == (*old(alloc)).model()
                && old(self).bytes() != old(self).info.size as nat * elem_capacity as nat
                && old(self).info.size as nat * elem_capacity as nat != 0,
    {
        let new_layout = match self.layout_for(elem_capacity) {
            Some(l) => l,
            None => return vstd::pervasive::unreached(),
        };
        let prev_layout = match self.layout_for(self.capacity) {
            Some(l) => l,
            None => return vstd::pervasive::unreached(),
        };
        let prev_size = prev_layout.size();
        let new_size = new_layout.size();
        let data = if prev_size == new_size {
            self.data
        } else if new_size == 0 {
            alloc.deallocate(self.data, prev_layout);
            MemoryBlock::new(self.info.align, 0)
        } else if prev_size == 0 {
            match alloc.allocate(new_layout) {
                Ok(b) => b,
                Err(e) => return Err(e),
            }
        } else if new_size > prev_size {
            match alloc.grow(self.data, prev_layout, new_layout) {
                Ok(b) => b,
                Err(e) => return Err(e),
            }
        } else {
            match alloc.shrink(self.data, prev_layout, new_layout) {
                Ok(b) => b,
                Err(e) => return Err(e),
            }
        };
        self.data = data;
        if self.length > elem_capacity {
            self.length = elem_capacity;
        }
        self.capacity = elem_capacity;
        Ok(())
    }

    /// The capacity after making room for `needed` elements in all.
    spec fn target(self, needed: nat) -> nat {
        capacity_for(self.capacity as nat, needed)
    }

    /// Making room for `needed` elements keeps to valid layouts and to what
    /// the allocator accepts.
    spec fn can_reserve<A: Allocator>(self, m: A::Model, needed: nat) -> bool {
        needed <= self.capacity || (elems_fit(
            self.info.size as nat,
            self.info.align as nat,
            self.target(needed),
        ) && resize_supported::<A>(
            m,
            self.bytes(),
            self.info.size as nat * self.target(needed),
            self.info.align as nat,
        ))
    }

    spec fn reserve_served<A: Allocator>(self, m: A::Model, needed: nat) -> bool {
        needed <= self.capacity || resize_served::<A>(
            m,
            self.bytes(),
            self.info.size as nat * self.target(needed),
            self.info.align as nat,
        )
    }

    /// `after` and `after_m` are the buffer and the allocator once room for
    /// `needed` elements has been made.
    spec fn reserved<A: Allocator>(
        self,
        m: A::Model,
        needed: nat,
        after: RawPod,
        after_m: A::Model,
    ) -> bool {
        if needed <= self.capacity {
            after == self && after_m == m
        } else {
            &&& after.capacity == self.target(needed)
            &&& after.length == self.length
            &&& after.info == self.info
            &&& resized::<A>(
                m,
                self.data,
                self.bytes(),
                after.data,
                after.bytes(),
                self.info.align as nat,
                after_m,
            )
        }
    }

    /// Makes room for `needed` elements in all; when it must grow, the new
    /// capacity is `max(needed, capacity * 3 / 2)`.
    fn reserve_total<A: Allocator>(&mut self, alloc: &mut A, needed: usize) -> (r: Result<
        (),
        AllocError,
    >)
        requires
            old(self).wf(),
            (*old(alloc)).inv(),
            old(self).can_reserve::<A>((*old(alloc)).model(), needed as nat),
        ensures
            final(self).wf(),
            (*final(alloc)).inv(),
            old(self).reserve_served::<A>((*old(alloc)).model(), needed as nat) ==> r is Ok,
            r is Ok ==> old(self).reserved::<A>(
                (*old(alloc)).model(),
                needed as nat,
                *final(self),
                (*final(alloc)).model(),
            ),
            r is Err ==> *final(self) == *old(self) && (*final(alloc)).model() == (*old(alloc)).model()
                && needed > old(self).capacity,
    {
        if needed <= self.capacity {
            return Ok(());
        }
        let c = self.capacity;
        let g = c + c / 2;
        let new_capacity = if needed > g {
            needed
        } else {
            g
        };
        self.try_realloc(alloc, new_capacity)
    }

    #[inline(always)]
    fn reserve_additional<A: Allocator>(&mut self, alloc: &mut A, additional: usize) -> (r: Result<
        (),
        AllocError,
    >)
        requires
            old(self).wf(),
            (*old(alloc)).inv(),
            old(self).can_reserve::<A>((*old(alloc)).model(), (old(self).length + additional) as nat),
        ensures
            final(self).wf(),
            (*final(alloc)).inv(),
            old(self).reserve_served::<A>((*old(alloc)).model(), (old(self).length + additional) as nat)
                ==> r is Ok,
            r is Ok ==> old(self).reserved::<A>(
                (*old(alloc)).model(),
                (old(self).length + additional) as nat,
                *final(self),
                (*final(alloc)).model(),
            ),
            r is Err ==> *final(self) == *old(self) && (*final(alloc)).model() == (*old(alloc)).model()
                && old(self).length + additional > old(self).capacity,
    {
        proof {
            assert(old(self).length + additional <= usize::MAX);
        }
        self.reserve_total(alloc, self.length + additional)
    }

    /// Prepares to replace the elements `start..end` with `len` new ones:
    /// makes room for the final length and records it. Returns where the new
    /// elements go.
    fn splice_ptr<A: Allocator>(&mut self, alloc: &mut A, start: usize, end: usize, len: usize) -> (r:
        Result<usize, AllocError>)
        requires
            old(self).wf(),
            (*old(alloc)).inv(),
            start <= end <= old(self).length,
            old(self).can_reserve::<A>(
                (*old(alloc)).model(),
                (old(self).length - (end - start) + len) as nat,
            ),
        ensures
            final(self).wf(),
            (*final(alloc)).inv(),
            old(self).reserve_served::<A>(
                (*old(alloc)).model(),
                (old(self).length - (end - start) + len) as nat,
            ) ==> r is Ok,
            r matches Ok(p) ==> p == start && final(self).length == old(self).length - (end - start)
                + len && old(self).reserved::<A>(
                (*old(alloc)).model(),
                (old(self).length - (end - start) + len) as nat,
                RawPod { length: old(self).length, ..*final(self) },
                (*final(alloc)).model(),
            ),
            r is Err ==> *final(self) == *old(self) && (*final(alloc)).model() == (*old(alloc)).model()
                && old(self).length - (end - start) + len > old(self).capacity,
    {
        let rest = self.length - end;
        let final_len = start + len + rest;
        match self.reserve_total(alloc, final_len) {
            Ok(()) => {},
            Err(e) => return Err(e),
        }
        let ghost reserved = *self;
        self.length = final_len;
        assert(RawPod { length: old(self).length, ..*self } == reserved);
        Ok(start)
    }
}

/// What moving a buffer's block from `old_bytes` to `new_bytes` asks of the
/// allocator: nothing when the byte size stays, a release when it drops to
/// zero, an allocation when it was zero, else a fresh block and then the old
/// one released. `new_block` is the block the buffer keeps.
pub open spec fn resized<A: Allocator>(
    m: A::Model,
    old_block: MemoryBlock,
    old_bytes: nat,
    new_block: MemoryBlock,
    new_bytes: nat,
    align: nat,
    after: A::Model,
) -> bool {
    if old_bytes == new_bytes {
        after == m && new_block == old_block
    } else if new_bytes == 0 {
        A::deallocates(m, old_block, old_bytes, align, after)
    } else if old_bytes == 0 {
        A::allocates(m, new_bytes, align, new_block, after)
    } else {
        exists|mid: A::Model|
            A::allocates(m, new_bytes, align, new_block, mid) && A::deallocates(
                mid,
                old_block,
                old_bytes,
                align,
                after,
            )
    }
}

/// Whether such a move asks only for what the allocator accepts.
pub open spec fn resize_supported<A: Allocator>(
    m: A::Model,
    old_bytes: nat,
    new_bytes: nat,
    align: nat,
) -> bool {
    old_bytes == new_bytes || new_bytes == 0 || A::supports(m, new_bytes, align)
}

/// Whether such a move is sure to succeed.
pub open spec fn resize_served<A: Allocator>(
    m: A::Model,
    old_bytes: nat,
    new_bytes: nat,
    align: nat,
) -> bool {
    old_bytes == new_bytes || new_bytes == 0 || A::will_serve(m, new_bytes, align)
}

/// Block alignment for elements aligned to `align`: at least 8.
pub open spec fn pod_align(align: nat) -> nat {
    if align > 8 {
        align
    } else {
        8
    }
}

/// The capacity after making room for `needed` elements in all.
pub open spec fn capacity_for(capacity: nat, needed: nat) -> nat {
    if needed <= capacity {
        capacity
    } else {
        grown_capacity(capacity, needed)
    }
}

/// A resizable array of plain-data elements whose room comes from an
/// allocator. Element storage is the buffer's own; the allocator accounts
/// for it through one block sized to the capacity.
pub struct Pod<T, A = Global> where T: Copy, A: Allocator {
    raw: RawPod,
    allocator: A,
    items: Vec<T>,
}

impl<T: Copy, A: Allocator> View for Pod<T, A> {
    type V = Seq<T>;

    closed spec fn view(&self) -> Seq<T> {
        self.items@
    }
}

impl<T: Copy> Pod<T, Global> {
    /// An empty buffer on the process heap; nothing is allocated yet.
    #[inline(always)]
    pub fn new() -> (r: Self)
        ensures
            r.wf(),
            r@ == Seq::<T>::empty(),
            r.capacity() == 0,
    {
        Self::with_allocator(Global)
    }

    /// An empty buffer on the process heap with room for `capacity` elements.
    pub fn with_capacity(capacity: usize) -> (r: Self)
        requires
            elems_fit(size_of::<T>(), pod_align(align_of::<T>()), capacity as nat),
        ensures
            r.wf(),
            r@ == Seq::<T>::empty(),
            r.capacity() == capacity,
    {
        let mut s = Self::new();
        let layout = match s.raw.layout_for(capacity) {
            Some(l) => l,
            None => return s,
        };
        if layout.size() > 0 {
            match s.allocator.allocate(layout) {
                Ok(b) => {
                    s.raw.data = b;
                },
                Err(_) => return s,
            }
        }
        s.raw.capacity = capacity;
        s
    }
}

impl<T: Copy, A: Allocator> Pod<T, A> {
    pub closed spec fn wf(&self) -> bool {
        &&& self.raw.wf()
        &&& self.raw.length == self.items@.len()
        &&& self.allocator.inv()
        &&& self.raw.info.size == size_of::<T>()
        &&& self.raw.info.align == pod_align(align_of::<T>())
    }

    pub closed spec fn spec_capacity(&self) -> usize {
        self.raw.capacity
    }

    /// The block that backs the buffer; a placeholder while it holds no bytes.
    pub closed spec fn block(&self) -> MemoryBlock {
        self.raw.data
    }

    /// The allocator that the buffer holds.
    pub closed spec fn allocator_state(&self) -> A {
        self.allocator
    }

    /// The model of the allocator the buffer holds.
    pub open spec fn alloc_model(&self) -> A::Model {
        self.allocator_state().model()
    }

    /// Bytes the block stands for: the capacity in elements.
    pub open spec fn bytes(&self) -> nat {
        size_of::<T>() * self.capacity() as nat
    }

    /// Making room for `needed` elements in all keeps to valid layouts and
    /// asks only for what the allocator accepts.
    pub open spec fn can_reserve(&self, needed: nat) -> bool {
        needed <= self.capacity() || (elems_fit(
            size_of::<T>(),
            pod_align(align_of::<T>()),
            capacity_for(self.capacity() as nat, needed),
        ) && resize_supported::<A>(
            self.alloc_model(),
            self.bytes(),
            size_of::<T>() * capacity_for(self.capacity() as nat, needed),
            pod_align(align_of::<T>()),
        ))
    }

    /// Making room for `needed` elements in all is sure to succeed.
    pub open spec fn reserve_served(&self, needed: nat) -> bool {
        needed <= self.capacity() || resize_served::<A>(
            self.alloc_model(),
            self.bytes(),
            size_of::<T>() * capacity_for(self.capacity() as nat, needed),
            pod_align(align_of::<T>()),
        )
    }

    /// Neither the block nor the allocator changes from `self` to `after`.
    pub open spec fn keeps_allocation(&self, after: Self) -> bool {
        &&& after.alloc_model() == self.alloc_model()
        &&& after.capacity() == self.capacity()
        &&& after.block() == self.block()
    }

    /// `after` is `self` once room for `needed` elements has been made: no
    /// allocator call when they fit, else capacity `max(needed, capacity *
    /// 3 / 2)` with the block moved through the allocator.
    pub open spec fn reserved(&self, needed: nat, after: Self) -> bool {
        if needed <= self.capacity() {
            self.keeps_allocation(after)
        } else {
            &&& after.capacity() == capacity_for(self.capacity() as nat, needed)
            &&& resized::<A>(
                self.alloc_model(),
                self.block(),
                self.bytes(),
                after.block(),
                after.bytes(),
                pod_align(align_of::<T>()),
                after.alloc_model(),
            )
        }
    }

    /// Moving the block to room for exactly `n` elements asks only for what
    /// the allocator accepts.
    pub open spec fn can_resize(&self, n: nat) -> bool {
        &&& elems_fit(size_of::<T>(), pod_align(align_of::<T>()), n)
        &&& resize_supported::<A>(
            self.alloc_model(),
            self.bytes(),
            size_of::<T>() * n,
            pod_align(align_of::<T>()),
        )
    }

    /// `after` holds room for exactly `n` elements, the block moved through
    /// the allocator.
    pub open spec fn resized_to(&self, n: nat, after: Self) -> bool {
        &&& after.capacity() == n
        &&& resized::<A>(
            self.alloc_model(),
            self.block(),
            self.bytes(),
            after.block(),
            after.bytes(),
            pod_align(align_of::<T>()),
            after.alloc_model(),
        )
    }

    fn data_info() -> (r: DataInfo)
        ensures
            r.wf(),
            r.size == size_of::<T>(),
            r.align == pod_align(align_of::<T>()),
    {
        vstd::layout::layout_for_type_is_valid::<T>();
        let size = core::mem::size_of::<T>();
        let a = core::mem::align_of::<T>();
        proof {
            reveal(is_pow2);
            assert(is_pow2(8)) by {
                reveal_with_fuel(is_pow2, 4);
            }
        }
        DataInfo { size, align: if a > 8 { a } else { 8 } }
    }

    /// An empty buffer that takes its room from `allocator`.
    pub fn with_allocator(allocator: A) -> (r: Self)
        requires
            allocator.inv(),
        ensures
            r.wf(),
            r@ == Seq::<T>::empty(),
            r.capacity() == 0,
            r.allocator_state() == allocator,
    {
        let info = Self::data_info();
        Pod { raw: RawPod::new(info), allocator, items: Vec::new() }
    }

    #[verifier::when_used_as_spec(spec_capacity)]
    #[inline(always)]
    pub fn capacity(&self) -> (r: usize)
        ensures
            r == self.spec_capacity(),
    {
        self.raw.capacity
    }

    #[inline(always)]
    pub fn len(&self) -> (r: usize)
        requires
            self.wf(),
        ensures
            r == self@.len(),
    {
        self.raw.length
    }

    /// Appends a copy of every element of `data`.
    pub fn extend_from_slice(&mut self, data: &[T]) -> (r: Result<(), AllocError>)
        requires
            old(self).wf(),
            old(self).can_reserve((old(self)@.len() + data@.len()) as nat),
        ensures
            final(self).wf(),
            final(self).capacity() >= old(self).capacity(),
            final(self)@.len() <= final(self).capacity(),
            old(self).reserve_served((old(self)@.len() + data@.len()) as nat) ==> r is Ok,
            r is Ok ==> final(self)@ == old(self)@ + data@ && old(self).reserved((old(self)@.len() + data@.len()) as nat, *final(self)),
            r is Err ==> final(self)@ == old(self)@ && old(self).keeps_allocation(*final(self))
                && (old(self)@.len() + data@.len()) as nat > old(self).capacity(),
    {
        let len = data.len();
        match self.raw.reserve_additional(&mut self.allocator, len) {
            Ok(()) => {},
            Err(e) => return Err(e),
        }
        let ghost raw0 = self.raw;
        let ghost alloc0 = self.allocator;
        let mut i: usize = 0;
        while i < len
            invariant
                0 <= i <= len,
                len == data@.len(),
                self.items@ == old(self).items@ + data@.take(i as int),
                self.raw == raw0,
                self.allocator == alloc0,
            decreases len - i,
        {
            self.items.push(data[i]);
            i = i + 1;
            assert(self.items@ =~= old(self).items@ + data@.take(i as int));
        }
        assert(data@.take(len as int) =~= data@);
        self.raw.length = self.raw.length + len;
        Ok(())
    }

    /// Appends `t`; room grows by half when it runs out.
    pub fn push(&mut self, t: T) -> (r: Result<(), AllocError>)
        requires
            old(self).wf(),
            old(self).can_reserve((old(self)@.len() + 1) as nat),
        ensures
            final(self).wf(),
            final(self).capacity() >= old(self).capacity(),
            final(self)@.len() <= final(self).capacity(),
            old(self).reserve_served((old(self)@.len() + 1) as nat) ==> r is Ok,
            r is Ok ==> final(self)@ == old(self)@.push(t) && old(self).reserved((old(self)@.len() + 1) as nat, *final(self)),
            r is Err ==> final(self)@ == old(self)@ && old(self).keeps_allocation(*final(self))
                && (old(self)@.len() + 1) as nat > old(self).capacity(),
    {
        match self.raw.reserve_additional(&mut self.allocator, 1) {
            Ok(()) => {},
            Err(e) => return Err(e),
        }
        self.items.push(t);
        self.raw.length = self.raw.length + 1;
        Ok(())
    }

    /// Empties the buffer and keeps its room.
    #[inline(always)]
    pub fn clear(&mut self)
        requires
            old(self).wf(),
        ensures
            old(self).keeps_allocation(*final(self)),
            final(self).wf(),
            final(self)@ == Seq::<T>::empty(),
            final(self).capacity() == old(self).capacity(),
    {
        self.items.clear();
        self.raw.length = 0;
    }

    /// Puts `value` at position `i`, shifting the tail up by one.
    pub fn insert(&mut self, i: usize, value: T) -> (r: Result<(), AllocError>)
        requires
            old(self).wf(),
            i <= old(self)@.len(),
            old(self).can_reserve((old(self)@.len() + 1) as nat),
        ensures
            final(self).wf(),
            final(self).capacity() >= old(self).capacity(),
            final(self)@.len() <= final(self).capacity(),
            old(self).reserve_served((old(self)@.len() + 1) as nat) ==> r is Ok,
            r is Ok ==> final(self)@ == old(self)@.insert(i as int, value) && old(self).reserved((old(self)@.len() + 1) as nat, *final(self)),
            r is Err ==> final(self)@ == old(self)@ && old(self).keeps_allocation(*final(self))
                && (old(self)@.len() + 1) as nat > old(self).capacity(),
    {
        match self.raw.reserve_additional(&mut self.allocator, 1) {
            Ok(()) => {},
            Err(e) => return Err(e),
        }
        self.items.insert(i, value);
        self.raw.length = self.raw.length + 1;
        Ok(())
    }

    /// Replaces the elements in `range` with `values`: room for the final
    /// length is made first, then the tail moves and the new values go in.
    pub fn splice(&mut self, range: core::ops::Range<usize>, values: &[T]) -> (r: Result<
        (),
        AllocError,
    >)
        requires
            old(self).wf(),
            range.start <= range.end <= old(self)@.len(),
            old(self).can_reserve((old(self)@.len() - (range.end - range.start) + values@.len()) as nat),
        ensures
            final(self).wf(),
            final(self).capacity() >= old(self).capacity(),
            old(self).reserve_served(
                (old(self)@.len() - (range.end - range.start) + values@.len()) as nat,
            ) ==> r is Ok,
            r is Ok ==> final(self)@ == old(self)@.subrange(0, range.start as int) + values@
                + old(self)@.subrange(range.end as int, old(self)@.len() as int) && old(self).reserved(
                (old(self)@.len() - (range.end - range.start) + values@.len()) as nat,
                *final(self),
            ),
            r is Err ==> final(self)@ == old(self)@ && old(self).keeps_allocation(*final(self))
                && old(self)@.len() - (range.end - range.start) + values@.len() > old(self).capacity(),
    {
        let start = range.start;
        let end = range.end;
        let len = self.items.len();
        match self.raw.splice_ptr(&mut self.allocator, start, end, values.len()) {
            Ok(_) => {},
            Err(e) => return Err(e),
        }
        let mut next: Vec<T> = Vec::new();
        let mut i: usize = 0;
        while i < start
            invariant
                i <= start <= end <= len,
                len == self.items@.len(),
                next@ == self.items@.take(i as int),
            decreases start - i,
        {
            next.push(self.items[i]);
            i = i + 1;
            assert(next@ =~= self.items@.take(i as int));
        }
        let mut j: usize = 0;
        while j < values.len()
            invariant
                j <= values@.len(),
                next@ == self.items@.take(start as int) + values@.take(j as int),
            decreases values@.len() - j,
        {
            next.push(values[j]);
            j = j + 1;
            assert(next@ =~= self.items@.take(start as int) + values@.take(j as int));
        }
        assert(values@.take(values@.len() as int) =~= values@);
        let mut k: usize = end;
        while k < len
            invariant
                end <= k <= len,
                len == self.items@.len(),
                next@ == self.items@.take(start as int) + values@ + self.items@.subrange(
                    end as int,
                    k as int,
                ),
            decreases len - k,
        {
            next.push(self.items[k]);
            k = k + 1;
            assert(next@ =~= self.items@.take(start as int) + values@ + self.items@.subrange(
                end as int,
                k as int,
            ));
        }
        self.items = next;
        Ok(())
    }

    /// Takes off the last element, if there is one.
    pub fn pop(&mut self) -> (r: Option<T>)
        requires
            old(self).wf(),
        ensures
            old(self).keeps_allocation(*final(self)),
            final(self).wf(),
            final(self).capacity() == old(self).capacity(),
            old(self)@.len() == 0 ==> r is None && final(self)@ == old(self)@,
            old(self)@.len() > 0 ==> r == Some(old(self)@.last()) && final(self)@ == old(
                self,
            )@.drop_last(),
    {
        if self.raw.length == 0 {
            return None;
        }
        let v = self.items.pop();
        self.raw.length = self.raw.length - 1;
        v
    }

    /// Takes out the element at `i`, shifting the tail down by one.
    pub fn remove(&mut self, i: usize) -> (r: T)
        requires
            old(self).wf(),
            i < old(self)@.len(),
        ensures
            old(self).keeps_allocation(*final(self)),
            final(self).wf(),
            final(self).capacity() == old(self).capacity(),
            r == old(self)@[i as int],
            final(self)@ == old(self)@.remove(i as int),
    {
        let v = self.items.remove(i);
        self.raw.length = self.raw.length - 1;
        v
    }

    /// Appends `repeat` copies of `t`.
    pub fn push_repeat(&mut self, t: T, repeat: usize) -> (r: Result<(), AllocError>)
        requires
            old(self).wf(),
            old(self).can_reserve((old(self)@.len() + repeat) as nat),
        ensures
            final(self).wf(),
            final(self).capacity() >= old(self).capacity(),
            final(self)@.len() <= final(self).capacity(),
            old(self).reserve_served((old(self)@.len() + repeat) as nat) ==> r is Ok,
            r is Ok ==> final(self)@ == old(self)@ + Seq::new(repeat as nat, |k: int| t) && old(self).reserved((old(self)@.len() + repeat) as nat, *final(self)),
            r is Err ==> final(self)@ == old(self)@ && old(self).keeps_allocation(*final(self))
                && (old(self)@.len() + repeat) as nat > old(self).capacity(),
    {
        match self.raw.reserve_additional(&mut self.allocator, repeat) {
            Ok(()) => {},
            Err(e) => return Err(e),
        }
        let ghost raw0 = self.raw;
        let ghost alloc0 = self.allocator;
        let mut i: usize = 0;
        while i < repeat
            invariant
                0 <= i <= repeat,
                self.items@ == old(self).items@ + Seq::new(i as nat, |k: int| t),
                self.raw == raw0,
                self.allocator == alloc0,
            decreases repeat - i,
        {
            self.items.push(t);
            i = i + 1;
            assert(self.items@ =~= old(self).items@ + Seq::new(i as nat, |k: int| t));
        }
        self.raw.length = self.raw.length + repeat;
        Ok(())
    }

    /// Sets the length to `size`: longer by copies of `fill`, shorter by
    /// dropping the tail. Room grows to exactly `size` when it is short.
    pub fn resize(&mut self, size: usize, fill: T) -> (r: Result<(), AllocError>)
        requires
            old(self).wf(),
            size <= old(self).capacity() || old(self).can_resize(size as nat),
        ensures
            final(self).wf(),
            size <= old(self).capacity() || resize_served::<A>(
                old(self).alloc_model(),
                old(self).bytes(),
                size_of::<T>() * size as nat,
                pod_align(align_of::<T>()),
            ) ==> r is Ok,
            r is Ok ==> final(self)@ == if size <= old(self)@.len() {
                old(self)@.take(size as int)
            } else {
                old(self)@ + Seq::new((size - old(self)@.len()) as nat, |k: int| fill)
            },
            r is Ok && size <= old(self).capacity() ==> old(self).keeps_allocation(*final(self)),
            r is Ok && size > old(self).capacity() ==> old(self).resized_to(size as nat, *final(self)),
            r is Err ==> final(self)@ == old(self)@ && old(self).keeps_allocation(*final(self))
                && size > old(self).capacity(),
    {
        if size > self.raw.capacity {
            match self.raw.try_realloc(&mut self.allocator, size) {
                Ok(()) => {},
                Err(e) => return Err(e),
            }
        }
        if size <= self.raw.length {
            self.items.truncate(size);
        } else {
            let extra = size - self.raw.length;
            let ghost raw0 = self.raw;
            let ghost alloc0 = self.allocator;
            let mut i: usize = 0;
            while i < extra
                invariant
                    0 <= i <= extra,
                    self.items@ == old(self).items@ + Seq::new(i as nat, |k: int| fill),
                    self.raw == raw0,
                    self.allocator == alloc0,
                decreases extra - i,
            {
                self.items.push(fill);
                i = i + 1;
                assert(self.items@ =~= old(self).items@ + Seq::new(i as nat, |k: int| fill));
            }
        }
        self.raw.length = size;
        Ok(())
    }

    /// Sets the length without touching the room. Every element this buffer
    /// keeps was written by it, so the new length may not pass the current
    /// one.
    pub fn set_len(&mut self, new_len: usize)
        requires
            old(self).wf(),
            new_len <= old(self)@.len(),
        ensures
            old(self).keeps_allocation(*final(self)),
            final(self).wf(),
            final(self).capacity() == old(self).capacity(),
            final(self)@ == old(self)@.take(new_len as int),
    {
        self.items.truncate(new_len);
        self.raw.length = new_len;
    }

    /// Shortens to `new_len` elements; a longer `new_len` changes nothing.
    #[inline(always)]
    pub fn truncate(&mut self, new_len: usize)
        requires
            old(self).wf(),
        ensures
            old(self).keeps_allocation(*final(self)),
            final(self).wf(),
            final(self).capacity() == old(self).capacity(),
            final(self)@ == if new_len >= old(self)@.len() {
                old(self)@
            } else {
                old(self)@.take(new_len as int)
            },
    {
        if new_len >= self.raw.length {
            return;
        }
        self.items.truncate(new_len);
        self.raw.length = new_len;
    }

    /// Makes room for `additional` more elements.
    #[inline(always)]
    pub fn reserve(&mut self, additional: usize) -> (r: Result<(), AllocError>)
        requires
            old(self).wf(),
            old(self).can_reserve((old(self)@.len() + additional) as nat),
        ensures
            final(self).wf(),
            final(self).capacity() >= old(self).capacity(),
            final(self)@.len() <= final(self).capacity(),
            old(self).reserve_served((old(self)@.len() + additional) as nat) ==> r is Ok,
            r is Ok ==> final(self)@ == old(self)@ && old(self).reserved((old(self)@.len() + additional) as nat, *final(self)),
            r is Err ==> final(self)@ == old(self)@ && old(self).keeps_allocation(*final(self))
                && (old(self)@.len() + additional) as nat > old(self).capacity(),
    {
        self.raw.reserve_additional(&mut self.allocator, additional)
    }

    /// Gives back the room beyond the length.
    #[inline(always)]
    pub fn shrink_to_fit(&mut self) -> (r: Result<(), AllocError>)
        requires
            old(self).wf(),
            resize_supported::<A>(
                old(self).alloc_model(),
                old(self).bytes(),
                size_of::<T>() * old(self)@.len(),
                pod_align(align_of::<T>()),
            ),
        ensures
            final(self).wf(),
            final(self)@ == old(self)@,
            resize_served::<A>(
                old(self).alloc_model(),
                old(self).bytes(),
                size_of::<T>() * old(self)@.len(),
                pod_align(align_of::<T>()),
            ) ==> r is Ok,
            r is Ok ==> old(self).resized_to(old(self)@.len(), *final(self)),
            r is Err ==> old(self).keeps_allocation(*final(self)),
    {
        let len = self.raw.length;
        proof {
            let size = self.raw.info.size as int;
            let cap = self.raw.capacity as int;
            assert(size * len <= size * cap) by (nonlinear_arith)
                requires
                    0 <= len <= cap,
                    size >= 0,
            ;
            assert(size == 0 || len == 0 ==> size * len == 0) by (nonlinear_arith);
        }
        self.raw.try_realloc(&mut self.allocator, len)
    }

    /// The address that element `i` has in the backing block, whether or
    /// not the element exists; `None` past the end of the address space.
    #[inline(always)]
    pub fn elem_addr(&self, i: usize) -> (r: Option<usize>)
        requires
            self.wf(),
        ensures
            r is Some <==> self.block().base() + size_of::<T>() * i <= usize::MAX,
            r matches Some(a) ==> a == self.block().base() + size_of::<T>() * i,
    {
        let size = self.raw.info.size;
        let base = self.raw.data.base();
        let room: usize = usize::MAX - base;
        if size != 0 && i > room / size {
            proof {
                assert(size * i > room) by (nonlinear_arith)
                    requires
                        size > 0,
                        i > room / size,
                ;
            }
            return None;
        }
        proof {
            assert(size * i <= room) by (nonlinear_arith)
                requires
                    size == 0 || i <= room / size,
            ;
        }
        Some(base + size * i)
    }

    /// One element or a run of them, picked by position or half-open range;
    /// `None` when the pick lies outside.
    #[inline(always)]
    pub fn get<I>(&self, i: I) -> (r: Option<&I::IndexResult>) where I: SliceIndex<T>
        ensures
            r is Some <==> i.in_bounds(self@.len()),
            r matches Some(x) ==> i.selects(self@, x),
    {
        i.index(self.items.as_slice())
    }

    /// One element or a run of them, picked by position or half-open range;
    /// a pick outside the buffer is a caller's error.
    #[inline(always)]
    pub fn index<I>(&self, i: I) -> (r: &I::IndexResult) where I: SliceIndex<T>
        requires
            i.in_bounds(self@.len()),
        ensures
            i.selects(self@, r),
    {
        match i.index(self.items.as_slice()) {
            Some(x) => x,
            None => vstd::pervasive::unreached(),
        }
    }

    /// The element at `i` to change in place; `None` when there is none.
    #[inline(always)]
    pub fn get_mut(&mut self, i: usize) -> (r: Option<&mut T>)
        requires
            old(self).wf(),
        ensures
            old(self).keeps_allocation(*final(self)),
            r is Some <==> i < old(self)@.len(),
            r matches Some(x) ==> *x == old(self)@[i as int],
            r matches Some(x) ==> final(self)@ == old(self)@.update(i as int, *final(x)),
            r is None ==> *final(self) == *old(self),
            final(self)@.len() == old(self)@.len(),
            final(self).wf(),
    {
        if i < self.items.len() {
            Some(&mut self.items[i])
        } else {
            None
        }
    }

    /// Hands the elements to the caller for good: the buffer's block is
    /// never released, and the buffer is gone.
    pub fn leak<'b>(self) -> (r: &'b mut [T])
        ensures
            r@ == self@,
    {
        let Pod { raw, allocator, items } = self;
        leak_vec(items)
    }

    /// An iterator that yields the elements by value, in order.
    #[inline(always)]
    pub fn into_iter(self) -> (r: PodIter<T, A>)
        ensures
            r.wf(),
            r.remaining() == self@,
    {
        PodIter { pod: self, index: 0 }
    }

    /// Whether two buffers hold the same elements, whatever their allocators
    /// and capacities.
    pub fn contents_eq<B: Allocator>(&self, other: &Pod<T, B>) -> (r: bool) where T: PartialEq
        requires
            obeys_concrete_eq::<T>(),
        ensures
            r == (self@ == other@),
    {
        let n = self.items.len();
        if n != other.items.len() {
            return false;
        }
        let mut i: usize = 0;
        while i < n
            invariant
                i <= n,
                n == self@.len(),
                n == other@.len(),
                obeys_concrete_eq::<T>(),
                forall|j: int| 0 <= j < i ==> self@[j] == other@[j],
            decreases n - i,
        {
            if !equal_values(&self.items[i], &other.items[i]) {
                return false;
            }
            i = i + 1;
        }
        assert(self@ =~= other@);
        true
    }

    /// The elements, in order.
    pub fn as_slice(&self) -> (r: &[T])
        ensures
            r@ == self@,
    {
        self.items.as_slice()
    }

    /// Releases the backing block, sized to the capacity, and hands back the
    /// allocator. A buffer that never held a block makes no allocator call.
    pub fn into_allocator(self) -> (r: A)
        requires
            self.wf(),
        ensures
            r.inv(),
            self.bytes() == 0 ==> r.model() == self.alloc_model(),
            self.bytes() > 0 ==> A::deallocates(
                self.alloc_model(),
                self.block(),
                self.bytes(),
                pod_align(align_of::<T>()),
                r.model(),
            ),
    {
        let Pod { raw, allocator, items } = self;
        let mut raw = raw;
        let mut allocator = allocator;
        let _ = raw.try_realloc(&mut allocator, 0);
        allocator
    }
}

/// The elements of a buffer, yielded by value from the front.
pub struct PodIter<T, A> where T: Copy, A: Allocator {
    pod: Pod<T, A>,
    index: usize,
}

impl<T: Copy, A: Allocator> PodIter<T, A> {
    pub closed spec fn wf(&self) -> bool {
        self.index <= self.pod@.len()
    }

    /// What is still to come.
    pub closed spec fn remaining(&self) -> Seq<T> {
        self.pod@.skip(self.index as int)
    }

    /// The next element, if any is left.
    pub fn next(&mut self) -> (r: Option<T>)
        requires
            old(self).wf(),
        ensures
            final(self).wf(),
            old(self).remaining().len() == 0 ==> r is None && final(self).remaining().len() == 0,
            old(self).remaining().len() > 0 ==> r == Some(old(self).remaining()[0])
                && final(self).remaining() == old(self).remaining().skip(1),
    {
        if self.index >= self.pod.items.len() {
            return None;
        }
        let v = self.pod.items[self.index];
        self.index = self.index + 1;
        assert(self.remaining() =~= old(self).remaining().skip(1));
        Some(v)
    }
}

/// Each push leaves room for every element pushed so far and never takes
/// room away: from any capacity that holds `len` elements, making room for
/// one more gives at least `len + 1` and at least the old capacity.
pub proof fn lemma_growth(capacity: nat, len: nat)
    requires
        len <= capacity,
    ensures
        capacity_for(capacity, len + 1) >= len + 1,
        capacity_for(capacity, len + 1) >= capacity,
{
}

/// Inserting a value and removing it at the same position gives the value
/// back and leaves the sequence as it was.
pub proof fn lemma_insert_remove<T>(s: Seq<T>, i: int, v: T)
    requires
        0 <= i <= s.len(),
    ensures
        s.insert(i, v)[i] == v,
        s.insert(i, v).remove(i) == s,
{
    assert(s.insert(i, v).remove(i) =~= s);
}

/// Splicing the range `start..end` of `s` with `values` gives the part before
/// the range, then the values, then the part after it; an insertion is a
/// splice of an empty range, a removal one with no values.
pub proof fn lemma_splice_forms<T>(s: Seq<T>, start: int, end: int, values: Seq<T>)
    requires
        0 <= start <= end <= s.len(),
    ensures
        (s.subrange(0, start) + values + s.subrange(end, s.len() as int)).len() == s.len() - (end
            - start) + values.len(),
        start == end && values.len() == 1 ==> s.subrange(0, start) + values + s.subrange(
            end,
            s.len() as int,
        ) == s.insert(start, values[0]),
        end == start + 1 && values.len() == 0 ==> s.subrange(0, start) + values + s.subrange(
            end,
            s.len() as int,
        ) == s.remove(start),
{
    if start == end && values.len() == 1 {
        assert(s.subrange(0, start) + values + s.subrange(end, s.len() as int) =~= s.insert(
            start,
            values[0],
        ));
    }
    if end == start + 1 && values.len() == 0 {
        assert(s.subrange(0, start) + values + s.subrange(end, s.len() as int) =~= s.remove(start));
    }
}

} // verus!
