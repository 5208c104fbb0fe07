use vstd::arithmetic::power2::is_pow2;
use vstd::layout::{align_of, size_of};
use vstd::prelude::*;

verus! {

/// The largest size a layout may have for a given alignment: the size rounded
/// up to the alignment must still fit in an `isize`.
pub open spec fn size_fits(size: nat, align: nat) -> bool {
    align > 0 && size <= (isize::MAX as int) - (isize::MAX as int) % (align as int)
}

/// A (size, alignment) pair that describes one memory request.
#[derive(Clone, Copy, Debug, PartialEq, Eq)]
pub struct Layout {
    size: usize,
    align: usize,
}

/// A size and alignment that do not form a valid layout.
#[derive(Clone, Copy, Debug, PartialEq, Eq)]
pub struct LayoutError;

/// The backend could not satisfy a request.
#[derive(Clone, Copy, Debug, PartialEq, Eq)]
pub struct AllocError;

impl Layout {
    #[verifier::type_invariant]
    spec fn well_formed(self) -> bool {
        is_pow2(self.align as int) && size_fits(self.size as nat, self.align as nat)
    }

    pub closed spec fn spec_size(&self) -> usize {
        self.size
    }

    pub closed spec fn spec_align(&self) -> usize {
        self.align
    }

    /// Builds a layout; fails exactly when `align` is not a power of two or the
    /// size rounded up to it would overflow an `isize`.
    pub fn from_size_align(size: usize, align: usize) -> (r: Result<Layout, LayoutError>)
        ensures
            r is Ok <==> (is_pow2(align as int) && size_fits(size as nat, align as nat)),
            r matches Ok(l) ==> l.spec_size() == size && l.spec_align() == align,
    {
        if !is_power_of_two(align) {
            return Err(LayoutError);
        }
        let max: usize = isize::MAX as usize;
        proof {
            reveal(is_pow2);
            assert(max % align <= max) by (nonlinear_arith)
                requires
                    align > 0,
            ;
        }
        if size > max - max % align {
            return Err(LayoutError);
        }
        Ok(Layout { size, align })
    }

    #[verifier::when_used_as_spec(spec_size)]
    pub fn size(&self) -> (r: usize)
        ensures
            r == self.spec_size(),
            size_fits(r as nat, self.spec_align() as nat),
    {
        proof {
            use_type_invariant(self);
        }
        self.size
    }

    #[verifier::when_used_as_spec(spec_align)]
    pub fn align(&self) -> (r: usize)
        ensures
            r == self.spec_align(),
            is_pow2(r as int),
    {
        proof {
            use_type_invariant(self);
        }
        self.align
    }
}

/// Whether `n` is a power of two, by halving while it stays even.
fn is_power_of_two(n: usize) -> (r: bool)
    ensures
        r == is_pow2(n as int),
{
    if n == 0 {
        proof {
            reveal(is_pow2);
        }
        return false;
    }
    let mut m: usize = n;
    while m > 1 && m % 2 == 0
        invariant
            m > 0,
            is_pow2(n as int) == is_pow2(m as int),
        decreases m,
    {
        proof {
            reveal(is_pow2);
        }
        m = m / 2;
    }
    proof {
        reveal(is_pow2);
    }
    m == 1
}


/// An opaque handle on a block of memory: the address of its first byte and
/// its length. It belongs to whoever received it until it is released.
#[derive(Clone, Copy, Debug, PartialEq, Eq)]
pub struct MemoryBlock {
    base: usize,
    len: usize,
}

impl MemoryBlock {
    pub closed spec fn spec_base(&self) -> usize {
        self.base
    }

    pub closed spec fn spec_len(&self) -> usize {
        self.len
    }

    pub(crate) fn new(base: usize, len: usize) -> (r: MemoryBlock)
        ensures
            r.spec_base() == base,
            r.spec_len() == len,
    {
        MemoryBlock { base, len }
    }

    #[verifier::when_used_as_spec(spec_base)]
    pub fn base(&self) -> (r: usize)
        ensures
            r == self.spec_base(),
    {
        self.base
    }

    #[verifier::when_used_as_spec(spec_len)]
    pub fn len(&self) -> (r: usize)
        ensures
            r == self.spec_len(),
    {
        self.len
    }
}

/// What a block handed out for `layout` satisfies: it is at least as long as
/// asked and its address is a multiple of the alignment.
pub open spec fn fits_layout(b: MemoryBlock, layout: Layout) -> bool {
    &&& b.len() >= layout.size()
    &&& (b.base() as int) % (layout.align() as int) == 0
}

/// The capability to acquire, release and resize blocks of memory.
///
/// Blocks are handles: the bytes they stand for are written and read by the
/// typed containers that hold them, so moving contents is the caller's part of
/// a resize. What each call does to the allocator is stated over its model:
/// which requests it accepts, which it is sure to serve, and how serving or
/// releasing a block changes it.
pub trait Allocator {
    /// What the contracts know of the allocator's state.
    type Model;

    spec fn model(&self) -> Self::Model;

    /// The allocator's own bookkeeping is consistent.
    spec fn inv(&self) -> bool;

    /// Requests of `size` bytes at alignment `align` that the allocator
    /// accepts at all; others are a caller's error.
    spec fn supports(m: Self::Model, size: nat, align: nat) -> bool;

    /// Requests that are sure to be served from state `m`.
    spec fn will_serve(m: Self::Model, size: nat, align: nat) -> bool;

    /// Serving a request of `size` bytes at `align` with `b` takes the
    /// state from `m` to `after`.
    spec fn allocates(m: Self::Model, size: nat, align: nat, b: MemoryBlock, after: Self::Model) -> bool;

    /// Releasing `b`, handed out for `size` bytes at `align`, takes the state
    /// from `m` to `after`.
    spec fn deallocates(m: Self::Model, b: MemoryBlock, size: nat, align: nat, after: Self::Model) -> bool;

    /// Acquires a block for `layout`; a refusal changes nothing.
    fn allocate(&mut self, layout: Layout) -> (r: Result<MemoryBlock, AllocError>)
        requires
            old(self).inv(),
            Self::supports(old(self).model(), layout.size() as nat, layout.align() as nat),
        ensures
            final(self).inv(),
            Self::will_serve(old(self).model(), layout.size() as nat, layout.align() as nat) ==> r is Ok,
            r matches Ok(b) ==> fits_layout(b, layout) && Self::allocates(
                old(self).model(),
                layout.size() as nat,
                layout.align() as nat,
                b,
                final(self).model(),
            ),
            r is Err ==> final(self).model() == old(self).model(),
    ;

    /// Releases a block that this allocator handed out for `layout`.
    fn deallocate(&mut self, block: MemoryBlock, layout: Layout)
        requires
            old(self).inv(),
        ensures
            final(self).inv(),
            Self::deallocates(
                old(self).model(),
                block,
                layout.size() as nat,
                layout.align() as nat,
                final(self).model(),
            ),
    ;

    /// Acquires a block for `layout` whose bytes read as zero. A block here
    /// carries no bytes of its own: the containers that hold blocks write
    /// every element they keep, so this acquires what `allocate` does.
    fn allocate_zeroed(&mut self, layout: Layout) -> (r: Result<MemoryBlock, AllocError>)
        requires
            old(self).inv(),
            Self::supports(old(self).model(), layout.size() as nat, layout.align() as nat),
        ensures
            final(self).inv(),
            Self::will_serve(old(self).model(), layout.size() as nat, layout.align() as nat) ==> r is Ok,
            r matches Ok(b) ==> fits_layout(b, layout) && Self::allocates(
                old(self).model(),
                layout.size() as nat,
                layout.align() as nat,
                b,
                final(self).model(),
            ),
            r is Err ==> final(self).model() == old(self).model(),
    {
        self.allocate(layout)
    }

    /// Replaces `block` with one for the larger `new_layout` whose added
    /// tail reads as zero; as with `allocate_zeroed`, that is what `grow`
    /// does.
    fn grow_zeroed(&mut self, block: MemoryBlock, old_layout: Layout, new_layout: Layout) -> (r:
        Result<MemoryBlock, AllocError>)
        requires
            old(self).inv(),
            Self::supports(old(self).model(), new_layout.size() as nat, new_layout.align() as nat),
            new_layout.size() >= old_layout.size(),
        ensures
            final(self).inv(),
            Self::will_serve(old(self).model(), new_layout.size() as nat, new_layout.align() as nat)
                ==> r is Ok,
            r matches Ok(b) ==> fits_layout(b, new_layout) && exists|mid: Self::Model|
                Self::allocates(
                    old(self).model(),
                    new_layout.size() as nat,
                    new_layout.align() as nat,
                    b,
                    mid,
                ) && Self::deallocates(
                    mid,
                    block,
                    old_layout.size() as nat,
                    old_layout.align() as nat,
                    final(self).model(),
                ),
            r is Err ==> final(self).model() == old(self).model(),
    {
        self.grow(block, old_layout, new_layout)
    }

    /// Replaces `block` with one for the larger `new_layout`: a fresh block is
    /// acquired, then the old one released; on failure nothing changes.
    fn grow(&mut self, block: MemoryBlock, old_layout: Layout, new_layout: Layout) -> (r: Result<
        MemoryBlock,
        AllocError,
    >)
        requires
            old(self).inv(),
            Self::supports(old(self).model(), new_layout.size() as nat, new_layout.align() as nat),
            new_layout.size() >= old_layout.size(),
        ensures
            final(self).inv(),
            Self::will_serve(old(self).model(), new_layout.size() as nat, new_layout.align() as nat)
                ==> r is Ok,
            r matches Ok(b) ==> fits_layout(b, new_layout) && exists|mid: Self::Model|
                Self::allocates(
                    old(self).model(),
                    new_layout.size() as nat,
                    new_layout.align() as nat,
                    b,
                    mid,
                ) && Self::deallocates(
                    mid,
                    block,
                    old_layout.size() as nat,
                    old_layout.align() as nat,
                    final(self).model(),
                ),
            r is Err ==> final(self).model() == old(self).model(),
    {
        let ghost m0 = self.model();
        match self.allocate(new_layout) {
            Ok(b) => {
                let ghost m1 = self.model();
                self.deallocate(block, old_layout);
                assert(Self::allocates(m0, new_layout.size() as nat, new_layout.align() as nat, b, m1));
                Ok(b)
            },
            Err(e) => Err(e),
        }
    }

    /// Replaces `block` with one for the smaller `new_layout`: a fresh block
    /// is acquired, then the old one released; on failure nothing changes.
    fn shrink(&mut self, block: MemoryBlock, old_layout: Layout, new_layout: Layout) -> (r: Result<
        MemoryBlock,
        AllocError,
    >)
        requires
            old(self).inv(),
            Self::supports(old(self).model(), new_layout.size() as nat, new_layout.align() as nat),
            new_layout.size() <= old_layout.size(),
        ensures
            final(self).inv(),
            Self::will_serve(old(self).model(), new_layout.size() as nat, new_layout.align() as nat)
                ==> r is Ok,
            r matches Ok(b) ==> fits_layout(b, new_layout) && exists|mid: Self::Model|
                Self::allocates(
                    old(self).model(),
                    new_layout.size() as nat,
                    new_layout.align() as nat,
                    b,
                    mid,
                ) && Self::deallocates(
                    mid,
                    block,
                    old_layout.size() as nat,
                    old_layout.align() as nat,
                    final(self).model(),
                ),
            r is Err ==> final(self).model() == old(self).model(),
    {
        let ghost m0 = self.model();
        match self.allocate(new_layout) {
            Ok(b) => {
                let ghost m1 = self.model();
                self.deallocate(block, old_layout);
                assert(Self::allocates(m0, new_layout.size() as nat, new_layout.align() as nat, b, m1));
                Ok(b)
            },
            Err(e) => Err(e),
        }
    }
}

/// A non-owning handle: the same allocator serves several users in turn.
impl<A: Allocator> Allocator for &mut A {
    type Model = A::Model;

    open spec fn model(&self) -> A::Model {
        (**self).model()
    }

    open spec fn inv(&self) -> bool {
        (**self).inv()
    }

    open spec fn supports(m: A::Model, size: nat, align: nat) -> bool {
        A::supports(m, size, align)
    }

    open spec fn will_serve(m: A::Model, size: nat, align: nat) -> bool {
        A::will_serve(m, size, align)
    }

    open spec fn allocates(m: A::Model, size: nat, align: nat, b: MemoryBlock, after: A::Model) -> bool {
        A::allocates(m, size, align, b, after)
    }

    open spec fn deallocates(m: A::Model, b: MemoryBlock, size: nat, align: nat, after: A::Model) -> bool {
        A::deallocates(m, b, size, align, after)
    }

    fn allocate(&mut self, layout: Layout) -> (r: Result<MemoryBlock, AllocError>) {
        (**self).allocate(layout)
    }

    fn deallocate(&mut self, block: MemoryBlock, layout: Layout) {
        (**self).deallocate(block, layout)
    }

    fn allocate_zeroed(&mut self, layout: Layout) -> (r: Result<MemoryBlock, AllocError>) {
        (**self).allocate_zeroed(layout)
    }

    fn grow_zeroed(&mut self, block: MemoryBlock, old_layout: Layout, new_layout: Layout) -> (r:
        Result<MemoryBlock, AllocError>) {
        let ghost m0 = (**self).model();
        let r = (**self).grow_zeroed(block, old_layout, new_layout);
        proof {
            if let Ok(b) = r {
                let mid = choose|mid: A::Model|
                    A::allocates(m0, new_layout.size() as nat, new_layout.align() as nat, b, mid)
                        && A::deallocates(
                        mid,
                        block,
                        old_layout.size() as nat,
                        old_layout.align() as nat,
                        (**self).model(),
                    );
                assert(Self::allocates(m0, new_layout.size() as nat, new_layout.align() as nat, b, mid));
            }
        }
        r
    }

    fn grow(&mut self, block: MemoryBlock, old_layout: Layout, new_layout: Layout) -> (r: Result<
        MemoryBlock,
        AllocError,
    >) {
        let ghost m0 = (**self).model();
        let r = (**self).grow(block, old_layout, new_layout);
        proof {
            if let Ok(b) = r {
                let mid = choose|mid: A::Model|
                    A::allocates(m0, new_layout.size() as nat, new_layout.align() as nat, b, mid)
                        && A::deallocates(
                        mid,
                        block,
                        old_layout.size() as nat,
                        old_layout.align() as nat,
                        (**self).model(),
                    );
                assert(Self::allocates(m0, new_layout.size() as nat, new_layout.align() as nat, b, mid));
            }
        }
        r
    }

    fn shrink(&mut self, block: MemoryBlock, old_layout: Layout, new_layout: Layout) -> (r: Result<
        MemoryBlock,
        AllocError,
    >) {
        let ghost m0 = (**self).model();
        let r = (**self).shrink(block, old_layout, new_layout);
        proof {
            if let Ok(b) = r {
                let mid = choose|mid: A::Model|
                    A::allocates(m0, new_layout.size() as nat, new_layout.align() as nat, b, mid)
                        && A::deallocates(
                        mid,
                        block,
                        old_layout.size() as nat,
                        old_layout.align() as nat,
                        (**self).model(),
                    );
                assert(Self::allocates(m0, new_layout.size() as nat, new_layout.align() as nat, b, mid));
            }
        }
        r
    }
}

/// The process heap as an account of blocks, the universal fallback. The
/// elements themselves live in the containers' own heap storage; each block
/// records an extent of its own, which starts at the layout's alignment, the
/// first address that is not null and satisfies it. It serves every layout.
#[derive(Clone, Copy, Debug)]
pub struct Global;

impl Allocator for Global {
    type Model = ();

    open spec fn model(&self) -> () {
        ()
    }

    open spec fn inv(&self) -> bool {
        true
    }

    open spec fn supports(m: (), size: nat, align: nat) -> bool {
        true
    }

    open spec fn will_serve(m: (), size: nat, align: nat) -> bool {
        true
    }

    open spec fn allocates(m: (), size: nat, align: nat, b: MemoryBlock, after: ()) -> bool {
        b.base() == align && b.len() == size
    }

    open spec fn deallocates(m: (), b: MemoryBlock, size: nat, align: nat, after: ()) -> bool {
        true
    }

    /// Succeeds with a block of exactly the requested size.
    fn allocate(&mut self, layout: Layout) -> (r: Result<MemoryBlock, AllocError>) {
        Ok(MemoryBlock::new(layout.align(), layout.size()))
    }

    fn deallocate(&mut self, block: MemoryBlock, layout: Layout) {
    }
}

/// Usage figures of an allocator that keeps them.
pub trait AllocStat: Allocator {
    /// Bytes handed out, with the padding that alignment required.
    fn total_used(&self) -> usize
        requires
            self.inv(),
    ;

    /// Bytes the allocator holds in all.
    fn total_capacity(&self) -> usize
        requires
            self.inv(),
    ;
}

/// Copies of values that live for the rest of the program, each accounted
/// for by a block of the allocator. The copy itself sits in heap memory that
/// is never freed, also when the allocator later rolls back; the block only
/// charges its bytes to the allocator.
pub trait AllocExt: Allocator {
    /// Takes a block with the layout of `T` and returns a copy of `t`.
    fn new<T>(&mut self, t: T) -> (r: Result<&'static mut T, AllocError>)
        requires
            old(self).inv(),
            Self::supports(old(self).model(), size_of::<T>(), align_of::<T>()),
        ensures
            final(self).inv(),
            Self::will_serve(old(self).model(), size_of::<T>(), align_of::<T>()) ==> r is Ok,
            r matches Ok(x) ==> *x == t && exists|b: MemoryBlock|
                #[trigger] Self::allocates(old(self).model(), size_of::<T>(), align_of::<T>(), b, final(self).model()),
            r is Err ==> final(self).model() == old(self).model(),
    {
        vstd::layout::layout_for_type_is_valid::<T>();
        let layout = match Layout::from_size_align(core::mem::size_of::<T>(), core::mem::align_of::<T>()) {
            Ok(l) => l,
            Err(_) => return vstd::pervasive::unreached(),
        };
        match self.allocate(layout) {
            Ok(_) => Ok(leak_box(Box::new(t))),
            Err(e) => Err(e),
        }
    }

    /// Takes a block for the elements of `slice` and returns a copy of them.
    /// Fails before any allocator call when their byte size is not a valid
    /// layout size.
    fn add_slice<T: Copy>(&mut self, slice: &[T]) -> (r: Result<&'static mut [T], AllocError>)
        requires
            old(self).inv(),
            size_fits(size_of::<T>() * slice@.len(), align_of::<T>()) ==> Self::supports(
                old(self).model(),
                size_of::<T>() * slice@.len(),
                align_of::<T>(),
            ),
        ensures
            final(self).inv(),
            !size_fits(size_of::<T>() * slice@.len(), align_of::<T>()) ==> r is Err,
            size_fits(size_of::<T>() * slice@.len(), align_of::<T>()) && Self::will_serve(
                old(self).model(),
                size_of::<T>() * slice@.len(),
                align_of::<T>(),
            ) ==> r is Ok,
            r matches Ok(x) ==> x@ == slice@ && exists|b: MemoryBlock|
                #[trigger] Self::allocates(
                    old(self).model(),
                    size_of::<T>() * slice@.len(),
                    align_of::<T>(),
                    b,
                    final(self).model(),
                ),
            r is Err ==> final(self).model() == old(self).model(),
    {
        vstd::layout::layout_for_type_is_valid::<T>();
        let size = core::mem::size_of::<T>();
        let len = slice.len();
        if size != 0 && len > usize::MAX / size {
            proof {
                assert(size * len > usize::MAX) by (nonlinear_arith)
                    requires
                        size > 0,
                        len > usize::MAX / size,
                ;
            }
            return Err(AllocError);
        }
        proof {
            assert(size * len <= usize::MAX) by (nonlinear_arith)
                requires
                    size == 0 || len <= usize::MAX / size,
            ;
        }
        let layout = match Layout::from_size_align(size * len, core::mem::align_of::<T>()) {
            Ok(l) => l,
            Err(_) => return Err(AllocError),
        };
        match self.allocate(layout) {
            Ok(_) => {},
            Err(e) => return Err(e),
        }
        let mut copy: Vec<T> = Vec::new();
        let mut i: usize = 0;
        while i < len
            invariant
                i <= len,
                len == slice@.len(),
                copy@ == slice@.take(i as int),
            decreases len - i,
        {
            copy.push(slice[i]);
            i = i + 1;
            assert(copy@ =~= slice@.take(i as int));
        }
        assert(slice@.take(len as int) =~= slice@);
        Ok(leak_vec(copy))
    }

    /// Takes a block for the bytes of `string` and returns a copy of it.
    /// Fails before any allocator call when its length is not a valid layout
    /// size.
    fn add_str(&mut self, string: &str) -> (r: Result<&'static mut str, AllocError>)
        requires
            old(self).inv(),
            size_fits(string.len() as nat, 1) ==> Self::supports(old(self).model(), string.len() as nat, 1),
        ensures
            final(self).inv(),
            !size_fits(string.len() as nat, 1) ==> r is Err,
            size_fits(string.len() as nat, 1) && Self::will_serve(old(self).model(), string.len() as nat, 1)
                ==> r is Ok,
            r matches Ok(x) ==> x@ == string@ && exists|b: MemoryBlock|
                #[trigger] Self::allocates(old(self).model(), string.len() as nat, 1, b, final(self).model()),
            r is Err ==> final(self).model() == old(self).model(),
    {
        proof {
            reveal(is_pow2);
        }
        let layout = match Layout::from_size_align(string.len(), 1) {
            Ok(l) => l,
            Err(_) => return Err(AllocError),
        };
        match self.allocate(layout) {
            Ok(_) => Ok(leak_string(string.to_owned())),
            Err(e) => Err(e),
        }
    }
}

impl<A: Allocator> AllocExt for A {

}

/// Relies on `Vec::leak`: the returned slice holds the vector's elements in
/// order and its memory is never freed.
#[verifier::external_body]
pub(crate) fn leak_vec<'b, T>(v: Vec<T>) -> (r: &'b mut [T])
    ensures
        r@ == v@,
{
    v.leak()
}

/// Relies on `Box::leak`: the returned reference points at the boxed value,
/// whose memory is never freed.
#[verifier::external_body]
fn leak_box<'b, T>(b: Box<T>) -> (r: &'b mut T)
    ensures
        *r == *b,
{
    Box::leak(b)
}

/// Relies on `String::leak`: the returned string slice holds the string's
/// characters and its memory is never freed.
#[verifier::external_body]
fn leak_string<'b>(s: String) -> (r: &'b mut str)
    ensures
        r@ == s@,
{
    s.leak()
}

} // verus!
