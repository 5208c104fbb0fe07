use vstd::laws_eq::obeys_concrete_eq;
use vstd::prelude::*;

verus! {

/// The value inside `Ok`; the caller knows it is not an error.
pub fn expect<V, E>(res: Result<V, E>) -> (r: V)
    requires
        res is Ok,
    ensures
        res == Ok::<V, E>(r),
{
    match res {
        Ok(v) => v,
        Err(_) => vstd::pervasive::unreached(),
    }
}

/// The value inside `Some`; the caller knows it is there.
pub fn unwrap<V>(opt: Option<V>) -> (r: V)
    requires
        opt is Some,
    ensures
        opt == Some(r),
{
    match opt {
        Some(v) => v,
        None => vstd::pervasive::unreached(),
    }
}

/// Two values are equal exactly when `==` says so, for types whose `==` is
/// equality.
pub(crate) fn equal_values<K: PartialEq>(a: &K, b: &K) -> (r: bool)
    requires
        obeys_concrete_eq::<K>(),
    ensures
        r == (*a == *b),
{
    proof {
        reveal(obeys_concrete_eq);
    }
    *a == *b
}

/// A half-open range `start..end` that can be copied.
#[derive(Clone, Copy, Debug)]
pub struct CopyRange<U = usize> where U: Copy {
    pub start: U,
    pub end: U,
}

/// The range `start..end`.
#[inline(always)]
pub fn r<U>(start: U, end: U) -> (res: CopyRange<U>) where U: Copy
    ensures
        res.start == start,
        res.end == end,
{
    CopyRange { start, end }
}

impl CopyRange<usize> {
    #[inline(always)]
    pub fn len(&self) -> (r: usize)
        requires
            self.start <= self.end,
        ensures
            r == self.end - self.start,
    {
        self.end - self.start
    }
}

impl CopyRange<u32> {
    #[inline(always)]
    pub fn len(&self) -> (r: u32)
        requires
            self.start <= self.end,
        ensures
            r == self.end - self.start,
    {
        self.end - self.start
    }
}

/// A way to pick from a slice: one position, or a half-open range of them.
pub trait SliceIndex<T>: Sized {
    /// One element, or a slice of them.
    type IndexResult: ?Sized;

    /// Whether the pick lies inside a slice of `len` elements.
    spec fn in_bounds(&self, len: nat) -> bool;

    /// Whether `r` is what the pick selects from `data`.
    spec fn selects(&self, data: Seq<T>, r: &Self::IndexResult) -> bool;

    /// What the pick selects from `data`, if it lies inside.
    fn index(self, data: &[T]) -> (r: Option<&Self::IndexResult>)
        ensures
            r is Some <==> self.in_bounds(data@.len()),
            r matches Some(x) ==> self.selects(data@, x),
    ;
}

impl<T> SliceIndex<T> for u8 {
    type IndexResult = T;

    open spec fn in_bounds(&self, len: nat) -> bool {
        (*self as nat) < len
    }

    open spec fn selects(&self, data: Seq<T>, r: &T) -> bool {
        *r == data[*self as int]
    }

    #[inline(always)]
    fn index(self, data: &[T]) -> (r: Option<&T>) {
        if (self as usize) < data.len() {
            Some(&data[self as usize])
        } else {
            None
        }
    }
}

impl<T> SliceIndex<T> for u16 {
    type IndexResult = T;

    open spec fn in_bounds(&self, len: nat) -> bool {
        (*self as nat) < len
    }

    open spec fn selects(&self, data: Seq<T>, r: &T) -> bool {
        *r == data[*self as int]
    }

    #[inline(always)]
    fn index(self, data: &[T]) -> (r: Option<&T>) {
        if (self as usize) < data.len() {
            Some(&data[self as usize])
        } else {
            None
        }
    }
}

impl<T> SliceIndex<T> for u32 {
    type IndexResult = T;

    open spec fn in_bounds(&self, len: nat) -> bool {
        (*self as nat) < len
    }

    open spec fn selects(&self, data: Seq<T>, r: &T) -> bool {
        *r == data[*self as int]
    }

    #[inline(always)]
    fn index(self, data: &[T]) -> (r: Option<&T>) {
        if (self as usize) < data.len() {
            Some(&data[self as usize])
        } else {
            None
        }
    }
}

impl<T> SliceIndex<T> for usize {
    type IndexResult = T;

    open spec fn in_bounds(&self, len: nat) -> bool {
        (*self as nat) < len
    }

    open spec fn selects(&self, data: Seq<T>, r: &T) -> bool {
        *r == data[*self as int]
    }

    #[inline(always)]
    fn index(self, data: &[T]) -> (r: Option<&T>) {
        if self < data.len() {
            Some(&data[self])
        } else {
            None
        }
    }
}

/// The elements `start..end` of `data`, if `start <= end <= data.len()`.
fn sub_slice<T>(data: &[T], start: usize, end: usize) -> (r: Option<&[T]>)
    ensures
        r is Some <==> start <= end <= data@.len(),
        r matches Some(x) ==> x@ == data@.subrange(start as int, end as int),
{
    if start <= end && end <= data.len() {
        Some(&data[start..end])
    } else {
        None
    }
}

impl<T> SliceIndex<T> for CopyRange<u32> {
    type IndexResult = [T];

    open spec fn in_bounds(&self, len: nat) -> bool {
        self.start <= self.end && self.end as nat <= len
    }

    open spec fn selects(&self, data: Seq<T>, r: &[T]) -> bool {
        r@ == data.subrange(self.start as int, self.end as int)
    }

    #[inline(always)]
    fn index(self, data: &[T]) -> (r: Option<&[T]>) {
        sub_slice(data, self.start as usize, self.end as usize)
    }
}

impl<T> SliceIndex<T> for CopyRange<usize> {
    type IndexResult = [T];

    open spec fn in_bounds(&self, len: nat) -> bool {
        self.start <= self.end && self.end as nat <= len
    }

    open spec fn selects(&self, data: Seq<T>, r: &[T]) -> bool {
        r@ == data.subrange(self.start as int, self.end as int)
    }

    #[inline(always)]
    fn index(self, data: &[T]) -> (r: Option<&[T]>) {
        sub_slice(data, self.start, self.end)
    }
}

impl<T> SliceIndex<T> for core::ops::Range<u32> {
    type IndexResult = [T];

    open spec fn in_bounds(&self, len: nat) -> bool {
        self.start <= self.end && self.end as nat <= len
    }

    open spec fn selects(&self, data: Seq<T>, r: &[T]) -> bool {
        r@ == data.subrange(self.start as int, self.end as int)
    }

    #[inline(always)]
    fn index(self, data: &[T]) -> (r: Option<&[T]>) {
        sub_slice(data, self.start as usize, self.end as usize)
    }
}

impl<T> SliceIndex<T> for core::ops::Range<usize> {
    type IndexResult = [T];

    open spec fn in_bounds(&self, len: nat) -> bool {
        self.start <= self.end && self.end as nat <= len
    }

    open spec fn selects(&self, data: Seq<T>, r: &[T]) -> bool {
        r@ == data.subrange(self.start as int, self.end as int)
    }

    #[inline(always)]
    fn index(self, data: &[T]) -> (r: Option<&[T]>) {
        sub_slice(data, self.start, self.end)
    }
}

/// `if_true` when `cond` holds, else `if_false`.
pub fn const_cond(cond: bool, if_true: usize, if_false: usize) -> (r: usize)
    ensures
        r == if cond {
            if_true
        } else {
            if_false
        },
{
    if cond {
        if_true
    } else {
        if_false
    }
}

/// The larger of `a` and `b`.
pub fn const_max(a: usize, b: usize) -> (r: usize)
    ensures
        r == if a > b {
            a
        } else {
            b
        },
{
    const_cond(a > b, a, b)
}

} // verus!
