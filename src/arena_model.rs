//! The arena as the contracts see it: buckets with their usage, the step
//! that serves one request, rollback to a mark, and the laws they obey.

use vstd::arithmetic::power2::is_pow2;
use vstd::prelude::*;

verus! {

/// Size of a bucket that the arena creates for a request smaller than it.
pub const DEFAULT_BUCKET_SIZE: usize = 2097152;

/// The largest alignment the arena serves.
pub const MAX_ALIGN: usize = 8;

/// One bucket as the contracts see it: where it starts, how many of its bytes
/// are in use, and how many it has.
pub struct BucketState {
    pub base: nat,
    pub used: nat,
    pub capacity: nat,
}

impl BucketState {
    /// The first address after the bucket.
    pub open spec fn end(self) -> nat {
        self.base + self.capacity
    }

    /// Bytes skipped so that the next allocation starts at a multiple of `align`.
    pub open spec fn padding(self, align: nat) -> nat {
        if self.used % align == 0 {
            0
        } else {
            (align - self.used % align) as nat
        }
    }

    /// Whether `size` bytes at a multiple of `align` fit in the free tail.
    pub open spec fn fits(self, size: nat, align: nat) -> bool {
        self.used + self.padding(align) + size <= self.capacity
    }

    /// The same bucket with `used` bytes in use.
    pub open spec fn with_used(self, used: nat) -> BucketState {
        BucketState { used, ..self }
    }
}

/// Bytes in use, over all the buckets.
pub open spec fn sum_used(s: Seq<BucketState>) -> nat
    decreases s.len(),
{
    if s.len() == 0 {
        0
    } else {
        sum_used(s.drop_last()) + s.last().used
    }
}

/// Bytes held, over all the buckets.
pub open spec fn sum_capacity(s: Seq<BucketState>) -> nat
    decreases s.len(),
{
    if s.len() == 0 {
        0
    } else {
        sum_capacity(s.drop_last()) + s.last().capacity
    }
}

/// `n` rounded up to a multiple of 8.
pub open spec fn round_up8(n: nat) -> nat {
    if n % 8 == 0 {
        n
    } else {
        (n + 8 - n % 8) as nat
    }
}

/// The size of the bucket created for a request of `size` bytes.
pub open spec fn bucket_size_for(size: nat) -> nat {
    if size > DEFAULT_BUCKET_SIZE {
        size
    } else {
        DEFAULT_BUCKET_SIZE as nat
    }
}

/// The arena as the contracts see it: its buckets in order of creation and the
/// index of the one that serves new requests.
pub struct ArenaState {
    pub buckets: Seq<BucketState>,
    pub current: nat,
}

/// A checkpoint: a bucket index and how many bytes of that bucket were in use.
pub struct MarkState {
    pub index: nat,
    pub used: nat,
}

impl ArenaState {
    /// Usage within capacity; buckets on multiples of 8, in address order,
    /// inside the address space; the current one valid and all after it
    /// empty.
    pub open spec fn wf(self) -> bool {
        &&& (self.buckets.len() == 0 ==> self.current == 0)
        &&& (self.buckets.len() > 0 ==> self.current < self.buckets.len())
        &&& forall|i: int|
            0 <= i < self.buckets.len() ==> {
                &&& #[trigger] self.buckets[i].used <= self.buckets[i].capacity
                &&& self.buckets[i].base % 8 == 0
                &&& self.buckets[i].base >= 8
                &&& self.buckets[i].end() <= usize::MAX
            }
        &&& forall|i: int, j: int|
            0 <= i < j < self.buckets.len() ==> #[trigger] self.buckets[i].end()
                <= #[trigger] self.buckets[j].base
        &&& forall|i: int| self.current < i < self.buckets.len() ==> #[trigger] self.buckets[i].used == 0
    }

    /// What `total_used` reports.
    pub open spec fn total_used(self) -> nat {
        sum_used(self.buckets)
    }

    /// What `total_capacity` reports.
    pub open spec fn total_capacity(self) -> nat {
        sum_capacity(self.buckets)
    }

    /// Where the next new bucket starts: after the last one, on a multiple of 8.
    pub open spec fn next_base(self) -> nat {
        if self.buckets.len() == 0 {
            8
        } else {
            round_up8(self.buckets.last().end())
        }
    }

    /// The current bucket can serve the request.
    pub open spec fn fits_current(self, size: nat, align: nat) -> bool {
        self.buckets.len() > 0 && self.buckets[self.current as int].fits(size, align)
    }

    /// A bucket left empty by a rollback, just after the current one, is
    /// taken before a new one is made.
    pub open spec fn fits_next(self, size: nat) -> bool {
        self.current + 1 < self.buckets.len() && size <= self.buckets[self.current + 1int].capacity
    }

    /// The request is refused: its alignment is too large, or it needs a new
    /// bucket and the address space has no room for one.
    pub open spec fn allocation_fails(self, size: nat, align: nat) -> bool {
        ||| align > MAX_ALIGN
        ||| (!self.fits_current(size, align) && !self.fits_next(size) && self.next_base()
            + bucket_size_for(size) > usize::MAX)
    }

    /// The address at which a request is served.
    pub open spec fn placement(self, size: nat, align: nat) -> nat {
        if self.fits_current(size, align) {
            let b = self.buckets[self.current as int];
            b.base + b.used + b.padding(align)
        } else if self.fits_next(size) {
            self.buckets[self.current + 1int].base
        } else {
            self.next_base()
        }
    }

    /// The arena after a request that it can serve.
    pub open spec fn served(self, size: nat, align: nat) -> ArenaState {
        if self.fits_current(size, align) {
            let b = self.buckets[self.current as int];
            ArenaState {
                buckets: self.buckets.update(
                    self.current as int,
                    b.with_used(b.used + b.padding(align) + size),
                ),
                current: self.current,
            }
        } else if self.fits_next(size) {
            let b = self.buckets[self.current + 1int];
            ArenaState {
                buckets: self.buckets.update(self.current + 1int, b.with_used(size)),
                current: self.current + 1,
            }
        } else {
            ArenaState {
                buckets: self.buckets.push(
                    BucketState { base: self.next_base(), used: size, capacity: bucket_size_for(size) },
                ),
                current: self.buckets.len(),
            }
        }
    }

    /// The arena after a request, served or refused.
    pub open spec fn step(self, size: nat, align: nat) -> ArenaState {
        if self.allocation_fails(size, align) {
            self
        } else {
            self.served(size, align)
        }
    }

    /// The mark that `save` takes.
    pub open spec fn mark(self) -> MarkState {
        MarkState {
            index: self.current,
            used: if self.buckets.len() > 0 {
                self.buckets[self.current as int].used
            } else {
                0
            },
        }
    }

    /// A mark that can be restored: it does not lie after the current bucket
    /// and its usage fits its bucket.
    pub open spec fn can_restore(self, m: MarkState) -> bool {
        &&& m.index <= self.current
        &&& (self.buckets.len() > 0 ==> m.used <= self.buckets[m.index as int].capacity)
        &&& (self.buckets.len() == 0 ==> m.used == 0)
    }

    /// The marked bucket gets back the usage of the mark, every later bucket
    /// is emptied, and the marked bucket becomes the current one.
    pub open spec fn restored(self, m: MarkState) -> ArenaState {
        if self.buckets.len() == 0 {
            self
        } else {
            ArenaState {
                buckets: Seq::new(
                    self.buckets.len(),
                    |i: int|
                        if i < m.index {
                            self.buckets[i]
                        } else if i == m.index {
                            self.buckets[i].with_used(m.used)
                        } else {
                            self.buckets[i].with_used(0)
                        },
                ),
                current: m.index,
            }
        }
    }
}

/// A fresh arena with one empty bucket of `capacity` bytes.
pub open spec fn fresh(capacity: nat) -> ArenaState {
    ArenaState { buckets: seq![BucketState { base: 8, used: 0, capacity }], current: 0 }
}

/// A mark that a scope holds: restorable, and the marked bucket has not
/// given back any of the bytes it had in use when the mark was taken.
pub open spec fn scope_ok(a: ArenaState, m: MarkState) -> bool {
    &&& a.can_restore(m)
    &&& (a.buckets.len() > 0 ==> m.used <= a.buckets[m.index as int].used)
}

/// Bytes served since the mark: what the marked bucket took after it and all
/// that later buckets hold.
pub open spec fn used_since(a: ArenaState, m: MarkState) -> int {
    if a.buckets.len() == 0 {
        0
    } else {
        sum_used(a.buckets) - sum_used(a.buckets.take(m.index as int)) - m.used
    }
}

/// Capacity from the mark on: the marked bucket's bytes after it and all
/// later buckets.
pub open spec fn capacity_since(a: ArenaState, m: MarkState) -> int {
    if a.buckets.len() == 0 {
        0
    } else {
        sum_capacity(a.buckets) - sum_capacity(a.buckets.take(m.index as int)) - m.used
    }
}

/// A mark just taken can be restored.
pub proof fn lemma_mark_scope_ok(a: ArenaState)
    requires
        a.wf(),
    ensures
        scope_ok(a, a.mark()),
{
    if a.buckets.len() > 0 {
        assert(a.buckets[a.current as int].used <= a.buckets[a.current as int].capacity);
    }
}

/// Serving a request, or refusing it, keeps a mark restorable.
pub proof fn lemma_step_scope_ok(a: ArenaState, m: MarkState, size: nat, align: nat)
    requires
        a.wf(),
        scope_ok(a, m),
        is_pow2(align as int),
    ensures
        scope_ok(a.step(size, align), m),
{
    lemma_step_grows(a, size, align);
    let t = a.step(size, align);
    if a.buckets.len() > 0 {
        if m.index < a.current {
            assert(t.buckets[m.index as int].used == a.buckets[m.index as int].used);
        }
        assert(t.buckets[m.index as int].capacity == a.buckets[m.index as int].capacity);
    } else if t.buckets.len() > 0 {
        assert(m.index == 0 && m.used == 0);
    }
}

/// The usage of the first `k` buckets is part of the whole.
pub(crate) proof fn lemma_prefix_used(s: Seq<BucketState>, k: int)
    requires
        0 <= k <= s.len(),
    ensures
        sum_used(s.take(k)) <= sum_used(s),
        sum_capacity(s.take(k)) <= sum_capacity(s),
        k < s.len() ==> sum_used(s.take(k + 1)) == sum_used(s.take(k)) + s[k].used,
        k < s.len() ==> sum_capacity(s.take(k + 1)) == sum_capacity(s.take(k)) + s[k].capacity,
    decreases s.len(),
{
    if k < s.len() {
        assert(s.take(k + 1).drop_last() =~= s.take(k));
        lemma_prefix_used(s.drop_last(), k);
        assert(s.drop_last().take(k) =~= s.take(k));
        if k + 1 < s.len() {
            lemma_prefix_used(s.drop_last(), k + 1);
            assert(s.drop_last().take(k + 1) =~= s.take(k + 1));
        } else {
            assert(s.take(k + 1) =~= s);
        }
    } else {
        assert(s.take(k) =~= s);
    }
}

/// A power of two no larger than 8 is 1, 2, 4 or 8.
pub(crate) proof fn lemma_small_pow2(align: nat)
    requires
        is_pow2(align as int),
        align <= 8,
    ensures
        align == 1 || align == 2 || align == 4 || align == 8,
{
    reveal(is_pow2);
    if align != 1 {
        reveal(is_pow2);
        assert(is_pow2(align as int / 2));
        if align / 2 != 1 {
            assert(is_pow2(align as int / 4));
            if align / 4 != 1 {
                assert(is_pow2(align as int / 8));
            }
        }
    }
}

/// An offset that is a multiple of `align` from an address that is a
/// multiple of 8 gives an address that is a multiple of `align`.
pub(crate) proof fn lemma_aligned(base: nat, off: nat, align: nat)
    requires
        base % 8 == 0,
        align == 1 || align == 2 || align == 4 || align == 8,
        off % align == 0,
    ensures
        (base + off) % align == 0,
{
}

pub(crate) proof fn lemma_padding(b: BucketState, align: nat)
    requires
        align == 1 || align == 2 || align == 4 || align == 8,
    ensures
        (b.used + b.padding(align)) % align == 0,
{
    let u = b.used;
    if align == 2 {
        assert((u + b.padding(2)) % 2 == 0);
    } else if align == 4 {
        assert((u + b.padding(4)) % 4 == 0);
    } else if align == 8 {
        assert((u + b.padding(8)) % 8 == 0);
    }
}

/// Serving a request keeps the arena well formed.
pub proof fn lemma_served_wf(s: ArenaState, size: nat, align: nat)
    requires
        s.wf(),
        !s.allocation_fails(size, align),
        is_pow2(align as int),
    ensures
        s.served(size, align).wf(),
        s.placement(size, align) % align == 0,
{
    let t = s.served(size, align);
    lemma_small_pow2(align);
    if s.fits_current(size, align) {
        let b = s.buckets[s.current as int];
        assert(b.used <= b.capacity);
        lemma_padding(b, align);
        lemma_aligned(b.base, b.used + b.padding(align), align);
        assert forall|i: int| 0 <= i < t.buckets.len() implies {
            &&& #[trigger] t.buckets[i].used <= t.buckets[i].capacity
            &&& t.buckets[i].base % 8 == 0
            &&& t.buckets[i].base >= 8
            &&& t.buckets[i].end() <= usize::MAX
        } by {
            assert(s.buckets[i].used <= s.buckets[i].capacity);
        }
        assert forall|i: int, j: int| 0 <= i < j < t.buckets.len() implies #[trigger] t.buckets[i].end()
            <= #[trigger] t.buckets[j].base by {
            assert(s.buckets[i].end() <= s.buckets[j].base);
        }
        assert forall|i: int| t.current < i < t.buckets.len() implies #[trigger] t.buckets[i].used
            == 0 by {
            assert(s.buckets[i].used == 0);
        }
    } else if s.fits_next(size) {
        let b = s.buckets[s.current + 1int];
        assert(b.used <= b.capacity);
        lemma_aligned(b.base, 0, align);
        assert forall|i: int| 0 <= i < t.buckets.len() implies {
            &&& #[trigger] t.buckets[i].used <= t.buckets[i].capacity
            &&& t.buckets[i].base % 8 == 0
            &&& t.buckets[i].base >= 8
            &&& t.buckets[i].end() <= usize::MAX
        } by {
            assert(s.buckets[i].used <= s.buckets[i].capacity);
        }
        assert forall|i: int, j: int| 0 <= i < j < t.buckets.len() implies #[trigger] t.buckets[i].end()
            <= #[trigger] t.buckets[j].base by {
            assert(s.buckets[i].end() <= s.buckets[j].base);
        }
        assert forall|i: int| t.current < i < t.buckets.len() implies #[trigger] t.buckets[i].used
            == 0 by {
            assert(s.buckets[i].used == 0);
        }
    } else {
        let n = s.buckets.len();
        let nb = s.next_base();
        assert(nb % 8 == 0 && nb >= 8);
        lemma_aligned(nb, 0, align);
        if n > 0 {
            assert forall|i: int| 0 <= i < n implies #[trigger] s.buckets[i].end() <= nb by {
                if i < n - 1 {
                    assert(s.buckets[i].end() <= s.buckets[n - 1].base);
                }
            }
        }
        assert forall|i: int| 0 <= i < t.buckets.len() implies {
            &&& #[trigger] t.buckets[i].used <= t.buckets[i].capacity
            &&& t.buckets[i].base % 8 == 0
            &&& t.buckets[i].base >= 8
            &&& t.buckets[i].end() <= usize::MAX
        } by {
            if i < n {
                assert(s.buckets[i].used <= s.buckets[i].capacity);
            }
        }
        assert forall|i: int, j: int| 0 <= i < j < t.buckets.len() implies #[trigger] t.buckets[i].end()
            <= #[trigger] t.buckets[j].base by {
            if j < n {
                assert(s.buckets[i].end() <= s.buckets[j].base);
            } else {
                assert(s.buckets[i].end() <= nb);
            }
        }
    }
}

/// The arena after serving the requests `(size, align)` in order.
pub open spec fn serve_all(s: ArenaState, reqs: Seq<(nat, nat)>) -> ArenaState
    decreases reqs.len(),
{
    if reqs.len() == 0 {
        s
    } else {
        serve_all(s, reqs.drop_last()).step(reqs.last().0, reqs.last().1)
    }
}

/// The sum of the sizes of the requests.
pub open spec fn total_size(reqs: Seq<(nat, nat)>) -> nat
    decreases reqs.len(),
{
    if reqs.len() == 0 {
        0
    } else {
        total_size(reqs.drop_last()) + reqs.last().0
    }
}

/// Requests with sizes that are multiples of 8 and alignments of at most 8,
/// which together fit in a fresh arena of `c` bytes, all land in its first
/// bucket: the usage is the sum of their sizes and the capacity stays `c`.
pub proof fn lemma_accounting(c: nat, reqs: Seq<(nat, nat)>)
    requires
        c <= isize::MAX - 7,
        forall|i: int|
            0 <= i < reqs.len() ==> #[trigger] reqs[i].0 % 8 == 0 && is_pow2(reqs[i].1 as int)
                && reqs[i].1 <= MAX_ALIGN,
        total_size(reqs) <= c,
    ensures
        serve_all(fresh(c), reqs) == (ArenaState {
            buckets: seq![BucketState { base: 8, used: total_size(reqs), capacity: c }],
            current: 0,
        }),
        serve_all(fresh(c), reqs).total_used() == total_size(reqs),
        serve_all(fresh(c), reqs).total_capacity() == c,
        total_size(reqs) % 8 == 0,
    decreases reqs.len(),
{
    let one = serve_all(fresh(c), reqs);
    if reqs.len() > 0 {
        let d = reqs.drop_last();
        assert forall|i: int| 0 <= i < d.len() implies #[trigger] d[i].0 % 8 == 0 && is_pow2(
            d[i].1 as int,
        ) && d[i].1 <= MAX_ALIGN by {
            assert(d[i] == reqs[i]);
        }
        lemma_accounting(c, d);
        let s = serve_all(fresh(c), d);
        let size = reqs.last().0;
        let align = reqs.last().1;
        assert(reqs[reqs.len() - 1].0 % 8 == 0);
        lemma_small_pow2(align);
        let b = s.buckets[0];
        assert(b.used == total_size(d));
        assert(b.padding(align) == 0);
        assert(s.fits_current(size, align));
        assert(one.buckets =~= seq![BucketState { base: 8, used: total_size(reqs), capacity: c }]);
    }
    let single = one.buckets;
    assert(single.drop_last() =~= Seq::<BucketState>::empty());
    assert(sum_used(single) == sum_used(single.drop_last()) + single.last().used);
    assert(sum_capacity(single) == sum_capacity(single.drop_last()) + single.last().capacity);
}

/// A request that fits neither the current bucket nor an empty one after it
/// opens a new bucket of `max(size, DEFAULT_BUCKET_SIZE)` bytes: the capacity
/// grows by exactly that and the usage by the request's size.
pub proof fn lemma_overflow(s: ArenaState, size: nat, align: nat)
    requires
        s.wf(),
        is_pow2(align as int),
        align <= MAX_ALIGN,
        !s.fits_current(size, align),
        !s.fits_next(size),
        s.next_base() + bucket_size_for(size) <= usize::MAX,
    ensures
        s.step(size, align).buckets.len() == s.buckets.len() + 1,
        s.step(size, align).total_capacity() == s.total_capacity() + bucket_size_for(size),
        s.step(size, align).total_used() == s.total_used() + size,
{
    let t = s.step(size, align);
    assert(t.buckets.drop_last() =~= s.buckets);
}

/// `t` is what `s` can become by serving requests: no bucket is lost or
/// changes place or size, buckets before the current one keep their usage,
/// and the current one only fills up.
pub open spec fn grows(s: ArenaState, t: ArenaState) -> bool {
    &&& t.buckets.len() >= s.buckets.len()
    &&& t.current >= s.current
    &&& forall|i: int|
        0 <= i < s.buckets.len() ==> (#[trigger] t.buckets[i]).base == s.buckets[i].base
            && t.buckets[i].capacity == s.buckets[i].capacity
    &&& forall|i: int| 0 <= i < s.current ==> (#[trigger] t.buckets[i]).used == s.buckets[i].used
    &&& (s.buckets.len() > 0 ==> t.buckets[s.current as int].used >= s.buckets[s.current as int].used)
}

pub(crate) proof fn lemma_step_grows(s: ArenaState, size: nat, align: nat)
    requires
        s.wf(),
        is_pow2(align as int),
    ensures
        s.step(size, align).wf(),
        grows(s, s.step(size, align)),
{
    if !s.allocation_fails(size, align) {
        lemma_served_wf(s, size, align);
    }
}

pub(crate) proof fn lemma_grows_trans(r: ArenaState, s: ArenaState, t: ArenaState)
    requires
        grows(r, s),
        grows(s, t),
    ensures
        grows(r, t),
{
    assert forall|i: int| 0 <= i < r.current implies (#[trigger] t.buckets[i]).used == r.buckets[i].used by {
        assert(s.buckets[i].used == r.buckets[i].used);
    }
    if r.buckets.len() > 0 && r.current < s.current {
        assert(t.buckets[r.current as int].used == s.buckets[r.current as int].used);
    }
}

pub(crate) proof fn lemma_serve_all_grows(s: ArenaState, reqs: Seq<(nat, nat)>)
    requires
        s.wf(),
        forall|i: int| 0 <= i < reqs.len() ==> is_pow2(#[trigger] reqs[i].1 as int),
    ensures
        serve_all(s, reqs).wf(),
        grows(s, serve_all(s, reqs)),
    decreases reqs.len(),
{
    if reqs.len() == 0 {
        assert(grows(s, s));
    } else {
        let d = reqs.drop_last();
        assert forall|i: int| 0 <= i < d.len() implies is_pow2(#[trigger] d[i].1 as int) by {
            assert(d[i] == reqs[i]);
        }
        lemma_serve_all_grows(s, d);
        let m = serve_all(s, d);
        assert(is_pow2(reqs[reqs.len() - 1].1 as int));
        lemma_step_grows(m, reqs.last().0, reqs.last().1);
        lemma_grows_trans(s, m, serve_all(s, reqs));
    }
}

/// Buckets from index `k` on that are empty add nothing to the usage.
pub(crate) proof fn lemma_sum_used_zero_tail(s: Seq<BucketState>, k: int)
    requires
        0 <= k <= s.len(),
        forall|i: int| k <= i < s.len() ==> (#[trigger] s[i]).used == 0,
    ensures
        sum_used(s) == sum_used(s.take(k)),
    decreases s.len(),
{
    if s.len() == k {
        assert(s.take(k) =~= s);
    } else {
        let d = s.drop_last();
        assert(s[s.len() - 1].used == 0);
        lemma_sum_used_zero_tail(d, k);
        assert(d.take(k) =~= s.take(k));
    }
}

/// Rolling back to a mark gives back the usage at the time it was taken,
/// whatever requests were served in between.
pub proof fn lemma_rollback(s: ArenaState, reqs: Seq<(nat, nat)>)
    requires
        s.wf(),
        forall|i: int| 0 <= i < reqs.len() ==> is_pow2(#[trigger] reqs[i].1 as int),
    ensures
        serve_all(s, reqs).can_restore(s.mark()),
        serve_all(s, reqs).restored(s.mark()).total_used() == s.total_used(),
{
    lemma_serve_all_grows(s, reqs);
    let t = serve_all(s, reqs);
    let m = s.mark();
    let r = t.restored(m);
    if s.buckets.len() == 0 {
        assert(s.buckets.take(0) =~= s.buckets);
        if t.buckets.len() > 0 {
            lemma_sum_used_zero_tail(r.buckets, 0);
        }
        assert(r.buckets.take(0) =~= Seq::<BucketState>::empty());
        assert(s.buckets.take(0) =~= Seq::<BucketState>::empty());
    } else {
        let k: int = s.current + 1int;
        assert(s.buckets[s.current as int].used <= s.buckets[s.current as int].capacity);
        lemma_sum_used_zero_tail(r.buckets, k);
        lemma_sum_used_zero_tail(s.buckets, k);
        assert forall|i: int| 0 <= i < k implies r.buckets.take(k)[i] == s.buckets.take(k)[i] by {
            assert(t.buckets[i].base == s.buckets[i].base);
        }
        assert(r.buckets.take(k) =~= s.buckets.take(k));
    }
}

/// Usage never exceeds capacity, bucket by bucket and so in total.
pub proof fn lemma_sum_used_le_capacity(s: Seq<BucketState>)
    requires
        forall|i: int| 0 <= i < s.len() ==> #[trigger] s[i].used <= s[i].capacity,
    ensures
        sum_used(s) <= sum_capacity(s),
    decreases s.len(),
{
    if s.len() > 0 {
        lemma_sum_used_le_capacity(s.drop_last());
    }
}

/// Buckets laid out one after another hold no more bytes than the address
/// range up to the end of the last one.
pub proof fn lemma_sum_capacity_le_end(s: Seq<BucketState>)
    requires
        s.len() > 0,
        forall|i: int, j: int| 0 <= i < j < s.len() ==> #[trigger] s[i].end() <= #[trigger] s[j].base,
    ensures
        sum_capacity(s) <= s.last().end(),
    decreases s.len(),
{
    let d = s.drop_last();
    assert(sum_capacity(s) == sum_capacity(d) + s.last().capacity);
    if s.len() > 1 {
        lemma_sum_capacity_le_end(d);
        let a = s[s.len() - 2];
        let b = s[s.len() - 1];
        assert(a.end() <= b.base);
        assert(d.last() == a);
    } else {
        assert(sum_capacity(d) == 0);
    }
}

pub(crate) proof fn lemma_restored_wf(s: ArenaState, m: MarkState)
    requires
        s.wf(),
        s.can_restore(m),
    ensures
        s.restored(m).wf(),
        s.restored(m).buckets.len() == s.buckets.len(),
{
    let r = s.restored(m);
    if s.buckets.len() > 0 {
        assert forall|i: int| 0 <= i < r.buckets.len() implies {
            &&& #[trigger] r.buckets[i].used <= r.buckets[i].capacity
            &&& r.buckets[i].base % 8 == 0
            &&& r.buckets[i].base >= 8
            &&& r.buckets[i].end() <= usize::MAX
        } by {
            assert(s.buckets[i].used <= s.buckets[i].capacity);
        }
        assert forall|i: int, j: int| 0 <= i < j < r.buckets.len() implies #[trigger] r.buckets[i].end()
            <= #[trigger] r.buckets[j].base by {
            assert(s.buckets[i].end() <= s.buckets[j].base);
        }
        assert forall|i: int| r.current < i < r.buckets.len() implies #[trigger] r.buckets[i].used
            == 0 by {
            assert(r.buckets[i] == s.buckets[i].with_used(0));
        }
    }
}

} // verus!
