use crate::alloc_api::{leak_vec, size_fits, AllocError, Allocator, Layout, MemoryBlock};
use crate::basic::equal_values;
use vstd::laws_eq::obeys_concrete_eq;
use vstd::layout::{align_of, size_of};
use vstd::prelude::*;
use vstd::set_lib::{lemma_int_range, lemma_len_subset, lemma_map_size, set_int_range};
use vstd::std_specs::hash::DefaultHasherAdditionalSpecFns;
use std::collections::hash_map::DefaultHasher;
use std::collections::HashMap;
use vstd::std_specs::hash::{obeys_key_model, spec_hash_map_iter};
use vstd::std_specs::iter::IteratorSpec;
use std::hash::Hasher;

verus! {

/// How a table turns a key into a 64-bit hash; the same key always gives the
/// same hash.
pub trait HashState<K> {
    spec fn spec_hash(&self, key: K) -> u64;

    fn hash_key(&self, key: &K) -> (r: u64)
        ensures
            r == self.spec_hash(*key),
    ;
}

/// The little-endian bytes of `k`.
pub open spec fn le_bytes(k: u64) -> Seq<u8> {
    Seq::new(8, |i: int| ((k >> (8 * i) as u64) & 0xff) as u8)
}

/// The digest that a fresh `DefaultHasher` gives after one write of the
/// little-endian bytes of `k`.
pub open spec fn key_digest(k: u64) -> u64 {
    DefaultHasher::spec_finish(seq![le_bytes(k)])
}

fn digest_u64(k: u64) -> (r: u64)
    ensures
        r == key_digest(k),
{
    let mut bytes: Vec<u8> = Vec::new();
    let mut i: u64 = 0;
    while i < 8
        invariant
            i <= 8,
            bytes@ == le_bytes(k).take(i as int),
        decreases 8 - i,
    {
        bytes.push(((k >> (8 * i)) & 0xff) as u8);
        i = i + 1;
        assert(bytes@ =~= le_bytes(k).take(i as int));
    }
    assert(bytes@ =~= le_bytes(k));
    let mut h = DefaultHasher::new();
    h.write(bytes.as_slice());
    assert(h@ =~= seq![le_bytes(k)]);
    h.finish()
}

/// The fixed hash: a `DefaultHasher` made with its fixed keys, fed the key's
/// value as eight little-endian bytes. It is the same in every process.
#[derive(Clone, Copy, Debug)]
pub struct DetState;

impl HashState<u8> for DetState {
    open spec fn spec_hash(&self, key: u8) -> u64 {
        key_digest(key as u64)
    }

    fn hash_key(&self, key: &u8) -> (r: u64) {
        digest_u64(*key as u64)
    }
}

impl HashState<u16> for DetState {
    open spec fn spec_hash(&self, key: u16) -> u64 {
        key_digest(key as u64)
    }

    fn hash_key(&self, key: &u16) -> (r: u64) {
        digest_u64(*key as u64)
    }
}

impl HashState<u32> for DetState {
    open spec fn spec_hash(&self, key: u32) -> u64 {
        key_digest(key as u64)
    }

    fn hash_key(&self, key: &u32) -> (r: u64) {
        digest_u64(*key as u64)
    }
}

impl HashState<u64> for DetState {
    open spec fn spec_hash(&self, key: u64) -> u64 {
        key_digest(key)
    }

    fn hash_key(&self, key: &u64) -> (r: u64) {
        digest_u64(*key)
    }
}

impl HashState<usize> for DetState {
    open spec fn spec_hash(&self, key: usize) -> u64 {
        key_digest(key as u64)
    }

    fn hash_key(&self, key: &usize) -> (r: u64) {
        digest_u64(*key as u64)
    }
}

impl HashState<i32> for DetState {
    open spec fn spec_hash(&self, key: i32) -> u64 {
        key_digest(key as u64)
    }

    fn hash_key(&self, key: &i32) -> (r: u64) {
        digest_u64(*key as u64)
    }
}

impl HashState<i64> for DetState {
    open spec fn spec_hash(&self, key: i64) -> u64 {
        key_digest(key as u64)
    }

    fn hash_key(&self, key: &i64) -> (r: u64) {
        digest_u64(*key as u64)
    }
}

/// One slot of a table: a key with its value, or nothing.
#[derive(Clone, Copy, Debug)]
pub enum HashRefSlot<Key, Value> where Key: Copy, Value: Copy {
    Full(Key, Value),
    Empty,
}

pub open spec fn holds<K: Copy, V: Copy>(s: HashRefSlot<K, V>, k: K) -> bool {
    s matches HashRefSlot::Full(key, _) && key == k
}

pub open spec fn slot_key<K: Copy, V: Copy>(s: HashRefSlot<K, V>) -> K {
    match s {
        HashRefSlot::Full(k, _) => k,
        HashRefSlot::Empty => arbitrary(),
    }
}

pub open spec fn slot_value<K: Copy, V: Copy>(s: HashRefSlot<K, V>) -> V {
    match s {
        HashRefSlot::Full(_, v) => v,
        HashRefSlot::Empty => arbitrary(),
    }
}

/// The slot `d` steps after `h`, wrapping at `n`.
pub open spec fn probe(h: int, d: int, n: int) -> int {
    if h + d < n {
        h + d
    } else {
        h + d - n
    }
}

/// How many steps after `h` the slot `i` lies, wrapping at `n`.
pub open spec fn dist(h: int, i: int, n: int) -> int {
    if i >= h {
        i - h
    } else {
        i + n - h
    }
}

/// Where the search for `k` starts in a table of `n` slots.
pub open spec fn home<K, S: HashState<K>>(state: S, k: K, n: int) -> int {
    (state.spec_hash(k) as int) % n
}

/// The table holds each key at most once, and every key sits after its start
/// slot with no empty slot in between.
pub open spec fn table_wf<K: Copy, V: Copy, S: HashState<K>>(
    slots: Seq<HashRefSlot<K, V>>,
    state: S,
) -> bool {
    let n = slots.len() as int;
    &&& forall|i: int, j: int|
        0 <= i < n && 0 <= j < n && i != j && (#[trigger] slots[i]) is Full && (#[trigger] slots[j]) is Full
            ==> slot_key(slots[i]) != slot_key(slots[j])
    &&& forall|i: int, d: int|
        #![trigger slots[i], probe(home(state, slot_key(slots[i]), n), d, n)]
        0 <= i < n && slots[i] is Full && 0 <= d < dist(home(state, slot_key(slots[i]), n), i, n)
            ==> slots[probe(home(state, slot_key(slots[i]), n), d, n)] is Full
}

/// The keys and values that the slots hold.
pub open spec fn contents<K: Copy, V: Copy>(slots: Seq<HashRefSlot<K, V>>) -> Map<K, V> {
    Map::new(
        |k: K| exists|i: int| 0 <= i < slots.len() && #[trigger] holds(slots[i], k),
        |k: K| slot_value(slots[choose|i: int| 0 <= i < slots.len() && #[trigger] holds(slots[i], k)]),
    )
}

/// The map that a source of pairs describes: a later pair overrides an
/// earlier one with the same key.
pub open spec fn source_map<K, V>(data: Seq<(K, V)>) -> Map<K, V>
    decreases data.len(),
{
    if data.len() == 0 {
        Map::empty()
    } else {
        source_map(data.drop_last()).insert(data.last().0, data.last().1)
    }
}

proof fn lemma_probe_dist(h: int, d: int, n: int)
    requires
        0 <= h < n,
        0 <= d < n,
    ensures
        0 <= probe(h, d, n) < n,
        dist(h, probe(h, d, n), n) == d,
{
}

proof fn lemma_dist_probe(h: int, i: int, n: int)
    requires
        0 <= h < n,
        0 <= i < n,
    ensures
        0 <= dist(h, i, n) < n,
        probe(h, dist(h, i, n), n) == i,
{
}

/// Walks from slot `h` until a slot that is empty or holds `key`, at most
/// once round the table.
fn probe_for<K: PartialEq + Copy, V: Copy>(slots: &[HashRefSlot<K, V>], h: usize, key: &K) -> (r:
    Option<usize>)
    requires
        h < slots@.len(),
        obeys_concrete_eq::<K>(),
    ensures
        r matches Some(i) ==> {
            &&& i < slots@.len()
            &&& (slots@[i as int] is Empty || holds(slots@[i as int], *key))
            &&& forall|d: int|
                0 <= d < dist(h as int, i as int, slots@.len() as int) ==> {
                    let p = #[trigger] probe(h as int, d, slots@.len() as int);
                    slots@[p] is Full && !holds(slots@[p], *key)
                }
        },
        r is None ==> forall|d: int|
            0 <= d < slots@.len() ==> {
                let p = #[trigger] probe(h as int, d, slots@.len() as int);
                slots@[p] is Full && !holds(slots@[p], *key)
            },
{
    let n = slots.len();
    let mut idx = h;
    let mut d: usize = 0;
    while d < n
        invariant
            n == slots@.len(),
            h < n,
            d <= n,
            d < n ==> idx == probe(h as int, d as int, n as int),
            idx < n,
            obeys_concrete_eq::<K>(),
            forall|e: int|
                0 <= e < d ==> {
                    let p = #[trigger] probe(h as int, e, n as int);
                    slots@[p] is Full && !holds(slots@[p], *key)
                },
        decreases n - d,
    {
        proof {
            lemma_probe_dist(h as int, d as int, n as int);
        }
        match &slots[idx] {
            HashRefSlot::Empty => {
                return Some(idx);
            },
            HashRefSlot::Full(k, _) => {
                if equal_values(k, key) {
                    return Some(idx);
                }
            },
        }
        d = d + 1;
        idx = if idx + 1 == n {
            0
        } else {
            idx + 1
        };
    }
    None
}

/// A search that ends on an empty slot, or goes once round the table,
/// proves the key absent.
proof fn lemma_absent<K: Copy, V: Copy, S: HashState<K>>(
    slots: Seq<HashRefSlot<K, V>>,
    state: S,
    k: K,
    stop: int,
)
    requires
        table_wf(slots, state),
        slots.len() > 0,
        0 <= stop <= slots.len(),
        stop < slots.len() ==> slots[probe(home(state, k, slots.len() as int), stop, slots.len() as int)] is Empty,
        forall|d: int|
            0 <= d < stop ==> {
                let p = #[trigger] probe(home(state, k, slots.len() as int), d, slots.len() as int);
                slots[p] is Full && !holds(slots[p], k)
            },
    ensures
        !contents(slots).contains_key(k),
{
    let n = slots.len() as int;
    let h = home(state, k, n);
    assert forall|j: int| 0 <= j < n implies !#[trigger] holds(slots[j], k) by {
        if holds(slots[j], k) {
            lemma_dist_probe(h, j, n);
            let dj = dist(h, j, n);
            assert(slot_key(slots[j]) == k);
            if dj < stop {
                let p = probe(h, dj, n);
                assert(slots[p] is Full && !holds(slots[p], k));
            } else {
                assert(stop < n);
                lemma_probe_dist(h, stop, n);
                let p = probe(h, stop, n);
                assert(slots[p] is Full);
            }
        }
    }
}

/// A slot that holds `k` gives the value the contents map `k` to.
proof fn lemma_present<K: Copy, V: Copy, S: HashState<K>>(
    slots: Seq<HashRefSlot<K, V>>,
    state: S,
    k: K,
    i: int,
)
    requires
        table_wf(slots, state),
        0 <= i < slots.len(),
        holds(slots[i], k),
    ensures
        contents(slots).contains_key(k),
        contents(slots)[k] == slot_value(slots[i]),
{
    let j = choose|j: int| 0 <= j < slots.len() && #[trigger] holds(slots[j], k);
    if j != i {
        assert(slots[i] is Full && slots[j] is Full);
    }
}

/// The keys of a source are those of the map it describes, which is finite.
pub proof fn lemma_source_keys<K, V>(data: Seq<(K, V)>)
    ensures
        source_map(data).dom().finite(),
        forall|i: int| 0 <= i < data.len() ==> source_map(data).contains_key(#[trigger] data[i].0),
        forall|k: K|
            #[trigger] source_map(data).contains_key(k) ==> exists|i: int|
                0 <= i < data.len() && data[i].0 == k,
    decreases data.len(),
{
    if data.len() > 0 {
        let d = data.drop_last();
        lemma_source_keys(d);
        assert forall|i: int| 0 <= i < data.len() implies source_map(data).contains_key(
            #[trigger] data[i].0,
        ) by {
            if i < data.len() - 1 {
                assert(d[i] == data[i]);
            }
        }
        assert forall|k: K| #[trigger] source_map(data).contains_key(k) implies exists|i: int|
            0 <= i < data.len() && data[i].0 == k by {
            if k != data.last().0 {
                let i = choose|i: int| 0 <= i < d.len() && d[i].0 == k;
                assert(data[i] == d[i]);
            }
        }
    }
}

/// With a key more than once in a source, the value of its last pair is the
/// one kept.
pub proof fn lemma_last_write_wins<K, V>(data: Seq<(K, V)>, k: K, j: int)
    requires
        0 <= j < data.len(),
        data[j].0 == k,
        forall|i: int| j < i < data.len() ==> (#[trigger] data[i]).0 != k,
    ensures
        source_map(data).contains_key(k),
        source_map(data)[k] == data[j].1,
    decreases data.len(),
{
    if j < data.len() - 1 {
        let d = data.drop_last();
        assert(data[data.len() - 1].0 != k);
        assert forall|i: int| j < i < d.len() implies (#[trigger] d[i]).0 != k by {
            assert(d[i] == data[i]);
        }
        lemma_last_write_wins(d, k, j);
    }
}

/// The pairs that a walk over a map yields, one per key, describe that map.
proof fn lemma_pairs_of_map<K, V>(m: Map<K, V>, v: Seq<(&K, &V)>, p: Seq<(K, V)>)
    requires
        v.no_duplicates(),
        forall|i: int| 0 <= i < v.len() ==> m.contains_key(*(#[trigger] v[i]).0) && m[*v[i].0] == *v[i].1,
        forall|k: K| #[trigger] m.contains_key(k) ==> v.contains((&k, &m[k])),
        p.len() == v.len(),
        forall|i: int| 0 <= i < p.len() ==> #[trigger] p[i] == (*v[i].0, *v[i].1),
    ensures
        source_map(p) == m,
{
    lemma_source_keys(p);
    assert forall|k: K| #[trigger] source_map(p).contains_key(k) <==> m.contains_key(k) by {
        if m.contains_key(k) {
            let i = choose|i: int| 0 <= i < v.len() && v[i] == (&k, &m[k]);
            assert(p[i].0 == k);
        }
        if source_map(p).contains_key(k) {
            let i = choose|i: int| 0 <= i < p.len() && p[i].0 == k;
            assert(m.contains_key(*v[i].0));
        }
    }
    assert forall|k: K| #[trigger] source_map(p).contains_key(k) implies source_map(p)[k] == m[k] by {
        let i = choose|i: int| 0 <= i < p.len() && p[i].0 == k;
        assert(m.contains_key(*v[i].0));
        assert forall|j: int| i < j < p.len() implies (#[trigger] p[j]).0 != k by {
            if p[j].0 == k {
                assert(m.contains_key(*v[j].0));
                assert(v[i] == v[j]);
            }
        }
        lemma_last_write_wins(p, k, i);
    }
    assert(source_map(p) =~= m);
}

/// Each pair of a source, in order, puts its key and value into the map.
proof fn lemma_source_step<K, V>(data: Seq<(K, V)>, j: int)
    requires
        0 <= j < data.len(),
    ensures
        source_map(data.take(j + 1)) == source_map(data.take(j)).insert(data[j].0, data[j].1),
        source_map(data.take(j)).dom().subset_of(source_map(data).dom()),
{
    assert(data.take(j + 1).drop_last() =~= data.take(j));
    lemma_source_keys(data.take(j));
    lemma_source_keys(data);
    assert forall|k: K| #[trigger] source_map(data.take(j)).contains_key(k) implies source_map(
        data,
    ).contains_key(k) by {
        let i = choose|i: int| 0 <= i < data.take(j).len() && data.take(j)[i].0 == k;
        assert(data[i].0 == k);
    }
}

/// Storing `k` with `v` in the slot where a search for `k` stopped keeps the
/// table well formed and puts `k` with `v` into its contents.
proof fn lemma_store<K: Copy, V: Copy, S: HashState<K>>(
    slots: Seq<HashRefSlot<K, V>>,
    state: S,
    k: K,
    v: V,
    i: int,
)
    requires
        table_wf(slots, state),
        0 <= i < slots.len(),
        slots[i] is Empty || holds(slots[i], k),
        forall|d: int|
            0 <= d < dist(home(state, k, slots.len() as int), i, slots.len() as int) ==> {
                let p = #[trigger] probe(home(state, k, slots.len() as int), d, slots.len() as int);
                slots[p] is Full && !holds(slots[p], k)
            },
    ensures
        table_wf(slots.update(i, HashRefSlot::Full(k, v)), state),
        contents(slots.update(i, HashRefSlot::Full(k, v))) == contents(slots).insert(k, v),
        slots[i] is Empty ==> !contents(slots).contains_key(k),
        holds(slots[i], k) ==> contents(slots).contains_key(k),
{
    let n = slots.len() as int;
    let h = home(state, k, n);
    let t = slots.update(i, HashRefSlot::Full(k, v));
    if slots[i] is Empty {
        lemma_dist_probe(h, i, n);
        lemma_absent(slots, state, k, dist(h, i, n));
        assert forall|j: int| 0 <= j < n implies !#[trigger] holds(slots[j], k) by {
            if holds(slots[j], k) {
                assert(contents(slots).contains_key(k));
            }
        }
    } else {
        lemma_present(slots, state, k, i);
    }
    assert forall|a: int, b: int|
        0 <= a < n && 0 <= b < n && a != b && (#[trigger] t[a]) is Full && (#[trigger] t[b]) is Full
            implies slot_key(t[a]) != slot_key(t[b]) by {
        if a != i && b != i {
            assert(slots[a] is Full && slots[b] is Full);
        } else {
            let o = if a == i {
                b
            } else {
                a
            };
            assert(t[o] == slots[o]);
            if slots[i] is Empty {
                assert(!holds(slots[o], k));
            } else {
                assert(slots[i] is Full && slots[o] is Full);
                assert(slot_key(slots[i]) == k);
            }
        }
    }
    assert forall|m: int, d: int|
        #![trigger t[m], probe(home(state, slot_key(t[m]), n), d, n)]
        0 <= m < n && t[m] is Full && 0 <= d < dist(home(state, slot_key(t[m]), n), m, n)
            implies t[probe(home(state, slot_key(t[m]), n), d, n)] is Full by {
        if m == i {
            lemma_probe_dist(h, d, n);
            let p = probe(h, d, n);
            assert(slots[p] is Full && !holds(slots[p], k));
        } else {
            let hm = home(state, slot_key(slots[m]), n);
            assert(slots[m] is Full);
            assert(slots[probe(hm, d, n)] is Full);
        }
    }
    assert forall|key: K| #[trigger] contents(t).contains_key(key) <==> contents(slots).insert(
        k,
        v,
    ).contains_key(key) by {
        if key == k {
            assert(holds(t[i], k));
        } else {
            if contents(t).contains_key(key) {
                let j = choose|j: int| 0 <= j < n && #[trigger] holds(t[j], key);
                assert(holds(slots[j], key));
            }
            if contents(slots).contains_key(key) {
                let j = choose|j: int| 0 <= j < n && #[trigger] holds(slots[j], key);
                assert(j != i);
                assert(holds(t[j], key));
            }
        }
    }
    assert(table_wf(t, state));
    assert forall|key: K| #[trigger] contents(t).contains_key(key) implies contents(t)[key] == contents(
        slots,
    ).insert(k, v)[key] by {
        if key == k {
            lemma_present(t, state, k, i);
        } else {
            let j = choose|j: int| 0 <= j < n && #[trigger] holds(t[j], key);
            assert(j != i);
            assert(holds(slots[j], key));
            lemma_present(t, state, key, j);
            lemma_present(slots, state, key, j);
        }
    }
    assert(contents(t) =~= contents(slots).insert(k, v));
}

/// A table whose slots are all full holds as many keys as it has slots.
proof fn lemma_full_table<K: Copy, V: Copy, S: HashState<K>>(
    slots: Seq<HashRefSlot<K, V>>,
    state: S,
)
    requires
        table_wf(slots, state),
        forall|j: int| 0 <= j < slots.len() ==> (#[trigger] slots[j]) is Full,
        contents(slots).dom().finite(),
    ensures
        contents(slots).dom().len() >= slots.len(),
{
    let n = slots.len() as int;
    let f = |j: int| slot_key(slots[j]);
    let r = set_int_range(0, n);
    lemma_int_range(0, n);
    let keys = r.map(f);
    assert forall|a: int, b: int| r.contains(a) && r.contains(b) && #[trigger] f(a) == #[trigger] f(b)
        implies a == b by {
        if a != b {
            assert(slots[a] is Full && slots[b] is Full);
        }
    }
    assert(vstd::relations::injective_on(f, r));
    lemma_map_size(r, keys, f);
    assert forall|key: K| keys.contains(key) implies contents(slots).dom().contains(key) by {
        let j = choose|j: int| r.contains(j) && f(j) == key;
        assert(holds(slots[j], key));
    }
    lemma_len_subset(keys, contents(slots).dom());
}

/// Bytes of an array of `capa` slots.
pub open spec fn slot_bytes<K: Copy, V: Copy>(capa: nat) -> nat {
    size_of::<HashRefSlot<K, V>>() * capa
}

/// An array of `capa` slots has a valid layout.
pub open spec fn slots_fit<K: Copy, V: Copy>(capa: nat) -> bool {
    size_fits(slot_bytes::<K, V>(capa), align_of::<HashRefSlot<K, V>>())
}

/// The allocator accepts the request for an array of `capa` slots, if one
/// is made: an empty array asks for nothing.
pub open spec fn slots_supported<K: Copy, V: Copy, A: Allocator>(m: A::Model, capa: nat) -> bool {
    slot_bytes::<K, V>(capa) > 0 ==> A::supports(
        m,
        slot_bytes::<K, V>(capa),
        align_of::<HashRefSlot<K, V>>(),
    )
}

/// The request for an array of `capa` slots is sure to be served.
pub open spec fn slots_served<K: Copy, V: Copy, A: Allocator>(m: A::Model, capa: nat) -> bool {
    slot_bytes::<K, V>(capa) > 0 ==> A::will_serve(
        m,
        slot_bytes::<K, V>(capa),
        align_of::<HashRefSlot<K, V>>(),
    )
}

/// The allocator went from `m` to `after` by serving the array of `capa`
/// slots, or was left alone when the array is empty. The array is never
/// released.
pub open spec fn slots_taken<K: Copy, V: Copy, A: Allocator>(
    m: A::Model,
    capa: nat,
    after: A::Model,
) -> bool {
    if slot_bytes::<K, V>(capa) > 0 {
        exists|b: MemoryBlock|
            #[trigger] A::allocates(m, slot_bytes::<K, V>(capa), align_of::<HashRefSlot<K, V>>(), b, after)
    } else {
        after == m
    }
}

/// A table built once over an array of slots and only read afterwards.
pub struct HashRef<'a, Key, Value, State = DetState> where Key: Eq + Copy + 'a, Value: Copy + 'a {
    pub slots: &'a [HashRefSlot<Key, Value>],
    pub size: usize,
    pub state: State,
}

impl<'a, K, V, State> HashRef<'a, K, V, State> where
    K: Eq + Copy + 'a,
    V: Copy + 'a,
    State: HashState<K>,
 {
    /// The slots are well formed for the table's hash and `size` counts the
    /// keys.
    pub open spec fn wf(&self) -> bool {
        &&& table_wf(self.slots@, self.state)
        &&& contents(self.slots@).dom().finite()
        &&& self.size == contents(self.slots@).dom().len()
    }

    /// The keys and values the table holds.
    pub open spec fn view(&self) -> Map<K, V> {
        contents(self.slots@)
    }

    /// Builds the table from the pairs of `data` in order, over `capa`
    /// slots taken from `frame`: each key goes to the first slot from its
    /// start slot on that is empty or already holds it, and a later value
    /// overrides an earlier one. The slot array is never released.
    pub fn with_state_iter<A: Allocator>(frame: &mut A, capa: usize, data: &[(K, V)], state: State) -> (r:
        Result<Self, AllocError>)
        requires
            (*old(frame)).inv(),
            obeys_concrete_eq::<K>(),
            source_map(data@).dom().len() <= capa,
            slots_fit::<K, V>(capa as nat),
            slots_supported::<K, V, A>((*old(frame)).model(), capa as nat),
        ensures
            (*final(frame)).inv(),
            r matches Ok(t) ==> {
                &&& t.wf()
                &&& t.view() == source_map(data@)
                &&& t.slots@.len() == capa
                &&& t.size == source_map(data@).dom().len()
                &&& t.state == state
            },
            slots_served::<K, V, A>((*old(frame)).model(), capa as nat) ==> r is Ok,
            r is Ok ==> slots_taken::<K, V, A>(
                (*old(frame)).model(),
                capa as nat,
                (*final(frame)).model(),
            ),
            r is Err ==> (*final(frame)).model() == (*old(frame)).model() && slot_bytes::<K, V>(
                capa as nat,
            ) > 0,
    {
        vstd::layout::layout_for_type_is_valid::<HashRefSlot<K, V>>();
        let slot_size = core::mem::size_of::<HashRefSlot<K, V>>();
        proof {
            let m = isize::MAX as int;
            let a = align_of::<HashRefSlot<K, V>>() as int;
            assert(m % a >= 0) by (nonlinear_arith)
                requires
                    a > 0,
            ;
        }
        let bytes = slot_size * capa;
        let layout = match Layout::from_size_align(bytes, core::mem::align_of::<HashRefSlot<K, V>>()) {
            Ok(l) => l,
            Err(_) => return vstd::pervasive::unreached(),
        };
        if bytes > 0 {
            match frame.allocate(layout) {
                Ok(_) => {},
                Err(e) => return Err(e),
            }
        }
        let mut slots_array: Vec<HashRefSlot<K, V>> = Vec::new();
        let mut k: usize = 0;
        while k < capa
            invariant
                k <= capa,
                slots_array@ == Seq::new(k as nat, |q: int| HashRefSlot::<K, V>::Empty),
            decreases capa - k,
        {
            slots_array.push(HashRefSlot::Empty);
            k = k + 1;
            assert(slots_array@ =~= Seq::new(k as nat, |q: int| HashRefSlot::<K, V>::Empty));
        }
        let ghost all = source_map(data@);
        let ghost frame_model = (*frame).model();
        proof {
            lemma_source_keys(data@);
            assert(slots_array@ =~= Seq::new(capa as nat, |k: int| HashRefSlot::<K, V>::Empty));
            assert(contents(slots_array@) =~= Map::<K, V>::empty());
            assert(data@.take(0) =~= Seq::<(K, V)>::empty());
        }
        let mut size: usize = 0;
        let mut j: usize = 0;
        while j < data.len()
            invariant
                j <= data@.len(),
                (*frame).inv(),
                (*frame).model() == frame_model,
                slots_array@.len() == capa,
                obeys_concrete_eq::<K>(),
                all == source_map(data@),
                all.dom().finite(),
                all.dom().len() <= capa,
                forall|i: int| 0 <= i < data@.len() ==> all.contains_key(#[trigger] data@[i].0),
                table_wf(slots_array@, state),
                contents(slots_array@) == source_map(data@.take(j as int)),
                contents(slots_array@).dom().finite(),
                size == contents(slots_array@).dom().len(),
            decreases data@.len() - j,
        {
            let (key, value) = data[j];
            proof {
                lemma_source_step(data@, j as int);
                lemma_len_subset(source_map(data@.take(j as int)).dom().insert(key), all.dom());
                assert(all.contains_key(data@[j as int].0));
            }
            let h = (state.hash_key(&key) % (capa as u64)) as usize;
            match probe_for(slots_array.as_slice(), h, &key) {
                Some(i) => {
                    let was_empty = matches!(slots_array.as_slice()[i], HashRefSlot::Empty);
                    let ghost before = slots_array@;
                    proof {
                        lemma_store(before, state, key, value, i as int);
                    }
                    slots_array.set(i, HashRefSlot::Full(key, value));
                    assert(slots_array@ == before.update(i as int, HashRefSlot::Full(key, value)));
                    if was_empty {
                        size = size + 1;
                    } else {
                        assert(contents(before).insert(key, value).dom() =~= contents(before).dom());
                    }
                },
                None => {
                    proof {
                        let n = capa as int;
                        assert forall|q: int| 0 <= q < n implies (#[trigger] slots_array@[q]) is Full by {
                            lemma_dist_probe(h as int, q, n);
                            let p = probe(h as int, dist(h as int, q, n), n);
                            assert(slots_array@[p] is Full);
                        }
                        lemma_absent(slots_array@, state, key, n);
                        lemma_full_table(slots_array@, state);
                    }
                    return vstd::pervasive::unreached();
                },
            }
            j = j + 1;
        }
        proof {
            assert(data@.take(data@.len() as int) =~= data@);
        }
        let slots = leak_vec(slots_array);
        Ok(HashRef { slots, size, state })
    }

    /// Builds the table from the pairs of a map, over half as many slots
    /// again as it has keys, taken from `frame`.
    pub fn with_state<A: Allocator>(frame: &mut A, data: &HashMap<K, V>, state: State) -> (r: Result<
        Self,
        AllocError,
    >)
        requires
            (*old(frame)).inv(),
            obeys_concrete_eq::<K>(),
            obeys_key_model::<K>(),
            data@.dom().len() <= isize::MAX,
            slots_fit::<K, V>((data@.dom().len() + data@.dom().len() / 2) as nat),
            slots_supported::<K, V, A>((*old(frame)).model(), (data@.dom().len() + data@.dom().len() / 2) as nat),
        ensures
            (*final(frame)).inv(),
            r matches Ok(t) ==> {
                &&& t.wf()
                &&& t.view() == data@
                &&& t.slots@.len() == data@.dom().len() + data@.dom().len() / 2
                &&& t.size == data@.dom().len()
                &&& t.state == state
            },
            slots_served::<K, V, A>((*old(frame)).model(), (data@.dom().len() + data@.dom().len() / 2) as nat) ==> r is Ok,
            r is Ok ==> slots_taken::<K, V, A>((*old(frame)).model(), (data@.dom().len() + data@.dom().len() / 2) as nat, (*final(frame)).model()),
            r is Err ==> (*final(frame)).model() == (*old(frame)).model(),
    {
        broadcast use vstd::std_specs::hash::group_hash_axioms;

        let len = data.len();
        let capa = len + len / 2;
        let ghost walk = spec_hash_map_iter(data).remaining();
        let mut pairs: Vec<(K, V)> = Vec::new();
        for p in it: data.iter()
            invariant
                it.seq() == walk,
                pairs@.len() == it.index(),
                forall|i: int| 0 <= i < it.index() ==> #[trigger] pairs@[i] == (*walk[i].0, *walk[i].1),
        {
            pairs.push((*p.0, *p.1));
        }
        proof {
            lemma_pairs_of_map(data@, walk, pairs@);
        }
        Self::with_state_iter(frame, capa, pairs.as_slice(), state)
    }

    /// The number of keys.
    #[inline]
    pub fn len(&self) -> (r: usize)
        ensures
            r == self.size,
    {
        self.size
    }

    /// The number of slots.
    #[inline]
    pub fn capacity(&self) -> (r: usize)
        ensures
            r == self.slots@.len(),
    {
        self.slots.len()
    }

    /// The slot that holds `key`, if any.
    fn get_index(&self, key: &K) -> (r: Option<usize>)
        requires
            table_wf(self.slots@, self.state),
            obeys_concrete_eq::<K>(),
        ensures
            r matches Some(i) ==> i < self.slots@.len() && holds(self.slots@[i as int], *key),
            r is None ==> !contents(self.slots@).contains_key(*key),
    {
        let n = self.slots.len();
        if n == 0 {
            return None;
        }
        let h = (self.state.hash_key(key) % (n as u64)) as usize;
        match probe_for(self.slots, h, key) {
            Some(i) => {
                if matches!(self.slots[i], HashRefSlot::Empty) {
                    proof {
                        let d = dist(h as int, i as int, n as int);
                        lemma_dist_probe(h as int, i as int, n as int);
                        lemma_absent(self.slots@, self.state, *key, d);
                    }
                    None
                } else {
                    Some(i)
                }
            },
            None => {
                proof {
                    lemma_absent(self.slots@, self.state, *key, n as int);
                }
                None
            },
        }
    }

    /// The value stored under `key`, or `None` when the table does not hold it.
    pub fn get(&self, key: &K) -> (r: Option<&V>)
        requires
            table_wf(self.slots@, self.state),
            obeys_concrete_eq::<K>(),
        ensures
            r is Some <==> self.view().contains_key(*key),
            r matches Some(v) ==> *v == self.view()[*key],
    {
        match self.get_index(key) {
            Some(i) => {
                proof {
                    lemma_present(self.slots@, self.state, *key, i as int);
                }
                match &self.slots[i] {
                    HashRefSlot::Full(_, v) => Some(v),
                    HashRefSlot::Empty => None,
                }
            },
            None => None,
        }
    }
}

impl<'a, K, V> HashRef<'a, K, V, DetState> where
    K: Eq + Copy + 'a,
    V: Copy + 'a,
    DetState: HashState<K>,
 {
    /// Builds the table from a map with the fixed hash; see
    /// [`HashRef::with_state`].
    pub fn new<A: Allocator>(frame: &mut A, data: &HashMap<K, V>) -> (r: Result<Self, AllocError>)
        requires
            (*old(frame)).inv(),
            obeys_concrete_eq::<K>(),
            obeys_key_model::<K>(),
            data@.dom().len() <= isize::MAX,
            slots_fit::<K, V>((data@.dom().len() + data@.dom().len() / 2) as nat),
            slots_supported::<K, V, A>((*old(frame)).model(), (data@.dom().len() + data@.dom().len() / 2) as nat),
        ensures
            (*final(frame)).inv(),
            r matches Ok(t) ==> {
                &&& t.wf()
                &&& t.view() == data@
                &&& t.slots@.len() == data@.dom().len() + data@.dom().len() / 2
                &&& t.size == data@.dom().len()
            },
            slots_served::<K, V, A>((*old(frame)).model(), (data@.dom().len() + data@.dom().len() / 2) as nat) ==> r is Ok,
            r is Ok ==> slots_taken::<K, V, A>((*old(frame)).model(), (data@.dom().len() + data@.dom().len() / 2) as nat, (*final(frame)).model()),
            r is Err ==> (*final(frame)).model() == (*old(frame)).model(),
    {
        Self::with_state(frame, data, DetState)
    }

    /// Builds the table with the fixed hash; see [`HashRef::with_state_iter`].
    pub fn new_iter<A: Allocator>(frame: &mut A, capa: usize, data: &[(K, V)]) -> (r: Result<
        Self,
        AllocError,
    >)
        requires
            (*old(frame)).inv(),
            obeys_concrete_eq::<K>(),
            source_map(data@).dom().len() <= capa,
            slots_fit::<K, V>(capa as nat),
            slots_supported::<K, V, A>((*old(frame)).model(), capa as nat),
        ensures
            (*final(frame)).inv(),
            r matches Ok(t) ==> {
                &&& t.wf()
                &&& t.view() == source_map(data@)
                &&& t.slots@.len() == capa
                &&& t.size == source_map(data@).dom().len()
            },
            slots_served::<K, V, A>((*old(frame)).model(), capa as nat) ==> r is Ok,
            r is Ok ==> slots_taken::<K, V, A>((*old(frame)).model(), capa as nat, (*final(frame)).model()),
            r is Err ==> (*final(frame)).model() == (*old(frame)).model(),
    {
        Self::with_state_iter(frame, capa, data, DetState)
    }

    /// A table with no slot and no key.
    pub fn empty() -> (r: Self)
        ensures
            r.wf(),
            r.view() == Map::<K, V>::empty(),
            r.slots@.len() == 0,
    {
        let slots = leak_vec(Vec::new());
        let r = HashRef { slots, size: 0, state: DetState };
        assert(contents(r.slots@) =~= Map::<K, V>::empty());
        r
    }
}

impl<'a, K, V, State> HashRef<'a, K, V, State> where
    K: Eq + Copy + 'a,
    V: Copy + 'a,
 {
    /// Walks the occupied slots in slot order.
    pub fn iter(&self) -> (r: HashRefIter<'a, K, V>)
        ensures
            r.slots == self.slots,
            r.slot_idx == 0,
    {
        HashRefIter { slots: self.slots, slot_idx: 0 }
    }
}

/// A walk over the occupied slots of a table, in slot order; the order comes
/// from where hashing put the keys, not from the source.
pub struct HashRefIter<'a, Key, Value> where Key: Copy, Value: Copy {
    pub slots: &'a [HashRefSlot<Key, Value>],
    pub slot_idx: usize,
}

impl<'a, Key: Copy, Value: Copy> HashRefIter<'a, Key, Value> {
    /// The key and value of the next occupied slot, if any is left.
    pub fn next(&mut self) -> (r: Option<(&'a Key, &'a Value)>)
        requires
            old(self).slot_idx <= old(self).slots@.len(),
        ensures
            final(self).slots == old(self).slots,
            final(self).slot_idx <= final(self).slots@.len(),
            forall|q: int|
                old(self).slot_idx <= q < final(self).slot_idx - (if r is Some {
                    1int
                } else {
                    0int
                }) ==> (#[trigger] old(self).slots@[q]) is Empty,
            r is None ==> final(self).slot_idx == old(self).slots@.len(),
            r matches Some(p) ==> final(self).slot_idx > old(self).slot_idx
                && old(self).slots@[final(self).slot_idx - 1] == HashRefSlot::Full(*p.0, *p.1),
    {
        let slots = self.slots;
        let start = self.slot_idx;
        while self.slot_idx < slots.len()
            invariant
                self.slots == slots,
                slots == old(self).slots,
                start == old(self).slot_idx,
                start <= self.slot_idx <= slots@.len(),
                forall|q: int| start <= q < self.slot_idx ==> (#[trigger] slots@[q]) is Empty,
            decreases slots@.len() - self.slot_idx,
        {
            let i = self.slot_idx;
            self.slot_idx = i + 1;
            match &slots[i] {
                HashRefSlot::Full(key, value) => {
                    return Some((key, value));
                },
                HashRefSlot::Empty => {},
            }
        }
        None
    }
}

} // verus!
