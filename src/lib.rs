//! Memory-management primitives: an allocation interface, a bump arena with
//! scoped rollback, a growable buffer of plain data over any allocator, and a
//! read-only open-addressing table built once over allocator memory.

mod alloc_api;
mod arena_model;
mod basic;
mod bump;
mod global_bulk;
mod hashref;
mod pod;

pub use alloc_api::{
    fits_layout, size_fits, AllocError, AllocExt, AllocStat, Allocator, Global, Layout,
    LayoutError, MemoryBlock,
};
pub use basic::{const_cond, const_max, expect, r, unwrap, CopyRange, SliceIndex};
pub use arena_model::{
    bucket_size_for, capacity_since, fresh, grows, lemma_accounting, lemma_overflow,
    lemma_mark_scope_ok, lemma_rollback, lemma_served_wf, lemma_step_scope_ok, lemma_sum_capacity_le_end, lemma_sum_used_le_capacity,
    round_up8, scope_ok, serve_all, sum_capacity, sum_used, total_size, used_since, ArenaState,
    BucketState, MarkState, DEFAULT_BUCKET_SIZE, MAX_ALIGN,
};
pub use bump::{BucketList, BucketListMark, ScopedBump};
pub use global_bulk::{delete_file_static, read_file_static};
pub use hashref::{
    contents, dist, holds, home, key_digest, le_bytes, lemma_last_write_wins, lemma_source_keys,
    probe, slot_bytes, slot_key, slot_value, slots_fit, slots_served, slots_supported, slots_taken,
    source_map, table_wf, DetState, HashRef, HashRefIter,
    HashRefSlot, HashState,
};
pub use pod::{
    capacity_for, elems_fit, grown_capacity, lemma_growth, lemma_insert_remove, lemma_splice_forms, pod_align,
    resize_served, resize_supported, resized,
    Pod, PodIter,
};
