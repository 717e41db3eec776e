//! Caches of quantized nodes, which drop what was used longest ago.
use crate::hnswsq::types;
use crate::hnswsq::types::pack_tid;
use crate::rabitq::node::RabitqNodeData;
use crate::rabitq::quantize::RabitqCode;
use crate::util::item_pointer::IndexPointer;
use crate::util::lru;
use crate::util::lru::{LruCache, LruItem};
use vstd::prelude::*;

verus! {

/// Bytes of an item pointer in the memory of a 64-bit machine.
const ITEM_POINTER_SIZE: usize = 8;

/// Bytes of the header of a vector in the memory of a 64-bit machine.
const VEC_SIZE: usize = 24;

/// The number of entries that a cache holds: as many as its memory takes, but
/// not below a minimum.
pub open spec fn capacity_of(memory_budget: int, entry_size: int, min_capacity: int) -> int {
    if memory_budget / entry_size > min_capacity {
        memory_budget / entry_size
    } else {
        min_capacity
    }
}

fn capacity(memory_budget: usize, entry_size: usize, min_capacity: usize) -> (c: usize)
    requires
        entry_size > 0,
    ensures
        c == capacity_of(memory_budget as int, entry_size as int, min_capacity as int),
{
    let fitting: usize = memory_budget / entry_size;
    if fitting > min_capacity {
        fitting
    } else {
        min_capacity
    }
}

/// The key of a node.
pub open spec fn key_of(p: IndexPointer) -> u64 {
    types::tid_key(p) as u64
}

/// Cache of the sign codes of nodes.
pub struct RabitqCodeCache {
    pub cache: LruCache<RabitqCode>,
}

/// Whether `after` holds the code of a node: where `before` has none, it is what
/// `read` gave, taken in as the latest.
pub open spec fn is_taken_in<R: Fn(IndexPointer) -> RabitqCode>(
    read: R,
    before: Seq<LruItem<RabitqCode>>,
    capacity: usize,
    p: IndexPointer,
    after: Seq<LruItem<RabitqCode>>,
) -> bool {
    if lru::has_key(before, key_of(p)) {
        after == before
    } else {
        exists|code: RabitqCode| #[trigger]
            call_ensures(read, (p,), code) && after == lru::pushed(
                before,
                capacity,
                LruItem { key: key_of(p), value: code },
            )
    }
}

/// Whether the codes of the first `k` nodes were taken in, one after the other.
pub open spec fn are_taken_in<R: Fn(IndexPointer) -> RabitqCode>(
    read: R,
    before: Seq<LruItem<RabitqCode>>,
    capacity: usize,
    pointers: Seq<IndexPointer>,
    k: int,
    after: Seq<LruItem<RabitqCode>>,
) -> bool
    decreases k,
{
    if k <= 0 {
        after == before
    } else {
        exists|mid: Seq<LruItem<RabitqCode>>| #[trigger]
            is_taken_in(read, mid, capacity, pointers[k - 1], after) && are_taken_in(
                read,
                before,
                capacity,
                pointers,
                k - 1,
                mid,
            )
    }
}

/// Whether the code of a node was handed out, and became the latest item.
pub open spec fn is_handed_out(
    before: Seq<LruItem<RabitqCode>>,
    key: u64,
    code: RabitqCode,
    after: Seq<LruItem<RabitqCode>>,
) -> bool {
    exists|i: int|
        #![trigger lru::used(before, i)]
        0 <= i < before.len() && before[i].key == key && code == before[i].value && after
            == lru::used(before, i)
}

/// Bytes of an entry with `rabitq_vec_len` words of sign bits and as many bytes
/// of error-correction codes.
pub open spec fn code_entry_size(rabitq_vec_len: int) -> int {
    72 + 16 * rabitq_vec_len
}

impl RabitqCodeCache {
    /// A cache for `memory_budget` bytes.
    pub fn new(memory_budget: usize, rabitq_vec_len: usize, min_capacity: usize) -> (c:
        RabitqCodeCache)
        requires
            code_entry_size(rabitq_vec_len as int) <= usize::MAX,
            capacity_of(
                memory_budget as int,
                code_entry_size(rabitq_vec_len as int),
                min_capacity as int,
            ) > 0,
        ensures
            c.cache.wf(),
            c.cache.items@ == Seq::<LruItem<RabitqCode>>::empty(),
            c.cache.capacity == capacity_of(
                memory_budget as int,
                code_entry_size(rabitq_vec_len as int),
                min_capacity as int,
            ),
    {
        RabitqCodeCache {
            cache: LruCache::new(
                capacity(memory_budget, Self::entry_size(rabitq_vec_len), min_capacity),
            ),
        }
    }

    /// Take in the code of a node, which `read` gives where it is missing.
    fn take_in<R: Fn(IndexPointer) -> RabitqCode>(
        &mut self,
        index_pointer: IndexPointer,
        read: &R,
    )
        requires
            old(self).cache.wf(),
            call_requires(*read, (index_pointer,)),
        ensures
            final(self).cache.wf(),
            final(self).cache.capacity == old(self).cache.capacity,
            lru::has_key(final(self).cache.items@, key_of(index_pointer)),
            is_taken_in(
                *read,
                old(self).cache.items@,
                old(self).cache.capacity,
                index_pointer,
                final(self).cache.items@,
            ),
    {
        let key: u64 = pack_tid(index_pointer);
        if !self.cache.contains(key) {
            let code: RabitqCode = read(index_pointer);
            self.cache.push(key, code);
        }
    }

    /// The code of a node, which `read` gives where it is missing; it becomes the
    /// latest item.
    pub fn get<R: Fn(IndexPointer) -> RabitqCode>(
        &mut self,
        index_pointer: IndexPointer,
        read: &R,
    ) -> (code: &RabitqCode)
        requires
            old(self).cache.wf(),
            call_requires(*read, (index_pointer,)),
        ensures
            final(self).cache.wf(),
            final(self).cache.capacity == old(self).cache.capacity,
            exists|mid: Seq<LruItem<RabitqCode>>| #[trigger]
                is_taken_in(
                    *read,
                    old(self).cache.items@,
                    old(self).cache.capacity,
                    index_pointer,
                    mid,
                ) && is_handed_out(
                    mid,
                    key_of(index_pointer),
                    *code,
                    final(self).cache.items@,
                ),
    {
        self.take_in(index_pointer, read);
        self.cache.get(pack_tid(index_pointer))
    }

    /// Take in the codes of nodes, which `read` gives where they are missing.
    pub fn preload<R: Fn(IndexPointer) -> RabitqCode>(
        &mut self,
        index_pointers: &Vec<IndexPointer>,
        read: &R,
    )
        requires
            old(self).cache.wf(),
            forall|i: int|
                #![trigger index_pointers@[i]]
                0 <= i < index_pointers@.len() ==> call_requires(*read, (index_pointers@[i],)),
        ensures
            final(self).cache.wf(),
            final(self).cache.capacity == old(self).cache.capacity,
            are_taken_in(
                *read,
                old(self).cache.items@,
                old(self).cache.capacity,
                index_pointers@,
                index_pointers@.len() as int,
                final(self).cache.items@,
            ),
    {
        let mut i: usize = 0;
        while i < index_pointers.len()
            invariant
                i <= index_pointers@.len(),
                self.cache.wf(),
                self.cache.capacity == old(self).cache.capacity,
                forall|j: int|
                    #![trigger index_pointers@[j]]
                    0 <= j < index_pointers@.len() ==> call_requires(*read, (index_pointers@[j],)),
                are_taken_in(
                    *read,
                    old(self).cache.items@,
                    old(self).cache.capacity,
                    index_pointers@,
                    i as int,
                    self.cache.items@,
                ),
            decreases index_pointers@.len() - i,
        {
            let ghost mid = self.cache.items@;
            self.take_in(index_pointers[i], read);
            i = i + 1;
            assert(is_taken_in(
                *read,
                mid,
                old(self).cache.capacity,
                index_pointers@[i as int - 1],
                self.cache.items@,
            ));
        }
    }

    /// Estimate of the size of an entry in bytes.
    pub fn entry_size(rabitq_vec_len: usize) -> (n: usize)
        requires
            code_entry_size(rabitq_vec_len as int) <= usize::MAX,
        ensures
            n == code_entry_size(rabitq_vec_len as int),
    {
        ITEM_POINTER_SIZE + VEC_SIZE + VEC_SIZE + 16 + 8 * rabitq_vec_len + 8 * rabitq_vec_len
    }
}

/// The quantized payload of a node, as it is cached.
#[derive(Clone)]
pub struct RabitqCacheEntry {
    pub code: Vec<u8>,
    pub l1_of_rotated: u32,
    pub sum_of_x2: u32,
    pub cent_dot: u32,
}

impl RabitqCacheEntry {
    /// The entry holds the payload of a node.
    pub open spec fn holds(self, data: RabitqNodeData<'_>) -> bool {
        &&& self.code@ == data.code@
        &&& self.l1_of_rotated == data.l1_of_rotated
        &&& self.sum_of_x2 == data.sum_of_x2
        &&& self.cent_dot == data.cent_dot
    }

    /// A copy of the payload of a node.
    pub fn of(data: RabitqNodeData<'_>) -> (e: RabitqCacheEntry)
        ensures
            e.holds(data),
    {
        let code: Vec<u8> = data.code.clone();
        assert(code@ =~= data.code@);
        RabitqCacheEntry {
            code,
            l1_of_rotated: data.l1_of_rotated,
            sum_of_x2: data.sum_of_x2,
            cent_dot: data.cent_dot,
        }
    }
}

/// Cache of quantized node payloads.
pub struct RabitqVectorCache {
    pub cache: LruCache<RabitqCacheEntry>,
}

/// Bytes of an entry with a code of `code_len` bytes.
pub open spec fn vector_entry_size(code_len: int) -> int {
    44 + code_len
}

impl RabitqVectorCache {
    /// The node is in the cache.
    pub open spec fn caches(self, p: IndexPointer) -> bool {
        lru::has_key(self.cache.items@, key_of(p))
    }

    /// An empty cache for `memory_budget` bytes.
    pub fn new(memory_budget: usize, code_len: usize, min_capacity: usize) -> (c: RabitqVectorCache)
        requires
            vector_entry_size(code_len as int) <= usize::MAX,
            capacity_of(
                memory_budget as int,
                vector_entry_size(code_len as int),
                min_capacity as int,
            ) > 0,
        ensures
            c.cache.wf(),
            c.cache.items@ == Seq::<LruItem<RabitqCacheEntry>>::empty(),
            c.cache.capacity == capacity_of(
                memory_budget as int,
                vector_entry_size(code_len as int),
                min_capacity as int,
            ),
    {
        let entry_size: usize = ITEM_POINTER_SIZE + VEC_SIZE + code_len + 12;
        RabitqVectorCache {
            cache: LruCache::new(capacity(memory_budget, entry_size, min_capacity)),
        }
    }

    /// Whether the node has to be read before its payload can be got.
    pub fn is_missing(&self, index_pointer: IndexPointer) -> (r: bool)
        ensures
            r == !self.caches(index_pointer),
    {
        !self.cache.contains(pack_tid(index_pointer))
    }

    /// Take in the payload of a node that was read, as the latest item.  A full
    /// cache drops the item that was used longest ago.  A node that is in the
    /// cache already is left as it is.
    pub fn preload(&mut self, index_pointer: IndexPointer, data: RabitqNodeData<'_>)
        requires
            old(self).cache.wf(),
        ensures
            final(self).cache.wf(),
            final(self).cache.capacity == old(self).cache.capacity,
            final(self).caches(index_pointer),
            old(self).caches(index_pointer) ==> final(self).cache.items@ == old(self).cache.items@,
            !old(self).caches(index_pointer) ==> exists|entry: RabitqCacheEntry| #[trigger]
                entry.holds(data) && final(self).cache.items@ == lru::pushed(
                    old(self).cache.items@,
                    old(self).cache.capacity,
                    LruItem { key: key_of(index_pointer), value: entry },
                ),
    {
        let key: u64 = pack_tid(index_pointer);
        if !self.cache.contains(key) {
            self.cache.push(key, RabitqCacheEntry::of(data));
        }
    }

    /// The payload of a node in the cache, which becomes the latest item.
    pub fn get(&mut self, index_pointer: IndexPointer) -> (entry: &RabitqCacheEntry)
        requires
            old(self).cache.wf(),
            old(self).caches(index_pointer),
        ensures
            final(self).cache.wf(),
            final(self).cache.capacity == old(self).cache.capacity,
            exists|i: int|
                #![trigger lru::used(old(self).cache.items@, i)]
                0 <= i < old(self).cache.items@.len() && old(self).cache.items@[i].key == key_of(
                    index_pointer,
                ) && *entry == old(self).cache.items@[i].value && final(self).cache.items@
                    == lru::used(old(self).cache.items@, i),
    {
        self.cache.get(pack_tid(index_pointer))
    }
}

} // verus!
