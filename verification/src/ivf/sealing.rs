//! Byte streams over runs of pages: one item per page, each as large as the
//! page can hold.
use crate::ivf::entry;
use crate::ivf::entry::{IvfEntry, IvfEntrySlice};
use crate::ivf::segment::IvfSegment;
use crate::util::bytes;
use crate::util::item_pointer;
use crate::util::math;
use vstd::prelude::*;

verus! {

/// The items, one after the other.
pub open spec fn joined(items: Seq<Vec<u8>>) -> Seq<u8>
    decreases items.len(),
{
    if items.len() == 0 {
        Seq::empty()
    } else {
        joined(items.drop_last()) + items.last()@
    }
}

/// Whether `items` are the items of a run of pages that holds `stream`: all
/// pages but the last are full.
pub open spec fn is_run(stream: Seq<u8>, capacity: int, items: Seq<Vec<u8>>) -> bool {
    &&& joined(items) == stream
    &&& items.len() == math::groups_of(stream.len() as int, capacity)
    &&& forall|i: int|
        #![trigger items[i]]
        0 <= i < items.len() ==> 0 < items[i]@.len() <= capacity
    &&& forall|i: int|
        #![trigger items[i]]
        0 <= i < items.len() - 1 ==> items[i]@.len() == capacity
}

proof fn lemma_joined_push(items: Seq<Vec<u8>>, item: Vec<u8>)
    ensures
        joined(items.push(item)) == joined(items) + item@,
{
    assert(items.push(item).drop_last() =~= items);
}

/// Cut a stream into the items of a run of pages.
pub fn split_run(stream: &[u8], capacity: usize) -> (items: Vec<Vec<u8>>)
    requires
        capacity > 0,
    ensures
        is_run(stream@, capacity as int, items@),
{
    let mut items: Vec<Vec<u8>> = Vec::new();
    let mut at: usize = 0;
    let n: usize = stream.len();
    proof {
        assert(stream@.take(0) =~= Seq::empty());
        math::lemma_groups_of(n as int, capacity as int);
        assert(0 * (capacity as int) == 0);
    }
    while at < n
        invariant
            capacity > 0,
            at <= n,
            n == stream.len(),
            joined(items@) == stream@.take(at as int),
            at < n ==> at == items@.len() * capacity,
            at == n ==> items@.len() == math::groups_of(n as int, capacity as int),
            forall|i: int|
                #![trigger items@[i]]
                0 <= i < items@.len() ==> 0 < items@[i]@.len() <= capacity,
            forall|i: int|
                #![trigger items@[i]]
                0 <= i < items@.len() - 1 ==> items@[i]@.len() == capacity,
            at < n && items@.len() > 0 ==> items@.last()@.len() == capacity,
        decreases n - at,
    {
        let len: usize = if n - at < capacity {
            n - at
        } else {
            capacity
        };
        let item: Vec<u8> = vstd::slice::slice_to_vec(
            vstd::slice::slice_subrange(stream, at, at + len),
        );
        let ghost before = items@;
        proof {
            lemma_joined_push(before, item);
            assert(stream@.take(at + len) =~= stream@.take(at as int) + item@);
            let k = before.len() as int;
            assert((k + 1) * capacity == k * capacity + capacity) by (nonlinear_arith);
            if at + len == n {
                math::lemma_groups_of(n as int, capacity as int);
                let g = math::groups_of(n as int, capacity as int);
                assert(g == k + 1) by (nonlinear_arith)
                    requires
                        g * capacity >= n,
                        (g - 1) * capacity < n,
                        k * capacity < n,
                        n <= (k + 1) * capacity,
                        capacity > 0,
                ;
            }
        }
        items.push(item);
        at = at + len;
    }
    assert(stream@.take(n as int) =~= stream@);
    items
}

/// Put the items of a run of pages together again.
pub fn join_run(items: &Vec<Vec<u8>>) -> (stream: Vec<u8>)
    ensures
        stream@ == joined(items@),
{
    let mut stream: Vec<u8> = Vec::new();
    let mut i: usize = 0;
    assert(items@.take(0) =~= Seq::empty());
    while i < items.len()
        invariant
            i <= items.len(),
            stream@ == joined(items@.take(i as int)),
        decreases items.len() - i,
    {
        bytes::push_all(&mut stream, items[i].as_slice());
        assert(items@.take(i + 1).drop_last() =~= items@.take(i as int));
        i = i + 1;
    }
    assert(items@.take(items@.len() as int) =~= items@);
    stream
}

/// The most blocks that one vectored read may ask for.
pub const MAX_READ_BURST: u32 = 1024;

/// One vectored read: the first block, counted from the start of the run, and
/// how many blocks.
#[derive(Clone, Copy, Debug, PartialEq, Eq, Structural)]
pub struct ReadBurst {
    pub first: u32,
    pub count: u32,
}

/// The reads that cover a run of `num_blocks` blocks, in order and without a
/// gap: all but the last as large as they may be.
pub open spec fn are_bursts(num_blocks: int, max: int, bursts: Seq<ReadBurst>) -> bool {
    &&& bursts.len() == math::groups_of(num_blocks, max)
    &&& forall|i: int|
        #![trigger bursts[i]]
        0 <= i < bursts.len() ==> {
            &&& bursts[i].first == i * max
            &&& bursts[i].count == if i * max + max <= num_blocks {
                max
            } else {
                num_blocks - i * max
            }
        }
}

/// Plan the reads of a run of `num_blocks` blocks.
pub fn plan_reads(num_blocks: u32, max: u32) -> (bursts: Vec<ReadBurst>)
    requires
        max > 0,
    ensures
        are_bursts(num_blocks as int, max as int, bursts@),
{
    let mut bursts: Vec<ReadBurst> = Vec::new();
    let mut first: u32 = 0;
    proof {
        math::lemma_groups_of(num_blocks as int, max as int);
        assert(0 * (max as int) == 0);
    }
    while first < num_blocks
        invariant
            max > 0,
            first <= num_blocks,
            first < num_blocks ==> first == bursts@.len() * max,
            first == num_blocks ==> bursts@.len() == math::groups_of(
                num_blocks as int,
                max as int,
            ),
            forall|i: int|
                #![trigger bursts@[i]]
                0 <= i < bursts@.len() ==> {
                    &&& bursts@[i].first == i * max
                    &&& bursts@[i].count == if i * max + max <= num_blocks {
                        max as int
                    } else {
                        num_blocks - i * max
                    }
                },
        decreases num_blocks - first,
    {
        let count: u32 = if num_blocks - first < max {
            num_blocks - first
        } else {
            max
        };
        proof {
            let k = bursts@.len() as int;
            assert((k + 1) * max == k * max + max) by (nonlinear_arith);
            if first + count == num_blocks {
                math::lemma_groups_of(num_blocks as int, max as int);
                let g = math::groups_of(num_blocks as int, max as int);
                assert(g == k + 1) by (nonlinear_arith)
                    requires
                        g * max >= num_blocks,
                        (g - 1) * max < num_blocks,
                        k * max < num_blocks,
                        num_blocks <= (k + 1) * max,
                        max > 0,
                ;
            }
        }
        bursts.push(ReadBurst { first, count });
        first = first + count;
    }
    bursts
}

/// Collects the entries of one inverted list and seals them into the items of a
/// run of pages.
#[derive(Debug)]
pub struct IvfEntryWriter {
    pub list_id: u16,
    pub entries: Vec<IvfEntry>,
}

impl IvfEntryWriter {
    /// Create a new entry writer for the given list.
    pub fn new(list_id: u16) -> (w: IvfEntryWriter)
        ensures
            w.list_id == list_id,
            w.entries@.len() == 0,
    {
        IvfEntryWriter { list_id, entries: Vec::new() }
    }

    /// Add an entry to this list.
    pub fn add_entry(&mut self, entry: IvfEntry)
        ensures
            final(self).list_id == old(self).list_id,
            final(self).entries@ == old(self).entries@.push(entry),
    {
        self.entries.push(entry);
    }

    /// The items of the run of pages that holds the entries; none where there
    /// are no entries.
    pub fn finish(&self, scales: &[u32], margin_factors: &[u32], capacity: usize) -> (items: Vec<
        Vec<u8>,
    >)
        requires
            capacity > 0,
            entry::can_serialize(self.entries@),
            scales.len() == self.entries@.len(),
            margin_factors.len() == self.entries@.len(),
        ensures
            self.entries@.len() == 0 ==> items@.len() == 0,
            self.entries@.len() > 0 ==> is_run(
                entry::serialized(self.entries@, scales@, margin_factors@),
                capacity as int,
                items@,
            ),
    {
        if self.entries.len() == 0 {
            return Vec::new();
        }
        let stream: Vec<u8> = entry::serialize_entries(
            self.entries.as_slice(),
            scales,
            margin_factors,
        );
        split_run(stream.as_slice(), capacity)
    }
}

/// The segment of `count` entries that were written to `num_blocks` blocks from
/// `start_page` on (nowhere, for no entries).
pub fn sealed_segment(start_page: Option<u32>, num_blocks: u32, count: u64) -> (s: IvfSegment)
    ensures
        s.start_page == if start_page is Some {
            start_page->0
        } else {
            item_pointer::INVALID_BLOCK_NUMBER
        },
        s.num_blocks == num_blocks,
        s.num_entries == count,
{
    IvfSegment::new(
        match start_page {
            Some(block) => block,
            None => item_pointer::INVALID_BLOCK_NUMBER,
        },
        num_blocks,
        count,
    )
}

/// What was sealed over a run of pages can be parsed: the pages' items, put
/// together, are a stream of as many entries.
pub proof fn law_sealed_run_can_be_parsed(
    entries: Seq<IvfEntry>,
    scales: Seq<u32>,
    margin_factors: Seq<u32>,
    capacity: int,
    items: Seq<Vec<u8>>,
)
    requires
        entry::can_read_back(entries),
        scales.len() == entries.len(),
        margin_factors.len() == entries.len(),
        is_run(entry::serialized(entries, scales, margin_factors), capacity, items),
    ensures
        entry::is_stream(joined(items)),
        entry::header_entries(joined(items)) == entries.len(),
{
    entry::law_sealed_entries_can_be_parsed(entries, scales, margin_factors);
}

/// What was sealed over a run of pages reads back: the pages' items, put
/// together, are a stream that holds every entry.
pub proof fn law_sealed_run_reads_back(
    entries: Seq<IvfEntry>,
    scales: Seq<u32>,
    margin_factors: Seq<u32>,
    capacity: int,
    items: Seq<Vec<u8>>,
    view: IvfEntrySlice,
    i: int,
)
    requires
        entry::can_read_back(entries),
        scales.len() == entries.len(),
        margin_factors.len() == entries.len(),
        is_run(entry::serialized(entries, scales, margin_factors), capacity, items),
        view.shows(joined(items)),
        0 <= i < entries.len(),
    ensures
        entry::is_stream(joined(items)),
        view.num_entries == entries.len(),
        forall|e: IvfEntry, l1: u32| #[trigger]
            entry::is_entry_of(e, view, i, l1) ==> {
                &&& e.heap_tid == entries[i].heap_tid
                &&& e.code.dim == entries[i].code.dim
                &&& e.code.num_bits == entries[i].code.num_bits
                &&& e.code.sum_of_x2 == entries[i].code.sum_of_x2
                &&& e.code.packed_code@ == entries[i].code.packed_code@
            },
        bytes::u32_at(view.scales@, 4 * i) == scales[i],
        bytes::u32_at(view.margin_factors@, 4 * i) == margin_factors[i],
{
    entry::law_sealed_entries_read_back(entries, scales, margin_factors, view, i);
}

/// Items are put together one after the other.
pub proof fn law_items_are_joined_in_order(a: Seq<Vec<u8>>, b: Seq<Vec<u8>>)
    ensures
        joined(a + b) == joined(a) + joined(b),
        a.len() == 1 ==> joined(a) == a[0]@,
        a.len() == 0 ==> joined(a) == Seq::<u8>::empty(),
    decreases b.len(),
{
    if b.len() == 0 {
        assert(a + b =~= a);
        assert(joined(a) + joined(b) =~= joined(a));
    } else {
        law_items_are_joined_in_order(a, b.drop_last());
        assert((a + b).drop_last() =~= a + b.drop_last());
        assert(joined(a + b) =~= joined(a) + joined(b));
    }
    if a.len() == 1 {
        assert(a.drop_last() =~= Seq::empty());
        reveal_with_fuel(joined, 2);
        assert(joined(a) =~= a[0]@);
    }
}

/// A run of pages holds the whole stream, in order: page `i` has the bytes from
/// `i` times the capacity on, and only the last one has room left.
pub proof fn law_run_holds_the_stream_in_order(stream: Seq<u8>, capacity: int, items: Seq<Vec<u8>>, i: int)
    requires
        is_run(stream, capacity, items),
        capacity > 0,
        0 <= i < items.len(),
    ensures
        joined(items.take(i)).len() == i * capacity,
        i * capacity + items[i]@.len() <= stream.len(),
        items[i]@ == stream.subrange(i * capacity, i * capacity + items[i]@.len()),
        i < items.len() - 1 ==> items[i]@.len() == capacity,
        i == items.len() - 1 ==> i * capacity + items[i]@.len() == stream.len(),
{
    lemma_full_pages(items, capacity, i);
    let a = items.take(i);
    let b = items.skip(i);
    assert(items =~= a + b);
    law_items_are_joined_in_order(a, b);
    let one = seq![items[i]];
    let rest = items.skip(i + 1);
    assert(b =~= one + rest);
    law_items_are_joined_in_order(one, rest);
    assert(joined(one) == items[i]@);
    assert(stream.subrange(i * capacity, i * capacity + items[i]@.len()) =~= items[i]@);
    if i == items.len() - 1 {
        assert(rest =~= Seq::empty());
        law_items_are_joined_in_order(rest, rest);
    }
}

proof fn lemma_full_pages(items: Seq<Vec<u8>>, capacity: int, i: int)
    requires
        0 <= i < items.len(),
        forall|j: int|
            #![trigger items[j]]
            0 <= j < items.len() - 1 ==> items[j]@.len() == capacity,
    ensures
        joined(items.take(i)).len() == i * capacity,
    decreases i,
{
    if i > 0 {
        lemma_full_pages(items, capacity, i - 1);
        assert(items.take(i).drop_last() =~= items.take(i - 1));
        assert(items.take(i).last() == items[i - 1]);
        assert(i * capacity == (i - 1) * capacity + capacity) by (nonlinear_arith);
    } else {
        assert(items.take(0) =~= Seq::empty());
        assert(0 * capacity == 0);
    }
}

/// The bursts cover all blocks, in order, without a gap.
pub proof fn law_bursts_cover_all_blocks(num_blocks: int, max: int, bursts: Seq<ReadBurst>, b: int)
    requires
        are_bursts(num_blocks, max, bursts),
        max > 0,
        0 <= b < num_blocks,
    ensures
        0 <= b / max < bursts.len(),
        bursts[b / max].first <= b < bursts[b / max].first + bursts[b / max].count,
        bursts[b / max].first + bursts[b / max].count <= num_blocks,
        bursts[b / max].count <= max,
{
    vstd::arithmetic::div_mod::lemma_fundamental_div_mod(b, max);
    vstd::arithmetic::div_mod::lemma_mod_bound(b, max);
    math::lemma_groups_of(num_blocks, max);
    let i = b / max;
    let g = math::groups_of(num_blocks, max);
    assert(0 <= i < g && i * max <= b < i * max + max) by (nonlinear_arith)
        requires
            b == max * i + b % max,
            0 <= b % max < max,
            0 <= b < num_blocks,
            g * max >= num_blocks,
            max > 0,
    ;
}

} // verus!
