//! Inserts into an IVF index.
//!
//! An entry is appended to its list's unpublished append buffer; the buffer is
//! sealed into an immutable segment once it has reached the threshold.  The
//! blocks of a seal are reserved before the list's header is locked, and what
//! was not needed of them is given back after it was released.
use crate::ivf::entry;
use crate::ivf::entry_layout;
use crate::ivf::entry::IvfEntry;
use crate::ivf::free_list;
use crate::ivf::free_list::IvfFreeRange;
use crate::ivf::sealing;
use crate::ivf::segment;
use crate::ivf::segment::{AppendTarget, IvfActiveBuffer, IvfListHeader, IvfSegment, StoredItem};
use crate::ivf::vacuum;
use crate::util::math;
use crate::util::page;
use vstd::prelude::*;

verus! {

/// The threshold in entries, at least one.
pub fn seal_threshold(setting: i32) -> (t: u64)
    ensures
        t == if setting < 1 {
            1
        } else {
            setting as int
        },
{
    if setting < 1 {
        1
    } else {
        setting as u64
    }
}

/// How many entries an append buffer holds.
pub open spec fn active_entries(active: Option<IvfActiveBuffer>) -> u64 {
    match active {
        Some(a) => a.num_entries,
        None => 0,
    }
}

/// How many entries an append buffer holds.
pub fn count_active(active: &Option<IvfActiveBuffer>) -> (n: u64)
    ensures
        n == active_entries(*active),
{
    match active {
        Some(a) => a.num_entries,
        None => 0,
    }
}

/// Bytes of a seal of `n` entries.
pub open spec fn seal_len(n: int, num_bits: u8, dim_padded: u32) -> int {
    entry::stream_len(n, num_bits, entry::packed_code_len(num_bits, dim_padded as int))
}

/// Blocks of a seal of `n` entries.
pub open spec fn seal_blocks(n: int, num_bits: u8, dim_padded: u32) -> int {
    math::groups_of(
        seal_len(n, num_bits, dim_padded),
        page::aligned_space(page::fresh_page_space()),
    )
}

/// How many blocks to reserve before the insert: those of a seal, where the
/// buffer has reached the threshold.
pub fn blocks_to_reserve(
    active_count: u64,
    threshold: u64,
    num_bits: u8,
    dim_padded: u32,
) -> (need: Option<u32>)
    requires
        active_count >= threshold ==> active_count <= usize::MAX - 31 && seal_len(
            active_count as int,
            num_bits,
            dim_padded,
        ) <= usize::MAX && seal_blocks(active_count as int, num_bits, dim_padded) <= u32::MAX,
    ensures
        need is Some <==> active_count >= threshold,
        need is Some ==> need->0 == seal_blocks(active_count as int, num_bits, dim_padded),
{
    if active_count >= threshold {
        Some(entry::seal_blocks_needed(active_count as usize, num_bits, dim_padded))
    } else {
        None
    }
}

/// Whether the append buffer of a list is to be sealed before the insert.
pub fn must_seal(header: &IvfListHeader, threshold: u64) -> (r: bool)
    ensures
        r == (header.active is Some && header.active->0.num_entries >= threshold),
{
    match &header.active {
        Some(a) => a.num_entries >= threshold,
        None => false,
    }
}

/// Where to write a seal of `count` entries: at the start of the reserved
/// range, where the buffer still has the size that it was reserved for, else on
/// fresh blocks.
pub fn seal_target(reserved: Option<IvfFreeRange>, count: u64, active_count: u64) -> (start: Option<
    u32,
>)
    ensures
        start is Some <==> reserved is Some && count == active_count,
        start is Some ==> start->0 == reserved->0.start_block,
{
    match reserved {
        Some(r) => {
            if count == active_count {
                Some(r.start_block)
            } else {
                None
            }
        },
        None => None,
    }
}

/// The segment that took `used` blocks of a reserved range, and what is left of
/// the range.
pub fn seal_reserved(reserved: IvfFreeRange, used: u32, count: u64) -> (r: (
    IvfSegment,
    Option<IvfFreeRange>,
))
    requires
        used <= reserved.num_blocks,
        reserved.end() <= u32::MAX,
    ensures
        r.0 == (IvfSegment {
            start_page: reserved.start_block,
            num_blocks: used,
            num_entries: count,
        }),
        is_rest(reserved, used, r.1),
{
    let tail: Option<IvfFreeRange> = if used < reserved.num_blocks {
        Some(
            IvfFreeRange {
                start_block: reserved.start_block + used,
                num_blocks: reserved.num_blocks - used,
            },
        )
    } else {
        None
    };
    (IvfSegment::new(reserved.start_block, used, count), tail)
}

/// Finish a seal: the append buffer is gone, and where a new segment list was
/// stored (that is, where the seal was not empty) the header points to it.
/// Returns the old segment-list item where it can be reclaimed; the shared
/// empty item, which counts no blocks, never is.
pub fn finish_seal(header: &mut IvfListHeader, stored: Option<StoredItem>) -> (retired: Vec<
    IvfFreeRange,
>)
    requires
        stored is Some ==> old(header).version < u64::MAX,
    ensures
        final(header).active is None,
        final(header).generation == old(header).generation,
        stored is None ==> {
            &&& retired@.len() == 0
            &&& final(header).version == old(header).version
            &&& final(header).segment_list == old(header).segment_list
            &&& final(header).segment_list_blocks == old(header).segment_list_blocks
        },
        stored is Some ==> {
            &&& final(header).version == old(header).version + 1
            &&& final(header).segment_list == stored->0.pointer
            &&& final(header).segment_list_blocks == stored->0.blocks
            &&& retired@ == retired_item(*old(header))
        },
{
    let mut retired: Vec<IvfFreeRange> = Vec::new();
    match stored {
        Some(item) => {
            if header.segment_list_blocks > 0 {
                retired.push(
                    IvfFreeRange {
                        start_block: header.segment_list.block_number,
                        num_blocks: header.segment_list_blocks,
                    },
                );
            }
            header.segment_list = item.pointer;
            header.segment_list_blocks = item.blocks;
            header.version = header.version + 1;
        },
        None => {},
    }
    header.active = None;
    assert(old(header).segment_list_blocks > 0 && stored is Some ==> retired@ =~= seq![
        IvfFreeRange {
            start_block: old(header).segment_list.block_number,
            num_blocks: old(header).segment_list_blocks,
        },
    ]);
    retired
}

/// Record that the entry was written to `block`.  Returns whether the reserved
/// page was consumed.
pub fn finish_append(header: &mut IvfListHeader, target: AppendTarget, block: u32) -> (used: bool)
    requires
        old(header).active is Some ==> old(header).active->0.num_entries < u64::MAX,
        target is Tail ==> old(header).active is Some,
    ensures
        used == (target is Reserved),
        final(header).version == old(header).version,
        final(header).generation == old(header).generation,
        final(header).segment_list == old(header).segment_list,
        final(header).segment_list_blocks == old(header).segment_list_blocks,
        final(header).active is Some,
        final(header).active->0.num_entries == active_entries(old(header).active) + 1,
        old(header).active is None ==> final(header).active->0.pages@ == seq![block],
        old(header).active is Some && target is Tail ==> final(header).active->0.pages@ == old(
            header,
        ).active->0.pages@,
        old(header).active is Some && !(target is Tail) ==> final(header).active->0.pages@ == old(
            header,
        ).active->0.pages@.push(block),
{
    let active: Option<IvfActiveBuffer> = header.active.take();
    let (a, used) = segment::append_active_entry_bytes(active, target, block);
    header.active = Some(a);
    used
}

/// What an insert waits for while it holds the header of its list.
#[derive(Debug)]
pub enum InsertPhase {
    /// The entries of the append buffer are to be read.
    Reading,
    /// They are to be written to the reserved blocks.
    SealingAt { range: IvfFreeRange, count: u64 },
    /// They are to be written to fresh blocks.
    SealingFresh,
    /// The segments of the list are to be loaded.
    Loading { sealed: IvfSegment },
    /// The segments are to be stored, and flushed together with the seal.
    Storing { segments: Vec<IvfSegment> },
    /// The entry is to be appended to the buffer.
    Appending,
    /// The header is to be written.
    Done,
}

/// An insert that holds the header of its list.
#[derive(Debug)]
pub struct InsertUpdate {
    pub header: IvfListHeader,
    pub phase: InsertPhase,
    /// The blocks that were reserved, and for how many entries.
    pub reserved: Option<IvfFreeRange>,
    pub reserved_for: u64,
    /// The segments that were stored in place of the old ones.
    pub stored: Option<Vec<IvfSegment>>,
    /// What can be reclaimed once the header was released.
    pub retired: Vec<IvfFreeRange>,
    /// What of the reserved blocks is given back then.
    pub unused: Option<IvfFreeRange>,
}

impl InsertUpdate {
    /// The segments of the list, which were `published` before the insert.
    pub open spec fn segments(&self, published: Seq<IvfSegment>) -> Seq<IvfSegment> {
        match self.stored {
            Some(segments) => segments@,
            None => published,
        }
    }

    /// How many entries the list has, in its segments and in its buffer.
    pub open spec fn entries(&self, published: Seq<IvfSegment>) -> int {
        vacuum::entries_in(self.segments(published)) + active_entries(self.header.active)
    }

    /// Whether the list still has all the entries that it had with the header
    /// `before` and the segments `published`, and the new one as well once the
    /// insert is done.
    pub open spec fn keeps(&self, before: IvfListHeader, published: Seq<IvfSegment>) -> bool {
        let all = vacuum::entries_in(published) + active_entries(before.active);
        let buffered = active_entries(before.active);
        &&& self.entries(published) == all + if self.phase is Done {
            1int
        } else {
            0
        }
        &&& !(self.phase is Appending || self.phase is Done) ==> self.stored is None
            && active_entries(self.header.active) == buffered
        &&& self.phase is SealingAt ==> self.phase->SealingAt_count == buffered
        &&& self.phase is Loading ==> self.phase->sealed.num_entries == buffered
        &&& self.phase is Storing ==> vacuum::entries_in(self.phase->segments@) == all
    }

    /// Whether nothing but the phase differs.
    pub open spec fn only_phase(&self, other: &InsertUpdate) -> bool {
        &&& self.header == other.header
        &&& self.reserved == other.reserved
        &&& self.reserved_for == other.reserved_for
        &&& self.stored == other.stored
        &&& self.retired@ == other.retired@
        &&& self.unused == other.unused
    }

    /// Start with the header as it is: a buffer that has reached the threshold
    /// is sealed first.
    pub fn start(
        header: IvfListHeader,
        threshold: u64,
        reserved: Option<IvfFreeRange>,
        reserved_for: u64,
    ) -> (u: InsertUpdate)
        ensures
            u.header == header,
            u.phase is Reading || u.phase is Appending,
            u.phase is Reading <==> header.active is Some && header.active->0.num_entries
                >= threshold,
            u.reserved == reserved,
            u.reserved_for == reserved_for,
            u.stored is None,
            u.retired@.len() == 0,
            u.unused == reserved,
            forall|published: Seq<IvfSegment>| #[trigger] u.keeps(header, published),
    {
        let phase: InsertPhase = if must_seal(&header, threshold) {
            InsertPhase::Reading
        } else {
            InsertPhase::Appending
        };
        InsertUpdate {
            header,
            phase,
            reserved,
            reserved_for,
            stored: None,
            retired: Vec::new(),
            unused: reserved,
        }
    }

    /// `count` entries were read from the buffer.  The seal goes to the reserved
    /// blocks where they were reserved for that many entries, else to fresh
    /// ones: an append in between would make the reservation too small.
    pub fn buffer_read(&mut self, count: u64)
        requires
            old(self).phase is Reading,
        ensures
            final(self).only_phase(old(self)),
            final(self).phase == if old(self).reserved is Some && count == old(
                self,
            ).reserved_for {
                InsertPhase::SealingAt { range: old(self).reserved->0, count }
            } else {
                InsertPhase::SealingFresh
            },
            forall|before: IvfListHeader, published: Seq<IvfSegment>| #[trigger]
                old(self).keeps(before, published) && count == active_entries(before.active)
                    ==> final(self).keeps(before, published),
    {
        match (seal_target(self.reserved, count, self.reserved_for), self.reserved) {
            (Some(_), Some(range)) => {
                self.phase = InsertPhase::SealingAt { range, count };
            },
            _ => {
                self.phase = InsertPhase::SealingFresh;
            },
        }
    }

    /// Go on from a seal: one without entries leaves the segments as they are.
    fn go_on_from(&mut self, sealed: IvfSegment)
        ensures
            final(self).reserved == old(self).reserved,
            final(self).reserved_for == old(self).reserved_for,
            final(self).stored == old(self).stored,
            final(self).retired@ == old(self).retired@,
            final(self).unused == old(self).unused,
            sealed.num_entries == 0 ==> final(self).phase is Appending && final(self).header == (
            IvfListHeader { active: None, ..old(self).header }),
            sealed.num_entries > 0 ==> final(self).phase == (InsertPhase::Loading { sealed })
                && final(self).header == old(self).header,
    {
        if sealed.is_empty() {
            let _ = finish_seal(&mut self.header, None);
            assert(self.header =~= IvfListHeader { active: None, ..old(self).header });
            self.phase = InsertPhase::Appending;
        } else {
            self.phase = InsertPhase::Loading { sealed };
        }
    }

    /// The seal took the first `used` of the reserved blocks.
    pub fn sealed_at(&mut self, used: u32)
        requires
            old(self).phase is SealingAt,
            used <= old(self).phase->range.num_blocks,
            old(self).phase->range.end() <= u32::MAX,
        ensures
            ({
                let range = old(self).phase->range;
                let count = old(self).phase->SealingAt_count;
                &&& is_rest(range, used, final(self).unused)
                &&& count == 0 ==> final(self).phase is Appending && final(self).header == (
                IvfListHeader { active: None, ..old(self).header })
                &&& count > 0 ==> final(self).header == old(self).header && final(self).phase == (
                InsertPhase::Loading {
                    sealed: IvfSegment {
                        start_page: range.start_block,
                        num_blocks: used,
                        num_entries: count,
                    },
                })
            }),
            final(self).reserved == old(self).reserved,
            final(self).reserved_for == old(self).reserved_for,
            final(self).stored == old(self).stored,
            final(self).retired@ == old(self).retired@,
            forall|before: IvfListHeader, published: Seq<IvfSegment>| #[trigger]
                old(self).keeps(before, published) ==> final(self).keeps(before, published),
    {
        match self.phase {
            InsertPhase::SealingAt { range, count } => {
                let (sealed, tail) = seal_reserved(range, used, count);
                self.unused = tail;
                self.go_on_from(sealed);
            },
            _ => {},
        }
    }

    /// The seal went to fresh blocks.
    pub fn sealed_fresh(&mut self, sealed: IvfSegment)
        requires
            old(self).phase is SealingFresh,
        ensures
            sealed.num_entries == 0 ==> final(self).phase is Appending && final(self).header == (
            IvfListHeader { active: None, ..old(self).header }),
            sealed.num_entries > 0 ==> final(self).phase == (InsertPhase::Loading { sealed })
                && final(self).header == old(self).header,
            final(self).reserved == old(self).reserved,
            final(self).reserved_for == old(self).reserved_for,
            final(self).stored == old(self).stored,
            final(self).retired@ == old(self).retired@,
            final(self).unused == old(self).unused,
            forall|before: IvfListHeader, published: Seq<IvfSegment>| #[trigger]
                old(self).keeps(before, published) && sealed.num_entries == active_entries(
                    before.active,
                ) ==> final(self).keeps(before, published),
    {
        self.go_on_from(sealed);
    }

    /// The segments of the list are these; the new one is the last.
    pub fn segments_loaded(&mut self, segments: Vec<IvfSegment>)
        requires
            old(self).phase is Loading,
        ensures
            final(self).only_phase(old(self)),
            final(self).phase is Storing,
            final(self).phase->segments@ == segments@.push(old(self).phase->sealed),
            forall|before: IvfListHeader| #[trigger]
                old(self).keeps(before, segments@) ==> final(self).keeps(before, segments@),
    {
        match self.phase {
            InsertPhase::Loading { sealed } => {
                let mut all: Vec<IvfSegment> = segments;
                all.push(sealed);
                assert(all@.drop_last() =~= segments@);
                self.phase = InsertPhase::Storing { segments: all };
            },
            _ => {},
        }
    }

    /// The segments were stored there: the header points to them, and the
    /// buffer is gone.
    pub fn segments_stored(&mut self, item: StoredItem)
        requires
            old(self).phase is Storing,
            old(self).header.version < u64::MAX,
        ensures
            final(self).phase is Appending,
            final(self).header == (IvfListHeader {
                version: (old(self).header.version + 1) as u64,
                segment_list: item.pointer,
                segment_list_blocks: item.blocks,
                active: None,
                ..old(self).header
            }),
            final(self).stored is Some,
            final(self).stored->0@ == old(self).phase->segments@,
            final(self).retired@ == retired_item(old(self).header),
            final(self).reserved == old(self).reserved,
            final(self).reserved_for == old(self).reserved_for,
            final(self).unused == old(self).unused,
            forall|before: IvfListHeader, published: Seq<IvfSegment>| #[trigger]
                old(self).keeps(before, published) ==> final(self).keeps(before, published),
    {
        let mut phase: InsertPhase = InsertPhase::Appending;
        std::mem::swap(&mut phase, &mut self.phase);
        match phase {
            InsertPhase::Storing { segments } => {
                self.retired = finish_seal(&mut self.header, Some(item));
                self.stored = Some(segments);
            },
            _ => {},
        }
    }

    /// The entry was written to `block`.
    pub fn appended(&mut self, target: AppendTarget, block: u32)
        requires
            old(self).phase is Appending,
            old(self).header.active is Some ==> old(self).header.active->0.num_entries < u64::MAX,
            target is Tail ==> old(self).header.active is Some,
        ensures
            final(self).phase is Done,
            final(self).header == (IvfListHeader {
                active: final(self).header.active,
                ..old(self).header
            }),
            final(self).header.active is Some,
            final(self).header.active->0.num_entries == active_entries(old(self).header.active)
                + 1,
            final(self).header.active->0.pages@ == if target is Tail {
                old(self).header.active->0.pages@
            } else if old(self).header.active is Some {
                old(self).header.active->0.pages@.push(block)
            } else {
                seq![block]
            },
            final(self).reserved == old(self).reserved,
            final(self).reserved_for == old(self).reserved_for,
            final(self).stored == old(self).stored,
            final(self).retired@ == old(self).retired@,
            final(self).unused == old(self).unused,
            forall|before: IvfListHeader, published: Seq<IvfSegment>| #[trigger]
                old(self).keeps(before, published) ==> final(self).keeps(before, published),
    {
        let _ = finish_append(&mut self.header, target, block);
        self.phase = InsertPhase::Done;
    }
}

/// The old segment-list item of a header, where it can be reclaimed.
pub open spec fn retired_item(header: IvfListHeader) -> Seq<IvfFreeRange> {
    if header.segment_list_blocks > 0 {
        seq![
            IvfFreeRange {
                start_block: header.segment_list.block_number,
                num_blocks: header.segment_list_blocks,
            },
        ]
    } else {
        Seq::empty()
    }
}

/// `rest` is what is left of a range of which the first `used` blocks were
/// taken.
pub open spec fn is_rest(range: IvfFreeRange, used: u32, rest: Option<IvfFreeRange>) -> bool {
    &&& rest is Some <==> used < range.num_blocks
    &&& rest is Some ==> rest->0.start_block == range.start_block + used && rest->0.num_blocks
        == range.num_blocks - used
}

/// An insert loses no entry: whatever it did on the way, the list has one more
/// entry than before when it is done, in its segments and its buffer together.
pub proof fn law_insert_keeps_every_entry(
    u: InsertUpdate,
    before: IvfListHeader,
    published: Seq<IvfSegment>,
)
    requires
        u.keeps(before, published),
        u.phase is Done,
    ensures
        vacuum::entries_in(u.segments(published)) + active_entries(u.header.active)
            == vacuum::entries_in(published) + active_entries(before.active) + 1,
{
}

/// The blocks that are reserved for a seal are as many as it takes.
pub proof fn law_reservation_is_exact(
    entries: Seq<IvfEntry>,
    scales: Seq<u32>,
    margin_factors: Seq<u32>,
    dim_padded: u32,
    items: Seq<Vec<u8>>,
)
    requires
        entry::can_serialize(entries),
        entries.len() > 0,
        scales.len() == entries.len(),
        margin_factors.len() == entries.len(),
        ({
            let shape = entry::shape_of(entries);
            &&& shape.code_len == entry::packed_code_len(shape.num_bits, dim_padded as int)
            &&& shape.num_bits == 2 ==> shape.code_len % 2 == 0
        }),
        sealing::is_run(
            entry::serialized(entries, scales, margin_factors),
            page::aligned_space(page::fresh_page_space()),
            items,
        ),
    ensures
        items.len() == seal_blocks(
            entries.len() as int,
            entry::shape_of(entries).num_bits,
            dim_padded,
        ),
{
    entry::law_seal_length_is_exact(entries, scales, margin_factors);
}

/// A seal on reserved blocks loses none of them: each is a block of the new
/// segment or is given back, and not both.
pub proof fn law_reservation_is_accounted_for(
    reserved: IvfFreeRange,
    used: u32,
    tail: Option<IvfFreeRange>,
)
    requires
        used <= reserved.num_blocks,
        reserved.end() <= u32::MAX,
        is_rest(reserved, used, tail),
    ensures
        ({
            let taken = free_list::blocks_of(
                IvfFreeRange { start_block: reserved.start_block, num_blocks: used },
            );
            let left = if tail is Some {
                free_list::blocks_of(tail->0)
            } else {
                Set::empty()
            };
            &&& taken.union(left) == free_list::blocks_of(reserved)
            &&& taken.disjoint(left)
        }),
{
    let taken = free_list::blocks_of(
        IvfFreeRange { start_block: reserved.start_block, num_blocks: used },
    );
    let left = if tail is Some {
        free_list::blocks_of(tail->0)
    } else {
        Set::empty()
    };
    assert(taken.union(left) =~= free_list::blocks_of(reserved));
}

/// A seal of `n` entries takes as many pages of 8152 bytes as its stream fills.
pub proof fn law_seal_fills_its_pages(n: int, num_bits: u8, dim_padded: u32)
    requires
        0 <= n,
        seal_len(n, num_bits, dim_padded) >= 0,
    ensures
        seal_blocks(n, num_bits, dim_padded) * 8152 >= seal_len(n, num_bits, dim_padded),
        seal_len(n, num_bits, dim_padded) > 0 ==> (seal_blocks(n, num_bits, dim_padded) - 1) * 8152
            < seal_len(n, num_bits, dim_padded),
        num_bits == 1 ==> seal_len(n, num_bits, dim_padded) == 16 + 18 * n + (n + 31) / 32 * 32 * (
        dim_padded as int / 8),
        num_bits == 2 ==> seal_len(n, num_bits, dim_padded) == 16 + 18 * n + (n + 31) / 32 * 32 * (
        dim_padded as int / 4),
        num_bits == 4 ==> seal_len(n, num_bits, dim_padded) == 16 + 18 * n + n * (dim_padded as int
            / 2),
        num_bits == 8 ==> seal_len(n, num_bits, dim_padded) == 16 + 18 * n + n * dim_padded,
{
    assert(page::aligned_space(page::fresh_page_space()) == 8152) by {
        assert(page::max_aligned(page::TSV_OPAQUE_SIZE as int) == 8);
    }
    math::lemma_groups_of(seal_len(n, num_bits, dim_padded), 8152);
    entry_layout::law_stream_length(n, num_bits, entry::packed_code_len(num_bits, dim_padded as int));
}

} // verus!
