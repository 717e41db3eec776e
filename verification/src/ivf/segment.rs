//! Segments of a list, its header and its append buffer.
//!
//! A list's entries are stored as one or more immutable segments, each a
//! contiguous run of blocks that holds a complete byte stream.  The header is
//! what readers start from; its `active` field is the writers' unpublished
//! append buffer.
use crate::util::item_pointer::ItemPointer;
use crate::util::page;
use vstd::prelude::*;

verus! {

/// One immutable segment of a list.
#[derive(Clone, Copy, Debug, PartialEq, Eq, Structural)]
pub struct IvfSegment {
    /// First block of the contiguous entry run.
    pub start_page: u32,
    /// Number of contiguous blocks in the run.
    pub num_blocks: u32,
    /// Number of entries in the segment.
    pub num_entries: u64,
}

impl IvfSegment {
    pub fn new(start_page: u32, num_blocks: u32, num_entries: u64) -> (s: IvfSegment)
        ensures
            s == (IvfSegment { start_page, num_blocks, num_entries }),
    {
        IvfSegment { start_page, num_blocks, num_entries }
    }

    /// Whether this segment has no entries.
    pub fn is_empty(&self) -> (r: bool)
        ensures
            r == (self.num_entries == 0),
    {
        self.num_entries == 0
    }
}

/// The list's unpublished append buffer (writer-only, invisible to scans).
///
/// Pages are tracked individually: concurrent extension by other lists means
/// that the buffer's blocks are not guaranteed contiguous.
#[derive(Debug, PartialEq)]
pub struct IvfActiveBuffer {
    /// Blocks of the buffer in allocation order.
    pub pages: Vec<u32>,
    /// Number of entries appended so far.
    pub num_entries: u64,
}

impl IvfActiveBuffer {
    /// A buffer of one page that holds one entry.
    pub fn new(first_page: u32) -> (b: IvfActiveBuffer)
        ensures
            b.pages@ == seq![first_page],
            b.num_entries == 1,
    {
        let mut pages: Vec<u32> = Vec::new();
        pages.push(first_page);
        assert(pages@ =~= seq![first_page]);
        IvfActiveBuffer { pages, num_entries: 1 }
    }
}

/// Where the next entry of an append buffer goes.
#[derive(Clone, Copy, Debug, PartialEq, Eq, Structural)]
pub enum AppendTarget {
    /// On the last page of the buffer.
    Tail(u32),
    /// On the page that was reserved.
    Reserved(u32),
    /// On a page that is yet to be added to the relation.
    Fresh,
}

/// The page for an entry of `len` bytes: the buffer's last page where it has
/// room, else the reserved page, else a fresh one.
pub open spec fn append_target(
    active: Option<IvfActiveBuffer>,
    tail_free: int,
    len: int,
    reserved_page: Option<u32>,
) -> AppendTarget {
    if active is Some && tail_free >= len {
        AppendTarget::Tail(active->0.pages@.last())
    } else if reserved_page is Some {
        AppendTarget::Reserved(reserved_page->0)
    } else {
        AppendTarget::Fresh
    }
}

/// Choose the page for an entry of `len` bytes.  `tail_free` is the usable
/// space on the last page of the buffer.
pub fn choose_append_target(
    active: &Option<IvfActiveBuffer>,
    tail_free: usize,
    len: usize,
    reserved_page: Option<u32>,
) -> (t: AppendTarget)
    requires
        active is Some ==> active->0.pages@.len() > 0,
    ensures
        t == append_target(*active, tail_free as int, len as int, reserved_page),
{
    match active {
        Some(a) => {
            if tail_free >= len {
                return AppendTarget::Tail(a.pages[a.pages.len() - 1]);
            }
        },
        None => {},
    }
    match reserved_page {
        Some(block) => AppendTarget::Reserved(block),
        None => AppendTarget::Fresh,
    }
}

/// The buffer after one entry was written to `block`, and whether the reserved
/// page was consumed.
pub fn append_active_entry_bytes(
    active: Option<IvfActiveBuffer>,
    target: AppendTarget,
    block: u32,
) -> (r: (IvfActiveBuffer, bool))
    requires
        active is Some ==> active->0.num_entries < u64::MAX,
        target is Tail ==> active is Some,
    ensures
        r.1 == (target is Reserved),
        active is None ==> r.0.pages@ == seq![block] && r.0.num_entries == 1,
        active is Some ==> r.0.num_entries == active->0.num_entries + 1,
        active is Some && target is Tail ==> r.0.pages@ == active->0.pages@,
        active is Some && !(target is Tail) ==> r.0.pages@ == active->0.pages@.push(block),
{
    let used: bool = matches!(target, AppendTarget::Reserved(_));
    match active {
        Some(a) => {
            let mut pages: Vec<u32> = a.pages;
            match target {
                AppendTarget::Tail(_) => {},
                _ => {
                    pages.push(block);
                },
            }
            (IvfActiveBuffer { pages, num_entries: a.num_entries + 1 }, used)
        },
        None => (IvfActiveBuffer::new(block), used),
    }
}

/// Immutable segment-list item (referenced from the header page).
#[derive(Debug, PartialEq)]
pub struct IvfSegmentList {
    pub segments: Vec<IvfSegment>,
}

impl IvfSegmentList {
    pub fn new(segments: Vec<IvfSegment>) -> (l: IvfSegmentList)
        ensures
            l.segments@ == segments@,
    {
        IvfSegmentList { segments }
    }

    /// Whether an item of `len` bytes fits a single page.
    pub fn fits_one_page(len: usize) -> (r: bool)
        ensures
            r == (len < page::aligned_space(page::fresh_page_space())),
    {
        len < page::tsv_fresh_page_capacity()
    }
}

/// Where an item was stored, and how many contiguous blocks it occupies.
#[derive(Clone, Copy, Debug, PartialEq, Eq, Structural)]
pub struct StoredItem {
    pub pointer: ItemPointer,
    pub blocks: u32,
}

/// Per-list header page: the single-page atomic publication target.
#[derive(Debug, PartialEq)]
pub struct IvfListHeader {
    /// Monotonic version bumped on every header swap.
    pub version: u64,
    /// Generation (bumped on compaction).
    pub generation: u64,
    /// Pointer to the immutable segment-list item readers walk.
    pub segment_list: ItemPointer,
    /// Number of contiguous blocks the segment-list item occupies; zero marks
    /// the shared empty item, which is never reclaimed.
    pub segment_list_blocks: u32,
    /// Writer-only pointer to the unpublished append buffer.
    pub active: Option<IvfActiveBuffer>,
}

impl IvfListHeader {
    /// The header of a list that was just built.
    pub fn new(segment_list: ItemPointer, segment_list_blocks: u32) -> (h: IvfListHeader)
        ensures
            h.version == 0,
            h.generation == 0,
            h.segment_list == segment_list,
            h.segment_list_blocks == segment_list_blocks,
            h.active is None,
    {
        IvfListHeader { version: 0, generation: 0, segment_list, segment_list_blocks, active: None }
    }

    /// Whether a header of `len` bytes can be published: it takes less than
    /// half a page.
    pub fn can_publish(len: usize) -> (r: bool)
        ensures
            r == (len < page::BLCKSZ / 2),
    {
        len < page::BLCKSZ / 2
    }
}

/// An entry goes to the last page of the buffer where it fits, else to the page
/// that was reserved, else to a fresh one.
pub proof fn law_entries_go_where_there_is_room(
    active: Option<IvfActiveBuffer>,
    tail_free: int,
    len: int,
    reserved_page: Option<u32>,
)
    ensures
        append_target(active, tail_free, len, reserved_page) is Tail <==> active is Some && len
            <= tail_free,
        append_target(active, tail_free, len, reserved_page) is Tail ==> append_target(
            active,
            tail_free,
            len,
            reserved_page,
        ) == AppendTarget::Tail(active->0.pages@.last()),
        append_target(active, tail_free, len, reserved_page) is Fresh <==> !(active is Some && len
            <= tail_free) && reserved_page is None,
        append_target(active, tail_free, len, reserved_page) is Reserved ==> append_target(
            active,
            tail_free,
            len,
            reserved_page,
        ) == AppendTarget::Reserved(reserved_page->0),
{
}

} // verus!
