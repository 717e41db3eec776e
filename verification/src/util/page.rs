//! Pages: what kinds there are, what marks them, and how much one holds.
use crate::util::math;
use vstd::prelude::*;

verus! {

/// Magic number of a page that belongs to an index.
pub const TSV_PAGE_ID: u16 = 0xAE24;

/// Bytes of a page.
pub const BLCKSZ: usize = 8192;

/// Bytes of the page header, up to the first line pointer.
pub const PAGE_HEADER_SIZE: usize = 24;

/// Bytes of one line pointer.
pub const LINE_POINTER_SIZE: usize = 4;

/// Bytes of the special area as it is declared: page type, a reserved byte and
/// the page id.
pub const TSV_OPAQUE_SIZE: usize = 4;

/// What items and areas of a page are aligned to.
pub const MAX_ALIGN: usize = 8;

/// The different types of pages in an index.
#[derive(Clone, Copy, PartialEq, Eq, Debug, Structural)]
pub enum PageType {
    MetaV1,
    Node,
    PqQuantizerDef,
    PqQuantizerVector,
    SbqMeansV1,
    SbqNode,
    MetaV2,
    SbqMeans,
    Meta,
    RabitqNode,
    RabitqMetadata,
    IvfMeta,
    IvfListDirectory,
    IvfCentroids,
    IvfQuantizerMetadata,
    IvfEntry,
    IvfListHeader,
    IvfSegmentList,
    IvfActiveBuffer,
    IvfFreeList,
    AgentVecMeta,
    AgentVecDirectory,
    AgentVecSegmentHeader,
    AgentVecFlatPage,
}

/// How many types of pages there are.
pub const PAGE_TYPES: u8 = 24;

/// The number that a page stores for its type.
pub open spec fn page_type_number(t: PageType) -> u8 {
    match t {
        PageType::MetaV1 => 0,
        PageType::Node => 1,
        PageType::PqQuantizerDef => 2,
        PageType::PqQuantizerVector => 3,
        PageType::SbqMeansV1 => 4,
        PageType::SbqNode => 5,
        PageType::MetaV2 => 6,
        PageType::SbqMeans => 7,
        PageType::Meta => 8,
        PageType::RabitqNode => 9,
        PageType::RabitqMetadata => 10,
        PageType::IvfMeta => 11,
        PageType::IvfListDirectory => 12,
        PageType::IvfCentroids => 13,
        PageType::IvfQuantizerMetadata => 14,
        PageType::IvfEntry => 15,
        PageType::IvfListHeader => 16,
        PageType::IvfSegmentList => 17,
        PageType::IvfActiveBuffer => 18,
        PageType::IvfFreeList => 19,
        PageType::AgentVecMeta => 20,
        PageType::AgentVecDirectory => 21,
        PageType::AgentVecSegmentHeader => 22,
        PageType::AgentVecFlatPage => 23,
    }
}

impl PageType {
    /// The type that a page's number stands for.
    pub fn from_u8(value: u8) -> (t: PageType)
        requires
            value < PAGE_TYPES,
        ensures
            page_type_number(t) == value,
            value == 8 <==> t is Meta,
            value == 9 <==> t is RabitqNode,
            value == 10 <==> t is RabitqMetadata,
            value == 11 <==> t is IvfMeta,
            value == 12 <==> t is IvfListDirectory,
            value == 13 <==> t is IvfCentroids,
            value == 14 <==> t is IvfQuantizerMetadata,
            value == 15 <==> t is IvfEntry,
            value == 16 <==> t is IvfListHeader,
            value == 17 <==> t is IvfSegmentList,
            value == 18 <==> t is IvfActiveBuffer,
            value == 19 <==> t is IvfFreeList,
    {
        if value == 0 {
            PageType::MetaV1
        } else if value == 1 {
            PageType::Node
        } else if value == 2 {
            PageType::PqQuantizerDef
        } else if value == 3 {
            PageType::PqQuantizerVector
        } else if value == 4 {
            PageType::SbqMeansV1
        } else if value == 5 {
            PageType::SbqNode
        } else if value == 6 {
            PageType::MetaV2
        } else if value == 7 {
            PageType::SbqMeans
        } else if value == 8 {
            PageType::Meta
        } else if value == 9 {
            PageType::RabitqNode
        } else if value == 10 {
            PageType::RabitqMetadata
        } else if value == 11 {
            PageType::IvfMeta
        } else if value == 12 {
            PageType::IvfListDirectory
        } else if value == 13 {
            PageType::IvfCentroids
        } else if value == 14 {
            PageType::IvfQuantizerMetadata
        } else if value == 15 {
            PageType::IvfEntry
        } else if value == 16 {
            PageType::IvfListHeader
        } else if value == 17 {
            PageType::IvfSegmentList
        } else if value == 18 {
            PageType::IvfActiveBuffer
        } else if value == 19 {
            PageType::IvfFreeList
        } else if value == 20 {
            PageType::AgentVecMeta
        } else if value == 21 {
            PageType::AgentVecDirectory
        } else if value == 22 {
            PageType::AgentVecSegmentHeader
        } else {
            PageType::AgentVecFlatPage
        }
    }

    /// The number that a page stores for this type.
    pub fn to_u8(self) -> (n: u8)
        ensures
            n == page_type_number(self),
            n < PAGE_TYPES,
            n == 8 <==> self is Meta,
            n == 9 <==> self is RabitqNode,
            n == 10 <==> self is RabitqMetadata,
            n == 11 <==> self is IvfMeta,
            n == 12 <==> self is IvfListDirectory,
            n == 13 <==> self is IvfCentroids,
            n == 14 <==> self is IvfQuantizerMetadata,
            n == 15 <==> self is IvfEntry,
            n == 16 <==> self is IvfListHeader,
            n == 17 <==> self is IvfSegmentList,
            n == 18 <==> self is IvfActiveBuffer,
            n == 19 <==> self is IvfFreeList,
    {
        match self {
            PageType::MetaV1 => 0,
            PageType::Node => 1,
            PageType::PqQuantizerDef => 2,
            PageType::PqQuantizerVector => 3,
            PageType::SbqMeansV1 => 4,
            PageType::SbqNode => 5,
            PageType::MetaV2 => 6,
            PageType::SbqMeans => 7,
            PageType::Meta => 8,
            PageType::RabitqNode => 9,
            PageType::RabitqMetadata => 10,
            PageType::IvfMeta => 11,
            PageType::IvfListDirectory => 12,
            PageType::IvfCentroids => 13,
            PageType::IvfQuantizerMetadata => 14,
            PageType::IvfEntry => 15,
            PageType::IvfListHeader => 16,
            PageType::IvfSegmentList => 17,
            PageType::IvfActiveBuffer => 18,
            PageType::IvfFreeList => 19,
            PageType::AgentVecMeta => 20,
            PageType::AgentVecDirectory => 21,
            PageType::AgentVecSegmentHeader => 22,
            PageType::AgentVecFlatPage => 23,
        }
    }

    /// Whether pages of this type may be chained to hold large data.
    pub fn is_chained(self) -> (r: bool)
        ensures
            r == may_chain(self),
    {
        matches!(
            self,
            PageType::SbqMeans | PageType::Meta | PageType::IvfMeta | PageType::IvfListDirectory
                | PageType::IvfCentroids | PageType::IvfQuantizerMetadata | PageType::IvfEntry
                | PageType::IvfListHeader | PageType::IvfSegmentList | PageType::IvfFreeList
                | PageType::AgentVecDirectory
        )
    }
}

/// The types of pages that may be chained.
pub open spec fn may_chain(t: PageType) -> bool {
    ||| t is SbqMeans
    ||| t is Meta
    ||| t is IvfMeta
    ||| t is IvfListDirectory
    ||| t is IvfCentroids
    ||| t is IvfQuantizerMetadata
    ||| t is IvfEntry
    ||| t is IvfListHeader
    ||| t is IvfSegmentList
    ||| t is IvfFreeList
    ||| t is AgentVecDirectory
}

/// Different types of pages have different numbers.
pub proof fn law_page_type_number_is_injective(a: PageType, b: PageType)
    requires
        page_type_number(a) == page_type_number(b),
    ensures
        a == b,
{
}

/// The data in the special area at the end of every page of an index.
#[derive(Clone, Copy, Debug)]
pub struct TsvPageOpaqueData {
    /// The number of the page's type.
    pub page_type: u8,
    /// Always zero.
    pub reserved: u8,
    /// The magic number of a page of an index.
    pub page_id: u16,
}

impl TsvPageOpaqueData {
    /// Whether this is the special area of a page of an index.
    pub open spec fn is_valid(self) -> bool {
        self.page_id == TSV_PAGE_ID && self.page_type < PAGE_TYPES
    }

    /// The special area of a new page.
    pub fn new(page_type: PageType) -> (d: TsvPageOpaqueData)
        ensures
            d.page_type == page_type_number(page_type),
            d.reserved == 0,
            d.page_id == TSV_PAGE_ID,
            d.is_valid(),
    {
        TsvPageOpaqueData { page_type: page_type.to_u8(), reserved: 0, page_id: TSV_PAGE_ID }
    }

    /// Check the magic number and the type's number.
    pub fn verify(&self) -> (ok: bool)
        ensures
            ok == self.is_valid(),
    {
        self.page_id == TSV_PAGE_ID && self.page_type < PAGE_TYPES
    }
}

/// `n`, rounded up to the alignment.
pub open spec fn max_aligned(n: int) -> int {
    math::groups_of(n, 8) * 8
}

/// The room between the line pointers (that end at `lower`) and the items
/// (that start at `upper`), less the line pointer that a new item takes.
pub open spec fn page_free_space(lower: int, upper: int) -> int {
    if upper - lower < LINE_POINTER_SIZE {
        0
    } else {
        upper - lower - LINE_POINTER_SIZE
    }
}

/// The part of `free` that an item can fill without losing bytes to alignment.
pub open spec fn aligned_space(free: int) -> int {
    free - free % 8
}

/// The room of a page of which no item was taken.
pub open spec fn fresh_page_space() -> int {
    page_free_space(PAGE_HEADER_SIZE as int, BLCKSZ - max_aligned(TSV_OPAQUE_SIZE as int))
}

/// The room for one more item on a page.
pub fn get_free_space(lower: usize, upper: usize) -> (r: usize)
    requires
        lower <= upper,
    ensures
        r == page_free_space(lower as int, upper as int),
        upper - lower < 4 ==> r == 0,
        upper - lower >= 4 ==> r == upper - lower - 4,
{
    if upper - lower < LINE_POINTER_SIZE {
        0
    } else {
        upper - lower - LINE_POINTER_SIZE
    }
}

/// The part of a page's free space that can be used to store data.
pub fn get_aligned_free_space(lower: usize, upper: usize) -> (r: usize)
    requires
        lower <= upper,
    ensures
        r == aligned_space(page_free_space(lower as int, upper as int)),
        r % 8 == 0,
        upper - lower < 4 ==> r == 0,
        upper - lower >= 4 ==> r <= upper - lower - 4 < r + 8,
{
    let free_space: usize = get_free_space(lower, upper);
    free_space - (free_space % 8)
}

/// The usable bytes for one item on a freshly initialized page: exactly what
/// [`get_aligned_free_space`] reports on a fresh page.
///
/// A page starts with its header; its special area is aligned; an item takes a
/// line pointer of its own.
pub fn tsv_fresh_page_capacity() -> (r: usize)
    ensures
        r == aligned_space(fresh_page_space()),
        r == 8152,
{
    assert(max_aligned(TSV_OPAQUE_SIZE as int) == 8);
    get_aligned_free_space(PAGE_HEADER_SIZE, BLCKSZ - MAX_ALIGN)
}

/// The pages that form chains are told by their numbers.
pub proof fn law_chained_pages_are_told_by_their_numbers(t: PageType)
    ensures
        page_type_number(t) < 24,
        may_chain(t) <==> {
            let n = page_type_number(t);
            n == 7 || n == 8 || 11 <= n <= 17 || n == 19 || n == 21
        },
{
}

} // verus!
