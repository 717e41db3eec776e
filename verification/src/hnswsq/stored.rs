//! The pages of a stored graph.
use crate::hnswsq::vacuum::PageItem;
use crate::util::item_pointer::ItemPointer;
use vstd::prelude::*;

verus! {

/// A page of a stored graph.
#[derive(Clone, Debug)]
pub struct StoredPage {
    pub blkno: u32,
    pub items: Vec<PageItem>,
}

/// A stored graph: its pages in the order of their chain, and the address of
/// its entry point.
#[derive(Debug)]
pub struct StoredGraph {
    pub pages: Vec<StoredPage>,
    pub entry: Option<ItemPointer>,
    pub m: usize,
}

/// Why the graph cannot be walked.
#[derive(Clone, Copy, Debug, PartialEq, Eq, Structural)]
pub enum WalkError {
    /// A deleted element can be reached.
    Deleted,
    /// There is no element at an address that can be reached, or its neighbors
    /// are missing.
    Missing,
}

/// The first page of the block from page `k` on, or the number of pages.
pub open spec fn page_of(pages: Seq<StoredPage>, blkno: u32, k: int) -> int
    decreases pages.len() - k,
{
    if k >= pages.len() || pages[k].blkno == blkno {
        k
    } else {
        page_of(pages, blkno, k + 1)
    }
}

/// Whether page `p` has an item `i`.
pub open spec fn is_place(pages: Seq<StoredPage>, p: int, i: int) -> bool {
    0 <= p < pages.len() && 0 <= i < pages[p].items@.len()
}

/// Whether there is an item at an address.
pub open spec fn has_item(pages: Seq<StoredPage>, tid: ItemPointer) -> bool {
    is_place(pages, page_of(pages, tid.block_number, 0), tid.offset - 1)
}

/// The item at an address, where there is one.
pub open spec fn item_at(pages: Seq<StoredPage>, tid: ItemPointer) -> Option<PageItem> {
    if has_item(pages, tid) {
        Some(pages[page_of(pages, tid.block_number, 0)].items@[tid.offset - 1])
    } else {
        None
    }
}

impl StoredGraph {
    /// The page and the item of an address, where there is one.
    pub fn find_place(&self, tid: ItemPointer) -> (r: Option<(usize, usize)>)
        ensures
            r is Some <==> has_item(self.pages@, tid),
            r matches Some(place) ==> place.0 == page_of(self.pages@, tid.block_number, 0)
                && place.1 == tid.offset - 1,
    {
        let mut p: usize = 0;
        while p < self.pages.len() && self.pages[p].blkno != tid.block_number
            invariant
                p <= self.pages@.len(),
                page_of(self.pages@, tid.block_number, 0) == page_of(
                    self.pages@,
                    tid.block_number,
                    p as int,
                ),
            decreases self.pages@.len() - p,
        {
            p = p + 1;
        }
        if p >= self.pages.len() {
            return None;
        }
        let offset: usize = tid.offset as usize;
        if offset == 0 || offset > self.pages[p].items.len() {
            return None;
        }
        Some((p, offset - 1))
    }

    /// The item at an address, where there is one.
    pub fn find_item(&self, tid: ItemPointer) -> (r: Option<&PageItem>)
        ensures
            r is Some <==> item_at(self.pages@, tid) is Some,
            r is Some ==> *r->0 == item_at(self.pages@, tid)->0,
    {
        match self.find_place(tid) {
            Some((p, i)) => Some(&self.pages[p].items[i]),
            None => None,
        }
    }
}

/// Whether the two have the same blocks with as many items each.
pub open spec fn same_shape(a: Seq<StoredPage>, b: Seq<StoredPage>) -> bool {
    &&& a.len() == b.len()
    &&& forall|p: int|
        #![trigger a[p]]
        #![trigger b[p]]
        0 <= p < a.len() ==> a[p].blkno == b[p].blkno && a[p].items@.len() == b[p].items@.len()
}

/// Addresses lead to the same places in pages of the same shape.
pub proof fn lemma_same_places(a: Seq<StoredPage>, b: Seq<StoredPage>, blkno: u32, k: int)
    requires
        same_shape(a, b),
        0 <= k <= a.len(),
    ensures
        page_of(a, blkno, k) == page_of(b, blkno, k),
        k <= page_of(a, blkno, k) <= a.len(),
    decreases a.len() - k,
{
    if k < a.len() && a[k].blkno != blkno {
        lemma_same_places(a, b, blkno, k + 1);
    }
}

/// The first page of a block has that block.
pub proof fn lemma_page_of(pages: Seq<StoredPage>, blkno: u32, k: int)
    requires
        0 <= k <= pages.len(),
    ensures
        k <= page_of(pages, blkno, k) <= pages.len(),
        page_of(pages, blkno, k) < pages.len() ==> pages[page_of(pages, blkno, k)].blkno == blkno,
    decreases pages.len() - k,
{
    if k < pages.len() && pages[k].blkno != blkno {
        lemma_page_of(pages, blkno, k + 1);
    }
}

/// Every item of a page is found at the address that its block and its place in
/// the page give it, where no two pages have the same block; and where there is
/// no such item, none is found.
pub proof fn law_every_item_is_found_at_its_address(pages: Seq<StoredPage>, p: int, i: int)
    requires
        0 <= p < pages.len(),
        forall|q: int|
            #![trigger pages[q]]
            0 <= q < pages.len() && q != p ==> pages[q].blkno != pages[p].blkno,
        0 <= i <= u16::MAX,
    ensures
        item_at(pages, ItemPointer { block_number: pages[p].blkno, offset: i as u16 }) == if 1 <= i
            <= pages[p].items@.len() {
            Some(pages[p].items@[i - 1])
        } else {
            None
        },
{
    let q = page_of(pages, pages[p].blkno, 0);
    lemma_page_of(pages, pages[p].blkno, 0);
    lemma_page_of_is_first(pages, pages[p].blkno, 0, p);
}

proof fn lemma_page_of_is_first(pages: Seq<StoredPage>, blkno: u32, k: int, p: int)
    requires
        0 <= k <= p < pages.len(),
        pages[p].blkno == blkno,
    ensures
        page_of(pages, blkno, k) <= p,
    decreases p - k,
{
    if pages[k].blkno != blkno {
        lemma_page_of_is_first(pages, blkno, k + 1, p);
    }
}

/// No item is found at an address of a block that no page has.
pub proof fn law_nothing_is_found_on_other_blocks(pages: Seq<StoredPage>, tid: ItemPointer)
    requires
        forall|q: int|
            #![trigger pages[q]]
            0 <= q < pages.len() ==> pages[q].blkno != tid.block_number,
    ensures
        item_at(pages, tid) is None,
{
    lemma_page_of(pages, tid.block_number, 0);
}

} // verus!
