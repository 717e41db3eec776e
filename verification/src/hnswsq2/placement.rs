//! Placement of the elements of a graph on pages.
use crate::hnswsq::memory;
use crate::hnswsq::memory::max_align;
use crate::hnswsq::types::{Element, Graph};
use vstd::prelude::*;

verus! {

/// The bytes of a page.
pub const PAGE_BYTES: usize = 8192;

/// The bytes of an item's entry in the page's directory.
pub const ITEM_ID_BYTES: usize = 4;

/// The page that is being filled: its block, the number of its items, and the
/// bytes between its directory and its items.
#[derive(Clone, Copy, Debug, PartialEq, Eq, Structural)]
pub struct PageRoom {
    pub blkno: u32,
    pub items: u16,
    pub free: usize,
}

/// How large pages and items are: an empty page has `capacity` bytes, and an
/// item has `max_item` bytes at most.
#[derive(Clone, Copy, Debug, PartialEq, Eq, Structural)]
pub struct PageLimits {
    pub capacity: usize,
    pub max_item: usize,
}

impl PageLimits {
    /// An item of the largest size fills a page, together with its entry.
    pub open spec fn wf(&self) -> bool {
        &&& self.capacity <= PAGE_BYTES
        &&& self.capacity == self.max_item + ITEM_ID_BYTES
        &&& self.max_item % 8 == 0
    }
}

/// The room for one more item, which needs an entry too.
pub open spec fn space(free: int) -> int {
    if free < 4 {
        0
    } else {
        free - 4
    }
}

impl PageRoom {
    /// Each item has an entry.
    pub open spec fn wf(&self, limits: PageLimits) -> bool {
        4 * self.items + self.free <= limits.capacity
    }

    /// An empty page.
    pub open spec fn empty_at(blkno: u32, limits: PageLimits) -> PageRoom {
        PageRoom { blkno, items: 0, free: limits.capacity }
    }

    /// An empty page.
    pub fn empty(blkno: u32, limits: &PageLimits) -> (p: PageRoom)
        ensures
            p == PageRoom::empty_at(blkno, *limits),
            p.wf(*limits),
    {
        PageRoom { blkno, items: 0, free: limits.capacity }
    }

    /// The room for one more item.
    pub fn free_space(&self) -> (s: usize)
        ensures
            s == space(self.free as int),
    {
        if self.free < ITEM_ID_BYTES {
            0
        } else {
            self.free - ITEM_ID_BYTES
        }
    }

    /// Whether an item of `size` bytes fits.
    pub open spec fn fits(&self, size: int) -> bool {
        memory::aligned(size) + 4 <= self.free
    }

    /// The page with one more item.
    pub open spec fn with_item(&self, size: int) -> PageRoom {
        PageRoom {
            blkno: self.blkno,
            items: (self.items + 1) as u16,
            free: (self.free - memory::aligned(size) - 4) as usize,
        }
    }

    /// Add an item; returns its offset, or none where it does not fit.
    pub fn add_item(&mut self, size: usize, limits: &PageLimits) -> (offno: Option<u16>)
        requires
            old(self).wf(*limits),
            limits.wf(),
            size <= PAGE_BYTES,
        ensures
            final(self).wf(*limits),
            offno is Some <==> old(self).fits(size as int),
            offno is Some ==> offno->0 == old(self).items + 1 && *final(self) == old(
                self,
            ).with_item(size as int),
            offno is None ==> *final(self) == *old(self),
    {
        let bytes: usize = max_align(size);
        if bytes + ITEM_ID_BYTES > self.free {
            return None;
        }
        self.items = self.items + 1;
        self.free = self.free - bytes - ITEM_ID_BYTES;
        Some(self.items)
    }
}

/// Where an element and its neighbors are put.
#[derive(Clone, Copy, Debug, PartialEq, Eq, Structural)]
pub struct Placement {
    pub blkno: u32,
    pub offno: u16,
    pub neighbor_page: u32,
    pub neighbor_offno: u16,
}

/// Why an element cannot be placed.
#[derive(Clone, Copy, Debug, PartialEq, Eq, Structural)]
pub enum PlacementError {
    /// The element is larger than a page.
    TooLarge,
    /// An item could not be added where it belongs.
    FailedToAdd,
}

/// Whether an element and its neighbors fit one page together.
pub open spec fn fit_together(limits: PageLimits, element: int, neighbors: int) -> bool {
    element + neighbors + 4 <= limits.max_item
}

/// The page that the element is put on: a new one where it does not fit, or
/// where its neighbors would not fit beside it although they could.
pub open spec fn page_for_element(
    room: PageRoom,
    limits: PageLimits,
    element: int,
    neighbors: int,
) -> PageRoom {
    if space(room.free as int) < element || (fit_together(limits, element, neighbors) && space(
        room.free as int,
    ) < element + neighbors + 4) {
        PageRoom::empty_at((room.blkno + 1) as u32, limits)
    } else {
        room
    }
}

/// The page that the neighbors are put on: a new one where they do not fit
/// beside the element.
pub open spec fn page_for_neighbors(
    room: PageRoom,
    limits: PageLimits,
    element: int,
    neighbors: int,
) -> PageRoom {
    let with_element = page_for_element(room, limits, element, neighbors).with_item(element);
    if space(with_element.free as int) < neighbors {
        PageRoom::empty_at((with_element.blkno + 1) as u32, limits)
    } else {
        with_element
    }
}

/// Where the element and its neighbors are put.
pub open spec fn placement_of(
    room: PageRoom,
    limits: PageLimits,
    element: int,
    neighbors: int,
) -> Placement {
    let page = page_for_element(room, limits, element, neighbors);
    let next = page_for_neighbors(room, limits, element, neighbors);
    Placement {
        blkno: page.blkno,
        offno: (page.items + 1) as u16,
        neighbor_page: next.blkno,
        neighbor_offno: (next.items + 1) as u16,
    }
}

/// Whether the sizes of an element and of its neighbors are those of items.
pub open spec fn are_items(limits: PageLimits, element: int, neighbors: int) -> bool {
    &&& 0 < element <= limits.max_item
    &&& element % 8 == 0
    &&& 0 < neighbors <= limits.max_item
    &&& neighbors % 8 == 0
}

/// Whether an element and its neighbors can be put where they belong: each
/// fits its page, and the neighbors come right behind the element or first on
/// the next page.
#[verifier::opaque]
pub open spec fn can_place(room: PageRoom, limits: PageLimits, element: int, neighbors: int) -> bool {
    let page = page_for_element(room, limits, element, neighbors);
    let next = page_for_neighbors(room, limits, element, neighbors);
    &&& element <= PAGE_BYTES
    &&& neighbors <= PAGE_BYTES
    &&& page.fits(element)
    &&& next.fits(neighbors)
    &&& next.items + 1 == if fit_together(limits, element, neighbors) {
        page.items + 2
    } else {
        1
    }
}

/// Items that are aligned and no larger than they may be can always be put
/// where they belong.
pub proof fn law_items_can_be_placed(
    room: PageRoom,
    limits: PageLimits,
    element: int,
    neighbors: int,
)
    requires
        room.wf(limits),
        limits.wf(),
        are_items(limits, element, neighbors),
    ensures
        can_place(room, limits, element, neighbors),
{
    reveal(can_place);
}

/// Put an element of `element_size` bytes and its neighbors of
/// `neighbors_size` bytes on pages: on the same one where they fit together,
/// else the neighbors on the next one.
pub fn place_element(
    room: &mut PageRoom,
    limits: &PageLimits,
    element_size: usize,
    neighbors_size: usize,
) -> (r: Result<Placement, PlacementError>)
    requires
        old(room).wf(*limits),
        limits.wf(),
        old(room).blkno < u32::MAX - 2,
    ensures
        final(room).wf(*limits),
        final(room).blkno <= old(room).blkno + 2,
        r is Ok <==> can_place(
            *old(room),
            *limits,
            element_size as int,
            neighbors_size as int,
        ),
        r is Err ==> r->Err_0 == if element_size > PAGE_BYTES {
            PlacementError::TooLarge
        } else {
            PlacementError::FailedToAdd
        },
        r is Ok ==> {
            &&& r->Ok_0 == placement_of(
                *old(room),
                *limits,
                element_size as int,
                neighbors_size as int,
            )
            &&& *final(room) == page_for_neighbors(
                *old(room),
                *limits,
                element_size as int,
                neighbors_size as int,
            ).with_item(neighbors_size as int)
            &&& old(room).blkno <= r->Ok_0.blkno <= final(room).blkno <= old(room).blkno + 2
        },
{
    proof {
        reveal(can_place);
    }
    if element_size > PAGE_BYTES {
        return Err(PlacementError::TooLarge);
    }
    if neighbors_size > PAGE_BYTES {
        return Err(PlacementError::FailedToAdd);
    }
    let combined: usize = element_size + neighbors_size + ITEM_ID_BYTES;
    if room.free_space() < element_size || (combined <= limits.max_item && room.free_space()
        < combined) {
        *room = PageRoom::empty(room.blkno + 1, limits);
    }
    let blkno: u32 = room.blkno;
    let offno: u16 = room.items + 1;
    let together: bool = combined <= limits.max_item;
    let neighbor_page: u32 = if together {
        blkno
    } else {
        blkno + 1
    };
    let neighbor_offno: u16 = if together {
        offno + 1
    } else {
        1
    };
    match room.add_item(element_size, limits) {
        Some(at) => {},
        None => {
            return Err(PlacementError::FailedToAdd);
        },
    }
    if room.free_space() < neighbors_size {
        *room = PageRoom::empty(room.blkno + 1, limits);
    }
    match room.add_item(neighbors_size, limits) {
        Some(at) => {
            if at != neighbor_offno {
                return Err(PlacementError::FailedToAdd);
            }
        },
        None => {
            return Err(PlacementError::FailedToAdd);
        },
    }
    Ok(Placement { blkno, offno, neighbor_page, neighbor_offno })
}

/// An address comes before another one.
pub open spec fn comes_before(b1: u32, o1: u16, b2: u32, o2: u16) -> bool {
    b1 < b2 || (b1 == b2 && o1 < o2)
}

/// Items are placed one after the other: an element behind all that is on the
/// page, and its neighbors behind it. So no two of them share an address.
pub proof fn law_items_are_placed_in_order(
    room: PageRoom,
    limits: PageLimits,
    element: int,
    neighbors: int,
)
    requires
        room.wf(limits),
        limits.wf(),
        room.blkno < u32::MAX - 2,
        are_items(limits, element, neighbors),
    ensures
        ({
            let p = placement_of(room, limits, element, neighbors);
            let next = page_for_neighbors(room, limits, element, neighbors).with_item(neighbors);
            &&& comes_before(room.blkno, room.items, p.blkno, p.offno)
            &&& comes_before(p.blkno, p.offno, p.neighbor_page, p.neighbor_offno)
            &&& next.blkno == p.neighbor_page
            &&& next.items == p.neighbor_offno
        }),
{
}

/// The sizes that the items of a graph have: a stored element has `element`
/// bytes; the stored neighbors have a header of `neighbors_header` bytes and
/// an address for each place.
#[derive(Clone, Copy, Debug, PartialEq, Eq, Structural)]
pub struct ItemSizes {
    pub element: usize,
    pub neighbors_header: usize,
    pub m: usize,
}

impl ItemSizes {
    /// The bytes of the neighbors of an element of `level`.
    pub open spec fn neighbors(&self, level: int) -> int {
        memory::aligned(self.neighbors_header + 6 * ((level + 2) * self.m))
    }

    /// The bytes of the neighbors of an element of `level`.
    pub fn neighbors_size(&self, level: u8) -> (size: usize)
        requires
            self.neighbors_header <= PAGE_BYTES,
            self.m <= 0xffff,
        ensures
            size == self.neighbors(level as int),
    {
        proof {
            let l = level as int;
            let m = self.m as int;
            assert(0 <= (l + 2) * m <= 257 * 0xffff) by (nonlinear_arith)
                requires
                    0 <= l <= 255,
                    0 <= m <= 0xffff,
            ;
        }
        max_align(self.neighbors_header + 6 * ((level as usize + 2) * self.m))
    }
}

/// Where the last element but `k` of the graph is put, when the last one is
/// put first.
pub open spec fn room_after(
    limits: PageLimits,
    sizes: ItemSizes,
    first_block: u32,
    elements: Seq<Element>,
    k: int,
) -> PageRoom
    decreases k,
{
    if k <= 0 {
        PageRoom::empty_at(first_block, limits)
    } else {
        let size = sizes.neighbors(elements[elements.len() - k].level as int);
        page_for_neighbors(
            room_after(limits, sizes, first_block, elements, k - 1),
            limits,
            sizes.element as int,
            size,
        ).with_item(size)
    }
}

/// Where element `i` of the graph is put.
pub open spec fn element_placement(
    limits: PageLimits,
    sizes: ItemSizes,
    first_block: u32,
    elements: Seq<Element>,
    i: int,
) -> Placement {
    placement_of(
        room_after(limits, sizes, first_block, elements, elements.len() - 1 - i),
        limits,
        sizes.element as int,
        sizes.neighbors(elements[i].level as int),
    )
}

/// `after` is `before` put at `p`.
pub open spec fn is_placed(before: Element, p: Placement, after: Element) -> bool {
    after == (Element {
        blkno: p.blkno,
        offno: p.offno,
        neighbor_page: p.neighbor_page,
        neighbor_offno: p.neighbor_offno,
        ..before
    })
}

/// Whether all items of the graph can be placed.
pub open spec fn can_be_placed(
    limits: PageLimits,
    sizes: ItemSizes,
    elements: Seq<Element>,
) -> bool {
    forall|i: int|
        #![trigger elements[i]]
        0 <= i < elements.len() ==> are_items(
            limits,
            sizes.element as int,
            sizes.neighbors(elements[i].level as int),
        )
}

/// Whether the last element but `k` can be put where it belongs.
pub open spec fn can_place_nth(
    limits: PageLimits,
    sizes: ItemSizes,
    first_block: u32,
    elements: Seq<Element>,
    k: int,
) -> bool {
    can_place(
        room_after(limits, sizes, first_block, elements, k),
        limits,
        sizes.element as int,
        sizes.neighbors(elements[elements.len() - 1 - k].level as int),
    )
}

/// Put all elements of the graph and their neighbors on pages from
/// `first_block` on, the last element first, and record where. Returns the
/// page that was filled last.
pub fn create_graph_pages(
    graph: &mut Graph,
    limits: &PageLimits,
    sizes: &ItemSizes,
    first_block: u32,
) -> (r: Result<u32, PlacementError>)
    requires
        limits.wf(),
        sizes.neighbors_header <= PAGE_BYTES,
        sizes.m <= 0xffff,
        first_block + 2 * old(graph).elements@.len() < u32::MAX - 2,
    ensures
        final(graph).elements@.len() == old(graph).elements@.len(),
        r is Ok <==> forall|k: int|
            0 <= k < old(graph).elements@.len() ==> #[trigger] can_place_nth(
                *limits,
                *sizes,
                first_block,
                old(graph).elements@,
                k,
            ),
        r is Err ==> r->Err_0 == if sizes.element > PAGE_BYTES {
            PlacementError::TooLarge
        } else {
            PlacementError::FailedToAdd
        },
        r is Ok ==> {
            &&& r->Ok_0 == room_after(
                *limits,
                *sizes,
                first_block,
                old(graph).elements@,
                old(graph).elements@.len() as int,
            ).blkno
            &&& forall|i: int|
                #![trigger final(graph).elements@[i]]
                0 <= i < old(graph).elements@.len() ==> is_placed(
                    old(graph).elements@[i],
                    element_placement(*limits, *sizes, first_block, old(graph).elements@, i),
                    final(graph).elements@[i],
                )
        },
{
    let ghost e0 = graph.elements@;
    let n: usize = graph.elements.len();
    let mut room: PageRoom = PageRoom::empty(first_block, limits);
    let mut todo: usize = n;
    while todo > 0
        invariant
            todo <= n,
            e0 == old(graph).elements@,
            n == e0.len(),
            graph.elements@.len() == n,
            limits.wf(),
            sizes.neighbors_header <= PAGE_BYTES,
            sizes.m <= 0xffff,
            first_block + 2 * n < u32::MAX - 2,
            room.wf(*limits),
            room.blkno <= first_block + 2 * (n - todo),
            forall|i: int|
                #![trigger graph.elements@[i]]
                0 <= i < todo ==> graph.elements@[i] == e0[i],
            forall|k: int|
                0 <= k < n - todo ==> #[trigger] can_place_nth(
                    *limits,
                    *sizes,
                    first_block,
                    e0,
                    k,
                ),
            room == room_after(*limits, *sizes, first_block, e0, n - todo),
            forall|i: int|
                #![trigger graph.elements@[i]]
                todo <= i < n ==> is_placed(
                    e0[i],
                    element_placement(*limits, *sizes, first_block, e0, i),
                    graph.elements@[i],
                ),
        decreases todo,
    {
        let i: usize = todo - 1;
        assert(graph.elements@[i as int] == e0[i as int]);
        let size: usize = sizes.neighbors_size(graph.elements[i].level);
        assert(n - 1 - (n - todo) == i);
        assert(e0[n - (n - todo + 1)] == e0[i as int]);
        assert(can_place_nth(*limits, *sizes, first_block, e0, n - todo) == can_place(
            room,
            *limits,
            sizes.element as int,
            size as int,
        ));
        match place_element(&mut room, limits, sizes.element, size) {
            Ok(p) => {
                let e: &mut Element = &mut graph.elements[i];
                e.blkno = p.blkno;
                e.offno = p.offno;
                e.neighbor_page = p.neighbor_page;
                e.neighbor_offno = p.neighbor_offno;
                assert(n - 1 - i == n - todo);
            },
            Err(e) => {
                return Err(e);
            },
        }
        todo = i;
    }
    Ok(room.blkno)
}

/// A graph whose items are aligned and no larger than they may be can always be
/// put on pages.
pub proof fn law_graph_can_be_placed(
    limits: PageLimits,
    sizes: ItemSizes,
    first_block: u32,
    elements: Seq<Element>,
    k: int,
)
    requires
        limits.wf(),
        can_be_placed(limits, sizes, elements),
        first_block + 2 * elements.len() < u32::MAX - 2,
        0 <= k < elements.len(),
    ensures
        can_place_nth(limits, sizes, first_block, elements, k),
{
    lemma_room(limits, sizes, first_block, elements, k);
    let e = elements[elements.len() - 1 - k];
    law_items_can_be_placed(
        room_after(limits, sizes, first_block, elements, k),
        limits,
        sizes.element as int,
        sizes.neighbors(e.level as int),
    );
}

/// No two elements of the graph are put at the same place: those of a higher
/// index come first.
pub proof fn law_placements_are_distinct(
    limits: PageLimits,
    sizes: ItemSizes,
    first_block: u32,
    elements: Seq<Element>,
    i: int,
    j: int,
)
    requires
        limits.wf(),
        can_be_placed(limits, sizes, elements),
        first_block + 2 * elements.len() < u32::MAX - 2,
        0 <= i < j < elements.len(),
    ensures
        ({
            let p = element_placement(limits, sizes, first_block, elements, i);
            let q = element_placement(limits, sizes, first_block, elements, j);
            &&& comes_before(q.blkno, q.offno, q.neighbor_page, q.neighbor_offno)
            &&& comes_before(q.neighbor_page, q.neighbor_offno, p.blkno, p.offno)
            &&& comes_before(p.blkno, p.offno, p.neighbor_page, p.neighbor_offno)
        }),
    decreases j - i,
{
    let n = elements.len() as int;
    lemma_room(limits, sizes, first_block, elements, n - 1 - i);
    lemma_room(limits, sizes, first_block, elements, n - 1 - j);
    lemma_room(limits, sizes, first_block, elements, n - j);
    law_items_are_placed_in_order(
        room_after(limits, sizes, first_block, elements, n - 1 - j),
        limits,
        sizes.element as int,
        sizes.neighbors(elements[j].level as int),
    );
    law_items_are_placed_in_order(
        room_after(limits, sizes, first_block, elements, n - 1 - i),
        limits,
        sizes.element as int,
        sizes.neighbors(elements[i].level as int),
    );
    assert(elements[n - (n - j)] == elements[j]);
    if i + 1 < j {
        law_placements_are_distinct(limits, sizes, first_block, elements, i, j - 1);
        law_placements_are_distinct(limits, sizes, first_block, elements, j - 1, j);
    }
}

proof fn lemma_room(
    limits: PageLimits,
    sizes: ItemSizes,
    first_block: u32,
    elements: Seq<Element>,
    k: int,
)
    requires
        limits.wf(),
        can_be_placed(limits, sizes, elements),
        first_block + 2 * elements.len() < u32::MAX - 2,
        0 <= k <= elements.len(),
    ensures
        room_after(limits, sizes, first_block, elements, k).wf(limits),
        room_after(limits, sizes, first_block, elements, k).blkno <= first_block + 2 * k,
    decreases k,
{
    if k > 0 {
        lemma_room(limits, sizes, first_block, elements, k - 1);
        let e = elements[elements.len() - k];
        lemma_room_step(
            room_after(limits, sizes, first_block, elements, k - 1),
            limits,
            sizes.element as int,
            sizes.neighbors(e.level as int),
        );
    }
}

proof fn lemma_room_step(room: PageRoom, limits: PageLimits, element: int, neighbors: int)
    requires
        limits.wf(),
        room.wf(limits),
        room.blkno < u32::MAX - 2,
        are_items(limits, element, neighbors),
    ensures
        page_for_neighbors(room, limits, element, neighbors).with_item(neighbors).wf(limits),
        page_for_neighbors(room, limits, element, neighbors).with_item(neighbors).blkno
            <= room.blkno + 2,
{
}

} // verus!
