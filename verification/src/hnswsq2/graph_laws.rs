//! What is counted, walked, inserted and placed, told by the items themselves.
use crate::hnswsq::memory;
use crate::hnswsq::neighbors;
use crate::hnswsq::stored;
use crate::hnswsq::stored::{StoredGraph, StoredPage, WalkError};
use crate::hnswsq::stored_complete;
use crate::hnswsq::tuple;
use crate::hnswsq::tuple::{ElementTuple, NeighborTuple};
use crate::hnswsq::types::{Candidate, Element, Graph};
use crate::hnswsq::vacuum::PageItem;
use crate::hnswsq2::backlinks;
use crate::hnswsq2::diag;
use crate::hnswsq2::diag::{Diagnosis, DumpRow, Place, Reach};
use crate::hnswsq2::insertion;
use crate::hnswsq2::insertion::BuildGraph;
use crate::hnswsq2::options::IterativeScanMode;
use crate::hnswsq2::placement;
use crate::hnswsq2::placement::{ItemSizes, PageLimits, PageRoom, Placement};
use crate::hnswsq2::sampling;
use crate::util::item_pointer::ItemPointer;
use vstd::prelude::*;

verus! {

/// Items are counted one by one, over all pages.
pub proof fn law_items_are_counted(
    pages: Seq<StoredPage>,
    page: StoredPage,
    items: Seq<PageItem>,
    item: PageItem,
    kind: spec_fn(PageItem) -> bool,
)
    ensures
        diag::count_pages(pages, kind, 0) == 0,
        diag::count_pages(pages.push(page), kind, pages.len() as int + 1) == diag::count_pages(
            pages,
            kind,
            pages.len() as int,
        ) + diag::count_items(page.items@, kind, page.items@.len() as int),
        diag::count_items(items, kind, 0) == 0,
        diag::count_items(items.push(item), kind, items.len() as int + 1) == diag::count_items(
            items,
            kind,
            items.len() as int,
        ) + if kind(item) {
            1int
        } else {
            0
        },
{
    lemma_count_pages_prefix(pages, page, kind, pages.len() as int);
    lemma_count_items_prefix(items, item, kind, items.len() as int);
}

proof fn lemma_count_pages_prefix(
    pages: Seq<StoredPage>,
    page: StoredPage,
    kind: spec_fn(PageItem) -> bool,
    n: int,
)
    requires
        0 <= n <= pages.len(),
    ensures
        diag::count_pages(pages.push(page), kind, n) == diag::count_pages(pages, kind, n),
    decreases n,
{
    if n > 0 {
        lemma_count_pages_prefix(pages, page, kind, n - 1);
    }
}

proof fn lemma_count_items_prefix(
    items: Seq<PageItem>,
    item: PageItem,
    kind: spec_fn(PageItem) -> bool,
    n: int,
)
    requires
        0 <= n <= items.len(),
    ensures
        diag::count_items(items.push(item), kind, n) == diag::count_items(items, kind, n),
    decreases n,
{
    if n > 0 {
        lemma_count_items_prefix(items, item, kind, n - 1);
    }
}

/// Every element is of exactly one kind: deleted, without a row, or live.
pub proof fn law_kinds_of_elements(item: PageItem)
    ensures
        diag::is_element(item) <==> item is Element,
        item is Neighbors ==> !diag::is_deleted(item) && !diag::is_live(item) && !diag::is_rowless(
            item,
        ),
        item is Element ==> {
            let e = item->Element_tuple;
            &&& diag::is_deleted(item) <==> e.deleted != 0
            &&& diag::is_live(item) <==> e.deleted == 0 && e.heaptid.block_number != 0xFFFF_FFFF
            &&& diag::is_rowless(item) <==> e.deleted == 0 && e.heaptid.block_number == 0xFFFF_FFFF
        },
{
}

/// A walk follows exactly the lists of the lowest layer, as they are stored.
pub proof fn law_walk_follows_the_lowest_layer(
    pages: Seq<StoredPage>,
    m: int,
    x: ItemPointer,
    y: ItemPointer,
)
    requires
        0 <= m,
    ensures
        diag::lists(pages, m, x, y) <==> stored_complete::names(pages, m, 0, x, y),
{
    let e = diag::element_at(pages, x);
    let list = diag::neighbors_at(pages, x);
    let place = e.level * m;
    if diag::load_error(pages, x) is None && diag::is_readable(pages, m, x) {
        assert((e.level + 2) * m == place + 2 * m) by (nonlinear_arith)
            requires
                place == e.level * m,
        ;
        assert(0 <= place) by (nonlinear_arith)
            requires
                place == e.level * m,
                0 <= m,
        ;
        assert((e.level - 0) * m == place);
        let layer = list.tids@.subrange(place, place + 2 * m);
        crate::hnswsq::list_laws::law_lists_end_at_the_first_gap(layer);
        let n = tuple::valid_prefix(layer);
        let out = diag::listed(pages, m, x);
        assert(out == layer.take(n));
        if out.contains(y) {
            let i = choose|i: int| 0 <= i < out.len() && out[i] == y;
            assert(layer[i] == y);
            assert forall|j: int| #![trigger list.tids@[place + j]] 0 <= j <= i implies list.tids@[
                place + j
            ].block_number != 0xFFFF_FFFF by {
                assert(layer[j] == list.tids@[place + j]);
            }
            assert(stored_complete::names_at(pages, m, 0, x, y, i));
        }
        if stored_complete::names(pages, m, 0, x, y) {
            let i = choose|i: int| #[trigger] stored_complete::names_at(pages, m, 0, x, y, i);
            assert(layer[i] == list.tids@[place + i]);
            if n <= i {
                assert(layer[n] == list.tids@[place + n]);
            }
            assert(out[i] == y);
        }
    } else {
        if stored_complete::names(pages, m, 0, x, y) {
            let i = choose|i: int| #[trigger] stored_complete::names_at(pages, m, 0, x, y, i);
        }
    }
}

/// What is reached holds the entry point and all that the lists lead to, and
/// nothing that another set with these two properties leaves out.
pub proof fn law_reached_is_what_the_lists_lead_to(
    pages: Seq<StoredPage>,
    m: int,
    entry: ItemPointer,
    closed: Set<ItemPointer>,
)
    requires
        closed.contains(entry),
        forall|x: ItemPointer, y: ItemPointer| #[trigger]
            diag::lists(pages, m, x, y) && closed.contains(x) ==> closed.contains(y),
    ensures
        diag::reachable(pages, m, entry, entry),
        forall|x: ItemPointer, y: ItemPointer| #[trigger]
            diag::lists(pages, m, x, y) && diag::reachable(pages, m, entry, x) ==> diag::reachable(
                pages,
                m,
                entry,
                y,
            ),
        forall|t: ItemPointer| #[trigger]
            diag::reachable(pages, m, entry, t) ==> closed.contains(t),
{
    assert(diag::within(pages, m, entry, entry, 0));
    assert forall|x: ItemPointer, y: ItemPointer| #[trigger] diag::lists(pages, m, x, y)
        && diag::reachable(pages, m, entry, x) implies diag::reachable(pages, m, entry, y) by {
        let k = choose|k: nat| #[trigger] diag::within(pages, m, entry, x, k);
        assert(diag::within(pages, m, entry, y, k + 1));
    }
    assert forall|t: ItemPointer| #[trigger] diag::reachable(
        pages,
        m,
        entry,
        t,
    ) implies closed.contains(t) by {
        let k = choose|k: nat| #[trigger] diag::within(pages, m, entry, t, k);
        lemma_within_closed(pages, m, entry, closed, t, k);
    }
}

proof fn lemma_within_closed(
    pages: Seq<StoredPage>,
    m: int,
    entry: ItemPointer,
    closed: Set<ItemPointer>,
    t: ItemPointer,
    k: nat,
)
    requires
        closed.contains(entry),
        forall|x: ItemPointer, y: ItemPointer| #[trigger]
            diag::lists(pages, m, x, y) && closed.contains(x) ==> closed.contains(y),
        diag::within(pages, m, entry, t, k),
    ensures
        closed.contains(t),
    decreases k,
{
    if k > 0 {
        if diag::within(pages, m, entry, t, (k - 1) as nat) {
            lemma_within_closed(pages, m, entry, closed, t, (k - 1) as nat);
        } else {
            let x = choose|x: ItemPointer|
                #[trigger] diag::lists(pages, m, x, t) && diag::within(
                    pages,
                    m,
                    entry,
                    x,
                    (k - 1) as nat,
                );
            lemma_within_closed(pages, m, entry, closed, x, (k - 1) as nat);
        }
    }
}

/// The longest list is as long as one of them, and none is longer; the lists that
/// are counted are those of the right version and size.
pub proof fn law_longest_list_is_the_longest(
    pages: Seq<StoredPage>,
    m: int,
    all: Seq<ItemPointer>,
    k: int,
)
    requires
        0 <= k <= all.len(),
    ensures
        forall|i: int|
            #![trigger all[i]]
            0 <= i < k ==> diag::listed(pages, m, all[i]).len() <= diag::longest_list(
                pages,
                m,
                all,
                k,
            ),
        diag::longest_list(pages, m, all, k) == 0 || exists|i: int|
            #![trigger all[i]]
            0 <= i < k && diag::listed(pages, m, all[i]).len() == diag::longest_list(
                pages,
                m,
                all,
                k,
            ),
        diag::readable_count(pages, m, all, k) == Seq::new(
            k as nat,
            |i: int|
                {
                    let e = diag::element_at(pages, all[i]);
                    let list = stored::item_at(pages, e.neighbortid)->0->Neighbors_tuple;
                    list.version == e.version && list.tids@.len() == (e.level + 2) * m
                },
        ).to_multiset().count(true),
    decreases k,
{
    broadcast use vstd::seq_lib::group_to_multiset_ensures;

    let right = |i: int|
        {
            let e = diag::element_at(pages, all[i]);
            let list = stored::item_at(pages, e.neighbortid)->0->Neighbors_tuple;
            list.version == e.version && list.tids@.len() == (e.level + 2) * m
        };
    let flags = Seq::new(k as nat, right);
    if k > 0 {
        law_longest_list_is_the_longest(pages, m, all, k - 1);
        let before = Seq::new((k - 1) as nat, right);
        assert(flags =~= before.push(right(k - 1)));
        assert(right(k - 1) == diag::is_readable(pages, m, all[k - 1]));
    } else {
        assert(flags.to_multiset().len() == 0);
    }
}

/// A dump goes through every element of every page once, in their order.
pub proof fn law_dump_goes_through_all_elements(pages: Seq<StoredPage>, k: int)
    requires
        0 <= k <= pages.len(),
    ensures
        forall|p: int, i: int|
            #![trigger pages[p].items@[i]]
            0 <= p < k && 0 <= i < pages[p].items@.len() && pages[p].items@[i] is Element
                ==> diag::places(pages, k).contains((Place { page: p, item: i })),
        forall|a: int|
            #![trigger diag::places(pages, k)[a]]
            0 <= a < diag::places(pages, k).len() ==> {
                let at = diag::places(pages, k)[a];
                0 <= at.page < k && 0 <= at.item < pages[at.page].items@.len()
                    && pages[at.page].items@[at.item] is Element
            },
        forall|a: int, b: int|
            #![trigger diag::places(pages, k)[a], diag::places(pages, k)[b]]
            0 <= a < b < diag::places(pages, k).len() ==> {
                let at = diag::places(pages, k)[a];
                let then = diag::places(pages, k)[b];
                at.page < then.page || (at.page == then.page && at.item < then.item)
            },
    decreases k,
{
    if k > 0 {
        law_dump_goes_through_all_elements(pages, k - 1);
        let n = pages[k - 1].items@.len() as int;
        lemma_item_places(pages, k - 1, n);
        let before = diag::places(pages, k - 1);
        let here = diag::item_places(pages, k - 1, n);
        let all = diag::places(pages, k);
        assert(all == before + here);
        assert forall|p: int, i: int|
            #![trigger pages[p].items@[i]]
            0 <= p < k && 0 <= i < pages[p].items@.len() && pages[p].items@[i]
                is Element implies all.contains((Place { page: p, item: i })) by {
            if p < k - 1 {
                assert(before.contains((Place { page: p, item: i })));
                let a = choose|a: int| 0 <= a < before.len() && before[a] == (Place { page: p, item: i });
                assert(all[a] == before[a]);
            } else {
                assert(here.contains((Place { page: p, item: i })));
                let a = choose|a: int| 0 <= a < here.len() && here[a] == (Place { page: p, item: i });
                assert(all[before.len() + a] == here[a]);
            }
        }
        assert forall|a: int| #![trigger all[a]] 0 <= a < all.len() implies 0 <= all[a].page < k
            && 0 <= all[a].item < pages[all[a].page].items@.len()
            && pages[all[a].page].items@[all[a].item] is Element by {
            if a < before.len() {
                assert(all[a] == before[a]);
            } else {
                assert(all[a] == here[a - before.len()]);
            }
        }
        assert forall|a: int, b: int|
            #![trigger all[a], all[b]]
            0 <= a < b < all.len() implies all[a].page < all[b].page || (all[a].page == all[b].page
            && all[a].item < all[b].item) by {
            if b < before.len() {
                assert(all[a] == before[a] && all[b] == before[b]);
            } else {
                assert(all[b] == here[b - before.len()]);
                if a < before.len() {
                    assert(all[a] == before[a]);
                } else {
                    assert(all[a] == here[a - before.len()]);
                }
            }
        }
    }
}

proof fn lemma_item_places(pages: Seq<StoredPage>, p: int, n: int)
    requires
        0 <= p < pages.len(),
        0 <= n <= pages[p].items@.len(),
    ensures
        forall|i: int|
            #![trigger pages[p].items@[i]]
            0 <= i < n && pages[p].items@[i] is Element ==> diag::item_places(pages, p, n).contains(
                (Place { page: p, item: i }),
            ),
        forall|a: int|
            #![trigger diag::item_places(pages, p, n)[a]]
            0 <= a < diag::item_places(pages, p, n).len() ==> {
                let at = diag::item_places(pages, p, n)[a];
                at.page == p && 0 <= at.item < n && pages[p].items@[at.item] is Element
            },
        forall|a: int, b: int|
            #![trigger diag::item_places(pages, p, n)[a], diag::item_places(pages, p, n)[b]]
            0 <= a < b < diag::item_places(pages, p, n).len() ==> diag::item_places(
                pages,
                p,
                n,
            )[a].item < diag::item_places(pages, p, n)[b].item,
    decreases n,
{
    if n > 0 {
        lemma_item_places(pages, p, n - 1);
        let before = diag::item_places(pages, p, n - 1);
        let all = diag::item_places(pages, p, n);
        assert forall|i: int|
            #![trigger pages[p].items@[i]]
            0 <= i < n && pages[p].items@[i] is Element implies all.contains(
            (Place { page: p, item: i }),
        ) by {
            if i < n - 1 {
                assert(before.contains((Place { page: p, item: i })));
                let a = choose|a: int| 0 <= a < before.len() && before[a] == (Place { page: p, item: i });
                assert(all[a] == before[a]);
            } else {
                assert(all[before.len() as int] == (Place { page: p, item: i }));
            }
        }
        assert forall|a: int| #![trigger all[a]] 0 <= a < all.len() implies all[a].page == p && 0
            <= all[a].item < n && pages[p].items@[all[a].item] is Element by {
            if a < before.len() {
                assert(all[a] == before[a]);
            }
        }
        assert forall|a: int, b: int|
            #![trigger all[a], all[b]]
            0 <= a < b < all.len() implies all[a].item < all[b].item by {
            assert(all[a] == before[a]);
            if b < before.len() {
                assert(all[b] == before[b]);
            }
        }
    }
}

/// The list that a dump shows holds the addresses of the lowest layer before the
/// first gap, and there is one exactly if version and size are right.
pub proof fn law_dumped_list_is_the_lowest_layer(e: ElementTuple, n: NeighborTuple, m: int)
    requires
        0 <= m,
    ensures
        ({
            let list = diag::bottom_list(e, n, m);
            let place = e.level * m;
            &&& list is Some <==> n.version == e.version && n.tids@.len() == place + 2 * m
            &&& list is Some ==> {
                &&& list->0.len() <= 2 * m
                &&& forall|i: int|
                    #![trigger list->0[i]]
                    0 <= i < list->0.len() ==> list->0[i] == n.tids@[place + i]
                        && list->0[i].block_number != 0xFFFF_FFFF
                &&& list->0.len() < 2 * m ==> n.tids@[place + list->0.len()].block_number
                    == 0xFFFF_FFFF
            }
        }),
{
    let place = e.level * m;
    assert((e.level + 2) * m == place + 2 * m) by (nonlinear_arith)
        requires
            place == e.level * m,
    ;
    assert(0 <= place) by (nonlinear_arith)
        requires
            place == e.level * m,
            0 <= m,
    ;
    assert((e.level - 0) * m == place);
    if diag::bottom_list(e, n, m) is Some {
        let layer = n.tids@.subrange(place, place + 2 * m);
        crate::hnswsq::list_laws::law_lists_end_at_the_first_gap(layer);
        let k = tuple::valid_prefix(layer);
        let list = diag::bottom_list(e, n, m)->0;
        assert forall|i: int| #![trigger list[i]] 0 <= i < list.len() implies list[i] == n.tids@[place
            + i] && list[i].block_number != 0xFFFF_FFFF by {
            assert(list[i] == layer[i]);
        }
        if k < 2 * m {
            assert(layer[k] == n.tids@[place + k]);
        }
    }
}

/// A new element keeps what it came with and has the neighbors found; each of
/// them, at each layer, has it as its neighbor where it had room for one more, and
/// every other array of the graph stays as it was.
pub proof fn law_new_element_is_linked_both_ways(
    before: Graph,
    entry_point: Option<usize>,
    element: Element,
    dist: spec_fn(int) -> i32,
    pair: spec_fn(usize, usize) -> i32,
    m: int,
    ef_construction: int,
    grown: Graph,
    chosen: Graph,
    after: Graph,
    x: int,
    lc: int,
)
    requires
        insertion::is_inserted(
            before,
            entry_point,
            element,
            dist,
            pair,
            m,
            ef_construction,
            grown,
            chosen,
            after,
        ),
        before.elements@.len() < usize::MAX,
        0 <= x < before.elements@.len(),
        0 <= lc <= before.elements@[x].level,
    ensures
        ({
            let n = before.elements@.len() as int;
            let new = chosen.elements@[n];
            let was = before.elements@[x].neighbors@[lc];
            let now = after.elements@[x].neighbors@[lc];
            let limit = if lc == 0 {
                2 * m
            } else {
                m
            };
            let named = lc <= new.level && exists|i: int|
                0 <= i < new.neighbors@[lc].items@.len() && (#[trigger] new.neighbors@[lc].items@[i]).element
                    == x;
            &&& after.elements@.len() == n + 1
            &&& after.elements@[x].level == before.elements@[x].level
            &&& after.elements@[x].heaptid == before.elements@[x].heaptid
            &&& after.elements@[x].value == before.elements@[x].value
            &&& after.elements@[n].level == element.level
            &&& after.elements@[n].heaptid == element.heaptid
            &&& after.elements@[n].value == element.value
            &&& !named ==> now == was
            &&& named && was.items@.len() < limit ==> now.items@.len() == was.items@.len() + 1
                && now.items@.last().element == n && now.items@.drop_last() == was.items@
        }),
{
    let n = before.elements@.len();
    assert(grown.elements@[n as int] == element);
    let _ = backlinks::law_every_neighbor_is_connected_back(
        pair,
        m,
        chosen,
        after,
        n as usize,
        x,
        lc,
    );
    assert(chosen.elements@[x] == before.elements@[x]);
    assert(backlinks::differs_in_neighbors(chosen.elements@[n as int], after.elements@[n as int]));
    if entry_point is Some {
        let found = choose|found: Seq<Vec<Candidate>>|
            {
                &&& #[trigger] neighbors::are_found(
                    grown,
                    dist,
                    pair,
                    element.level as int,
                    entry_point->0,
                    m,
                    ef_construction,
                    None,
                    false,
                    found,
                )
                &&& neighbors::are_added(
                    element,
                    chosen.elements@[n as int],
                    found,
                    found.len() as int,
                )
            };
        assert(chosen.elements@[n as int].level == element.level);
    }
}

/// An element and its neighbors go on the page at hand where it has room for what
/// must stay together, else on the next one: both of them if they fit on a page,
/// each with its four bytes of line pointer. If they do not, the neighbors come
/// first on the page after.
pub proof fn law_items_stay_together(
    room: PageRoom,
    limits: PageLimits,
    element: int,
    neighbors: int,
)
    requires
        room.wf(limits),
        limits.wf(),
        room.blkno < u32::MAX - 2,
        placement::are_items(limits, element, neighbors),
    ensures
        ({
            let p = placement::placement_of(room, limits, element, neighbors);
            let next = placement::page_for_neighbors(room, limits, element, neighbors).with_item(
                neighbors,
            );
            let together = element + 4 + neighbors + 4 <= limits.capacity;
            let need = if together {
                element + 4 + neighbors + 4
            } else {
                element + 4
            };
            &&& need <= room.free ==> p.blkno == room.blkno && p.offno == room.items + 1
            &&& need > room.free ==> p.blkno == room.blkno + 1 && p.offno == 1
            &&& together ==> p.neighbor_page == p.blkno && p.neighbor_offno == p.offno + 1
            &&& !together ==> p.neighbor_page == p.blkno + 1 && p.neighbor_offno == 1
            &&& next.blkno == p.neighbor_page
            &&& next.items == p.neighbor_offno
            &&& next.free == if !together {
                limits.capacity - neighbors - 4
            } else if need <= room.free {
                room.free - need
            } else {
                limits.capacity - need
            }
        }),
{
}

/// The elements of a graph are placed from the last one on, beginning at the first
/// block.
pub proof fn law_graph_is_placed_from_the_last_element(
    limits: PageLimits,
    sizes: ItemSizes,
    first_block: u32,
    elements: Seq<Element>,
    k: int,
)
    requires
        0 <= k < elements.len(),
    ensures
        placement::room_after(limits, sizes, first_block, elements, 0).blkno == first_block,
        placement::room_after(limits, sizes, first_block, elements, 0).items == 0,
        placement::room_after(limits, sizes, first_block, elements, 0).free == limits.capacity,
        ({
            let size = sizes.neighbors(elements[elements.len() - 1 - k].level as int);
            let room = placement::room_after(limits, sizes, first_block, elements, k);
            &&& placement::room_after(limits, sizes, first_block, elements, k + 1)
                == placement::page_for_neighbors(
                room,
                limits,
                sizes.element as int,
                size,
            ).with_item(size)
            &&& placement::element_placement(
                limits,
                sizes,
                first_block,
                elements,
                elements.len() - 1 - k,
            ) == placement::placement_of(room, limits, sizes.element as int, size)
        }),
{
}

/// The neighbors of an element of some level take six bytes for each of their
/// places behind the header, filled up to a multiple of eight.
pub proof fn law_neighbors_take_six_bytes_each(sizes: ItemSizes, level: int)
    requires
        0 <= level,
    ensures
        ({
            let bytes = sizes.neighbors_header + 6 * (level * sizes.m + 2 * sizes.m);
            bytes <= sizes.neighbors(level) < bytes + 8 && sizes.neighbors(level) % 8 == 0
        }),
{
    assert((level + 2) * sizes.m == level * sizes.m + 2 * sizes.m) by (nonlinear_arith);
    let places = (level + 2) * sizes.m;
    assert(0 <= places) by (nonlinear_arith)
        requires
            places == (level + 2) * sizes.m,
            0 <= level,
            0 <= sizes.m,
    ;
    memory::law_aligned_is_the_least_that_holds(sizes.neighbors_header + 6 * places, 0);
}

/// A row of a dump shows an element as it is stored, and its list of the lowest
/// layer where that can be read.
pub proof fn law_rows_show_the_elements(
    pages: Seq<StoredPage>,
    m: int,
    tid: ItemPointer,
    e: ElementTuple,
    row: DumpRow,
)
    requires
        diag::is_row(pages, m, tid, e, row),
    ensures
        row.tid == tid,
        row.heaptid == e.heaptid,
        row.level == e.level,
        row.neighbortid == e.neighbortid,
        row.listed is Some ==> stored::item_at(pages, e.neighbortid) is Some && stored::item_at(
            pages,
            e.neighbortid,
        )->0 is Neighbors,
        stored::item_at(pages, e.neighbortid) is Some && stored::item_at(pages, e.neighbortid)->0
            is Neighbors ==> {
            let list = diag::bottom_list(
                e,
                stored::item_at(pages, e.neighbortid)->0->Neighbors_tuple,
                m,
            );
            &&& row.listed is Some <==> list is Some
            &&& list is Some ==> row.listed->0@ == list->0
        },
{
}

/// A walk reports how many addresses can be reached: no more different ones can be,
/// and its longest list is as long as that of any of them.
pub proof fn law_reach_counts_what_is_reachable(
    pages: Seq<StoredPage>,
    m: int,
    entry: ItemPointer,
    r: Reach,
    some: Seq<ItemPointer>,
)
    requires
        diag::is_what_is_reached(pages, m, entry, r),
        some.no_duplicates(),
        forall|i: int|
            #![trigger some[i]]
            0 <= i < some.len() ==> diag::reachable(pages, m, entry, some[i]),
    ensures
        some.len() <= r.reach,
        forall|i: int|
            #![trigger some[i]]
            0 <= i < some.len() ==> diag::listed(pages, m, some[i]).len() <= r.max_list,
        (forall|t: ItemPointer| #[trigger]
            diag::reachable(pages, m, entry, t) ==> some.contains(t)) ==> r.reach == some.len(),
{
    let all = choose|all: Seq<ItemPointer>| #[trigger] diag::is_reach(pages, m, entry, all, r);
    law_longest_list_is_the_longest(pages, m, all, all.len() as int);
    assert forall|i: int| #![trigger some[i]] 0 <= i < some.len() implies all.contains(some[i])
        && diag::listed(pages, m, some[i]).len() <= r.max_list by {
        assert(all.contains(some[i]));
        let j = choose|j: int| 0 <= j < all.len() && all[j] == some[i];
        assert(diag::listed(pages, m, all[j]).len() <= r.max_list);
    }
    lemma_no_longer(some, all);
    if forall|t: ItemPointer| #[trigger]
        diag::reachable(pages, m, entry, t) ==> some.contains(t) {
        assert forall|i: int| #![trigger all[i]] 0 <= i < all.len() implies some.contains(
            all[i],
        ) by {
            assert(all.contains(all[i]));
        }
        lemma_no_longer(all, some);
    }
}

proof fn lemma_no_longer(a: Seq<ItemPointer>, b: Seq<ItemPointer>)
    requires
        a.no_duplicates(),
        forall|i: int| #![trigger a[i]] 0 <= i < a.len() ==> b.contains(a[i]),
    ensures
        a.len() <= b.len(),
{
    a.unique_seq_to_set();
    b.lemma_cardinality_of_set();
    assert(a.to_set().subset_of(b.to_set())) by {
        assert forall|t: ItemPointer| a.to_set().contains(t) implies b.to_set().contains(t) by {
            assert(a.contains(t));
            let i = choose|i: int| 0 <= i < a.len() && a[i] == t;
            assert(b.contains(a[i]));
        }
    }
    vstd::set_lib::lemma_len_subset(a.to_set(), b.to_set());
}

/// A placed element has its addresses and is otherwise as it was.
pub proof fn law_placed_elements_have_their_addresses(
    before: Element,
    p: Placement,
    after: Element,
)
    requires
        placement::is_placed(before, p, after),
    ensures
        after.blkno == p.blkno,
        after.offno == p.offno,
        after.neighbor_page == p.neighbor_page,
        after.neighbor_offno == p.neighbor_offno,
        after.level == before.level,
        after.heaptid == before.heaptid,
        after.value == before.value,
        after.neighbors == before.neighbors,
        after.deleted == before.deleted,
        after.version == before.version,
{
}

/// A sample takes in rows until it is full; from then on a row replaces the one at
/// the place drawn, if the sample has such a place.
pub proof fn law_samples_are_filled_then_replaced(
    sample: Seq<Vec<u32>>,
    size: int,
    row: Vec<u32>,
    j: int,
)
    requires
        0 <= j,
        sample.len() <= size,
    ensures
        ({
            let after = sampling::sample_with(sample, size, row, j);
            &&& sample.len() < size ==> after.drop_last() == sample && after.last() == row
            &&& sample.len() == size ==> after.len() == size && forall|i: int|
                #![trigger after[i]]
                0 <= i < size ==> after[i] == if i == j {
                    row
                } else {
                    sample[i]
                }
        }),
{
    let after = sampling::sample_with(sample, size, row, j);
    if sample.len() < size {
        assert(after.drop_last() =~= sample);
    }
}

/// Every element of a graph that is being built is on a level no higher than its
/// entry point, and there is one as soon as there is an element.
pub proof fn law_entry_point_is_the_highest(b: BuildGraph, m: int, e: int)
    requires
        b.wf(m),
        0 <= e < b.graph.elements@.len(),
    ensures
        b.entry_point is Some,
        b.entry_point->0 < b.graph.elements@.len(),
        b.graph.elements@[e].level <= b.graph.elements@[b.entry_point->0 as int].level,
{
}

/// The scan modes are told by their numbers.
pub proof fn law_scan_modes_have_their_numbers(a: IterativeScanMode, b: IterativeScanMode)
    ensures
        a.number() == b.number() ==> a == b,
        (IterativeScanMode::Off).number() == 0,
        (IterativeScanMode::Relaxed).number() == 1,
        (IterativeScanMode::Strict).number() == 2,
{
}

/// An element can be loaded exactly if it is there, is not deleted, and its list is
/// there.
pub proof fn law_elements_with_lists_can_be_loaded(pages: Seq<StoredPage>, tid: ItemPointer)
    ensures
        diag::load_error(pages, tid) == Some(WalkError::Deleted) <==> stored::item_at(pages, tid)
            is Some && stored::item_at(pages, tid)->0 is Element && stored::item_at(
            pages,
            tid,
        )->0->Element_tuple.deleted != 0,
        diag::load_error(pages, tid) is None <==> stored_complete::has_element(pages, tid) && {
            let list = stored::item_at(
                pages,
                stored_complete::element_at(pages, tid).neighbortid,
            );
            list is Some && list->0 is Neighbors
        },
        diag::load_error(pages, tid) is None || diag::load_error(pages, tid) == Some(
            WalkError::Deleted,
        ) || diag::load_error(pages, tid) == Some(WalkError::Missing),
{
}

/// A diagnosis counts every element of every page under its kind, and tells what
/// can be reached from the entry point.
pub proof fn law_diagnosis_counts_all_elements(graph: StoredGraph, d: Diagnosis)
    requires
        diag::is_diagnosis(graph, d),
    ensures
        ({
            let n = graph.pages@.len() as int;
            &&& d.counts.total == diag::count_pages(graph.pages@, |i: PageItem| i is Element, n)
            &&& d.counts.live == diag::count_pages(
                graph.pages@,
                |i: PageItem|
                    i is Element && i->Element_tuple.deleted == 0
                        && i->Element_tuple.heaptid.block_number != 0xFFFF_FFFF,
                n,
            )
            &&& d.counts.deleted == diag::count_pages(
                graph.pages@,
                |i: PageItem| i is Element && i->Element_tuple.deleted != 0,
                n,
            )
            &&& d.counts.invalid == diag::count_pages(
                graph.pages@,
                |i: PageItem|
                    i is Element && i->Element_tuple.deleted == 0
                        && i->Element_tuple.heaptid.block_number == 0xFFFF_FFFF,
                n,
            )
            &&& d.entry == graph.entry
            &&& graph.pages@.len() > 0 ==> d.head == graph.pages@[0].blkno
            &&& graph.pages@.len() == 0 ==> d.head == 0xFFFF_FFFF
            &&& graph.entry is None ==> d.reach.reach == 0
        }),
{
    assert((|i: PageItem| diag::is_element(i)) =~= (|i: PageItem| i is Element));
    assert((|i: PageItem| diag::is_live(i)) =~= (|i: PageItem|
        i is Element && i->Element_tuple.deleted == 0 && i->Element_tuple.heaptid.block_number
            != 0xFFFF_FFFF));
    assert((|i: PageItem| diag::is_deleted(i)) =~= (|i: PageItem|
        i is Element && i->Element_tuple.deleted != 0));
    assert((|i: PageItem| diag::is_rowless(i)) =~= (|i: PageItem|
        i is Element && i->Element_tuple.deleted == 0 && i->Element_tuple.heaptid.block_number
            == 0xFFFF_FFFF));
}

} // verus!
