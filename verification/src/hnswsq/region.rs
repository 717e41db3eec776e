//! Vacuum of a whole stored graph: the rows that are gone are removed, the
//! repaired graph is confirmed, and the elements without a row are marked as
//! deleted.
use crate::hnswsq::meta;
use crate::hnswsq::meta::{EntryUpdate, MetaPage};
use crate::hnswsq::repair;
use crate::hnswsq::repair::{Marking, NotRepaired};
use crate::hnswsq::repair_element;
use crate::hnswsq::stored;
use crate::hnswsq::stored::{StoredGraph, StoredPage};
use crate::hnswsq::stored_neighbors;
use crate::hnswsq::stored_neighbors::StoredDescent;
use crate::hnswsq::tuple::{ElementTuple, NeighborTuple};
use crate::hnswsq::types;
use crate::hnswsq::types::Visited;
use crate::hnswsq::vacuum;
use crate::hnswsq::vacuum::{PageItem, Point, VacuumState, VacuumView};
use crate::util::item_pointer;
use crate::util::item_pointer::ItemPointer;
use vstd::prelude::*;

verus! {

/// Whether an item is an element that was not deleted and has no row.
pub open spec fn is_doomed(item: PageItem) -> bool {
    item is Element && item->Element_tuple.deleted == 0 && !vacuum::has_block(
        item->Element_tuple.heaptid,
    )
}

/// The page and the item of an element's neighbor list.
pub open spec fn list_place(pages: Seq<StoredPage>, e: ElementTuple) -> (int, int) {
    (stored::page_of(pages, e.neighbortid.block_number, 0), e.neighbortid.offset - 1)
}

/// The neighbor list of an element.
pub open spec fn list_of(pages: Seq<StoredPage>, e: ElementTuple) -> NeighborTuple {
    stored::item_at(pages, e.neighbortid)->0->Neighbors_tuple
}

/// Whether item `i` of page `p` is an element that was not deleted.
pub open spec fn is_kept(pages: Seq<StoredPage>, p: int, i: int) -> bool {
    stored::is_place(pages, p, i) && pages[p].items@[i] is Element
        && pages[p].items@[i]->Element_tuple.deleted == 0
}

/// The element that item `i` of page `p` is.
pub open spec fn element(pages: Seq<StoredPage>, p: int, i: int) -> ElementTuple {
    pages[p].items@[i]->Element_tuple
}

/// Whether every element that was not deleted has a neighbor list, and no two
/// share one.
pub open spec fn is_whole(pages: Seq<StoredPage>) -> bool {
    &&& forall|p: int, i: int| #[trigger]
        is_kept(pages, p, i) ==> {
            let list = stored::item_at(pages, element(pages, p, i).neighbortid);
            list is Some && list->0 is Neighbors
        }
    &&& forall|p: int, i: int, q: int, j: int| #[trigger]
        is_kept(pages, p, i) && #[trigger] is_kept(pages, q, j) && list_place(
            pages,
            element(pages, p, i),
        ) == list_place(pages, element(pages, q, j)) ==> p == q && i == j
}

/// Whether place `(p, i)` comes before place `(q, j)`.
pub open spec fn precedes(p: int, i: int, q: int, j: int) -> bool {
    p < q || (p == q && i < j)
}

/// What a vacuum knows after the first `k` pages.
pub open spec fn after_pages(
    v: VacuumView,
    pages: Seq<StoredPage>,
    dead: Seq<Vec<bool>>,
    k: int,
) -> VacuumView
    decreases k,
{
    if k <= 0 {
        v
    } else {
        vacuum::after_items(
            after_pages(v, pages, dead, k - 1),
            pages[k - 1].blkno,
            pages[k - 1].items@,
            dead[k - 1]@,
            pages[k - 1].items@.len() as int,
        )
    }
}

/// Whether the items of a page lost the rows that are dead, and nothing else.
pub open spec fn is_without_dead_rows(
    before: Seq<PageItem>,
    dead: Seq<bool>,
    after: Seq<PageItem>,
) -> bool {
    &&& after.len() == before.len()
    &&& forall|i: int|
        #![trigger after[i]]
        0 <= i < before.len() ==> vacuum::item_without_dead_row(before[i], dead[i], after[i])
}

/// How many items the first `k` pages have.
pub open spec fn items_of(pages: Seq<StoredPage>, k: int) -> int
    decreases k,
{
    if k <= 0 {
        0
    } else {
        items_of(pages, k - 1) + pages[k - 1].items@.len()
    }
}

proof fn lemma_items_of(pages: Seq<StoredPage>, j: int, k: int)
    requires
        0 <= j <= k,
    ensures
        items_of(pages, j) <= items_of(pages, k),
    decreases k,
{
    if j < k {
        lemma_items_of(pages, j, k - 1);
    }
}

proof fn lemma_counts(v: VacuumView, blkno: u32, items: Seq<PageItem>, dead: Seq<bool>, k: int)
    requires
        0 <= k <= items.len(),
    ensures
        vacuum::after_items(v, blkno, items, dead, k).removed <= v.removed + k,
        vacuum::after_items(v, blkno, items, dead, k).live <= v.live + k,
    decreases k,
{
    if k > 0 {
        lemma_counts(v, blkno, items, dead, k - 1);
    }
}

/// Remove the rows that are dead: `dead[p][i]` says whether the row of item `i`
/// of page `p` is.
pub fn remove_heap_tids(graph: &mut StoredGraph, state: &mut VacuumState, dead: &Vec<Vec<bool>>)
    requires
        dead@.len() == old(graph).pages@.len(),
        forall|p: int|
            #![trigger old(graph).pages@[p]]
            0 <= p < old(graph).pages@.len() ==> dead@[p]@.len() == old(
                graph,
            ).pages@[p].items@.len() < 0x1_0000,
        old(state).tuples_removed + items_of(old(graph).pages@, old(graph).pages@.len() as int)
            <= u64::MAX,
        old(state).num_index_tuples + items_of(
            old(graph).pages@,
            old(graph).pages@.len() as int,
        ) <= u64::MAX,
    ensures
        final(graph).m == old(graph).m,
        final(graph).entry == old(graph).entry,
        stored::same_shape(old(graph).pages@, final(graph).pages@),
        forall|p: int|
            #![trigger final(graph).pages@[p]]
            0 <= p < final(graph).pages@.len() ==> is_without_dead_rows(
                old(graph).pages@[p].items@,
                dead@[p]@,
                final(graph).pages@[p].items@,
            ),
        final(state)@ == after_pages(
            old(state)@,
            old(graph).pages@,
            dead@,
            old(graph).pages@.len() as int,
        ),
        final(state).insert_page == old(state).insert_page,
{
    let ghost before = graph.pages@;
    let n: usize = graph.pages.len();
    let mut p: usize = 0;
    while p < n
        invariant
            p <= n,
            n == before.len(),
            before == old(graph).pages@,
            dead@.len() == n,
            forall|q: int|
                #![trigger before[q]]
                0 <= q < n ==> dead@[q]@.len() == before[q].items@.len() < 0x1_0000,
            graph.m == old(graph).m,
            graph.entry == old(graph).entry,
            stored::same_shape(before, graph.pages@),
            forall|q: int|
                #![trigger graph.pages@[q]]
                p <= q < n ==> graph.pages@[q] == before[q],
            forall|q: int|
                #![trigger graph.pages@[q]]
                0 <= q < p ==> is_without_dead_rows(
                    before[q].items@,
                    dead@[q]@,
                    graph.pages@[q].items@,
                ),
            state@ == after_pages(old(state)@, before, dead@, p as int),
            state.insert_page == old(state).insert_page,
            state.tuples_removed <= old(state).tuples_removed + items_of(before, p as int),
            state.num_index_tuples <= old(state).num_index_tuples + items_of(before, p as int),
            old(state).tuples_removed + items_of(before, n as int) <= u64::MAX,
            old(state).num_index_tuples + items_of(before, n as int) <= u64::MAX,
        decreases n - p,
    {
        let ghost pages = graph.pages@;
        proof {
            lemma_items_of(before, p + 1, n as int);
            assert(pages[p as int] == before[p as int]);
            lemma_counts(
                state@,
                before[p as int].blkno,
                before[p as int].items@,
                dead@[p as int]@,
                before[p as int].items@.len() as int,
            );
        }
        let blkno: u32 = graph.pages[p].blkno;
        let _ = vacuum::remove_page_heap_tids(state, blkno, &mut graph.pages[p].items, &dead[p]);
        p = p + 1;
    }
}

/// The elements of the first `k` pages that keep their row, in order.
pub open spec fn live_points(pages: Seq<StoredPage>, dead: Seq<Vec<bool>>, k: int) -> Seq<Point>
    decreases k,
{
    if k <= 0 {
        Seq::empty()
    } else {
        live_points(pages, dead, k - 1) + vacuum::live_points(
            pages[k - 1].blkno,
            pages[k - 1].items@,
            dead[k - 1]@,
            pages[k - 1].items@.len() as int,
        )
    }
}

/// Whether `key` is that of an element of the first `k` pages that has no row,
/// or whose row is dead.
pub open spec fn is_key_of_rowless(
    pages: Seq<StoredPage>,
    dead: Seq<Vec<bool>>,
    k: int,
    key: u64,
) -> bool {
    exists|p: int, i: int|
        0 <= p < k && stored::is_place(pages, p, i) && #[trigger] vacuum::is_to_be_deleted(
            pages[p].items@[i],
            dead[p]@[i],
        ) && key == address_key(pages, p, i)
}

/// The key of item `i` of page `p`.
pub open spec fn address_key(pages: Seq<StoredPage>, p: int, i: int) -> int {
    types::tid_key(ItemPointer { block_number: pages[p].blkno, offset: (i + 1) as u16 })
}

/// A vacuum finds what it has to: of the elements that keep their row, the
/// first of the highest level and the first of the highest level among the
/// others, and how many there are; and the keys of all others that were not
/// deleted before.
pub proof fn law_vacuum_finds_what_is_to_be_deleted(
    v: VacuumView,
    pages: Seq<StoredPage>,
    dead: Seq<Vec<bool>>,
    k: int,
)
    requires
        0 <= k <= pages.len(),
        dead.len() == pages.len(),
        forall|p: int|
            #![trigger pages[p]]
            0 <= p < pages.len() ==> dead[p]@.len() == pages[p].items@.len() < 0x1_0000,
        v.highest is None,
        v.fallback is None,
    ensures
        ({
            let after = after_pages(v, pages, dead, k);
            let all = live_points(pages, dead, k);
            &&& after.highest == vacuum::highest_of(all)
            &&& after.fallback == vacuum::fallback_of(all)
            &&& after.live == v.live + all.len()
            &&& forall|key: u64| #[trigger]
                after.deleting.contains(key) <==> v.deleting.contains(key) || is_key_of_rowless(
                    pages,
                    dead,
                    k,
                    key,
                )
        }),
    decreases k,
{
    if k > 0 {
        law_vacuum_finds_what_is_to_be_deleted(v, pages, dead, k - 1);
        let before = after_pages(v, pages, dead, k - 1);
        let after = after_pages(v, pages, dead, k);
        let page = pages[k - 1];
        let n = page.items@.len() as int;
        vacuum::law_page_continues_the_walk(
            before,
            live_points(pages, dead, k - 1),
            page.blkno,
            page.items@,
            dead[k - 1]@,
            n,
        );
        assert forall|key: u64| #[trigger] after.deleting.contains(key) <==> v.deleting.contains(
            key,
        ) || is_key_of_rowless(pages, dead, k, key) by {
            if after.deleting.contains(key) {
                if before.deleting.contains(key) {
                    if is_key_of_rowless(pages, dead, k - 1, key) {
                        let (p, i) = choose|p: int, i: int|
                            0 <= p < k - 1 && stored::is_place(pages, p, i)
                                && #[trigger] vacuum::is_to_be_deleted(
                                pages[p].items@[i],
                                dead[p]@[i],
                            ) && key == address_key(pages, p, i);
                        assert(vacuum::is_to_be_deleted(pages[p].items@[i], dead[p]@[i]));
                    }
                } else {
                    let i = choose|i: int|
                        0 <= i < n && #[trigger] vacuum::is_to_be_deleted(
                            page.items@[i],
                            dead[k - 1]@[i],
                        ) && key == types::tid_key(
                            (ItemPointer { block_number: page.blkno, offset: (i + 1) as u16 }),
                        );
                    assert(vacuum::is_to_be_deleted(
                        pages[k - 1].items@[i],
                        dead[k - 1]@[i],
                    ));
                }
            }
            if is_key_of_rowless(pages, dead, k, key) {
                let (p, i) = choose|p: int, i: int|
                    0 <= p < k && stored::is_place(pages, p, i)
                        && #[trigger] vacuum::is_to_be_deleted(pages[p].items@[i], dead[p]@[i])
                        && key == address_key(pages, p, i);
                if p < k - 1 {
                    assert(is_key_of_rowless(pages, dead, k - 1, key));
                } else {
                    assert(vacuum::is_to_be_deleted(page.items@[i], dead[k - 1]@[i]));
                }
            }
        }
    }
}

/// Whether no two pages have the same block.
pub open spec fn has_distinct_blocks(pages: Seq<StoredPage>) -> bool {
    forall|p: int, q: int|
        #![trigger pages[p], pages[q]]
        0 <= p < q < pages.len() ==> pages[p].blkno != pages[q].blkno
}

/// Of the elements that still have a row once the dead rows were removed, none is
/// to be deleted.
pub proof fn law_remaining_rows_are_kept(
    v: VacuumView,
    pages: Seq<StoredPage>,
    dead: Seq<Vec<bool>>,
    after: Seq<StoredPage>,
)
    requires
        v.deleting == Set::<u64>::empty(),
        v.highest is None,
        v.fallback is None,
        dead.len() == pages.len(),
        forall|p: int|
            #![trigger pages[p]]
            0 <= p < pages.len() ==> dead[p]@.len() == pages[p].items@.len() < 0x1_0000,
        has_distinct_blocks(pages),
        stored::same_shape(pages, after),
        forall|p: int|
            #![trigger after[p]]
            0 <= p < after.len() ==> is_without_dead_rows(
                pages[p].items@,
                dead[p]@,
                after[p].items@,
            ),
    ensures
        repair_element::keeps_rows(
            after,
            after_pages(v, pages, dead, pages.len() as int).deleting,
        ),
{
    let n = pages.len() as int;
    let deleting = after_pages(v, pages, dead, n).deleting;
    law_vacuum_finds_what_is_to_be_deleted(v, pages, dead, n);
    assert forall|tid: ItemPointer|
        #![trigger stored_neighbors::entry_tuple(after, tid)]
        stored_neighbors::entry_tuple(after, tid) is Ok && vacuum::has_block(
            stored_neighbors::entry_tuple(after, tid)->Ok_0.heaptid,
        ) implies !deleting.contains(types::tid_key(tid) as u64) by {
        let key = types::tid_key(tid) as u64;
        if deleting.contains(key) {
            assert(is_key_of_rowless(pages, dead, n, key));
            let (q, j) = choose|q: int, j: int|
                0 <= q < n && stored::is_place(pages, q, j) && #[trigger] vacuum::is_to_be_deleted(
                    pages[q].items@[j],
                    dead[q]@[j],
                ) && key == address_key(pages, q, j);
            let at = ItemPointer { block_number: pages[q].blkno, offset: (j + 1) as u16 };
            types::law_tid_key_is_injective(tid, at);
            let p = stored::page_of(after, tid.block_number, 0);
            stored::lemma_page_of(after, tid.block_number, 0);
            assert(p == q) by {
                assert(after[p].blkno == pages[p].blkno);
                assert(after[q].blkno == pages[q].blkno);
                if p < q {
                    assert(pages[p].blkno != pages[q].blkno);
                } else if q < p {
                    assert(pages[q].blkno != pages[p].blkno);
                }
            }
            assert(is_without_dead_rows(pages[p].items@, dead[p]@, after[p].items@));
            assert(vacuum::item_without_dead_row(
                pages[p].items@[j],
                dead[p]@[j],
                after[p].items@[j],
            ));
            assert(false);
        }
    }
}

/// A repair of an element removes no row and gives none back: of those that have
/// a row, none is to be deleted afterwards either.
pub proof fn law_repair_keeps_rows(
    before: Seq<StoredPage>,
    t: ElementTuple,
    desc: StoredDescent,
    entry_point: Option<ItemPointer>,
    after: Seq<StoredPage>,
    deleting: Set<u64>,
)
    requires
        repair_element::has_list(before, t),
        repair_element::is_repaired(before, t, desc, entry_point, after),
        repair_element::keeps_rows(before, deleting),
    ensures
        repair_element::keeps_rows(after, deleting),
{
    assert forall|tid: ItemPointer|
        #![trigger stored_neighbors::entry_tuple(after, tid)]
        stored_neighbors::entry_tuple(after, tid) is Ok && vacuum::has_block(
            stored_neighbors::entry_tuple(after, tid)->Ok_0.heaptid,
        ) implies !deleting.contains(types::tid_key(tid) as u64) by {
        stored::lemma_same_places(before, after, tid.block_number, 0);
        let q = stored::page_of(after, tid.block_number, 0);
        let j = tid.offset - 1;
        assert(stored::is_place(before, q, j));
        assert(after[q].items@[j] == before[q].items@[j]);
        assert(stored_neighbors::entry_tuple(before, tid) == stored_neighbors::entry_tuple(
            after,
            tid,
        ));
    }
}

/// Confirm that no live element's list refers to an element that is to be
/// deleted.
pub fn confirm_repaired(graph: &StoredGraph, deleting: &Visited) -> (r: Result<(), NotRepaired>)
    requires
        is_whole(graph.pages@),
    ensures
        r is Ok <==> is_repaired(graph.pages@, deleting@),
{
    let mut p: usize = 0;
    while p < graph.pages.len()
        invariant
            p <= graph.pages@.len(),
            is_whole(graph.pages@),
            forall|q: int, j: int|
                q < p && #[trigger] is_live_at(graph.pages@, q, j) ==> !repair::refers_to(
                    list_of(graph.pages@, element(graph.pages@, q, j)).tids@,
                    deleting@,
                ),
        decreases graph.pages@.len() - p,
    {
        let mut i: usize = 0;
        while i < graph.pages[p].items.len()
            invariant
                p < graph.pages@.len(),
                i <= graph.pages@[p as int].items@.len(),
                is_whole(graph.pages@),
                forall|q: int, j: int|
                    precedes(q, j, p as int, i as int) && #[trigger] is_live_at(graph.pages@, q, j)
                        ==> !repair::refers_to(
                        list_of(graph.pages@, element(graph.pages@, q, j)).tids@,
                        deleting@,
                    ),
            decreases graph.pages@[p as int].items@.len() - i,
        {
            match &graph.pages[p].items[i] {
                PageItem::Element { tuple } => {
                    if tuple.deleted == 0 && tuple.heaptid.block_number
                        != item_pointer::INVALID_BLOCK_NUMBER {
                        proof {
                            assert(is_kept(graph.pages@, p as int, i as int));
                            assert(is_live_at(graph.pages@, p as int, i as int));
                        }
                        match graph.find_item(tuple.neighbortid) {
                            Some(PageItem::Neighbors { tuple: list }) => {
                                if repair::refers_to_deleted(list, deleting) {
                                    return Err(NotRepaired);
                                }
                            },
                            _ => {},
                        }
                    }
                },
                PageItem::Neighbors { .. } => {},
            }
            i = i + 1;
        }
        p = p + 1;
    }
    Ok(())
}

/// Whether item `i` of page `p` is an element with a row.
pub open spec fn is_live_at(pages: Seq<StoredPage>, p: int, i: int) -> bool {
    stored::is_place(pages, p, i) && repair::is_live(pages[p].items@[i])
}

/// Whether no live element's list refers to one of those to be deleted.
pub open spec fn is_repaired(pages: Seq<StoredPage>, deleting: Set<u64>) -> bool {
    forall|p: int, i: int| #[trigger]
        is_live_at(pages, p, i) ==> !repair::refers_to(
            list_of(pages, element(pages, p, i)).tids@,
            deleting,
        )
}

/// Whether the list of every live element needs no repair, or is what a repair
/// has found.
pub open spec fn is_dealt_with(pages: Seq<StoredPage>, deleting: Set<u64>) -> bool {
    forall|p: int, i: int| #[trigger]
        is_live_at(pages, p, i) ==> {
            let list = list_of(pages, element(pages, p, i));
            !repair::wants_repair(list, deleting) || repair_element::is_from_repair(
                list.tids@,
                deleting,
            )
        }
}

/// A graph is repaired once the list of every live element needs no repair or is
/// what a repair has found: it is then confirmed, and what is to be deleted can
/// be marked.
pub proof fn law_repaired_graph_is_confirmed(pages: Seq<StoredPage>, deleting: Set<u64>)
    requires
        is_dealt_with(pages, deleting),
    ensures
        is_repaired(pages, deleting),
{
    assert forall|p: int, i: int| #[trigger] is_live_at(pages, p, i) implies !repair::refers_to(
        list_of(pages, element(pages, p, i)).tids@,
        deleting,
    ) by {
        repair_element::law_list_needs_no_repair(
            list_of(pages, element(pages, p, i)),
            deleting,
        );
    }
}

/// Whether the element at `(a, b)` is to be deleted and `(q, j)` is the place of
/// its neighbor list.
pub open spec fn owns_list(pages: Seq<StoredPage>, a: int, b: int, q: int, j: int) -> bool {
    stored::is_place(pages, a, b) && is_doomed(pages[a].items@[b]) && list_place(
        pages,
        element(pages, a, b),
    ) == (q, j)
}

/// Whether the neighbor list at `(q, j)` belongs to an element before `(p, i)`
/// that is to be deleted.
pub open spec fn is_owned_before(
    pages: Seq<StoredPage>,
    q: int,
    j: int,
    p: int,
    i: int,
) -> bool {
    exists|a: int, b: int| precedes(a, b, p, i) && #[trigger] owns_list(pages, a, b, q, j)
}

/// What becomes of the item at `(q, j)` once the elements before `(p, i)` were
/// marked: an element among them that is to be deleted is marked, its neighbor
/// list is cleared, and any other item stays as it is.
pub open spec fn is_marked_item(
    pages: Seq<StoredPage>,
    q: int,
    j: int,
    p: int,
    i: int,
    after: PageItem,
) -> bool {
    let before = pages[q].items@[j];
    match before {
        PageItem::Element { tuple } => if precedes(q, j, p, i) && is_doomed(before) {
            after is Element && repair::is_marked(tuple, after->Element_tuple)
        } else {
            after == before
        },
        PageItem::Neighbors { tuple } => if is_owned_before(pages, q, j, p, i) {
            after is Neighbors && exists|a: int, b: int|
                {
                    &&& #[trigger] owns_list(pages, a, b, q, j)
                    &&& repair::is_cleared(
                        tuple,
                        repair::next_version(element(pages, a, b).version),
                        after->Neighbors_tuple,
                    )
                }
        } else {
            after == before
        },
    }
}

/// Whether `after` is `pages` with the elements before `(p, i)` marked.
pub open spec fn are_marked(
    pages: Seq<StoredPage>,
    p: int,
    i: int,
    after: Seq<StoredPage>,
) -> bool {
    &&& stored::same_shape(pages, after)
    &&& forall|q: int, j: int|
        #![trigger after[q].items@[j]]
        stored::is_place(pages, q, j) ==> is_marked_item(pages, q, j, p, i, after[q].items@[j])
}

/// Whether an item is an element whose place is free, or will be.
pub open spec fn is_free(item: PageItem) -> bool {
    item is Element && (item->Element_tuple.deleted != 0 || is_doomed(item))
}

/// Whether a page has a place that is free, or will be, among its first `k`.
pub open spec fn has_free(items: Seq<PageItem>, k: int) -> bool {
    exists|i: int| 0 <= i < k && #[trigger] is_free(items[i])
}

/// The block of the first page that has a free place, among the first `k`.
pub open spec fn first_free(pages: Seq<StoredPage>, k: int) -> u32
    decreases k,
{
    if k <= 0 {
        item_pointer::INVALID_BLOCK_NUMBER
    } else {
        let before = first_free(pages, k - 1);
        if before == item_pointer::INVALID_BLOCK_NUMBER && has_free(
            pages[k - 1].items@,
            pages[k - 1].items@.len() as int,
        ) {
            pages[k - 1].blkno
        } else {
            before
        }
    }
}

/// Put `item` at a place, and get back what was there.
fn swap_item(pages: &mut Vec<StoredPage>, p: usize, i: usize, item: &mut PageItem)
    requires
        stored::is_place(old(pages)@, p as int, i as int),
    ensures
        stored::same_shape(old(pages)@, final(pages)@),
        final(pages)@[p as int].items@[i as int] == *old(item),
        *final(item) == old(pages)@[p as int].items@[i as int],
        forall|q: int, j: int|
            #![trigger final(pages)@[q].items@[j]]
            stored::is_place(old(pages)@, q, j) && !(q == p && j == i)
                ==> final(pages)@[q].items@[j] == old(pages)@[q].items@[j],
{
    std::mem::swap(&mut pages[p].items[i], item);
}

/// Mark the element at a place, together with its neighbors.
fn mark_at(graph: &mut StoredGraph, state: &mut VacuumState, p: usize, i: usize, Ghost(pages): Ghost<
    Seq<StoredPage>,
>)
    requires
        is_whole(pages),
        are_marked(pages, p as int, i as int, old(graph).pages@),
        stored::is_place(pages, p as int, i as int),
        is_doomed(pages[p as int].items@[i as int]),
    ensures
        are_marked(pages, p as int, i + 1, final(graph).pages@),
        final(graph).m == old(graph).m,
        final(graph).entry == old(graph).entry,
        final(state)@ == old(state)@,
        final(state).insert_page == if old(state).insert_page
            == item_pointer::INVALID_BLOCK_NUMBER {
            pages[p as int].blkno
        } else {
            old(state).insert_page
        },
{
    let ghost g0 = graph.pages@;
    let ghost e0 = element(pages, p as int, i as int);
    let ghost place = list_place(pages, e0);
    proof {
        assert(is_kept(pages, p as int, i as int));
        assert(g0[p as int].items@[i as int] == pages[p as int].items@[i as int]);
        stored::lemma_same_places(pages, g0, e0.neighbortid.block_number, 0);
        assert(pages[place.0].items@[place.1] is Neighbors);
        assert(!is_owned_before(pages, place.0, place.1, p as int, i as int)) by {
            if is_owned_before(pages, place.0, place.1, p as int, i as int) {
                let (a, b) = choose|a: int, b: int|
                    precedes(a, b, p as int, i as int) && #[trigger] owns_list(
                        pages,
                        a,
                        b,
                        place.0,
                        place.1,
                    );
                assert(is_kept(pages, a, b));
            }
        }
        assert(g0[place.0].items@[place.1] == pages[place.0].items@[place.1]);
    }
    let tid: ItemPointer = match &graph.pages[p].items[i] {
        PageItem::Element { tuple } => tuple.neighbortid,
        PageItem::Neighbors { .. } => ItemPointer::new_invalid(),
    };
    let blkno: u32 = graph.pages[p].blkno;
    match graph.find_place(tid) {
        Some((np, ni)) => {
            let mut list: PageItem = PageItem::Neighbors {
                tuple: NeighborTuple { version: 0, tids: Vec::new() },
            };
            let mut item: PageItem = PageItem::Neighbors {
                tuple: NeighborTuple { version: 0, tids: Vec::new() },
            };
            swap_item(&mut graph.pages, np, ni, &mut list);
            let ghost g1 = graph.pages@;
            swap_item(&mut graph.pages, p, i, &mut item);
            let ghost g2 = graph.pages@;
            assert(item == pages[p as int].items@[i as int]);
            match (&mut item, &mut list) {
                (PageItem::Element { tuple }, PageItem::Neighbors { tuple: neighbors }) => {
                    let marking: Marking = repair::mark_element(state, blkno, tuple, neighbors);
                },
                _ => {},
            }
            let ghost marked = item;
            let ghost cleared = list;
            swap_item(&mut graph.pages, p, i, &mut item);
            let ghost g3 = graph.pages@;
            swap_item(&mut graph.pages, np, ni, &mut list);
            proof {
                let g4 = graph.pages@;
                assert(owns_list(pages, p as int, i as int, place.0, place.1));
                assert forall|q: int, j: int|
                    #![trigger g4[q].items@[j]]
                    stored::is_place(pages, q, j) implies is_marked_item(
                    pages,
                    q,
                    j,
                    p as int,
                    i + 1,
                    g4[q].items@[j],
                ) by {
                    assert(is_marked_item(pages, q, j, p as int, i as int, g0[q].items@[j]));
                    if q == place.0 && j == place.1 {
                        assert(g4[q].items@[j] == cleared);
                        assert(is_owned_before(pages, q, j, p as int, i + 1));
                    } else if q == p && j == i {
                        assert(g3[q].items@[j] == marked);
                        assert(g4[q].items@[j] == marked);
                    } else {
                        assert(g1[q].items@[j] == g0[q].items@[j]);
                        assert(g2[q].items@[j] == g0[q].items@[j]);
                        assert(g3[q].items@[j] == g0[q].items@[j]);
                        assert(g4[q].items@[j] == g0[q].items@[j]);
                        if pages[q].items@[j] is Neighbors {
                            assert(is_owned_before(pages, q, j, p as int, i + 1)
                                == is_owned_before(pages, q, j, p as int, i as int)) by {
                                lemma_owned_step(pages, q, j, p as int, i as int);
                            }
                        }
                    }
                }
            }
        },
        None => {},
    }
}

proof fn lemma_owned_step(pages: Seq<StoredPage>, q: int, j: int, p: int, i: int)
    requires
        stored::is_place(pages, p, i),
        !owns_list(pages, p, i, q, j),
    ensures
        is_owned_before(pages, q, j, p, i + 1) == is_owned_before(pages, q, j, p, i),
{
    if is_owned_before(pages, q, j, p, i + 1) {
        let (a, b) = choose|a: int, b: int|
            precedes(a, b, p, i + 1) && #[trigger] owns_list(pages, a, b, q, j);
        assert(precedes(a, b, p, i));
        assert(is_owned_before(pages, q, j, p, i));
    }
    if is_owned_before(pages, q, j, p, i) {
        let (a, b) = choose|a: int, b: int|
            precedes(a, b, p, i) && #[trigger] owns_list(pages, a, b, q, j);
        assert(precedes(a, b, p, i + 1));
        assert(is_owned_before(pages, q, j, p, i + 1));
    }
}

/// The end of a page is the start of the next one.
proof fn lemma_page_end(pages: Seq<StoredPage>, p: int, after: Seq<StoredPage>)
    requires
        0 <= p < pages.len(),
        are_marked(pages, p, pages[p].items@.len() as int, after),
    ensures
        are_marked(pages, p + 1, 0, after),
{
    let n = pages[p].items@.len() as int;
    assert forall|q: int, j: int|
        #![trigger after[q].items@[j]]
        stored::is_place(pages, q, j) implies is_marked_item(
        pages,
        q,
        j,
        p + 1,
        0,
        after[q].items@[j],
    ) by {
        assert(is_marked_item(pages, q, j, p, n, after[q].items@[j]));
        if is_owned_before(pages, q, j, p + 1, 0) {
            let (a, b) = choose|a: int, b: int|
                precedes(a, b, p + 1, 0) && #[trigger] owns_list(pages, a, b, q, j);
            assert(precedes(a, b, p, n));
            assert(is_owned_before(pages, q, j, p, n));
        }
        if is_owned_before(pages, q, j, p, n) {
            let (a, b) = choose|a: int, b: int|
                precedes(a, b, p, n) && #[trigger] owns_list(pages, a, b, q, j);
            assert(precedes(a, b, p + 1, 0));
            assert(is_owned_before(pages, q, j, p + 1, 0));
        }
    }
}

/// Whether `after` is `pages` with all elements without a row marked as
/// deleted.
pub open spec fn all_marked(pages: Seq<StoredPage>, after: Seq<StoredPage>) -> bool {
    are_marked(pages, pages.len() as int, 0, after)
}

/// Mark the elements without a row as deleted, once no live element refers to
/// one that is to be deleted; new elements then go to the first page that has
/// a free place, where there is one.
pub fn mark_deleted(graph: &mut StoredGraph, page: &mut MetaPage, state: &mut VacuumState) -> (r:
    Result<(), NotRepaired>)
    requires
        is_whole(old(graph).pages@),
        old(state).insert_page == item_pointer::INVALID_BLOCK_NUMBER,
    ensures
        r is Ok <==> is_repaired(old(graph).pages@, old(state).deleting@),
        final(graph).m == old(graph).m,
        final(graph).entry == old(graph).entry,
        final(state)@ == old(state)@,
        r is Err ==> final(graph).pages@ == old(graph).pages@ && *final(page) == *old(page)
            && final(state).insert_page == old(state).insert_page,
        r is Ok ==> {
            let free = first_free(old(graph).pages@, old(graph).pages@.len() as int);
            &&& all_marked(old(graph).pages@, final(graph).pages@)
            &&& final(state).insert_page == free
            &&& *final(page) == if free != item_pointer::INVALID_BLOCK_NUMBER {
                MetaPage { insert_page: free, ..*old(page) }
            } else {
                *old(page)
            }
        },
{
    match confirm_repaired(graph, &state.deleting) {
        Ok(_) => {},
        Err(e) => {
            return Err(e);
        },
    }
    let ghost pages = graph.pages@;
    let n: usize = graph.pages.len();
    let mut p: usize = 0;
    assert(are_marked(pages, 0, 0, graph.pages@));
    while p < n
        invariant
            p <= n,
            n == pages.len(),
            is_whole(pages),
            are_marked(pages, p as int, 0, graph.pages@),
            graph.m == old(graph).m,
            graph.entry == old(graph).entry,
            state@ == old(state)@,
            state.insert_page == first_free(pages, p as int),
        decreases n - p,
    {
        let blkno: u32 = graph.pages[p].blkno;
        let count: usize = graph.pages[p].items.len();
        let mut i: usize = 0;
        let ghost found = state.insert_page;
        while i < count
            invariant
                p < n,
                n == pages.len(),
                i <= count,
                count == pages[p as int].items@.len(),
                blkno == pages[p as int].blkno,
                is_whole(pages),
                are_marked(pages, p as int, i as int, graph.pages@),
                graph.m == old(graph).m,
                graph.entry == old(graph).entry,
                state@ == old(state)@,
                state.insert_page == if found == item_pointer::INVALID_BLOCK_NUMBER && has_free(
                    pages[p as int].items@,
                    i as int,
                ) {
                    blkno
                } else {
                    found
                },
            decreases count - i,
        {
            let ghost items = pages[p as int].items@;
            let ghost known = has_free(items, i as int);
            assert(stored::is_place(pages, p as int, i as int));
            assert(is_marked_item(
                pages,
                p as int,
                i as int,
                p as int,
                i as int,
                graph.pages@[p as int].items@[i as int],
            ));
            let (gone, doomed) = match &graph.pages[p].items[i] {
                PageItem::Element { tuple } => (
                    tuple.deleted != 0,
                    tuple.deleted == 0 && tuple.heaptid.block_number
                        == item_pointer::INVALID_BLOCK_NUMBER,
                ),
                PageItem::Neighbors { .. } => (false, false),
            };
            proof {
                assert((gone || doomed) == is_free(items[i as int]));
                assert(has_free(items, i + 1) == (known || gone || doomed)) by {
                    if has_free(items, i + 1) {
                        let k = choose|k: int| 0 <= k < i + 1 && #[trigger] is_free(items[k]);
                        if k < i {
                            assert(is_free(items[k]));
                        }
                    }
                    if known {
                        let k = choose|k: int| 0 <= k < i && #[trigger] is_free(items[k]);
                        assert(is_free(items[k]));
                    }
                }
            }
            if doomed {
                mark_at(graph, state, p, i, Ghost(pages));
            } else {
                if gone && state.insert_page == item_pointer::INVALID_BLOCK_NUMBER {
                    state.insert_page = blkno;
                }
                proof {
                    lemma_not_doomed(pages, p as int, i as int, graph.pages@);
                }
            }
            i = i + 1;
        }
        proof {
            lemma_page_end(pages, p as int, graph.pages@);
        }
        p = p + 1;
    }
    meta::update_meta_page(page, EntryUpdate::Keep, None, state.insert_page);
    Ok(())
}

/// Passing over an item that is not to be deleted changes nothing.
proof fn lemma_not_doomed(pages: Seq<StoredPage>, p: int, i: int, after: Seq<StoredPage>)
    requires
        stored::is_place(pages, p, i),
        !is_doomed(pages[p].items@[i]),
        are_marked(pages, p, i, after),
    ensures
        are_marked(pages, p, i + 1, after),
{
    assert forall|q: int, j: int|
        #![trigger after[q].items@[j]]
        stored::is_place(pages, q, j) implies is_marked_item(
        pages,
        q,
        j,
        p,
        i + 1,
        after[q].items@[j],
    ) by {
        assert(is_marked_item(pages, q, j, p, i, after[q].items@[j]));
        lemma_owned_step(pages, q, j, p, i);
    }
}

/// A vacuum leaves no live element that refers to a deleted one: once the graph
/// was confirmed and the elements without a row were marked, every live element
/// and its list are as they were, none of the lists refers to one of the
/// deleted elements, and no element without a row is left.
pub proof fn law_no_list_refers_to_a_deleted_element(
    pages: Seq<StoredPage>,
    deleting: Set<u64>,
    after: Seq<StoredPage>,
)
    requires
        is_whole(pages),
        is_repaired(pages, deleting),
        all_marked(pages, after),
    ensures
        is_repaired(after, deleting),
        forall|p: int, i: int| #[trigger]
            is_live_at(after, p, i) <==> is_live_at(pages, p, i),
        forall|p: int, i: int| #[trigger]
            is_live_at(pages, p, i) ==> after[p].items@[i] == pages[p].items@[i] && list_of(
                after,
                element(pages, p, i),
            ) == list_of(pages, element(pages, p, i)),
        forall|p: int, i: int| #[trigger]
            stored::is_place(after, p, i) ==> !is_doomed(after[p].items@[i]),
{
    let n = pages.len() as int;
    assert forall|p: int, i: int| stored::is_place(pages, p, i) implies is_marked_item(
        pages,
        p,
        i,
        n,
        0,
        #[trigger] after[p].items@[i],
    ) by {}
    assert forall|p: int, i: int| #[trigger] is_live_at(pages, p, i) implies after[p].items@[i]
        == pages[p].items@[i] && list_of(after, element(pages, p, i)) == list_of(
        pages,
        element(pages, p, i),
    ) by {
        let e = element(pages, p, i);
        assert(is_marked_item(pages, p, i, n, 0, after[p].items@[i]));
        assert(is_kept(pages, p, i));
        stored::lemma_same_places(pages, after, e.neighbortid.block_number, 0);
        let (q, j) = list_place(pages, e);
        assert(is_marked_item(pages, q, j, n, 0, after[q].items@[j]));
        if is_owned_before(pages, q, j, n, 0) {
            let (a, b) = choose|a: int, b: int|
                precedes(a, b, n, 0) && #[trigger] owns_list(pages, a, b, q, j);
            assert(is_kept(pages, a, b));
            assert(false);
        }
    }
    assert forall|p: int, i: int| #[trigger] is_live_at(after, p, i) implies is_live_at(
        pages,
        p,
        i,
    ) by {
        assert(stored::is_place(pages, p, i));
        assert(is_marked_item(pages, p, i, n, 0, after[p].items@[i]));
    }
    assert forall|p: int, i: int| #[trigger] is_live_at(pages, p, i) implies is_live_at(
        after,
        p,
        i,
    ) by {}
    assert forall|p: int, i: int| #[trigger] stored::is_place(after, p, i) implies !is_doomed(
        after[p].items@[i],
    ) by {
        assert(stored::is_place(pages, p, i));
        assert(is_marked_item(pages, p, i, n, 0, after[p].items@[i]));
    }
}

} // verus!
