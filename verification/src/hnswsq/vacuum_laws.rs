//! What a vacuum does to the items of a graph, told by their fields.
use crate::hnswsq::meta::EntryUpdate;
use crate::hnswsq::region;
use crate::hnswsq::repair;
use crate::hnswsq::repair::EntryRepair;
use crate::hnswsq::repair_pass;
use crate::hnswsq::repair_pass::{PassView, RepairAction, RepairEvent, RepairPhase};
use crate::hnswsq::stored;
use crate::hnswsq::stored::StoredPage;
use crate::hnswsq::tuple::NeighborTuple;
use crate::hnswsq::types;
use crate::hnswsq::vacuum;
use crate::hnswsq::vacuum::{PageItem, Point, VacuumView};
use crate::util::item_pointer::ItemPointer;
use vstd::prelude::*;

verus! {

/// An item is to be deleted exactly if it is an element that is not deleted yet
/// and whose row is gone or dead. Its key is made of its block and its place.
pub proof fn law_elements_without_rows_are_deleted(
    v: VacuumView,
    pages: Seq<StoredPage>,
    dead: Seq<Vec<bool>>,
    p: int,
    i: int,
)
    requires
        v.deleting == Set::<u64>::empty(),
        v.highest is None,
        v.fallback is None,
        dead.len() == pages.len(),
        forall|q: int|
            #![trigger pages[q]]
            0 <= q < pages.len() ==> dead[q]@.len() == pages[q].items@.len() < 0x1_0000,
        region::has_distinct_blocks(pages),
        0 <= p < pages.len(),
        0 <= i < pages[p].items@.len(),
    ensures
        region::after_pages(v, pages, dead, pages.len() as int).deleting.contains(
            (pages[p].blkno * 0x1_0000 + i + 1) as u64,
        ) <==> match pages[p].items@[i] {
            PageItem::Element { tuple } => tuple.deleted == 0 && (tuple.heaptid.block_number
                == 0xFFFF_FFFF || dead[p]@[i]),
            PageItem::Neighbors { tuple } => false,
        },
{
    let n = pages.len() as int;
    region::law_vacuum_finds_what_is_to_be_deleted(v, pages, dead, n);
    assert(pages[p].items@.len() < 0x1_0000);
    let key = (pages[p].blkno * 0x1_0000 + i + 1) as u64;
    assert(key == pages[p].blkno * 0x1_0000 + i + 1);
    assert(key == region::address_key(pages, p, i));
    if vacuum::is_to_be_deleted(pages[p].items@[i], dead[p]@[i]) {
        assert(stored::is_place(pages, p, i));
        assert(region::is_key_of_rowless(pages, dead, n, key));
    }
    if region::is_key_of_rowless(pages, dead, n, key) {
        let (q, j) = choose|q: int, j: int|
            0 <= q < n && stored::is_place(pages, q, j) && #[trigger] vacuum::is_to_be_deleted(
                pages[q].items@[j],
                dead[q]@[j],
            ) && key == region::address_key(pages, q, j);
        assert(pages[q].items@.len() < 0x1_0000);
        assert(key == pages[q].blkno * 0x1_0000 + j + 1);
        assert(pages[p].blkno == pages[q].blkno && i == j);
        if p < q {
            assert(pages[p].blkno != pages[q].blkno);
        } else if q < p {
            assert(pages[q].blkno != pages[p].blkno);
        }
    }
}

/// A dead row is taken out of its element and nothing else changes; an item
/// without a dead row stays as it is.
pub proof fn law_only_dead_rows_are_removed(before: PageItem, dead: bool, after: PageItem)
    requires
        vacuum::item_without_dead_row(before, dead, after),
    ensures
        before is Neighbors || !dead || before->Element_tuple.deleted != 0 ==> after == before,
        before is Element && dead && before->Element_tuple.deleted == 0 ==> {
            let was = before->Element_tuple;
            let now = after->Element_tuple;
            &&& after is Element
            &&& now.heaptid.block_number == 0xFFFF_FFFF
            &&& now.layout == was.layout
            &&& now.level == was.level
            &&& now.deleted == 0
            &&& now.version == was.version
            &&& now.clamped == was.clamped
            &&& now.neighbortid == was.neighbortid
            &&& now.vector == was.vector
        },
{
}

/// The rows removed from a page are as many as its elements have that are dead,
/// and the elements that stay as many as have a row that is not dead.
pub proof fn law_rows_are_counted(
    v: VacuumView,
    blkno: u32,
    items: Seq<PageItem>,
    dead: Seq<bool>,
    k: int,
)
    requires
        0 <= k <= items.len(),
        dead.len() == items.len(),
    ensures
        ({
            let after = vacuum::after_items(v, blkno, items, dead, k);
            let rows = Seq::new(
                k as nat,
                |i: int|
                    items[i] is Element && items[i]->Element_tuple.deleted == 0
                        && items[i]->Element_tuple.heaptid.block_number != 0xFFFF_FFFF,
            );
            let gone = Seq::new(k as nat, |i: int| rows[i] && dead[i]);
            let left = Seq::new(k as nat, |i: int| rows[i] && !dead[i]);
            &&& after.removed == v.removed + gone.to_multiset().count(true)
            &&& after.live == v.live + left.to_multiset().count(true)
        }),
    decreases k,
{
    let row = |i: int|
        items[i] is Element && items[i]->Element_tuple.deleted == 0
            && items[i]->Element_tuple.heaptid.block_number != 0xFFFF_FFFF;
    let rows = Seq::new(k as nat, row);
    let gone = Seq::new(k as nat, |i: int| rows[i] && dead[i]);
    let left = Seq::new(k as nat, |i: int| rows[i] && !dead[i]);
    broadcast use vstd::seq_lib::group_to_multiset_ensures;

    if k <= 0 {
        assert(gone.to_multiset().len() == 0);
        assert(left.to_multiset().len() == 0);
    } else {
        law_rows_are_counted(v, blkno, items, dead, k - 1);
        let rows1 = Seq::new((k - 1) as nat, row);
        let gone1 = Seq::new((k - 1) as nat, |i: int| rows1[i] && dead[i]);
        let left1 = Seq::new((k - 1) as nat, |i: int| rows1[i] && !dead[i]);
        assert(gone =~= gone1.push(rows[k - 1] && dead[k - 1]));
        assert(left =~= left1.push(rows[k - 1] && !dead[k - 1]));
    }
}

/// The pages are walked one after the other: what two runs of pages lead to is
/// what the second leads to after the first.
pub proof fn law_pages_are_walked_in_order(
    v: VacuumView,
    a: Seq<StoredPage>,
    b: Seq<StoredPage>,
    dead_a: Seq<Vec<bool>>,
    dead_b: Seq<Vec<bool>>,
    k: int,
)
    requires
        dead_a.len() == a.len(),
        dead_b.len() == b.len(),
        0 <= k <= b.len(),
    ensures
        region::after_pages(v, a + b, dead_a + dead_b, a.len() + k) == region::after_pages(
            region::after_pages(v, a, dead_a, a.len() as int),
            b,
            dead_b,
            k,
        ),
        k == 1 ==> region::after_pages(v, b, dead_b, k) == vacuum::after_items(
            v,
            b[0].blkno,
            b[0].items@,
            dead_b[0]@,
            b[0].items@.len() as int,
        ),
    decreases k,
{
    reveal_with_fuel(region::after_pages, 2);
    if k <= 0 {
        lemma_first_pages(v, a, b, dead_a, dead_b, a.len() as int);
    } else {
        law_pages_are_walked_in_order(v, a, b, dead_a, dead_b, k - 1);
        assert((a + b)[a.len() + k - 1] == b[k - 1]);
        assert((dead_a + dead_b)[a.len() + k - 1] == dead_b[k - 1]);
    }
}

proof fn lemma_first_pages(
    v: VacuumView,
    a: Seq<StoredPage>,
    b: Seq<StoredPage>,
    dead_a: Seq<Vec<bool>>,
    dead_b: Seq<Vec<bool>>,
    k: int,
)
    requires
        dead_a.len() == a.len(),
        0 <= k <= a.len(),
    ensures
        region::after_pages(v, a + b, dead_a + dead_b, k) == region::after_pages(v, a, dead_a, k),
    decreases k,
{
    if k > 0 {
        lemma_first_pages(v, a, b, dead_a, dead_b, k - 1);
        assert((a + b)[k - 1] == a[k - 1]);
        assert((dead_a + dead_b)[k - 1] == dead_a[k - 1]);
    }
}

/// A graph is confirmed exactly if no list of a live element names one that is to
/// be deleted.
pub proof fn law_confirmed_lists_name_nothing_deleted(
    pages: Seq<StoredPage>,
    deleting: Set<u64>,
)
    requires
        region::is_whole(pages),
    ensures
        region::is_repaired(pages, deleting) <==> forall|p: int, i: int, l: int|
            #![trigger pages[p].items@[i], listed(pages, p, i, l)]
            0 <= p < pages.len() && 0 <= i < pages[p].items@.len() && pages[p].items@[i] is Element
                && pages[p].items@[i]->Element_tuple.deleted == 0
                && pages[p].items@[i]->Element_tuple.heaptid.block_number != 0xFFFF_FFFF && 0 <= l
                && listed(pages, p, i, l) is Some ==> {
                let tid = listed(pages, p, i, l)->0;
                tid.block_number == 0xFFFF_FFFF || !deleting.contains(
                    (tid.block_number * 0x1_0000 + tid.offset) as u64,
                )
            },
{
    let all = forall|p: int, i: int, l: int|
        #![trigger pages[p].items@[i], listed(pages, p, i, l)]
        0 <= p < pages.len() && 0 <= i < pages[p].items@.len() && pages[p].items@[i] is Element
            && pages[p].items@[i]->Element_tuple.deleted == 0
            && pages[p].items@[i]->Element_tuple.heaptid.block_number != 0xFFFF_FFFF && 0 <= l
            && listed(pages, p, i, l) is Some ==> {
            let tid = listed(pages, p, i, l)->0;
            tid.block_number == 0xFFFF_FFFF || !deleting.contains(
                (tid.block_number * 0x1_0000 + tid.offset) as u64,
            )
        };
    if region::is_repaired(pages, deleting) {
        assert forall|p: int, i: int, l: int|
            #![trigger pages[p].items@[i], listed(pages, p, i, l)]
            0 <= p < pages.len() && 0 <= i < pages[p].items@.len() && pages[p].items@[i] is Element
                && pages[p].items@[i]->Element_tuple.deleted == 0
                && pages[p].items@[i]->Element_tuple.heaptid.block_number != 0xFFFF_FFFF && 0 <= l
                && listed(pages, p, i, l) is Some implies {
            let tid = listed(pages, p, i, l)->0;
            tid.block_number == 0xFFFF_FFFF || !deleting.contains(
                (tid.block_number * 0x1_0000 + tid.offset) as u64,
            )
        } by {
            assert(region::is_live_at(pages, p, i));
            let tids = region::list_of(pages, region::element(pages, p, i)).tids@;
            assert(listed(pages, p, i, l) == Some(tids[l]));
            assert(!repair::refers_to(tids, deleting));
            assert(vacuum::has_block(tids[l]) ==> !deleting.contains(
                types::tid_key(tids[l]) as u64,
            ));
        }
    }
    if all {
        assert forall|p: int, i: int| #[trigger] region::is_live_at(
            pages,
            p,
            i,
        ) implies !repair::refers_to(
            region::list_of(pages, region::element(pages, p, i)).tids@,
            deleting,
        ) by {
            assert(region::is_kept(pages, p, i));
            let tids = region::list_of(pages, region::element(pages, p, i)).tids@;
            assert forall|l: int| 0 <= l < tids.len() && vacuum::has_block(
                #[trigger] tids[l],
            ) implies !deleting.contains(types::tid_key(tids[l]) as u64) by {
                assert(pages[p].items@[i] is Element);
                assert(listed(pages, p, i, l) == Some(tids[l]));
            }
        }
    }
}

/// The `l`-th address in the list of the element at `(p, i)`: the list stands at
/// the address that the element gives.
pub open spec fn listed(pages: Seq<StoredPage>, p: int, i: int, l: int) -> Option<ItemPointer> {
    match stored::item_at(pages, pages[p].items@[i]->Element_tuple.neighbortid) {
        Some(PageItem::Neighbors { tuple }) => if l < tuple.tids@.len() {
            Some(tuple.tids@[l])
        } else {
            None
        },
        _ => None,
    }
}

/// A list wants repair exactly if one of its addresses is that of an element to be
/// deleted, or if its last place is free.
pub proof fn law_lists_with_gaps_want_repair(tuple: NeighborTuple, deleting: Set<u64>)
    ensures
        repair::wants_repair(tuple, deleting) <==> {
            ||| tuple.tids@.len() > 0 && tuple.tids@[tuple.tids@.len() - 1].block_number
                == 0xFFFF_FFFF
            ||| exists|i: int|
                0 <= i < tuple.tids@.len() && (#[trigger] tuple.tids@[i]).block_number
                    != 0xFFFF_FFFF && deleting.contains(
                    (tuple.tids@[i].block_number * 0x1_0000 + tuple.tids@[i].offset) as u64,
                )
        },
{
    let tids = tuple.tids@;
    if repair::refers_to(tids, deleting) {
        let i = choose|i: int|
            0 <= i < tids.len() && vacuum::has_block(#[trigger] tids[i]) && deleting.contains(
                types::tid_key(tids[i]) as u64,
            );
        assert(tids[i].block_number != 0xFFFF_FFFF);
    }
    if exists|i: int|
        0 <= i < tids.len() && (#[trigger] tids[i]).block_number != 0xFFFF_FFFF
            && deleting.contains((tids[i].block_number * 0x1_0000 + tids[i].offset) as u64) {
        let i = choose|i: int|
            0 <= i < tids.len() && (#[trigger] tids[i]).block_number != 0xFFFF_FFFF
                && deleting.contains((tids[i].block_number * 0x1_0000 + tids[i].offset) as u64);
        assert(vacuum::has_block(tids[i]));
    }
}

/// The point from which the graph is repaired is never the entry point itself
/// where the walk found two points, and it is the highest wherever that is not
/// the entry point.
pub proof fn law_repair_starts_elsewhere(
    highest: Option<Point>,
    fallback: Option<Point>,
    entry: Point,
)
    requires
        highest is Some && fallback is Some ==> highest->0.blkno != fallback->0.blkno
            || highest->0.offno != fallback->0.offno,
    ensures
        ({
            let p = repair::repair_point_of(highest, fallback, Some(entry));
            &&& p is Some ==> p->0.blkno != entry.blkno || p->0.offno != entry.offno
            &&& p == highest || p == fallback
            &&& highest is Some && (highest->0.blkno != entry.blkno || highest->0.offno
                != entry.offno) ==> p == highest
            &&& highest is Some && fallback is Some ==> p is Some
            &&& repair::repair_point_of(highest, fallback, None) == highest
        }),
{
}

/// Versions go round from 1 to 15, so that no two in a row are the same.
pub proof fn law_versions_go_round(version: u8)
    ensures
        repair::next_version(version) != version,
        version < 15 ==> repair::next_version(version) == version + 1,
        15 <= version < 255 ==> repair::next_version(version) == 1,
        version == 255 ==> repair::next_version(version) == 0,
{
}

/// Marking touches exactly the elements without a row and their lists: such an
/// element is deleted, its vector is blank and its list empty, both of the next
/// version; all other elements stay as they are.
pub proof fn law_only_elements_without_rows_are_marked(
    pages: Seq<StoredPage>,
    after: Seq<StoredPage>,
    p: int,
    i: int,
)
    requires
        region::is_whole(pages),
        region::all_marked(pages, after),
        0 <= p < pages.len(),
        0 <= i < pages[p].items@.len(),
        pages[p].items@[i] is Element,
    ensures
        ({
            let was = pages[p].items@[i]->Element_tuple;
            let now = after[p].items@[i]->Element_tuple;
            &&& was.deleted != 0 || was.heaptid.block_number != 0xFFFF_FFFF ==> after[p].items@[i]
                == pages[p].items@[i]
            &&& was.deleted == 0 && was.heaptid.block_number == 0xFFFF_FFFF ==> {
                &&& after[p].items@[i] is Element
                &&& now.deleted == 1
                &&& now.version == repair::next_version(was.version)
                &&& now.level == was.level
                &&& now.heaptid == was.heaptid
                &&& now.neighbortid == was.neighbortid
                &&& now.vector@.len() == was.vector@.len()
                &&& forall|d: int|
                    #![trigger now.vector@[d]]
                    0 <= d < now.vector@.len() ==> now.vector@[d] == 0
                &&& is_empty_list(after, was.neighbortid, now.version)
            }
        }),
{
    let n = pages.len() as int;
    assert(stored::is_place(pages, p, i));
    assert(region::is_marked_item(pages, p, i, n, 0, after[p].items@[i]));
    let was = pages[p].items@[i]->Element_tuple;
    if region::is_doomed(pages[p].items@[i]) {
        assert(region::is_kept(pages, p, i));
        let (q, j) = region::list_place(pages, was);
        assert(region::owns_list(pages, p, i, q, j));
        assert(stored::is_place(pages, q, j));
        assert(region::is_owned_before(pages, q, j, n, 0)) by {
            assert(region::precedes(p, i, n, 0));
        }
        assert(region::is_marked_item(pages, q, j, n, 0, after[q].items@[j]));
        let (a, b) = choose|a: int, b: int|
            {
                &&& #[trigger] region::owns_list(pages, a, b, q, j)
                &&& repair::is_cleared(
                    pages[q].items@[j]->Neighbors_tuple,
                    repair::next_version(region::element(pages, a, b).version),
                    after[q].items@[j]->Neighbors_tuple,
                )
            };
        assert(region::is_kept(pages, a, b));
        assert(a == p && b == i);
        stored::lemma_same_places(pages, after, was.neighbortid.block_number, 0);
    }
}

/// Whether a list stands at an address, of that version, that names nothing.
pub open spec fn is_empty_list(pages: Seq<StoredPage>, at: ItemPointer, version: u8) -> bool {
    match stored::item_at(pages, at) {
        Some(PageItem::Neighbors { tuple }) => tuple.version == version && forall|l: int|
            #![trigger tuple.tids@[l]]
            0 <= l < tuple.tids@.len() ==> tuple.tids@[l].block_number == 0xFFFF_FFFF,
        _ => false,
    }
}

/// The page for the next insert is the first one that holds an element that is
/// deleted or has no row, if there is one.
pub proof fn law_insert_page_is_the_first_with_room(pages: Seq<StoredPage>, k: int)
    requires
        0 <= k <= pages.len(),
        forall|p: int|
            #![trigger pages[p]]
            0 <= p < pages.len() ==> pages[p].blkno != 0xFFFF_FFFF,
    ensures
        region::first_free(pages, k) == 0xFFFF_FFFF <==> forall|p: int|
            #![trigger pages[p]]
            0 <= p < k ==> !has_reusable(pages[p].items@),
        region::first_free(pages, k) != 0xFFFF_FFFF ==> exists|p: int|
            #![trigger pages[p]]
            0 <= p < k && has_reusable(pages[p].items@) && pages[p].blkno == region::first_free(
                pages,
                k,
            ) && forall|q: int| #![trigger pages[q]] 0 <= q < p ==> !has_reusable(pages[q].items@),
    decreases k,
{
    if k > 0 {
        law_insert_page_is_the_first_with_room(pages, k - 1);
        let items = pages[k - 1].items@;
        assert(region::has_free(items, items.len() as int) <==> has_reusable(items)) by {
            if region::has_free(items, items.len() as int) {
                let i = choose|i: int| 0 <= i < items.len() && #[trigger] region::is_free(items[i]);
                assert(items[i] is Element);
            }
            if has_reusable(items) {
                let i = choose|i: int|
                    0 <= i < items.len() && #[trigger] items[i] is Element && (
                    items[i]->Element_tuple.deleted != 0
                        || items[i]->Element_tuple.heaptid.block_number == 0xFFFF_FFFF);
                assert(region::is_free(items[i]));
            }
        }
    }
}

/// Whether a page holds an element that is deleted or has no row.
pub open spec fn has_reusable(items: Seq<PageItem>) -> bool {
    exists|i: int|
        0 <= i < items.len() && #[trigger] items[i] is Element && (items[i]->Element_tuple.deleted
            != 0 || items[i]->Element_tuple.heaptid.block_number == 0xFFFF_FFFF)
}

/// An entry point that is to be deleted is replaced by the point given; one that
/// stays is repaired from there.
pub proof fn law_deleted_entries_are_replaced(
    entry: Point,
    deleting: Set<u64>,
    point: Option<Point>,
)
    ensures
        repair::entry_repair_of(None, deleting, point) == EntryRepair::Nothing,
        deleting.contains((entry.blkno * 0x1_0000 + entry.offno) as u64) <==> repair::entry_repair_of(
            Some(entry),
            deleting,
            point,
        ) == (EntryRepair::Replace { with: point }),
        !deleting.contains((entry.blkno * 0x1_0000 + entry.offno) as u64)
            <==> repair::entry_repair_of(Some(entry), deleting, point) == (EntryRepair::Repair {
            from: point,
        }),
{
}

/// An element may become the entry point where there is none or it is higher.
pub proof fn law_higher_elements_may_become_the_entry(entry: Point, level: u8)
    ensures
        repair::rises_above(None, level),
        repair::rises_above(Some(entry), level) <==> entry.level < level,
{
}

/// What a repair does next, by what it has just learned. The entry point is read
/// before the point to repair from is chosen; a list that wants repair is repaired
/// and no other; an entry point that is to be deleted is replaced; and an element
/// that rose above the entry point it was repaired from takes its place if it is
/// still higher.
pub proof fn law_pass_does_what_it_learned(v: PassView, state: VacuumView, event: RepairEvent)
    requires
        v.wf(),
        repair_pass::answers(event, v.action()),
    ensures
        ({
            let next = v.step(state, event).action();
            match v.phase {
                RepairPhase::WaitLock => next is Unlock,
                RepairPhase::WaitUnlock => next is Lock && (next->Lock_exclusive
                    <==> state.highest is None),
                RepairPhase::PointLock => next is ReadEntry,
                RepairPhase::PointEntry => match repair::repair_point_of(
                    state.highest,
                    state.fallback,
                    event->entry,
                ) {
                    Some(point) => next == RepairAction::ReadList { element: point },
                    None => next is Unlock,
                },
                RepairPhase::PointList { point, entry } => if repair::wants_repair(
                    event->tuple,
                    state.deleting,
                ) {
                    next == RepairAction::Repair { element: point, from: entry }
                } else {
                    next is Unlock
                },
                RepairPhase::PointRepair { point, entry } => next is Unlock,
                RepairPhase::PointUnlock { point } => next == RepairAction::Lock {
                    exclusive: true,
                },
                RepairPhase::EntryLock { point } => next is ReadEntry,
                RepairPhase::EntryRead { point } => match event->entry {
                    None => next is Unlock,
                    Some(entry) => if state.deleting.contains(
                        (entry.blkno * 0x1_0000 + entry.offno) as u64,
                    ) {
                        next == RepairAction::UpdateEntry {
                            update: EntryUpdate::Always,
                            entry: point,
                        }
                    } else {
                        next == RepairAction::ReadList { element: entry }
                    },
                },
                RepairPhase::EntryReplace { with } => next is Unlock,
                RepairPhase::EntryList { entry, from } => if repair::wants_repair(
                    event->tuple,
                    state.deleting,
                ) {
                    next == RepairAction::Repair { element: entry, from }
                } else {
                    next is Unlock
                },
                RepairPhase::EntryRepair { entry, from } => next is Unlock,
                RepairPhase::ElementList => repair::wants_repair(event->tuple, state.deleting)
                    ==> next == RepairAction::Lock { exclusive: false },
                RepairPhase::ElementLock { exclusive } => next is ReadEntry,
                RepairPhase::ElementRelease => next == RepairAction::Lock { exclusive: true },
                RepairPhase::ElementRepair { exclusive, entry } => if entry is None
                    || entry->0.level < v.elements[v.at].level {
                    next == RepairAction::UpdateEntry {
                        update: EntryUpdate::IfHigher,
                        entry: Some(v.elements[v.at]),
                    }
                } else {
                    next is Unlock
                },
                RepairPhase::ElementUpdate => next is Unlock,
                _ => true,
            }
        }),
{
}

/// A repair goes through the elements of a page one after the other, then through
/// the next page, and ends behind the last.
pub proof fn law_pass_goes_on_to_the_end(v: PassView, state: VacuumView, event: RepairEvent)
    requires
        v.wf(),
        repair_pass::answers(event, v.action()),
    ensures
        ({
            let after = v.step(state, event);
            let done = match v.phase {
                RepairPhase::ElementUnlock { exclusive } => true,
                RepairPhase::ElementList => !repair::wants_repair(event->tuple, state.deleting),
                _ => false,
            };
            &&& done ==> after.at == v.at + 1 && after.elements == v.elements && after.next
                == v.next
            &&& done && v.at + 1 < v.elements.len() ==> after.action() == RepairAction::ReadList {
                element: v.elements[v.at + 1],
            }
            &&& done && v.at + 1 == v.elements.len() && v.next != 0xFFFF_FFFF ==> after.action()
                == RepairAction::ReadPage { blkno: v.next }
            &&& done && v.at + 1 == v.elements.len() && v.next == 0xFFFF_FFFF
                ==> after.action() is Finish
            &&& v.phase is PageRead ==> after.at == 0 && after.next == event->next
                && after.elements == repair_pass::live_elements_of(event->page)
            &&& v.phase is PageRead && after.elements.len() > 0 ==> after.action()
                == RepairAction::ReadList { element: after.elements[0] }
            &&& v.phase is PageRead && after.elements.len() == 0 && after.next != 0xFFFF_FFFF
                ==> after.action() == RepairAction::ReadPage { blkno: after.next }
            &&& after.phase is Finished && !(v.phase is Finished) ==> after.next == 0xFFFF_FFFF
                && after.at >= after.elements.len()
        }),
{
}

} // verus!
