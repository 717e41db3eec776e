//! Removal of dead rows from a stored graph: find the elements whose row is
//! gone, repair the neighbor lists that refer to them, confirm that none does,
//! and mark them as deleted.
use crate::hnswsq::tuple::{ElementTuple, NeighborTuple};
use crate::hnswsq::types;
use crate::hnswsq::types::{pack_tid, Visited};
use crate::util::item_pointer;
use crate::util::item_pointer::ItemPointer;
use vstd::prelude::*;

verus! {

/// Where an element is stored, and its level.
#[derive(Clone, Copy, Debug, PartialEq, Eq, Structural)]
pub struct Point {
    pub blkno: u32,
    pub offno: u16,
    pub level: u8,
}

impl Point {
    /// The address.
    pub open spec fn tid(&self) -> ItemPointer {
        ItemPointer { block_number: self.blkno, offset: self.offno }
    }

    /// Whether the two are stored at the same place.
    pub fn same_place(&self, other: &Point) -> (r: bool)
        ensures
            r == (self.tid() == other.tid()),
    {
        self.blkno == other.blkno && self.offno == other.offno
    }
}

/// An item of a page of the graph.
#[derive(Clone, Debug)]
pub enum PageItem {
    Element { tuple: ElementTuple },
    Neighbors { tuple: NeighborTuple },
}

/// What a vacuum has found so far.
#[derive(Debug)]
pub struct VacuumState {
    /// The keys of the elements that are to be deleted.
    pub deleting: Visited,
    /// The first live element of the highest level.
    pub highest: Option<Point>,
    /// The first live element of the highest level among the others.
    pub fallback: Option<Point>,
    pub tuples_removed: u64,
    pub num_index_tuples: u64,
    /// The first page with room for new elements.
    pub insert_page: u32,
}

/// What is known of a vacuum's state.
#[verifier::ext_equal]
pub struct VacuumView {
    pub deleting: Set<u64>,
    pub highest: Option<Point>,
    pub fallback: Option<Point>,
    pub removed: int,
    pub live: int,
}

impl View for VacuumState {
    type V = VacuumView;

    open spec fn view(&self) -> VacuumView {
        VacuumView {
            deleting: self.deleting@,
            highest: self.highest,
            fallback: self.fallback,
            removed: self.tuples_removed as int,
            live: self.num_index_tuples as int,
        }
    }
}

/// Whether an address names a block.
pub open spec fn has_block(tid: ItemPointer) -> bool {
    tid.block_number != item_pointer::INVALID_BLOCK_NUMBER
}

/// Whether `p` lies higher than `q`; anything lies higher than nothing.
pub open spec fn higher(p: Point, q: Option<Point>) -> bool {
    q is None || p.level > q->0.level
}

fn is_higher(p: &Point, q: &Option<Point>) -> (r: bool)
    ensures
        r == higher(*p, *q),
{
    match q {
        None => true,
        Some(q) => p.level > q.level,
    }
}

/// The highest point once `p` was met.
pub open spec fn highest_with(highest: Option<Point>, p: Point) -> Option<Point> {
    if higher(p, highest) {
        Some(p)
    } else {
        highest
    }
}

/// The second highest point once `p` was met: the highest one before, where
/// `p` lies higher; else `p`, where it lies higher than the second.
pub open spec fn fallback_with(highest: Option<Point>, fallback: Option<Point>, p: Point) -> Option<
    Point,
> {
    if higher(p, highest) {
        if highest is Some {
            highest
        } else {
            fallback
        }
    } else if higher(p, fallback) {
        Some(p)
    } else {
        fallback
    }
}

/// Whether the row of an element is gone: it has none, or it is dead.
pub open spec fn is_rowless(tuple: ElementTuple, dead: bool) -> bool {
    !has_block(tuple.heaptid) || dead
}

/// The state once an element was looked at: deleted ones do not matter, those
/// without a row are to be deleted, and of the others the highest are noted.
pub open spec fn after_element(
    v: VacuumView,
    p: Point,
    tuple: ElementTuple,
    dead: bool,
) -> VacuumView {
    if tuple.deleted != 0 {
        v
    } else if is_rowless(tuple, dead) {
        VacuumView {
            deleting: v.deleting.insert(types::tid_key(p.tid()) as u64),
            removed: v.removed + if has_block(tuple.heaptid) {
                1int
            } else {
                0
            },
            ..v
        }
    } else {
        VacuumView {
            highest: highest_with(v.highest, p),
            fallback: fallback_with(v.highest, v.fallback, p),
            live: v.live + 1,
            ..v
        }
    }
}

/// The tuple once it was looked at: it loses a dead row.
pub open spec fn without_dead_row(before: ElementTuple, dead: bool, after: ElementTuple) -> bool {
    after == if before.deleted == 0 && has_block(before.heaptid) && dead {
        ElementTuple { heaptid: item_pointer::invalid_pointer(), ..before }
    } else {
        before
    }
}

impl VacuumState {
    /// Nothing was looked at yet.
    pub fn new() -> (s: VacuumState)
        ensures
            s@ == (VacuumView {
                deleting: Set::empty(),
                highest: None,
                fallback: None,
                removed: 0,
                live: 0,
            }),
            s.insert_page == item_pointer::INVALID_BLOCK_NUMBER,
    {
        VacuumState {
            deleting: Visited::new(256),
            highest: None,
            fallback: None,
            tuples_removed: 0,
            num_index_tuples: 0,
            insert_page: item_pointer::INVALID_BLOCK_NUMBER,
        }
    }

    /// Look at the element stored at `(blkno, offno)`, whose row is `dead` or
    /// not; returns whether the tuple was changed.
    pub fn remove_heap_tid(
        &mut self,
        blkno: u32,
        offno: u16,
        tuple: &mut ElementTuple,
        dead: bool,
    ) -> (updated: bool)
        requires
            old(self).tuples_removed < u64::MAX,
            old(self).num_index_tuples < u64::MAX,
        ensures
            final(self)@ == after_element(
                old(self)@,
                (Point { blkno, offno, level: old(tuple).level }),
                *old(tuple),
                dead,
            ),
            final(self).insert_page == old(self).insert_page,
            without_dead_row(*old(tuple), dead, *final(tuple)),
            updated == (old(tuple).deleted == 0 && has_block(old(tuple).heaptid) && dead),
    {
        if tuple.deleted != 0 {
            return false;
        }
        let mut updated: bool = false;
        if tuple.heaptid.block_number != item_pointer::INVALID_BLOCK_NUMBER {
            if dead {
                self.tuples_removed = self.tuples_removed + 1;
                tuple.heaptid = ItemPointer::new_invalid();
                updated = true;
            } else {
                self.num_index_tuples = self.num_index_tuples + 1;
            }
        }
        let p: Point = Point { blkno, offno, level: tuple.level };
        if tuple.heaptid.block_number == item_pointer::INVALID_BLOCK_NUMBER {
            let _ = self.deleting.insert(pack_tid(ItemPointer::new(blkno, offno)));
        } else if is_higher(&p, &self.highest) {
            if self.highest.is_some() {
                self.fallback = self.highest;
            }
            self.highest = Some(p);
        } else if is_higher(&p, &self.fallback) {
            self.fallback = Some(p);
        }
        updated
    }
}

/// The state once the first `k` items of page `blkno` were looked at.
pub open spec fn after_items(
    v: VacuumView,
    blkno: u32,
    items: Seq<PageItem>,
    dead: Seq<bool>,
    k: int,
) -> VacuumView
    decreases k,
{
    if k <= 0 {
        v
    } else {
        let before = after_items(v, blkno, items, dead, k - 1);
        match items[k - 1] {
            PageItem::Element { tuple } => after_element(
                before,
                Point { blkno, offno: k as u16, level: tuple.level },
                tuple,
                dead[k - 1],
            ),
            PageItem::Neighbors { tuple } => before,
        }
    }
}

/// The item once it was looked at.
pub open spec fn item_without_dead_row(before: PageItem, dead: bool, after: PageItem) -> bool {
    match before {
        PageItem::Element { tuple } => after is Element && without_dead_row(
            tuple,
            dead,
            after->Element_tuple,
        ),
        PageItem::Neighbors { tuple } => after == before,
    }
}

/// Look at all items of page `blkno`; `dead` says of each item whether its
/// row is dead. Returns whether the page was changed.
pub fn remove_page_heap_tids(
    state: &mut VacuumState,
    blkno: u32,
    items: &mut Vec<PageItem>,
    dead: &Vec<bool>,
) -> (updated: bool)
    requires
        old(items)@.len() == dead@.len(),
        old(items)@.len() < 0x1_0000,
        old(state).tuples_removed + old(items)@.len() <= u64::MAX,
        old(state).num_index_tuples + old(items)@.len() <= u64::MAX,
    ensures
        final(state)@ == after_items(
            old(state)@,
            blkno,
            old(items)@,
            dead@,
            old(items)@.len() as int,
        ),
        final(state).insert_page == old(state).insert_page,
        final(items)@.len() == old(items)@.len(),
        forall|i: int|
            #![trigger final(items)@[i]]
            0 <= i < old(items)@.len() ==> item_without_dead_row(
                old(items)@[i],
                dead@[i],
                final(items)@[i],
            ),
        updated <==> exists|i: int|
            0 <= i < old(items)@.len() && #[trigger] loses_row(old(items)@[i], dead@[i]),
{
    let n: usize = items.len();
    let mut updated: bool = false;
    let mut i: usize = 0;
    let ghost items0 = items@;
    while i < n
        invariant
            i <= n,
            n == items@.len(),
            n == items0.len(),
            n == dead@.len(),
            n < 0x1_0000,
            old(state).tuples_removed + n <= u64::MAX,
            old(state).num_index_tuples + n <= u64::MAX,
            state.tuples_removed <= old(state).tuples_removed + i,
            state.num_index_tuples <= old(state).num_index_tuples + i,
            state@ == after_items(old(state)@, blkno, items0, dead@, i as int),
            state.insert_page == old(state).insert_page,
            forall|j: int| #![trigger items@[j]] i <= j < n ==> items@[j] == items0[j],
            forall|j: int|
                #![trigger items@[j]]
                0 <= j < i ==> item_without_dead_row(items0[j], dead@[j], items@[j]),
            updated <==> exists|j: int|
                0 <= j < i && #[trigger] loses_row(items0[j], dead@[j]),
        decreases n - i,
    {
        let offno: u16 = (i + 1) as u16;
        let ghost was_updated = updated;
        assert(items@[i as int] == items0[i as int]);
        let is_dead: bool = dead[i];
        match &mut items[i] {
            PageItem::Element { tuple } => {
                let changed: bool = state.remove_heap_tid(blkno, offno, tuple, is_dead);
                if changed {
                    updated = true;
                }
            },
            PageItem::Neighbors { .. } => {},
        }
        proof {
            assert(updated <==> was_updated || loses_row(items0[i as int], dead@[i as int]));
        }
        i = i + 1;
    }
    updated
}

/// Whether an item is an element that loses its row.
pub open spec fn loses_row(item: PageItem, dead: bool) -> bool {
    item is Element && item->Element_tuple.deleted == 0 && has_block(item->Element_tuple.heaptid)
        && dead
}

/// The highest point once all of `walk` were met.
pub open spec fn highest_of(walk: Seq<Point>) -> Option<Point>
    decreases walk.len(),
{
    if walk.len() == 0 {
        None
    } else {
        highest_with(highest_of(walk.drop_last()), walk.last())
    }
}

/// The second highest point once all of `walk` were met.
pub open spec fn fallback_of(walk: Seq<Point>) -> Option<Point>
    decreases walk.len(),
{
    if walk.len() == 0 {
        None
    } else {
        fallback_with(highest_of(walk.drop_last()), fallback_of(walk.drop_last()), walk.last())
    }
}

/// Whether the one at place `i` is the first of the highest level of `walk`,
/// the one at `skipped` left out.
pub open spec fn is_first_highest(walk: Seq<Point>, skipped: int, i: int) -> bool {
    &&& 0 <= i < walk.len()
    &&& i != skipped
    &&& forall|j: int|
        #![trigger walk[j]]
        0 <= j < walk.len() && j != skipped ==> walk[j].level <= walk[i].level && (j < i
            ==> walk[j].level < walk[i].level)
}

/// Of the live elements of a walk, the highest point is the first of the
/// highest level, and the fallback is the first of the highest level among
/// the others; each is there as soon as there is such an element.
pub proof fn law_points_are_the_highest(walk: Seq<Point>)
    ensures
        highest_of(walk) is Some <==> walk.len() >= 1,
        fallback_of(walk) is Some <==> walk.len() >= 2,
        walk.len() >= 1 ==> exists|i: int|
            #[trigger] is_first_highest(walk, -1, i) && highest_of(walk) == Some(walk[i]),
        walk.len() >= 2 ==> exists|i: int, k: int|
            {
                &&& #[trigger] is_first_highest(walk, -1, i)
                &&& #[trigger] is_first_highest(walk, i, k)
                &&& highest_of(walk) == Some(walk[i])
                &&& fallback_of(walk) == Some(walk[k])
            },
{
    if walk.len() > 0 {
        let (i, k) = lemma_points(walk);
        assert(is_first_highest(walk, -1, i));
        if walk.len() >= 2 {
            assert(is_first_highest(walk, i, k));
        }
    }
}

proof fn lemma_points(walk: Seq<Point>) -> (places: (int, int))
    requires
        walk.len() > 0,
    ensures
        is_first_highest(walk, -1, places.0),
        highest_of(walk) == Some(walk[places.0]),
        fallback_of(walk) is Some <==> walk.len() >= 2,
        walk.len() >= 2 ==> is_first_highest(walk, places.0, places.1) && fallback_of(walk) == Some(
            walk[places.1],
        ),
    decreases walk.len(),
{
    let n = walk.len() - 1;
    let before = walk.drop_last();
    let p = walk[n];
    if n == 0 {
        assert(highest_of(before) is None);
        assert(fallback_of(before) is None);
        (0, 0)
    } else {
        let (i, k) = lemma_points(before);
        assert(forall|j: int| #![trigger walk[j]] 0 <= j < n ==> walk[j] == before[j]);
        assert(walk[i] == before[i]);
        if higher(p, Some(before[i])) {
            assert(is_first_highest(walk, -1, n)) by {
                assert forall|j: int| #![trigger walk[j]] 0 <= j < walk.len() && j
                    != -1 implies walk[j].level <= walk[n].level && (j < n ==> walk[j].level
                    < walk[n].level) by {
                    if j < n {
                        assert(before[j].level <= before[i].level);
                    }
                }
            }
            assert(is_first_highest(walk, n, i)) by {
                assert forall|j: int| #![trigger walk[j]] 0 <= j < walk.len() && j
                    != n implies walk[j].level <= walk[i].level && (j < i ==> walk[j].level
                    < walk[i].level) by {
                    assert(before[j].level <= before[i].level);
                }
            }
            (n, i)
        } else {
            assert(is_first_highest(walk, -1, i)) by {
                assert forall|j: int| #![trigger walk[j]] 0 <= j < walk.len() && j
                    != -1 implies walk[j].level <= walk[i].level && (j < i ==> walk[j].level
                    < walk[i].level) by {
                    if j < n {
                        assert(before[j].level <= before[i].level);
                    }
                }
            }
            if n == 1 {
                assert(fallback_of(before) is None);
                assert(i == 0);
                assert(is_first_highest(walk, 0, 1));
                (0, 1)
            } else {
                assert(walk[k] == before[k]);
                if higher(p, Some(before[k])) {
                    assert(is_first_highest(walk, i, n)) by {
                        assert forall|j: int| #![trigger walk[j]] 0 <= j < walk.len() && j
                            != i implies walk[j].level <= walk[n].level && (j < n ==> walk[j].level
                            < walk[n].level) by {
                            if j < n {
                                assert(before[j].level <= before[k].level);
                            }
                        }
                    }
                    (i, n)
                } else {
                    assert(is_first_highest(walk, i, k)) by {
                        assert forall|j: int| #![trigger walk[j]] 0 <= j < walk.len() && j
                            != i implies walk[j].level <= walk[k].level && (j < k ==> walk[j].level
                            < walk[k].level) by {
                            if j < n {
                                assert(before[j].level <= before[k].level);
                            }
                        }
                    }
                    (i, k)
                }
            }
        }
    }
}

/// Whether an item is a live element once the dead rows are gone.
pub open spec fn stays_live(item: PageItem, dead: bool) -> bool {
    item is Element && item->Element_tuple.deleted == 0 && !is_rowless(item->Element_tuple, dead)
}

/// Whether an item is an element that is to be deleted.
pub open spec fn is_to_be_deleted(item: PageItem, dead: bool) -> bool {
    item is Element && item->Element_tuple.deleted == 0 && is_rowless(item->Element_tuple, dead)
}

/// The live elements of a page, in order.
pub open spec fn live_points(blkno: u32, items: Seq<PageItem>, dead: Seq<bool>, k: int) -> Seq<
    Point,
>
    decreases k,
{
    if k <= 0 {
        Seq::empty()
    } else {
        let before = live_points(blkno, items, dead, k - 1);
        if stays_live(items[k - 1], dead[k - 1]) {
            before.push(
                Point { blkno, offno: k as u16, level: items[k - 1]->Element_tuple.level },
            )
        } else {
            before
        }
    }
}

/// What looking at a page adds: the highest points are those of the walk
/// that the page's live elements continue, and the elements to be deleted
/// are exactly those without a row.
pub proof fn law_page_continues_the_walk(
    v: VacuumView,
    walk: Seq<Point>,
    blkno: u32,
    items: Seq<PageItem>,
    dead: Seq<bool>,
    k: int,
)
    requires
        0 <= k <= items.len(),
        items.len() < 0x1_0000,
        dead.len() == items.len(),
        v.highest == highest_of(walk),
        v.fallback == fallback_of(walk),
    ensures
        ({
            let after = after_items(v, blkno, items, dead, k);
            let all = walk + live_points(blkno, items, dead, k);
            &&& after.highest == highest_of(all)
            &&& after.fallback == fallback_of(all)
            &&& after.live == v.live + live_points(blkno, items, dead, k).len()
            &&& forall|key: u64| #[trigger]
                after.deleting.contains(key) <==> v.deleting.contains(key) || exists|i: int|
                    0 <= i < k && #[trigger] is_to_be_deleted(items[i], dead[i]) && key
                        == types::tid_key((ItemPointer { block_number: blkno, offset: (i + 1) as u16 }))
        }),
    decreases k,
{
    if k <= 0 {
        assert(walk + live_points(blkno, items, dead, k) =~= walk);
    } else {
        law_page_continues_the_walk(v, walk, blkno, items, dead, k - 1);
        let mid = after_items(v, blkno, items, dead, k - 1);
        let after = after_items(v, blkno, items, dead, k);
        let before = walk + live_points(blkno, items, dead, k - 1);
        let all = walk + live_points(blkno, items, dead, k);
        let here = ItemPointer { block_number: blkno, offset: k as u16 };
        let last = items[k - 1];
        if stays_live(last, dead[k - 1]) {
            let p = Point { blkno, offno: k as u16, level: last->Element_tuple.level };
            assert(all =~= before.push(p));
            assert(all.drop_last() =~= before);
        }
        assert(types::tid_key(here) as u64 == types::tid_key(here));
        assert forall|key: u64| #[trigger] after.deleting.contains(key) <==> v.deleting.contains(key)
            || exists|i: int|
            0 <= i < k && #[trigger] is_to_be_deleted(items[i], dead[i]) && key == types::tid_key(
                (ItemPointer { block_number: blkno, offset: (i + 1) as u16 }),
            ) by {
            if after.deleting.contains(key) && !v.deleting.contains(key) {
                if mid.deleting.contains(key) {
                    let i = choose|i: int|
                        0 <= i < k - 1 && #[trigger] is_to_be_deleted(items[i], dead[i]) && key
                            == types::tid_key(
                            (ItemPointer { block_number: blkno, offset: (i + 1) as u16 }),
                        );
                    assert(is_to_be_deleted(items[i], dead[i]));
                } else {
                    assert(is_to_be_deleted(items[k - 1], dead[k - 1]));
                }
            }
            if exists|i: int|
                0 <= i < k && #[trigger] is_to_be_deleted(items[i], dead[i]) && key
                    == types::tid_key(
                    (ItemPointer { block_number: blkno, offset: (i + 1) as u16 }),
                ) {
                let i = choose|i: int|
                    0 <= i < k && #[trigger] is_to_be_deleted(items[i], dead[i]) && key
                        == types::tid_key(
                        (ItemPointer { block_number: blkno, offset: (i + 1) as u16 }),
                    );
                if i < k - 1 {
                    assert(mid.deleting.contains(key));
                }
            }
        }
    }
}

} // verus!
