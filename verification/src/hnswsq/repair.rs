//! Repair of a stored graph whose elements are being deleted.
use crate::hnswsq::meta::EntryUpdate;
use crate::hnswsq::tuple::{ElementTuple, NeighborTuple};
use crate::hnswsq::types;
use crate::hnswsq::types::{pack_tid, Visited};
use crate::hnswsq::vacuum;
use crate::hnswsq::vacuum::{PageItem, Point, VacuumState};
use crate::util::item_pointer;
use crate::util::item_pointer::ItemPointer;
use vstd::prelude::*;

verus! {

/// Whether one of `tids` is the address of an element that is to be deleted.
pub open spec fn refers_to(tids: Seq<ItemPointer>, deleting: Set<u64>) -> bool {
    exists|i: int|
        0 <= i < tids.len() && vacuum::has_block(#[trigger] tids[i]) && deleting.contains(
            types::tid_key(tids[i]) as u64,
        )
}

/// Whether one of the addresses is that of an element that is to be deleted.
pub fn refers_to_deleted(tuple: &NeighborTuple, deleting: &Visited) -> (r: bool)
    ensures
        r == refers_to(tuple.tids@, deleting@),
{
    let mut i: usize = 0;
    while i < tuple.tids.len()
        invariant
            i <= tuple.tids@.len(),
            forall|j: int|
                #![trigger tuple.tids@[j]]
                0 <= j < i ==> !(vacuum::has_block(tuple.tids@[j]) && deleting@.contains(
                    types::tid_key(tuple.tids@[j]) as u64,
                )),
        decreases tuple.tids@.len() - i,
    {
        let tid: ItemPointer = tuple.tids[i];
        if tid.block_number != item_pointer::INVALID_BLOCK_NUMBER {
            if deleting.contains(pack_tid(tid)) {
                assert(vacuum::has_block(tuple.tids@[i as int]));
                return true;
            }
        }
        i = i + 1;
    }
    false
}

/// Whether a neighbor list has to be repaired: it refers to an element that is
/// to be deleted, or the bottom layer is not full.
pub open spec fn wants_repair(tuple: NeighborTuple, deleting: Set<u64>) -> bool {
    refers_to(tuple.tids@, deleting) || (tuple.tids@.len() > 0 && !vacuum::has_block(
        tuple.tids@.last(),
    ))
}

/// Whether a neighbor list has to be repaired.
pub fn needs_updated(tuple: &NeighborTuple, deleting: &Visited) -> (r: bool)
    ensures
        r == wants_repair(*tuple, deleting@),
{
    if refers_to_deleted(tuple, deleting) {
        return true;
    }
    let n: usize = tuple.tids.len();
    n > 0 && tuple.tids[n - 1].block_number == item_pointer::INVALID_BLOCK_NUMBER
}

/// The graph still refers to an element that is to be deleted.
#[derive(Clone, Copy, Debug, PartialEq, Eq, Structural)]
pub struct NotRepaired;

/// Whether an item is an element that is neither deleted nor to be deleted.
pub open spec fn is_live(item: PageItem) -> bool {
    item is Element && item->Element_tuple.deleted == 0 && vacuum::has_block(
        item->Element_tuple.heaptid,
    )
}

/// The point that the graph is repaired from first: the highest one, or the
/// fallback where the highest is the entry point.
pub open spec fn repair_point_of(
    highest: Option<Point>,
    fallback: Option<Point>,
    entry: Option<Point>,
) -> Option<Point> {
    if highest is Some && entry is Some && highest->0.tid() == entry->0.tid() {
        fallback
    } else {
        highest
    }
}

/// The point that the graph is repaired from first.
pub fn repair_point(state: &VacuumState, entry: Option<Point>) -> (p: Option<Point>)
    ensures
        p == repair_point_of(state.highest, state.fallback, entry),
{
    match state.highest {
        None => None,
        Some(h) => match entry {
            Some(e) => if e.same_place(&h) {
                state.fallback
            } else {
                Some(h)
            },
            None => Some(h),
        },
    }
}

/// What is to be done about the entry point.
#[derive(Clone, Copy, Debug, PartialEq, Eq, Structural)]
pub enum EntryRepair {
    /// There is none.
    Nothing,
    /// It is to be deleted: put this one in its place, or none.
    Replace { with: Option<Point> },
    /// Repair its neighbors, where they need it, starting from this one.
    Repair { from: Option<Point> },
}

/// What is to be done about the entry point: one that is to be deleted is
/// replaced, any other is repaired where it needs it, from `point` either way.
pub open spec fn entry_repair_of(
    entry: Option<Point>,
    deleting: Set<u64>,
    point: Option<Point>,
) -> EntryRepair {
    if entry is None {
        EntryRepair::Nothing
    } else if deleting.contains(types::tid_key(entry->0.tid()) as u64) {
        EntryRepair::Replace { with: point }
    } else {
        EntryRepair::Repair { from: point }
    }
}

/// What is to be done about the entry point.
pub fn entry_repair(entry: Option<Point>, deleting: &Visited, point: Option<Point>) -> (r:
    EntryRepair)
    ensures
        r == entry_repair_of(entry, deleting@, point),
{
    match entry {
        None => EntryRepair::Nothing,
        Some(e) => {
            if deleting.contains(pack_tid(ItemPointer::new(e.blkno, e.offno))) {
                EntryRepair::Replace { with: point }
            } else {
                EntryRepair::Repair { from: point }
            }
        },
    }
}

/// Whether there is no entry point, or an element of `level` lies higher.
pub open spec fn rises_above(entry: Option<Point>, level: u8) -> bool {
    entry is None || level > entry->0.level
}

/// Whether repairing an element of `level` may make it the entry point: there
/// is none, or the element lies higher. Concurrent inserts are then kept out.
pub fn may_become_entry(entry: Option<Point>, level: u8) -> (r: bool)
    ensures
        r == rises_above(entry, level),
{
    match entry {
        None => true,
        Some(e) => level > e.level,
    }
}

/// How the entry point is updated after the repair of an element of `level`.
pub fn entry_update(entry: Option<Point>, level: u8) -> (u: EntryUpdate)
    ensures
        u == if rises_above(entry, level) {
            EntryUpdate::IfHigher
        } else {
            EntryUpdate::Keep
        },
{
    if may_become_entry(entry, level) {
        EntryUpdate::IfHigher
    } else {
        EntryUpdate::Keep
    }
}

/// The version that follows `v`: they go round from 1 to 15.
pub open spec fn next_version(v: u8) -> u8 {
    if v == 255 {
        0
    } else if v >= 15 {
        1
    } else {
        (v + 1) as u8
    }
}

/// The version changes whenever an element is deleted, so that a scan that
/// holds on to the old version reads nothing of the tuple's new contents.
pub proof fn law_version_changes(v: u8)
    ensures
        next_version(v) != v,
        1 <= v <= 15 ==> 1 <= next_version(v) <= 15,
{
}

/// What is done about an element when the deleted ones are marked.
#[derive(Clone, Copy, Debug, PartialEq, Eq, Structural)]
pub enum Marking {
    /// It is live.
    Live,
    /// It was deleted before: its page has room.
    Reusable,
    /// It was marked as deleted.
    Deleted,
}

/// Whether `after` is `before` marked as deleted: its vector is blank and its
/// version new.
pub open spec fn is_marked(before: ElementTuple, after: ElementTuple) -> bool {
    &&& after.deleted == 1
    &&& after.version == next_version(before.version)
    &&& after.layout == before.layout
    &&& after.level == before.level
    &&& after.clamped == before.clamped
    &&& after.heaptid == before.heaptid
    &&& after.neighbortid == before.neighbortid
    &&& after.vector@.len() == before.vector@.len()
    &&& forall|i: int| #![trigger after.vector@[i]] 0 <= i < after.vector@.len() ==> after.vector@[i] == 0
}

/// Whether `after` is a cleared neighbor list of the same size.
pub open spec fn is_cleared(before: NeighborTuple, version: u8, after: NeighborTuple) -> bool {
    &&& after.version == version
    &&& after.tids@.len() == before.tids@.len()
    &&& forall|i: int|
        #![trigger after.tids@[i]]
        0 <= i < after.tids@.len() ==> after.tids@[i] == item_pointer::invalid_pointer()
}

/// Mark an element of page `blkno` as deleted, together with its neighbors,
/// where its row is gone; remember the first page that has room.
pub fn mark_element(
    state: &mut VacuumState,
    blkno: u32,
    tuple: &mut ElementTuple,
    neighbors: &mut NeighborTuple,
) -> (marking: Marking)
    ensures
        final(state)@ == old(state)@,
        marking == if old(tuple).deleted != 0 {
            Marking::Reusable
        } else if vacuum::has_block(old(tuple).heaptid) {
            Marking::Live
        } else {
            Marking::Deleted
        },
        final(state).insert_page == if marking != Marking::Live && old(state).insert_page
            == item_pointer::INVALID_BLOCK_NUMBER {
            blkno
        } else {
            old(state).insert_page
        },
        marking != Marking::Deleted ==> *final(tuple) == *old(tuple) && *final(neighbors) == *old(
            neighbors,
        ),
        marking == Marking::Deleted ==> is_marked(*old(tuple), *final(tuple)) && is_cleared(
            *old(neighbors),
            final(tuple).version,
            *final(neighbors),
        ),
{
    let marking: Marking = if tuple.deleted != 0 {
        Marking::Reusable
    } else if tuple.heaptid.block_number != item_pointer::INVALID_BLOCK_NUMBER {
        return Marking::Live;
    } else {
        tuple.deleted = 1;
        let mut i: usize = 0;
        let n: usize = tuple.vector.len();
        let ghost t0 = *tuple;
        while i < n
            invariant
                i <= n,
                n == tuple.vector@.len(),
                *tuple == (ElementTuple { vector: tuple.vector, ..t0 }),
                forall|j: int| #![trigger tuple.vector@[j]] 0 <= j < i ==> tuple.vector@[j] == 0,
            decreases n - i,
        {
            tuple.vector.set(i, 0);
            i = i + 1;
        }
        let mut k: usize = 0;
        let count: usize = neighbors.tids.len();
        while k < count
            invariant
                k <= count,
                count == neighbors.tids@.len(),
                forall|j: int|
                    #![trigger neighbors.tids@[j]]
                    0 <= j < k ==> neighbors.tids@[j] == item_pointer::invalid_pointer(),
            decreases count - k,
        {
            neighbors.tids.set(k, ItemPointer::new_invalid());
            k = k + 1;
        }
        let version: u8 = if tuple.version == 255 {
            0
        } else {
            tuple.version + 1
        };
        tuple.version = if version > 15 {
            1
        } else {
            version
        };
        neighbors.version = tuple.version;
        Marking::Deleted
    };
    if state.insert_page == item_pointer::INVALID_BLOCK_NUMBER {
        state.insert_page = blkno;
    }
    marking
}

} // verus!
