use pgvectorscale::hnswsq::meta::EntryUpdate;
use pgvectorscale::hnswsq::repair_pass::{RepairAction, RepairEvent, RepairPass};
use pgvectorscale::hnswsq::stored::StoredPage;
use pgvectorscale::hnswsq::tuple::{ElementTuple, NeighborTuple};
use pgvectorscale::hnswsq::types::pack_tid;
use pgvectorscale::hnswsq::vacuum::{PageItem, Point, VacuumState};
use pgvectorscale::util::item_pointer::{ItemPointer, INVALID_BLOCK_NUMBER};

const SHARED: RepairAction = RepairAction::Lock { exclusive: false };
const ALONE: RepairAction = RepairAction::Lock { exclusive: true };

fn tid(block: u32, offset: u16) -> ItemPointer {
    ItemPointer::new(block, offset)
}

fn point(blkno: u32, offno: u16, level: u8) -> Point {
    Point { blkno, offno, level }
}

fn element(heap: Option<u32>, level: u8, deleted: u8) -> PageItem {
    let heaptid = match heap {
        Some(b) => tid(b, 1),
        None => ItemPointer::new_invalid(),
    };
    PageItem::Element {
        tuple: ElementTuple {
            layout: 0,
            level,
            deleted,
            version: 1,
            clamped: 0,
            heaptid,
            neighbortid: tid(50, 1),
            vector: vec![],
        },
    }
}

fn list(tids: &[ItemPointer]) -> RepairEvent {
    RepairEvent::List { tuple: NeighborTuple { version: 1, tids: tids.to_vec() } }
}

fn good() -> RepairEvent {
    list(&[tid(1, 1), tid(2, 1)])
}

fn bad() -> RepairEvent {
    list(&[tid(9, 1), tid(2, 1)])
}

fn entry(entry: Option<Point>) -> RepairEvent {
    RepairEvent::Entry { entry }
}

fn page(blkno: u32, items: Vec<PageItem>, next: u32) -> RepairEvent {
    RepairEvent::Page { page: StoredPage { blkno, items }, next }
}

/// Hand the events to the pass, and check what it asks for before each of them.
fn drive(pass: &mut RepairPass, state: &VacuumState, script: Vec<(RepairAction, RepairEvent)>) {
    for (action, event) in script {
        assert_eq!(pass.action(), action);
        let next = pass.next(state, event);
        assert_eq!(next, pass.action());
    }
}

fn done(action: RepairAction) -> (RepairAction, RepairEvent) {
    (action, RepairEvent::Performed)
}

fn state() -> VacuumState {
    let mut state = VacuumState::new();
    let _ = state.deleting.insert(pack_tid(tid(9, 1)));
    state
}

#[test]
fn an_empty_graph_needs_no_repair() {
    let mut pass = RepairPass::new(INVALID_BLOCK_NUMBER);
    drive(
        &mut pass,
        &state(),
        vec![
            done(ALONE),
            done(RepairAction::Unlock),
            done(ALONE),
            (RepairAction::ReadEntry, entry(None)),
            done(RepairAction::Unlock),
        ],
    );
    assert_eq!(pass.action(), RepairAction::Finish);
}

#[test]
fn the_entry_point_is_replaced_by_the_point_that_was_repaired() {
    let mut s = state();
    s.highest = Some(point(4, 1, 3));
    s.fallback = Some(point(5, 1, 2));
    let mut pass = RepairPass::new(INVALID_BLOCK_NUMBER);
    let gone = Some(point(9, 1, 6));
    drive(
        &mut pass,
        &s,
        vec![
            done(ALONE),
            done(RepairAction::Unlock),
            done(SHARED),
            (RepairAction::ReadEntry, entry(gone)),
            (RepairAction::ReadList { element: point(4, 1, 3) }, bad()),
            done(RepairAction::Repair { element: point(4, 1, 3), from: gone }),
            done(RepairAction::Unlock),
            done(ALONE),
            (RepairAction::ReadEntry, entry(gone)),
            done(RepairAction::UpdateEntry {
                update: EntryUpdate::Always,
                entry: Some(point(4, 1, 3)),
            }),
            done(RepairAction::Unlock),
        ],
    );
    assert_eq!(pass.action(), RepairAction::Finish);
}

#[test]
fn a_live_entry_point_is_repaired_from_the_fallback() {
    let mut s = state();
    s.highest = Some(point(4, 1, 3));
    s.fallback = Some(point(5, 1, 2));
    let mut pass = RepairPass::new(INVALID_BLOCK_NUMBER);
    let e = Some(point(4, 1, 3));
    drive(
        &mut pass,
        &s,
        vec![
            done(ALONE),
            done(RepairAction::Unlock),
            done(SHARED),
            (RepairAction::ReadEntry, entry(e)),
            (RepairAction::ReadList { element: point(5, 1, 2) }, good()),
            done(RepairAction::Unlock),
            done(ALONE),
            (RepairAction::ReadEntry, entry(e)),
            (RepairAction::ReadList { element: point(4, 1, 3) }, bad()),
            done(RepairAction::Repair {
                element: point(4, 1, 3),
                from: Some(point(5, 1, 2)),
            }),
            done(RepairAction::Unlock),
        ],
    );
    assert_eq!(pass.action(), RepairAction::Finish);
}

#[test]
fn every_live_element_of_every_page_is_dealt_with() {
    let s = state();
    let mut pass = RepairPass::new(7);
    let low = Some(point(1, 1, 0));
    let high = Some(point(2, 1, 8));
    drive(
        &mut pass,
        &s,
        vec![
            done(ALONE),
            done(RepairAction::Unlock),
            done(ALONE),
            (RepairAction::ReadEntry, entry(None)),
            done(RepairAction::Unlock),
            // A neighbor list, a deleted element and one without a row.
            (
                RepairAction::ReadPage { blkno: 7 },
                page(
                    7,
                    vec![
                        element(Some(100), 1, 0),
                        PageItem::Neighbors { tuple: NeighborTuple { version: 1, tids: vec![] } },
                        element(Some(101), 1, 1),
                        element(None, 1, 0),
                        element(Some(102), 2, 0),
                    ],
                    8,
                ),
            ),
            (RepairAction::ReadList { element: point(7, 1, 1) }, good()),
            (RepairAction::ReadList { element: point(7, 5, 2) }, bad()),
            done(SHARED),
            (RepairAction::ReadEntry, entry(low)),
            // It may become the entry point: it is repaired alone.
            done(RepairAction::Unlock),
            done(ALONE),
            (RepairAction::ReadEntry, entry(low)),
            done(RepairAction::Repair { element: point(7, 5, 2), from: low }),
            done(RepairAction::UpdateEntry {
                update: EntryUpdate::IfHigher,
                entry: Some(point(7, 5, 2)),
            }),
            done(RepairAction::Unlock),
            (
                RepairAction::ReadPage { blkno: 8 },
                page(8, vec![element(Some(103), 3, 0), element(Some(104), 3, 0)], 4),
            ),
            (RepairAction::ReadList { element: point(8, 1, 3) }, bad()),
            done(SHARED),
            (RepairAction::ReadEntry, entry(high)),
            done(RepairAction::Repair { element: point(8, 1, 3), from: high }),
            done(RepairAction::Unlock),
            // An entry point that came up meanwhile is not replaced.
            (
                RepairAction::ReadList { element: point(8, 2, 3) },
                list(&[tid(1, 1), ItemPointer::new_invalid()]),
            ),
            done(SHARED),
            (RepairAction::ReadEntry, entry(None)),
            done(RepairAction::Unlock),
            done(ALONE),
            (RepairAction::ReadEntry, entry(high)),
            done(RepairAction::Repair { element: point(8, 2, 3), from: high }),
            done(RepairAction::Unlock),
            (RepairAction::ReadPage { blkno: 4 }, page(4, vec![], INVALID_BLOCK_NUMBER)),
        ],
    );
    assert_eq!(pass.action(), RepairAction::Finish);
}
