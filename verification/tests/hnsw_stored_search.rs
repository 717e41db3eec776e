use pgvectorscale::hnswsq::layer_search::SearchCandidate;
use pgvectorscale::hnswsq::memory::ElementArena;
use pgvectorscale::hnswsq::repair::refers_to_deleted;
use pgvectorscale::hnswsq::repair_element::repair_graph_element;
use pgvectorscale::hnswsq::stored::{StoredGraph, StoredPage, WalkError};
use pgvectorscale::hnswsq::stored_neighbors::find_stored_neighbors;
use pgvectorscale::hnswsq::stored_search::{load_element_impl, search_layer, StoredResult};
use pgvectorscale::hnswsq::tuple::{ElementTuple, LoadError, NeighborTuple};
use pgvectorscale::hnswsq::types::{pack_tid, Visited};
use pgvectorscale::hnswsq::vacuum::PageItem;
use pgvectorscale::util::item_pointer::ItemPointer;

fn tid(block: u32, offset: u16) -> ItemPointer {
    ItemPointer::new(block, offset)
}

fn element(value: u8, block: u32) -> ElementTuple {
    ElementTuple {
        layout: 0,
        level: 0,
        deleted: 0,
        version: 1,
        clamped: 0,
        heaptid: tid(100 + block, 1),
        neighbortid: tid(block, 2),
        vector: vec![value],
    }
}

/// Elements on a line, each on a page of its own and linked to the next ones:
/// element `i` holds the value `10 * i`.
fn line(n: u32) -> StoredGraph {
    let page = |i: u32| {
        let mut tids = Vec::new();
        if i > 0 {
            tids.push(tid(i - 1, 1));
        }
        if i + 1 < n {
            tids.push(tid(i + 1, 1));
        }
        tids.resize(4, ItemPointer::new_invalid());
        StoredPage {
            blkno: i,
            items: vec![
                PageItem::Element { tuple: element(10 * i as u8, i) },
                PageItem::Neighbors { tuple: NeighborTuple { version: 1, tids } },
            ],
        }
    };
    StoredGraph { pages: (0..n).map(page).collect(), entry: Some(tid(0, 1)), m: 2 }
}

fn tuple_mut(graph: &mut StoredGraph, page: usize) -> &mut ElementTuple {
    match &mut graph.pages[page].items[0] {
        PageItem::Element { tuple } => tuple,
        PageItem::Neighbors { .. } => panic!("an element comes first"),
    }
}

/// Search for the elements nearest to `q`, from the first element.
fn search(
    graph: &StoredGraph,
    q: i32,
    ef: usize,
    skipping: bool,
    track: bool,
    arena: &mut ElementArena,
    v: &mut Visited,
) -> Result<StoredResult, WalkError> {
    let distance = |bytes: &Vec<u8>| -> i32 { (bytes[0] as i32 - q).abs() };
    let first = match graph.find_item(tid(0, 1)) {
        Some(PageItem::Element { tuple }) => tuple,
        _ => panic!("an element comes first"),
    };
    let d = distance(&first.vector);
    let place = load_element_impl(arena, tid(0, 1), first, Some(d), None, true).unwrap().unwrap();
    let ep = vec![SearchCandidate { element: place, distance: d, key: pack_tid(tid(0, 1)) }];
    search_layer(graph, &distance, &ep, ef, 0, skipping, v, track, true, arena, false)
}

fn found(r: &StoredResult, arena: &ElementArena) -> Vec<(u32, i32)> {
    r.w.iter().map(|c| (arena.elements[c.element].blkno, c.distance)).collect()
}

#[test]
fn the_nearest_stored_elements_are_found() {
    let graph = line(6);
    let (mut arena, mut v) = (ElementArena::new(), Visited::new(8));
    let r = search(&graph, 31, 2, false, false, &mut arena, &mut v).unwrap();
    assert_eq!(found(&r, &arena), vec![(4, 9), (3, 1)]);
    assert!(r.discarded.is_empty());
    // The last one is met, and not loaded: it lies too far.
    assert_eq!(r.tuples, 6);
    assert_eq!(arena.elements.len(), 5);
    assert!(v.contains(pack_tid(tid(5, 1))));
    // The entry point was loaded with its vector, the others without.
    assert_eq!(arena.elements[0].value, vec![0]);
    assert!(arena.elements[1].value.is_empty());
}

#[test]
fn stored_candidates_that_are_turned_away_are_kept() {
    let graph = line(6);
    let (mut arena, mut v) = (ElementArena::new(), Visited::new(8));
    let r = search(&graph, 31, 2, false, true, &mut arena, &mut v).unwrap();
    assert_eq!(found(&r, &arena), vec![(4, 9), (3, 1)]);
    let mut away: Vec<u32> =
        r.discarded.iter().map(|c| arena.elements[c.element].blkno).collect();
    away.sort();
    assert_eq!(away, vec![0, 1, 2, 5]);
    assert_eq!(arena.elements.len(), 6);
}

#[test]
fn rowless_stored_elements_do_not_count_where_they_are_skipped() {
    let mut graph = line(6);
    tuple_mut(&mut graph, 3).heaptid = ItemPointer::new_invalid();
    let (mut arena, mut v) = (ElementArena::new(), Visited::new(8));
    let r = search(&graph, 31, 2, true, false, &mut arena, &mut v).unwrap();
    assert!(found(&r, &arena).contains(&(3, 1)));
    assert!(found(&r, &arena).contains(&(4, 9)));
    let rows = r.w.iter().filter(|c| arena.elements[c.element].heaptid_set).count();
    assert!(rows >= 2);
}

#[test]
fn replaced_lists_are_not_followed() {
    let mut graph = line(6);
    match &mut graph.pages[2].items[1] {
        PageItem::Neighbors { tuple } => tuple.version = 2,
        PageItem::Element { .. } => panic!("a list comes second"),
    }
    let (mut arena, mut v) = (ElementArena::new(), Visited::new(8));
    let r = search(&graph, 31, 2, false, false, &mut arena, &mut v).unwrap();
    assert_eq!(found(&r, &arena), vec![(1, 21), (2, 11)]);
}

#[test]
fn searches_fail_on_deleted_and_missing_elements() {
    let mut graph = line(6);
    tuple_mut(&mut graph, 2).deleted = 1;
    let (mut arena, mut v) = (ElementArena::new(), Visited::new(8));
    let r = search(&graph, 31, 2, false, false, &mut arena, &mut v);
    assert_eq!(r.err(), Some(WalkError::Deleted));
    let mut graph = line(6);
    graph.pages[3].items.clear();
    let (mut arena, mut v) = (ElementArena::new(), Visited::new(8));
    let r = search(&graph, 31, 2, false, false, &mut arena, &mut v);
    assert_eq!(r.err(), Some(WalkError::Missing));
    // Its neighbors are missing.
    let mut graph = line(6);
    let _ = graph.pages[3].items.pop();
    let (mut arena, mut v) = (ElementArena::new(), Visited::new(8));
    let r = search(&graph, 31, 2, false, false, &mut arena, &mut v);
    assert_eq!(r.err(), Some(WalkError::Missing));
}

#[test]
fn elements_are_loaded_unless_they_lie_too_far() {
    let mut arena = ElementArena::new();
    let mut t = element(7, 3);
    assert_eq!(load_element_impl(&mut arena, tid(3, 1), &t, Some(5), Some(5), true), Ok(None));
    assert_eq!(arena.len(), 0);
    assert_eq!(load_element_impl(&mut arena, tid(3, 1), &t, Some(4), Some(5), true), Ok(Some(0)));
    assert_eq!((arena.elements[0].blkno, arena.elements[0].offno), (3, 1));
    assert_eq!(arena.elements[0].value, vec![7]);
    t.deleted = 1;
    let r = load_element_impl(&mut arena, tid(3, 1), &t, None, None, true);
    assert_eq!(r, Err(LoadError::Deleted));
    assert_eq!(arena.len(), 1);
}

fn between(a: &Vec<u8>, b: &Vec<u8>) -> i32 {
    (a[0] as i32 - b[0] as i32).abs()
}

fn list_at(graph: &StoredGraph, page: usize) -> Vec<ItemPointer> {
    match &graph.pages[page].items[1] {
        PageItem::Neighbors { tuple } => tuple.tids.clone(),
        PageItem::Element { .. } => panic!("a list comes second"),
    }
}

#[test]
fn loaded_elements_are_what_is_stored() {
    let mut graph = line(3);
    tuple_mut(&mut graph, 1).clamped = 7;
    tuple_mut(&mut graph, 2).heaptid = ItemPointer::new_invalid();
    let (mut arena, mut v) = (ElementArena::new(), Visited::new(8));
    let distance = |bytes: &Vec<u8>| -> i32 { bytes[0] as i32 };
    let first = tuple_mut(&mut graph, 0).clone();
    load_element_impl(&mut arena, tid(0, 1), &first, None, None, true).unwrap();
    let ep = vec![SearchCandidate { element: 0, distance: 0, key: pack_tid(tid(0, 1)) }];
    search_layer(&graph, &distance, &ep, 9, 0, false, &mut v, false, true, &mut arena, true)
        .unwrap();
    let (one, two) = (&arena.elements[1], &arena.elements[2]);
    assert_eq!((one.value.clone(), one.heaptid, one.clamped), (vec![10], tid(101, 1), 7));
    assert!(one.heaptid_set && one.neighbors.is_empty());
    assert_eq!((one.blkno, one.offno, one.neighbor_page, one.neighbor_offno), (1, 1, 1, 2));
    assert!(!two.heaptid_set);
    assert_eq!(two.value, vec![20]);
}

#[test]
fn neighbors_are_found_in_the_stored_graph() {
    // The new element lies at 31, between the fourth and the fifth one.
    let mut graph = line(6);
    tuple_mut(&mut graph, 3).heaptid = ItemPointer::new_invalid();
    let distance = |bytes: &Vec<u8>| -> i32 { (bytes[0] as i32 - 31).abs() };
    let mut arena = ElementArena::new();
    let found =
        find_stored_neighbors(&graph, 2, tid(0, 1), &distance, &between, 3, None, &mut arena)
            .unwrap();
    // The graph has one layer; the rowless element is not chosen.
    assert_eq!(found.len(), 1);
    let blocks: Vec<u32> = found[0].iter().map(|c| arena.elements[c.element].blkno).collect();
    assert_eq!(blocks, vec![2, 4]);
    // Where the element itself is skipped, rowless ones do not count.
    let mut arena = ElementArena::new();
    let skip = Some(tid(4, 1));
    let found =
        find_stored_neighbors(&graph, 0, tid(0, 1), &distance, &between, 2, skip, &mut arena)
            .unwrap();
    let mut blocks: Vec<u32> = found[0].iter().map(|c| arena.elements[c.element].blkno).collect();
    blocks.sort();
    assert_eq!(blocks, vec![2, 5]);
    // Failures.
    let mut arena = ElementArena::new();
    let missing = find_stored_neighbors(
        &graph, 0, tid(9, 1), &distance, &between, 2, None, &mut arena,
    );
    assert_eq!(missing.unwrap_err(), WalkError::Missing);
    tuple_mut(&mut graph, 2).deleted = 1;
    let deleted = find_stored_neighbors(
        &graph, 0, tid(0, 1), &distance, &between, 2, None, &mut arena,
    );
    assert_eq!(deleted.unwrap_err(), WalkError::Deleted);
    let gone = find_stored_neighbors(
        &graph, 0, tid(2, 1), &distance, &between, 2, None, &mut arena,
    );
    assert_eq!(gone.unwrap_err(), WalkError::Deleted);
}

#[test]
fn repaired_elements_refer_to_live_ones() {
    let mut graph = line(5);
    // The second element has lost its row.
    tuple_mut(&mut graph, 1).heaptid = ItemPointer::new_invalid();
    let distance = |bytes: &Vec<u8>| -> i32 { bytes[0] as i32 };
    let entry = Some(tid(4, 1));
    assert_eq!(
        repair_graph_element(&mut graph, tid(0, 1), entry, &distance, &between, 10),
        Ok(true)
    );
    let mut deleting = Visited::new(4);
    let _ = deleting.insert(pack_tid(tid(1, 1)));
    let list = NeighborTuple { version: 1, tids: list_at(&graph, 0) };
    assert!(!refers_to_deleted(&list, &deleting));
    // All that are live and not the element itself, furthest first as found.
    assert_eq!(
        list.tids,
        vec![tid(4, 1), tid(3, 1), tid(2, 1), ItemPointer::new_invalid()]
    );
    // The other lists are left alone, and so is the entry point.
    assert_eq!(list_at(&graph, 2)[..2], [tid(1, 1), tid(3, 1)]);
    assert_eq!(
        repair_graph_element(&mut graph, tid(4, 1), entry, &distance, &between, 10),
        Ok(false)
    );
    // Without an entry point there are no neighbors.
    assert_eq!(
        repair_graph_element(&mut graph, tid(3, 1), None, &distance, &between, 10),
        Ok(true)
    );
    assert_eq!(list_at(&graph, 3), vec![ItemPointer::new_invalid(); 4]);
    // Failures leave the graph as it is.
    assert_eq!(
        repair_graph_element(&mut graph, tid(8, 1), entry, &distance, &between, 10),
        Err(WalkError::Missing)
    );
    tuple_mut(&mut graph, 2).deleted = 1;
    assert_eq!(
        repair_graph_element(&mut graph, tid(2, 1), entry, &distance, &between, 10),
        Err(WalkError::Deleted)
    );
    tuple_mut(&mut graph, 0).neighbortid = tid(0, 1);
    assert_eq!(
        repair_graph_element(&mut graph, tid(0, 1), entry, &distance, &between, 10),
        Err(WalkError::Missing)
    );
}
