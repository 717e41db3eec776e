use pgvectorscale::hnswsq::memory::GraphMemory;
use pgvectorscale::hnswsq::meta::{
    create_meta_page, get_entry_point, get_meta_page_info, meta_page_layout, set_meta_calibration,
    update_meta_page, BadMagic, EntryUpdate,
};
use pgvectorscale::hnswsq::params::get_max_level;
use pgvectorscale::hnswsq::region::{confirm_repaired, mark_deleted, remove_heap_tids};
use pgvectorscale::hnswsq::repair::{
    entry_repair, entry_update, mark_element, may_become_entry, needs_updated, refers_to_deleted,
    repair_point, EntryRepair, Marking, NotRepaired,
};
use pgvectorscale::hnswsq::tuple::{ElementTuple, NeighborTuple};
use pgvectorscale::hnswsq::types::{
    init_element, pack_tid, Candidate, Element, Graph, Visited,
};
use pgvectorscale::hnswsq::vacuum::{remove_page_heap_tids, PageItem, Point, VacuumState};
use pgvectorscale::hnswsq2::backlinks::update_neighbors_in_memory;
use pgvectorscale::hnswsq2::budget::{
    check_build_parameters, estimate_chunk, graph_memory, insertion_path, parallel_workers,
    shared_area_bytes, BuildError, InsertionPath,
};
use pgvectorscale::hnswsq::stored::{StoredGraph, StoredPage, WalkError};
use pgvectorscale::hnswsq2::diag::hnswsq2_diag;
use pgvectorscale::hnswsq2::insertion::BuildGraph;
use pgvectorscale::hnswsq2::options::{Hnsw2Options, IterativeScanMode};
use pgvectorscale::hnswsq2::placement::{
    create_graph_pages, place_element, ItemSizes, PageLimits, PageRoom, Placement, PlacementError,
};
use pgvectorscale::hnswsq2::sampling::SampleState;
use pgvectorscale::util::item_pointer::{ItemPointer, INVALID_BLOCK_NUMBER};

const LIMITS: PageLimits = PageLimits { capacity: 8156, max_item: 8152 };

fn tid(block: u32, offset: u16) -> ItemPointer {
    ItemPointer::new(block, offset)
}

fn point(blkno: u32, offno: u16, level: u8) -> Point {
    Point { blkno, offno, level }
}

fn element(heap: Option<u32>, level: u8, neighbortid: ItemPointer) -> ElementTuple {
    ElementTuple {
        layout: 0,
        level,
        deleted: 0,
        version: 1,
        clamped: 0,
        heaptid: match heap {
            Some(b) => tid(b, 1),
            None => ItemPointer::new_invalid(),
        },
        neighbortid,
        vector: vec![1, 2, 3],
    }
}

/// A neighbor list of an element of level 0, for two neighbors per layer.
fn list(tids: &[ItemPointer]) -> NeighborTuple {
    let mut all = tids.to_vec();
    all.resize(4, ItemPointer::new_invalid());
    NeighborTuple { version: 1, tids: all }
}

#[test]
fn test_levels_and_sizes() {
    assert!(get_max_level(8152, 4, 16) >= 16);
    let ml: f64 = 1.0 / 16f64.ln();
    assert!((ml - 1.0 / 16f64.ln()).abs() < 1e-12);
    let sizes = ItemSizes { element: 24 + 512, neighbors_header: 4, m: 16 };
    let nt = sizes.neighbors_size(2);
    assert_eq!(nt, 392);
    assert!(sizes.element + nt + 4 <= LIMITS.max_item);
}

#[test]
fn metapages_track_the_entry_point() {
    let mut page = create_meta_page(0xA, 1, 128, 16, 64, 2, tid(4, 1));
    assert_eq!(page.verify(0xA), Ok(()));
    assert_eq!(page.verify(0xB), Err(BadMagic));
    assert_eq!(get_entry_point(&page, 0xA).unwrap(), None);
    assert_eq!(meta_page_layout(&page, 0xA), Ok((2, 128, tid(4, 1))));
    assert_eq!(meta_page_layout(&page, 0xB), Err(BadMagic));
    assert_eq!(get_meta_page_info(&page, 0xA), Ok((16, None)));
    assert_eq!(get_meta_page_info(&page, 0xB), Err(BadMagic));
    update_meta_page(&mut page, EntryUpdate::IfHigher, Some(point(5, 1, 2)), 5);
    assert_eq!(get_entry_point(&page, 0xA).unwrap(), Some(point(5, 1, 2)));
    update_meta_page(&mut page, EntryUpdate::IfHigher, Some(point(6, 1, 2)), INVALID_BLOCK_NUMBER);
    assert_eq!(get_entry_point(&page, 0xA).unwrap(), Some(point(5, 1, 2)));
    assert_eq!(page.insert_page, 5);
    update_meta_page(&mut page, EntryUpdate::Always, Some(point(7, 1, 0)), 8);
    assert_eq!(get_entry_point(&page, 0xA).unwrap(), Some(point(7, 1, 0)));
    update_meta_page(&mut page, EntryUpdate::Keep, None, 9);
    assert_eq!((get_entry_point(&page, 0xA).unwrap(), page.insert_page), (Some(point(7, 1, 0)), 9));
    update_meta_page(&mut page, EntryUpdate::Always, None, INVALID_BLOCK_NUMBER);
    assert_eq!(get_entry_point(&page, 0xA).unwrap(), None);
    set_meta_calibration(&mut page, tid(11, 2));
    assert_eq!(meta_page_layout(&page, 0xA), Ok((2, 128, tid(11, 2))));
}

#[test]
fn vacuum_collects_dead_elements() {
    let mut state = VacuumState::new();
    let mut items = vec![
        PageItem::Element { tuple: element(Some(100), 1, tid(3, 2)) },
        PageItem::Neighbors { tuple: list(&[]) },
        PageItem::Element { tuple: element(Some(101), 3, tid(3, 4)) },
        PageItem::Element { tuple: element(None, 5, tid(3, 5)) },
        PageItem::Element { tuple: element(Some(102), 2, tid(3, 6)) },
    ];
    let dead = vec![false, false, false, false, true];
    assert!(remove_page_heap_tids(&mut state, 3, &mut items, &dead));
    assert_eq!((state.tuples_removed, state.num_index_tuples), (1, 2));
    assert!(state.deleting.contains(pack_tid(tid(3, 4))));
    assert!(state.deleting.contains(pack_tid(tid(3, 5))));
    assert!(!state.deleting.contains(pack_tid(tid(3, 1))));
    assert_eq!(state.highest, Some(point(3, 3, 3)));
    assert_eq!(state.fallback, Some(point(3, 1, 1)));
    // A second pass changes nothing.
    assert!(!remove_page_heap_tids(&mut state, 3, &mut items, &vec![false; 5]));
}

#[test]
fn lists_that_refer_to_deleted_elements_are_repaired() {
    let mut deleting = Visited::new(4);
    let _ = deleting.insert(pack_tid(tid(9, 1)));
    let full = list(&[tid(1, 1), tid(2, 1), tid(3, 1), tid(4, 1)]);
    let bad = list(&[tid(1, 1), tid(9, 1), tid(3, 1), tid(4, 1)]);
    let short = list(&[tid(1, 1)]);
    assert!(!needs_updated(&full, &deleting));
    assert!(needs_updated(&bad, &deleting));
    assert!(needs_updated(&short, &deleting));
    assert!(!refers_to_deleted(&full, &deleting));
    assert!(refers_to_deleted(&bad, &deleting));
    assert!(!refers_to_deleted(&short, &deleting));
}

#[test]
fn the_entry_point_is_repaired_first() {
    let mut state = VacuumState::new();
    assert_eq!(repair_point(&state, None), None);
    state.highest = Some(point(1, 1, 4));
    state.fallback = Some(point(2, 1, 3));
    assert_eq!(repair_point(&state, None), state.highest);
    assert_eq!(repair_point(&state, Some(point(1, 1, 4))), state.fallback);
    assert_eq!(repair_point(&state, Some(point(8, 1, 4))), state.highest);
    let _ = state.deleting.insert(pack_tid(tid(8, 1)));
    let p = state.highest;
    assert_eq!(entry_repair(None, &state.deleting, p), EntryRepair::Nothing);
    assert_eq!(
        entry_repair(Some(point(8, 1, 4)), &state.deleting, p),
        EntryRepair::Replace { with: p }
    );
    assert_eq!(
        entry_repair(Some(point(7, 1, 4)), &state.deleting, p),
        EntryRepair::Repair { from: p }
    );
    assert!(may_become_entry(None, 0));
    assert!(may_become_entry(Some(point(7, 1, 4)), 5));
    assert_eq!(entry_update(Some(point(7, 1, 4)), 4), EntryUpdate::Keep);
    assert_eq!(entry_update(None, 4), EntryUpdate::IfHigher);
}

#[test]
fn deleted_elements_are_marked() {
    let mut state = VacuumState::new();
    let mut live = element(Some(1), 0, tid(2, 2));
    let mut n = list(&[tid(5, 1)]);
    assert_eq!(mark_element(&mut state, 2, &mut live, &mut n), Marking::Live);
    assert_eq!(n.tids[0], tid(5, 1));
    assert_eq!(state.insert_page, INVALID_BLOCK_NUMBER);
    let mut gone = element(None, 0, tid(2, 2));
    assert_eq!(mark_element(&mut state, 2, &mut gone, &mut n), Marking::Deleted);
    assert_eq!((gone.deleted, gone.version), (1, 2));
    assert_eq!(gone.vector, vec![0, 0, 0]);
    assert!(n.tids.iter().all(|t| !t.is_valid()));
    assert_eq!(n.version, 2);
    assert_eq!(state.insert_page, 2);
    assert_eq!(mark_element(&mut state, 7, &mut gone, &mut n), Marking::Reusable);
    assert_eq!(state.insert_page, 2);
    gone.deleted = 0;
    gone.version = 15;
    let _ = mark_element(&mut state, 7, &mut gone, &mut n);
    assert_eq!(gone.version, 1);
}

#[test]
fn items_are_placed_together_where_they_fit() {
    let mut room = PageRoom::empty(7, &LIMITS);
    assert_eq!(room.free_space(), 8152);
    let p = place_element(&mut room, &LIMITS, 3000, 1000).unwrap();
    assert_eq!(p, Placement { blkno: 7, offno: 1, neighbor_page: 7, neighbor_offno: 2 });
    let p = place_element(&mut room, &LIMITS, 3000, 1000).unwrap();
    assert_eq!(p, Placement { blkno: 7, offno: 3, neighbor_page: 7, neighbor_offno: 4 });
    // No room for both: the next page.
    let p = place_element(&mut room, &LIMITS, 3000, 1000).unwrap();
    assert_eq!((p.blkno, p.offno), (8, 1));
    // Too large for one page together.
    let p = place_element(&mut room, &LIMITS, 4096, 8000).unwrap();
    assert_eq!((p.blkno, p.neighbor_page, p.neighbor_offno), (8, 9, 1));
    assert_eq!(
        place_element(&mut room, &LIMITS, 9000, 8),
        Err(PlacementError::TooLarge)
    );
    assert_eq!(
        place_element(&mut room, &LIMITS, 8, 8160),
        Err(PlacementError::FailedToAdd)
    );
    let mut room = PageRoom::empty(1, &LIMITS);
    assert_eq!(room.add_item(8, &LIMITS), Some(1));
    assert_eq!(room.add_item(8152, &LIMITS), None);
    assert_eq!(room.items, 1);
}

#[test]
fn graphs_are_written_from_the_last_element_on() {
    let mut graph = Graph {
        elements: (0..3).map(|i| init_element(tid(i, 1), 0)).collect(),
    };
    let sizes = ItemSizes { element: 4000, neighbors_header: 4, m: 4 };
    assert_eq!(create_graph_pages(&mut graph, &LIMITS, &sizes, 1), Ok(2));
    let blocks: Vec<u32> = graph.elements.iter().map(|e| e.blkno).collect();
    assert_eq!(blocks, vec![2, 1, 1]);
    assert_eq!(graph.elements[2].offno, 1);
    assert_eq!(graph.elements[1].offno, 3);
    let sizes = ItemSizes { element: 9000, neighbors_header: 4, m: 4 };
    assert_eq!(
        create_graph_pages(&mut graph, &LIMITS, &sizes, 1),
        Err(PlacementError::TooLarge)
    );
}

#[test]
fn builds_use_memory_until_it_is_full() {
    let memory = GraphMemory { used: 100, total: 200 };
    assert_eq!(insertion_path(false, &memory, 50), InsertionPath::InMemory);
    assert_eq!(insertion_path(false, &memory, 100), InsertionPath::FlushFirst);
    assert_eq!(insertion_path(true, &memory, 0), InsertionPath::OnDisk);
    assert_eq!(graph_memory(true, 1000, 500), GraphMemory { used: 8, total: 500 });
    assert_eq!(graph_memory(false, 100, 500), GraphMemory { used: 0, total: 100 });
    assert_eq!(estimate_chunk(10, 13), 90);
    assert_eq!(shared_area_bytes(65536, usize::MAX), 65536 * 1024 - 3145728);
    assert_eq!(shared_area_bytes(1024, usize::MAX), 1024 * 1024);
    assert_eq!(shared_area_bytes(65536, 1000), 1000);
    assert_eq!(parallel_workers(0, 4), 0);
    assert_eq!(parallel_workers(2, 4), 4);
}

#[test]
fn build_parameters_are_checked() {
    assert_eq!(check_build_parameters(-1, 2000, 16, 64), Err(BuildError::NoDimension));
    assert_eq!(check_build_parameters(2001, 2000, 16, 64), Err(BuildError::TooManyDimensions));
    assert_eq!(check_build_parameters(100, 2000, 16, 31), Err(BuildError::EfTooSmall));
    assert_eq!(check_build_parameters(100, 2000, 16, 32), Ok(100));
}

#[test]
fn options_have_defaults() {
    let mut o = Hnsw2Options::defaults();
    assert!(o.is_valid());
    assert_eq!((o.get_m(), o.get_ef_construction(), o.get_sample_size()), (16, 64, 30000));
    o.sample_size = 5;
    assert_eq!(o.get_sample_size(), 5);
    o.m = 3;
    assert!(!o.is_valid());
    assert_eq!(IterativeScanMode::default().as_i32(), 1);
    assert_eq!(IterativeScanMode::Strict.as_i32(), 2);
    assert_eq!(IterativeScanMode::Off.as_i32(), 0);
}

#[test]
fn samples_fill_up_and_then_change() {
    let mut s = SampleState::new(2, 7);
    s.offer(vec![1]);
    s.offer(vec![2]);
    assert_eq!(s.sample, vec![vec![1], vec![2]]);
    s.take(vec![3], 1);
    assert_eq!(s.sample, vec![vec![1], vec![3]]);
    s.take(vec![4], 2);
    assert_eq!((s.sample.len(), s.nrows), (2, 4));
    let mut t = SampleState::new(10, -1);
    for i in 0..200 {
        t.offer(vec![i]);
    }
    assert_eq!(t.sample.len(), 10);
    assert!(t.sample.iter().any(|r| r[0] >= 10));
}

#[test]
fn seeded_samples_repeat() {
    let run = |seed| {
        let mut s = SampleState::new(5, seed);
        for i in 0..100u32 {
            s.offer(vec![i]);
        }
        s.sample
    };
    assert_eq!(run(3), run(3));
    assert_ne!(run(3), run(4));
}

#[test]
fn inserted_elements_are_connected() {
    let at: Vec<i32> = (0..30).map(|i| (i * 7) % 30).collect();
    let pair = |a: usize, b: usize| -> i32 { (at[a] - at[b]).abs() };
    let mut b = BuildGraph::new();
    for i in 0..30usize {
        let distance = |e: usize| -> i32 { (at[e] - at[i]).abs() };
        b.insert(init_element(tid(i as u32, 1), (i % 5 == 3) as u8), &distance, &pair, 2, 16);
    }
    assert_eq!(b.graph.elements.len(), 30);
    assert_eq!(b.entry_point, Some(3));
    for (i, e) in b.graph.elements.iter().enumerate() {
        assert!(e.neighbors[0].items.len() <= 4);
        if i > 0 {
            assert!(!e.neighbors[0].items.is_empty());
        }
    }
    // Everything can be reached.
    let mut seen = vec![false; 30];
    let mut queue = vec![3usize];
    seen[3] = true;
    while let Some(e) = queue.pop() {
        for c in &b.graph.elements[e].neighbors[0].items {
            if !seen[c.element] {
                seen[c.element] = true;
                queue.push(c.element);
            }
        }
    }
    assert!(seen.iter().all(|&s| s));
}

#[test]
fn neighbors_are_connected_back() {
    let mut graph = Graph {
        elements: (0..3).map(|i| init_element(tid(i, 1), 0)).collect(),
    };
    let c = |e| Candidate { element: e, distance: 1, closer: false };
    graph.elements[2].neighbors[0].items = vec![c(0), c(1)];
    let pair = |a: usize, b: usize| -> i32 { (a as i32 - b as i32).abs() };
    update_neighbors_in_memory(&mut graph, 2, 4, &pair);
    assert_eq!(graph.elements[0].neighbors[0].items[0].element, 2);
    assert_eq!(graph.elements[1].neighbors[0].items[0].element, 2);
}

/// Two elements that list each other, and a third that nobody lists.
fn stored_graph() -> StoredGraph {
    StoredGraph {
        pages: vec![
            StoredPage {
                blkno: 3,
                items: vec![
                    PageItem::Element { tuple: element(Some(1), 0, tid(3, 2)) },
                    PageItem::Neighbors { tuple: list(&[tid(4, 1)]) },
                ],
            },
            StoredPage {
                blkno: 4,
                items: vec![
                    PageItem::Element { tuple: element(Some(2), 0, tid(4, 2)) },
                    PageItem::Neighbors { tuple: list(&[tid(3, 1)]) },
                    PageItem::Element { tuple: element(None, 0, tid(4, 4)) },
                    PageItem::Neighbors { tuple: list(&[]) },
                ],
            },
        ],
        entry: Some(tid(3, 1)),
        m: 2,
    }
}

fn dead_rows(graph: &StoredGraph, dead: &[(u32, u16)]) -> Vec<Vec<bool>> {
    let of_page = |p: &StoredPage| {
        (0..p.items.len()).map(|i| dead.contains(&(p.blkno, i as u16 + 1))).collect()
    };
    graph.pages.iter().map(of_page).collect()
}

fn is_deleted(graph: &StoredGraph, at: ItemPointer) -> bool {
    match graph.find_item(at) {
        Some(PageItem::Element { tuple }) => tuple.deleted != 0,
        _ => false,
    }
}

#[test]
fn vacuum_deletes_what_nothing_refers_to() {
    let mut graph = stored_graph();
    let mut page = create_meta_page(0xA, 1, 3, 2, 16, 0, tid(1, 1));
    let mut state = VacuumState::new();
    let dead = dead_rows(&graph, &[]);
    remove_heap_tids(&mut graph, &mut state, &dead);
    assert_eq!((state.tuples_removed, state.num_index_tuples), (0, 2));
    assert_eq!((state.highest, state.fallback), (Some(point(3, 1, 0)), Some(point(4, 1, 0))));
    assert!(state.deleting.contains(pack_tid(tid(4, 3))));
    assert_eq!(confirm_repaired(&graph, &state.deleting), Ok(()));
    assert_eq!(mark_deleted(&mut graph, &mut page, &mut state), Ok(()));
    assert!(is_deleted(&graph, tid(4, 3)));
    assert!(!is_deleted(&graph, tid(3, 1)) && !is_deleted(&graph, tid(4, 1)));
    assert_eq!((state.insert_page, page.insert_page), (4, 4));
    match (graph.find_item(tid(4, 3)), graph.find_item(tid(4, 4)), graph.find_item(tid(3, 2))) {
        (
            Some(PageItem::Element { tuple }),
            Some(PageItem::Neighbors { tuple: cleared }),
            Some(PageItem::Neighbors { tuple: kept }),
        ) => {
            assert_eq!((tuple.version, cleared.version), (2, 2));
            assert_eq!(tuple.vector, vec![0, 0, 0]);
            assert!(cleared.tids.iter().all(|t| t.block_number == INVALID_BLOCK_NUMBER));
            assert_eq!(kept.tids[0], tid(4, 1));
        }
        other => panic!("{:?}", other),
    }
    // A place that was free before is found as well.
    let mut state = VacuumState::new();
    assert_eq!(mark_deleted(&mut graph, &mut page, &mut state), Ok(()));
    assert_eq!(state.insert_page, 4);
}

#[test]
fn vacuum_stops_where_the_graph_is_not_repaired() {
    let mut graph = stored_graph();
    let mut page = create_meta_page(0xA, 1, 3, 2, 16, 0, tid(1, 1));
    let mut state = VacuumState::new();
    let dead = dead_rows(&graph, &[(4, 1)]);
    remove_heap_tids(&mut graph, &mut state, &dead);
    assert_eq!((state.tuples_removed, state.num_index_tuples), (1, 1));
    assert_eq!(confirm_repaired(&graph, &state.deleting), Err(NotRepaired));
    assert_eq!(mark_deleted(&mut graph, &mut page, &mut state), Err(NotRepaired));
    assert!(!is_deleted(&graph, tid(4, 1)) && !is_deleted(&graph, tid(4, 3)));
    assert_eq!((state.insert_page, page.insert_page), (INVALID_BLOCK_NUMBER, INVALID_BLOCK_NUMBER));
}

#[test]
fn diagnosis_counts_and_walks() {
    let g = stored_graph();
    let d = hnswsq2_diag(&g).unwrap();
    assert_eq!((d.counts.total, d.counts.live, d.counts.deleted, d.counts.invalid), (3, 2, 0, 1));
    assert_eq!((d.head, d.entry), (3, Some(tid(3, 1))));
    assert_eq!((d.reach.reach, d.reach.nlists, d.reach.max_list), (2, 2, 1));
    let rows = g.dump();
    assert_eq!(rows.len(), 3);
    assert_eq!(rows[1].tid, tid(4, 1));
    assert_eq!(rows[0].listed, Some(vec![tid(4, 1)]));
    assert_eq!(rows[2].listed, Some(vec![]));
}

#[test]
fn walks_stop_at_damage() {
    let mut g = stored_graph();
    if let PageItem::Element { tuple } = &mut g.pages[1].items[0] {
        tuple.deleted = 1;
    }
    assert_eq!(hnswsq2_diag(&g), Err(WalkError::Deleted));
    let mut g = stored_graph();
    g.pages.truncate(1);
    assert_eq!(hnswsq2_diag(&g), Err(WalkError::Missing));
    g.entry = None;
    let d = hnswsq2_diag(&g).unwrap();
    assert_eq!((d.reach.reach, d.counts.total), (0, 1));
    // A list of another version is not read.
    let mut g = stored_graph();
    if let PageItem::Neighbors { tuple } = &mut g.pages[0].items[1] {
        tuple.version = 9;
    }
    let d = hnswsq2_diag(&g).unwrap();
    assert_eq!((d.reach.reach, d.reach.nlists), (1, 0));
    assert_eq!(g.dump()[0].listed, None);
}
