use pgvectorscale::hnswsq::connect::{add_connections, update_connection, ConnectionUpdate};
use pgvectorscale::hnswsq::graph_search::search_layer;
use pgvectorscale::hnswsq::layer_search::{LayerSearch, SearchCandidate};
use pgvectorscale::hnswsq::levels::{level_draw, murmur64};
use pgvectorscale::hnswsq::memory::{
    max_align, AllocationError, ElementArena, GraphMemory, Regime, ELEMENT_ARENA_CHUNK,
    MAX_SHARED_ALLOCATION,
};
use pgvectorscale::hnswsq::neighbors::{find_element_neighbors, remove_elements};
use pgvectorscale::hnswsq::params::{get_layer_m, get_max_level};
use pgvectorscale::hnswsq::select::select_neighbors;
use pgvectorscale::hnswsq::tuple::{
    load_element, load_element_from_tuple, load_neighbor_tids, load_unvisited_from_disk,
    set_element_tuple, set_neighbor_tuple, ElementTuple, LoadError,
};
use pgvectorscale::hnswsq::types::{
    init_element, init_element_from_block, init_neighbor_array, pack_tid, Candidate, Element, Graph, Visited,
};
use pgvectorscale::util::float_bits::order_key;
use pgvectorscale::util::item_pointer::{ItemPointer, INVALID_BLOCK_NUMBER};

const MAX_ITEM: usize = 8152;
const NEIGHBOR_HEADER: usize = 4;

fn key(d: f32) -> i32 {
    order_key((d + 0.0).to_bits())
}

fn l2(a: f32, b: f32) -> f32 {
    (a - b) * (a - b)
}

fn get_ml(m: usize) -> f64 {
    1.0 / (m as f64).ln()
}

fn encode(v: &[f32]) -> Vec<u8> {
    v.iter().flat_map(|x| x.to_le_bytes()).collect()
}

fn test_element(level: u8, value: &[f32]) -> Element {
    let mut e = init_element(ItemPointer::new(1, 1), level);
    e.value = encode(value);
    e
}

fn blank_tuple() -> ElementTuple {
    ElementTuple {
        layout: 0,
        level: 0,
        deleted: 0,
        version: 0,
        clamped: 0,
        heaptid: ItemPointer::new(0, 0),
        neighbortid: ItemPointer::new(0, 0),
        vector: vec![],
    }
}

#[test]
fn test_layer_m_and_ml() {
    assert_eq!(get_layer_m(16, 0), 32);
    assert_eq!(get_layer_m(16, 3), 16);
    assert!((get_ml(16) - 1.0 / 16f64.ln()).abs() < 1e-12);
    assert!(get_max_level(MAX_ITEM, NEIGHBOR_HEADER, 16) >= 16, "typical levels fit");
    assert!(get_max_level(MAX_ITEM, NEIGHBOR_HEADER, 100) <= 63);
}

#[test]
fn max_level_is_what_fits() {
    assert_eq!(get_max_level(MAX_ITEM, NEIGHBOR_HEADER, 100), 11);
    assert_eq!(get_max_level(MAX_ITEM, NEIGHBOR_HEADER, 16), 63);
    assert_eq!(get_max_level(100, 4, 16), 0);
}

#[test]
fn test_select_neighbors_prefers_diverse_close_candidates() {
    let values = [0.1f32, 0.2, 0.3, 0.4];
    let pair = |a: usize, b: usize| -> i32 { key(l2(values[a], values[b])) };
    // Furthest first, like the result of a layer search.
    let mut c: Vec<Candidate> = [3usize, 2, 1, 0]
        .iter()
        .map(|&e| Candidate { element: e, distance: key(values[e]), closer: false })
        .collect();
    let mut closer_set = false;
    let r = select_neighbors(&mut c, 2, &pair, &mut closer_set, None, false);
    assert_eq!(r.selected.len(), 2);
    let dists: Vec<f32> = r.selected.iter().map(|&i| values[c[i].element]).collect();
    assert_eq!(dists, vec![0.1, 0.2]);
}

#[test]
fn selected_neighbors_come_nearest_first() {
    // 1.1 is passed over for being nearer to 1.0 than to the element, and fills
    // the room that is left: it still comes before the further -2.0.
    let values = [-2.0f32, 1.2, 1.1, 1.0];
    let pair = |a: usize, b: usize| -> i32 { key(l2(values[a], values[b])) };
    for sorted in [false, true] {
        let mut c: Vec<Candidate> = (0..4)
            .map(|e| Candidate { element: e, distance: key(l2(values[e], 0.0)), closer: false })
            .collect();
        let mut closer_set = false;
        let r = select_neighbors(&mut c, 3, &pair, &mut closer_set, None, sorted);
        assert_eq!(r.selected, vec![3, 2, 0]);
        let dists: Vec<i32> = r.selected.iter().map(|&i| c[i].distance).collect();
        assert_eq!(dists, vec![key(l2(1.0, 0.0)), key(l2(1.1, 0.0)), key(l2(-2.0, 0.0))]);
        assert_eq!(r.pruned, Some(1));
        assert_eq!(closer_set, sorted);
    }
}

#[test]
fn few_candidates_are_all_selected() {
    let pair = |_a: usize, _b: usize| -> i32 { 0 };
    let mut c = vec![
        Candidate { element: 4, distance: 3, closer: false },
        Candidate { element: 9, distance: 1, closer: false },
    ];
    let mut closer_set = true;
    let r = select_neighbors(&mut c, 2, &pair, &mut closer_set, None, true);
    assert_eq!(r.selected, vec![0, 1]);
    assert_eq!(r.pruned, None);
    assert!(closer_set);
}

#[test]
fn test_update_connection_appends_then_replaces() {
    let values = [1.0f32, 2.0, 0.5];
    let pair = |a: usize, b: usize| -> i32 { key(l2(values[a], values[b])) };
    let mut na = init_neighbor_array();

    // Append while there is room.
    let u = update_connection(&mut na, 0, key(1.0), 2, &pair);
    assert_eq!(u, ConnectionUpdate::Appended);
    assert_eq!(na.items.len(), 1);

    // Fill the second slot.
    let u = update_connection(&mut na, 1, key(2.0), 2, &pair);
    assert_eq!(u, ConnectionUpdate::Appended);
    assert_eq!(na.items.len(), 2);

    // The list is full: the new element enters and the first one is pruned.
    let u = update_connection(&mut na, 2, key(0.5), 2, &pair);
    assert_eq!(u, ConnectionUpdate::Replaced { place: 0 });
    assert_eq!(na.items.len(), 2);
    let mut vals: Vec<f32> = na.items.iter().map(|c| values[c.element]).collect();
    vals.sort_by(|a, b| a.total_cmp(b));
    assert_eq!(vals, vec![0.5, 2.0]);
}

#[test]
fn a_pruned_newcomer_changes_nothing() {
    let values = [1.0f32, -1.0, 5.0];
    let pair = |a: usize, b: usize| -> i32 { key(l2(values[a], values[b])) };
    let mut na = init_neighbor_array();
    let _ = update_connection(&mut na, 0, key(1.0), 2, &pair);
    let _ = update_connection(&mut na, 1, key(1.0), 2, &pair);
    let u = update_connection(&mut na, 2, key(25.0), 2, &pair);
    assert_eq!(u, ConnectionUpdate::Unchanged);
    let elements: Vec<usize> = na.items.iter().map(|c| c.element).collect();
    assert_eq!(elements, vec![0, 1]);
}

#[test]
fn connections_are_appended() {
    let mut na = init_neighbor_array();
    let c = Candidate { element: 3, distance: 7, closer: true };
    add_connections(&mut na, &vec![c]);
    add_connections(&mut na, &vec![c, c]);
    assert_eq!(na.items.len(), 3);
    assert_eq!(na.items[2].element, 3);
}

#[test]
fn test_visited_and_pack_tid() {
    let mut v = Visited::new(4);
    let key = pack_tid(ItemPointer::new(7, 3));
    assert!(!v.insert(key));
    assert!(v.insert(key));
    assert!(v.contains(key));
    v.clear();
    assert!(!v.contains(key));
    assert_eq!(murmur64(42), murmur64(42));
    assert_ne!(murmur64(42), murmur64(43));
}

#[test]
fn murmur_of_zero_is_zero() {
    assert_eq!(murmur64(0), 0);
    assert_eq!(murmur64(1), 0xb456bcfc34c2cb2c);
}

#[test]
fn pinned_levels_follow_from_the_row() {
    let a = level_draw(ItemPointer::new(7, 3));
    assert_eq!(a, level_draw(ItemPointer::new(7, 3)));
    assert_ne!(a, level_draw(ItemPointer::new(7, 4)));
    assert!(a < 1 << 53);
}

#[test]
fn test_element_tuple_roundtrip() {
    let value = [1.0f32, -2.0, 3.5, 0.0];
    let mut graph = Graph { elements: vec![test_element(2, &value)] };
    graph.elements[0].blkno = 5;
    graph.elements[0].offno = 9;
    let mut etup = blank_tuple();
    set_element_tuple(&mut etup, &graph.elements[0], 0);
    assert_eq!(etup.level, 2);
    assert_eq!(etup.version, 1);
    assert_eq!(etup.deleted, 0);

    // Load back into a fresh element.
    let mut out = init_element_from_block(5, 9);
    load_element_from_tuple(&mut out, &etup, true, true);
    assert_eq!(out.level, 2);
    assert!(out.heaptid_set);
    assert_eq!(out.value, encode(&value));

    // Neighbor tuple roundtrip: set with two candidate neighbors.
    let mut n1 = test_element(0, &[1.0, 0.0, 0.0, 0.0]);
    n1.blkno = 10;
    n1.offno = 1;
    let mut n2 = test_element(0, &[0.0, 1.0, 0.0, 0.0]);
    n2.blkno = 11;
    n2.offno = 2;
    graph.elements.push(n1);
    graph.elements.push(n2);
    graph.elements[0].neighbors[0].items = vec![
        Candidate { element: 1, distance: key(0.1), closer: false },
        Candidate { element: 2, distance: key(0.2), closer: false },
    ];
    let ntup = set_neighbor_tuple(&graph, 0, 4);
    assert_eq!(ntup.tids.len(), (2 + 2) * 4);
    // Highest layer first: layer 2 at index 0.
    assert_eq!(ntup.tids[2 * 4].block_number, 10);
    assert_eq!(ntup.tids[2 * 4 + 1].block_number, 11);
    // Padding beyond the valid prefix is invalid.
    assert_eq!(ntup.tids[2 * 4 + 2].block_number, INVALID_BLOCK_NUMBER);

    // The bottom layer reads back; another version reads nothing.
    let tids = load_neighbor_tids(&ntup, 1, 2, 4, 0).unwrap();
    assert_eq!(tids[0], ItemPointer::new(10, 1));
    assert_eq!(tids[1], ItemPointer::new(11, 2));
    assert!(load_neighbor_tids(&ntup, 2, 2, 4, 0).is_none());
    assert!(load_neighbor_tids(&ntup, 1, 1, 4, 0).is_none());

    let mut met = Visited::new(4);
    let _ = met.insert(pack_tid(ItemPointer::new(10, 1)));
    assert_eq!(load_unvisited_from_disk(&tids, &mut met), vec![ItemPointer::new(11, 2)]);
}

#[test]
fn elements_load_only_where_they_are_near_enough() {
    let mut etup = blank_tuple();
    etup.heaptid = ItemPointer::new(3, 1);
    etup.level = 1;
    let mut e = init_element_from_block(5, 9);
    assert_eq!(load_element(&mut e, &etup, Some(5), Some(5), true), Ok(false));
    assert_eq!(e.level, 0);
    assert_eq!(load_element(&mut e, &etup, Some(4), Some(5), true), Ok(true));
    assert_eq!(e.level, 1);
    assert!(e.heaptid_set);
    etup.deleted = 1;
    assert_eq!(load_element(&mut e, &etup, None, None, false), Err(LoadError::Deleted));
}

/// A chain of elements on a line, each connected to the next.
fn line(n: usize) -> Graph {
    let mut graph = Graph { elements: vec![] };
    for i in 0..n {
        let mut e = init_element(ItemPointer::new(i as u32, 1), 0);
        e.blkno = i as u32;
        e.offno = 1;
        graph.elements.push(e);
    }
    for i in 0..n {
        let mut items = vec![];
        if i > 0 {
            items.push(Candidate { element: i - 1, distance: 1, closer: false });
        }
        if i + 1 < n {
            items.push(Candidate { element: i + 1, distance: 1, closer: false });
        }
        graph.elements[i].neighbors[0].items = items;
    }
    graph
}

fn entry(e: usize, distance: i32) -> SearchCandidate {
    SearchCandidate { element: e, distance, key: e as u64 }
}

#[test]
fn a_layer_search_walks_to_the_nearest() {
    let graph = line(20);
    let distance = |e: usize| -> i32 { (e as i32 - 15).abs() };
    let mut v = Visited::new(8);
    let r = search_layer(&graph, &distance, &vec![entry(0, 15)], 3, 0, false, &mut v, false, true);
    let mut found: Vec<usize> = r.w.iter().map(|c| c.element).collect();
    found.sort();
    assert_eq!(found, vec![14, 15, 16]);
    // Furthest first.
    assert_eq!(r.w.last().unwrap().element, 15);
    assert!(r.w[0].distance >= r.w[1].distance);
}

#[test]
fn a_wide_search_finds_everything() {
    let graph = line(6);
    let distance = |e: usize| -> i32 { e as i32 };
    let mut v = Visited::new(8);
    let r = search_layer(&graph, &distance, &vec![entry(5, 5)], 50, 0, false, &mut v, true, true);
    assert_eq!(r.w.len(), 6);
    assert_eq!(r.tuples, 6);
}

#[test]
fn rowless_elements_do_not_count_in_a_skipping_search() {
    let mut graph = line(5);
    graph.elements[2].heaptid_set = false;
    let distance = |e: usize| -> i32 { (e as i32 - 2).abs() };
    let mut v = Visited::new(8);
    let r = search_layer(&graph, &distance, &vec![entry(0, 2)], 2, 0, true, &mut v, false, true);
    let rows = r.w.iter().filter(|c| graph.elements[c.element].heaptid_set).count();
    assert_eq!(rows, 2);
    assert_eq!(r.w.len(), 3);
}

#[test]
fn a_search_machine_keeps_the_nearest() {
    let mut s = LayerSearch::new(2, 0, false, false);
    s.add_entry(entry(1, 10), true);
    assert_eq!(s.max_distance(), None);
    assert_eq!(s.next_expansion().unwrap().element, 1);
    s.offer(entry(2, 5), 0, true);
    s.offer(entry(3, 7), 0, true);
    s.offer(entry(4, 9), 0, true);
    assert_eq!(s.max_distance(), Some(7));
    assert_eq!(s.next_expansion().unwrap().element, 2);
    assert_eq!(s.next_expansion().unwrap().element, 3);
    assert!(s.next_expansion().is_none());
    let w: Vec<usize> = s.finish().iter().map(|c| c.element).collect();
    assert_eq!(w, vec![3, 2]);
}

#[test]
fn new_elements_find_their_neighbors() {
    let mut graph = line(8);
    graph.elements.push(init_element(ItemPointer::new(99, 1), 0));
    let at = |e: usize| -> i32 {
        if e == 8 {
            5
        } else {
            2 * e as i32
        }
    };
    let distance = |e: usize| -> i32 { (at(e) - 5).abs() };
    let pair = |a: usize, b: usize| -> i32 { (at(a) - at(b)).abs() };
    find_element_neighbors(&mut graph, 8, Some(0), &distance, &pair, 2, 10, false, false);
    let mut found: Vec<usize> =
        graph.elements[8].neighbors[0].items.iter().map(|c| c.element).collect();
    assert!(found.len() <= 4);
    found.sort();
    assert!(found.contains(&2) && found.contains(&3));
}

#[test]
fn without_an_entry_point_there_are_no_neighbors() {
    let mut graph = line(1);
    let distance = |_e: usize| -> i32 { 0 };
    let pair = |_a: usize, _b: usize| -> i32 { 0 };
    find_element_neighbors(&mut graph, 0, None, &distance, &pair, 2, 10, false, false);
    assert_eq!(graph.elements[0].neighbors[0].items.len(), 0);
}

#[test]
fn the_skipped_element_and_rowless_ones_are_removed() {
    let mut graph = line(3);
    graph.elements[1].heaptid_set = false;
    let c = |e: usize| Candidate { element: e, distance: 0, closer: false };
    let out = remove_elements(&graph, &vec![c(0), c(1), c(2)], Some(2));
    assert_eq!(out.len(), 1);
    assert_eq!(out[0].element, 0);
}

#[test]
fn shared_memory_is_limited() {
    let mut g = GraphMemory { used: 8, total: 64 };
    assert_eq!(g.allocate(Regime::Shared, 17), Ok(8));
    assert_eq!(g.used, 32);
    assert_eq!(g.allocate(Regime::Shared, 40), Err(AllocationError::OutOfMemory));
    assert_eq!(
        g.allocate(Regime::Shared, MAX_SHARED_ALLOCATION + 1),
        Err(AllocationError::TooLarge)
    );
    assert_eq!(g.used, 32);
    assert_eq!(g.allocate(Regime::Private, 100), Ok(32));
    assert_eq!(g.used, 136);
    assert_eq!(g.allocate(Regime::Uncounted, 100), Ok(136));
    assert_eq!(g.used, 136);
    assert_eq!(max_align(13), 16);
}

#[test]
fn an_arena_hands_out_places() {
    let mut a = ElementArena::new();
    assert_eq!(a.allocate(3, 4), 0);
    assert_eq!(a.allocate(5, 6), 1);
    assert_eq!(a.elements[1].blkno, 5);
    assert_eq!(a.len(), 2);
    a.reset();
    assert_eq!(a.len(), 0);
    a.clear();
    assert_eq!(a.len(), 0);
    assert_eq!(ELEMENT_ARENA_CHUNK, 512);
}
