//! What distances and loaded elements are taken from, and what a repair leaves.
use crate::hnswsq::graph_search;
use crate::hnswsq::graph_search::LayerResult;
use crate::hnswsq::layer_search::SearchCandidate;
use crate::hnswsq::levels;
use crate::hnswsq::meta::MetaPage;
use crate::hnswsq::neighbors;
use crate::hnswsq::repair_element;
use crate::hnswsq::select;
use crate::hnswsq::stored::{StoredGraph, StoredPage, WalkError};
use crate::hnswsq::stored_neighbors;
use crate::hnswsq::stored_neighbors::StoredDescent;
use crate::hnswsq::stored_search;
use crate::hnswsq::stored_search::Handle;
use crate::hnswsq::tuple;
use crate::hnswsq::tuple::ElementTuple;
use crate::hnswsq::types;
use crate::hnswsq::types::{Candidate, Element, Graph, NeighborArray};
use crate::hnswsq::vacuum;
use crate::hnswsq::vacuum::PageItem;
use crate::util::item_pointer::ItemPointer;
use vstd::prelude::*;

verus! {

/// The distances that a search or a selection goes by are those that the given
/// functions return.
pub proof fn law_distances_are_those_given<
    P: Fn(usize, usize) -> i32,
    F: Fn(usize) -> i32,
    S: Fn(&Vec<u8>) -> i32,
    G: Fn(&Vec<u8>, &Vec<u8>) -> i32,
>(pair: P, dist: F, stored: S, stored_pair: G, x: usize, y: usize, a: Vec<u8>, b: Vec<u8>, d: i32)
    ensures
        call_ensures(pair, (x, y), d) && (forall|d2: i32|
            call_ensures(pair, (x, y), d2) ==> d2 == d) ==> select::pairs_of(pair)(x, y) == d,
        call_ensures(dist, (x,), d) && (forall|d2: i32| call_ensures(dist, (x,), d2) ==> d2 == d)
            ==> graph_search::distance_of(dist)(x as int) == d,
        call_ensures(stored, (&a,), d) && (forall|d2: i32|
            call_ensures(stored, (&a,), d2) ==> d2 == d) ==> stored_search::distance_to(stored)(a)
            == d,
        call_ensures(stored_pair, (&a, &b), d) && stored_neighbors::is_pair_distance(stored_pair)
            ==> stored_neighbors::pairs_from(stored_pair)(a@, b@) == d,
{
    if call_ensures(stored_pair, (&a, &b), d) && stored_neighbors::is_pair_distance(stored_pair) {
        assert(stored_neighbors::gives_pair(stored_pair, a@, b@, d));
        let e = stored_neighbors::pair_from(stored_pair, a@, b@);
        assert(stored_neighbors::gives_pair(stored_pair, a@, b@, e));
    }
}

/// What is known of a loaded element is what is stored of it: its level, its
/// version, where its list stands, its row where it has one, and its vector where
/// that was asked for.
pub proof fn law_loaded_elements_are_as_stored(
    e: Element,
    tid: ItemPointer,
    t: ElementTuple,
    load_vec: bool,
)
    requires
        stored_search::handle_of(e) == stored_search::handle_at(tid, t, load_vec),
    ensures
        e.blkno == tid.block_number,
        e.offno == tid.offset,
        e.level == t.level,
        e.deleted == t.deleted,
        e.version == t.version,
        e.clamped == t.clamped,
        e.neighbor_page == t.neighbortid.block_number,
        e.neighbor_offno == t.neighbortid.offset,
        e.heaptid_set <==> t.heaptid.block_number != 0xFFFF_FFFF,
        e.heaptid_set ==> e.heaptid == t.heaptid,
        load_vec ==> e.value@ == t.vector@,
        !load_vec ==> e.value@.len() == 0,
        e.neighbors@.len() == 0,
{
    let h = stored_search::handle_of(e);
    assert(h.tid == tid);
    assert(h.row is Some <==> e.heaptid_set);
    assert(h.neighbors == t.neighbortid);
    assert(h.vector == e.value@);
    assert(h.layers == e.neighbors@);
    assert(vacuum::has_block(t.heaptid) <==> t.heaptid.block_number != 0xFFFF_FFFF);
    assert(h.row == if e.heaptid_set {
        Some(e.heaptid)
    } else {
        None
    });
}

/// The addresses of neighbors are those of their elements.
pub proof fn law_addresses_are_those_of_the_elements(
    elements: Seq<Element>,
    items: Seq<Candidate>,
    i: int,
)
    requires
        0 <= i < items.len(),
    ensures
        tuple::addresses_of(elements, items).len() == items.len(),
        tuple::addresses_of(elements, items)[i].block_number == elements[items[i].element as int].blkno,
        tuple::addresses_of(elements, items)[i].offset == elements[items[i].element as int].offno,
{
}

/// A repair of an element leaves the entry point alone; it fails where the element
/// or its list is not there, and changes nothing then. Where it succeeds, it
/// changes that list and nothing else.
pub proof fn law_repair_changes_one_list(
    before: Seq<StoredPage>,
    at: ItemPointer,
    desc: StoredDescent,
    entry_point: Option<ItemPointer>,
    after: Seq<StoredPage>,
    r: Result<bool, WalkError>,
    q: int,
    j: int,
)
    requires
        repair_element::repair_leads_to(before, at, desc, entry_point, after, r),
        0 <= q < before.len(),
        0 <= j < before[q].items@.len(),
    ensures
        entry_point == Some(at) ==> r == Ok::<bool, WalkError>(false) && after == before,
        r is Err ==> after == before,
        r is Ok && entry_point != Some(at) ==> {
            &&& r->Ok_0
            &&& crate::hnswsq::stored_complete::has_element(before, at)
            &&& after.len() == before.len()
            &&& after[q].blkno == before[q].blkno
            &&& after[q].items@.len() == before[q].items@.len()
            &&& after[q].items@[j] != before[q].items@[j] ==> {
                let list = crate::hnswsq::stored_complete::element_at(before, at).neighbortid;
                &&& q == crate::hnswsq::stored::page_of(before, list.block_number, 0)
                &&& j == list.offset - 1
                &&& after[q].items@[j] is Neighbors
                &&& after[q].items@[j]->Neighbors_tuple.version
                    == crate::hnswsq::stored_complete::element_at(before, at).version
            }
        },
        !crate::hnswsq::stored_complete::has_element(before, at) && entry_point != Some(at)
            ==> r is Err,
{
    if r is Ok && entry_point != Some(at) {
        let t = stored_neighbors::entry_tuple(before, at)->Ok_0;
        assert(repair_element::is_repaired(before, t, desc, entry_point, after));
        assert(crate::hnswsq::stored::is_place(before, q, j));
        assert(before[q].blkno == after[q].blkno);
    }
}

/// A repair looks for neighbors as an insert of the element would: on its own
/// layers, from the pages of the graph, and passing over the element itself.
pub proof fn law_repair_looks_on_the_layers_of_the_element<
    F: Fn(&Vec<u8>) -> i32,
    G: Fn(&Vec<u8>, &Vec<u8>) -> i32,
>(graph: StoredGraph, at: ItemPointer, distance: F, pair: G, ef_construction: usize)
    requires
        crate::hnswsq::stored_complete::has_element(graph.pages@, at),
    ensures
        ({
            let desc = repair_element::repair_descent(graph, at, distance, pair, ef_construction);
            &&& desc.pages == graph.pages@
            &&& desc.m == graph.m
            &&& desc.level == crate::hnswsq::stored_complete::element_at(graph.pages@, at).level
            &&& desc.ef_construction == ef_construction
            &&& desc.skip == Some(at)
        }),
{
}

/// What a search in memory met is accounted for: every neighbor of a result was
/// met; and where it keeps what it leaves out, all that it met on the layer is
/// among the results or what it left out, none of which is nearer than a result.
pub proof fn law_what_was_met_is_accounted_for(
    graph: Graph,
    dist: spec_fn(int) -> i32,
    ep: Seq<SearchCandidate>,
    lc: int,
    track: bool,
    seen: Set<u64>,
    after: Set<u64>,
    r: LayerResult,
    i: int,
    k: int,
    e: usize,
)
    requires
        graph_search::is_accounted_for(graph, dist, ep, lc, track, seen, after, r),
        0 <= i < r.w@.len(),
        0 <= k < graph.elements@[r.w@[i].element as int].neighbors@[lc].items@.len(),
        r.w@[i].distance <= r.w@[0].distance,
    ensures
        after.contains(
            graph.elements@[r.w@[i].element as int].neighbors@[lc].items@[k].element as u64,
        ),
        seen.contains(e as u64) ==> after.contains(e as u64),
        track && after.contains(e as u64) && !seen.contains(e as u64) && e < graph.elements@.len()
            && graph.elements@[e as int].level >= lc ==> (exists|j: int|
            0 <= j < r.w@.len() && (#[trigger] r.w@[j]).element == e) || (exists|j: int|
            0 <= j < r.discarded@.len() && (#[trigger] r.discarded@[j]).element == e),
        forall|j: int|
            #![trigger r.discarded@[j]]
            0 <= j < r.discarded@.len() ==> r.discarded@[j].distance >= r.w@[i].distance
                && r.discarded@[j].distance == dist(r.discarded@[j].element as int),
        !track ==> r.discarded@.len() == 0,
{
    let x = r.w@[i].element as int;
    let y = graph.elements@[x].neighbors@[lc].items@[k].element;
    assert(graph_search::holds(r.w@, x));
    assert(graph.layer(x, lc)[k].element == y);
    assert(graph.is_neighbor(lc, x, y as int));
    assert(after.contains((y as int) as u64));
    if track && after.contains(e as u64) && !seen.contains(e as u64) && e < graph.elements@.len()
        && graph.elements@[e as int].level >= lc {
        assert(graph_search::on_layer(graph, lc, e as int));
        let key = e as u64;
        assert(key as int == e as int);
        assert(graph_search::holds(r.w@, key as int) || graph_search::holds(
            r.discarded@,
            key as int,
        ));
        if graph_search::holds(r.w@, e as int) {
            let j = choose|j: int| 0 <= j < r.w@.len() && #[trigger] r.w@[j].element == e as int;
            assert(r.w@[j].element == e);
        } else {
            let j = choose|j: int|
                0 <= j < r.discarded@.len() && #[trigger] r.discarded@[j].element == e as int;
            assert(r.discarded@[j].element == e);
        }
    }
}

/// The neighbors found are added to the layers of an element behind those that it
/// has, and nothing else of it changes.
pub proof fn law_found_neighbors_are_added(
    before: Element,
    after: Element,
    found: Seq<Vec<Candidate>>,
    lc: int,
)
    requires
        neighbors::are_added(before, after, found, found.len() as int),
        0 <= lc < before.neighbors@.len(),
    ensures
        after.level == before.level,
        after.heaptid == before.heaptid,
        after.value == before.value,
        after.blkno == before.blkno,
        after.offno == before.offno,
        lc >= found.len() ==> after.neighbors@[lc].items@ == before.neighbors@[lc].items@,
        lc < found.len() ==> after.neighbors@[lc].items@.take(
            before.neighbors@[lc].items@.len() as int,
        ) == before.neighbors@[lc].items@ && after.neighbors@[lc].items@.skip(
            before.neighbors@[lc].items@.len() as int,
        ) == found[lc]@,
{
    let n = before.neighbors@[lc].items@.len() as int;
    let items = after.neighbors@[lc].items@;
    if lc < found.len() {
        assert(items.take(n) =~= before.neighbors@[lc].items@);
        assert(items.skip(n) =~= found[lc]@);
    }
}

/// An element that is in the graph is passed over when its neighbors are looked
/// for, a new one is not there.
pub proof fn law_existing_elements_are_passed_over(e: usize)
    ensures
        neighbors::if_existing(true, e) == Some(e),
        neighbors::if_existing(false, e) is None,
{
}

/// A page counts as changed exactly if one of its items is.
pub proof fn law_changed_items_lost_their_row(before: PageItem, dead: bool, after: PageItem)
    requires
        vacuum::item_without_dead_row(before, dead, after),
    ensures
        vacuum::loses_row(before, dead) <==> after != before,
{
}

/// The meta page gives the place of the calibration that was set.
pub proof fn law_calibration_is_kept(page: MetaPage)
    ensures
        page.calibration_of().block_number == page.calibration_blkno,
        page.calibration_of().offset == page.calibration_offno,
{
}

/// The level of an element comes from a hash of the six bytes of its row's address:
/// those of the block, then those of the offset, the low ones first.
pub proof fn law_levels_go_by_the_row(tid: ItemPointer)
    ensures
        ({
            let b = tid.block_number;
            let o = tid.offset;
            let h = levels::fnv1a(
                seq![
                    (b & 0xff) as u8,
                    ((b >> 8u32) & 0xff) as u8,
                    ((b >> 16u32) & 0xff) as u8,
                    ((b >> 24u32) & 0xff) as u8,
                    (o & 0xff) as u8,
                    ((o >> 8u16) & 0xff) as u8,
                ],
            );
            let g = ((h ^ (h >> 33)) as int * 0xff51_afd7_ed55_8ccd % 0x1_0000_0000_0000_0000)
                as u64;
            levels::level_hash_of(tid) == g ^ (g >> 33)
        }),
{
    let b = tid.block_number;
    let o = tid.offset;
    lemma_bytes(b, o);
    let all = crate::util::bytes::u32_bytes(b) + crate::util::bytes::u16_bytes(o);
    assert(all =~= seq![
        (b & 0xff) as u8,
        ((b >> 8u32) & 0xff) as u8,
        ((b >> 16u32) & 0xff) as u8,
        ((b >> 24u32) & 0xff) as u8,
        (o & 0xff) as u8,
        ((o >> 8u16) & 0xff) as u8,
    ]);
}

proof fn lemma_bytes(b: u32, o: u16)
    ensures
        b % 256 == b & 0xff,
        b / 0x100 % 256 == (b >> 8u32) & 0xff,
        b / 0x1_0000 % 256 == (b >> 16u32) & 0xff,
        b / 0x100_0000 == (b >> 24u32) & 0xff,
        o % 256 == o & 0xff,
        o / 256 == (o >> 8u16) & 0xff,
{
    assert(b % 256u32 == b & 0xffu32) by (bit_vector);
    assert(b / 0x100u32 % 256u32 == (b >> 8u32) & 0xffu32) by (bit_vector);
    assert(b / 0x1_0000u32 % 256u32 == (b >> 16u32) & 0xffu32) by (bit_vector);
    assert(b / 0x100_0000u32 == (b >> 24u32) & 0xffu32) by (bit_vector);
    assert(o % 256u16 == o & 0xffu16) by (bit_vector);
    assert(o / 256u16 == (o >> 8u16) & 0xffu16) by (bit_vector);
}

/// A new element has a layer for each level up to its own, and no neighbors on any.
pub proof fn law_new_elements_have_no_neighbors(layers: Seq<NeighborArray>, level: u8, lc: int)
    requires
        types::are_empty_layers(layers, level),
        0 <= lc <= level,
    ensures
        layers.len() == level + 1,
        layers[lc].items@.len() == 0,
        !layers[lc].closer_set,
{
}

/// A search is of the graph that it is given: its pages, at its `m`, and for as many
/// results and at the layer that are asked for.
pub proof fn law_searches_are_of_the_graph<F: Fn(&Vec<u8>) -> i32>(
    graph: StoredGraph,
    distance: F,
    ef: usize,
    lc: usize,
    skipping: bool,
    track: bool,
    load_vec: bool,
)
    ensures
        ({
            let task = stored_search::task_of(graph, distance, ef, lc, skipping, track, load_vec);
            &&& task.pages == graph.pages@
            &&& task.m == graph.m
            &&& task.ef == ef
            &&& task.lc == lc
            &&& task.skipping == skipping
            &&& task.track == track
            &&& task.load_vec == load_vec
        }),
{
}

/// Neighbors are looked for from the entry point on, at its distance.
pub proof fn law_neighbors_are_looked_for_from_the_entry(
    desc: StoredDescent,
    loaded: Seq<Handle>,
    entry_point: ItemPointer,
    t: ElementTuple,
)
    requires
        loaded.len() <= usize::MAX,
    ensures
        ({
            let first = desc.at_entry(loaded, entry_point, t);
            &&& first.ep.len() == 1
            &&& first.ep[0].element == loaded.len()
            &&& first.ep[0].distance == (desc.dist)(t.vector)
            &&& first.loaded.len() == loaded.len() + 1
            &&& first.loaded.drop_last() == loaded
            &&& first.loaded.last().tid == entry_point
            &&& first.loaded.last().level == t.level
            &&& first.loaded.last().neighbors == t.neighbortid
            &&& first.loaded.last().vector == t.vector@
        }),
{
    assert(desc.at_entry(loaded, entry_point, t).loaded.drop_last() =~= loaded);
}

} // verus!
