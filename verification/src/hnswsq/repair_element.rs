//! Repair of the neighbors of one element of a stored graph.
use crate::hnswsq::memory::ElementArena;
use crate::hnswsq::params;
use crate::hnswsq::region;
use crate::hnswsq::repair;
use crate::hnswsq::stored;
use crate::hnswsq::stored::{StoredGraph, StoredPage, WalkError};
use crate::hnswsq::stored_neighbors;
use crate::hnswsq::stored_neighbors::{find_stored_neighbors, LayerState, StoredDescent};
use crate::hnswsq::stored_search;
use crate::hnswsq::stored_search::Handle;
use crate::hnswsq::tuple;
use crate::hnswsq::tuple::{find_addresses, pack_layers, ElementTuple, NeighborTuple};
use crate::hnswsq::types;
use crate::hnswsq::types::Candidate;
use crate::hnswsq::vacuum;
use crate::hnswsq::vacuum::PageItem;
use crate::util::item_pointer;
use crate::util::item_pointer::ItemPointer;
use vstd::prelude::*;

verus! {

/// Whether `found` are the neighbors that a repair finds, with the elements
/// `loaded` on the way: those of a search from the entry point, or none without
/// one.
pub open spec fn is_found(
    desc: StoredDescent,
    entry_point: Option<ItemPointer>,
    loaded: Seq<Handle>,
    found: Seq<Vec<Candidate>>,
) -> bool {
    match entry_point {
        None => loaded.len() == 0 && found.len() == 0,
        Some(e) => {
            let t = stored_neighbors::entry_tuple(desc.pages, e);
            &&& t is Ok
            &&& exists|chain: Seq<LayerState>| #[trigger]
                stored_neighbors::is_outcome(
                    desc,
                    stored_neighbors::entry_tuple(desc.pages, e)->Ok_0.level as int,
                    desc.at_entry(
                        Seq::empty(),
                        e,
                        stored_neighbors::entry_tuple(desc.pages, e)->Ok_0,
                    ),
                    chain,
                    loaded,
                    found,
                )
        },
    }
}

/// The address at place `i` of layer `lc`: that of the neighbor found, or an
/// invalid one.
pub open spec fn slot(
    loaded: Seq<Handle>,
    found: Seq<Vec<Candidate>>,
    lc: int,
    i: int,
) -> ItemPointer {
    if lc < found.len() && i < found[lc]@.len() {
        loaded[found[lc]@[i].element as int].tid
    } else {
        item_pointer::invalid_pointer()
    }
}

/// Whether the address at place `i` of layer `lc` is where it belongs.
pub open spec fn is_slot(
    level: int,
    m: int,
    loaded: Seq<Handle>,
    found: Seq<Vec<Candidate>>,
    tids: Seq<ItemPointer>,
    lc: int,
    i: int,
) -> bool {
    let place = tuple::layer_place(level, m, lc) + i;
    0 <= place < tids.len() && tids[place] == slot(loaded, found, lc, i)
}

/// `tids` holds the neighbors that were found, each layer from the top on, padded
/// to its full size.
pub open spec fn is_list_of(
    level: int,
    m: int,
    loaded: Seq<Handle>,
    found: Seq<Vec<Candidate>>,
    tids: Seq<ItemPointer>,
) -> bool {
    &&& tids.len() == (level + 2) * m
    &&& forall|lc: int, i: int|
        0 <= lc <= level && 0 <= i < params::layer_m(m, lc) ==> #[trigger] is_slot(
            level,
            m,
            loaded,
            found,
            tids,
            lc,
            i,
        )
}

/// Whether `tids` are the neighbors that a repair finds.
pub open spec fn is_repaired_list(
    desc: StoredDescent,
    entry_point: Option<ItemPointer>,
    tids: Seq<ItemPointer>,
) -> bool {
    exists|loaded: Seq<Handle>, found: Seq<Vec<Candidate>>| #[trigger]
        is_found(desc, entry_point, loaded, found) && is_list_of(
            desc.level,
            desc.m,
            loaded,
            found,
            tids,
        )
}

/// The list of what was found.
fn list_of_found(
    arena: &ElementArena,
    level: u8,
    found: &Vec<Vec<Candidate>>,
    m: usize,
) -> (tids: Vec<ItemPointer>)
    requires
        m <= 0xffff,
        forall|lc: int, i: int|
            #![trigger found@[lc]@[i]]
            0 <= lc < found@.len() && 0 <= i < found@[lc]@.len() ==> found@[lc]@[i].element
                < arena.elements@.len(),
    ensures
        is_list_of(
            level as int,
            m as int,
            stored_search::handles(arena.elements@),
            found@,
            tids@,
        ),
{
    let ghost loaded = stored_search::handles(arena.elements@);
    let mut layers: Vec<Vec<ItemPointer>> = Vec::new();
    let mut lc: usize = 0;
    while lc <= level as usize
        invariant
            lc <= level + 1,
            forall|l: int, i: int|
                #![trigger found@[l]@[i]]
                0 <= l < found@.len() && 0 <= i < found@[l]@.len() ==> found@[l]@[i].element
                    < arena.elements@.len(),
            layers@.len() == lc,
            forall|l: int|
                #![trigger layers@[l]]
                0 <= l < lc ==> layers@[l]@ == if l < found@.len() {
                    tuple::addresses_of(arena.elements@, found@[l]@)
                } else {
                    Seq::<ItemPointer>::empty()
                },
        decreases level + 1 - lc,
    {
        if lc < found.len() {
            layers.push(find_addresses(&arena.elements, &found[lc]));
        } else {
            let none: Vec<ItemPointer> = Vec::new();
            assert(none@ =~= Seq::<ItemPointer>::empty());
            layers.push(none);
        }
        lc = lc + 1;
    }
    proof {
        let l = level as int;
        assert((l + 2) * m <= 257 * 0xffff) by (nonlinear_arith)
            requires
                0 <= l <= 255,
                0 <= m <= 0xffff,
        ;
    }
    let tids: Vec<ItemPointer> = pack_layers(&layers, m);
    proof {
        assert forall|l: int, i: int|
            0 <= l <= level && 0 <= i < params::layer_m(m as int, l) implies #[trigger] is_slot(
            level as int,
            m as int,
            loaded,
            found@,
            tids@,
            l,
            i,
        ) by {
            assert(tuple::is_layer_slot(layers@, level as int, m as int, tids@, l, i));
            if l < found@.len() {
                assert(layers@[l]@ == tuple::addresses_of(arena.elements@, found@[l]@));
                if i < found@[l]@.len() {
                    let x = found@[l]@[i].element as int;
                    assert(loaded[x] == stored_search::handle_of(arena.elements@[x]));
                }
            } else {
                assert(layers@[l]@ == Seq::<ItemPointer>::empty());
            }
        }
    }
    tids
}

/// Whether the neighbor list of element `t` is stored.
pub open spec fn has_list(pages: Seq<StoredPage>, t: ElementTuple) -> bool {
    stored::item_at(pages, t.neighbortid) matches Some(item) && item is Neighbors
}

/// Whether `after` is `before` with the neighbor list of element `t` replaced by
/// one of the same version that holds what a repair finds.
pub open spec fn is_repaired(
    before: Seq<StoredPage>,
    t: ElementTuple,
    desc: StoredDescent,
    entry_point: Option<ItemPointer>,
    after: Seq<StoredPage>,
) -> bool {
    let (p, i) = region::list_place(before, t);
    &&& stored::same_shape(before, after)
    &&& after[p].items@[i] is Neighbors
    &&& after[p].items@[i]->Neighbors_tuple.version == t.version
    &&& is_repaired_list(desc, entry_point, after[p].items@[i]->Neighbors_tuple.tids@)
    &&& forall|q: int, j: int|
        #![trigger after[q].items@[j]]
        stored::is_place(before, q, j) && !(q == p && j == i) ==> after[q].items@[j]
            == before[q].items@[j]
}

/// What a repair of the element stored at `at` leads to.
pub open spec fn repair_leads_to(
    before: Seq<StoredPage>,
    at: ItemPointer,
    desc: StoredDescent,
    entry_point: Option<ItemPointer>,
    after: Seq<StoredPage>,
    r: Result<bool, WalkError>,
) -> bool {
    if entry_point == Some(at) {
        r == Ok::<bool, WalkError>(false) && after == before
    } else {
        match stored_neighbors::entry_tuple(before, at) {
            Err(e) => r == Err::<bool, WalkError>(e) && after == before,
            Ok(t) => if !has_list(before, t) {
                r == Err::<bool, WalkError>(WalkError::Missing) && after == before
            } else {
                match r {
                    Ok(repaired) => repaired && is_repaired(before, t, desc, entry_point, after),
                    Err(e) => after == before && entry_point is Some && fails_from(
                        desc,
                        entry_point->0,
                        e,
                    ),
                }
            },
        }
    }
}

/// Whether the way down from the entry point fails.
pub open spec fn fails_from(desc: StoredDescent, entry_point: ItemPointer, e: WalkError) -> bool {
    match stored_neighbors::entry_tuple(desc.pages, entry_point) {
        Err(error) => e == error,
        Ok(t) => exists|chain: Seq<LayerState>| #[trigger]
            stored_neighbors::is_failure(
                desc,
                t.level as int,
                desc.at_entry(Seq::empty(), entry_point, t),
                chain,
                e,
            ),
    }
}

/// The way down that the repair of the element stored at `at` takes.
pub open spec fn repair_descent<
    F: Fn(&Vec<u8>) -> i32,
    G: Fn(&Vec<u8>, &Vec<u8>) -> i32,
>(
    graph: StoredGraph,
    at: ItemPointer,
    distance: F,
    pair: G,
    ef_construction: usize,
) -> StoredDescent {
    stored_neighbors::descent_of(
        graph,
        distance,
        pair,
        match stored_neighbors::entry_tuple(graph.pages@, at) {
            Ok(t) => t.level as usize,
            Err(_) => 0,
        },
        ef_construction,
        Some(at),
    )
}

/// The candidates that were found refer to loaded elements.
proof fn lemma_found_are_loaded(
    desc: StoredDescent,
    top: int,
    first: LayerState,
    chain: Seq<LayerState>,
    loaded: Seq<Handle>,
    found: Seq<Vec<Candidate>>,
    lc: int,
    i: int,
)
    requires
        stored_neighbors::is_outcome(desc, top, first, chain, loaded, found),
        0 <= lc < found.len(),
        0 <= i < found[lc]@.len(),
        0 <= top,
        0 <= desc.level,
    ensures
        ({
            let x = found[lc]@[i].element as int;
            let j = top - lc + 1;
            &&& 0 <= j < chain.len()
            &&& x < chain[j].loaded.len() <= loaded.len()
            &&& chain[j].loaded[x] == loaded[x]
            &&& desc.may_connect(chain[j].loaded, x)
        }),
{
    let j = top - (0 + lc) + 1;
    assert(desc.is_layer_found(0 + lc, chain[j], found[lc]@));
    let x = found[lc]@[i].element as int;
    assert(stored_neighbors::is_start_of(chain[j].loaded, loaded));
    assert(loaded.take(chain[j].loaded.len() as int)[x] == chain[j].loaded[x]);
}

/// Find the neighbors of the element stored at `at` anew, starting from the entry
/// point, and store them in its list; returns whether that was done: the entry
/// point itself is not repaired.
pub fn repair_graph_element<
    F: Fn(&Vec<u8>) -> i32,
    G: Fn(&Vec<u8>, &Vec<u8>) -> i32,
>(
    graph: &mut StoredGraph,
    at: ItemPointer,
    entry_point: Option<ItemPointer>,
    distance: &F,
    pair: &G,
    ef_construction: usize,
) -> (r: Result<bool, WalkError>)
    requires
        stored_search::is_distance(*distance, old(graph).pages@),
        stored_neighbors::is_pair_distance(*pair),
        old(graph).m <= 0xffff,
        ef_construction < usize::MAX,
    ensures
        final(graph).m == old(graph).m,
        final(graph).entry == old(graph).entry,
        repair_leads_to(
            old(graph).pages@,
            at,
            repair_descent(*old(graph), at, *distance, *pair, ef_construction),
            entry_point,
            final(graph).pages@,
            r,
        ),
{
    let ghost before = graph.pages@;
    let ghost desc = repair_descent(*graph, at, *distance, *pair, ef_construction);
    match entry_point {
        Some(e) => {
            if e.block_number == at.block_number && e.offset == at.offset {
                return Ok(false);
            }
        },
        None => {},
    }
    let (level, version, list_tid) = match graph.find_item(at) {
        Some(PageItem::Element { tuple }) => {
            if tuple.deleted != 0 {
                return Err(WalkError::Deleted);
            }
            (tuple.level, tuple.version, tuple.neighbortid)
        },
        _ => {
            return Err(WalkError::Missing);
        },
    };
    let ghost t = stored_neighbors::entry_tuple(before, at)->Ok_0;
    let (p, i) = match graph.find_place(list_tid) {
        Some(place) => place,
        None => {
            return Err(WalkError::Missing);
        },
    };
    match &graph.pages[p].items[i] {
        PageItem::Neighbors { .. } => {},
        PageItem::Element { .. } => {
            return Err(WalkError::Missing);
        },
    }
    let mut arena: ElementArena = ElementArena::new();
    assert(stored_search::handles(arena.elements@) =~= Seq::empty());
    let found: Vec<Vec<Candidate>> = match entry_point {
        None => Vec::new(),
        Some(e) => match find_stored_neighbors(
            graph,
            level as usize,
            e,
            distance,
            pair,
            ef_construction,
            Some(at),
            &mut arena,
        ) {
            Ok(found) => found,
            Err(error) => {
                assert(fails_from(desc, e, error));
                return Err(error);
            },
        },
    };
    let ghost loaded = stored_search::handles(arena.elements@);
    proof {
        assert(is_found(desc, entry_point, loaded, found@));
        assert forall|lc: int, k: int|
            #![trigger found@[lc]@[k]]
            0 <= lc < found@.len() && 0 <= k < found@[lc]@.len() implies found@[lc]@[k].element
            < arena.elements@.len() by {
            let e = entry_point->0;
            let entry = stored_neighbors::entry_tuple(before, e)->Ok_0;
            let first = desc.at_entry(Seq::empty(), e, entry);
            let chain = choose|chain: Seq<LayerState>| #[trigger]
                stored_neighbors::is_outcome(
                    desc,
                    entry.level as int,
                    first,
                    chain,
                    loaded,
                    found@,
                );
            lemma_found_are_loaded(desc, entry.level as int, first, chain, loaded, found@, lc, k);
        }
    }
    let tids: Vec<ItemPointer> = list_of_found(&arena, level, &found, graph.m);
    let ghost new_tids = tids@;
    let mut item: PageItem = PageItem::Neighbors { tuple: NeighborTuple { version, tids } };
    std::mem::swap(&mut graph.pages[p].items[i], &mut item);
    proof {
        assert(is_repaired_list(desc, entry_point, new_tids));
        assert(is_repaired(before, t, desc, entry_point, graph.pages@));
    }
    Ok(true)
}

/// Every place of a stored neighbor list belongs to a layer.
proof fn lemma_place_has_a_layer(level: int, m: int, p: int) -> (r: (int, int))
    requires
        0 <= level,
        0 <= p < (level + 2) * m,
    ensures
        0 <= r.0 <= level,
        0 <= r.1 < params::layer_m(m, r.0),
        p == tuple::layer_place(level, m, r.0) + r.1,
{
    assert(m > 0) by (nonlinear_arith)
        requires
            0 <= level,
            0 <= p < (level + 2) * m,
    ;
    let q = p / m;
    vstd::arithmetic::div_mod::lemma_fundamental_div_mod(p, m);
    vstd::arithmetic::div_mod::lemma_mod_bound(p, m);
    assert(q >= 0) by (nonlinear_arith)
        requires
            p == m * q + p % m,
            0 <= p,
            0 <= p % m < m,
    ;
    if q < level {
        assert(p == (level - (level - q)) * m + p % m) by (nonlinear_arith)
            requires
                p == m * q + p % m,
        ;
        (level - q, p % m)
    } else {
        assert(0 <= p - level * m < 2 * m) by (nonlinear_arith)
            requires
                p == m * q + p % m,
                q >= level,
                0 <= p % m,
                m > 0,
                p < (level + 2) * m,
        ;
        assert((level - 0) * m == level * m);
        (0, p - level * m)
    }
}

/// Whether no stored element that has a row is to be deleted.
pub open spec fn keeps_rows(pages: Seq<StoredPage>, deleting: Set<u64>) -> bool {
    forall|tid: ItemPointer|
        #![trigger stored_neighbors::entry_tuple(pages, tid)]
        stored_neighbors::entry_tuple(pages, tid) is Ok && vacuum::has_block(
            stored_neighbors::entry_tuple(pages, tid)->Ok_0.heaptid,
        ) ==> !deleting.contains(types::tid_key(tid) as u64)
}

/// A repaired neighbor list does not refer to an element that is to be deleted,
/// where those elements have no row any more: what a vacuum is for.
pub proof fn law_repaired_list_refers_to_no_deleted(
    desc: StoredDescent,
    entry_point: Option<ItemPointer>,
    tids: Seq<ItemPointer>,
    deleting: Set<u64>,
)
    requires
        0 <= desc.level,
        is_repaired_list(desc, entry_point, tids),
        keeps_rows(desc.pages, deleting),
    ensures
        !repair::refers_to(tids, deleting),
{
    let (loaded, found) = choose|loaded: Seq<Handle>, found: Seq<Vec<Candidate>>| #[trigger]
        is_found(desc, entry_point, loaded, found) && is_list_of(
            desc.level,
            desc.m,
            loaded,
            found,
            tids,
        );
    assert forall|p: int| 0 <= p < tids.len() && vacuum::has_block(
        #[trigger] tids[p],
    ) implies !deleting.contains(types::tid_key(tids[p]) as u64) by {
        let (lc, i) = lemma_place_has_a_layer(desc.level, desc.m, p);
        assert(is_slot(desc.level, desc.m, loaded, found, tids, lc, i));
        assert(lc < found.len() && i < found[lc]@.len());
        let e = entry_point->0;
        let t = stored_neighbors::entry_tuple(desc.pages, e)->Ok_0;
        let first = desc.at_entry(Seq::empty(), e, t);
        let chain = choose|chain: Seq<LayerState>| #[trigger]
            stored_neighbors::is_outcome(desc, t.level as int, first, chain, loaded, found);
        lemma_found_are_loaded(desc, t.level as int, first, chain, loaded, found, lc, i);
        let j = t.level - lc + 1;
        assert(stored_neighbors::are_from_pages(desc.pages, first.loaded)) by {
            let all = first.loaded;
            assert forall|k: int| #![trigger all[k]] 0 <= k < all.len() implies (
            stored_neighbors::entry_tuple(desc.pages, all[k].tid) matches Ok(u) && all[k]
                == stored_search::handle_at(all[k].tid, u, true)) by {
                assert(all[k] == stored_search::handle_at(e, t, true));
            }
        }
        stored_neighbors::law_loaded_elements_are_stored_ones(
            desc,
            t.level as int,
            first,
            chain,
            j,
        );
        let x = found[lc]@[i].element as int;
        let h = chain[j].loaded[x];
        assert(h.tid == tids[p]);
    }
}

/// Whether `tids` are the neighbors that some repair has found, in a graph of
/// which no element that has a row is to be deleted.
pub open spec fn is_from_repair(tids: Seq<ItemPointer>, deleting: Set<u64>) -> bool {
    exists|desc: StoredDescent, entry_point: Option<ItemPointer>| #[trigger]
        is_repaired_list(desc, entry_point, tids) && 0 <= desc.level && keeps_rows(
            desc.pages,
            deleting,
        )
}

/// A list that needs no repair, or that a repair has found, refers to no
/// element that is to be deleted.
pub proof fn law_list_needs_no_repair(list: NeighborTuple, deleting: Set<u64>)
    requires
        !repair::wants_repair(list, deleting) || is_from_repair(list.tids@, deleting),
    ensures
        !repair::refers_to(list.tids@, deleting),
{
    if is_from_repair(list.tids@, deleting) {
        let (desc, entry_point) = choose|desc: StoredDescent, entry_point: Option<ItemPointer>|
            #[trigger]
            is_repaired_list(desc, entry_point, list.tids@) && 0 <= desc.level && keeps_rows(
                desc.pages,
                deleting,
            );
        law_repaired_list_refers_to_no_deleted(desc, entry_point, list.tids@, deleting);
    }
}

} // verus!
