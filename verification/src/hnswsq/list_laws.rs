//! How neighbors are chosen, stored and read again, told by their addresses.
use crate::hnswsq::layer_search::SearchCandidate;
use crate::hnswsq::neighbors;
use crate::hnswsq::params;
use crate::hnswsq::repair_element;
use crate::hnswsq::repair_pass;
use crate::hnswsq::select::Selection;
use crate::hnswsq::stored_neighbors::{LayerState, StoredDescent};
use crate::hnswsq::stored_search::{Handle, StoredTask};
use crate::hnswsq::tuple;
use crate::hnswsq::types::{Candidate, Graph};
use crate::hnswsq::vacuum::{PageItem, Point};
use crate::util::item_pointer::ItemPointer;
use vstd::prelude::*;

verus! {

/// The neighbors of an element are stored from its top layer down, `m` places for
/// each layer and `2 * m` for the lowest; places that are left have no block.
pub proof fn law_layers_are_stored_from_the_top(
    graph: Graph,
    e: int,
    m: int,
    tids: Seq<ItemPointer>,
    lc: int,
    i: int,
)
    requires
        tuple::are_stored(graph, e, m, tids),
        0 <= m,
        0 <= lc <= graph.elements@[e].level,
        0 <= i < m || (lc == 0 && 0 <= i < 2 * m),
    ensures
        ({
            let items = graph.elements@[e].neighbors@[lc].items@;
            let level = graph.elements@[e].level as int;
            let at = (level - lc) * m + i;
            &&& tids.len() == level * m + 2 * m
            &&& 0 <= at < tids.len()
            &&& i < items.len() ==> {
                let y = graph.elements@[items[i].element as int];
                tids[at].block_number == y.blkno && tids[at].offset == y.offno
            }
            &&& i >= items.len() ==> tids[at].block_number == 0xFFFF_FFFF
        }),
{
    let level = graph.elements@[e].level as int;
    assert(tuple::is_stored(graph, e, m, tids, lc, i));
    assert((level + 2) * m == level * m + 2 * m) by (nonlinear_arith);
}

/// The same of layers that are given by their addresses.
pub proof fn law_layers_are_packed_from_the_top(
    layers: Seq<Vec<ItemPointer>>,
    level: int,
    m: int,
    tids: Seq<ItemPointer>,
    lc: int,
    i: int,
)
    requires
        tuple::are_packed(layers, level, m, tids),
        0 <= m,
        0 <= lc <= level,
        0 <= i < m || (lc == 0 && 0 <= i < 2 * m),
    ensures
        ({
            let at = (level - lc) * m + i;
            &&& tids.len() == level * m + 2 * m
            &&& 0 <= at < tids.len()
            &&& i < layers[lc]@.len() ==> tids[at] == layers[lc]@[i]
            &&& i >= layers[lc]@.len() ==> tids[at].block_number == 0xFFFF_FFFF
        }),
{
    assert(tuple::is_layer_slot(layers, level, m, tids, lc, i));
    assert((level + 2) * m == level * m + 2 * m) by (nonlinear_arith);
}

/// The list that a repair writes holds the neighbors found, laid out in the same
/// way.
pub proof fn law_repaired_list_holds_what_was_found(
    level: int,
    m: int,
    loaded: Seq<Handle>,
    found: Seq<Vec<Candidate>>,
    tids: Seq<ItemPointer>,
    lc: int,
    i: int,
)
    requires
        repair_element::is_list_of(level, m, loaded, found, tids),
        0 <= m,
        0 <= lc <= level,
        0 <= i < m || (lc == 0 && 0 <= i < 2 * m),
    ensures
        ({
            let at = (level - lc) * m + i;
            &&& tids.len() == level * m + 2 * m
            &&& 0 <= at < tids.len()
            &&& lc < found.len() && i < found[lc]@.len() ==> tids[at]
                == loaded[found[lc]@[i].element as int].tid
            &&& lc >= found.len() || i >= found[lc]@.len() ==> tids[at].block_number == 0xFFFF_FFFF
        }),
{
    assert(repair_element::is_slot(level, m, loaded, found, tids, lc, i));
    assert((level + 2) * m == level * m + 2 * m) by (nonlinear_arith);
}

/// A list is read up to its first place without a block.
pub proof fn law_lists_end_at_the_first_gap(tids: Seq<ItemPointer>)
    ensures
        0 <= tuple::valid_prefix(tids) <= tids.len(),
        forall|i: int|
            #![trigger tids[i]]
            0 <= i < tuple::valid_prefix(tids) ==> tids[i].block_number != 0xFFFF_FFFF,
        tuple::valid_prefix(tids) < tids.len() ==> tids[tuple::valid_prefix(tids)].block_number
            == 0xFFFF_FFFF,
    decreases tids.len(),
{
    if tids.len() > 0 && tids[0].block_number != 0xFFFF_FFFF {
        let rest = tids.skip(1);
        law_lists_end_at_the_first_gap(rest);
        let n = tuple::valid_prefix(tids);
        assert forall|i: int| #![trigger tids[i]] 0 <= i < n implies tids[i].block_number
            != 0xFFFF_FFFF by {
            if i > 0 {
                assert(rest[i - 1] == tids[i]);
            }
        }
        if n < tids.len() {
            assert(rest[n - 1] == tids[n]);
        }
    }
}

/// Of addresses, those count as unseen that were not seen before and that no
/// earlier place holds, in their order.
pub proof fn law_unseen_are_met_for_the_first_time(
    tids: Seq<ItemPointer>,
    seen: Set<u64>,
    tid: ItemPointer,
)
    ensures
        tuple::unseen_tids(Seq::empty(), seen) == Seq::<ItemPointer>::empty(),
        tuple::unseen_tids(tids.push(tid), seen) == if seen.contains(
            (tid.block_number * 0x1_0000 + tid.offset) as u64,
        ) || tids.contains(tid) {
            tuple::unseen_tids(tids, seen)
        } else {
            tuple::unseen_tids(tids, seen).push(tid)
        },
{
    assert(tids.push(tid).drop_last() =~= tids);
    if !seen.contains((tid.block_number * 0x1_0000 + tid.offset) as u64) {
        lemma_unseen_contains(tids, seen, tid);
    }
}

proof fn lemma_unseen_contains(tids: Seq<ItemPointer>, seen: Set<u64>, tid: ItemPointer)
    requires
        !seen.contains((tid.block_number * 0x1_0000 + tid.offset) as u64),
    ensures
        tuple::unseen_tids(tids, seen).contains(tid) <==> tids.contains(tid),
    decreases tids.len(),
{
    if tids.len() > 0 {
        let before = tids.drop_last();
        lemma_unseen_contains(before, seen, tid);
        let out = tuple::unseen_tids(before, seen);
        assert(tids =~= before.push(tids.last()));
        assert(tids.contains(tid) <==> before.contains(tid) || tids.last() == tid) by {
            if before.contains(tid) {
                let i = choose|i: int| 0 <= i < before.len() && before[i] == tid;
                assert(tids[i] == tid);
            }
            if tids.contains(tid) {
                let i = choose|i: int| 0 <= i < tids.len() && tids[i] == tid;
                if i < before.len() {
                    assert(before[i] == tid);
                }
            }
            if tids.last() == tid {
                assert(tids[tids.len() - 1] == tid);
            }
        }
        assert(out.push(tids.last()).contains(tid) <==> out.contains(tid) || tids.last() == tid) by {
            let longer = out.push(tids.last());
            if out.contains(tid) {
                let i = choose|i: int| 0 <= i < out.len() && out[i] == tid;
                assert(longer[i] == tid);
            }
            if longer.contains(tid) {
                let i = choose|i: int| 0 <= i < longer.len() && longer[i] == tid;
                if i < out.len() {
                    assert(out[i] == tid);
                }
            }
            if tids.last() == tid {
                assert(longer[out.len() as int] == tid);
            }
        }
    }
}

/// An element is admitted unless both its distance and a bound are known and it
/// is not below that.
pub proof fn law_admitted_are_below_the_bound(d: i32, bound: i32)
    ensures
        tuple::is_admitted(Some(d), Some(bound)) <==> d < bound,
        tuple::is_admitted(None, Some(bound)),
        tuple::is_admitted(Some(d), None),
        tuple::is_admitted(None, None),
{
}

/// Where fewer neighbors are chosen than there is room for, every candidate is.
pub proof fn law_nothing_is_left_out_while_there_is_room(
    pair: spec_fn(usize, usize) -> i32,
    c: Seq<Candidate>,
    limit: int,
    out: Seq<Candidate>,
)
    requires
        neighbors::are_chosen(pair, c, limit, out),
        out.len() < limit || c.len() <= limit,
    ensures
        out == c,
{
    if c.len() > limit {
        let (order, after, s) = choose|order: Seq<int>, after: Seq<Candidate>, s: Selection|
            neighbors::are_chosen_by(pair, c, limit, order, after, s, out);
        assert(out.len() == limit);
    }
}

/// The candidates of a layer are its results that have a row and are not stored
/// where the skipped element is.
pub proof fn law_candidates_are_the_results_with_rows(
    graph: Graph,
    w: Seq<SearchCandidate>,
    skip: Option<usize>,
    j: int,
)
    requires
        0 <= j < w.len(),
        ({
            let x = graph.elements@[w[j].element as int];
            &&& x.heaptid_set
            &&& skip is Some ==> x.blkno != graph.elements@[skip->0 as int].blkno || x.offno
                != graph.elements@[skip->0 as int].offno
        }),
    ensures
        neighbors::layer_candidates(graph, w, skip, true).contains(
            (Candidate { element: w[j].element, distance: w[j].distance, closer: false }),
        ),
{
    let all = neighbors::as_candidates(w);
    let keep = |c: Candidate| neighbors::may_connect(graph, skip, c.element as int);
    all.lemma_filter_contains(keep, j);
}

/// The neighbors of a stored element are found by one search for each layer, as
/// those of an element in memory are; where a layer has fewer of them than it has
/// room for, they are all results that have a row, other than the element itself.
pub proof fn law_stored_neighbors_are_found_layer_by_layer(
    desc: StoredDescent,
    top: int,
    first: LayerState,
    chain: Seq<LayerState>,
    loaded: Seq<Handle>,
    found: Seq<Vec<Candidate>>,
    lc: int,
) -> (k: nat)
    requires
        crate::hnswsq::stored_neighbors::is_outcome(desc, top, first, chain, loaded, found),
        0 <= desc.level,
        0 <= lc <= top,
    ensures
        chain[0] == first,
        found.len() <= top + 1,
        found.len() <= desc.level + 1,
        found.len() == top + 1 || found.len() == desc.level + 1,
        ({
            let task = StoredTask {
                pages: desc.pages,
                m: desc.m,
                dist: desc.dist,
                ef: if desc.level < lc {
                    1
                } else if desc.skip is Some {
                    desc.ef_construction + 1
                } else {
                    desc.ef_construction
                },
                lc,
                skipping: desc.skip is Some,
                track: false,
                load_vec: true,
            };
            let before = chain[top - lc];
            let start = task.start(before.loaded, before.ep, Set::empty(), true);
            task.ends_after(start, k) && chain[top - lc + 1].ep == task.progress(
                start,
                k,
            )->Ok_0.frontier.w.reverse()
        }),
        lc < found.len() ==> {
            let limit = if lc == 0 {
                2 * desc.m
            } else {
                desc.m
            };
            &&& found[lc]@.len() <= limit
            &&& found[lc]@.len() < limit ==> forall|j: int|
                #![trigger chain[top - lc + 1].ep[j]]
                0 <= j < chain[top - lc + 1].ep.len() && is_eligible(
                    desc.skip,
                    chain[top - lc + 1],
                    j,
                ) ==> found[lc]@.contains(
                    (Candidate {
                        element: chain[top - lc + 1].ep[j].element,
                        distance: chain[top - lc + 1].ep[j].distance,
                        closer: false,
                    }),
                )
            &&& forall|i: int|
                #![trigger found[lc]@[i]]
                0 <= i < found[lc]@.len() ==> {
                    let x = chain[top - lc + 1].loaded[found[lc]@[i].element as int];
                    &&& x.row is Some
                    &&& desc.skip is Some ==> x.tid != desc.skip->0
                }
        },
{
    let s = chain[top - lc + 1];
    assert(desc.is_searched(top - (top - lc + 1) + 1, chain[top - lc], s));
    if lc < found.len() {
        assert(desc.is_layer_found(0 + lc, s, found[lc]@));
        let c = desc.candidates(s);
        let limit = params::layer_m(desc.m, lc);
        if found[lc]@.len() < limit {
            law_nothing_is_left_out_while_there_is_room(
                desc.pairs(s.loaded),
                c,
                limit,
                found[lc]@,
            );
            let all = neighbors::as_candidates(s.ep);
            let keep = |c: Candidate| desc.may_connect(s.loaded, c.element as int);
            assert forall|j: int|
                #![trigger s.ep[j]]
                0 <= j < s.ep.len() && is_eligible(desc.skip, s, j) implies found[lc]@.contains(
                (Candidate {
                    element: s.ep[j].element,
                    distance: s.ep[j].distance,
                    closer: false,
                }),
            ) by {
                all.lemma_filter_contains(keep, j);
            }
        }
    }
    let task = desc.task(lc);
    let start = task.start(chain[top - lc].loaded, chain[top - lc].ep, Set::empty(), true);
    choose|k: nat|
        {
            &&& #[trigger] task.ends_after(start, k)
            &&& s.ep == task.progress(start, k)->Ok_0.frontier.w.reverse()
            &&& s.loaded == task.progress(start, k)->Ok_0.loaded
        }
}

/// Whether a result has a row and is not the element that is skipped.
pub open spec fn is_eligible(skip: Option<ItemPointer>, s: LayerState, j: int) -> bool {
    let x = s.loaded[s.ep[j].element as int];
    x.row is Some && (skip is Some ==> x.tid != skip->0)
}

/// The elements that a repair goes through are those of the page that are not
/// deleted and have a row, at their places and in their order.
pub proof fn law_live_elements_are_gone_through(blkno: u32, items: Seq<PageItem>, item: PageItem)
    requires
        items.len() < 0xFFFF,
    ensures
        repair_pass::live_elements(blkno, items, 0) == Seq::<Point>::empty(),
        repair_pass::live_elements(blkno, items.push(item), items.len() as int + 1) == match item {
            PageItem::Element { tuple } => if tuple.deleted == 0 && tuple.heaptid.block_number
                != 0xFFFF_FFFF {
                repair_pass::live_elements(blkno, items, items.len() as int).push(
                    Point { blkno, offno: (items.len() + 1) as u16, level: tuple.level },
                )
            } else {
                repair_pass::live_elements(blkno, items, items.len() as int)
            },
            PageItem::Neighbors { tuple } => repair_pass::live_elements(
                blkno,
                items,
                items.len() as int,
            ),
        },
{
    lemma_live_prefix(blkno, items, item, items.len() as int);
}

proof fn lemma_live_prefix(blkno: u32, items: Seq<PageItem>, item: PageItem, n: int)
    requires
        0 <= n <= items.len(),
    ensures
        repair_pass::live_elements(blkno, items.push(item), n) == repair_pass::live_elements(
            blkno,
            items,
            n,
        ),
    decreases n,
{
    if n > 0 {
        lemma_live_prefix(blkno, items, item, n - 1);
    }
}

/// Of candidates that come furthest first, one that is not chosen is left out for
/// one of two reasons: all places were taken by candidates that come after it, or
/// one of those that were chosen, and come after it, is no farther from it than the
/// element is.
pub proof fn law_left_out_are_crowded_or_beyond(
    pair: spec_fn(usize, usize) -> i32,
    c: Seq<Candidate>,
    limit: int,
    out: Seq<Candidate>,
    x: int,
)
    requires
        neighbors::are_chosen(pair, c, limit, out),
        0 <= limit,
        c.len() <= usize::MAX,
        0 <= x < c.len(),
        forall|i: int| #![trigger out[i]] 0 <= i < out.len() ==> out[i].element != c[x].element,
    ensures
        out.len() == limit,
        (forall|i: int|
            #![trigger out[i]]
            0 <= i < out.len() ==> is_after(c, x, out[i].element, out[i].distance)) || (exists|i: int|
            0 <= i < out.len() && is_after(c, x, (#[trigger] out[i]).element, out[i].distance)
                && pair(c[x].element, out[i].element) <= c[x].distance),
{
    if c.len() <= limit {
        assert(out[x].element == c[x].element);
    } else {
        let (order, after, s) = choose|order: Seq<int>, after: Seq<Candidate>, s: Selection|
            neighbors::are_chosen_by(pair, c, limit, order, after, s, out);
        let stop = crate::hnswsq::diversity::law_selected_are_diverse(
            pair,
            c,
            false,
            limit,
            order,
            after,
            s,
        );
        let sel = s.selected@;
        let n = c.len() as int;
        let j = n - 1 - x;
        assert(order[j] == x);
        assert forall|i: int| #![trigger out[i]] 0 <= i < out.len() implies out[i].element
            == c[sel[i] as int].element && out[i].distance == c[sel[i] as int].distance by {
            assert(sel[i] < n);
            assert(out[i] == after[sel[i] as int]);
        }
        if j >= stop {
            assert forall|i: int| #![trigger out[i]] 0 <= i < out.len() implies is_after(
                c,
                x,
                out[i].element,
                out[i].distance,
            ) by {
                let q = choose|q: int| 0 <= q < stop && #[trigger] order[q] == sel[i] as int;
                assert(c[order[q]].element == out[i].element);
            }
        } else {
            if after[order[j]].closer {
                assert(sel.contains(order[j] as usize));
                let i = choose|i: int| 0 <= i < sel.len() && sel[i] == order[j] as usize;
                assert(out[i].element == c[x].element);
            }
            let q = choose|q: int|
                #![trigger order[q]]
                0 <= q < j && after[order[q]].closer && pair(
                    c[order[j]].element,
                    c[order[q]].element,
                ) <= c[order[j]].distance;
            assert(sel.contains(order[q] as usize));
            let i = choose|i: int| 0 <= i < sel.len() && sel[i] == order[q] as usize;
            assert(out[i].element == c[order[q]].element);
            assert(is_after(c, x, out[i].element, out[i].distance));
        }
    }
}

/// Whether a candidate after place `x` is that element at that distance.
pub open spec fn is_after(c: Seq<Candidate>, x: int, element: usize, distance: i32) -> bool {
    exists|y: int|
        x < y < c.len() && (#[trigger] c[y]).element == element && c[y].distance == distance
}

} // verus!
