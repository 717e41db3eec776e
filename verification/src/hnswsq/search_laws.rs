//! What the search of an in-memory graph and the choice of neighbors are for.
use crate::hnswsq::connect;
use crate::hnswsq::connect::ConnectionUpdate;
use crate::hnswsq::graph_search;
use crate::hnswsq::layer_search;
use crate::hnswsq::layer_search::SearchCandidate;
use crate::hnswsq::neighbors;
use crate::hnswsq::params;
use crate::hnswsq::select;
use crate::hnswsq::select::Selection;
use crate::hnswsq::types::{Candidate, Graph, NeighborArray};
use vstd::prelude::*;

verus! {

/// The results of a search are different elements of the layer, each at its
/// distance, furthest first; and where all of them count there are no more than
/// were asked for, or than there are entry points.
pub proof fn law_results_are_elements_of_the_layer(
    graph: Graph,
    dist: spec_fn(int) -> i32,
    ep: Seq<SearchCandidate>,
    ef: int,
    lc: int,
    skipping: bool,
    seen: Set<u64>,
    out: Seq<SearchCandidate>,
    i: int,
)
    requires
        graph_search::is_layer_result(graph, dist, ep, ef, lc, skipping, seen, out),
        0 <= i < out.len(),
    ensures
        out[i].element < graph.elements@.len(),
        graph.elements@[out[i].element as int].level >= lc,
        out[i].distance == dist(out[i].element as int),
        forall|j: int|
            #![trigger out[j]]
            0 <= j < i ==> out[j].distance >= out[i].distance,
        (forall|a: int, b: int|
            #![trigger ep[a], ep[b]]
            0 <= a < b < ep.len() ==> ep[a].element != ep[b].element) ==> forall|j: int|
            #![trigger out[j]]
            0 <= j < out.len() && j != i ==> out[j].element != out[i].element,
        !skipping ==> out.len() <= ef || out.len() <= ep.len(),
{
    assert(graph_search::on_layer(graph, lc, out[i].element as int));
    assert forall|j: int| #![trigger out[j]] 0 <= j < i implies out[j].distance
        >= out[i].distance by {
        assert(layer_search::le(out[i], out[j]));
    }
    if forall|a: int, b: int|
        #![trigger ep[a], ep[b]]
        0 <= a < b < ep.len() ==> ep[a].element != ep[b].element {
        assert(graph_search::distinct(ep));
        assert forall|j: int| #![trigger out[j]] 0 <= j < out.len() && j != i implies out[j].element
            != out[i].element by {
            if j < i {
                assert(out[j].element != out[i].element);
            } else {
                assert(out[i].element != out[j].element);
            }
        }
    }
}

/// Whether element `y` is among the results, or as many as were asked for were
/// found and it is no nearer than any of them.
spec fn is_found_or_beyond(
    dist: spec_fn(int) -> i32,
    ef: int,
    skipping: bool,
    out: Seq<SearchCandidate>,
    y: int,
) -> bool {
    (exists|j: int| 0 <= j < out.len() && (#[trigger] out[j]).element == y) || ((skipping
        || out.len() >= ef) && forall|j: int|
        #![trigger out[j]]
        0 <= j < out.len() ==> dist(y) >= out[j].distance)
}

proof fn lemma_found_or_beyond(
    dist: spec_fn(int) -> i32,
    ef: int,
    skipping: bool,
    out: Seq<SearchCandidate>,
    y: int,
)
    requires
        layer_search::descending(out),
        graph_search::found_or_beyond(dist, ef, skipping, out, y),
    ensures
        is_found_or_beyond(dist, ef, skipping, out, y),
{
    if graph_search::holds(out, y) {
        let j = choose|j: int| 0 <= j < out.len() && #[trigger] out[j].element == y;
        assert(out[j].element == y);
    } else {
        assert forall|j: int| #![trigger out[j]] 0 <= j < out.len() implies dist(y)
            >= out[j].distance by {
            assert(layer_search::le(out[j], out[0]));
        }
    }
}

/// Each neighbor of a result at the layer, in any place of its array and whatever
/// the levels, is a result too if it is on the layer and was not seen before, or
/// would be no better than any of as many as were asked for. The same holds of the
/// entry points.
pub proof fn law_search_follows_the_neighbors(
    graph: Graph,
    dist: spec_fn(int) -> i32,
    ep: Seq<SearchCandidate>,
    ef: int,
    lc: int,
    skipping: bool,
    seen: Set<u64>,
    out: Seq<SearchCandidate>,
    i: int,
    k: int,
)
    requires
        graph_search::is_layer_result(graph, dist, ep, ef, lc, skipping, seen, out),
        0 <= i < out.len(),
        0 <= lc,
        0 <= k < graph.elements@[out[i].element as int].neighbors@[lc].items@.len(),
    ensures
        ({
            let y = graph.elements@[out[i].element as int].neighbors@[lc].items@[k].element as int;
            y < graph.elements@.len() && graph.elements@[y].level >= lc && !seen.contains(y as u64)
                ==> (exists|j: int| 0 <= j < out.len() && (#[trigger] out[j]).element == y) || ((
            skipping || out.len() >= ef) && forall|j: int|
                #![trigger out[j]]
                0 <= j < out.len() ==> dist(y) >= out[j].distance)
        }),
        forall|a: int|
            #![trigger ep[a]]
            0 <= a < ep.len() ==> (exists|j: int|
                0 <= j < out.len() && (#[trigger] out[j]).element == ep[a].element) || ((skipping
                || out.len() >= ef) && forall|j: int|
                #![trigger out[j]]
                0 <= j < out.len() ==> dist(ep[a].element as int) >= out[j].distance),
{
    let x = out[i].element as int;
    let y = graph.elements@[x].neighbors@[lc].items@[k].element as int;
    if y < graph.elements@.len() && graph.elements@[y].level >= lc && !seen.contains(y as u64) {
        assert(graph_search::holds(out, x));
        assert(graph.layer(x, lc)[k].element == y);
        assert(graph.is_neighbor(lc, x, y));
        assert(graph_search::on_layer(graph, lc, y));
        lemma_found_or_beyond(dist, ef, skipping, out, y);
    }
    assert forall|a: int| #![trigger ep[a]] 0 <= a < ep.len() implies is_found_or_beyond(
        dist,
        ef,
        skipping,
        out,
        ep[a].element as int,
    ) by {
        assert(graph_search::holds(ep, ep[a].element as int));
        lemma_found_or_beyond(dist, ef, skipping, out, ep[a].element as int);
    }
}

/// A search that finds fewer than it was asked for has found all that can be
/// reached on the layer: every element at the end of a path of neighbors of the
/// layer from an entry point.
pub proof fn law_short_results_hold_every_path(
    graph: Graph,
    dist: spec_fn(int) -> i32,
    ep: Seq<SearchCandidate>,
    ef: int,
    lc: int,
    out: Seq<SearchCandidate>,
    path: Seq<usize>,
    steps: Seq<int>,
)
    requires
        graph_search::is_layer_result(graph, dist, ep, ef, lc, false, Set::empty(), out),
        out.len() < ef,
        0 <= lc,
        path.len() > 0,
        exists|a: int| 0 <= a < ep.len() && (#[trigger] ep[a]).element == path[0],
        steps.len() == path.len() - 1,
        forall|k: int|
            #![trigger path[k]]
            0 < k < path.len() ==> {
                &&& path[k] < graph.elements@.len()
                &&& graph.elements@[path[k] as int].level >= lc
                &&& 0 <= steps[k - 1]
                    < graph.elements@[path[k - 1] as int].neighbors@[lc].items@.len()
                &&& graph.elements@[path[k - 1] as int].neighbors@[lc].items@[steps[k - 1]].element
                    == path[k]
            },
    ensures
        exists|j: int| 0 <= j < out.len() && (#[trigger] out[j]).element == path.last(),
    decreases path.len(),
{
    if path.len() == 1 {
        let a = choose|a: int| 0 <= a < ep.len() && (#[trigger] ep[a]).element == path[0];
        assert(graph_search::holds(ep, path[0] as int));
        lemma_found_or_beyond(dist, ef, false, out, path[0] as int);
    } else {
        let init = path.drop_last();
        let n = init.len() as int;
        assert forall|k: int| #![trigger init[k]] 0 < k < init.len() implies {
            &&& init[k] < graph.elements@.len()
            &&& graph.elements@[init[k] as int].level >= lc
            &&& 0 <= steps.drop_last()[k - 1]
                < graph.elements@[init[k - 1] as int].neighbors@[lc].items@.len()
            &&& graph.elements@[init[k - 1] as int].neighbors@[lc].items@[steps.drop_last()[k
                - 1]].element == init[k]
        } by {
            assert(init[k] == path[k] && init[k - 1] == path[k - 1]);
        }
        assert(init[0] == path[0]);
        law_short_results_hold_every_path(
            graph,
            dist,
            ep,
            ef,
            lc,
            out,
            init,
            steps.drop_last(),
        );
        let i = choose|i: int| 0 <= i < out.len() && (#[trigger] out[i]).element == init.last();
        assert(path[n] == path.last() && path[n - 1] == init.last());
        law_search_follows_the_neighbors(
            graph,
            dist,
            ep,
            ef,
            lc,
            false,
            Set::empty(),
            out,
            i,
            steps[n - 1],
        );
    }
}

/// The neighbors of an element are found by one search for each layer, from the
/// top layer of the graph down: each starts at the results of the one above, the
/// first at the entry point. Above the element's level it looks for the nearest
/// one only, from there on for `ef_construction`, and one more where the element
/// itself is in the graph.
pub proof fn law_neighbors_are_found_layer_by_layer(
    graph: Graph,
    dist: spec_fn(int) -> i32,
    pair: spec_fn(usize, usize) -> i32,
    level: int,
    entry_point: usize,
    m: int,
    ef_construction: int,
    skip: Option<usize>,
    filtered: bool,
    found: Seq<Vec<Candidate>>,
) -> (chain: Seq<Seq<SearchCandidate>>)
    requires
        neighbors::are_found(
            graph,
            dist,
            pair,
            level,
            entry_point,
            m,
            ef_construction,
            skip,
            filtered,
            found,
        ),
        0 <= level,
    ensures
        chain.len() == graph.elements@[entry_point as int].level + 1,
        found.len() == chain.len() || found.len() == level + 1,
        found.len() <= chain.len(),
        found.len() <= level + 1,
        forall|lc: int|
            #![trigger chain[lc]]
            0 <= lc < chain.len() ==> graph_search::is_layer_result(
                graph,
                dist,
                if lc == chain.len() - 1 {
                    seq![
                        SearchCandidate {
                            element: entry_point,
                            distance: dist(entry_point as int),
                            key: entry_point as u64,
                        },
                    ]
                } else {
                    chain[lc + 1]
                },
                if lc > level {
                    1
                } else if skip is Some {
                    ef_construction + 1
                } else {
                    ef_construction
                },
                lc,
                skip is Some,
                Set::empty(),
                chain[lc],
            ),
        forall|lc: int|
            #![trigger found[lc]]
            0 <= lc < found.len() ==> {
                let limit = if lc == 0 {
                    2 * m
                } else {
                    m
                };
                &&& found[lc]@.len() <= limit
                &&& !filtered ==> found[lc]@.len() == if chain[lc].len() < limit {
                    chain[lc].len() as int
                } else {
                    limit
                }
                &&& are_out_of(chain[lc], found[lc]@)
            },
{
    let chain = choose|chain: Seq<Seq<SearchCandidate>>|
        {
            &&& chain.len() == graph.elements@[entry_point as int].level + 1
            &&& #[trigger] neighbors::is_descent(
                graph,
                dist,
                seq![neighbors::entry_candidate(dist, entry_point)],
                level,
                neighbors::searched_for(ef_construction, skip),
                skip is Some,
                chain,
            )
            &&& neighbors::are_layer_neighbors(graph, pair, m, skip, filtered, chain, found)
        };
    assert forall|lc: int| #![trigger found[lc]] 0 <= lc < found.len() implies {
        let limit = if lc == 0 {
            2 * m
        } else {
            m
        };
        &&& found[lc]@.len() <= limit
        &&& !filtered ==> found[lc]@.len() == if chain[lc].len() < limit {
            chain[lc].len() as int
        } else {
            limit
        }
        &&& are_out_of(chain[lc], found[lc]@)
    } by {
        lemma_chosen_of_layer(
            graph,
            pair,
            params::layer_m(m, lc),
            skip,
            filtered,
            chain[lc],
            found[lc]@,
        );
    }
    chain
}

/// Whether all of `out` are among the results `w`, at the distances found.
pub open spec fn are_out_of(w: Seq<SearchCandidate>, out: Seq<Candidate>) -> bool {
    forall|i: int| #![trigger out[i]] 0 <= i < out.len() ==> is_out_of(w, out[i])
}

/// Whether `c` is among the results `w`, at the distance found.
pub open spec fn is_out_of(w: Seq<SearchCandidate>, c: Candidate) -> bool {
    exists|j: int|
        0 <= j < w.len() && (#[trigger] w[j]).element == c.element && w[j].distance == c.distance
}

proof fn lemma_chosen_of_layer(
    graph: Graph,
    pair: spec_fn(usize, usize) -> i32,
    limit: int,
    skip: Option<usize>,
    filtered: bool,
    w: Seq<SearchCandidate>,
    out: Seq<Candidate>,
)
    requires
        neighbors::are_chosen(
            pair,
            neighbors::layer_candidates(graph, w, skip, filtered),
            limit,
            out,
        ),
    ensures
        out.len() <= limit,
        !filtered ==> out.len() == if w.len() < limit {
            w.len() as int
        } else {
            limit
        },
        are_out_of(w, out),
{
    let c = neighbors::layer_candidates(graph, w, skip, filtered);
    let (order, after, s) = choose|order: Seq<int>, after: Seq<Candidate>, s: Selection|
        neighbors::are_chosen_by(pair, c, limit, order, after, s, out);
    assert forall|i: int| #![trigger out[i]] 0 <= i < out.len() implies is_out_of(w, out[i]) by {
        let x = if c.len() <= limit {
            i
        } else {
            assert(out[i] == after[s.selected@[i] as int]);
            s.selected@[i] as int
        };
        assert(0 <= x < c.len() && c[x].element == out[i].element && c[x].distance
            == out[i].distance);
        let j = lemma_candidate_was_found(graph, w, skip, filtered, x);
        assert(w[j].element == out[i].element);
    }
}

proof fn lemma_candidate_was_found(
    graph: Graph,
    w: Seq<SearchCandidate>,
    skip: Option<usize>,
    filtered: bool,
    x: int,
) -> (j: int)
    requires
        0 <= x < neighbors::layer_candidates(graph, w, skip, filtered).len(),
    ensures
        0 <= j < w.len(),
        w[j].element == neighbors::layer_candidates(graph, w, skip, filtered)[x].element,
        w[j].distance == neighbors::layer_candidates(graph, w, skip, filtered)[x].distance,
{
    let all = neighbors::as_candidates(w);
    let c = neighbors::layer_candidates(graph, w, skip, filtered);
    if filtered {
        let keep = |c: Candidate| neighbors::may_connect(graph, skip, c.element as int);
        all.lemma_filter_contains_rev(keep, c[x]);
        choose|j: int| 0 <= j < all.len() && all[j] == c[x]
    } else {
        x
    }
}

/// What connecting a new candidate to an array of different elements does: while
/// there is room it is appended; else one of them, the new one among them, goes,
/// and all others stay, at their distances.
pub proof fn law_connecting_drops_one_at_most(
    pair: spec_fn(usize, usize) -> i32,
    before: NeighborArray,
    new_candidate: Candidate,
    lm: int,
    after: NeighborArray,
    update: ConnectionUpdate,
) -> (pruned: int)
    requires
        connect::is_connected(pair, before, new_candidate, lm, after, update),
        0 <= lm,
        before.items@.len() <= lm,
        forall|i: int, j: int|
            #![trigger before.items@[i], before.items@[j]]
            0 <= i < j < before.items@.len() ==> before.items@[i].element
                != before.items@[j].element,
        forall|i: int|
            #![trigger before.items@[i]]
            0 <= i < before.items@.len() ==> before.items@[i].element != new_candidate.element,
    ensures
        before.items@.len() < lm ==> after.items@ == before.items@.push(new_candidate)
            && after.closer_set == before.closer_set,
        before.items@.len() == lm ==> {
            let all = before.items@.push(new_candidate);
            &&& 0 <= pruned < all.len()
            &&& after.items@.len() == lm
            &&& forall|x: int|
                #![trigger all[x]]
                0 <= x < all.len() && x != pruned ==> exists|j: int|
                    0 <= j < lm && (#[trigger] after.items@[j]).element == all[x].element
                        && after.items@[j].distance == all[x].distance
            &&& forall|j: int|
                #![trigger after.items@[j]]
                0 <= j < lm ==> after.items@[j].element != all[pruned].element
        },
{
    let n = before.items@.len() as int;
    if n < lm {
        0
    } else {
        let all = before.items@.push(new_candidate);
        let (order, changed, s) = choose|order: Seq<int>, changed: Seq<Candidate>, s: Selection|
            connect::shrunk_by(
                pair,
                before,
                new_candidate,
                lm,
                order,
                changed,
                s,
                after.items@,
                update,
            );
        let p = s.pruned->0 as int;
        assert forall|i: int, j: int| #![trigger all[i], all[j]] 0 <= i < j < all.len() implies all[i].element
            != all[j].element by {
            if j < n {
                assert(before.items@[i].element != before.items@[j].element);
            } else {
                assert(before.items@[i].element != new_candidate.element);
            }
        }
        lemma_one_is_dropped(all, changed, s, after.items@, update);
        assert forall|x: int| #![trigger all[x]] 0 <= x < all.len() && x != p implies exists|j: int|
            0 <= j < lm && (#[trigger] after.items@[j]).element == all[x].element
                && after.items@[j].distance == all[x].distance by {
            assert(is_kept_in(after.items@, all[x]));
        }
        p
    }
}

proof fn lemma_dropped_place(
    all: Seq<Candidate>,
    changed: Seq<Candidate>,
    s: Selection,
    items: Seq<Candidate>,
    update: ConnectionUpdate,
)
    requires
        all.len() > 0,
        connect::distinct(all),
        changed.len() == all.len(),
        s.pruned is Some,
        s.pruned->0 < all.len(),
        connect::shrunk(all, changed, s, items, update),
    ensures
        items.len() == all.len() - 1,
        forall|x: int|
            #![trigger changed[x]]
            0 <= x < all.len() - 1 && x != s.pruned->0 ==> items[x] == changed[x],
        s.pruned->0 < all.len() - 1 ==> items[s.pruned->0 as int] == changed[all.len() - 1],
{
    let n = all.len() - 1;
    let p = s.pruned->0 as int;
    match update {
        ConnectionUpdate::Replaced { place } => {
            let c = all.take(n);
            assert(c.len() == n);
            assert(c[place as int] == all[place as int]);
            assert(all[place as int].element == all[p].element);
            if place < p {
                assert(all[place as int].element != all[p].element);
            } else if p < place {
                assert(all[p].element != all[place as int].element);
            }
            assert(items == changed.take(n).update(p, changed[n]));
        },
        ConnectionUpdate::Unchanged => {
            if p < n {
                assert(all.take(n)[p] == all[p]);
            }
        },
        ConnectionUpdate::Appended => {},
    }
}

proof fn lemma_one_is_dropped(
    all: Seq<Candidate>,
    changed: Seq<Candidate>,
    s: Selection,
    items: Seq<Candidate>,
    update: ConnectionUpdate,
)
    requires
        all.len() > 0,
        connect::distinct(all),
        select::same_candidates(all, changed),
        s.pruned is Some,
        s.pruned->0 < all.len(),
        connect::shrunk(all, changed, s, items, update),
    ensures
        items.len() == all.len() - 1,
        forall|x: int|
            #![trigger all[x]]
            0 <= x < all.len() && x != s.pruned->0 ==> is_kept_in(items, all[x]),
        forall|j: int|
            #![trigger items[j]]
            0 <= j < items.len() ==> items[j].element != all[s.pruned->0 as int].element,
{
    let n = all.len() - 1;
    let p = s.pruned->0 as int;
    lemma_dropped_place(all, changed, s, items, update);
    assert forall|x: int| #![trigger all[x]] 0 <= x < all.len() && x != p implies is_kept_in(
        items,
        all[x],
    ) by {
        let j = if x == n {
            p
        } else {
            x
        };
        assert(items[j] == changed[x]);
    }
    assert forall|j: int| #![trigger items[j]] 0 <= j < items.len() implies items[j].element
        != all[p].element by {
        let x = if j == p {
            n
        } else {
            j
        };
        assert(items[j] == changed[x]);
        assert(all[x].element == changed[x].element);
        if x < p {
            assert(all[x].element != all[p].element);
        } else {
            assert(all[p].element != all[x].element);
        }
    }
}

/// The candidate that a selection prunes is the furthest of all, or lies nearer to
/// one that comes before it than to the element.
pub proof fn law_pruned_is_furthest_or_not_diverse(
    pair: spec_fn(usize, usize) -> i32,
    c: Seq<Candidate>,
    lm: int,
    order: Seq<int>,
    after: Seq<Candidate>,
    s: Selection,
)
    requires
        select::is_order(c, true, order),
        c.len() <= usize::MAX,
        0 <= lm < c.len(),
        select::is_some_selection(c.len() as int, lm, s),
        select::selected_in_order(pair, c, lm, order, after, s),
    ensures
        s.pruned is Some,
        s.pruned->0 < c.len(),
        (forall|x: int|
            #![trigger c[x]]
            0 <= x < c.len() ==> c[x].distance <= c[s.pruned->0 as int].distance) || (exists|x: int|
            0 <= x < c.len() && x != s.pruned->0 && (#[trigger] c[x]).distance
                <= c[s.pruned->0 as int].distance && pair(
                c[s.pruned->0 as int].element,
                c[x].element,
            ) <= c[s.pruned->0 as int].distance),
{
    let p = s.pruned->0 as int;
    let stop = crate::hnswsq::diversity::law_selected_are_diverse(
        pair,
        c,
        true,
        lm,
        order,
        after,
        s,
    );
    select::lemma_order_covers(c, true, order, p);
    let q = choose|q: int| 0 <= q < order.len() && order[q] == p;
    if q == order.len() - 1 {
        assert forall|x: int| #![trigger c[x]] 0 <= x < c.len() implies c[x].distance
            <= c[p].distance by {
            select::lemma_order_covers(c, true, order, x);
            let y = choose|y: int| 0 <= y < order.len() && order[y] == x;
            if y < q {
                assert(c[order[y]].distance <= c[order[q]].distance);
            }
        }
    } else {
        crate::hnswsq::diversity::law_pruned_was_looked_at(pair, c, true, lm, order, after, s, q);
        assert(q < stop);
        assert(!after[order[q]].closer);
        let i = choose|i: int|
            #![trigger order[i]]
            0 <= i < q && after[order[i]].closer && pair(c[order[q]].element, c[order[i]].element)
                <= c[order[q]].distance;
        assert(c[order[i]].distance <= c[order[q]].distance);
        assert(order[i] != order[q]);
    }
}

/// A result of a search is reached from an entry point by going from neighbor to
/// neighbor at the layer.
pub proof fn law_results_are_reached(
    graph: Graph,
    dist: spec_fn(int) -> i32,
    ep: Seq<SearchCandidate>,
    ef: int,
    lc: int,
    skipping: bool,
    seen: Set<u64>,
    out: Seq<SearchCandidate>,
    i: int,
) -> (path: Seq<int>)
    requires
        graph_search::is_layer_result(graph, dist, ep, ef, lc, skipping, seen, out),
        0 <= i < out.len(),
    ensures
        path.len() > 0,
        path.last() == out[i].element,
        exists|a: int| 0 <= a < ep.len() && (#[trigger] ep[a]).element == path[0],
        forall|k: int|
            #![trigger path[k]]
            0 <= k < path.len() - 1 ==> is_next(graph, lc, path[k], path[k + 1]),
{
    let e = out[i].element as int;
    assert(graph_search::reachable(graph, lc, ep, e));
    let k = choose|k: nat| #[trigger] graph_search::within(graph, lc, ep, e, k);
    lemma_path(graph, lc, ep, e, k)
}

/// Whether element `y` is a neighbor of element `x`, both of the graph, at the
/// layer.
pub open spec fn is_next(graph: Graph, lc: int, x: int, y: int) -> bool {
    &&& 0 <= x < graph.elements@.len()
    &&& graph.elements@[x].level >= lc
    &&& exists|j: int|
        0 <= j < graph.elements@[x].neighbors@[lc].items@.len()
            && (#[trigger] graph.elements@[x].neighbors@[lc].items@[j]).element == y
}

proof fn lemma_path(graph: Graph, lc: int, ep: Seq<SearchCandidate>, e: int, k: nat) -> (path: Seq<
    int,
>)
    requires
        graph_search::within(graph, lc, ep, e, k),
    ensures
        path.len() > 0,
        path.last() == e,
        exists|a: int| 0 <= a < ep.len() && (#[trigger] ep[a]).element == path[0],
        forall|i: int|
            #![trigger path[i]]
            0 <= i < path.len() - 1 ==> is_next(graph, lc, path[i], path[i + 1]),
    decreases k,
{
    if k == 0 {
        let a = choose|a: int| 0 <= a < ep.len() && #[trigger] ep[a].element == e;
        assert(ep[a].element == seq![e][0]);
        seq![e]
    } else if graph_search::within(graph, lc, ep, e, (k - 1) as nat) {
        lemma_path(graph, lc, ep, e, (k - 1) as nat)
    } else {
        let x = choose|x: int|
            {
                &&& #[trigger] graph.is_neighbor(lc, x, e)
                &&& graph_search::on_layer(graph, lc, x)
                &&& graph_search::within(graph, lc, ep, x, (k - 1) as nat)
            };
        let before = lemma_path(graph, lc, ep, x, (k - 1) as nat);
        let path = before.push(e);
        assert(is_next(graph, lc, x, e)) by {
            let j = choose|j: int|
                0 <= j < graph.layer(x, lc).len() && #[trigger] graph.layer(x, lc)[j].element == e;
            assert(graph.elements@[x].neighbors@[lc].items@[j].element == e);
        }
        assert forall|i: int| #![trigger path[i]] 0 <= i < path.len() - 1 implies is_next(
            graph,
            lc,
            path[i],
            path[i + 1],
        ) by {
            if i < before.len() - 1 {
                assert(path[i] == before[i] && path[i + 1] == before[i + 1]);
            }
        }
        assert(path[0] == before[0]);
        path
    }
}

/// Connecting to a full array of different elements drops the candidate that is
/// furthest, or one that lies no farther from another of them than from the element
/// itself, and that no farther than the one dropped; all others stay.
pub proof fn law_connecting_drops_the_furthest_or_crowded(
    pair: spec_fn(usize, usize) -> i32,
    before: NeighborArray,
    new_candidate: Candidate,
    lm: int,
    after: NeighborArray,
    update: ConnectionUpdate,
) -> (pruned: int)
    requires
        connect::is_connected(pair, before, new_candidate, lm, after, update),
        connect::cache_ok(pair, before, lm),
        before.items@.len() == lm,
        lm < usize::MAX,
        connect::distinct(before.items@.push(new_candidate)),
    ensures
        ({
            let all = before.items@.push(new_candidate);
            &&& 0 <= pruned < all.len()
            &&& after.items@.len() == lm
            &&& forall|x: int|
                #![trigger all[x]]
                0 <= x < all.len() && x != pruned ==> is_kept_in(after.items@, all[x])
            &&& forall|j: int|
                #![trigger after.items@[j]]
                0 <= j < lm ==> after.items@[j].element != all[pruned].element
            &&& (forall|x: int|
                #![trigger all[x]]
                0 <= x < all.len() ==> all[x].distance <= all[pruned].distance) || (exists|x: int|
                0 <= x < all.len() && x != pruned && (#[trigger] all[x]).distance
                    <= all[pruned].distance && pair(all[pruned].element, all[x].element)
                    <= all[pruned].distance)
        }),
{
    let all = before.items@.push(new_candidate);
    let (order, changed, s) = choose|order: Seq<int>, changed: Seq<Candidate>, s: Selection|
        connect::shrunk_by(
            pair,
            before,
            new_candidate,
            lm,
            order,
            changed,
            s,
            after.items@,
            update,
        );
    if before.closer_set {
        crate::hnswsq::closer_cache::law_cached_flags_can_be_used(
            pair,
            before,
            new_candidate,
            lm,
            order,
        );
    }
    lemma_one_is_dropped(all, changed, s, after.items@, update);
    law_pruned_is_furthest_or_not_diverse(pair, all, lm, order, changed, s);
    s.pruned->0 as int
}

/// Whether the items hold that element at that distance.
pub open spec fn is_kept_in(items: Seq<Candidate>, c: Candidate) -> bool {
    exists|j: int|
        0 <= j < items.len() && (#[trigger] items[j]).element == c.element && items[j].distance
            == c.distance
}

} // verus!
