//! Connections back from the neighbors of a new element.
use crate::hnswsq::connect;
use crate::hnswsq::connect::{update_connection, ConnectionUpdate};
use crate::hnswsq::graph_search;
use crate::hnswsq::neighbors;
use crate::hnswsq::params;
use crate::hnswsq::params::get_layer_m;
use crate::hnswsq::select;
use crate::hnswsq::types::{Candidate, Element, Graph, NeighborArray};
use vstd::prelude::*;

verus! {

/// Whether connections keep to their layers: an element has no more neighbors
/// at a layer than it may have, and all of them are on that layer.
pub open spec fn is_layered(graph: Graph, m: int) -> bool {
    forall|e: int, lc: int|
        0 <= e < graph.elements@.len() && 0 <= lc <= graph.elements@[e].level
            ==> #[trigger] keeps_to_layer(graph, m, e, lc)
}

pub open spec fn keeps_to_layer(graph: Graph, m: int, e: int, lc: int) -> bool {
    &&& graph.layer(e, lc).len() <= params::layer_m(m, lc)
    &&& forall|i: int|
        #![trigger graph.layer(e, lc)[i]]
        0 <= i < graph.layer(e, lc).len() ==> graph_search::on_layer(
            graph,
            lc,
            graph.layer(e, lc)[i].element as int,
        )
}

/// Whether one of the first `k` of `items` stands for element `x`.
pub open spec fn is_among(items: Seq<Candidate>, k: int, x: int) -> bool {
    exists|i: int| 0 <= i < k && #[trigger] items[i].element == x
}

/// How the array of `x` at layer `lc` changes when the first `k` neighbors of
/// `e` at that layer are connected back to it.
pub open spec fn is_linked(
    pair: spec_fn(usize, usize) -> i32,
    m: int,
    before: Graph,
    after: Graph,
    e: usize,
    x: int,
    lc: int,
    k: int,
) -> bool {
    let items = before.layer(e as int, lc);
    let was = before.elements@[x].neighbors@[lc];
    let now = after.elements@[x].neighbors@[lc];
    if lc <= before.elements@[e as int].level && is_among(items, k, x) {
        exists|i: int, update: ConnectionUpdate|
            0 <= i < k && (#[trigger] items[i]).element == x && #[trigger] connect::is_connected(
                pair,
                was,
                connect::candidate_for(e, items[i].distance),
                params::layer_m(m, lc),
                now,
                update,
            )
    } else {
        now == was
    }
}

/// How many of the neighbors of an element at layer `lc` were connected back
/// when all layers above `at` are done, and `k` of layer `at`.
pub open spec fn linked_count(items: Seq<Candidate>, lc: int, at: int, k: int) -> int {
    if lc > at {
        items.len() as int
    } else if lc == at {
        k
    } else {
        0
    }
}

/// The state of the graph at that point: nothing but the neighbors of the
/// elements differs, and those as they should.
pub open spec fn are_linked(
    pair: spec_fn(usize, usize) -> i32,
    m: int,
    before: Graph,
    after: Graph,
    e: usize,
    at: int,
    k: int,
) -> bool {
    &&& after.elements@.len() == before.elements@.len()
    &&& forall|x: int|
        0 <= x < before.elements@.len() ==> #[trigger] differs_in_neighbors(
            before.elements@[x],
            after.elements@[x],
        )
    &&& forall|x: int, lc: int|
        0 <= x < before.elements@.len() && 0 <= lc <= before.elements@[x].level
            ==> #[trigger] is_linked(
            pair,
            m,
            before,
            after,
            e,
            x,
            lc,
            linked_count(before.layer(e as int, lc), lc, at, k),
        )
}

pub open spec fn differs_in_neighbors(before: Element, after: Element) -> bool {
    &&& after == (Element { neighbors: after.neighbors, ..before })
    &&& after.neighbors@.len() == before.neighbors@.len()
}

/// The neighbors of `e` differ from one another and from `e`, and are on its
/// layers.
pub open spec fn has_proper_neighbors(graph: Graph, e: int) -> bool {
    forall|lc: int|
        0 <= lc <= graph.elements@[e].level ==> #[trigger] is_proper_layer(graph, e, lc)
}

pub open spec fn is_proper_layer(graph: Graph, e: int, lc: int) -> bool {
    let items = graph.layer(e, lc);
    &&& connect::distinct(items)
    &&& forall|i: int|
        #![trigger items[i]]
        0 <= i < items.len() ==> items[i].element != e && graph_search::on_layer(
            graph,
            lc,
            items[i].element as int,
        )
}

/// One more neighbor, `x`, was connected back.
proof fn lemma_link_step(
    pair: spec_fn(usize, usize) -> i32,
    m: int,
    before: Graph,
    mid: Graph,
    after: Graph,
    e: usize,
    at: int,
    k: int,
    update: ConnectionUpdate,
)
    requires
        e < before.elements@.len(),
        0 <= at <= before.elements@[e as int].level,
        has_proper_neighbors(before, e as int),
        are_linked(pair, m, before, mid, e, at, k),
        0 <= k < before.layer(e as int, at).len(),
        after.elements@.len() == mid.elements@.len(),
        ({
            let x = before.layer(e as int, at)[k].element as int;
            &&& forall|y: int|
                0 <= y < mid.elements@.len() && y != x ==> #[trigger] after.elements@[y]
                    == mid.elements@[y]
            &&& differs_in_neighbors(mid.elements@[x], after.elements@[x])
            &&& forall|lc: int|
                0 <= lc < mid.elements@[x].neighbors@.len() && lc != at
                    ==> #[trigger] after.elements@[x].neighbors@[lc]
                    == mid.elements@[x].neighbors@[lc]
            &&& connect::is_connected(
                pair,
                mid.elements@[x].neighbors@[at],
                connect::candidate_for(e, before.layer(e as int, at)[k].distance),
                params::layer_m(m, at),
                after.elements@[x].neighbors@[at],
                update,
            )
        }),
        forall|y: int|
            #![trigger before.elements@[y]]
            0 <= y < before.elements@.len() ==> before.elements@[y].neighbors@.len()
                == before.elements@[y].level + 1,
    ensures
        are_linked(pair, m, before, after, e, at, k + 1),
{
    let items = before.layer(e as int, at);
    let x = items[k].element as int;
    assert(is_proper_layer(before, e as int, at));
    assert(!is_among(items, k, x)) by {
        if is_among(items, k, x) {
            let i = choose|i: int| 0 <= i < k && #[trigger] items[i].element == x;
            assert(items[i].element != items[k].element);
        }
    }
    assert forall|y: int| 0 <= y < before.elements@.len() implies #[trigger] differs_in_neighbors(
        before.elements@[y],
        after.elements@[y],
    ) by {
        assert(differs_in_neighbors(before.elements@[y], mid.elements@[y]));
        if y != x {
            assert(after.elements@[y] == mid.elements@[y]);
        }
    }
    assert forall|y: int, lc: int|
        0 <= y < before.elements@.len() && 0 <= lc <= before.elements@[y].level implies #[trigger] is_linked(
        pair,
        m,
        before,
        after,
        e,
        y,
        lc,
        linked_count(before.layer(e as int, lc), lc, at, k + 1),
    ) by {
        let those = before.layer(e as int, lc);
        let n0 = linked_count(those, lc, at, k);
        let n1 = linked_count(those, lc, at, k + 1);
        assert(is_linked(pair, m, before, mid, e, y, lc, n0));
        assert(before.elements@[y].neighbors@.len() == before.elements@[y].level + 1);
        assert(differs_in_neighbors(before.elements@[y], mid.elements@[y]));
        if y == x && lc == at {
            assert(!is_among(items, n0, x));
            assert(items[k].element == x);
            assert(is_among(items, n1, x));
        } else {
            assert(after.elements@[y].neighbors@[lc] == mid.elements@[y].neighbors@[lc]);
            if lc == at {
                assert(is_among(items, n1, y) == is_among(items, n0, y)) by {
                    if is_among(items, n1, y) {
                        let i = choose|i: int| 0 <= i < n1 && #[trigger] items[i].element == y;
                        assert(i < k);
                        assert(items[i].element == y);
                    }
                    if is_among(items, n0, y) {
                        let i = choose|i: int| 0 <= i < n0 && #[trigger] items[i].element == y;
                        assert(items[i].element == y);
                    }
                }
                if lc <= before.elements@[e as int].level && is_among(items, n0, y) {
                    let (i, u) = choose|i: int, u: ConnectionUpdate|
                        0 <= i < n0 && (#[trigger] items[i]).element == y
                            && #[trigger] connect::is_connected(
                            pair,
                            before.elements@[y].neighbors@[lc],
                            connect::candidate_for(e, items[i].distance),
                            params::layer_m(m, lc),
                            mid.elements@[y].neighbors@[lc],
                            u,
                        );
                    assert(items[i].element == y && connect::is_connected(
                        pair,
                        before.elements@[y].neighbors@[lc],
                        connect::candidate_for(e, items[i].distance),
                        params::layer_m(m, lc),
                        after.elements@[y].neighbors@[lc],
                        u,
                    ));
                }
            }
        }
    }
}

/// A layer is done: the next one is the one below.
proof fn lemma_link_next_layer(
    pair: spec_fn(usize, usize) -> i32,
    m: int,
    before: Graph,
    after: Graph,
    e: usize,
    at: int,
)
    requires
        are_linked(pair, m, before, after, e, at, before.layer(e as int, at).len() as int),
    ensures
        are_linked(pair, m, before, after, e, at - 1, 0),
{
    assert forall|y: int, lc: int|
        0 <= y < before.elements@.len() && 0 <= lc <= before.elements@[y].level implies #[trigger] is_linked(
        pair,
        m,
        before,
        after,
        e,
        y,
        lc,
        linked_count(before.layer(e as int, lc), lc, at - 1, 0),
    ) by {
        let those = before.layer(e as int, lc);
        assert(linked_count(those, lc, at - 1, 0) == linked_count(
            those,
            lc,
            at,
            before.layer(e as int, at).len() as int,
        ));
    }
}

/// The graph stays well formed when an array takes up a new element.
proof fn lemma_stays_wf(
    pair: spec_fn(usize, usize) -> i32,
    lm: int,
    mid: Graph,
    after: Graph,
    x: int,
    at: int,
    c: Candidate,
    update: ConnectionUpdate,
)
    requires
        mid.wf(),
        0 <= x < mid.elements@.len(),
        0 <= at <= mid.elements@[x].level,
        c.element < mid.elements@.len(),
        after.elements@.len() == mid.elements@.len(),
        forall|y: int|
            0 <= y < mid.elements@.len() && y != x ==> #[trigger] after.elements@[y]
                == mid.elements@[y],
        differs_in_neighbors(mid.elements@[x], after.elements@[x]),
        forall|lc: int|
            0 <= lc < mid.elements@[x].neighbors@.len() && lc != at
                ==> #[trigger] after.elements@[x].neighbors@[lc] == mid.elements@[x].neighbors@[lc],
        connect::is_connected(
            pair,
            mid.elements@[x].neighbors@[at],
            c,
            lm,
            after.elements@[x].neighbors@[at],
            update,
        ),
    ensures
        after.wf(),
{
    assert forall|y: int| #![trigger after.elements@[y]] 0 <= y
        < after.elements@.len() implies after.element_ok(y) by {
        assert(mid.element_ok(y)) by {
            assert(mid.elements@[y].level >= 0);
        }
        if y == x {
            let now = after.elements@[x];
            let was = mid.elements@[x];
            assert forall|l: int, i: int|
                #![trigger now.neighbors@[l].items@[i]]
                0 <= l <= now.level && 0 <= i
                    < now.neighbors@[l].items@.len() implies now.neighbors@[l].items@[i].element
                < after.elements@.len() by {
                if l == at {
                    connect::law_connecting_adds_nothing_else(
                        pair,
                        was.neighbors@[at],
                        c,
                        lm,
                        now.neighbors@[at],
                        update,
                        i,
                    );
                    if now.neighbors@[l].items@[i].element != c.element {
                        let j = choose|j: int|
                            0 <= j < was.neighbors@[at].items@.len()
                                && #[trigger] was.neighbors@[at].items@[j].element
                                == now.neighbors@[at].items@[i].element;
                        assert(was.neighbors@[at].items@[j].element < mid.elements@.len());
                    }
                } else {
                    assert(now.neighbors@[l] == was.neighbors@[l]);
                    assert(was.neighbors@[l].items@[i].element < mid.elements@.len());
                }
            }
        }
    }
}

/// Connect the neighbors of element `e` back to it, at each of its layers.
pub fn update_neighbors_in_memory<G: Fn(usize, usize) -> i32>(
    graph: &mut Graph,
    e: usize,
    m: usize,
    pair: &G,
)
    requires
        old(graph).wf(),
        e < old(graph).elements@.len(),
        m <= usize::MAX / 2,
        neighbors::is_pair_distance_on(*pair, old(graph).elements@.len() as int),
        has_proper_neighbors(*old(graph), e as int),
    ensures
        final(graph).wf(),
        are_linked(
            select::pairs_of(*pair),
            m as int,
            *old(graph),
            *final(graph),
            e,
            -1,
            0,
        ),
{
    let ghost pd = select::pairs_of(*pair);
    let ghost g0 = *graph;
    let ghost n = graph.elements@.len() as int;
    let mut todo: usize = graph.elements[e].level as usize + 1;
    proof {
        assert forall|x: int| 0 <= x < n implies #[trigger] differs_in_neighbors(
            g0.elements@[x],
            g0.elements@[x],
        ) by {}
        assert forall|x: int, lc: int|
            0 <= x < n && 0 <= lc <= g0.elements@[x].level implies #[trigger] is_linked(
            pd,
            m as int,
            g0,
            g0,
            e,
            x,
            lc,
            linked_count(g0.layer(e as int, lc), lc, todo - 1, 0),
        ) by {
            assert(!(lc <= g0.elements@[e as int].level && is_among(
                g0.layer(e as int, lc),
                linked_count(g0.layer(e as int, lc), lc, todo - 1, 0),
                x,
            )));
        }
    }
    while todo > 0
        invariant
            g0.wf(),
            graph.wf(),
            n == g0.elements@.len(),
            e < n,
            todo <= g0.elements@[e as int].level + 1,
            m <= usize::MAX / 2,
            pd == select::pairs_of(*pair),
            neighbors::is_pair_distance_on(*pair, n),
            has_proper_neighbors(g0, e as int),
            are_linked(pd, m as int, g0, *graph, e, todo - 1, 0),
        decreases todo,
    {
        let lc: usize = todo - 1;
        let lm: usize = get_layer_m(m, lc);
        let ghost items = g0.layer(e as int, lc as int);
        proof {
            assert(is_proper_layer(g0, e as int, lc as int));
            assert(is_linked(
                pd,
                m as int,
                g0,
                *graph,
                e,
                e as int,
                lc as int,
                linked_count(items, lc as int, todo - 1, 0),
            ));
            assert(differs_in_neighbors(
                g0.elements@[e as int],
                graph.elements@[e as int],
            ));
            assert(!is_among(items, 0, e as int));
            assert(g0.element_ok(e as int)) by {
                assert(g0.elements@[e as int].level >= 0);
            }
        }
        let mut local: Vec<Candidate> = Vec::new();
        add_all(&graph.elements[e].neighbors[lc].items, &mut local);
        assert(local@ == items);
        let mut k: usize = 0;
        while k < local.len()
            invariant
                k <= local@.len(),
                local@ == items,
                items == g0.layer(e as int, lc as int),
                g0.wf(),
                graph.wf(),
                n == g0.elements@.len(),
                e < n,
                lc <= g0.elements@[e as int].level,
                lm == params::layer_m(m as int, lc as int),
                pd == select::pairs_of(*pair),
                neighbors::is_pair_distance_on(*pair, n),
                has_proper_neighbors(g0, e as int),
                are_linked(pd, m as int, g0, *graph, e, lc as int, k as int),
            decreases local@.len() - k,
        {
            let hc: Candidate = local[k];
            let x: usize = hc.element;
            let ghost mid = *graph;
            proof {
                assert(is_proper_layer(g0, e as int, lc as int));
                assert(items[k as int].element == x);
                assert(graph_search::on_layer(g0, lc as int, x as int));
                assert(differs_in_neighbors(g0.elements@[x as int], mid.elements@[x as int]));
                assert(mid.element_ok(x as int)) by {
                    assert(mid.elements@[x as int].level >= 0);
                }
                let all = mid.elements@[x as int].neighbors@[lc as int].items@.push(
                    connect::candidate_for(e, hc.distance),
                );
                assert forall|i: int| #![trigger all[i]] 0 <= i < all.len() implies all[i].element
                    < n by {
                    if i < all.len() - 1 {
                        assert(mid.elements@[x as int].neighbors@[lc as int].items@[i].element < n);
                    }
                }
                assert(select::is_pair_distance(*pair, all));
            }
            let update: ConnectionUpdate = update_connection(
                &mut graph.elements[x].neighbors[lc],
                e,
                hc.distance,
                lm,
                pair,
            );
            proof {
                lemma_stays_wf(
                    pd,
                    lm as int,
                    mid,
                    *graph,
                    x as int,
                    lc as int,
                    connect::candidate_for(e, hc.distance),
                    update,
                );
                assert forall|y: int|
                    #![trigger g0.elements@[y]]
                    0 <= y < n implies g0.elements@[y].neighbors@.len() == g0.elements@[y].level + 1 by {
                    assert(g0.element_ok(y));
                }
                lemma_link_step(
                    pd,
                    m as int,
                    g0,
                    mid,
                    *graph,
                    e,
                    lc as int,
                    k as int,
                    update,
                );
            }
            k = k + 1;
        }
        proof {
            lemma_link_next_layer(pd, m as int, g0, *graph, e, lc as int);
        }
        todo = lc;
    }
}

/// Append all of `from` to `to`.
fn add_all(from: &Vec<Candidate>, to: &mut Vec<Candidate>)
    ensures
        final(to)@ == old(to)@ + from@,
{
    let mut i: usize = 0;
    while i < from.len()
        invariant
            i <= from@.len(),
            to@ == old(to)@ + from@.take(i as int),
        decreases from@.len() - i,
    {
        assert(from@.take(i + 1) =~= from@.take(i as int).push(from@[i as int]));
        to.push(from[i]);
        i = i + 1;
    }
    assert(from@.take(from@.len() as int) =~= from@);
}

/// Whether the element `e` was connected at `distance`, in an array of at most
/// `limit` neighbors.
pub open spec fn is_connected_at(
    pair: spec_fn(usize, usize) -> i32,
    was: NeighborArray,
    e: usize,
    distance: i32,
    limit: int,
    now: NeighborArray,
    update: ConnectionUpdate,
) -> bool {
    connect::is_connected(
        pair,
        was,
        Candidate { element: e, distance, closer: false },
        limit,
        now,
        update,
    )
}

/// Every neighbor of an element, in any place of any of its layers, is connected
/// back to it at that layer: where it has room, the element is appended to its
/// array. All other arrays stay as they are.
pub proof fn law_every_neighbor_is_connected_back(
    pair: spec_fn(usize, usize) -> i32,
    m: int,
    before: Graph,
    after: Graph,
    e: usize,
    x: int,
    lc: int,
) -> (r: (int, ConnectionUpdate))
    requires
        are_linked(pair, m, before, after, e, -1, 0),
        0 <= x < before.elements@.len(),
        0 <= lc <= before.elements@[x].level,
        e < before.elements@.len(),
    ensures
        after.elements@.len() == before.elements@.len(),
        after.elements@[x].level == before.elements@[x].level,
        after.elements@[x].heaptid == before.elements@[x].heaptid,
        after.elements@[x].value == before.elements@[x].value,
        ({
            let items = before.elements@[e as int].neighbors@[lc].items@;
            let was = before.elements@[x].neighbors@[lc];
            let now = after.elements@[x].neighbors@[lc];
            let limit = if lc == 0 {
                2 * m
            } else {
                m
            };
            let named = lc <= before.elements@[e as int].level && exists|i: int|
                0 <= i < items.len() && (#[trigger] items[i]).element == x;
            &&& !named ==> now == was
            &&& named && was.items@.len() < limit ==> now.items@.len() == was.items@.len() + 1
                && now.items@.last().element == e && now.items@.drop_last() == was.items@
            &&& named ==> 0 <= r.0 < items.len() && items[r.0].element == x && is_connected_at(
                pair,
                was,
                e,
                items[r.0].distance,
                limit,
                now,
                r.1,
            )
        }),
{
    assert(differs_in_neighbors(before.elements@[x], after.elements@[x]));
    let items = before.layer(e as int, lc);
    let k = linked_count(items, lc, -1, 0);
    assert(is_linked(pair, m, before, after, e, x, lc, k));
    let was = before.elements@[x].neighbors@[lc];
    let now = after.elements@[x].neighbors@[lc];
    let named = lc <= before.elements@[e as int].level && exists|i: int|
        0 <= i < items.len() && (#[trigger] items[i]).element == x;
    if named {
        assert(is_among(items, k, x));
        let (i, update) = choose|i: int, update: ConnectionUpdate|
            0 <= i < k && (#[trigger] items[i]).element == x && #[trigger] connect::is_connected(
                pair,
                was,
                connect::candidate_for(e, items[i].distance),
                params::layer_m(m, lc),
                now,
                update,
            );
        let limit = if lc == 0 {
            2 * m
        } else {
            m
        };
        assert(limit == params::layer_m(m, lc));
        assert(is_connected_at(pair, was, e, items[i].distance, limit, now, update));
        if was.items@.len() < limit {
            assert(now.items@.len() == was.items@.len() + 1);
            assert(now.items@.last().element == e);
            assert(now.items@.drop_last() =~= was.items@);
        }
        (i, update)
    } else {
        assert(!(lc <= before.elements@[e as int].level && is_among(items, k, x)));
        (0, ConnectionUpdate::Unchanged)
    }
}

} // verus!
