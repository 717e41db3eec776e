//! Insertion of elements into the in-memory graph.
use crate::hnswsq::closer_cache;
use crate::hnswsq::connect;
use crate::hnswsq::connect::ConnectionUpdate;
use crate::hnswsq::graph_search;
use crate::hnswsq::layer_search::SearchCandidate;
use crate::hnswsq::neighbors;
use crate::hnswsq::neighbors::find_element_neighbors;
use crate::hnswsq::params;
use crate::hnswsq::select;
use crate::hnswsq::select::Selection;
use crate::hnswsq::types::{Candidate, Element, Graph};
use crate::hnswsq2::backlinks;
use crate::hnswsq2::backlinks::update_neighbors_in_memory;
use vstd::prelude::*;

verus! {

/// A graph that is being built in memory, with its entry point.
#[derive(Debug)]
pub struct BuildGraph {
    pub graph: Graph,
    pub entry_point: Option<usize>,
}

/// A new element: it has an empty neighbor array for each of its layers.
pub open spec fn is_unconnected(e: Element) -> bool {
    &&& e.neighbors@.len() == e.level + 1
    &&& forall|lc: int|
        #![trigger e.neighbors@[lc]]
        0 <= lc <= e.level ==> e.neighbors@[lc].items@.len() == 0 && !e.neighbors@[lc].closer_set
}

/// The graph with one more element.
pub open spec fn with_element(before: Graph, e: Element, after: Graph) -> bool {
    after.elements@ == before.elements@.push(e)
}

/// What inserting an element leads to: `grown` is the graph with the element,
/// `chosen` the one with its neighbors, and `after` the one in which they are
/// connected back.
pub open spec fn is_inserted(
    before: Graph,
    entry_point: Option<usize>,
    element: Element,
    dist: spec_fn(int) -> i32,
    pair: spec_fn(usize, usize) -> i32,
    m: int,
    ef_construction: int,
    grown: Graph,
    chosen: Graph,
    after: Graph,
) -> bool {
    let n = before.elements@.len();
    &&& with_element(before, element, grown)
    &&& chosen.elements@.len() == n + 1
    &&& forall|x: int|
        #![trigger chosen.elements@[x]]
        0 <= x < n ==> chosen.elements@[x] == before.elements@[x]
    &&& entry_point is None ==> chosen.elements@ == grown.elements@
    &&& entry_point is Some ==> exists|found: Seq<Vec<Candidate>>|
        {
            &&& #[trigger] neighbors::are_found(
                grown,
                dist,
                pair,
                element.level as int,
                entry_point->0,
                m,
                ef_construction,
                None,
                false,
                found,
            )
            &&& neighbors::are_added(
                element,
                chosen.elements@[n as int],
                found,
                found.len() as int,
            )
        }
    &&& backlinks::are_linked(pair, m, chosen, after, n as usize, -1, 0)
}

impl BuildGraph {
    /// An empty graph.
    pub fn new() -> (b: BuildGraph)
        ensures
            b.graph.elements@.len() == 0,
            b.entry_point is None,
            forall|m: int| #[trigger] b.wf(m),
            forall|pair: spec_fn(usize, usize) -> i32, m: int| #[trigger]
                closer_cache::has_sound_caches(pair, b.graph, m),
    {
        BuildGraph { graph: Graph { elements: Vec::new() }, entry_point: None }
    }

    /// The graph is well formed and keeps to its layers, and there is an entry
    /// point as soon as there is an element; none lies higher.
    pub open spec fn wf(&self, m: int) -> bool {
        &&& self.graph.wf()
        &&& backlinks::is_layered(self.graph, m)
        &&& self.entry_point is None <==> self.graph.elements@.len() == 0
        &&& self.entry_point is Some ==> {
            &&& self.entry_point->0 < self.graph.elements@.len()
            &&& forall|e: int|
                #![trigger self.graph.elements@[e]]
                0 <= e < self.graph.elements@.len() ==> self.graph.elements@[e].level
                    <= self.graph.elements@[self.entry_point->0 as int].level
        }
    }

    /// Insert an element: find its neighbors from the entry point, connect
    /// them back, and make it the entry point where it lies higher. `distance`
    /// is the distance to the new element. The cached flags of the arrays stay
    /// right: every selection is the one that is made without them.
    pub fn insert<F: Fn(usize) -> i32, G: Fn(usize, usize) -> i32>(
        &mut self,
        element: Element,
        distance: &F,
        pair: &G,
        m: usize,
        ef_construction: usize,
    )
        requires
            old(self).wf(m as int),
            is_unconnected(element),
            old(self).graph.elements@.len() + 1 <= usize::MAX / 2,
            graph_search::is_distance(*distance, old(self).graph.elements@.len() as int + 1),
            neighbors::is_pair_distance_on(*pair, old(self).graph.elements@.len() as int + 1),
            m <= usize::MAX / 2,
            ef_construction < usize::MAX,
        ensures
            final(self).wf(m as int),
            final(self).graph.elements@.len() == old(self).graph.elements@.len() + 1,
            final(self).entry_point == if old(self).entry_point is None || element.level > old(
                self,
            ).graph.elements@[old(self).entry_point->0 as int].level {
                Some(old(self).graph.elements@.len() as usize)
            } else {
                old(self).entry_point
            },
            closer_cache::has_sound_caches(select::pairs_of(*pair), old(self).graph, m as int)
                ==> closer_cache::has_sound_caches(
                select::pairs_of(*pair),
                final(self).graph,
                m as int,
            ),
            exists|grown: Graph, chosen: Graph|
                is_inserted(
                    old(self).graph,
                    old(self).entry_point,
                    element,
                    graph_search::distance_of(*distance),
                    select::pairs_of(*pair),
                    m as int,
                    ef_construction as int,
                    grown,
                    chosen,
                    final(self).graph,
                ),
    {
        let ghost g0 = self.graph;
        let n: usize = self.graph.elements.len();
        let level: u8 = element.level;
        let rises: bool = match self.entry_point {
            None => true,
            Some(e) => level > self.graph.elements[e].level,
        };
        self.graph.elements.push(element);
        let ghost grown = self.graph;
        proof {
            assert(with_element(g0, element, grown));
            assert forall|x: int| #![trigger grown.elements@[x]] 0 <= x
                < grown.elements@.len() implies grown.element_ok(x) by {
                if x < n {
                    assert(grown.elements@[x] == g0.elements@[x]);
                    assert(g0.element_ok(x));
                }
            }
        }
        find_element_neighbors(
            &mut self.graph,
            n,
            self.entry_point,
            distance,
            pair,
            m,
            ef_construction,
            false,
            false,
        );
        let ghost chosen = self.graph;
        proof {
            lemma_new_neighbors_are_proper(
                g0,
                self.entry_point,
                element,
                graph_search::distance_of(*distance),
                select::pairs_of(*pair),
                m as int,
                ef_construction as int,
                grown,
                chosen,
            );
        }
        update_neighbors_in_memory(&mut self.graph, n, m, pair);
        proof {
            lemma_stays_layered(select::pairs_of(*pair), m as int, chosen, self.graph, n);
            if closer_cache::has_sound_caches(select::pairs_of(*pair), g0, m as int) {
                lemma_caches_stay_sound(
                    select::pairs_of(*pair),
                    m as int,
                    g0,
                    element,
                    chosen,
                    self.graph,
                );
            }
            assert forall|x: int| #![trigger self.graph.elements@[x]] 0 <= x <= n implies self.graph.elements@[x].level
                == grown.elements@[x].level by {
                assert(backlinks::differs_in_neighbors(
                    chosen.elements@[x],
                    self.graph.elements@[x],
                ));
                if x < n {
                    assert(chosen.elements@[x] == g0.elements@[x]);
                }
            }
            assert forall|x: int| 0 <= x < n implies #[trigger] grown.elements@[x]
                == g0.elements@[x] by {}
        }
        if rises {
            self.entry_point = Some(n);
        }
        assert(is_inserted(
            old(self).graph,
            old(self).entry_point,
            element,
            graph_search::distance_of(*distance),
            select::pairs_of(*pair),
            m as int,
            ef_construction as int,
            grown,
            chosen,
            self.graph,
        ));
    }
}

/// An element that nothing is connected to cannot be reached.
proof fn lemma_unlinked_is_not_reached(
    graph: Graph,
    lc: int,
    ep: Seq<SearchCandidate>,
    e: int,
    k: nat,
)
    requires
        !graph_search::holds(ep, e),
        forall|x: int|
            #![trigger graph.is_neighbor(lc, x, e)]
            graph_search::on_layer(graph, lc, x) ==> !graph.is_neighbor(lc, x, e),
    ensures
        !graph_search::within(graph, lc, ep, e, k),
    decreases k,
{
    if k > 0 {
        lemma_unlinked_is_not_reached(graph, lc, ep, e, (k - 1) as nat);
    }
}

/// The results of each layer are distinct, on the layer, and do not hold an
/// element that nothing is connected to.
proof fn lemma_descent(
    graph: Graph,
    dist: spec_fn(int) -> i32,
    start: Seq<SearchCandidate>,
    level: int,
    ef: int,
    skipping: bool,
    chain: Seq<Seq<SearchCandidate>>,
    e: int,
    lc: int,
)
    requires
        neighbors::is_descent(graph, dist, start, level, ef, skipping, chain),
        graph_search::distinct(start),
        !graph_search::holds(start, e),
        forall|l: int, x: int|
            #![trigger graph.is_neighbor(l, x, e)]
            0 <= l && graph_search::on_layer(graph, l, x) ==> !graph.is_neighbor(l, x, e),
        0 <= lc < chain.len(),
    ensures
        graph_search::distinct(chain[lc]),
        !graph_search::holds(chain[lc], e),
        graph_search::on_the_layer(graph, dist, lc, chain[lc]),
    decreases chain.len() - lc,
{
    if lc < chain.len() - 1 {
        lemma_descent(graph, dist, start, level, ef, skipping, chain, e, lc + 1);
    }
    let ep = neighbors::layer_start(start, chain, lc);
    assert(graph_search::is_layer_result(
        graph,
        dist,
        ep,
        neighbors::layer_ef(level, ef, lc),
        lc,
        skipping,
        Set::empty(),
        chain[lc],
    ));
    if graph_search::holds(chain[lc], e) {
        let i = choose|i: int| 0 <= i < chain[lc].len() && #[trigger] chain[lc][i].element == e;
        assert(graph_search::reachable(graph, lc, ep, chain[lc][i].element as int));
        let k = choose|k: nat| #[trigger] graph_search::within(graph, lc, ep, e, k);
        lemma_unlinked_is_not_reached(graph, lc, ep, e, k);
    }
}

/// What is chosen of candidates of different elements are different ones of
/// them.
proof fn lemma_chosen_are_distinct(
    pair: spec_fn(usize, usize) -> i32,
    c: Seq<Candidate>,
    lm: int,
    out: Seq<Candidate>,
)
    requires
        connect::distinct(c),
        neighbors::are_chosen(pair, c, lm, out),
    ensures
        connect::distinct(out),
        forall|i: int|
            #![trigger out[i]]
            0 <= i < out.len() ==> neighbors::has_element(c, out[i].element),
{
    if c.len() <= lm {
        assert forall|i: int| #![trigger out[i]] 0 <= i < out.len() implies neighbors::has_element(
            c,
            out[i].element,
        ) by {
            assert(c[i].element == out[i].element);
        }
    } else {
        let (order, after, s) = choose|order: Seq<int>, after: Seq<Candidate>, s: Selection|
            neighbors::are_chosen_by(pair, c, lm, order, after, s, out);
        assert forall|i: int| 0 <= i < out.len() implies #[trigger] out[i].element
            == c[s.selected@[i] as int].element && s.selected@[i] < c.len() by {
            assert(out[i] == after[s.selected@[i] as int]);
        }
        assert forall|i: int| #![trigger out[i]] 0 <= i < out.len() implies neighbors::has_element(
            c,
            out[i].element,
        ) by {
            assert(c[s.selected@[i] as int].element == out[i].element);
        }
        assert forall|i: int, j: int| #![trigger out[i], out[j]] 0 <= i < j
            < out.len() implies out[i].element != out[j].element by {
            let a = s.selected@[i] as int;
            let b = s.selected@[j] as int;
            assert(out[i].element == c[a].element && out[j].element == c[b].element);
            assert(a != b);
            if a < b {
                assert(c[a].element != c[b].element);
            } else {
                assert(c[b].element != c[a].element);
            }
        }
    }
}

/// The neighbors chosen for a new element differ from one another and from
/// the element, are on its layers, and are no more than it may have.
proof fn lemma_new_neighbors_are_proper(
    before: Graph,
    entry_point: Option<usize>,
    element: Element,
    dist: spec_fn(int) -> i32,
    pair: spec_fn(usize, usize) -> i32,
    m: int,
    ef_construction: int,
    grown: Graph,
    chosen: Graph,
)
    requires
        before.wf(),
        backlinks::is_layered(before, m),
        m >= 0,
        before.elements@.len() < usize::MAX,
        entry_point is Some ==> entry_point->0 < before.elements@.len(),
        is_unconnected(element),
        with_element(before, element, grown),
        chosen.elements@.len() == before.elements@.len() + 1,
        forall|x: int|
            #![trigger chosen.elements@[x]]
            0 <= x < before.elements@.len() ==> chosen.elements@[x] == before.elements@[x],
        entry_point is None ==> chosen.elements@ == grown.elements@,
        entry_point is Some ==> exists|found: Seq<Vec<Candidate>>|
            {
                &&& #[trigger] neighbors::are_found(
                    grown,
                    dist,
                    pair,
                    element.level as int,
                    entry_point->0,
                    m,
                    ef_construction,
                    None,
                    false,
                    found,
                )
                &&& neighbors::are_added(
                    element,
                    chosen.elements@[before.elements@.len() as int],
                    found,
                    found.len() as int,
                )
            },
    ensures
        backlinks::has_proper_neighbors(chosen, before.elements@.len() as int),
        backlinks::is_layered(chosen, m),
{
    let n = before.elements@.len() as int;
    assert(grown.elements@[n] == element);
    assert forall|x: int| 0 <= x < n implies #[trigger] grown.elements@[x] == before.elements@[x] by {}
    assert forall|l: int, x: int|
        #![trigger grown.is_neighbor(l, x, n)]
        0 <= l && graph_search::on_layer(grown, l, x) implies !grown.is_neighbor(l, x, n) by {
        if grown.is_neighbor(l, x, n) {
            let i = choose|i: int|
                0 <= i < grown.layer(x, l).len() && #[trigger] grown.layer(x, l)[i].element == n;
            if x < n {
                assert(grown.elements@[x] == before.elements@[x]);
                assert(before.element_ok(x));
                assert(before.elements@[x].neighbors@[l].items@[i].element < n);
            } else {
                assert(element.neighbors@[l].items@.len() == 0);
            }
        }
    }
    if entry_point is Some {
        let start = entry_point->0;
        let found = choose|found: Seq<Vec<Candidate>>|
            {
                &&& #[trigger] neighbors::are_found(
                    grown,
                    dist,
                    pair,
                    element.level as int,
                    start,
                    m,
                    ef_construction,
                    None,
                    false,
                    found,
                )
                &&& neighbors::are_added(
                    element,
                    chosen.elements@[n],
                    found,
                    found.len() as int,
                )
            };
        let first = seq![neighbors::entry_candidate(dist, start)];
        let chain = choose|chain: Seq<Seq<SearchCandidate>>|
            {
                &&& chain.len() == grown.elements@[start as int].level + 1
                &&& #[trigger] neighbors::is_descent(
                    grown,
                    dist,
                    first,
                    element.level as int,
                    neighbors::searched_for(ef_construction, None),
                    false,
                    chain,
                )
                &&& neighbors::are_layer_neighbors(grown, pair, m, None, false, chain, found)
            };
        assert(!graph_search::holds(first, n)) by {
            if graph_search::holds(first, n) {
                let i = choose|i: int| 0 <= i < first.len() && #[trigger] first[i].element == n;
                assert(first[0].element == start);
            }
        }
        assert forall|lc: int| 0 <= lc <= element.level implies #[trigger] backlinks::is_proper_layer(
            chosen,
            n,
            lc,
        ) && chosen.layer(n, lc).len() <= params::layer_m(m, lc) by {
            let items = chosen.layer(n, lc);
            assert(element.neighbors@[lc].items@.len() == 0);
            assert(chosen.elements@[n].neighbors@[lc].items@ == if lc < found.len() {
                element.neighbors@[lc].items@ + found[lc]@
            } else {
                element.neighbors@[lc].items@
            });
            if lc < found.len() {
                assert(items =~= found[lc]@);
                assert(lc < chain.len());
                lemma_descent(
                    grown,
                    dist,
                    first,
                    element.level as int,
                    neighbors::searched_for(ef_construction, None),
                    false,
                    chain,
                    n,
                    lc,
                );
                let c = neighbors::layer_candidates(grown, chain[lc], None, false);
                assert(connect::distinct(c)) by {
                    assert forall|i: int, j: int| #![trigger c[i], c[j]] 0 <= i < j
                        < c.len() implies c[i].element != c[j].element by {
                        assert(chain[lc][i].element != chain[lc][j].element);
                    }
                }
                assert(neighbors::are_chosen(pair, c, params::layer_m(m, lc), found[lc]@));
                lemma_chosen_are_distinct(pair, c, params::layer_m(m, lc), found[lc]@);
                assert forall|i: int| #![trigger items[i]] 0 <= i < items.len() implies items[i].element
                    != n && graph_search::on_layer(chosen, lc, items[i].element as int) by {
                    assert(neighbors::has_element(c, found[lc]@[i].element));
                    let j = choose|j: int|
                        0 <= j < c.len() && #[trigger] c[j].element == found[lc]@[i].element;
                    assert(chain[lc][j].element == c[j].element);
                    assert(graph_search::on_layer(grown, lc, chain[lc][j].element as int));
                    if c[j].element == n {
                        assert(graph_search::holds(chain[lc], n));
                    } else {
                        assert(chosen.elements@[c[j].element as int]
                            == before.elements@[c[j].element as int]);
                    }
                }
            } else {
                assert(items.len() == 0);
            }
        }
    } else {
        assert forall|lc: int| 0 <= lc <= element.level implies #[trigger] backlinks::is_proper_layer(
            chosen,
            n,
            lc,
        ) && chosen.layer(n, lc).len() <= params::layer_m(m, lc) by {
            assert(chosen.elements@[n] == element);
            assert(element.neighbors@[lc].items@.len() == 0);
        }
    }
    assert(chosen.elements@[n].level == element.level);
    assert forall|e: int, lc: int|
        0 <= e < chosen.elements@.len() && 0 <= lc
            <= chosen.elements@[e].level implies #[trigger] backlinks::keeps_to_layer(
        chosen,
        m,
        e,
        lc,
    ) by {
        if e < n {
            assert(chosen.elements@[e] == before.elements@[e]);
            assert(backlinks::keeps_to_layer(before, m, e, lc));
            assert forall|i: int|
                #![trigger chosen.layer(e, lc)[i]]
                0 <= i < chosen.layer(e, lc).len() implies graph_search::on_layer(
                chosen,
                lc,
                chosen.layer(e, lc)[i].element as int,
            ) by {
                let x = before.layer(e, lc)[i].element as int;
                assert(graph_search::on_layer(before, lc, x));
                assert(chosen.elements@[x] == before.elements@[x]);
            }
        } else {
            assert(backlinks::is_proper_layer(chosen, n, lc));
        }
    }
}

/// Inserting an element keeps the cached flags of every array right.
proof fn lemma_caches_stay_sound(
    pair: spec_fn(usize, usize) -> i32,
    m: int,
    before: Graph,
    element: Element,
    chosen: Graph,
    after: Graph,
)
    requires
        before.wf(),
        closer_cache::has_sound_caches(pair, before, m),
        is_unconnected(element),
        before.elements@.len() < usize::MAX,
        chosen.elements@.len() == before.elements@.len() + 1,
        forall|x: int|
            #![trigger chosen.elements@[x]]
            0 <= x < before.elements@.len() ==> chosen.elements@[x] == before.elements@[x],
        chosen.elements@[before.elements@.len() as int].level == element.level,
        chosen.elements@[before.elements@.len() as int].neighbors@.len() == element.level + 1,
        forall|lc: int|
            #![trigger chosen.elements@[before.elements@.len() as int].neighbors@[lc]]
            0 <= lc <= element.level ==> !chosen.elements@[before.elements@.len() as int].neighbors@[lc].closer_set,
        backlinks::has_proper_neighbors(chosen, before.elements@.len() as int),
        backlinks::is_layered(chosen, m),
        backlinks::are_linked(pair, m, chosen, after, before.elements@.len() as usize, -1, 0),
    ensures
        closer_cache::has_sound_caches(pair, after, m),
{
    let n = before.elements@.len() as int;
    let e = n as usize;
    assert forall|x: int, lc: int|
        #![trigger after.elements@[x].neighbors@[lc]]
        0 <= x < after.elements@.len() && 0 <= lc
            <= after.elements@[x].level implies closer_cache::is_sound_array(
        pair,
        after.elements@[x].neighbors@[lc],
        params::layer_m(m, lc),
    ) by {
        let lm = params::layer_m(m, lc);
        assert(backlinks::differs_in_neighbors(chosen.elements@[x], after.elements@[x]));
        assert(backlinks::keeps_to_layer(chosen, m, x, lc));
        let items = chosen.layer(n, lc);
        let k = backlinks::linked_count(items, lc, -1, 0);
        assert(backlinks::is_linked(pair, m, chosen, after, e, x, lc, k));
        let was = chosen.elements@[x].neighbors@[lc];
        let now = after.elements@[x].neighbors@[lc];
        if x < n {
            assert(was == before.elements@[x].neighbors@[lc]);
            assert(closer_cache::is_sound_array(pair, was, lm));
            assert(before.element_ok(x)) by {
                assert(before.elements@[x].level >= 0);
            }
            if lc <= element.level && backlinks::is_among(items, k, x) {
                let (i, u) = choose|i: int, u: ConnectionUpdate|
                    0 <= i < k && (#[trigger] items[i]).element == x
                        && #[trigger] connect::is_connected(
                        pair,
                        was,
                        connect::candidate_for(e, items[i].distance),
                        lm,
                        now,
                        u,
                    );
                let c = connect::candidate_for(e, items[i].distance);
                let all = was.items@.push(c);
                assert forall|a: int, b: int| #![trigger all[a], all[b]] 0 <= a < b
                    < all.len() implies all[a].element != all[b].element by {
                    assert(before.elements@[x].neighbors@[lc].items@[a].element < n);
                    if b < was.items@.len() {
                        assert(was.items@[a].element != was.items@[b].element);
                    }
                }
                closer_cache::law_connecting_keeps_the_cache(pair, was, c, lm, now, u);
            }
        } else {
            assert(backlinks::is_proper_layer(chosen, n, lc));
            if backlinks::is_among(items, k, x) {
                let i = choose|i: int| 0 <= i < k && #[trigger] items[i].element == x;
                assert(items[i].element != n);
            }
            assert(now == was);
            assert(!chosen.elements@[n].neighbors@[lc].closer_set);
        }
    }
}

/// Connecting the neighbors back keeps to the layers.
proof fn lemma_stays_layered(
    pair: spec_fn(usize, usize) -> i32,
    m: int,
    before: Graph,
    after: Graph,
    e: usize,
)
    requires
        before.wf(),
        e < before.elements@.len(),
        backlinks::is_layered(before, m),
        backlinks::are_linked(pair, m, before, after, e, -1, 0),
    ensures
        backlinks::is_layered(after, m),
{
    assert forall|x: int, lc: int|
        0 <= x < after.elements@.len() && 0 <= lc
            <= after.elements@[x].level implies #[trigger] backlinks::keeps_to_layer(
        after,
        m,
        x,
        lc,
    ) by {
        assert(backlinks::differs_in_neighbors(before.elements@[x], after.elements@[x]));
        assert(backlinks::keeps_to_layer(before, m, x, lc));
        let items = before.layer(e as int, lc);
        let k = backlinks::linked_count(items, lc, -1, 0);
        assert(backlinks::is_linked(pair, m, before, after, e, x, lc, k));
        let was = before.elements@[x].neighbors@[lc];
        let now = after.elements@[x].neighbors@[lc];
        let linked = lc <= before.elements@[e as int].level && backlinks::is_among(items, k, x);
        if linked {
            let (i, u) = choose|i: int, u: ConnectionUpdate|
                0 <= i < k && (#[trigger] items[i]).element == x && #[trigger] connect::is_connected(
                    pair,
                    was,
                    connect::candidate_for(e, items[i].distance),
                    params::layer_m(m, lc),
                    now,
                    u,
                );
            let c = connect::candidate_for(e, items[i].distance);
            if now.items@.len() > 0 {
                connect::law_connecting_adds_nothing_else(
                    pair,
                    was,
                    c,
                    params::layer_m(m, lc),
                    now,
                    u,
                    0,
                );
            }
            assert forall|j: int|
                #![trigger after.layer(x, lc)[j]]
                0 <= j < after.layer(x, lc).len() implies graph_search::on_layer(
                after,
                lc,
                after.layer(x, lc)[j].element as int,
            ) by {
                connect::law_connecting_adds_nothing_else(
                    pair,
                    was,
                    c,
                    params::layer_m(m, lc),
                    now,
                    u,
                    j,
                );
                let y = now.items@[j].element as int;
                if y != e {
                    let l = choose|l: int|
                        0 <= l < was.items@.len() && #[trigger] was.items@[l].element == y;
                    assert(before.layer(x, lc)[l].element == y);
                    assert(graph_search::on_layer(before, lc, y));
                }
                assert(backlinks::differs_in_neighbors(
                    before.elements@[y],
                    after.elements@[y],
                ));
            }
        } else {
            assert forall|j: int|
                #![trigger after.layer(x, lc)[j]]
                0 <= j < after.layer(x, lc).len() implies graph_search::on_layer(
                after,
                lc,
                after.layer(x, lc)[j].element as int,
            ) by {
                let y = before.layer(x, lc)[j].element as int;
                assert(graph_search::on_layer(before, lc, y));
                assert(backlinks::differs_in_neighbors(
                    before.elements@[y],
                    after.elements@[y],
                ));
            }
        }
    }
}

} // verus!
