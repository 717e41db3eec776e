//! The neighbors of a new element.
use crate::hnswsq::connect::add_connections;
use crate::hnswsq::graph_search;
use crate::hnswsq::graph_search::{search_layer, LayerResult};
use crate::hnswsq::layer_search::SearchCandidate;
use crate::hnswsq::params;
use crate::hnswsq::params::get_layer_m;
use crate::hnswsq::select;
use crate::hnswsq::select::{select_by, Selection};
use crate::hnswsq::types::{Candidate, Element, Graph, Visited};
use vstd::prelude::*;

verus! {

/// Whether element `e` can be a neighbor: it has a row, and it is not stored
/// where the skipped one is.
pub open spec fn may_connect(graph: Graph, skip: Option<usize>, e: int) -> bool {
    let element = graph.elements@[e];
    &&& element.heaptid_set
    &&& skip is Some ==> element.blkno != graph.elements@[skip->0 as int].blkno || element.offno
        != graph.elements@[skip->0 as int].offno
}

/// Leave out the skipped element and elements without a row.
pub fn remove_elements(graph: &Graph, w: &Vec<Candidate>, skip: Option<usize>) -> (out: Vec<
    Candidate,
>)
    requires
        skip is Some ==> skip->0 < graph.elements@.len(),
        forall|i: int|
            #![trigger w@[i]]
            0 <= i < w@.len() ==> w@[i].element < graph.elements@.len(),
    ensures
        out@ == w@.filter(|c: Candidate| may_connect(*graph, skip, c.element as int)),
{
    let ghost keep = |c: Candidate| may_connect(*graph, skip, c.element as int);
    let mut out: Vec<Candidate> = Vec::new();
    let mut i: usize = 0;
    proof {
        reveal(Seq::filter);
        assert(w@.take(0).filter(keep) =~= Seq::<Candidate>::empty());
    }
    while i < w.len()
        invariant
            i <= w@.len(),
            skip is Some ==> skip->0 < graph.elements@.len(),
            keep == (|c: Candidate| may_connect(*graph, skip, c.element as int)),
            forall|j: int|
                #![trigger w@[j]]
                0 <= j < w@.len() ==> w@[j].element < graph.elements@.len(),
            out@ == w@.take(i as int).filter(keep),
        decreases w@.len() - i,
    {
        let c: Candidate = w[i];
        assert(w@[i as int].element < graph.elements@.len());
        let same: bool = match skip {
            Some(s) => graph.elements[c.element].blkno == graph.elements[s].blkno
                && graph.elements[c.element].offno == graph.elements[s].offno,
            None => false,
        };
        proof {
            reveal(Seq::filter);
            assert(w@.take(i + 1).drop_last() =~= w@.take(i as int));
            assert(keep(c) == (!same && graph.elements@[c.element as int].heaptid_set));
        }
        if !same && graph.elements[c.element].heaptid_set {
            out.push(c);
        }
        i = i + 1;
    }
    assert(w@.take(w@.len() as int) =~= w@);
    out
}

/// The search results as candidates.
pub open spec fn as_candidates(w: Seq<SearchCandidate>) -> Seq<Candidate> {
    w.map_values(
        |c: SearchCandidate| Candidate { element: c.element, distance: c.distance, closer: false },
    )
}

/// The candidates of a layer: the search results, without those that cannot
/// be neighbors where they are left out.
pub open spec fn layer_candidates(
    graph: Graph,
    w: Seq<SearchCandidate>,
    skip: Option<usize>,
    filtered: bool,
) -> Seq<Candidate> {
    if filtered {
        as_candidates(w).filter(|c: Candidate| may_connect(graph, skip, c.element as int))
    } else {
        as_candidates(w)
    }
}

/// `out` are the neighbors chosen of `c`: all, if there is room, or the
/// selection from the nearest on.
pub open spec fn are_chosen(
    pair: spec_fn(usize, usize) -> i32,
    c: Seq<Candidate>,
    lm: int,
    out: Seq<Candidate>,
) -> bool {
    if c.len() <= lm {
        out == c
    } else {
        exists|order: Seq<int>, after: Seq<Candidate>, s: Selection|
            are_chosen_by(pair, c, lm, order, after, s, out)
    }
}

pub open spec fn are_chosen_by(
    pair: spec_fn(usize, usize) -> i32,
    c: Seq<Candidate>,
    lm: int,
    order: Seq<int>,
    after: Seq<Candidate>,
    s: Selection,
    out: Seq<Candidate>,
) -> bool {
    &&& select::is_order(c, false, order)
    &&& select::same_candidates(c, after)
    &&& select::is_some_selection(c.len() as int, lm, s)
    &&& select::is_in_order(c, false, s.selected@)
    &&& select::selected_in_order(pair, c, lm, order, after, s)
    &&& out == s.selected@.map_values(|i: usize| after[i as int])
}

/// Of candidates that come furthest first, as a search leaves them, the
/// neighbors chosen come nearest first where not all of them are chosen.
pub proof fn law_chosen_are_nearest_first(
    pair: spec_fn(usize, usize) -> i32,
    c: Seq<Candidate>,
    lm: int,
    out: Seq<Candidate>,
)
    requires
        are_chosen(pair, c, lm, out),
        c.len() > lm,
        select::is_furthest_first(c),
    ensures
        select::is_nearest_first(out),
{
    let (order, after, s) = choose|order: Seq<int>, after: Seq<Candidate>, s: Selection|
        are_chosen_by(pair, c, lm, order, after, s, out);
    select::law_selected_are_nearest_first(c, false, after, s.selected@);
}

/// Whether one of `c` stands for element `e`.
pub open spec fn has_element(c: Seq<Candidate>, e: usize) -> bool {
    exists|i: int| 0 <= i < c.len() && #[trigger] c[i].element == e
}

/// Choose the neighbors of a layer among `c`, between which `pair` gives the
/// distances `pd`.
pub(crate) fn choose_neighbors<G: Fn(usize, usize) -> i32>(
    c: Vec<Candidate>,
    lm: usize,
    pair: &G,
    Ghost(pd): Ghost<spec_fn(usize, usize) -> i32>,
) -> (out: Vec<Candidate>)
    requires
        select::gives_pairs(*pair, c@, pd),
    ensures
        are_chosen(pd, c@, lm as int, out@),
        out@.len() <= lm,
        forall|i: int|
            #![trigger out@[i]]
            0 <= i < out@.len() ==> has_element(c@, out@[i].element),
{
    let ghost c0 = c@;
    let mut c: Vec<Candidate> = c;
    let mut closer_set: bool = false;
    let s: Selection = select_by(&mut c, lm, pair, &mut closer_set, None, false, Ghost(pd));
    let mut out: Vec<Candidate> = Vec::new();
    let mut i: usize = 0;
    let n: usize = s.selected.len();
    while i < n
        invariant
            i <= n,
            n == s.selected@.len(),
            c@.len() == c0.len(),
            select::same_candidates(c0, c@),
            forall|m: int| #![trigger s.selected@[m]] 0 <= m < n ==> s.selected@[m] < c@.len(),
            out@ == s.selected@.take(i as int).map_values(|k: usize| c@[k as int]),
            forall|j: int|
                #![trigger out@[j]]
                0 <= j < out@.len() ==> has_element(c0, out@[j].element),
        decreases n - i,
    {
        let p: usize = s.selected[i];
        assert(s.selected@[i as int] < c@.len());
        let ghost before = out@;
        out.push(c[p]);
        assert(s.selected@.take(i + 1) =~= s.selected@.take(i as int).push(p));
        assert(out@ =~= s.selected@.take(i + 1).map_values(|k: usize| c@[k as int]));
        assert forall|j: int| #![trigger out@[j]] 0 <= j < out@.len() implies has_element(
            c0,
            out@[j].element,
        ) by {
            if j < before.len() {
                assert(out@[j] == before[j]);
            } else {
                assert(c0[p as int].element == out@[j].element);
            }
        }
        i = i + 1;
    }
    proof {
        let after = c@;
        assert(s.selected@.take(n as int) =~= s.selected@);
        if c0.len() <= lm {
            assert(out@ =~= c0);
        } else {
            let order = choose|order: Seq<int>|
                {
                    &&& #[trigger] select::is_order(c0, false, order)
                    &&& select::selected_in_order(
                        pd,
                        c0,
                        lm as int,
                        order,
                        after,
                        s,
                    )
                };
            assert(are_chosen_by(pd, c0, lm as int, order, after, s, out@));
        }
    }
    out
}

/// How many results are asked for at layer `lc` for an element of `level`:
/// one on the way down, `ef` from its level on.
pub open spec fn layer_ef(level: int, ef: int, lc: int) -> int {
    if lc > level {
        1
    } else {
        ef
    }
}

/// How many results are asked for: one more where the element itself is found.
pub open spec fn searched_for(ef_construction: int, skip: Option<usize>) -> int {
    if skip is Some {
        ef_construction + 1
    } else {
        ef_construction
    }
}

/// Where the search of layer `lc` starts: at `start` on the top layer, at the
/// results of the layer above on the others.
pub open spec fn layer_start(
    start: Seq<SearchCandidate>,
    chain: Seq<Seq<SearchCandidate>>,
    lc: int,
) -> Seq<SearchCandidate> {
    if lc == chain.len() - 1 {
        start
    } else {
        chain[lc + 1]
    }
}

/// `chain` are the results of each layer on the way down from `start`.
pub open spec fn is_descent(
    graph: Graph,
    dist: spec_fn(int) -> i32,
    start: Seq<SearchCandidate>,
    level: int,
    ef: int,
    skipping: bool,
    chain: Seq<Seq<SearchCandidate>>,
) -> bool {
    forall|lc: int|
        #![trigger chain[lc]]
        0 <= lc < chain.len() ==> graph_search::is_layer_result(
            graph,
            dist,
            layer_start(start, chain, lc),
            layer_ef(level, ef, lc),
            lc,
            skipping,
            Set::empty(),
            chain[lc],
        )
}

/// The entry point as a search candidate.
pub open spec fn entry_candidate(dist: spec_fn(int) -> i32, e: usize) -> SearchCandidate {
    SearchCandidate { element: e, distance: dist(e as int), key: e as u64 }
}

/// Whether `f` can be called on all pairs of `0..n` and is deterministic.
pub open spec fn is_pair_distance_on<G: Fn(usize, usize) -> i32>(f: G, n: int) -> bool {
    &&& forall|x: usize, y: usize|
        #![trigger call_requires(f, (x, y))]
        x < n && y < n ==> call_requires(f, (x, y))
    &&& forall|x: usize, y: usize, d1: i32, d2: i32|
        #![trigger call_ensures(f, (x, y), d1), call_ensures(f, (x, y), d2)]
        call_ensures(f, (x, y), d1) && call_ensures(f, (x, y), d2) ==> d1 == d2
}

/// `found` are the neighbors chosen at each layer from the results `chain`.
pub open spec fn are_layer_neighbors(
    graph: Graph,
    pair: spec_fn(usize, usize) -> i32,
    m: int,
    skip: Option<usize>,
    filtered: bool,
    chain: Seq<Seq<SearchCandidate>>,
    found: Seq<Vec<Candidate>>,
) -> bool {
    forall|lc: int|
        #![trigger found[lc]]
        0 <= lc < found.len() ==> are_chosen(
            pair,
            layer_candidates(graph, chain[lc], skip, filtered),
            params::layer_m(m, lc),
            found[lc]@,
        )
}

proof fn lemma_distinct_len(s: Seq<SearchCandidate>, n: int)
    requires
        graph_search::distinct(s),
        forall|i: int| #![trigger s[i]] 0 <= i < s.len() ==> s[i].element < n,
        n >= 0,
    ensures
        s.len() <= n,
{
    let ids = s.map_values(|c: SearchCandidate| c.element as int);
    assert forall|i: int, j: int| 0 <= i < ids.len() && 0 <= j < ids.len() && i != j implies ids[i]
        != ids[j] by {
        if i < j {
            assert(s[i].element != s[j].element);
        } else {
            assert(s[j].element != s[i].element);
        }
    }
    ids.unique_seq_to_set();
    let range = vstd::set_lib::set_int_range(0, n);
    vstd::set_lib::lemma_int_range(0, n);
    assert forall|x: int| #[trigger] ids.to_set().contains(x) implies range.contains(x) by {
        let i = choose|i: int| 0 <= i < ids.len() && ids[i] == x;
        assert(s[i].element < n);
    }
    vstd::set_lib::lemma_len_subset(ids.to_set(), range);
}

/// The search results as candidates, those left out that cannot be neighbors
/// where this is asked for.
fn candidates_of(
    graph: &Graph,
    w: &Vec<SearchCandidate>,
    skip: Option<usize>,
    filtered: bool,
) -> (out: Vec<Candidate>)
    requires
        skip is Some ==> skip->0 < graph.elements@.len(),
        forall|i: int|
            #![trigger w@[i]]
            0 <= i < w@.len() ==> w@[i].element < graph.elements@.len(),
    ensures
        out@ == layer_candidates(*graph, w@, skip, filtered),
        forall|i: int|
            #![trigger out@[i]]
            0 <= i < out@.len() ==> out@[i].element < graph.elements@.len(),
{
    let mut c: Vec<Candidate> = Vec::new();
    let mut i: usize = 0;
    while i < w.len()
        invariant
            i <= w@.len(),
            c@ == as_candidates(w@.take(i as int)),
            forall|j: int|
                #![trigger w@[j]]
                0 <= j < w@.len() ==> w@[j].element < graph.elements@.len(),
            forall|j: int|
                #![trigger c@[j]]
                0 <= j < c@.len() ==> c@[j].element < graph.elements@.len(),
        decreases w@.len() - i,
    {
        let sc: SearchCandidate = w[i];
        assert(w@[i as int].element < graph.elements@.len());
        let ghost before = c@;
        c.push(Candidate { element: sc.element, distance: sc.distance, closer: false });
        assert(w@.take(i + 1) =~= w@.take(i as int).push(sc));
        assert(c@ =~= as_candidates(w@.take(i + 1)));
        i = i + 1;
    }
    assert(w@.take(w@.len() as int) =~= w@);
    if filtered {
        let out: Vec<Candidate> = remove_elements(graph, &c, skip);
        proof {
            let keep = |c: Candidate| may_connect(*graph, skip, c.element as int);
            assert forall|j: int| #![trigger out@[j]] 0 <= j < out@.len() implies out@[j].element
                < graph.elements@.len() by {
                c@.lemma_filter_contains_rev(keep, out@[j]);
                let x = choose|x: int| 0 <= x < c@.len() && c@[x] == out@[j];
                assert(c@[x].element < graph.elements@.len());
            }
        }
        out
    } else {
        c
    }
}

/// `below` are the results from layer `todo` on, the top one last.
#[verifier::opaque]
spec fn is_descent_to(
    graph: Graph,
    dist: spec_fn(int) -> i32,
    first: Seq<SearchCandidate>,
    level: int,
    ef: int,
    skipping: bool,
    todo: int,
    below: Seq<Seq<SearchCandidate>>,
) -> bool {
    forall|i: int|
        #![trigger below[i]]
        0 <= i < below.len() ==> graph_search::is_layer_result(
            graph,
            dist,
            layer_start(first, below, i),
            layer_ef(level, ef, todo + i),
            todo + i,
            skipping,
            Set::empty(),
            below[i],
        )
}

proof fn lemma_descent_step(
    graph: Graph,
    dist: spec_fn(int) -> i32,
    first: Seq<SearchCandidate>,
    level: int,
    ef: int,
    skipping: bool,
    todo: int,
    below: Seq<Seq<SearchCandidate>>,
    w: Seq<SearchCandidate>,
)
    requires
        is_descent_to(graph, dist, first, level, ef, skipping, todo, below),
        graph_search::is_layer_result(
            graph,
            dist,
            if below.len() == 0 {
                first
            } else {
                below[0]
            },
            layer_ef(level, ef, todo - 1),
            todo - 1,
            skipping,
            Set::empty(),
            w,
        ),
    ensures
        is_descent_to(graph, dist, first, level, ef, skipping, todo - 1, seq![w] + below),
{
    reveal(is_descent_to);
    let more = seq![w] + below;
    assert forall|i: int| #![trigger more[i]] 0 <= i < more.len() implies graph_search::is_layer_result(
        graph,
        dist,
        layer_start(first, more, i),
        layer_ef(level, ef, todo - 1 + i),
        todo - 1 + i,
        skipping,
        Set::empty(),
        more[i],
    ) by {
        if i > 0 {
            assert(more[i] == below[i - 1]);
            assert(layer_start(first, more, i) == layer_start(first, below, i - 1));
            assert(todo + (i - 1) == todo - 1 + i);
        } else {
            assert(more[0] == w);
            if below.len() > 0 {
                assert(more[1] == below[0]);
            }
        }
    }
}

/// `found` are the neighbors from layer `todo` on.
#[verifier::opaque]
spec fn are_neighbors_from(
    graph: Graph,
    pair: spec_fn(usize, usize) -> i32,
    m: int,
    skip: Option<usize>,
    filtered: bool,
    todo: int,
    below: Seq<Seq<SearchCandidate>>,
    found: Seq<Vec<Candidate>>,
) -> bool {
    forall|i: int|
        #![trigger found[i]]
        0 <= i < found.len() ==> {
            &&& are_chosen(
                pair,
                layer_candidates(graph, below[i], skip, filtered),
                params::layer_m(m, todo + i),
                found[i]@,
            )
            &&& found[i]@.len() <= params::layer_m(m, todo + i)
            &&& forall|j: int|
                #![trigger found[i]@[j]]
                0 <= j < found[i]@.len() ==> found[i]@[j].element < graph.elements@.len()
        }
}

proof fn lemma_neighbors_step(
    graph: Graph,
    pair: spec_fn(usize, usize) -> i32,
    m: int,
    skip: Option<usize>,
    filtered: bool,
    todo: int,
    below: Seq<Seq<SearchCandidate>>,
    found: Seq<Vec<Candidate>>,
    w: Seq<SearchCandidate>,
    chosen: Vec<Candidate>,
)
    requires
        are_neighbors_from(graph, pair, m, skip, filtered, todo, below, found),
        found.len() <= below.len(),
        are_chosen(
            pair,
            layer_candidates(graph, w, skip, filtered),
            params::layer_m(m, todo - 1),
            chosen@,
        ),
        chosen@.len() <= params::layer_m(m, todo - 1),
        forall|j: int|
            #![trigger chosen@[j]]
            0 <= j < chosen@.len() ==> chosen@[j].element < graph.elements@.len(),
    ensures
        are_neighbors_from(
            graph,
            pair,
            m,
            skip,
            filtered,
            todo - 1,
            seq![w] + below,
            found.insert(0, chosen),
        ),
{
    reveal(are_neighbors_from);
    let more = seq![w] + below;
    let all = found.insert(0, chosen);
    assert forall|i: int| #![trigger all[i]] 0 <= i < all.len() implies {
        &&& are_chosen(
            pair,
            layer_candidates(graph, more[i], skip, filtered),
            params::layer_m(m, todo - 1 + i),
            all[i]@,
        )
        &&& all[i]@.len() <= params::layer_m(m, todo - 1 + i)
        &&& forall|j: int|
            #![trigger all[i]@[j]]
            0 <= j < all[i]@.len() ==> all[i]@[j].element < graph.elements@.len()
    } by {
        if i > 0 {
            assert(all[i] == found[i - 1]);
            assert(more[i] == below[i - 1]);
            assert(todo + (i - 1) == todo - 1 + i);
        } else {
            assert(more[0] == w);
            assert(all[0] == chosen);
        }
    }
}

/// `found` are the neighbors of an element of `level` at each of its layers
/// that the graph has.
pub open spec fn are_found(
    graph: Graph,
    dist: spec_fn(int) -> i32,
    pair: spec_fn(usize, usize) -> i32,
    level: int,
    entry_point: usize,
    m: int,
    ef_construction: int,
    skip: Option<usize>,
    filtered: bool,
    found: Seq<Vec<Candidate>>,
) -> bool {
    let entry_level = graph.elements@[entry_point as int].level as int;
    &&& found.len() == 1 + if level < entry_level {
        level
    } else {
        entry_level
    }
    &&& exists|chain: Seq<Seq<SearchCandidate>>|
        {
            &&& chain.len() == entry_level + 1
            &&& #[trigger] is_descent(
                graph,
                dist,
                seq![entry_candidate(dist, entry_point)],
                level,
                searched_for(ef_construction, skip),
                skip is Some,
                chain,
            )
            &&& are_layer_neighbors(graph, pair, m, skip, filtered, chain, found)
        }
    &&& forall|lc: int|
        #![trigger found[lc]]
        0 <= lc < found.len() ==> {
            &&& found[lc]@.len() <= params::layer_m(m, lc)
            &&& forall|i: int|
                #![trigger found[lc]@[i]]
                0 <= i < found[lc]@.len() ==> found[lc]@[i].element < graph.elements@.len()
        }
}

/// Find the neighbors of an element of `level` at each of its layers that the
/// graph has: search down from the entry point, and choose among the results
/// of each layer. `skip` is the element itself where it is in the graph
/// already: elements without a row then do not count as results, and one more
/// is looked for. Results that cannot be neighbors are left out where
/// `filtered`.
pub fn find_layer_neighbors<F: Fn(usize) -> i32, G: Fn(usize, usize) -> i32>(
    graph: &Graph,
    level: usize,
    entry_point: usize,
    distance: &F,
    pair: &G,
    m: usize,
    ef_construction: usize,
    skip: Option<usize>,
    filtered: bool,
) -> (found: Vec<Vec<Candidate>>)
    requires
        graph.wf(),
        graph.elements@.len() <= usize::MAX / 2,
        entry_point < graph.elements@.len(),
        graph_search::is_distance(*distance, graph.elements@.len() as int),
        is_pair_distance_on(*pair, graph.elements@.len() as int),
        m <= usize::MAX / 2,
        ef_construction < usize::MAX,
        skip is Some ==> skip->0 < graph.elements@.len(),
    ensures
        are_found(
            *graph,
            graph_search::distance_of(*distance),
            select::pairs_of(*pair),
            level as int,
            entry_point,
            m as int,
            ef_construction as int,
            skip,
            filtered,
            found@,
        ),
{
    let ghost dist = graph_search::distance_of(*distance);
    let ghost pd = select::pairs_of(*pair);
    let ghost n = graph.elements@.len() as int;
    let entry_level: usize = graph.elements[entry_point].level as usize;
    let d: i32 = distance(entry_point);
    let start: SearchCandidate = SearchCandidate {
        element: entry_point,
        distance: d,
        key: entry_point as u64,
    };
    let ef: usize = match skip {
        Some(_) => ef_construction + 1,
        None => ef_construction,
    };
    let skipping: bool = skip.is_some();
    let mut ep: Vec<SearchCandidate> = Vec::new();
    ep.push(start);
    let ghost first = ep@;
    assert(first =~= seq![entry_candidate(dist, entry_point)]);
    let mut v: Visited = Visited::new(0);
    let mut found: Vec<Vec<Candidate>> = Vec::new();
    let ghost mut below: Seq<Seq<SearchCandidate>> = Seq::empty();
    let mut todo: usize = entry_level + 1;
    proof {
        reveal(is_descent_to);
        reveal(are_neighbors_from);
    }
    while todo > 0
        invariant
            graph.wf(),
            n == graph.elements@.len(),
            n <= usize::MAX / 2,
            dist == graph_search::distance_of(*distance),
            pd == select::pairs_of(*pair),
            graph_search::is_distance(*distance, n),
            is_pair_distance_on(*pair, n),
            m <= usize::MAX / 2,
            skip is Some ==> skip->0 < n,
            skipping == (skip is Some),
            todo <= entry_level + 1,
            entry_level <= u8::MAX,
            graph_search::on_the_layer(
                *graph,
                dist,
                if todo > 0 {
                    todo - 1
                } else {
                    0
                },
                ep@,
            ),
            graph_search::distinct(ep@),
            ep@ == if below.len() == 0 {
                first
            } else {
                below[0]
            },
            below.len() == entry_level + 1 - todo,
            found@.len() == if todo > level {
                0
            } else if entry_level < level {
                entry_level + 1 - todo
            } else {
                level + 1 - todo
            },
            is_descent_to(
                *graph,
                dist,
                first,
                level as int,
                ef as int,
                skipping,
                todo as int,
                below,
            ),
            are_neighbors_from(
                *graph,
                pd,
                m as int,
                skip,
                filtered,
                todo as int,
                below,
                found@,
            ),
        decreases todo,
    {
        let lc: usize = todo - 1;
        let this_ef: usize = if lc > level {
            1
        } else {
            ef
        };
        proof {
            lemma_distinct_len(ep@, n);
        }
        let r: LayerResult = search_layer(
            graph,
            distance,
            &ep,
            this_ef,
            lc,
            skipping,
            &mut v,
            false,
            true,
        );
        let ghost before = below;
        let ghost found0 = found@;
        proof {
            lemma_descent_step(
                *graph,
                dist,
                first,
                level as int,
                ef as int,
                skipping,
                todo as int,
                before,
                r.w@,
            );
            below = seq![r.w@] + before;
        }
        if lc <= level {
            let lm: usize = get_layer_m(m, lc);
            let c: Vec<Candidate> = candidates_of(graph, &r.w, skip, filtered);
            let ghost cands = c@;
            assert(select::gives_pairs(*pair, c@, pd));
            let chosen: Vec<Candidate> = choose_neighbors(c, lm, pair, Ghost(pd));
            assert forall|j: int| #![trigger chosen@[j]] 0 <= j < chosen@.len() implies chosen@[j].element
                < n by {
                let x = choose|x: int|
                    0 <= x < cands.len() && #[trigger] cands[x].element == chosen@[j].element;
                assert(cands[x].element < n);
            }
            proof {
                lemma_neighbors_step(
                    *graph,
                    pd,
                    m as int,
                    skip,
                    filtered,
                    todo as int,
                    before,
                    found0,
                    r.w@,
                    chosen,
                );
            }
            found.insert(0, chosen);
        } else {
            assert(found@.len() == 0);
            reveal(are_neighbors_from);
        }
        ep = r.w;
        todo = lc;
    }
    proof {
        reveal(is_descent_to);
        reveal(are_neighbors_from);
        assert(is_descent(
            *graph,
            dist,
            seq![entry_candidate(dist, entry_point)],
            level as int,
            searched_for(ef_construction as int, skip),
            skip is Some,
            below,
        ));
        assert(are_layer_neighbors(*graph, pd, m as int, skip, filtered, below, found@));
    }
    found
}

/// Find and set the neighbors of an element at every layer, starting from the
/// entry point; without one it gets none. The element is skipped where it is
/// `existing` in the graph already.
pub fn find_element_neighbors<F: Fn(usize) -> i32, G: Fn(usize, usize) -> i32>(
    graph: &mut Graph,
    element: usize,
    entry_point: Option<usize>,
    distance: &F,
    pair: &G,
    m: usize,
    ef_construction: usize,
    existing: bool,
    filtered: bool,
)
    requires
        old(graph).wf(),
        old(graph).elements@.len() <= usize::MAX / 2,
        element < old(graph).elements@.len(),
        forall|lc: int|
            #![trigger old(graph).elements@[element as int].neighbors@[lc]]
            0 <= lc <= old(graph).elements@[element as int].level ==> !old(
                graph,
            ).elements@[element as int].neighbors@[lc].closer_set,
        entry_point is Some ==> entry_point->0 < old(graph).elements@.len(),
        graph_search::is_distance(*distance, old(graph).elements@.len() as int),
        is_pair_distance_on(*pair, old(graph).elements@.len() as int),
        m <= usize::MAX / 2,
        ef_construction < usize::MAX,
    ensures
        final(graph).wf(),
        final(graph).elements@.len() == old(graph).elements@.len(),
        forall|e: int|
            #![trigger final(graph).elements@[e]]
            0 <= e < old(graph).elements@.len() && e != element ==> final(graph).elements@[e]
                == old(graph).elements@[e],
        entry_point is None ==> final(graph).elements@ == old(graph).elements@,
        entry_point is Some ==> exists|found: Seq<Vec<Candidate>>|
            {
                &&& #[trigger] are_found(
                    *old(graph),
                    graph_search::distance_of(*distance),
                    select::pairs_of(*pair),
                    old(graph).elements@[element as int].level as int,
                    entry_point->0,
                    m as int,
                    ef_construction as int,
                    if_existing(existing, element),
                    filtered,
                    found,
                )
                &&& are_added(
                    old(graph).elements@[element as int],
                    final(graph).elements@[element as int],
                    found,
                    found.len() as int,
                )
            },
{
    let start: usize = match entry_point {
        Some(e) => e,
        None => {
            return ;
        },
    };
    let level: usize = graph.elements[element].level as usize;
    let skip: Option<usize> = if existing {
        Some(element)
    } else {
        None
    };
    let found: Vec<Vec<Candidate>> = find_layer_neighbors(
        graph,
        level,
        start,
        distance,
        pair,
        m,
        ef_construction,
        skip,
        filtered,
    );
    let ghost g0 = *graph;
    let ghost n = graph.elements@.len() as int;
    let mut lc: usize = 0;
    while lc < found.len()
        invariant
            lc <= found@.len(),
            found@.len() <= level + 1,
            element < n,
            n == g0.elements@.len(),
            level == g0.elements@[element as int].level,
            g0.wf(),
            graph.wf(),
            graph.elements@.len() == n,
            forall|e: int|
                #![trigger graph.elements@[e]]
                0 <= e < n && e != element ==> graph.elements@[e] == g0.elements@[e],
            are_added(
                g0.elements@[element as int],
                graph.elements@[element as int],
                found@,
                lc as int,
            ),
            forall|k: int|
                #![trigger found@[k]]
                0 <= k < found@.len() ==> forall|i: int|
                    #![trigger found@[k]@[i]]
                    0 <= i < found@[k]@.len() ==> found@[k]@[i].element < n,
        decreases found@.len() - lc,
    {
        let ghost before = *graph;
        assert(graph.elements@[element as int].neighbors@.len() == level + 1);
        add_connections(&mut graph.elements[element].neighbors[lc], &found[lc]);
        proof {
            assert forall|e: int| #![trigger graph.elements@[e]] 0 <= e < n implies graph.element_ok(
                e,
            ) by {
                assert(before.element_ok(e)) by {
                    assert(before.elements@[e] == before.elements@[e]);
                }
                if e == element {
                    let now = graph.elements@[e];
                    let was = before.elements@[e];
                    assert forall|l: int, i: int|
                        #![trigger now.neighbors@[l].items@[i]]
                        0 <= l <= now.level && 0 <= i
                            < now.neighbors@[l].items@.len() implies now.neighbors@[l].items@[i].element
                        < n by {
                        if l == lc {
                            let k = was.neighbors@[l].items@.len();
                            if i < k {
                                assert(now.neighbors@[l].items@[i]
                                    == was.neighbors@[l].items@[i]);
                            } else {
                                assert(now.neighbors@[l].items@[i] == found@[lc as int]@[i - k]);
                            }
                        } else {
                            assert(now.neighbors@[l] == was.neighbors@[l]);
                            assert(was.neighbors@[l].items@[i].element < n);
                        }
                    }
                } else {
                    assert(graph.elements@[e] == before.elements@[e]);
                }
            }
        }
        lc = lc + 1;
    }
}

/// The element to skip.
pub open spec fn if_existing(existing: bool, element: usize) -> Option<usize> {
    if existing {
        Some(element)
    } else {
        None
    }
}

/// `after` is `before` with `found` appended to its first `k` layers.
pub open spec fn are_added(
    before: Element,
    after: Element,
    found: Seq<Vec<Candidate>>,
    k: int,
) -> bool {
    &&& after.neighbors@.len() == before.neighbors@.len()
    &&& forall|lc: int|
        #![trigger after.neighbors@[lc]]
        0 <= lc < before.neighbors@.len() ==> {
            &&& after.neighbors@[lc].closer_set == before.neighbors@[lc].closer_set
            &&& after.neighbors@[lc].items@ == if lc < k {
                before.neighbors@[lc].items@ + found[lc]@
            } else {
                before.neighbors@[lc].items@
            }
        }
    &&& after == (Element { neighbors: after.neighbors, ..before })
}

/// The neighbors that are found where those that cannot be neighbors are left out
/// have a row, and are not stored where the skipped element is.
pub proof fn law_filtered_neighbors_may_connect(
    graph: Graph,
    dist: spec_fn(int) -> i32,
    pair: spec_fn(usize, usize) -> i32,
    level: int,
    entry_point: usize,
    m: int,
    ef_construction: int,
    skip: Option<usize>,
    found: Seq<Vec<Candidate>>,
    lc: int,
    i: int,
)
    requires
        are_found(
            graph,
            dist,
            pair,
            level,
            entry_point,
            m,
            ef_construction,
            skip,
            true,
            found,
        ),
        0 <= lc < found.len(),
        0 <= i < found[lc]@.len(),
    ensures
        may_connect(graph, skip, found[lc]@[i].element as int),
{
    let chain = choose|chain: Seq<Seq<SearchCandidate>>|
        {
            &&& chain.len() == graph.elements@[entry_point as int].level + 1
            &&& #[trigger] is_descent(
                graph,
                dist,
                seq![entry_candidate(dist, entry_point)],
                level,
                searched_for(ef_construction, skip),
                skip is Some,
                chain,
            )
            &&& are_layer_neighbors(graph, pair, m, skip, true, chain, found)
        };
    let c = layer_candidates(graph, chain[lc], skip, true);
    let lm = params::layer_m(m, lc);
    let out = found[lc]@;
    assert(are_chosen(pair, c, lm, out));
    let j = if c.len() <= lm {
        i
    } else {
        let (order, after, s) = choose|order: Seq<int>, after: Seq<Candidate>, s: Selection|
            are_chosen_by(pair, c, lm, order, after, s, out);
        assert(out[i] == after[s.selected@[i] as int]);
        s.selected@[i] as int
    };
    assert(0 <= j < c.len() && c[j].element == out[i].element);
    let keep = |x: Candidate| may_connect(graph, skip, x.element as int);
    let all = as_candidates(chain[lc]);
    all.lemma_filter_pred(keep, j);
    assert(keep(c[j]));
}

} // verus!
