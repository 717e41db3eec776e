//! Search of one layer of the in-memory graph.
use crate::hnswsq::layer_search;
use crate::hnswsq::layer_search::{Frontier, LayerSearch, SearchCandidate};
use crate::hnswsq::types::{Candidate, Graph, Visited};
use vstd::prelude::*;

verus! {

/// What a deterministic function returns for `x`.
pub open spec fn value_of<F: Fn(usize) -> i32>(f: F, x: usize) -> i32 {
    choose|d: i32| call_ensures(f, (x,), d)
}

/// Whether `f` can be called on all of `0..n` and is deterministic.
pub open spec fn is_distance<F: Fn(usize) -> i32>(f: F, n: int) -> bool {
    &&& forall|x: usize| #![trigger call_requires(f, (x,))] x < n ==> call_requires(f, (x,))
    &&& forall|x: usize, d1: i32, d2: i32|
        #![trigger call_ensures(f, (x,), d1), call_ensures(f, (x,), d2)]
        call_ensures(f, (x,), d1) && call_ensures(f, (x,), d2) ==> d1 == d2
}

/// The elements of `items` that are not in `seen`, each once, in order.
pub open spec fn unseen(items: Seq<Candidate>, seen: Set<u64>) -> Seq<usize>
    decreases items.len(),
{
    if items.len() == 0 {
        Seq::empty()
    } else {
        let before = unseen(items.drop_last(), seen);
        let e = items.last().element;
        if seen.contains(e as u64) || before.contains(e) {
            before
        } else {
            before.push(e)
        }
    }
}

/// Collect the neighbors of element `e` at layer `lc` that were not visited
/// yet, and mark them as visited.
pub fn load_unvisited_from_memory(graph: &Graph, e: usize, lc: usize, v: &mut Visited) -> (out: Vec<
    usize,
>)
    requires
        graph.wf(),
        e < graph.elements@.len(),
        lc <= graph.elements@[e as int].level,
    ensures
        out@ == unseen(graph.layer(e as int, lc as int), old(v)@),
        forall|key: u64| #[trigger]
            final(v)@.contains(key) <==> old(v)@.contains(key) || exists|i: int|
                0 <= i < out@.len() && #[trigger] out@[i] as u64 == key,
{
    let mut out: Vec<usize> = Vec::new();
    let items: &Vec<Candidate> = &graph.elements[e].neighbors[lc].items;
    let mut i: usize = 0;
    while i < items.len()
        invariant
            i <= items@.len(),
            out@ == unseen(items@.take(i as int), old(v)@),
            forall|key: u64| #[trigger]
                v@.contains(key) <==> old(v)@.contains(key) || exists|j: int|
                    0 <= j < out@.len() && #[trigger] out@[j] as u64 == key,
        decreases items@.len() - i,
    {
        let x: usize = items[i].element;
        let ghost before = out@;
        let ghost seen = v@;
        let found: bool = v.insert(x as u64);
        assert(items@.take(i + 1).drop_last() =~= items@.take(i as int));
        assert(found <==> old(v)@.contains(x as u64) || before.contains(x)) by {
            if before.contains(x) {
                let j = choose|j: int| 0 <= j < before.len() && before[j] == x;
                assert(before[j] as u64 == x as u64);
            }
        }
        if !found {
            out.push(x);
            assert forall|key: u64| #[trigger]
                v@.contains(key) <==> old(v)@.contains(key) || exists|j: int|
                    0 <= j < out@.len() && #[trigger] out@[j] as u64 == key by {
                if v@.contains(key) && !old(v)@.contains(key) {
                    if key == x as u64 {
                        assert(out@[before.len() as int] as u64 == key);
                    } else {
                        let j = choose|j: int|
                            0 <= j < before.len() && #[trigger] before[j] as u64 == key;
                        assert(out@[j] as u64 == key);
                    }
                }
                if exists|j: int| 0 <= j < out@.len() && #[trigger] out@[j] as u64 == key {
                    let j = choose|j: int| 0 <= j < out@.len() && #[trigger] out@[j] as u64 == key;
                    if j < before.len() {
                        assert(before[j] as u64 == key);
                        assert(seen.contains(key));
                    }
                }
            }
        } else {
            assert(v@ =~= seen);
        }
        i = i + 1;
    }
    assert(items@.take(items@.len() as int) =~= items@);
    out
}

/// What `unseen` finds: neighbors that were not seen, each once; every other
/// neighbor was seen.
pub proof fn lemma_unseen(items: Seq<Candidate>, seen: Set<u64>)
    ensures
        unseen(items, seen).no_duplicates(),
        forall|i: int|
            #![trigger unseen(items, seen)[i]]
            0 <= i < unseen(items, seen).len() ==> !seen.contains(
                unseen(items, seen)[i] as u64,
            ) && (exists|j: int|
                0 <= j < items.len() && #[trigger] items[j].element == unseen(items, seen)[i]),
        forall|j: int|
            #![trigger items[j]]
            0 <= j < items.len() ==> seen.contains(items[j].element as u64) || unseen(
                items,
                seen,
            ).contains(items[j].element),
    decreases items.len(),
{
    if items.len() > 0 {
        let shorter = items.drop_last();
        lemma_unseen(shorter, seen);
        let before = unseen(shorter, seen);
        let all = unseen(items, seen);
        assert forall|i: int| #![trigger all[i]] 0 <= i < all.len() implies !seen.contains(
            all[i] as u64,
        ) && (exists|j: int| 0 <= j < items.len() && #[trigger] items[j].element == all[i]) by {
            if i < before.len() {
                assert(all[i] == before[i]);
                let j = choose|j: int|
                    0 <= j < shorter.len() && #[trigger] shorter[j].element == before[i];
                assert(items[j].element == all[i]);
            } else {
                assert(items[items.len() - 1].element == all[i]);
            }
        }
        assert forall|j: int| #![trigger items[j]] 0 <= j < items.len() implies seen.contains(
            items[j].element as u64,
        ) || all.contains(items[j].element) by {
            if j < shorter.len() {
                assert(shorter[j] == items[j]);
                if before.contains(items[j].element) {
                    let k = choose|k: int| 0 <= k < before.len() && before[k] == items[j].element;
                    assert(all[k] == items[j].element);
                }
            } else if !seen.contains(items[j].element as u64) {
                if !before.contains(items[j].element) {
                    assert(all[before.len() as int] == items[j].element);
                }
            }
        }
    }
}

/// Whether `s` holds a candidate for element `e`.
pub open spec fn holds(s: Seq<SearchCandidate>, e: int) -> bool {
    exists|i: int| 0 <= i < s.len() && #[trigger] s[i].element == e
}

/// Whether no element occurs twice.
pub open spec fn distinct(s: Seq<SearchCandidate>) -> bool {
    forall|i: int, j: int|
        #![trigger s[i], s[j]]
        0 <= i < j < s.len() ==> s[i].element != s[j].element
}

/// Whether element `e` is on layer `lc`.
pub open spec fn on_layer(graph: Graph, lc: int, e: int) -> bool {
    0 <= e < graph.elements@.len() && graph.elements@[e].level >= lc
}

/// Whether `e` can be reached from an entry point in at most `k` steps along
/// the connections of layer `lc`.
pub open spec fn within(graph: Graph, lc: int, ep: Seq<SearchCandidate>, e: int, k: nat) -> bool
    decreases k,
{
    if k == 0 {
        holds(ep, e)
    } else {
        within(graph, lc, ep, e, (k - 1) as nat) || exists|x: int|
            {
                &&& #[trigger] graph.is_neighbor(lc, x, e)
                &&& on_layer(graph, lc, x)
                &&& within(graph, lc, ep, x, (k - 1) as nat)
            }
    }
}

/// Whether `e` can be reached from an entry point.
pub open spec fn reachable(graph: Graph, lc: int, ep: Seq<SearchCandidate>, e: int) -> bool {
    exists|k: nat| #[trigger] within(graph, lc, ep, e, k)
}

/// Whether `c` stands for an element of the graph, with its distance and key.
pub open spec fn genuine(graph: Graph, dist: spec_fn(int) -> i32, c: SearchCandidate) -> bool {
    &&& c.element < graph.elements@.len()
    &&& c.distance == dist(c.element as int)
    &&& c.key == c.element as u64
}

/// Whether all of `s` are genuine and on layer `lc`.
pub open spec fn on_the_layer(
    graph: Graph,
    dist: spec_fn(int) -> i32,
    lc: int,
    s: Seq<SearchCandidate>,
) -> bool {
    forall|i: int|
        #![trigger s[i]]
        0 <= i < s.len() ==> genuine(graph, dist, s[i]) && on_layer(graph, lc, s[i].element as int)
}

/// An element that was met is among the best, or not on the layer, or no
/// nearer than the best while they are complete.
pub open spec fn settled(graph: Graph, dist: spec_fn(int) -> i32, s: LayerSearch, e: int) -> bool {
    ||| holds(s.w@, e)
    ||| !on_layer(graph, s.lc as int, e)
    ||| s.wlen >= s.ef && s.w@.len() > 0 && dist(e) >= s.w@.last().distance
}

/// An element that was met is not lost while those turned away are kept.
pub open spec fn kept(graph: Graph, s: LayerSearch, e: int) -> bool {
    s.track_discarded ==> holds(s.w@, e) || holds(s.discarded@, e) || !on_layer(
        graph,
        s.lc as int,
        e,
    )
}

/// How many of the best there are.
pub open spec fn best_count(s: LayerSearch, entries: int) -> int {
    if s.wlen <= s.ef {
        s.wlen as int
    } else if entries > s.ef {
        entries
    } else {
        s.ef as int
    }
}

/// What is to be expanded was met; the best were met, and are to be expanded
/// or `done`.
pub open spec fn frontier_ok(s: LayerSearch, known: Set<int>, done: Set<int>) -> bool {
    &&& forall|e: int| #[trigger] holds(s.c@, e) ==> known.contains(e)
    &&& forall|e: int| #[trigger]
        holds(s.w@, e) ==> known.contains(e) && (holds(s.c@, e) || done.contains(e))
}

/// All that was met is settled and kept.
pub open spec fn known_ok(
    graph: Graph,
    dist: spec_fn(int) -> i32,
    s: LayerSearch,
    known: Set<int>,
) -> bool {
    forall|e: int| #[trigger]
        known.contains(e) ==> settled(graph, dist, s, e) && kept(graph, s, e)
}

/// A candidate that was turned away was met, and is no nearer than the best,
/// which are complete.
pub open spec fn discard_ok(
    graph: Graph,
    dist: spec_fn(int) -> i32,
    s: LayerSearch,
    known: Set<int>,
    c: SearchCandidate,
) -> bool {
    &&& genuine(graph, dist, c)
    &&& s.wlen >= s.ef
    &&& s.w@.len() > 0
    &&& c.distance >= s.w@.last().distance
    &&& known.contains(c.element as int)
}

/// This holds of all that was turned away.
pub open spec fn discards_ok(
    graph: Graph,
    dist: spec_fn(int) -> i32,
    s: LayerSearch,
    known: Set<int>,
) -> bool {
    forall|i: int|
        #![trigger s.discarded@[i]]
        0 <= i < s.discarded@.len() ==> discard_ok(graph, dist, s, known, s.discarded@[i])
}

/// No element is among the best twice, nor among the best and turned away.
pub open spec fn apart(s: LayerSearch) -> bool {
    &&& distinct(s.w@)
    &&& forall|i: int|
        #![trigger s.discarded@[i]]
        0 <= i < s.discarded@.len() ==> !holds(s.w@, s.discarded@[i].element as int)
}

/// The state of the search: `known` are the elements that were met, `done`
/// those that were expanded.
pub open spec fn search_ok(
    graph: Graph,
    dist: spec_fn(int) -> i32,
    ep: Seq<SearchCandidate>,
    s: LayerSearch,
    known: Set<int>,
    done: Set<int>,
) -> bool {
    &&& s.wf()
    &&& on_the_layer(graph, dist, s.lc as int, s.c@)
    &&& on_the_layer(graph, dist, s.lc as int, s.w@)
    &&& frontier_ok(s, known, done)
    &&& known_ok(graph, dist, s, known)
    &&& discards_ok(graph, dist, s, known)
    &&& distinct(ep) ==> apart(s)
    &&& !s.skipping ==> s.wlen >= ep.len() && s.w@.len() == best_count(s, ep.len() as int)
}

proof fn lemma_with_one(s: Seq<SearchCandidate>, c: SearchCandidate, t: Seq<SearchCandidate>)
    requires
        layer_search::with_one(s, c, t),
    ensures
        t.len() == s.len() + 1,
        forall|e: int| #[trigger] holds(t, e) <==> holds(s, e) || e == c.element,
        forall|i: int|
            #![trigger t[i]]
            0 <= i < t.len() ==> t[i] == c || exists|j: int|
                0 <= j < s.len() && #[trigger] s[j] == t[i],
        distinct(s) && !holds(s, c.element as int) ==> distinct(t),
{
    let p = choose|p: int| 0 <= p <= s.len() && t == #[trigger] s.insert(p, c);
    assert forall|e: int| #[trigger] holds(t, e) <==> holds(s, e) || e == c.element by {
        if holds(t, e) {
            let i = choose|i: int| 0 <= i < t.len() && #[trigger] t[i].element == e;
            if i < p {
                assert(s[i].element == e);
            } else if i > p {
                assert(s[i - 1].element == e);
            }
        }
        if holds(s, e) {
            let i = choose|i: int| 0 <= i < s.len() && #[trigger] s[i].element == e;
            if i < p {
                assert(t[i].element == e);
            } else {
                assert(t[i + 1].element == e);
            }
        }
        if e == c.element {
            assert(t[p].element == e);
        }
    }
    assert forall|i: int| #![trigger t[i]] 0 <= i < t.len() implies t[i] == c || exists|j: int|
        0 <= j < s.len() && #[trigger] s[j] == t[i] by {
        if i < p {
            assert(s[i] == t[i]);
        } else if i > p {
            assert(s[i - 1] == t[i]);
        }
    }
    if distinct(s) && !holds(s, c.element as int) {
        assert forall|i: int, j: int| #![trigger t[i], t[j]] 0 <= i < j < t.len() implies t[i].element
            != t[j].element by {
            let i2 = if i < p {
                i
            } else {
                i - 1
            };
            let j2 = if j < p {
                j
            } else {
                j - 1
            };
            if i != p {
                assert(s[i2] == t[i]);
            }
            if j != p {
                assert(s[j2] == t[j]);
            }
        }
    }
}

/// An element that is not admitted leaves the search in order.
proof fn lemma_turned_away(
    graph: Graph,
    dist: spec_fn(int) -> i32,
    ep: Seq<SearchCandidate>,
    s: LayerSearch,
    next: LayerSearch,
    sc: SearchCandidate,
    has_row: bool,
    known: Set<int>,
    done: Set<int>,
)
    requires
        search_ok(graph, dist, ep, s, known, done),
        s.w@.len() > 0,
        next.wf(),
        genuine(graph, dist, sc),
        !known.contains(sc.element as int),
        s.offered(sc, graph.elements@[sc.element as int].level, has_row, &next),
        !s.admits(sc.distance) || !on_layer(graph, s.lc as int, sc.element as int),
    ensures
        search_ok(graph, dist, ep, next, known.insert(sc.element as int), done),
{
    let e0 = sc.element as int;
    let known2 = known.insert(e0);
    assert(next.w@ == s.w@ && next.c@ == s.c@);
    assert(known_ok(graph, dist, next, known2)) by {
        assert forall|e: int| #[trigger] known2.contains(e) implies settled(graph, dist, next, e)
            && kept(graph, next, e) by {
            if known.contains(e) {
                assert(settled(graph, dist, s, e) && kept(graph, s, e));
                if holds(s.discarded@, e) {
                    let i = choose|i: int|
                        0 <= i < s.discarded@.len() && #[trigger] s.discarded@[i].element == e;
                    assert(next.discarded@[i].element == e);
                }
            } else if !s.admits(sc.distance) && s.track_discarded {
                assert(next.discarded@[s.discarded@.len() as int].element == e);
            }
        }
    }
    assert forall|i: int| #![trigger next.discarded@[i]] 0 <= i < next.discarded@.len() implies (i
        < s.discarded@.len() && next.discarded@[i] == s.discarded@[i]) || (!s.admits(sc.distance)
        && next.discarded@[i] == sc) by {
        if i < s.discarded@.len() {
            assert(next.discarded@[i] == s.discarded@[i]);
        }
    }
}

/// Taking up an element leaves the search in order.
#[verifier::rlimit(40)]
proof fn lemma_taken_up(
    graph: Graph,
    dist: spec_fn(int) -> i32,
    ep: Seq<SearchCandidate>,
    s: LayerSearch,
    next: LayerSearch,
    sc: SearchCandidate,
    has_row: bool,
    known: Set<int>,
    done: Set<int>,
)
    requires
        search_ok(graph, dist, ep, s, known, done),
        s.w@.len() > 0,
        next.wf(),
        next.w@.len() > 0,
        genuine(graph, dist, sc),
        !known.contains(sc.element as int),
        s.offered(sc, graph.elements@[sc.element as int].level, has_row, &next),
        s.admits(sc.distance),
        on_layer(graph, s.lc as int, sc.element as int),
    ensures
        search_ok(graph, dist, ep, next, known.insert(sc.element as int), done),
{
    let e0 = sc.element as int;
    let known2 = known.insert(e0);
    lemma_with_one(s.c@, sc, next.c@);
    let over = s.counts(has_row) && s.wlen + 1 > s.ef;
    let grown = choose|grown: Seq<SearchCandidate>|
        {
            &&& #[trigger] layer_search::with_one(s.w@, sc, grown)
            &&& layer_search::ascending(grown)
            &&& next.w@ == if over {
                grown.drop_last()
            } else {
                grown
            }
            &&& next.discarded@ == if over && s.track_discarded {
                s.discarded@.push(grown.last())
            } else {
                s.discarded@
            }
        };
    lemma_with_one(s.w@, sc, grown);
    let out = grown.last();
    let last = grown.len() - 1;
    // Where the best are complete, they only get nearer.
    assert(s.wlen >= s.ef ==> next.w@.last().distance <= s.w@.last().distance) by {
        assert(forall|j: int|
            #![trigger s.w@[j]]
            0 <= j < s.w@.len() ==> layer_search::le(s.w@[j], s.w@[s.w@.len() - 1]));
        assert(next.w@.last() == grown[next.w@.len() - 1]);
    }
    assert(out.distance >= next.w@.last().distance) by {
        assert(layer_search::le(grown[next.w@.len() - 1], grown[last]));
    }
    assert forall|e: int| #[trigger] holds(next.w@, e) implies holds(grown, e) by {
        let i = choose|i: int| 0 <= i < next.w@.len() && #[trigger] next.w@[i].element == e;
        assert(grown[i].element == e);
    }
    assert forall|e: int| #[trigger] holds(grown, e) && !holds(next.w@, e) implies over && e
        == out.element by {
        let i = choose|i: int| 0 <= i < grown.len() && #[trigger] grown[i].element == e;
        if i < next.w@.len() {
            assert(next.w@[i].element == e);
        }
    }
    assert(on_the_layer(graph, dist, s.lc as int, grown));
    assert(on_the_layer(graph, dist, s.lc as int, next.w@)) by {
        assert(forall|i: int|
            #![trigger next.w@[i]]
            0 <= i < next.w@.len() ==> next.w@[i] == grown[i]);
    }
    assert(on_the_layer(graph, dist, s.lc as int, next.c@));
    assert(genuine(graph, dist, out) && holds(grown, out.element as int)) by {
        assert(grown[last].element == out.element);
    }
    assert(frontier_ok(next, known2, done));
    assert forall|i: int| #![trigger next.discarded@[i]] 0 <= i < next.discarded@.len() implies (i
        < s.discarded@.len() && next.discarded@[i] == s.discarded@[i]) || (over && i
        == s.discarded@.len() && next.discarded@[i] == out) by {
        if i < s.discarded@.len() {
            assert(next.discarded@[i] == s.discarded@[i]);
        }
    }
    assert(known2.contains(out.element as int)) by {
        assert(holds(s.w@, out.element as int) || out.element as int == e0);
    }
    assert(discards_ok(graph, dist, next, known2)) by {
        assert forall|i: int| #![trigger next.discarded@[i]] 0 <= i
            < next.discarded@.len() implies discard_ok(
            graph,
            dist,
            next,
            known2,
            next.discarded@[i],
        ) by {
            if i < s.discarded@.len() {
                assert(discard_ok(graph, dist, s, known, s.discarded@[i]));
            }
        }
    }
    assert(known_ok(graph, dist, next, known2)) by {
        assert forall|e: int| #[trigger] known2.contains(e) implies settled(graph, dist, next, e)
            && kept(graph, next, e) by {
            if known.contains(e) {
                assert(settled(graph, dist, s, e) && kept(graph, s, e));
                if holds(s.w@, e) {
                    assert(holds(grown, e));
                }
                if s.track_discarded && holds(s.discarded@, e) {
                    let i = choose|i: int|
                        0 <= i < s.discarded@.len() && #[trigger] s.discarded@[i].element == e;
                    assert(next.discarded@[i].element == e);
                }
            } else {
                assert(holds(grown, e));
            }
            if over && e == out.element && s.track_discarded {
                assert(next.discarded@[s.discarded@.len() as int].element == e);
            }
        }
    }
    if distinct(ep) {
        assert(!holds(s.w@, e0));
        assert(distinct(grown));
        assert(distinct(next.w@)) by {
            assert(forall|i: int|
                #![trigger next.w@[i]]
                0 <= i < next.w@.len() ==> next.w@[i] == grown[i]);
        }
        assert forall|i: int| #![trigger next.discarded@[i]] 0 <= i
            < next.discarded@.len() implies !holds(
            next.w@,
            next.discarded@[i].element as int,
        ) by {
            let e = next.discarded@[i].element as int;
            if holds(next.w@, e) {
                assert(holds(grown, e));
                if i == s.discarded@.len() {
                    let j = choose|j: int| 0 <= j < next.w@.len() && #[trigger] next.w@[j].element
                        == e;
                    assert(grown[j].element == grown[last].element);
                } else {
                    assert(next.discarded@[i] == s.discarded@[i]);
                    assert(known.contains(e));
                }
            }
        }
    }
}

/// `known` and the first `k` of `u`.
spec fn with_first(known: Set<int>, u: Seq<usize>, k: int) -> Set<int>
    decreases k,
{
    if k <= 0 {
        known
    } else {
        with_first(known, u, k - 1).insert(u[k - 1] as int)
    }
}

proof fn lemma_with_first(known: Set<int>, u: Seq<usize>, k: int)
    requires
        0 <= k <= u.len(),
        known.finite(),
        u.no_duplicates(),
        forall|i: int| #![trigger u[i]] 0 <= i < u.len() ==> !known.contains(u[i] as int),
    ensures
        with_first(known, u, k).finite(),
        with_first(known, u, k).len() == known.len() + k,
        forall|e: int| #[trigger]
            with_first(known, u, k).contains(e) <==> known.contains(e) || exists|i: int|
                0 <= i < k && #[trigger] u[i] == e,
    decreases k,
{
    if k > 0 {
        lemma_with_first(known, u, k - 1);
        let before = with_first(known, u, k - 1);
        let all = with_first(known, u, k);
        assert forall|e: int| #[trigger] all.contains(e) <==> known.contains(e) || exists|i: int|
            0 <= i < k && #[trigger] u[i] == e by {
            if all.contains(e) && !known.contains(e) {
                if e == u[k - 1] {
                    assert(u[k - 1] == e);
                } else {
                    let i = choose|i: int| 0 <= i < k - 1 && #[trigger] u[i] == e;
                    assert(u[i] == e);
                }
            }
            if exists|i: int| 0 <= i < k && #[trigger] u[i] == e {
                let i = choose|i: int| 0 <= i < k && #[trigger] u[i] == e;
                if i < k - 1 {
                    assert(before.contains(e));
                }
            }
        }
        assert(!before.contains(u[k - 1] as int));
    }
}

/// The element `e` as a candidate.
pub open spec fn candidate(dist: spec_fn(int) -> i32, e: usize) -> SearchCandidate {
    SearchCandidate { element: e, distance: dist(e as int), key: e as u64 }
}

/// Whether `e` counts towards the limit of a search.
pub open spec fn counted(graph: Graph, skipping: bool, e: int) -> bool {
    !skipping || graph.elements@[e].heaptid_set
}

/// Where a search stands once it was given the entry points `ep`.
pub open spec fn entered(graph: Graph, skipping: bool, ep: Seq<SearchCandidate>) -> Frontier
    decreases ep.len(),
{
    if ep.len() == 0 {
        Frontier { c: Seq::empty(), w: Seq::empty(), wlen: 0, discarded: Seq::empty() }
    } else {
        entered(graph, skipping, ep.drop_last()).after_entry(
            ep.last(),
            counted(graph, skipping, ep.last().element as int),
        )
    }
}

/// Where a search stands once the elements `u` were offered, one by one.
pub open spec fn offered_each(
    graph: Graph,
    dist: spec_fn(int) -> i32,
    ef: int,
    lc: int,
    skipping: bool,
    f: Frontier,
    u: Seq<usize>,
) -> Frontier
    decreases u.len(),
{
    if u.len() == 0 {
        f
    } else {
        let e = u.last();
        offered_each(graph, dist, ef, lc, skipping, f, u.drop_last()).after_offer(
            ef,
            candidate(dist, e),
            graph.elements@[e as int].level >= lc,
            counted(graph, skipping, e as int),
        )
    }
}

/// Where a search stands, and what it has visited.
pub struct Progress {
    pub frontier: Frontier,
    pub visited: Set<u64>,
}

/// `visited` with the elements of `u`.
pub open spec fn marked(visited: Set<u64>, u: Seq<usize>) -> Set<u64> {
    Set::new(
        |key: u64|
            visited.contains(key) || exists|i: int| 0 <= i < u.len() && #[trigger] u[i] as u64 == key,
    )
}

/// `visited` with the elements of `ep`.
pub open spec fn with_entries(visited: Set<u64>, ep: Seq<SearchCandidate>) -> Set<u64> {
    Set::new(|key: u64| visited.contains(key) || holds(ep, key as int))
}

/// The nearest candidate was expanded: those of its neighbors that were not
/// visited yet were offered.
pub open spec fn expanded(
    graph: Graph,
    dist: spec_fn(int) -> i32,
    ef: int,
    lc: int,
    skipping: bool,
    p: Progress,
) -> Progress {
    let f = p.frontier;
    let u = unseen(graph.layer(f.c.last().element as int, lc), p.visited);
    let rest = Frontier { c: f.c.drop_last(), ..f };
    Progress {
        frontier: offered_each(graph, dist, ef, lc, skipping, rest, u),
        visited: marked(p.visited, u),
    }
}

/// Where the search of layer `lc` from `ep` stands after `k` expansions.
pub open spec fn progress(
    graph: Graph,
    dist: spec_fn(int) -> i32,
    ep: Seq<SearchCandidate>,
    ef: int,
    lc: int,
    skipping: bool,
    seen: Set<u64>,
    k: nat,
) -> Progress
    decreases k,
{
    if k == 0 {
        Progress { frontier: entered(graph, skipping, ep), visited: with_entries(seen, ep) }
    } else {
        expanded(
            graph,
            dist,
            ef,
            lc,
            skipping,
            progress(graph, dist, ep, ef, lc, skipping, seen, (k - 1) as nat),
        )
    }
}

/// Whether the search is over after `k` expansions, and not before.
pub open spec fn ends_after(
    graph: Graph,
    dist: spec_fn(int) -> i32,
    ep: Seq<SearchCandidate>,
    ef: int,
    lc: int,
    skipping: bool,
    seen: Set<u64>,
    k: nat,
) -> bool {
    &&& progress(graph, dist, ep, ef, lc, skipping, seen, k).frontier.is_over()
    &&& forall|j: nat|
        j < k ==> !(#[trigger] progress(
            graph,
            dist,
            ep,
            ef,
            lc,
            skipping,
            seen,
            j,
        )).frontier.is_over()
}

/// `out` are the best of the search of layer `lc` from `ep` when it is over,
/// furthest first.
pub open spec fn is_outcome(
    graph: Graph,
    dist: spec_fn(int) -> i32,
    ep: Seq<SearchCandidate>,
    ef: int,
    lc: int,
    skipping: bool,
    seen: Set<u64>,
    out: Seq<SearchCandidate>,
) -> bool {
    exists|k: nat| #[trigger]
        ends_after(graph, dist, ep, ef, lc, skipping, seen, k) && out == progress(
            graph,
            dist,
            ep,
            ef,
            lc,
            skipping,
            seen,
            k,
        ).frontier.w.reverse()
}

/// Offer all of `u`.
fn offer_all<F: Fn(usize) -> i32>(
    graph: &Graph,
    distance: &F,
    u: &Vec<usize>,
    s: &mut LayerSearch,
    Ghost(ep): Ghost<Seq<SearchCandidate>>,
    Ghost(known): Ghost<Set<int>>,
    Ghost(done): Ghost<Set<int>>,
    Ghost(f): Ghost<Frontier>,
)
    requires
        is_distance(*distance, graph.elements@.len() as int),
        search_ok(*graph, distance_of(*distance), ep, *old(s), known, done),
        old(s).is_at(f),
        old(s).w@.len() > 0,
        known.finite(),
        u@.no_duplicates(),
        forall|i: int|
            #![trigger u@[i]]
            0 <= i < u@.len() ==> u@[i] < graph.elements@.len() && !known.contains(u@[i] as int),
        old(s).wlen + u@.len() <= usize::MAX,
    ensures
        search_ok(
            *graph,
            distance_of(*distance),
            ep,
            *final(s),
            with_first(known, u@, u@.len() as int),
            done,
        ),
        final(s).w@.len() > 0,
        final(s).same_task(old(s)),
        final(s).wlen <= old(s).wlen + u@.len(),
        u@.len() == 0 ==> *final(s) == *old(s),
        final(s).is_at(
            offered_each(
                *graph,
                distance_of(*distance),
                old(s).ef as int,
                old(s).lc as int,
                old(s).skipping,
                f,
                u@,
            ),
        ),
{
    let ghost dist = distance_of(*distance);
    let mut i: usize = 0;
    while i < u.len()
        invariant
            i <= u@.len(),
            dist == distance_of(*distance),
            is_distance(*distance, graph.elements@.len() as int),
            search_ok(*graph, dist, ep, *s, with_first(known, u@, i as int), done),
            s.w@.len() > 0,
            s.same_task(old(s)),
            known.finite(),
            u@.no_duplicates(),
            forall|j: int|
                #![trigger u@[j]]
                0 <= j < u@.len() ==> u@[j] < graph.elements@.len() && !known.contains(
                    u@[j] as int,
                ),
            s.wlen <= old(s).wlen + i,
            i == 0 ==> *s == *old(s),
            s.is_at(
                offered_each(
                    *graph,
                    dist,
                    old(s).ef as int,
                    old(s).lc as int,
                    old(s).skipping,
                    f,
                    u@.take(i as int),
                ),
            ),
            old(s).wlen + u@.len() <= usize::MAX,
        decreases u@.len() - i,
    {
        let e: usize = u[i];
        let d: i32 = distance(e);
        let sc: SearchCandidate = SearchCandidate { element: e, distance: d, key: e as u64 };
        let ghost before = *s;
        let ghost met = with_first(known, u@, i as int);
        proof {
            lemma_with_first(known, u@, i as int);
            assert(u@[i as int] < graph.elements@.len());
            assert(dist(e as int) == d);
            assert(!met.contains(e as int));
        }
        let level: u8 = graph.elements[e].level;
        let has_row: bool = graph.elements[e].heaptid_set;
        s.offer(sc, level, has_row);
        proof {
            if before.admits(d) && on_layer(*graph, before.lc as int, e as int) {
                lemma_taken_up(*graph, dist, ep, before, *s, sc, has_row, met, done);
            } else {
                lemma_turned_away(*graph, dist, ep, before, *s, sc, has_row, met, done);
            }
            assert(with_first(known, u@, i + 1) == met.insert(e as int));
            assert(u@.take(i + 1).drop_last() =~= u@.take(i as int));
        }
        i = i + 1;
    }
    assert(u@.take(u@.len() as int) =~= u@);
}

/// The distances that `f` gives, as a specification.
pub open spec fn distance_of<F: Fn(usize) -> i32>(f: F) -> spec_fn(int) -> i32 {
    |e: int| value_of(f, e as usize)
}

/// What a search of a layer returns.
#[derive(Debug)]
pub struct LayerResult {
    /// The best candidates, furthest first.
    pub w: Vec<SearchCandidate>,
    /// Those that were turned away, where they are kept.
    pub discarded: Vec<SearchCandidate>,
    /// How many elements were met.
    pub tuples: usize,
}

/// `e` is among the results, or no nearer than any of them, and there are as
/// many as were asked for.
pub open spec fn found_or_beyond(
    dist: spec_fn(int) -> i32,
    ef: int,
    skipping: bool,
    out: Seq<SearchCandidate>,
    e: int,
) -> bool {
    holds(out, e) || (out.len() > 0 && (skipping || out.len() >= ef) && dist(e) >= out[0].distance)
}

/// The results of a search of layer `lc` from `ep`: what it has found when it is
/// over. They are furthest first, on the layer and reachable from the entry
/// points; and no entry point and no neighbor of a result would be a better
/// one.
pub open spec fn is_layer_result(
    graph: Graph,
    dist: spec_fn(int) -> i32,
    ep: Seq<SearchCandidate>,
    ef: int,
    lc: int,
    skipping: bool,
    seen: Set<u64>,
    out: Seq<SearchCandidate>,
) -> bool {
    &&& is_outcome(graph, dist, ep, ef, lc, skipping, seen, out)
    &&& layer_search::descending(out)
    &&& on_the_layer(graph, dist, lc, out)
    &&& forall|i: int|
        #![trigger out[i]]
        0 <= i < out.len() ==> reachable(graph, lc, ep, out[i].element as int)
    &&& distinct(ep) ==> distinct(out)
    &&& forall|e: int| #[trigger] holds(ep, e) ==> found_or_beyond(dist, ef, skipping, out, e)
    &&& forall|x: int, y: int| #[trigger]
        holds(out, x) && #[trigger] graph.is_neighbor(lc, x, y) && on_layer(graph, lc, y)
            && !seen.contains(y as u64) ==> found_or_beyond(dist, ef, skipping, out, y)
    &&& !skipping ==> out.len() <= ef || out.len() <= ep.len()
    &&& ep.len() > 0 ==> out.len() > 0
}

/// `r` and `after` are what the search of layer `lc` from `ep` has found, turned
/// away and visited when it is over.
pub open spec fn is_end_of_search(
    graph: Graph,
    dist: spec_fn(int) -> i32,
    ep: Seq<SearchCandidate>,
    ef: int,
    lc: int,
    skipping: bool,
    track: bool,
    seen: Set<u64>,
    after: Set<u64>,
    r: LayerResult,
) -> bool {
    exists|k: nat|
        {
            &&& #[trigger] ends_after(graph, dist, ep, ef, lc, skipping, seen, k)
            &&& r.w@ == progress(
                graph,
                dist,
                ep,
                ef,
                lc,
                skipping,
                seen,
                k,
            ).frontier.w.reverse()
            &&& track ==> r.discarded@ == progress(
                graph,
                dist,
                ep,
                ef,
                lc,
                skipping,
                seen,
                k,
            ).frontier.discarded
            &&& after == progress(graph, dist, ep, ef, lc, skipping, seen, k).visited
        }
}

/// What was met: all that is reachable of what is new, every neighbor of a
/// result, and none of it is lost where those turned away are kept.
pub open spec fn is_accounted_for(
    graph: Graph,
    dist: spec_fn(int) -> i32,
    ep: Seq<SearchCandidate>,
    lc: int,
    track: bool,
    seen: Set<u64>,
    after: Set<u64>,
    r: LayerResult,
) -> bool {
    &&& forall|key: u64| #[trigger] seen.contains(key) ==> after.contains(key)
    &&& forall|x: int, y: int| #[trigger]
        holds(r.w@, x) && #[trigger] graph.is_neighbor(lc, x, y) ==> after.contains(y as u64)
    &&& forall|key: u64| #[trigger]
        after.contains(key) && !seen.contains(key) ==> {
            &&& reachable(graph, lc, ep, key as int)
            &&& track ==> holds(r.w@, key as int) || holds(r.discarded@, key as int) || !on_layer(
                graph,
                lc,
                key as int,
            )
        }
    &&& !track ==> r.discarded@.len() == 0
    &&& forall|i: int|
        #![trigger r.discarded@[i]]
        0 <= i < r.discarded@.len() ==> {
            &&& genuine(graph, dist, r.discarded@[i])
            &&& r.w@.len() > 0 && r.discarded@[i].distance >= r.w@[0].distance
            &&& distinct(ep) ==> !holds(r.w@, r.discarded@[i].element as int)
        }
}

/// The keys that were added to `seen`, without those of entry points.
pub open spec fn newly_met(seen: Set<u64>, after: Set<u64>, ep: Seq<SearchCandidate>) -> Set<u64> {
    Set::new(|key: u64| after.contains(key) && !seen.contains(key) && !holds(ep, key as int))
}

/// The elements of `s`.
pub open spec fn elements_of(s: Seq<SearchCandidate>) -> Set<int> {
    Set::new(|e: int| holds(s, e))
}

/// Add the entry points.
fn enter(
    graph: &Graph,
    ep: &Vec<SearchCandidate>,
    s: &mut LayerSearch,
    v: &mut Visited,
    init_visited: bool,
    Ghost(dist): Ghost<spec_fn(int) -> i32>,
)
    requires
        graph.wf(),
        on_the_layer(*graph, dist, old(s).lc as int, ep@),
        old(s).wf(),
        old(s).wlen == 0,
        old(s).c@.len() == 0,
        old(s).w@.len() == 0,
        old(s).discarded@.len() == 0,
    ensures
        search_ok(*graph, dist, ep@, *final(s), elements_of(ep@), Set::empty()),
        final(s).same_task(old(s)),
        final(s).w@.len() == ep@.len(),
        final(s).wlen <= ep@.len(),
        !init_visited ==> final(v)@ == old(v)@,
        init_visited ==> forall|key: u64| #[trigger]
            final(v)@.contains(key) <==> old(v)@.contains(key) || holds(ep@, key as int),
        final(s).is_at(entered(*graph, old(s).skipping, ep@)),
{
    proof {
        assert(s.c@ =~= Seq::empty());
        assert(s.w@ =~= Seq::empty());
        assert(s.discarded@ =~= Seq::empty());
    }
    let mut i: usize = 0;
    while i < ep.len()
        invariant
            i <= ep@.len(),
            graph.wf(),
            on_the_layer(*graph, dist, s.lc as int, ep@),
            s.wf(),
            s.same_task(old(s)),
            s.discarded@.len() == 0,
            s.w@.len() == i,
            s.wlen <= i,
            !s.skipping ==> s.wlen == i,
            on_the_layer(*graph, dist, s.lc as int, s.c@),
            on_the_layer(*graph, dist, s.lc as int, s.w@),
            forall|e: int| #[trigger] holds(s.c@, e) <==> holds(ep@.take(i as int), e),
            forall|e: int| #[trigger] holds(s.w@, e) <==> holds(ep@.take(i as int), e),
            distinct(ep@) ==> distinct(s.w@),
            s.is_at(entered(*graph, old(s).skipping, ep@.take(i as int))),
            !init_visited ==> v@ == old(v)@,
            init_visited ==> forall|key: u64| #[trigger]
                v@.contains(key) <==> old(v)@.contains(key) || holds(
                    ep@.take(i as int),
                    key as int,
                ),
        decreases ep@.len() - i,
    {
        let sc: SearchCandidate = ep[i];
        let ghost before = *s;
        let ghost shorter = ep@.take(i as int);
        let ghost longer = ep@.take(i + 1);
        assert(genuine(*graph, dist, ep@[i as int]) && on_layer(
            *graph,
            s.lc as int,
            ep@[i as int].element as int,
        ));
        let has_row: bool = graph.elements[sc.element].heaptid_set;
        if init_visited {
            let _ = v.insert(sc.element as u64);
        }
        s.add_entry(sc, has_row);
        proof {
            assert(longer.drop_last() =~= shorter);
            lemma_with_one(before.c@, sc, s.c@);
            lemma_with_one(before.w@, sc, s.w@);
            assert forall|e: int| #[trigger] holds(longer, e) <==> holds(shorter, e) || e
                == sc.element by {
                if holds(longer, e) {
                    let k = choose|k: int| 0 <= k < longer.len() && #[trigger] longer[k].element
                        == e;
                    if k < i {
                        assert(shorter[k].element == e);
                    }
                }
                if holds(shorter, e) {
                    let k = choose|k: int| 0 <= k < shorter.len() && #[trigger] shorter[k].element
                        == e;
                    assert(longer[k].element == e);
                }
                if e == sc.element {
                    assert(longer[i as int].element == e);
                }
            }
            if distinct(ep@) {
                if holds(before.w@, sc.element as int) {
                    let k = choose|k: int| 0 <= k < shorter.len() && #[trigger] shorter[k].element
                        == sc.element;
                    assert(ep@[k].element == ep@[i as int].element);
                }
            }
        }
        i = i + 1;
    }
    assert(ep@.take(ep@.len() as int) =~= ep@);
}

/// Taking the next candidate out leaves the search in order, once it counts
/// as expanded.
proof fn lemma_popped(
    graph: Graph,
    dist: spec_fn(int) -> i32,
    ep: Seq<SearchCandidate>,
    s: LayerSearch,
    next: LayerSearch,
    known: Set<int>,
    done: Set<int>,
)
    requires
        search_ok(graph, dist, ep, s, known, done),
        s.c@.len() > 0,
        next.wf(),
        next.same_task(&s),
        next.wlen == s.wlen,
        next.w@ == s.w@,
        next.discarded@ == s.discarded@,
        next.c@ == s.c@.drop_last(),
    ensures
        search_ok(graph, dist, ep, next, known, done.insert(s.c@.last().element as int)),
        known.contains(s.c@.last().element as int),
        on_layer(graph, s.lc as int, s.c@.last().element as int),
{
    let x = s.c@.last().element as int;
    assert(s.c@[s.c@.len() - 1].element == x);
    assert(holds(s.c@, x));
    assert forall|e: int| #[trigger] holds(s.c@, e) implies holds(next.c@, e) || e == x by {
        let i = choose|i: int| 0 <= i < s.c@.len() && #[trigger] s.c@[i].element == e;
        if i < next.c@.len() {
            assert(next.c@[i].element == e);
        }
    }
    assert forall|e: int| #[trigger] holds(next.c@, e) implies holds(s.c@, e) by {
        let i = choose|i: int| 0 <= i < next.c@.len() && #[trigger] next.c@[i].element == e;
        assert(s.c@[i].element == e);
    }
    assert(on_the_layer(graph, dist, s.lc as int, next.c@)) by {
        assert(forall|i: int|
            #![trigger next.c@[i]]
            0 <= i < next.c@.len() ==> next.c@[i] == s.c@[i]);
    }
    assert(known_ok(graph, dist, next, known)) by {
        assert forall|e: int| #[trigger] known.contains(e) implies settled(graph, dist, next, e)
            && kept(graph, next, e) by {
            assert(settled(graph, dist, s, e) && kept(graph, s, e));
        }
    }
    assert(discards_ok(graph, dist, next, known)) by {
        assert forall|i: int| #![trigger next.discarded@[i]] 0 <= i
            < next.discarded@.len() implies discard_ok(
            graph,
            dist,
            next,
            known,
            next.discarded@[i],
        ) by {
            assert(discard_ok(graph, dist, s, known, s.discarded@[i]));
        }
    }
}

/// Once the nearest candidate lies further than all the best, every one of
/// them was expanded.
proof fn lemma_search_is_over(
    graph: Graph,
    dist: spec_fn(int) -> i32,
    ep: Seq<SearchCandidate>,
    s: LayerSearch,
    known: Set<int>,
    done: Set<int>,
)
    requires
        search_ok(graph, dist, ep, s, known, done),
        s.c@.len() > 0 ==> s.c@.last().distance > s.w@.last().distance,
    ensures
        forall|e: int| #[trigger] holds(s.w@, e) ==> done.contains(e),
{
    assert forall|e: int| #[trigger] holds(s.w@, e) implies done.contains(e) by {
        if holds(s.c@, e) {
            let i = choose|i: int| 0 <= i < s.c@.len() && #[trigger] s.c@[i].element == e;
            let j = choose|j: int| 0 <= j < s.w@.len() && #[trigger] s.w@[j].element == e;
            assert(layer_search::le(s.c@[s.c@.len() - 1], s.c@[i]));
            assert(layer_search::le(s.w@[j], s.w@[s.w@.len() - 1]));
        }
    }
}

proof fn lemma_reach_step(graph: Graph, lc: int, ep: Seq<SearchCandidate>, x: int, y: int)
    requires
        reachable(graph, lc, ep, x),
        on_layer(graph, lc, x),
        graph.is_neighbor(lc, x, y),
    ensures
        reachable(graph, lc, ep, y),
{
    let k = choose|k: nat| #[trigger] within(graph, lc, ep, x, k);
    assert(within(graph, lc, ep, y, k + 1));
}

/// The elements of a candidate list are finitely many.
proof fn lemma_elements_finite(s: Seq<SearchCandidate>, n: int)
    requires
        forall|i: int| #![trigger s[i]] 0 <= i < s.len() ==> s[i].element < n,
    ensures
        elements_of(s).finite(),
        elements_of(s).subset_of(vstd::set_lib::set_int_range(0, n)),
{
    vstd::set_lib::lemma_int_range(0, if n < 0 { 0 } else { n });
    let range = vstd::set_lib::set_int_range(0, n);
    assert forall|e: int| #[trigger] elements_of(s).contains(e) implies range.contains(e) by {
        let i = choose|i: int| 0 <= i < s.len() && #[trigger] s[i].element == e;
        assert(s[i].element < n);
    }
    if s.len() > 0 {
        assert(s[0].element < n);
    } else {
        assert(elements_of(s) =~= Set::empty());
    }
    if n >= 0 {
        vstd::set_lib::lemma_len_subset(elements_of(s), range);
    }
}

proof fn lemma_newly_met(
    seen: Set<u64>,
    after: Set<u64>,
    ep: Seq<SearchCandidate>,
    known: Set<int>,
    n: int,
)
    requires
        n <= usize::MAX,
        known.finite(),
        known.subset_of(vstd::set_lib::set_int_range(0, n)),
        elements_of(ep).finite(),
        forall|e: int| #[trigger] holds(ep, e) ==> known.contains(e),
        forall|e: int| #[trigger] known.contains(e) ==> holds(ep, e) || !seen.contains(e as u64),
        forall|key: u64| #[trigger]
            after.contains(key) <==> seen.contains(key) || known.contains(key as int),
    ensures
        newly_met(seen, after, ep).len() == known.len() - elements_of(ep).len(),
{
    let fresh = known.difference(elements_of(ep));
    let range = vstd::set_lib::set_int_range(0, n);
    assert(fresh + elements_of(ep) =~= known);
    vstd::set_lib::lemma_set_disjoint_lens(fresh, elements_of(ep));
    let f = |e: int| e as u64;
    let keys = newly_met(seen, after, ep);
    assert forall|key: u64| #[trigger] fresh.map(f).contains(key) <==> keys.contains(key) by {
        if fresh.map(f).contains(key) {
            let e = choose|e: int| fresh.contains(e) && f(e) == key;
            assert(known.contains(e));
            assert(range.contains(e));
            assert(e == key as int);
        }
        if keys.contains(key) {
            assert(known.contains(key as int));
            assert(fresh.contains(key as int));
            assert(f(key as int) == key);
        }
    }
    assert(fresh.map(f) =~= keys);
    assert forall|a: int, b: int| fresh.contains(a) && fresh.contains(b) && #[trigger] f(a)
        == #[trigger] f(b) implies a == b by {
        assert(range.contains(a) && range.contains(b));
    }
    assert(vstd::relations::injective_on(f, fresh));
    vstd::set_lib::lemma_map_size(fresh, keys, f);
}

/// The best, turned round, are the results.
proof fn lemma_results(
    graph: Graph,
    dist: spec_fn(int) -> i32,
    ep: Seq<SearchCandidate>,
    s: LayerSearch,
    known: Set<int>,
    seen: Set<u64>,
    after: Set<u64>,
    r: LayerResult,
)
    requires
        s.wf(),
        is_outcome(graph, dist, ep, s.ef as int, s.lc as int, s.skipping, seen, r.w@),
        r.w@ == s.w@.reverse(),
        r.discarded@ == s.discarded@,
        layer_search::descending(r.w@),
        on_the_layer(graph, dist, s.lc as int, ep),
        on_the_layer(graph, dist, s.lc as int, s.w@),
        known_ok(graph, dist, s, known),
        discards_ok(graph, dist, s, known),
        distinct(ep) ==> apart(s),
        !s.skipping ==> s.wlen >= ep.len() && s.w@.len() == best_count(s, ep.len() as int),
        ep.len() > 0 ==> s.w@.len() > 0,
        graph.elements@.len() <= usize::MAX,
        forall|e: int| #[trigger] known.contains(e) ==> reachable(graph, s.lc as int, ep, e),
        forall|e: int| #[trigger] holds(ep, e) ==> known.contains(e),
        forall|e: int| #[trigger] holds(s.w@, e) ==> known.contains(e),
        forall|key: u64| #[trigger]
            after.contains(key) <==> seen.contains(key) || known.contains(key as int),
        forall|x: int, y: int| #[trigger]
            holds(s.w@, x) && #[trigger] graph.is_neighbor(s.lc as int, x, y) ==> after.contains(
                y as u64,
            ),
    ensures
        is_layer_result(
            graph,
            dist,
            ep,
            s.ef as int,
            s.lc as int,
            s.skipping,
            seen,
            r.w@,
        ),
        is_accounted_for(graph, dist, ep, s.lc as int, s.track_discarded, seen, after, r),
{
    let out = r.w@;
    let m = s.w@.len();
    assert forall|e: int| #[trigger] holds(out, e) <==> holds(s.w@, e) by {
        if holds(out, e) {
            let i = choose|i: int| 0 <= i < out.len() && #[trigger] out[i].element == e;
            assert(s.w@[m - 1 - i].element == e);
        }
        if holds(s.w@, e) {
            let i = choose|i: int| 0 <= i < m && #[trigger] s.w@[i].element == e;
            assert(out[m - 1 - i].element == e);
        }
    }
    assert forall|i: int| #![trigger out[i]] 0 <= i < out.len() implies out[i] == s.w@[m - 1 - i]
        && holds(s.w@, out[i].element as int) by {
        assert(s.w@[m - 1 - i].element == out[i].element);
    }
    assert forall|e: int| #[trigger] known.contains(e) && on_layer(
        graph,
        s.lc as int,
        e,
    ) implies found_or_beyond(dist, s.ef as int, s.skipping, out, e) by {
        assert(settled(graph, dist, s, e));
    }
    assert(forall|e: int| #[trigger]
        holds(ep, e) ==> found_or_beyond(dist, s.ef as int, s.skipping, out, e)) by {
        assert forall|e: int| #[trigger] holds(ep, e) implies found_or_beyond(
            dist,
            s.ef as int,
            s.skipping,
            out,
            e,
        ) by {
            let i = choose|i: int| 0 <= i < ep.len() && #[trigger] ep[i].element == e;
            assert(on_layer(graph, s.lc as int, ep[i].element as int));
            assert(known.contains(e));
        }
    }
    assert forall|x: int, y: int| #[trigger]
        holds(out, x) && #[trigger] graph.is_neighbor(s.lc as int, x, y) && on_layer(
            graph,
            s.lc as int,
            y,
        ) && !seen.contains(y as u64) implies found_or_beyond(
        dist,
        s.ef as int,
        s.skipping,
        out,
        y,
    ) by {
        assert(holds(s.w@, x));
        assert(after.contains(y as u64));
        assert(y as u64 as int == y);
        assert(known.contains(y));
    }
    assert forall|key: u64| #[trigger] after.contains(key) && !seen.contains(key) implies reachable(
        graph,
        s.lc as int,
        ep,
        key as int,
    ) && (s.track_discarded ==> holds(out, key as int) || holds(r.discarded@, key as int)
        || !on_layer(graph, s.lc as int, key as int)) by {
        assert(known.contains(key as int));
        assert(kept(graph, s, key as int));
    }
    assert forall|i: int| #![trigger r.discarded@[i]] 0 <= i < r.discarded@.len() implies genuine(
        graph,
        dist,
        r.discarded@[i],
    ) && out.len() > 0 && r.discarded@[i].distance >= out[0].distance && (distinct(ep) ==> !holds(
        out,
        r.discarded@[i].element as int,
    )) by {
        assert(discard_ok(graph, dist, s, known, s.discarded@[i]));
    }
}

/// Search layer `lc` from the entry points `ep` for the `ef` elements that
/// are nearest by `distance`. With `skipping`, elements without a row do not
/// count towards `ef`. `v` is cleared first where `init_visited`; otherwise
/// what it holds was met before.
pub fn search_layer<F: Fn(usize) -> i32>(
    graph: &Graph,
    distance: &F,
    ep: &Vec<SearchCandidate>,
    ef: usize,
    lc: usize,
    skipping: bool,
    v: &mut Visited,
    track_discarded: bool,
    init_visited: bool,
) -> (r: LayerResult)
    requires
        graph.wf(),
        is_distance(*distance, graph.elements@.len() as int),
        on_the_layer(*graph, distance_of(*distance), lc as int, ep@),
        ep@.len() + graph.elements@.len() <= usize::MAX,
        !init_visited ==> forall|i: int|
            #![trigger ep@[i]]
            0 <= i < ep@.len() ==> old(v)@.contains(ep@[i].element as u64),
    ensures
        is_layer_result(
            *graph,
            distance_of(*distance),
            ep@,
            ef as int,
            lc as int,
            skipping,
            if init_visited {
                Set::empty()
            } else {
                old(v)@
            },
            r.w@,
        ),
        is_accounted_for(
            *graph,
            distance_of(*distance),
            ep@,
            lc as int,
            track_discarded,
            if init_visited {
                Set::empty()
            } else {
                old(v)@
            },
            final(v)@,
            r,
        ),
        is_end_of_search(
            *graph,
            distance_of(*distance),
            ep@,
            ef as int,
            lc as int,
            skipping,
            track_discarded,
            if init_visited {
                Set::empty()
            } else {
                old(v)@
            },
            final(v)@,
            r,
        ),
        r.tuples == if init_visited {
            ep@.len()
        } else {
            0
        } + newly_met(
            if init_visited {
                Set::empty()
            } else {
                old(v)@
            },
            final(v)@,
            ep@,
        ).len(),
{
    let ghost dist = distance_of(*distance);
    let ghost n = graph.elements@.len() as int;
    let mut s: LayerSearch = LayerSearch::new(ef, lc, skipping, track_discarded);
    if init_visited {
        v.clear();
    }
    let ghost seen = v@;
    enter(graph, ep, &mut s, v, init_visited, Ghost(dist));
    let mut tuples: usize = if init_visited {
        ep.len()
    } else {
        0
    };
    let ghost mut known = elements_of(ep@);
    let ghost mut done: Set<int> = Set::empty();
    let ghost range = vstd::set_lib::set_int_range(0, n);
    proof {
        lemma_elements_finite(ep@, n);
        vstd::set_lib::lemma_int_range(0, n);
        vstd::set_lib::lemma_len_subset(known, range);
        assert forall|key: u64| #[trigger] v@.contains(key) <==> seen.contains(key)
            || known.contains(key as int) by {
            if known.contains(key as int) && !init_visited {
                let i = choose|i: int| 0 <= i < ep@.len() && #[trigger] ep@[i].element == key;
                assert(old(v)@.contains(ep@[i].element as u64));
            }
        }
        assert forall|e: int| #[trigger] known.contains(e) implies reachable(
            *graph,
            lc as int,
            ep@,
            e,
        ) by {
            assert(within(*graph, lc as int, ep@, e, 0));
        }
    }
    let ghost entries = known.len();
    let ghost mut k: nat = 0;
    assert(v@ =~= with_entries(seen, ep@));
    loop
        invariant_except_break
            search_ok(*graph, dist, ep@, s, known, done),
            s.is_at(
                progress(*graph, dist, ep@, ef as int, lc as int, skipping, seen, k).frontier,
            ),
        invariant
            v@ == progress(
                *graph,
                dist,
                ep@,
                ef as int,
                lc as int,
                skipping,
                seen,
                k,
            ).visited,
            forall|j: nat|
                j < k ==> !(#[trigger] progress(
                    *graph,
                    dist,
                    ep@,
                    ef as int,
                    lc as int,
                    skipping,
                    seen,
                    j,
                )).frontier.is_over(),
            graph.wf(),
            n == graph.elements@.len(),
            dist == distance_of(*distance),
            is_distance(*distance, n),
            range == vstd::set_lib::set_int_range(0, n),
            s.ef == ef,
            s.lc == lc,
            s.skipping == skipping,
            s.track_discarded == track_discarded,
            known.finite(),
            known.subset_of(range),
            known.len() <= n,
            entries <= known.len(),
            s.wlen <= ep@.len() + known.len() - entries,
            ep@.len() + n <= usize::MAX,
            ep@.len() > 0 ==> s.w@.len() > 0,
            forall|e: int| #[trigger] known.contains(e) ==> reachable(*graph, lc as int, ep@, e),
            forall|e: int| #[trigger] holds(ep@, e) ==> known.contains(e),
            forall|e: int| #[trigger]
                known.contains(e) ==> holds(ep@, e) || !seen.contains(e as u64),
            entries == elements_of(ep@).len(),
            tuples == if init_visited {
                ep@.len()
            } else {
                0
            } + known.len() - entries,
            forall|key: u64| #[trigger]
                v@.contains(key) <==> seen.contains(key) || known.contains(key as int),
            forall|x: int, y: int| #[trigger]
                done.contains(x) && #[trigger] graph.is_neighbor(lc as int, x, y) ==> v@.contains(
                    y as u64,
                ),
        ensures
            s.wf(),
            on_the_layer(*graph, dist, lc as int, s.w@),
            forall|e: int| #[trigger] holds(s.w@, e) ==> known.contains(e) && done.contains(e),
            known_ok(*graph, dist, s, known),
            discards_ok(*graph, dist, s, known),
            distinct(ep@) ==> apart(s),
            !s.skipping ==> s.wlen >= ep@.len() && s.w@.len() == best_count(s, ep@.len() as int),
            ends_after(*graph, dist, ep@, ef as int, lc as int, skipping, seen, k),
            s.w@ == progress(
                *graph,
                dist,
                ep@,
                ef as int,
                lc as int,
                skipping,
                seen,
                k,
            ).frontier.w,
            s.track_discarded ==> s.discarded@ == progress(
                *graph,
                dist,
                ep@,
                ef as int,
                lc as int,
                skipping,
                seen,
                k,
            ).frontier.discarded,
        decreases n - known.len(), s.c@.len(),
    {
        let ghost before = s;
        match s.next_expansion() {
            None => {
                proof {
                    lemma_search_is_over(*graph, dist, ep@, before, known, done);
                    if before.c@.len() > 0 {
                        lemma_popped(*graph, dist, ep@, before, s, known, done);
                    }
                }
                break;
            },
            Some(sc) => {
                proof {
                    lemma_popped(*graph, dist, ep@, before, s, known, done);
                }
                let ghost x = sc.element as int;
                let ghost visited = v@;
                let u: Vec<usize> = load_unvisited_from_memory(graph, sc.element, lc, v);
                let ghost items = graph.layer(x, lc as int);
                let ghost met = known;
                proof {
                    lemma_unseen(items, visited);
                    assert forall|i: int| #![trigger u@[i]] 0 <= i < u@.len() implies u@[i] < n
                        && !known.contains(u@[i] as int) && graph.is_neighbor(
                        lc as int,
                        x,
                        u@[i] as int,
                    ) by {
                        let j = choose|j: int|
                            0 <= j < items.len() && #[trigger] items[j].element == u@[i];
                        assert(graph.elements@[x].neighbors@[lc as int].items@[j].element < n);
                        assert(graph.layer(x, lc as int)[j].element == u@[i]);
                        assert(!visited.contains(u@[i] as u64));
                    }
                    done = done.insert(x);
                    lemma_with_first(known, u@, u@.len() as int);
                    known = with_first(met, u@, u@.len() as int);
                    assert forall|e: int| #[trigger] known.contains(e) implies range.contains(e)
                        && reachable(*graph, lc as int, ep@, e) && (holds(ep@, e)
                        || !seen.contains(e as u64)) by {
                        if !met.contains(e) {
                            let i = choose|i: int| 0 <= i < u@.len() && #[trigger] u@[i] == e;
                            assert(u@[i] < n);
                            assert(!visited.contains(u@[i] as u64));
                            lemma_reach_step(*graph, lc as int, ep@, x, e);
                        }
                    }
                    vstd::set_lib::lemma_int_range(0, n);
                    vstd::set_lib::lemma_len_subset(known, range);
                    assert forall|key: u64| #[trigger] v@.contains(key) <==> seen.contains(key)
                        || known.contains(key as int) by {
                        if v@.contains(key) && !visited.contains(key) {
                            let i = choose|i: int|
                                0 <= i < u@.len() && #[trigger] u@[i] as u64 == key;
                            assert(u@[i] == key as int);
                        }
                        if known.contains(key as int) && !met.contains(key as int) {
                            let i = choose|i: int| 0 <= i < u@.len() && #[trigger] u@[i] == key as int;
                            assert(u@[i] as u64 == key);
                        }
                    }
                    assert forall|a: int, y: int| #[trigger]
                        done.contains(a) && #[trigger] graph.is_neighbor(
                            lc as int,
                            a,
                            y,
                        ) implies v@.contains(y as u64) by {
                        if a == x {
                            let i = choose|i: int|
                                0 <= i < items.len() && #[trigger] graph.layer(
                                    x,
                                    lc as int,
                                )[i].element == y;
                            assert(items[i].element == y);
                            if !visited.contains(y as u64) {
                                assert(u@.contains(items[i].element));
                                let j = choose|j: int| 0 <= j < u@.len() && u@[j]
                                    == items[i].element;
                                assert(u@[j] as u64 == y as u64);
                            }
                        } else {
                            assert(visited.contains(y as u64));
                        }
                    }
                }
                tuples = tuples + u.len();
                let ghost stand = progress(
                    *graph,
                    dist,
                    ep@,
                    ef as int,
                    lc as int,
                    skipping,
                    seen,
                    k,
                );
                let ghost rest = Frontier {
                    c: stand.frontier.c.drop_last(),
                    ..stand.frontier
                };
                proof {
                    assert(!stand.frontier.is_over());
                    assert(v@ =~= marked(stand.visited, u@));
                    k = k + 1;
                }
                offer_all(
                    graph,
                    distance,
                    &u,
                    &mut s,
                    Ghost(ep@),
                    Ghost(met),
                    Ghost(done),
                    Ghost(rest),
                );
            },
        }
    }
    let ghost end = s;
    proof {
        assert forall|x: int, y: int| #[trigger]
            holds(s.w@, x) && #[trigger] graph.is_neighbor(lc as int, x, y) implies v@.contains(
            y as u64,
        ) by {
            assert(done.contains(x));
        }
        lemma_elements_finite(ep@, n);
        lemma_newly_met(seen, v@, ep@, known, n);
    }
    let discarded: Vec<SearchCandidate> = s.discarded;
    let best: LayerSearch = LayerSearch {
        ef,
        lc,
        skipping,
        wlen: s.wlen,
        c: s.c,
        w: s.w,
        track_discarded,
        discarded: Vec::new(),
    };
    let w: Vec<SearchCandidate> = best.finish();
    let r: LayerResult = LayerResult { w, discarded, tuples };
    proof {
        lemma_results(*graph, dist, ep@, end, known, seen, v@, r);
    }
    r
}

/// A search that finds fewer than it was asked for has found all that can be
/// reached on the layer.
pub proof fn law_short_results_are_complete(
    graph: Graph,
    dist: spec_fn(int) -> i32,
    ep: Seq<SearchCandidate>,
    ef: int,
    lc: int,
    out: Seq<SearchCandidate>,
    e: int,
)
    requires
        is_layer_result(graph, dist, ep, ef, lc, false, Set::empty(), out),
        out.len() < ef,
        reachable(graph, lc, ep, e),
        on_layer(graph, lc, e),
    ensures
        holds(out, e),
{
    let k = choose|k: nat| #[trigger] within(graph, lc, ep, e, k);
    lemma_short_results(graph, dist, ep, ef, lc, out, e, k);
}

proof fn lemma_short_results(
    graph: Graph,
    dist: spec_fn(int) -> i32,
    ep: Seq<SearchCandidate>,
    ef: int,
    lc: int,
    out: Seq<SearchCandidate>,
    e: int,
    k: nat,
)
    requires
        is_layer_result(graph, dist, ep, ef, lc, false, Set::empty(), out),
        out.len() < ef,
        within(graph, lc, ep, e, k),
        on_layer(graph, lc, e),
    ensures
        holds(out, e),
    decreases k,
{
    if k > 0 {
        if within(graph, lc, ep, e, (k - 1) as nat) {
            lemma_short_results(graph, dist, ep, ef, lc, out, e, (k - 1) as nat);
        } else {
            let x = choose|x: int|
                {
                    &&& #[trigger] graph.is_neighbor(lc, x, e)
                    &&& on_layer(graph, lc, x)
                    &&& within(graph, lc, ep, x, (k - 1) as nat)
                };
            lemma_short_results(graph, dist, ep, ef, lc, out, x, (k - 1) as nat);
            assert(!Set::<u64>::empty().contains(e as u64));
            assert(found_or_beyond(dist, ef, false, out, e));
        }
    }
}

} // verus!
