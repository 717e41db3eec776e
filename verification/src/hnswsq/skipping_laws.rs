//! What a search in memory is for where it passes over elements without a row.
use crate::hnswsq::graph_search;
use crate::hnswsq::graph_search::Progress;
use crate::hnswsq::layer_search;
use crate::hnswsq::layer_search::{Frontier, SearchCandidate};
use crate::hnswsq::types::{Candidate, Graph};
use vstd::prelude::*;

verus! {

/// How many of the candidates have a row.
pub open spec fn rows(graph: Graph, s: Seq<SearchCandidate>) -> int
    decreases s.len(),
{
    if s.len() == 0 {
        0
    } else {
        rows(graph, s.drop_last()) + if graph.elements@[s.last().element as int].heaptid_set {
            1int
        } else {
            0
        }
    }
}

proof fn lemma_rows_placed(graph: Graph, s: Seq<SearchCandidate>, c: SearchCandidate)
    ensures
        layer_search::placed_ascending(s, c).len() == s.len() + 1,
        rows(graph, layer_search::placed_ascending(s, c)) == rows(graph, s)
            + if graph.elements@[c.element as int].heaptid_set {
            1int
        } else {
            0
        },
    decreases s.len(),
{
    let t = layer_search::placed_ascending(s, c);
    if s.len() == 0 || layer_search::le(s.last(), c) {
        assert(t.drop_last() =~= s);
    } else {
        lemma_rows_placed(graph, s.drop_last(), c);
        assert(t.drop_last() =~= layer_search::placed_ascending(s.drop_last(), c));
    }
}

proof fn lemma_rows_of_two(graph: Graph, a: Seq<SearchCandidate>, b: Seq<SearchCandidate>)
    ensures
        rows(graph, a + b) == rows(graph, a) + rows(graph, b),
    decreases b.len(),
{
    if b.len() == 0 {
        assert(a + b =~= a);
    } else {
        assert((a + b).drop_last() =~= a + b.drop_last());
        lemma_rows_of_two(graph, a, b.drop_last());
    }
}

proof fn lemma_rows_reversed(graph: Graph, s: Seq<SearchCandidate>)
    ensures
        rows(graph, s.reverse()) == rows(graph, s),
    decreases s.len(),
{
    if s.len() > 0 {
        let last = seq![s.last()];
        assert(s.reverse() =~= last + s.drop_last().reverse());
        lemma_rows_of_two(graph, last, s.drop_last().reverse());
        lemma_rows_reversed(graph, s.drop_last());
        assert(last.drop_last() =~= Seq::empty());
        assert(rows(graph, last.drop_last()) == 0);
    } else {
        assert(s.reverse() =~= s);
    }
}

spec fn has_rows(graph: Graph, ef: int, f: Frontier) -> bool {
    rows(graph, f.w) >= f.wlen || rows(graph, f.w) >= ef
}

proof fn lemma_entered_has_rows(graph: Graph, ep: Seq<SearchCandidate>)
    ensures
        rows(graph, graph_search::entered(graph, true, ep).w) == graph_search::entered(
            graph,
            true,
            ep,
        ).wlen,
    decreases ep.len(),
{
    if ep.len() > 0 {
        lemma_entered_has_rows(graph, ep.drop_last());
        lemma_rows_placed(graph, graph_search::entered(graph, true, ep.drop_last()).w, ep.last());
    }
}

proof fn lemma_each_has_rows(
    graph: Graph,
    dist: spec_fn(int) -> i32,
    ef: int,
    lc: int,
    f: Frontier,
    u: Seq<usize>,
)
    requires
        has_rows(graph, ef, f),
    ensures
        has_rows(graph, ef, graph_search::offered_each(graph, dist, ef, lc, true, f, u)),
        graph_search::offered_each(graph, dist, ef, lc, true, f, u).wlen >= f.wlen,
    decreases u.len(),
{
    if u.len() > 0 {
        lemma_each_has_rows(graph, dist, ef, lc, f, u.drop_last());
        let g = graph_search::offered_each(graph, dist, ef, lc, true, f, u.drop_last());
        lemma_rows_placed(graph, g.w, graph_search::candidate(dist, u.last()));
    }
}

proof fn lemma_progress_has_rows(
    graph: Graph,
    dist: spec_fn(int) -> i32,
    ep: Seq<SearchCandidate>,
    ef: int,
    lc: int,
    seen: Set<u64>,
    k: nat,
)
    ensures
        has_rows(
            graph,
            ef,
            graph_search::progress(graph, dist, ep, ef, lc, true, seen, k).frontier,
        ),
    decreases k,
{
    if k == 0 {
        lemma_entered_has_rows(graph, ep);
    } else {
        lemma_progress_has_rows(graph, dist, ep, ef, lc, seen, (k - 1) as nat);
        let p = graph_search::progress(graph, dist, ep, ef, lc, true, seen, (k - 1) as nat);
        let f = p.frontier;
        let u = graph_search::unseen(graph.layer(f.c.last().element as int, lc), p.visited);
        let rest = Frontier { c: f.c.drop_last(), ..f };
        lemma_each_has_rows(graph, dist, ef, lc, rest, u);
    }
}

pub proof fn lemma_push_contains(s: Seq<SearchCandidate>, a: SearchCandidate, x: SearchCandidate)
    ensures
        s.push(a).contains(x) <==> s.contains(x) || x == a,
{
    let t = s.push(a);
    if s.contains(x) {
        let i = choose|i: int| 0 <= i < s.len() && s[i] == x;
        assert(t[i] == x);
    }
    if x == a {
        assert(t[s.len() as int] == x);
    }
    if t.contains(x) {
        let i = choose|i: int| 0 <= i < t.len() && t[i] == x;
        if i < s.len() {
            assert(s[i] == x);
        }
    }
}

pub proof fn lemma_placed_contains(s: Seq<SearchCandidate>, c: SearchCandidate, x: SearchCandidate)
    ensures
        layer_search::placed_ascending(s, c).contains(x) <==> s.contains(x) || x == c,
        layer_search::placed_descending(s, c).contains(x) <==> s.contains(x) || x == c,
    decreases s.len(),
{
    lemma_push_contains(s, c, x);
    if s.len() > 0 {
        let init = s.drop_last();
        lemma_placed_contains(init, c, x);
        lemma_push_contains(init, s.last(), x);
        assert(init.push(s.last()) =~= s);
        lemma_push_contains(layer_search::placed_ascending(init, c), s.last(), x);
        lemma_push_contains(layer_search::placed_descending(init, c), s.last(), x);
    }
}

/// The state of a search that has not found enough yet: what is still to be looked
/// at was found.
spec fn pending_are_found(f: Frontier) -> bool {
    forall|x: SearchCandidate| #[trigger] f.c.contains(x) ==> f.w.contains(x)
}

/// Offering elements to a search that has not found enough by the end adds those
/// on the layer to what was found and to what is still to be looked at.
proof fn lemma_each_is_taken(
    graph: Graph,
    dist: spec_fn(int) -> i32,
    ef: int,
    lc: int,
    f: Frontier,
    u: Seq<usize>,
    x: SearchCandidate,
)
    requires
        graph_search::offered_each(graph, dist, ef, lc, true, f, u).wlen < ef,
        pending_are_found(f),
    ensures
        ({
            let g = graph_search::offered_each(graph, dist, ef, lc, true, f, u);
            &&& pending_are_found(g)
            &&& f.w.contains(x) ==> g.w.contains(x)
            &&& f.c.contains(x) ==> g.c.contains(x)
            &&& g.w.contains(x) ==> f.w.contains(x) || g.c.contains(x)
            &&& forall|i: int|
                #![trigger u[i]]
                0 <= i < u.len() && graph.elements@[u[i] as int].level >= lc ==> g.w.contains(
                    graph_search::candidate(dist, u[i]),
                )
        }),
    decreases u.len(),
{
    if u.len() > 0 {
        let init = u.drop_last();
        let e = u.last();
        let mid = graph_search::offered_each(graph, dist, ef, lc, true, f, init);
        let g = graph_search::offered_each(graph, dist, ef, lc, true, f, u);
        let sc = graph_search::candidate(dist, e);
        assert(mid.wlen <= g.wlen);
        lemma_each_is_taken(graph, dist, ef, lc, f, init, x);
        lemma_placed_contains(mid.w, sc, x);
        lemma_placed_contains(mid.c, sc, x);
        lemma_placed_contains(mid.w, sc, sc);
        let on_layer = graph.elements@[e as int].level >= lc;
        assert(pending_are_found(g)) by {
            assert forall|y: SearchCandidate| #[trigger] g.c.contains(y) implies g.w.contains(
                y,
            ) by {
                lemma_placed_contains(mid.w, sc, y);
                lemma_placed_contains(mid.c, sc, y);
                if mid.c.contains(y) {
                    assert(mid.w.contains(y));
                }
            }
        }
        assert forall|i: int|
            #![trigger u[i]]
            0 <= i < u.len() && graph.elements@[u[i] as int].level >= lc implies g.w.contains(
            graph_search::candidate(dist, u[i]),
        ) by {
            lemma_placed_contains(mid.w, sc, graph_search::candidate(dist, u[i]));
            if i < init.len() {
                assert(init[i] == u[i]);
            }
        }
    }
}

proof fn lemma_each_counts(
    graph: Graph,
    dist: spec_fn(int) -> i32,
    ef: int,
    lc: int,
    f: Frontier,
    u: Seq<usize>,
)
    ensures
        graph_search::offered_each(graph, dist, ef, lc, true, f, u).wlen >= f.wlen,
    decreases u.len(),
{
    if u.len() > 0 {
        lemma_each_counts(graph, dist, ef, lc, f, u.drop_last());
    }
}

proof fn lemma_unseen_is_complete(items: Seq<Candidate>, seen: Set<u64>, i: int)
    requires
        0 <= i < items.len(),
    ensures
        seen.contains(items[i].element as u64) || exists|j: int|
            0 <= j < graph_search::unseen(items, seen).len() && #[trigger] graph_search::unseen(
                items,
                seen,
            )[j] == items[i].element,
    decreases items.len(),
{
    let init = items.drop_last();
    let before = graph_search::unseen(init, seen);
    let out = graph_search::unseen(items, seen);
    let e = items[i].element;
    if !seen.contains(e as u64) {
        if i < items.len() - 1 {
            lemma_unseen_is_complete(init, seen, i);
            let j = choose|j: int| 0 <= j < before.len() && #[trigger] before[j] == init[i].element;
            assert(out[j] == e);
        } else if before.contains(e) {
            let j = choose|j: int| 0 <= j < before.len() && before[j] == e;
            assert(out[j] == e);
        } else {
            assert(out[before.len() as int] == e);
        }
    }
}

/// Whether all neighbors of an element at the layer were visited.
spec fn is_expanded(graph: Graph, lc: int, visited: Set<u64>, e: int) -> bool {
    forall|i: int|
        #![trigger graph.layer(e, lc)[i]]
        0 <= i < graph.layer(e, lc).len() ==> visited.contains(
            graph.layer(e, lc)[i].element as u64,
        )
}

/// A search that has not found enough found every element of the layer that it
/// visited, and what it found it has looked at or will.
spec fn is_thorough(
    graph: Graph,
    lc: int,
    seen: Set<u64>,
    p: Progress,
) -> bool {
    &&& pending_are_found(p.frontier)
    &&& forall|x: SearchCandidate| #[trigger]
        p.frontier.w.contains(x) ==> p.frontier.c.contains(x) || is_expanded(
            graph,
            lc,
            p.visited,
            x.element as int,
        )
    &&& forall|e: usize|
        #![trigger p.visited.contains(e as u64)]
        p.visited.contains(e as u64) && !seen.contains(e as u64) && graph_search::on_layer(
            graph,
            lc,
            e as int,
        ) ==> is_found(p.frontier.w, e as int)
}

spec fn is_found(w: Seq<SearchCandidate>, e: int) -> bool {
    exists|x: SearchCandidate| #[trigger] w.contains(x) && x.element == e
}

proof fn lemma_expanded_is_thorough(
    graph: Graph,
    dist: spec_fn(int) -> i32,
    ef: int,
    lc: int,
    seen: Set<u64>,
    p: Progress,
)
    requires
        is_thorough(graph, lc, seen, p),
        p.frontier.c.len() > 0,
        graph_search::expanded(graph, dist, ef, lc, true, p).frontier.wlen < ef,
    ensures
        is_thorough(graph, lc, seen, graph_search::expanded(graph, dist, ef, lc, true, p)),
{
    let f = p.frontier;
    let top = f.c.last();
    let items = graph.layer(top.element as int, lc);
    let u = graph_search::unseen(items, p.visited);
    let rest = Frontier { c: f.c.drop_last(), ..f };
    let q = graph_search::expanded(graph, dist, ef, lc, true, p);
    assert(f.c =~= rest.c.push(top));
    assert(pending_are_found(rest)) by {
        assert forall|x: SearchCandidate| #[trigger] rest.c.contains(x) implies rest.w.contains(
            x,
        ) by {
            lemma_push_contains(rest.c, top, x);
            assert(f.c.contains(x));
        }
    }
    lemma_each_is_taken(graph, dist, ef, lc, rest, u, top);
    assert forall|x: SearchCandidate| #[trigger] q.frontier.w.contains(
        x,
    ) implies q.frontier.c.contains(x) || is_expanded(
        graph,
        lc,
        q.visited,
        x.element as int,
    ) by {
        lemma_each_is_taken(graph, dist, ef, lc, rest, u, x);
        if !q.frontier.c.contains(x) {
            assert(f.w.contains(x));
            lemma_push_contains(rest.c, top, x);
            if x == top {
                assert forall|i: int| #![trigger items[i]] 0 <= i < items.len() implies q.visited.contains(
                    items[i].element as u64,
                ) by {
                    lemma_unseen_is_complete(items, p.visited, i);
                }
            } else {
                assert(!f.c.contains(x));
                assert(is_expanded(graph, lc, p.visited, x.element as int));
                let its = graph.layer(x.element as int, lc);
                assert forall|i: int| #![trigger its[i]] 0 <= i < its.len() implies q.visited.contains(
                    its[i].element as u64,
                ) by {
                    assert(p.visited.contains(graph.layer(x.element as int, lc)[i].element as u64));
                }
            }
        }
    }
    assert forall|e: usize|
        #![trigger q.visited.contains(e as u64)]
        q.visited.contains(e as u64) && !seen.contains(e as u64) && graph_search::on_layer(
            graph,
            lc,
            e as int,
        ) implies is_found(q.frontier.w, e as int) by {
        if p.visited.contains(e as u64) {
            let x = choose|x: SearchCandidate| #[trigger] f.w.contains(x) && x.element == e as int;
            lemma_each_is_taken(graph, dist, ef, lc, rest, u, x);
            assert(q.frontier.w.contains(x));
        } else {
            let i = choose|i: int| 0 <= i < u.len() && #[trigger] u[i] as u64 == e as u64;
            assert(u[i] == e);
            assert(q.frontier.w.contains(graph_search::candidate(dist, u[i])));
        }
    }
}

proof fn lemma_entered_is_thorough(
    graph: Graph,
    ep: Seq<SearchCandidate>,
    x: SearchCandidate,
)
    ensures
        graph_search::entered(graph, true, ep).w.contains(x) <==> ep.contains(x),
        graph_search::entered(graph, true, ep).c.contains(x) <==> ep.contains(x),
    decreases ep.len(),
{
    if ep.len() > 0 {
        let init = ep.drop_last();
        let f = graph_search::entered(graph, true, init);
        lemma_entered_is_thorough(graph, init, x);
        lemma_placed_contains(f.w, ep.last(), x);
        lemma_placed_contains(f.c, ep.last(), x);
        lemma_push_contains(init, ep.last(), x);
        assert(init.push(ep.last()) =~= ep);
    }
}

proof fn lemma_progress_is_thorough(
    graph: Graph,
    dist: spec_fn(int) -> i32,
    ep: Seq<SearchCandidate>,
    ef: int,
    lc: int,
    seen: Set<u64>,
    k: nat,
)
    requires
        graph_search::progress(graph, dist, ep, ef, lc, true, seen, k).frontier.wlen < ef,
        forall|j: nat|
            j < k ==> !(#[trigger] graph_search::progress(
                graph,
                dist,
                ep,
                ef,
                lc,
                true,
                seen,
                j,
            )).frontier.is_over(),
    ensures
        is_thorough(
            graph,
            lc,
            seen,
            graph_search::progress(graph, dist, ep, ef, lc, true, seen, k),
        ),
    decreases k,
{
    let p = graph_search::progress(graph, dist, ep, ef, lc, true, seen, k);
    if k == 0 {
        assert(pending_are_found(p.frontier)) by {
            assert forall|x: SearchCandidate| #[trigger] p.frontier.c.contains(
                x,
            ) implies p.frontier.w.contains(x) by {
                lemma_entered_is_thorough(graph, ep, x);
            }
        }
        assert forall|x: SearchCandidate| #[trigger] p.frontier.w.contains(
            x,
        ) implies p.frontier.c.contains(x) by {
            lemma_entered_is_thorough(graph, ep, x);
        }
        assert forall|e: usize|
            #![trigger p.visited.contains(e as u64)]
            p.visited.contains(e as u64) && !seen.contains(e as u64) && graph_search::on_layer(
                graph,
                lc,
                e as int,
            ) implies is_found(p.frontier.w, e as int) by {
            assert(graph_search::holds(ep, (e as u64) as int));
            let i = choose|i: int| 0 <= i < ep.len() && #[trigger] ep[i].element == (e as u64) as int;
            assert(ep.contains(ep[i]));
            lemma_entered_is_thorough(graph, ep, ep[i]);
        }
    } else {
        let j = (k - 1) as nat;
        let q = graph_search::progress(graph, dist, ep, ef, lc, true, seen, j);
        let f = q.frontier;
        let u = graph_search::unseen(graph.layer(f.c.last().element as int, lc), q.visited);
        lemma_each_counts(graph, dist, ef, lc, Frontier { c: f.c.drop_last(), ..f }, u);
        assert(!q.frontier.is_over());
        lemma_progress_is_thorough(graph, dist, ep, ef, lc, seen, j);
        lemma_expanded_is_thorough(graph, dist, ef, lc, seen, q);
    }
}

/// A search that passes over elements without a row goes on until it has found as
/// many with one as were asked for: as long as it has fewer, each neighbor of a
/// result that is on the layer and was not seen before is a result too, and so is
/// each entry point.
pub proof fn law_search_goes_on_until_it_found_enough_rows(
    graph: Graph,
    dist: spec_fn(int) -> i32,
    ep: Seq<SearchCandidate>,
    ef: int,
    lc: int,
    seen: Set<u64>,
    out: Seq<SearchCandidate>,
    i: int,
    k: int,
)
    requires
        graph_search::is_layer_result(graph, dist, ep, ef, lc, true, seen, out),
        rows(graph, out) < ef,
        0 <= i < out.len(),
        0 <= k < graph.elements@[out[i].element as int].neighbors@[lc].items@.len(),
    ensures
        ({
            let y = graph.elements@[out[i].element as int].neighbors@[lc].items@[k].element;
            y < graph.elements@.len() && graph.elements@[y as int].level >= lc && !seen.contains(
                y as u64,
            ) ==> exists|j: int| 0 <= j < out.len() && (#[trigger] out[j]).element == y
        }),
        forall|a: int|
            #![trigger ep[a]]
            0 <= a < ep.len() ==> exists|j: int| 0 <= j < out.len() && #[trigger] out[j] == ep[a],
{
    let n = choose|n: nat| #[trigger]
        graph_search::ends_after(graph, dist, ep, ef, lc, true, seen, n) && out
            == graph_search::progress(
            graph,
            dist,
            ep,
            ef,
            lc,
            true,
            seen,
            n,
        ).frontier.w.reverse();
    let p = graph_search::progress(graph, dist, ep, ef, lc, true, seen, n);
    let w = p.frontier.w;
    let c = p.frontier.c;
    lemma_rows_reversed(graph, w);
    lemma_progress_has_rows(graph, dist, ep, ef, lc, seen, n);
    lemma_progress_is_thorough(graph, dist, ep, ef, lc, seen, n);
    let last = w.len() - 1;
    if c.len() > 0 {
        assert(c.contains(c[c.len() - 1]));
        assert(w.contains(c.last()));
        let a = choose|a: int| 0 <= a < w.len() && w[a] == c.last();
        assert(out[last - a] == w[a]);
        assert(out[0] == w[last]);
        assert(layer_search::le(out[last - a], out[0]));
    }
    assert(c.len() == 0);
    let x = out[i];
    assert(x == w[last - i]);
    assert(w.contains(x));
    assert(is_expanded(graph, lc, p.visited, x.element as int));
    let y = graph.layer(x.element as int, lc)[k].element;
    assert(p.visited.contains(y as u64));
    if y < graph.elements@.len() && graph.elements@[y as int].level >= lc && !seen.contains(
        y as u64,
    ) {
        assert(is_found(w, y as int));
        let z = choose|z: SearchCandidate| #[trigger] w.contains(z) && z.element == y as int;
        let a = choose|a: int| 0 <= a < w.len() && w[a] == z;
        assert(out[last - a].element == y);
    }
    assert forall|a: int| #![trigger ep[a]] 0 <= a < ep.len() implies exists|j: int|
        0 <= j < out.len() && #[trigger] out[j] == ep[a] by {
        lemma_entry_is_kept(graph, dist, ep, ef, lc, seen, n, ep[a]);
        let b = choose|b: int| 0 <= b < w.len() && w[b] == ep[a];
        assert(out[last - b] == ep[a]);
    }
}

proof fn lemma_entry_is_kept(
    graph: Graph,
    dist: spec_fn(int) -> i32,
    ep: Seq<SearchCandidate>,
    ef: int,
    lc: int,
    seen: Set<u64>,
    k: nat,
    x: SearchCandidate,
)
    requires
        graph_search::progress(graph, dist, ep, ef, lc, true, seen, k).frontier.wlen < ef,
        forall|j: nat|
            j < k ==> !(#[trigger] graph_search::progress(
                graph,
                dist,
                ep,
                ef,
                lc,
                true,
                seen,
                j,
            )).frontier.is_over(),
        ep.contains(x),
    ensures
        graph_search::progress(graph, dist, ep, ef, lc, true, seen, k).frontier.w.contains(x),
    decreases k,
{
    if k == 0 {
        lemma_entered_is_thorough(graph, ep, x);
    } else {
        let j = (k - 1) as nat;
        let q = graph_search::progress(graph, dist, ep, ef, lc, true, seen, j);
        let f = q.frontier;
        let u = graph_search::unseen(graph.layer(f.c.last().element as int, lc), q.visited);
        let rest = Frontier { c: f.c.drop_last(), ..f };
        lemma_each_counts(graph, dist, ef, lc, rest, u);
        lemma_entry_is_kept(graph, dist, ep, ef, lc, seen, j, x);
        lemma_progress_is_thorough(graph, dist, ep, ef, lc, seen, j);
        assert(!q.frontier.is_over());
        assert(f.c =~= rest.c.push(f.c.last()));
        assert(pending_are_found(rest)) by {
            assert forall|y: SearchCandidate| #[trigger] rest.c.contains(y) implies rest.w.contains(
                y,
            ) by {
                lemma_push_contains(rest.c, f.c.last(), y);
                assert(f.c.contains(y));
            }
        }
        lemma_each_is_taken(graph, dist, ef, lc, rest, u, x);
    }
}

} // verus!
