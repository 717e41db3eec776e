//! What a search of a stored graph is for: it finds what the neighbor lists lead
//! to.
use crate::hnswsq::layer_search;
use crate::hnswsq::layer_search::{Frontier, SearchCandidate};
use crate::hnswsq::stored;
use crate::hnswsq::stored::{StoredPage, WalkError};
use crate::hnswsq::stored_search;
use crate::hnswsq::stored_search::{Handle, StoredProgress, StoredResult, StoredTask};
use crate::hnswsq::tuple;
use crate::hnswsq::tuple::{ElementTuple, NeighborTuple};
use crate::hnswsq::types;
use crate::hnswsq::vacuum::PageItem;
use crate::util::item_pointer::ItemPointer;
use vstd::prelude::*;

verus! {

/// Whether there is an element at an address that was not deleted.
pub open spec fn has_element(pages: Seq<StoredPage>, tid: ItemPointer) -> bool {
    stored::item_at(pages, tid) is Some && stored::item_at(pages, tid)->0 is Element
        && stored::item_at(pages, tid)->0->Element_tuple.deleted == 0
}

/// The element at an address.
pub open spec fn element_at(pages: Seq<StoredPage>, tid: ItemPointer) -> ElementTuple {
    stored::item_at(pages, tid)->0->Element_tuple
}

/// The stored list of neighbors of an element.
pub open spec fn list_at(pages: Seq<StoredPage>, tid: ItemPointer) -> NeighborTuple {
    stored::item_at(pages, element_at(pages, tid).neighbortid)->0->Neighbors_tuple
}

/// Whether the element at `a` names `b` as its neighbor at layer `lc`, in place `i`
/// of that layer: its list is of its version and has the size that its level
/// asks for, the layers from the top on, and nothing invalid comes before.
pub open spec fn names_at(
    pages: Seq<StoredPage>,
    m: int,
    lc: int,
    a: ItemPointer,
    b: ItemPointer,
    i: int,
) -> bool {
    let e = element_at(pages, a);
    let list = list_at(pages, a);
    let start = (e.level - lc) * m;
    &&& has_element(pages, a)
    &&& 0 <= lc <= e.level
    &&& stored::item_at(pages, e.neighbortid) is Some
    &&& stored::item_at(pages, e.neighbortid)->0 is Neighbors
    &&& list.version == e.version
    &&& list.tids@.len() == (e.level + 2) * m
    &&& 0 <= i < m || (lc == 0 && 0 <= i < 2 * m)
    &&& list.tids@[start + i] == b
    &&& forall|j: int|
        #![trigger list.tids@[start + j]]
        0 <= j <= i ==> list.tids@[start + j].block_number != 0xFFFF_FFFF
}

/// Whether the element at `a` names `b` as its neighbor at layer `lc`.
pub open spec fn names(
    pages: Seq<StoredPage>,
    m: int,
    lc: int,
    a: ItemPointer,
    b: ItemPointer,
) -> bool {
    exists|i: int| #[trigger] names_at(pages, m, lc, a, b, i)
}

/// Whether what is known of a loaded element is what is stored.
pub open spec fn is_current(pages: Seq<StoredPage>, h: Handle) -> bool {
    let t = element_at(pages, h.tid);
    &&& has_element(pages, h.tid)
    &&& h.level == t.level
    &&& h.version == t.version
    &&& h.neighbors == t.neighbortid
}

/// Whether a candidate is an element of the layer as it is stored, at its
/// distance.
pub open spec fn is_candidate(
    task: StoredTask,
    loaded: Seq<Handle>,
    x: SearchCandidate,
) -> bool {
    &&& x.element < loaded.len()
    &&& is_current(task.pages, loaded[x.element as int])
    &&& loaded[x.element as int].level >= task.lc
    &&& x.distance == (task.dist)(element_at(task.pages, loaded[x.element as int].tid).vector)
}

spec fn are_candidates(task: StoredTask, loaded: Seq<Handle>, s: Seq<SearchCandidate>) -> bool {
    forall|i: int| #![trigger s[i]] 0 <= i < s.len() ==> is_candidate(task, loaded, s[i])
}

/// Whether one of the candidates is the element at an address.
pub open spec fn holds(loaded: Seq<Handle>, s: Seq<SearchCandidate>, tid: ItemPointer) -> bool {
    exists|i: int| 0 <= i < s.len() && loaded[(#[trigger] s[i]).element as int].tid == tid
}

/// Whether the element at an address was taken care of: it is not on the layer, it
/// was found, or as many as asked for were and it is no nearer than the furthest.
spec fn is_settled(task: StoredTask, p: StoredProgress, tid: ItemPointer) -> bool {
    &&& has_element(task.pages, tid)
    &&& {
        ||| element_at(task.pages, tid).level < task.lc
        ||| holds(p.loaded, p.frontier.w, tid)
        ||| p.frontier.wlen >= task.ef && (task.dist)(element_at(task.pages, tid).vector)
            >= p.frontier.w.last().distance
    }
}

/// Whether all that the element of a candidate names was visited.
spec fn is_expanded(task: StoredTask, p: StoredProgress, x: SearchCandidate) -> bool {
    forall|b: ItemPointer| #[trigger]
        names(task.pages, task.m, task.lc, p.loaded[x.element as int].tid, b)
            ==> p.visited.contains(types::tid_key(b) as u64)
}

spec fn is_pending(p: StoredProgress, x: SearchCandidate) -> bool {
    exists|j: int| 0 <= j < p.frontier.c.len() && (#[trigger] p.frontier.c[j]).element == x.element
}

/// The state of a search, without what was visited.
spec fn is_sound(task: StoredTask, p: StoredProgress) -> bool {
    let f = p.frontier;
    &&& f.w.len() > 0
    &&& layer_search::ascending(f.w)
    &&& layer_search::descending(f.c)
    &&& are_candidates(task, p.loaded, f.w)
    &&& are_candidates(task, p.loaded, f.c)
}

/// What was visited, other than `seen`, is settled or among the first of `todo`;
/// what was found is pending or expanded.
spec fn is_accounted(
    task: StoredTask,
    seen: Set<u64>,
    p: StoredProgress,
    todo: Seq<ItemPointer>,
) -> bool {
    &&& forall|a: ItemPointer|
        #![trigger p.visited.contains(types::tid_key(a) as u64)]
        p.visited.contains(types::tid_key(a) as u64) ==> seen.contains(types::tid_key(a) as u64)
            || is_settled(task, p, a) || todo.contains(a)
    &&& forall|i: int|
        #![trigger p.frontier.w[i]]
        0 <= i < p.frontier.w.len() ==> is_pending(p, p.frontier.w[i]) || is_expanded(
            task,
            p,
            p.frontier.w[i],
        )
}

pub proof fn lemma_placed_ascending(s: Seq<SearchCandidate>, c: SearchCandidate) -> (p: int)
    requires
        layer_search::ascending(s),
    ensures
        0 <= p <= s.len(),
        layer_search::placed_ascending(s, c) == s.insert(p, c),
        layer_search::ascending(layer_search::placed_ascending(s, c)),
    decreases s.len(),
{
    if s.len() == 0 || layer_search::le(s.last(), c) {
        assert(s.push(c) =~= s.insert(s.len() as int, c));
        s.len() as int
    } else {
        let init = s.drop_last();
        let p = lemma_placed_ascending(init, c);
        let t = layer_search::placed_ascending(s, c);
        assert(t =~= s.insert(p, c));
        assert forall|i: int, j: int| #![trigger t[i], t[j]] 0 <= i <= j
            < t.len() implies layer_search::le(t[i], t[j]) by {
            let u = layer_search::placed_ascending(init, c);
            if j < u.len() {
                assert(t[i] == u[i] && t[j] == u[j]);
            } else if i < u.len() {
                assert(t[i] == u[i]);
                assert(t[j] == s.last());
                if i != p {
                    let x = if i < p {
                        i
                    } else {
                        i - 1
                    };
                    assert(t[i] == s[x]);
                    assert(layer_search::le(s[x], s[s.len() - 1]));
                }
            }
        }
        p
    }
}

proof fn lemma_placed_descending(s: Seq<SearchCandidate>, c: SearchCandidate) -> (p: int)
    requires
        layer_search::descending(s),
    ensures
        0 <= p <= s.len(),
        layer_search::placed_descending(s, c) == s.insert(p, c),
        layer_search::descending(layer_search::placed_descending(s, c)),
    decreases s.len(),
{
    if s.len() == 0 || layer_search::le(c, s.last()) {
        assert(s.push(c) =~= s.insert(s.len() as int, c));
        s.len() as int
    } else {
        let init = s.drop_last();
        let p = lemma_placed_descending(init, c);
        let t = layer_search::placed_descending(s, c);
        assert(t =~= s.insert(p, c));
        assert forall|i: int, j: int| #![trigger t[i], t[j]] 0 <= i <= j
            < t.len() implies layer_search::le(t[j], t[i]) by {
            let u = layer_search::placed_descending(init, c);
            if j < u.len() {
                assert(t[i] == u[i] && t[j] == u[j]);
            } else if i < u.len() {
                assert(t[i] == u[i]);
                assert(t[j] == s.last());
                if i != p {
                    let x = if i < p {
                        i
                    } else {
                        i - 1
                    };
                    assert(t[i] == s[x]);
                    assert(layer_search::le(s[s.len() - 1], s[x]));
                }
            }
        }
        p
    }
}

/// What a search keeps when one more element is taken up.
proof fn lemma_taken(
    task: StoredTask,
    loaded: Seq<Handle>,
    f: Frontier,
    sc: SearchCandidate,
    counted: bool,
)
    requires
        layer_search::ascending(f.w),
        layer_search::descending(f.c),
        are_candidates(task, loaded, f.w),
        are_candidates(task, loaded, f.c),
        is_candidate(task, loaded, sc),
    ensures
        ({
            let g = f.after_entry(sc, counted);
            &&& g.w.len() == f.w.len() + 1
            &&& g.c.len() == f.c.len() + 1
            &&& layer_search::ascending(g.w)
            &&& layer_search::descending(g.c)
            &&& are_candidates(task, loaded, g.w)
            &&& are_candidates(task, loaded, g.c)
            &&& g.c.contains(sc)
            &&& g.w.contains(sc)
            &&& forall|i: int| #![trigger f.c[i]] 0 <= i < f.c.len() ==> g.c.contains(f.c[i])
            &&& forall|i: int| #![trigger f.w[i]] 0 <= i < f.w.len() ==> g.w.contains(f.w[i])
            &&& forall|i: int|
                #![trigger g.w[i]]
                0 <= i < g.w.len() ==> g.w[i] == sc || f.w.contains(g.w[i])
        }),
{
    let g = f.after_entry(sc, counted);
    let p = lemma_placed_ascending(f.w, sc);
    let q = lemma_placed_descending(f.c, sc);
    assert(g.w[p] == sc);
    assert(g.c[q] == sc);
    assert forall|i: int| #![trigger f.w[i]] 0 <= i < f.w.len() implies g.w.contains(f.w[i]) by {
        assert(g.w[if i < p {
            i
        } else {
            i + 1
        }] == f.w[i]);
    }
    assert forall|i: int| #![trigger f.c[i]] 0 <= i < f.c.len() implies g.c.contains(f.c[i]) by {
        assert(g.c[if i < q {
            i
        } else {
            i + 1
        }] == f.c[i]);
    }
    assert forall|i: int| #![trigger g.w[i]] 0 <= i < g.w.len() implies (g.w[i] == sc
        || f.w.contains(g.w[i])) && is_candidate(task, loaded, g.w[i]) by {
        if i != p {
            let x = if i < p {
                i
            } else {
                i - 1
            };
            assert(g.w[i] == f.w[x]);
        }
    }
    assert forall|i: int| #![trigger g.c[i]] 0 <= i < g.c.len() implies is_candidate(
        task,
        loaded,
        g.c[i],
    ) by {
        if i != q {
            let x = if i < q {
                i
            } else {
                i - 1
            };
            assert(g.c[i] == f.c[x]);
        }
    }
}

/// What was found stays found, or is beyond what is found.
proof fn lemma_offer(
    task: StoredTask,
    loaded: Seq<Handle>,
    f: Frontier,
    sc: SearchCandidate,
    on_layer: bool,
    counted: bool,
)
    requires
        f.w.len() > 0,
        layer_search::ascending(f.w),
        layer_search::descending(f.c),
        are_candidates(task, loaded, f.w),
        are_candidates(task, loaded, f.c),
        on_layer ==> is_candidate(task, loaded, sc),
    ensures
        ({
            let g = f.after_offer(task.ef, sc, on_layer, counted);
            &&& g.w.len() > 0
            &&& layer_search::ascending(g.w)
            &&& layer_search::descending(g.c)
            &&& are_candidates(task, loaded, g.w)
            &&& are_candidates(task, loaded, g.c)
            &&& g.wlen >= f.wlen
            &&& f.wlen >= task.ef ==> g.w.last().distance <= f.w.last().distance
            &&& forall|i: int| #![trigger f.c[i]] 0 <= i < f.c.len() ==> g.c.contains(f.c[i])
            &&& forall|i: int|
                #![trigger f.w[i]]
                0 <= i < f.w.len() ==> g.w.contains(f.w[i]) || (g.wlen >= task.ef
                    && f.w[i].distance >= g.w.last().distance)
            &&& on_layer ==> g.w.contains(sc) || (g.wlen >= task.ef && sc.distance
                >= g.w.last().distance)
            &&& forall|i: int|
                #![trigger g.w[i]]
                0 <= i < g.w.len() ==> f.w.contains(g.w[i]) || (on_layer && g.w[i] == sc
                    && g.c.contains(sc))
        }),
{
    let g = f.after_offer(task.ef, sc, on_layer, counted);
    if f.wlen >= task.ef && sc.distance >= f.w.last().distance {
        assert forall|i: int| #![trigger g.w[i]] 0 <= i < g.w.len() implies f.w.contains(
            g.w[i],
        ) by {
            assert(f.w[i] == g.w[i]);
        }
        assert forall|i: int| #![trigger f.c[i]] 0 <= i < f.c.len() implies g.c.contains(
            f.c[i],
        ) by {
            assert(g.c[i] == f.c[i]);
        }
    } else if !on_layer {
    } else {
        lemma_taken(task, loaded, f, sc, counted);
        let taken = f.after_entry(sc, counted);
        let n = taken.w.len() - 1;
        if counted && taken.wlen > task.ef {
            assert(g.w == taken.w.drop_last());
            assert forall|x: SearchCandidate| #[trigger] taken.w.contains(x) implies g.w.contains(x)
                || x.distance >= g.w.last().distance by {
                let i = choose|i: int| 0 <= i < taken.w.len() && taken.w[i] == x;
                if i < n {
                    assert(g.w[i] == x);
                } else {
                    assert(layer_search::le(taken.w[n - 1], taken.w[n]));
                }
            }
            assert forall|i: int, j: int| #![trigger g.w[i], g.w[j]] 0 <= i <= j
                < g.w.len() implies layer_search::le(g.w[i], g.w[j]) by {
                assert(layer_search::le(taken.w[i], taken.w[j]));
            }
            assert forall|i: int| #![trigger g.w[i]] 0 <= i < g.w.len() implies is_candidate(
                task,
                loaded,
                g.w[i],
            ) && (f.w.contains(g.w[i]) || g.w[i] == sc) by {
                assert(g.w[i] == taken.w[i]);
            }
            assert forall|i: int| #![trigger f.w[i]] 0 <= i < f.w.len() implies g.w.contains(f.w[i])
                || f.w[i].distance >= g.w.last().distance by {
                assert(taken.w.contains(f.w[i]));
            }
            assert(g.w.contains(sc) || sc.distance >= g.w.last().distance);
            // The furthest of what is left is no further than the furthest before.
            assert(g.w.last() == taken.w[n - 1]);
            if f.wlen >= task.ef {
                lemma_last(f.w, sc, taken.w);
            }
        } else if f.wlen >= task.ef {
            lemma_last(f.w, sc, taken.w);
        }
    }
}

/// Of what was found and one that is nearer than the furthest, the furthest stays
/// the furthest.
proof fn lemma_last(w: Seq<SearchCandidate>, sc: SearchCandidate, taken: Seq<SearchCandidate>)
    requires
        w.len() > 0,
        layer_search::ascending(w),
        sc.distance < w.last().distance,
        taken == layer_search::placed_ascending(w, sc),
        layer_search::ascending(taken),
    ensures
        taken.last() == w.last(),
        taken.len() == w.len() + 1,
        taken[taken.len() - 2].distance <= w.last().distance,
{
    let p = lemma_placed_ascending(w, sc);
    assert(layer_search::le(taken[taken.len() - 2], taken[taken.len() - 1]));
}

proof fn lemma_holds_more(
    loaded: Seq<Handle>,
    more: Seq<Handle>,
    s: Seq<SearchCandidate>,
    t: Seq<SearchCandidate>,
    tid: ItemPointer,
)
    requires
        loaded.len() <= more.len(),
        forall|i: int| #![trigger more[i]] 0 <= i < loaded.len() ==> more[i] == loaded[i],
        forall|i: int| #![trigger s[i]] 0 <= i < s.len() ==> s[i].element < loaded.len(),
        holds(loaded, s, tid),
        forall|i: int| #![trigger s[i]] 0 <= i < s.len() ==> t.contains(s[i]),
    ensures
        holds(more, t, tid),
{
    let i = choose|i: int| 0 <= i < s.len() && loaded[(#[trigger] s[i]).element as int].tid == tid;
    assert(t.contains(s[i]));
    let j = choose|j: int| 0 <= j < t.len() && t[j] == s[i];
    assert(more[t[j].element as int].tid == tid);
}

/// The state of a search after an element was offered.
proof fn lemma_offered(
    task: StoredTask,
    seen: Set<u64>,
    p: StoredProgress,
    tid: ItemPointer,
    todo: Seq<ItemPointer>,
)
    requires
        is_sound(task, p),
        p.loaded.len() < usize::MAX,
        is_accounted(task, seen, p, todo.push(tid)),
        task.offered(p, tid) is Ok,
    ensures
        is_sound(task, task.offered(p, tid)->Ok_0),
        is_accounted(task, seen, task.offered(p, tid)->Ok_0, todo),
        task.offered(p, tid)->Ok_0.visited == p.visited,
        task.offered(p, tid)->Ok_0.loaded.len() <= p.loaded.len() + 1,
        forall|a: ItemPointer| #[trigger]
            is_settled(task, p, a) ==> is_settled(task, task.offered(p, tid)->Ok_0, a),
{
    let q = task.offered(p, tid)->Ok_0;
    let t = element_at(task.pages, tid);
    let d = (task.dist)(t.vector);
    let f = p.frontier;
    let g = q.frontier;
    assert(has_element(task.pages, tid));
    if q == p {
        assert(is_settled(task, q, tid));
    } else {
        let more = q.loaded;
        let h = more[p.loaded.len() as int];
        let sc = SearchCandidate {
            element: p.loaded.len() as usize,
            distance: d,
            key: types::tid_key(tid) as u64,
        };
        let on_layer = t.level >= task.lc;
        assert forall|i: int| #![trigger f.w[i]] 0 <= i < f.w.len() implies is_candidate(
            task,
            more,
            f.w[i],
        ) by {
            assert(is_candidate(task, p.loaded, f.w[i]));
        }
        assert forall|i: int| #![trigger f.c[i]] 0 <= i < f.c.len() implies is_candidate(
            task,
            more,
            f.c[i],
        ) by {
            assert(is_candidate(task, p.loaded, f.c[i]));
        }
        assert(h.tid == tid);
        assert(on_layer ==> is_candidate(task, more, sc));
        lemma_offer(
            task,
            more,
            f,
            sc,
            on_layer,
            !task.skipping || crate::hnswsq::vacuum::has_block(t.heaptid),
        );
        assert forall|a: ItemPointer| #[trigger] is_settled(task, p, a) implies is_settled(
            task,
            q,
            a,
        ) by {
            if holds(p.loaded, f.w, a) {
                let i = choose|i: int|
                    0 <= i < f.w.len() && p.loaded[(#[trigger] f.w[i]).element as int].tid == a;
                assert(is_candidate(task, p.loaded, f.w[i]));
                if g.w.contains(f.w[i]) {
                    let j = choose|j: int| 0 <= j < g.w.len() && g.w[j] == f.w[i];
                    assert(more[g.w[j].element as int].tid == a);
                    assert(holds(more, g.w, a));
                }
            }
        }
        assert(is_settled(task, q, tid)) by {
            if on_layer && g.w.contains(sc) {
                let j = choose|j: int| 0 <= j < g.w.len() && g.w[j] == sc;
                assert(more[g.w[j].element as int].tid == tid);
                assert(holds(more, g.w, tid));
            }
        }
        assert forall|i: int| #![trigger g.w[i]] 0 <= i < g.w.len() implies is_pending(q, g.w[i])
            || is_expanded(task, q, g.w[i]) by {
            if f.w.contains(g.w[i]) {
                let j = choose|j: int| 0 <= j < f.w.len() && f.w[j] == g.w[i];
                assert(is_candidate(task, p.loaded, f.w[j]));
                assert(more[g.w[i].element as int] == p.loaded[g.w[i].element as int]);
                if is_pending(p, f.w[j]) {
                    let x = choose|x: int|
                        0 <= x < f.c.len() && (#[trigger] f.c[x]).element == f.w[j].element;
                    assert(g.c.contains(f.c[x]));
                    let y = choose|y: int| 0 <= y < g.c.len() && g.c[y] == f.c[x];
                    assert(g.c[y].element == g.w[i].element);
                } else {
                    assert(is_expanded(task, p, f.w[j]));
                }
            } else {
                let y = choose|y: int| 0 <= y < g.c.len() && g.c[y] == sc;
                assert(g.c[y].element == g.w[i].element);
            }
        }
    }
    assert forall|a: ItemPointer|
        #![trigger q.visited.contains(types::tid_key(a) as u64)]
        q.visited.contains(types::tid_key(a) as u64) implies seen.contains(
        types::tid_key(a) as u64,
    ) || is_settled(task, q, a) || todo.contains(a) by {
        if !seen.contains(types::tid_key(a) as u64) && !is_settled(task, p, a) && a != tid {
            assert(todo.push(tid).contains(a));
            let i = choose|i: int| 0 <= i < todo.push(tid).len() && todo.push(tid)[i] == a;
            assert(todo[i] == a);
        }
    }
}

proof fn lemma_offered_each(
    task: StoredTask,
    seen: Set<u64>,
    p: StoredProgress,
    u: Seq<ItemPointer>,
    rest: Seq<ItemPointer>,
)
    requires
        is_sound(task, p),
        is_accounted(task, seen, p, u + rest),
        task.offered_each(p, u) is Ok,
        task.offered_each(p, u)->Ok_0.loaded.len() <= usize::MAX,
    ensures
        is_sound(task, task.offered_each(p, u)->Ok_0),
        is_accounted(task, seen, task.offered_each(p, u)->Ok_0, rest),
        task.offered_each(p, u)->Ok_0.visited == p.visited,
        p.loaded.len() <= task.offered_each(p, u)->Ok_0.loaded.len(),
        forall|a: ItemPointer| #[trigger]
            is_settled(task, p, a) ==> is_settled(task, task.offered_each(p, u)->Ok_0, a),
    decreases u.len(),
{
    if u.len() == 0 {
        assert(u + rest =~= rest);
    } else {
        let init = u.drop_last();
        let tid = u.last();
        let more = seq![tid] + rest;
        let q = task.offered_each(p, init)->Ok_0;
        let r = task.offered_each(p, u)->Ok_0;
        assert(task.offered(q, tid) == task.offered_each(p, u));
        assert(u + rest =~= init + more);
        assert(q.loaded.len() <= r.loaded.len());
        lemma_offered_each(task, seen, p, init, more);
        assert forall|a: ItemPointer| #[trigger] more.contains(a) implies rest.push(tid).contains(
            a,
        ) by {
            let i = choose|i: int| 0 <= i < more.len() && more[i] == a;
            if i == 0 {
                assert(rest.push(tid)[rest.len() as int] == a);
            } else {
                assert(rest.push(tid)[i - 1] == a);
            }
        }
        assert(is_accounted(task, seen, q, rest.push(tid)));
        if q.loaded.len() == usize::MAX {
            // Nothing more was loaded.
            assert(r == q);
            lemma_not_loaded(task, seen, q, tid, rest);
        } else {
            lemma_offered(task, seen, q, tid, rest);
        }
    }
}

/// The state after an element was offered that was not loaded.
proof fn lemma_not_loaded(
    task: StoredTask,
    seen: Set<u64>,
    p: StoredProgress,
    tid: ItemPointer,
    todo: Seq<ItemPointer>,
)
    requires
        is_sound(task, p),
        is_accounted(task, seen, p, todo.push(tid)),
        task.offered(p, tid) == Ok::<StoredProgress, WalkError>(p),
        p.loaded.len() <= usize::MAX,
    ensures
        is_accounted(task, seen, p, todo),
{
    let t = element_at(task.pages, tid);
    assert(has_element(task.pages, tid));
    assert(is_settled(task, p, tid)) by {
        let d = (task.dist)(t.vector);
        if !(!task.track && p.frontier.wlen >= task.ef && d >= p.frontier.w.last().distance) {
            assert(task.offered(p, tid)->Ok_0.loaded.len() == p.loaded.len() + 1);
            assert(false);
        }
    }
    assert forall|a: ItemPointer|
        #![trigger p.visited.contains(types::tid_key(a) as u64)]
        p.visited.contains(types::tid_key(a) as u64) implies seen.contains(
        types::tid_key(a) as u64,
    ) || is_settled(task, p, a) || todo.contains(a) by {
        if !seen.contains(types::tid_key(a) as u64) && !is_settled(task, p, a) {
            assert(todo.push(tid).contains(a));
            let i = choose|i: int| 0 <= i < todo.push(tid).len() && todo.push(tid)[i] == a;
            assert(todo[i] == a);
        }
    }
}

/// Each address is seen, or among those that are not seen.
proof fn lemma_unseen(tids: Seq<ItemPointer>, seen: Set<u64>, i: int)
    requires
        0 <= i < tids.len(),
    ensures
        seen.contains(types::tid_key(tids[i]) as u64) || tuple::unseen_tids(tids, seen).contains(
            tids[i],
        ),
    decreases tids.len(),
{
    let init = tids.drop_last();
    let before = tuple::unseen_tids(init, seen);
    let now = tuple::unseen_tids(tids, seen);
    if i < init.len() {
        lemma_unseen(init, seen, i);
        assert(init[i] == tids[i]);
        if before.contains(tids[i]) {
            let j = choose|j: int| 0 <= j < before.len() && before[j] == tids[i];
            assert(now[j] == tids[i]);
        }
    } else if now.len() > before.len() {
        assert(now[before.len() as int] == tids[i]);
    }
}

proof fn lemma_valid_prefix(tids: Seq<ItemPointer>, i: int)
    requires
        0 <= i < tids.len(),
        forall|j: int| #![trigger tids[j]] 0 <= j <= i ==> tids[j].block_number != 0xFFFF_FFFF,
    ensures
        i < tuple::valid_prefix(tids) <= tids.len(),
    decreases tids.len(),
{
    assert(tids[0].block_number != 0xFFFF_FFFF);
    if i > 0 {
        let rest = tids.skip(1);
        assert forall|j: int| #![trigger rest[j]] 0 <= j <= i - 1 implies rest[j].block_number
            != 0xFFFF_FFFF by {
            assert(rest[j] == tids[j + 1]);
        }
        lemma_valid_prefix(rest, i - 1);
    } else {
        lemma_prefix_bound(tids.skip(1));
    }
}

proof fn lemma_prefix_bound(tids: Seq<ItemPointer>)
    ensures
        0 <= tuple::valid_prefix(tids) <= tids.len(),
    decreases tids.len(),
{
    if tids.len() > 0 {
        lemma_prefix_bound(tids.skip(1));
    }
}

/// What an element names is among the neighbors that the search looks at.
proof fn lemma_named_is_neighbor(task: StoredTask, h: Handle, b: ItemPointer)
    requires
        is_current(task.pages, h),
        h.level >= task.lc,
        0 <= task.m,
        0 <= task.lc,
        names(task.pages, task.m, task.lc, h.tid, b),
    ensures
        task.neighbors(h) is Some,
        task.neighbors(h)->0.contains(b),
{
    let i = choose|i: int| #[trigger] names_at(task.pages, task.m, task.lc, h.tid, b, i);
    let e = element_at(task.pages, h.tid);
    let list = list_at(task.pages, h.tid);
    let start = (e.level - task.lc) * task.m;
    let size = if task.lc == 0 {
        2 * task.m
    } else {
        task.m
    };
    assert(0 <= start && start + size <= (e.level + 2) * task.m) by (nonlinear_arith)
        requires
            start == (e.level - task.lc) * task.m,
            0 <= task.lc <= e.level,
            0 <= task.m,
            size == 2 * task.m || size == task.m,
    ;
    let layer = list.tids@.subrange(start, start + size);
    assert(task.neighbors(h) == Some(layer.take(tuple::valid_prefix(layer))));
    assert forall|j: int| #![trigger layer[j]] 0 <= j <= i implies layer[j].block_number
        != 0xFFFF_FFFF by {
        assert(layer[j] == list.tids@[start + j]);
    }
    lemma_valid_prefix(layer, i);
    assert(layer[i] == b);
    assert(layer.take(tuple::valid_prefix(layer))[i] == b);
}

/// The state of a search after one more expansion.
proof fn lemma_expanded(task: StoredTask, seen: Set<u64>, p: StoredProgress)
    requires
        0 <= task.m,
        0 <= task.lc,
        is_sound(task, p),
        is_accounted(task, seen, p, Seq::empty()),
        !p.frontier.is_over(),
        task.expanded(p) is Ok,
        task.expanded(p)->Ok_0.loaded.len() <= usize::MAX,
    ensures
        is_sound(task, task.expanded(p)->Ok_0),
        is_accounted(task, seen, task.expanded(p)->Ok_0, Seq::empty()),
        p.loaded.len() <= task.expanded(p)->Ok_0.loaded.len(),
        forall|a: ItemPointer| #[trigger]
            is_settled(task, p, a) ==> is_settled(task, task.expanded(p)->Ok_0, a),
{
    let f = p.frontier;
    let x = f.c.last();
    let n = f.c.len() - 1;
    assert(is_candidate(task, p.loaded, f.c[n]));
    let h = p.loaded[x.element as int];
    let all = task.neighbors(h)->0;
    let u = tuple::unseen_tids(all, p.visited);
    let mid = StoredProgress {
        frontier: Frontier { c: f.c.drop_last(), ..f },
        visited: stored_search::marked(p.visited, u),
        loaded: p.loaded,
        tuples: p.tuples + u.len(),
    };
    assert(task.expanded(p) == task.offered_each(mid, u));
    assert(is_sound(task, mid)) by {
        let c = mid.frontier.c;
        assert forall|i: int, j: int| #![trigger c[i], c[j]] 0 <= i <= j
            < c.len() implies layer_search::le(c[j], c[i]) by {
            assert(layer_search::le(f.c[j], f.c[i]));
        }
        assert forall|i: int| #![trigger c[i]] 0 <= i < c.len() implies is_candidate(
            task,
            p.loaded,
            c[i],
        ) by {
            assert(c[i] == f.c[i]);
        }
    }
    assert(is_accounted(task, seen, mid, u + Seq::empty())) by {
        assert(u + Seq::empty() =~= u);
        assert forall|a: ItemPointer|
            #![trigger mid.visited.contains(types::tid_key(a) as u64)]
            mid.visited.contains(types::tid_key(a) as u64) implies seen.contains(
            types::tid_key(a) as u64,
        ) || is_settled(task, mid, a) || u.contains(a) by {
            let key = types::tid_key(a) as u64;
            if p.visited.contains(key) {
                if !seen.contains(key) {
                    assert(is_settled(task, p, a) || Seq::<ItemPointer>::empty().contains(a));
                    assert(is_settled(task, p, a));
                    assert(is_settled(task, mid, a));
                }
            } else {
                let i = choose|i: int| 0 <= i < u.len() && types::tid_key(#[trigger] u[i]) == key;
                types::law_tid_key_is_injective(u[i], a);
                assert(u[i] == a);
            }
        }
        assert forall|i: int| #![trigger mid.frontier.w[i]] 0 <= i
            < mid.frontier.w.len() implies is_pending(mid, mid.frontier.w[i]) || is_expanded(
            task,
            mid,
            mid.frontier.w[i],
        ) by {
            let y = f.w[i];
            if y.element == x.element {
                assert forall|b: ItemPointer| #[trigger]
                    names(
                        task.pages,
                        task.m,
                        task.lc,
                        mid.loaded[y.element as int].tid,
                        b,
                    ) implies mid.visited.contains(types::tid_key(b) as u64) by {
                    lemma_named_is_neighbor(task, h, b);
                    let j = choose|j: int| 0 <= j < all.len() && all[j] == b;
                    lemma_unseen(all, p.visited, j);
                    if u.contains(b) {
                        let k = choose|k: int| 0 <= k < u.len() && u[k] == b;
                        assert(types::tid_key(u[k]) == types::tid_key(b));
                    }
                }
            } else if is_pending(p, y) {
                let j = choose|j: int|
                    0 <= j < f.c.len() && (#[trigger] f.c[j]).element == y.element;
                assert(mid.frontier.c[j].element == y.element);
            } else {
                assert(is_expanded(task, p, y));
                assert(is_expanded(task, mid, y));
            }
        }
    }
    lemma_offered_each(task, seen, mid, u, Seq::empty());
    assert forall|a: ItemPointer| #[trigger] is_settled(task, p, a) implies is_settled(
        task,
        task.expanded(p)->Ok_0,
        a,
    ) by {
        assert(is_settled(task, mid, a));
    }
}

/// The state of a search after `k` expansions.
proof fn lemma_progress(task: StoredTask, seen: Set<u64>, start: StoredProgress, k: nat)
    requires
        0 <= task.m,
        0 <= task.lc,
        is_sound(task, start),
        is_accounted(task, seen, start, Seq::empty()),
        task.progress(start, k) is Ok,
        task.progress(start, k)->Ok_0.loaded.len() <= usize::MAX,
        forall|j: nat| j < k ==> #[trigger] task.goes_on(start, j),
    ensures
        is_sound(task, task.progress(start, k)->Ok_0),
        is_accounted(task, seen, task.progress(start, k)->Ok_0, Seq::empty()),
        forall|a: ItemPointer| #[trigger]
            is_settled(task, start, a) ==> is_settled(task, task.progress(start, k)->Ok_0, a),
    decreases k,
{
    if k > 0 {
        let j = (k - 1) as nat;
        assert(task.goes_on(start, j));
        let p = task.progress(start, j)->Ok_0;
        assert(task.progress(start, k) == task.expanded(p));
        lemma_loads_more(task, p);
        lemma_progress(task, seen, start, j);
        lemma_expanded(task, seen, p);
    }
}

pub proof fn lemma_loads_more(task: StoredTask, p: StoredProgress)
    requires
        task.expanded(p) is Ok,
    ensures
        p.loaded.len() <= task.expanded(p)->Ok_0.loaded.len(),
{
    let x = p.loaded[p.frontier.c.last().element as int];
    let u = tuple::unseen_tids(task.neighbors(x)->0, p.visited);
    let mid = StoredProgress {
        frontier: Frontier { c: p.frontier.c.drop_last(), ..p.frontier },
        visited: stored_search::marked(p.visited, u),
        loaded: p.loaded,
        tuples: p.tuples + u.len(),
    };
    assert(task.expanded(p) == task.offered_each(mid, u));
    lemma_each_loads_more(task, mid, u);
}

pub proof fn lemma_each_loads_more(task: StoredTask, p: StoredProgress, u: Seq<ItemPointer>)
    requires
        task.offered_each(p, u) is Ok,
    ensures
        p.loaded.len() <= task.offered_each(p, u)->Ok_0.loaded.len(),
    decreases u.len(),
{
    if u.len() > 0 {
        lemma_each_loads_more(task, p, u.drop_last());
    }
}

/// The state once the entry points were added.
proof fn lemma_entered(task: StoredTask, loaded: Seq<Handle>, ep: Seq<SearchCandidate>)
    requires
        are_candidates(task, loaded, ep),
    ensures
        ({
            let f = task.entered(loaded, ep);
            &&& layer_search::ascending(f.w)
            &&& layer_search::descending(f.c)
            &&& are_candidates(task, loaded, f.w)
            &&& are_candidates(task, loaded, f.c)
            &&& f.w.len() == ep.len()
            &&& 0 <= f.wlen
            &&& !task.skipping ==> f.wlen == ep.len()
            &&& forall|i: int|
                #![trigger ep[i]]
                0 <= i < ep.len() ==> f.w.contains(ep[i]) && f.c.contains(ep[i])
            &&& forall|i: int| #![trigger f.w[i]] 0 <= i < f.w.len() ==> f.c.contains(f.w[i])
        }),
    decreases ep.len(),
{
    if ep.len() > 0 {
        let init = ep.drop_last();
        let sc = ep.last();
        assert forall|i: int| #![trigger init[i]] 0 <= i < init.len() implies is_candidate(
            task,
            loaded,
            init[i],
        ) by {
            assert(init[i] == ep[i]);
        }
        lemma_entered(task, loaded, init);
        let f = task.entered(loaded, init);
        let g = task.entered(loaded, ep);
        assert(ep[ep.len() - 1] == sc);
        lemma_taken(
            task,
            loaded,
            f,
            sc,
            !task.skipping || loaded[sc.element as int].has_row(),
        );
        assert forall|i: int| #![trigger ep[i]] 0 <= i < ep.len() implies g.w.contains(ep[i])
            && g.c.contains(ep[i]) by {
            if i < init.len() {
                assert(init[i] == ep[i]);
                let a = choose|a: int| 0 <= a < f.w.len() && f.w[a] == ep[i];
                assert(g.w.contains(f.w[a]));
                let b = choose|b: int| 0 <= b < f.c.len() && f.c[b] == ep[i];
                assert(g.c.contains(f.c[b]));
            }
        }
        assert forall|i: int| #![trigger g.w[i]] 0 <= i < g.w.len() implies g.c.contains(
            g.w[i],
        ) by {
            if g.w[i] != sc {
                let a = choose|a: int| 0 <= a < f.w.len() && f.w[a] == g.w[i];
                assert(f.c.contains(f.w[a]));
                let b = choose|b: int| 0 <= b < f.c.len() && f.c[b] == f.w[a];
                assert(g.c.contains(f.c[b]));
            }
        }
    }
}

/// How many were found, where all of them count: as many as were counted, up to
/// as many as are asked for; and no more than that or than there are entry
/// points.
spec fn has_lengths(task: StoredTask, n: int, f: Frontier) -> bool {
    !task.skipping ==> {
        &&& f.w.len() <= f.wlen
        &&& f.w.len() == f.wlen || f.w.len() >= task.ef
        &&& f.w.len() <= task.ef || f.w.len() <= n
    }
}

proof fn lemma_placed_len(s: Seq<SearchCandidate>, c: SearchCandidate)
    ensures
        layer_search::placed_ascending(s, c).len() == s.len() + 1,
    decreases s.len(),
{
    if s.len() > 0 {
        lemma_placed_len(s.drop_last(), c);
    }
}

proof fn lemma_each_has_lengths(task: StoredTask, n: int, p: StoredProgress, u: Seq<ItemPointer>)
    requires
        has_lengths(task, n, p.frontier),
        task.offered_each(p, u) is Ok,
    ensures
        has_lengths(task, n, task.offered_each(p, u)->Ok_0.frontier),
    decreases u.len(),
{
    if u.len() > 0 {
        lemma_each_has_lengths(task, n, p, u.drop_last());
        let q = task.offered_each(p, u.drop_last())->Ok_0;
        assert(task.offered(q, u.last()) == task.offered_each(p, u));
        let t = element_at(task.pages, u.last());
        lemma_placed_len(
            q.frontier.w,
            SearchCandidate {
                element: q.loaded.len() as usize,
                distance: (task.dist)(t.vector),
                key: types::tid_key(u.last()) as u64,
            },
        );
    }
}

proof fn lemma_progress_has_lengths(task: StoredTask, n: int, start: StoredProgress, k: nat)
    requires
        has_lengths(task, n, start.frontier),
        task.progress(start, k) is Ok,
    ensures
        has_lengths(task, n, task.progress(start, k)->Ok_0.frontier),
    decreases k,
{
    if k > 0 {
        let p = task.progress(start, (k - 1) as nat)->Ok_0;
        lemma_progress_has_lengths(task, n, start, (k - 1) as nat);
        let x = p.loaded[p.frontier.c.last().element as int];
        let u = tuple::unseen_tids(task.neighbors(x)->0, p.visited);
        let mid = StoredProgress {
            frontier: Frontier { c: p.frontier.c.drop_last(), ..p.frontier },
            visited: stored_search::marked(p.visited, u),
            loaded: p.loaded,
            tuples: p.tuples + u.len(),
        };
        assert(task.expanded(p) == task.offered_each(mid, u));
        lemma_each_has_lengths(task, n, mid, u);
    }
}

/// How many of the candidates have a row.
pub open spec fn rows(loaded: Seq<Handle>, s: Seq<SearchCandidate>) -> int
    decreases s.len(),
{
    if s.len() == 0 {
        0
    } else {
        rows(loaded, s.drop_last()) + if loaded[s.last().element as int].row is Some {
            1int
        } else {
            0
        }
    }
}

/// Where only candidates with a row count, as many were found as were counted, or
/// as are asked for.
spec fn has_rows(task: StoredTask, loaded: Seq<Handle>, f: Frontier) -> bool {
    task.skipping ==> {
        &&& are_within(loaded, f.w)
        &&& rows(loaded, f.w) >= f.wlen || rows(loaded, f.w) >= task.ef
    }
}

spec fn are_within(loaded: Seq<Handle>, s: Seq<SearchCandidate>) -> bool {
    forall|i: int| #![trigger s[i]] 0 <= i < s.len() ==> s[i].element < loaded.len()
}

proof fn lemma_rows_placed(loaded: Seq<Handle>, s: Seq<SearchCandidate>, c: SearchCandidate)
    requires
        are_within(loaded, s),
        c.element < loaded.len(),
    ensures
        are_within(loaded, layer_search::placed_ascending(s, c)),
        rows(loaded, layer_search::placed_ascending(s, c)) == rows(loaded, s)
            + if loaded[c.element as int].row is Some {
            1int
        } else {
            0
        },
    decreases s.len(),
{
    let t = layer_search::placed_ascending(s, c);
    if s.len() == 0 || layer_search::le(s.last(), c) {
        assert(t.drop_last() =~= s);
    } else {
        lemma_rows_placed(loaded, s.drop_last(), c);
        assert(t.drop_last() =~= layer_search::placed_ascending(s.drop_last(), c));
        assert forall|i: int| #![trigger t[i]] 0 <= i < t.len() implies t[i].element
            < loaded.len() by {
            if i < t.len() - 1 {
                assert(t[i] == t.drop_last()[i]);
            } else {
                assert(t[i] == s[s.len() - 1]);
            }
        }
    }
}

proof fn lemma_rows_of_more(loaded: Seq<Handle>, h: Handle, s: Seq<SearchCandidate>)
    requires
        are_within(loaded, s),
    ensures
        are_within(loaded.push(h), s),
        rows(loaded.push(h), s) == rows(loaded, s),
    decreases s.len(),
{
    if s.len() > 0 {
        let init = s.drop_last();
        assert forall|i: int| #![trigger init[i]] 0 <= i < init.len() implies init[i].element
            < loaded.len() by {
            assert(init[i] == s[i]);
        }
        lemma_rows_of_more(loaded, h, init);
        assert(s[s.len() - 1].element < loaded.len());
    }
}

proof fn lemma_rows_of_two(loaded: Seq<Handle>, a: Seq<SearchCandidate>, b: Seq<SearchCandidate>)
    ensures
        rows(loaded, a + b) == rows(loaded, a) + rows(loaded, b),
    decreases b.len(),
{
    if b.len() == 0 {
        assert(a + b =~= a);
    } else {
        assert((a + b).drop_last() =~= a + b.drop_last());
        lemma_rows_of_two(loaded, a, b.drop_last());
    }
}

proof fn lemma_rows_reversed(loaded: Seq<Handle>, s: Seq<SearchCandidate>)
    ensures
        rows(loaded, s.reverse()) == rows(loaded, s),
    decreases s.len(),
{
    if s.len() > 0 {
        let last = seq![s.last()];
        assert(s.reverse() =~= last + s.drop_last().reverse());
        lemma_rows_of_two(loaded, last, s.drop_last().reverse());
        lemma_rows_reversed(loaded, s.drop_last());
        assert(last.drop_last() =~= Seq::empty());
        assert(rows(loaded, last.drop_last()) == 0);
    } else {
        assert(s.reverse() =~= s);
    }
}

proof fn lemma_offered_has_rows(task: StoredTask, p: StoredProgress, tid: ItemPointer)
    requires
        has_rows(task, p.loaded, p.frontier),
        task.offered(p, tid) is Ok,
        task.offered(p, tid)->Ok_0.loaded.len() <= usize::MAX,
    ensures
        has_rows(task, task.offered(p, tid)->Ok_0.loaded, task.offered(p, tid)->Ok_0.frontier),
{
    let q = task.offered(p, tid)->Ok_0;
    if task.skipping && q != p {
        let t = element_at(task.pages, tid);
        let h = stored_search::handle_at(tid, t, task.load_vec);
        let sc = SearchCandidate {
            element: p.loaded.len() as usize,
            distance: (task.dist)(t.vector),
            key: types::tid_key(tid) as u64,
        };
        let f = p.frontier;
        assert(q.loaded == p.loaded.push(h));
        lemma_rows_of_more(p.loaded, h, f.w);
        lemma_rows_placed(q.loaded, f.w, sc);
        assert(q.loaded[sc.element as int] == h);
        let taken = layer_search::placed_ascending(f.w, sc);
        lemma_placed_len(f.w, sc);
        let less = taken.drop_last();
        assert forall|i: int| #![trigger less[i]] 0 <= i < less.len() implies less[i].element
            < q.loaded.len() by {
            assert(less[i] == taken[i]);
        }
    }
}

proof fn lemma_each_has_rows(task: StoredTask, p: StoredProgress, u: Seq<ItemPointer>)
    requires
        has_rows(task, p.loaded, p.frontier),
        task.offered_each(p, u) is Ok,
        task.offered_each(p, u)->Ok_0.loaded.len() <= usize::MAX,
    ensures
        has_rows(
            task,
            task.offered_each(p, u)->Ok_0.loaded,
            task.offered_each(p, u)->Ok_0.frontier,
        ),
    decreases u.len(),
{
    if u.len() > 0 {
        let q = task.offered_each(p, u.drop_last())->Ok_0;
        assert(task.offered(q, u.last()) == task.offered_each(p, u));
        assert(q.loaded.len() <= task.offered(q, u.last())->Ok_0.loaded.len());
        lemma_each_has_rows(task, p, u.drop_last());
        lemma_offered_has_rows(task, q, u.last());
    }
}

proof fn lemma_progress_has_rows(task: StoredTask, start: StoredProgress, k: nat)
    requires
        has_rows(task, start.loaded, start.frontier),
        task.progress(start, k) is Ok,
        task.progress(start, k)->Ok_0.loaded.len() <= usize::MAX,
    ensures
        has_rows(
            task,
            task.progress(start, k)->Ok_0.loaded,
            task.progress(start, k)->Ok_0.frontier,
        ),
    decreases k,
{
    if k > 0 {
        let p = task.progress(start, (k - 1) as nat)->Ok_0;
        assert(task.progress(start, k) == task.expanded(p));
        lemma_loads_more(task, p);
        lemma_progress_has_rows(task, start, (k - 1) as nat);
        let x = p.loaded[p.frontier.c.last().element as int];
        let u = tuple::unseen_tids(task.neighbors(x)->0, p.visited);
        let mid = StoredProgress {
            frontier: Frontier { c: p.frontier.c.drop_last(), ..p.frontier },
            visited: stored_search::marked(p.visited, u),
            loaded: p.loaded,
            tuples: p.tuples + u.len(),
        };
        assert(task.expanded(p) == task.offered_each(mid, u));
        lemma_each_has_rows(task, mid, u);
    }
}

proof fn lemma_entered_has_rows(task: StoredTask, loaded: Seq<Handle>, ep: Seq<SearchCandidate>)
    requires
        task.skipping,
        are_within(loaded, ep),
    ensures
        are_within(loaded, task.entered(loaded, ep).w),
        rows(loaded, task.entered(loaded, ep).w) == task.entered(loaded, ep).wlen,
    decreases ep.len(),
{
    if ep.len() > 0 {
        let init = ep.drop_last();
        assert forall|i: int| #![trigger init[i]] 0 <= i < init.len() implies init[i].element
            < loaded.len() by {
            assert(init[i] == ep[i]);
        }
        lemma_entered_has_rows(task, loaded, init);
        assert(ep[ep.len() - 1].element < loaded.len());
        lemma_rows_placed(loaded, task.entered(loaded, init).w, ep.last());
    }
}

/// Whether the results hold the element at an address, or as many as were asked
/// for and it is no nearer than any of them. Where elements without a row are
/// passed over, they do not count.
pub open spec fn is_found_or_beyond(
    task: StoredTask,
    loaded: Seq<Handle>,
    w: Seq<SearchCandidate>,
    tid: ItemPointer,
) -> bool {
    let enough = if task.skipping {
        rows(loaded, w) >= task.ef
    } else {
        w.len() >= task.ef
    };
    holds(loaded, w, tid) || (enough && forall|i: int|
        #![trigger w[i]]
        0 <= i < w.len() ==> (task.dist)(element_at(task.pages, tid).vector) >= w[i].distance)
}

/// The results of a search from the entry points `ep`, in the state that it ends
/// in.
proof fn lemma_at_the_end(
    task: StoredTask,
    loaded0: Seq<Handle>,
    ep: Seq<SearchCandidate>,
    seen: Set<u64>,
    init_visited: bool,
    r: StoredResult,
    after: Set<u64>,
    loaded: Seq<Handle>,
) -> (p: StoredProgress)
    requires
        0 <= task.m,
        0 <= task.lc,
        ep.len() > 0,
        loaded.len() <= usize::MAX,
        are_candidates(task, loaded0, ep),
        stored_search::is_end_of_search(
            task,
            task.start(loaded0, ep, seen, init_visited),
            r,
            after,
            loaded,
        ),
    ensures
        is_sound(task, p),
        p.loaded == loaded,
        p.visited == after,
        r.w@ == p.frontier.w.reverse(),
        p.frontier.is_over(),
        is_accounted(
            task,
            task.start(loaded0, ep, seen, init_visited).visited,
            p,
            Seq::empty(),
        ),
        has_lengths(task, ep.len() as int, p.frontier),
        has_rows(task, p.loaded, p.frontier),
        forall|i: int|
            #![trigger ep[i]]
            0 <= i < ep.len() ==> is_settled(task, p, loaded0[ep[i].element as int].tid),
{
    let start = task.start(loaded0, ep, seen, init_visited);
    lemma_entered(task, loaded0, ep);
    let f = start.frontier;
    assert(is_sound(task, start));
    assert(is_accounted(task, start.visited, start, Seq::empty())) by {
        assert forall|i: int| #![trigger f.w[i]] 0 <= i < f.w.len() implies is_pending(
            start,
            f.w[i],
        ) by {
            assert(f.c.contains(f.w[i]));
            let j = choose|j: int| 0 <= j < f.c.len() && f.c[j] == f.w[i];
            assert(f.c[j].element == f.w[i].element);
        }
    }
    let k = choose|k: nat|
        {
            &&& #[trigger] task.ends_after(start, k)
            &&& r.w@ == task.progress(start, k)->Ok_0.frontier.w.reverse()
            &&& task.track ==> r.discarded@ == task.progress(start, k)->Ok_0.frontier.discarded
            &&& !task.track ==> r.discarded@.len() == 0
            &&& r.tuples == task.progress(start, k)->Ok_0.tuples
            &&& after == task.progress(start, k)->Ok_0.visited
            &&& loaded == task.progress(start, k)->Ok_0.loaded
        };
    let p = task.progress(start, k)->Ok_0;
    lemma_progress(task, start.visited, start, k);
    lemma_progress_has_lengths(task, ep.len() as int, start, k);
    if task.skipping {
        assert(are_within(loaded0, ep)) by {
            assert forall|i: int| #![trigger ep[i]] 0 <= i < ep.len() implies ep[i].element
                < loaded0.len() by {
                assert(is_candidate(task, loaded0, ep[i]));
            }
        }
        lemma_entered_has_rows(task, loaded0, ep);
    }
    lemma_progress_has_rows(task, start, k);
    assert forall|i: int| #![trigger ep[i]] 0 <= i < ep.len() implies is_settled(
        task,
        p,
        loaded0[ep[i].element as int].tid,
    ) by {
        assert(is_candidate(task, loaded0, ep[i]));
        let j = choose|j: int| 0 <= j < f.w.len() && f.w[j] == ep[i];
        assert(loaded0[f.w[j].element as int].tid == loaded0[ep[i].element as int].tid);
        assert(holds(loaded0, f.w, loaded0[ep[i].element as int].tid));
        assert(is_settled(task, start, loaded0[ep[i].element as int].tid));
    }
    p
}

/// What is settled at the end was found, is beyond, or is not on the layer.
proof fn lemma_settled_at_the_end(
    task: StoredTask,
    p: StoredProgress,
    n: int,
    w: Seq<SearchCandidate>,
    tid: ItemPointer,
)
    requires
        is_sound(task, p),
        has_lengths(task, n, p.frontier),
        has_rows(task, p.loaded, p.frontier),
        w == p.frontier.w.reverse(),
        is_settled(task, p, tid),
    ensures
        has_element(task.pages, tid),
        element_at(task.pages, tid).level >= task.lc ==> is_found_or_beyond(
            task,
            p.loaded,
            w,
            tid,
        ),
{
    let f = p.frontier;
    if element_at(task.pages, tid).level >= task.lc {
        if holds(p.loaded, f.w, tid) {
            let i = choose|i: int|
                0 <= i < f.w.len() && p.loaded[(#[trigger] f.w[i]).element as int].tid == tid;
            assert(w[f.w.len() - 1 - i] == f.w[i]);
            assert(holds(p.loaded, w, tid));
        } else {
            lemma_rows_reversed(p.loaded, f.w);
            assert forall|i: int| #![trigger w[i]] 0 <= i < w.len() implies (task.dist)(
                element_at(task.pages, tid).vector,
            ) >= w[i].distance by {
                assert(w[i] == f.w[f.w.len() - 1 - i]);
                assert(layer_search::le(f.w[f.w.len() - 1 - i], f.w[f.w.len() - 1]));
            }
        }
    }
}

/// At the end everything that was found was expanded.
proof fn lemma_all_expanded(task: StoredTask, seen: Set<u64>, p: StoredProgress, i: int)
    requires
        is_sound(task, p),
        is_accounted(task, seen, p, Seq::empty()),
        p.frontier.is_over(),
        0 <= i < p.frontier.w.len(),
    ensures
        is_expanded(task, p, p.frontier.w[i]),
{
    let f = p.frontier;
    if is_pending(p, f.w[i]) {
        let j = choose|j: int| 0 <= j < f.c.len() && (#[trigger] f.c[j]).element == f.w[i].element;
        assert(is_candidate(task, p.loaded, f.c[j]));
        assert(is_candidate(task, p.loaded, f.w[i]));
        assert(layer_search::le(f.c[f.c.len() - 1], f.c[j]));
        assert(layer_search::le(f.w[i], f.w[f.w.len() - 1]));
    }
}

/// The results of a search are elements of the layer as they are stored, each at
/// its distance, furthest first; where all of them count there are no more than
/// were asked for, or than there are entry points.
pub proof fn law_stored_results_are_elements_of_the_layer(
    task: StoredTask,
    loaded0: Seq<Handle>,
    ep: Seq<SearchCandidate>,
    seen: Set<u64>,
    init_visited: bool,
    r: StoredResult,
    after: Set<u64>,
    loaded: Seq<Handle>,
    i: int,
)
    requires
        0 <= task.m,
        0 <= task.lc,
        ep.len() > 0,
        loaded.len() <= usize::MAX,
        forall|j: int| #![trigger ep[j]] 0 <= j < ep.len() ==> is_candidate(task, loaded0, ep[j]),
        stored_search::is_end_of_search(
            task,
            task.start(loaded0, ep, seen, init_visited),
            r,
            after,
            loaded,
        ),
        0 <= i < r.w@.len(),
    ensures
        r.w@[i].element < loaded.len(),
        has_element(task.pages, loaded[r.w@[i].element as int].tid),
        element_at(task.pages, loaded[r.w@[i].element as int].tid).level >= task.lc,
        r.w@[i].distance == (task.dist)(
            element_at(task.pages, loaded[r.w@[i].element as int].tid).vector,
        ),
        forall|j: int|
            #![trigger r.w@[j]]
            0 <= j < i ==> r.w@[j].distance >= r.w@[i].distance,
        !task.skipping ==> r.w@.len() <= task.ef || r.w@.len() <= ep.len(),
{
    let p = lemma_at_the_end(task, loaded0, ep, seen, init_visited, r, after, loaded);
    let w = p.frontier.w;
    let n = w.len() - 1;
    assert(r.w@[i] == w[n - i]);
    assert(is_candidate(task, loaded, w[n - i]));
    assert forall|j: int| #![trigger r.w@[j]] 0 <= j < i implies r.w@[j].distance
        >= r.w@[i].distance by {
        assert(r.w@[j] == w[n - j]);
        assert(layer_search::le(w[n - i], w[n - j]));
    }
}

/// No entry point would be a better result than those of a search.
pub proof fn law_stored_search_considers_its_entry_points(
    task: StoredTask,
    loaded0: Seq<Handle>,
    ep: Seq<SearchCandidate>,
    seen: Set<u64>,
    init_visited: bool,
    r: StoredResult,
    after: Set<u64>,
    loaded: Seq<Handle>,
    i: int,
)
    requires
        0 <= task.m,
        0 <= task.lc,
        loaded.len() <= usize::MAX,
        forall|j: int| #![trigger ep[j]] 0 <= j < ep.len() ==> is_candidate(task, loaded0, ep[j]),
        stored_search::is_end_of_search(
            task,
            task.start(loaded0, ep, seen, init_visited),
            r,
            after,
            loaded,
        ),
        0 <= i < ep.len(),
    ensures
        r.w@.len() > 0,
        is_found_or_beyond(task, loaded, r.w@, loaded0[ep[i].element as int].tid),
{
    let p = lemma_at_the_end(task, loaded0, ep, seen, init_visited, r, after, loaded);
    let tid = loaded0[ep[i].element as int].tid;
    assert(is_candidate(task, loaded0, ep[i]));
    assert(is_settled(task, p, tid));
    lemma_settled_at_the_end(task, p, ep.len() as int, r.w@, tid);
}

/// What a result of a search names as its neighbor at the layer, whatever the
/// result's own level, is a stored element; and if it is on the layer and was
/// not seen before, it is a result too, or would be no better than any of as many
/// as were asked for.
pub proof fn law_stored_search_follows_the_lists(
    task: StoredTask,
    loaded0: Seq<Handle>,
    ep: Seq<SearchCandidate>,
    seen: Set<u64>,
    init_visited: bool,
    r: StoredResult,
    after: Set<u64>,
    loaded: Seq<Handle>,
    i: int,
    b: ItemPointer,
)
    requires
        0 <= task.m,
        0 <= task.lc,
        ep.len() > 0,
        loaded.len() <= usize::MAX,
        forall|j: int| #![trigger ep[j]] 0 <= j < ep.len() ==> is_candidate(task, loaded0, ep[j]),
        stored_search::is_end_of_search(
            task,
            task.start(loaded0, ep, seen, init_visited),
            r,
            after,
            loaded,
        ),
        0 <= i < r.w@.len(),
        names(task.pages, task.m, task.lc, loaded[r.w@[i].element as int].tid, b),
        init_visited || !seen.contains(types::tid_key(b) as u64),
    ensures
        after.contains(types::tid_key(b) as u64),
        has_element(task.pages, b),
        element_at(task.pages, b).level >= task.lc ==> is_found_or_beyond(task, loaded, r.w@, b),
{
    let p = lemma_at_the_end(task, loaded0, ep, seen, init_visited, r, after, loaded);
    let start = task.start(loaded0, ep, seen, init_visited);
    let w = p.frontier.w;
    let n = w.len() - 1;
    assert(r.w@[i] == w[n - i]);
    lemma_all_expanded(task, start.visited, p, n - i);
    assert(p.visited.contains(types::tid_key(b) as u64));
    if start.visited.contains(types::tid_key(b) as u64) {
        assert(init_visited);
        let j = choose|j: int|
            0 <= j < ep.len() && types::tid_key(loaded0[(#[trigger] ep[j]).element as int].tid)
                == types::tid_key(b) as u64;
        types::law_tid_key_is_injective(loaded0[ep[j].element as int].tid, b);
        assert(is_settled(task, p, b));
    } else {
        assert(is_settled(task, p, b) || Seq::<ItemPointer>::empty().contains(b));
    }
    lemma_settled_at_the_end(task, p, ep.len() as int, r.w@, b);
}

/// A search that finds fewer than it was asked for, not counting elements without
/// a row where it passes them over, has found all that can be reached on the layer:
/// every element of the layer at the end of a path of stored neighbor lists from
/// an entry point.
pub proof fn law_short_stored_results_are_complete(
    task: StoredTask,
    loaded0: Seq<Handle>,
    ep: Seq<SearchCandidate>,
    r: StoredResult,
    after: Set<u64>,
    loaded: Seq<Handle>,
    path: Seq<ItemPointer>,
)
    requires
        0 <= task.m,
        0 <= task.lc,
        loaded.len() <= usize::MAX,
        forall|j: int| #![trigger ep[j]] 0 <= j < ep.len() ==> is_candidate(task, loaded0, ep[j]),
        stored_search::is_end_of_search(
            task,
            task.start(loaded0, ep, Set::empty(), true),
            r,
            after,
            loaded,
        ),
        if task.skipping {
            rows(loaded, r.w@) < task.ef
        } else {
            r.w@.len() < task.ef
        },
        path.len() > 0,
        exists|i: int|
            0 <= i < ep.len() && loaded0[(#[trigger] ep[i]).element as int].tid == path[0],
        forall|k: int|
            #![trigger path[k]]
            0 <= k < path.len() - 1 ==> names(
                task.pages,
                task.m,
                task.lc,
                path[k],
                path[k + 1],
            ),
        has_element(task.pages, path.last()) ==> element_at(task.pages, path.last()).level
            >= task.lc,
    ensures
        has_element(task.pages, path.last()),
        exists|i: int|
            0 <= i < r.w@.len() && loaded[(#[trigger] r.w@[i]).element as int].tid == path.last(),
    decreases path.len(),
{
    if path.len() == 1 {
        let i = choose|i: int|
            0 <= i < ep.len() && loaded0[(#[trigger] ep[i]).element as int].tid == path[0];
        law_stored_search_considers_its_entry_points(
            task,
            loaded0,
            ep,
            Set::empty(),
            true,
            r,
            after,
            loaded,
            i,
        );
        assert(is_candidate(task, loaded0, ep[i]));
        assert(holds(loaded, r.w@, path.last()));
    } else {
        let init = path.drop_last();
        let a = path[path.len() - 2];
        let b = path.last();
        assert(names(task.pages, task.m, task.lc, a, b));
        let x = choose|x: int| #[trigger] names_at(task.pages, task.m, task.lc, a, b, x);
        assert forall|k: int| #![trigger init[k]] 0 <= k < init.len() - 1 implies names(
            task.pages,
            task.m,
            task.lc,
            init[k],
            init[k + 1],
        ) by {
            assert(init[k] == path[k] && init[k + 1] == path[k + 1]);
        }
        assert(init[0] == path[0]);
        assert(init.last() == a);
        law_short_stored_results_are_complete(task, loaded0, ep, r, after, loaded, init);
        let i = choose|i: int|
            0 <= i < r.w@.len() && loaded[(#[trigger] r.w@[i]).element as int].tid == a;
        law_stored_search_follows_the_lists(
            task,
            loaded0,
            ep,
            Set::empty(),
            true,
            r,
            after,
            loaded,
            i,
            b,
        );
        assert(holds(loaded, r.w@, b));
    }
}

/// What a search has still to look at are elements of the layer as they are stored.
pub proof fn lemma_pending_are_current(
    task: StoredTask,
    loaded0: Seq<Handle>,
    ep: Seq<SearchCandidate>,
    seen: Set<u64>,
    init_visited: bool,
    k: nat,
)
    requires
        0 <= task.m,
        0 <= task.lc,
        ep.len() > 0,
        forall|j: int| #![trigger ep[j]] 0 <= j < ep.len() ==> is_candidate(task, loaded0, ep[j]),
        task.progress(task.start(loaded0, ep, seen, init_visited), k) is Ok,
        task.progress(
            task.start(loaded0, ep, seen, init_visited),
            k,
        )->Ok_0.loaded.len() <= usize::MAX,
        forall|j: nat|
            j < k ==> #[trigger] task.goes_on(task.start(loaded0, ep, seen, init_visited), j),
    ensures
        ({
            let p = task.progress(task.start(loaded0, ep, seen, init_visited), k)->Ok_0;
            &&& p.frontier.w.len() > 0
            &&& forall|i: int|
                #![trigger p.frontier.c[i]]
                0 <= i < p.frontier.c.len() ==> p.frontier.c[i].element < p.loaded.len()
                    && is_current(task.pages, p.loaded[p.frontier.c[i].element as int])
                    && p.loaded[p.frontier.c[i].element as int].level >= task.lc
        }),
{
    let start = task.start(loaded0, ep, seen, init_visited);
    lemma_entered(task, loaded0, ep);
    let f = start.frontier;
    assert(is_sound(task, start));
    assert(is_accounted(task, start.visited, start, Seq::empty())) by {
        assert forall|i: int| #![trigger f.w[i]] 0 <= i < f.w.len() implies is_pending(
            start,
            f.w[i],
        ) by {
            assert(f.c.contains(f.w[i]));
            let j = choose|j: int| 0 <= j < f.c.len() && f.c[j] == f.w[i];
            assert(f.c[j].element == f.w[i].element);
        }
    }
    lemma_progress(task, start.visited, start, k);
    let p = task.progress(start, k)->Ok_0;
    assert forall|i: int| #![trigger p.frontier.c[i]] 0 <= i < p.frontier.c.len() implies p.frontier.c[i].element
        < p.loaded.len() && is_current(task.pages, p.loaded[p.frontier.c[i].element as int])
        && p.loaded[p.frontier.c[i].element as int].level >= task.lc by {
        assert(is_candidate(task, p.loaded, p.frontier.c[i]));
    }
}

/// What is read of a list as the neighbors at the layer, the element names.
pub proof fn lemma_neighbor_is_named(task: StoredTask, h: Handle, i: int)
    requires
        is_current(task.pages, h),
        h.level >= task.lc,
        0 <= task.m,
        0 <= task.lc,
        task.neighbors(h) is Some,
        0 <= i < task.neighbors(h)->0.len(),
    ensures
        names(task.pages, task.m, task.lc, h.tid, task.neighbors(h)->0[i]),
{
    let e = element_at(task.pages, h.tid);
    let list = list_at(task.pages, h.tid);
    let start = (e.level - task.lc) * task.m;
    let size = if task.lc == 0 {
        2 * task.m
    } else {
        task.m
    };
    assert(0 <= start && start + size <= (e.level + 2) * task.m) by (nonlinear_arith)
        requires
            start == (e.level - task.lc) * task.m,
            0 <= task.lc <= e.level,
            0 <= task.m,
            size == 2 * task.m || size == task.m,
    ;
    let layer = list.tids@.subrange(start, start + size);
    assert(list.version == h.version && list.tids@.len() == (h.level + 2) * task.m);
    assert(task.neighbors(h) == Some(layer.take(tuple::valid_prefix(layer))));
    crate::hnswsq::list_laws::law_lists_end_at_the_first_gap(layer);
    let b = task.neighbors(h)->0[i];
    assert(b == layer[i]);
    assert forall|j: int| #![trigger list.tids@[start + j]] 0 <= j <= i implies list.tids@[start
        + j].block_number != 0xFFFF_FFFF by {
        assert(layer[j] == list.tids@[start + j]);
    }
    assert(names_at(task.pages, task.m, task.lc, h.tid, b, i));
}

} // verus!
