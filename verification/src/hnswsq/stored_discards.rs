//! What a search of a stored graph leaves out, and keeps for a search that goes on
//! from there.
use crate::hnswsq::layer_search;
use crate::hnswsq::layer_search::{Frontier, SearchCandidate};
use crate::hnswsq::skipping_laws::{lemma_placed_contains, lemma_push_contains};
use crate::hnswsq::stored_complete;
use crate::hnswsq::stored_search;
use crate::hnswsq::stored_search::{Handle, StoredProgress, StoredResult, StoredTask};
use crate::hnswsq::tuple;
use crate::hnswsq::types;
use crate::util::item_pointer::ItemPointer;
use vstd::prelude::*;

verus! {

spec fn are_within(loaded: Seq<Handle>, s: Seq<SearchCandidate>) -> bool {
    forall|x: SearchCandidate| #[trigger] s.contains(x) ==> x.element < loaded.len()
}

spec fn among(loaded: Seq<Handle>, s: Seq<SearchCandidate>, tid: ItemPointer) -> bool {
    exists|x: SearchCandidate| #[trigger] s.contains(x) && loaded[x.element as int].tid == tid
}

/// Whether the element at an address was found or left out.
spec fn is_kept(p: StoredProgress, tid: ItemPointer) -> bool {
    among(p.loaded, p.frontier.w, tid) || among(p.loaded, p.frontier.discarded, tid)
}

/// Whether an element was kept, or is not on the layer.
spec fn is_dealt_with(task: StoredTask, p: StoredProgress, tid: ItemPointer) -> bool {
    stored_complete::has_element(task.pages, tid) && (stored_complete::element_at(
        task.pages,
        tid,
    ).level < task.lc || is_kept(p, tid))
}

/// What was left out is no nearer than what was found, of which there is enough.
spec fn has_order(task: StoredTask, f: Frontier) -> bool {
    &&& f.w.len() > 0
    &&& layer_search::ascending(f.w)
    &&& f.discarded.len() > 0 ==> f.wlen >= task.ef
    &&& forall|x: SearchCandidate| #[trigger]
        f.discarded.contains(x) ==> x.distance >= f.w.last().distance
}

proof fn lemma_last_placed(s: Seq<SearchCandidate>, c: SearchCandidate)
    ensures
        layer_search::placed_ascending(s, c).len() == s.len() + 1,
        layer_search::placed_ascending(s, c).last() == if s.len() == 0 || layer_search::le(
            s.last(),
            c,
        ) {
            c
        } else {
            s.last()
        },
    decreases s.len(),
{
    if s.len() > 0 {
        lemma_last_placed(s.drop_last(), c);
    }
}

proof fn lemma_offer_has_order(
    task: StoredTask,
    f: Frontier,
    sc: SearchCandidate,
    on_layer: bool,
    counted: bool,
)
    requires
        has_order(task, f),
    ensures
        has_order(task, f.after_offer(task.ef, sc, on_layer, counted)),
{
    let g = f.after_offer(task.ef, sc, on_layer, counted);
    let t = layer_search::placed_ascending(f.w, sc);
    let _ = stored_complete::lemma_placed_ascending(f.w, sc);
    lemma_last_placed(f.w, sc);
    if !(f.wlen >= task.ef && sc.distance >= f.w.last().distance) && on_layer && counted && f.wlen
        + 1 > task.ef {
        assert(layer_search::le(t[t.len() - 2], t[t.len() - 1]));
        assert(g.w.last() == t[t.len() - 2]);
        assert(g.w.last().distance <= f.w.last().distance) by {
            if layer_search::le(f.w.last(), sc) {
                assert(t =~= f.w.push(sc));
            }
        }
    }
    assert forall|x: SearchCandidate| #[trigger] g.discarded.contains(x) implies x.distance
        >= g.w.last().distance by {
        lemma_push_contains(f.discarded, sc, x);
        lemma_push_contains(f.discarded, t.last(), x);
        if f.discarded.contains(x) {
            assert(f.discarded.len() > 0);
        }
    }
    if g.discarded.len() > 0 && f.discarded.len() == 0 {
        assert(g.wlen >= task.ef);
    }
}

proof fn lemma_offered_keeps(task: StoredTask, p: StoredProgress, tid: ItemPointer)
    requires
        task.track,
        are_within(p.loaded, p.frontier.w),
        are_within(p.loaded, p.frontier.discarded),
        has_order(task, p.frontier),
        task.offered(p, tid) is Ok,
        task.offered(p, tid)->Ok_0.loaded.len() <= usize::MAX,
    ensures
        ({
            let q = task.offered(p, tid)->Ok_0;
            &&& are_within(q.loaded, q.frontier.w)
            &&& are_within(q.loaded, q.frontier.discarded)
            &&& has_order(task, q.frontier)
            &&& p.loaded.len() <= q.loaded.len()
            &&& q.visited == p.visited
            &&& is_dealt_with(task, q, tid)
            &&& forall|b: ItemPointer| #[trigger] is_dealt_with(task, p, b) ==> is_dealt_with(task, q, b)
        }),
{
    let q = task.offered(p, tid)->Ok_0;
    let t = stored_complete::element_at(task.pages, tid);
    let h = stored_search::handle_at(tid, t, task.load_vec);
    let sc = SearchCandidate {
        element: p.loaded.len() as usize,
        distance: (task.dist)(t.vector),
        key: types::tid_key(tid) as u64,
    };
    let f = p.frontier;
    let g = q.frontier;
    let taken = layer_search::placed_ascending(f.w, sc);
    let less = taken.drop_last();
    lemma_last_placed(f.w, sc);
    assert(less.push(taken.last()) =~= taken);
    assert(q.loaded == p.loaded.push(h));
    lemma_offer_has_order(
        task,
        f,
        sc,
        t.level >= task.lc,
        !task.skipping || crate::hnswsq::vacuum::has_block(t.heaptid),
    );
    // Where each candidate is afterwards.
    assert forall|x: SearchCandidate|
        (f.w.contains(x) || f.discarded.contains(x)) implies #[trigger] g.w.contains(x)
        || g.discarded.contains(x) by {
        lemma_placed_contains(f.w, sc, x);
        lemma_push_contains(less, taken.last(), x);
        lemma_push_contains(f.discarded, sc, x);
        lemma_push_contains(f.discarded, taken.last(), x);
    }
    assert forall|x: SearchCandidate| #[trigger] g.w.contains(x) implies x.element
        < q.loaded.len() by {
        lemma_placed_contains(f.w, sc, x);
        lemma_push_contains(less, taken.last(), x);
    }
    assert forall|x: SearchCandidate| #[trigger] g.discarded.contains(x) implies x.element
        < q.loaded.len() by {
        lemma_push_contains(f.discarded, sc, x);
        lemma_push_contains(f.discarded, taken.last(), x);
        lemma_placed_contains(f.w, sc, taken.last());
        assert(taken.contains(taken[taken.len() - 1]));
    }
    assert(is_dealt_with(task, q, tid)) by {
        if t.level >= task.lc {
            lemma_placed_contains(f.w, sc, sc);
            lemma_push_contains(less, taken.last(), sc);
            lemma_push_contains(f.discarded, sc, sc);
            lemma_push_contains(f.discarded, taken.last(), sc);
            assert(q.loaded[sc.element as int].tid == tid);
            assert(g.w.contains(sc) || g.discarded.contains(sc));
        }
    }
    assert forall|b: ItemPointer| #[trigger] is_dealt_with(task, p, b) implies is_dealt_with(
        task,
        q,
        b,
    ) by {
        if stored_complete::element_at(task.pages, b).level >= task.lc {
            let x = if among(p.loaded, f.w, b) {
                choose|x: SearchCandidate| #[trigger]
                    f.w.contains(x) && p.loaded[x.element as int].tid == b
            } else {
                choose|x: SearchCandidate| #[trigger]
                    f.discarded.contains(x) && p.loaded[x.element as int].tid == b
            };
            assert(q.loaded[x.element as int] == p.loaded[x.element as int]);
            assert(g.w.contains(x) || g.discarded.contains(x));
        }
    }
}

spec fn is_tidy(task: StoredTask, p: StoredProgress) -> bool {
    &&& are_within(p.loaded, p.frontier.w)
    &&& are_within(p.loaded, p.frontier.discarded)
    &&& has_order(task, p.frontier)
}

proof fn lemma_each_keeps(task: StoredTask, p: StoredProgress, u: Seq<ItemPointer>)
    requires
        task.track,
        is_tidy(task, p),
        task.offered_each(p, u) is Ok,
        task.offered_each(p, u)->Ok_0.loaded.len() <= usize::MAX,
    ensures
        ({
            let q = task.offered_each(p, u)->Ok_0;
            &&& is_tidy(task, q)
            &&& q.visited == p.visited
            &&& forall|i: int|
                #![trigger u[i]]
                0 <= i < u.len() ==> is_dealt_with(task, q, u[i])
            &&& forall|b: ItemPointer| #[trigger] is_dealt_with(task, p, b) ==> is_dealt_with(task, q, b)
        }),
    decreases u.len(),
{
    if u.len() > 0 {
        let init = u.drop_last();
        let mid = task.offered_each(p, init)->Ok_0;
        let q = task.offered_each(p, u)->Ok_0;
        assert(task.offered(mid, u.last()) == task.offered_each(p, u));
        assert(mid.loaded.len() <= q.loaded.len());
        lemma_each_keeps(task, p, init);
        lemma_offered_keeps(task, mid, u.last());
        assert forall|i: int| #![trigger u[i]] 0 <= i < u.len() implies is_dealt_with(
            task,
            q,
            u[i],
        ) by {
            if i < init.len() {
                assert(is_dealt_with(task, mid, init[i]));
            }
        }
    }
}

/// Whether all that was visited, other than `seen`, was dealt with.
spec fn is_accounted(task: StoredTask, seen: Set<u64>, p: StoredProgress) -> bool {
    forall|a: ItemPointer|
        #![trigger p.visited.contains(types::tid_key(a) as u64)]
        p.visited.contains(types::tid_key(a) as u64) && !seen.contains(types::tid_key(a) as u64)
            ==> is_dealt_with(task, p, a)
}

proof fn lemma_progress_keeps(task: StoredTask, start: StoredProgress, k: nat)
    requires
        task.track,
        is_tidy(task, start),
        task.progress(start, k) is Ok,
        task.progress(start, k)->Ok_0.loaded.len() <= usize::MAX,
    ensures
        is_tidy(task, task.progress(start, k)->Ok_0),
        is_accounted(task, start.visited, task.progress(start, k)->Ok_0),
    decreases k,
{
    if k > 0 {
        let p = task.progress(start, (k - 1) as nat)->Ok_0;
        let q = task.progress(start, k)->Ok_0;
        assert(task.progress(start, k) == task.expanded(p));
        stored_complete::lemma_loads_more(task, p);
        lemma_progress_keeps(task, start, (k - 1) as nat);
        let x = p.loaded[p.frontier.c.last().element as int];
        let u = tuple::unseen_tids(task.neighbors(x)->0, p.visited);
        let mid = StoredProgress {
            frontier: Frontier { c: p.frontier.c.drop_last(), ..p.frontier },
            visited: stored_search::marked(p.visited, u),
            loaded: p.loaded,
            tuples: p.tuples + u.len(),
        };
        assert(task.expanded(p) == task.offered_each(mid, u));
        lemma_each_keeps(task, mid, u);
        assert forall|a: ItemPointer|
            #![trigger q.visited.contains(types::tid_key(a) as u64)]
            q.visited.contains(types::tid_key(a) as u64) && !start.visited.contains(
                types::tid_key(a) as u64,
            ) implies is_dealt_with(task, q, a) by {
            if p.visited.contains(types::tid_key(a) as u64) {
                assert(is_dealt_with(task, p, a));
                assert(is_dealt_with(task, mid, a));
            } else {
                let i = choose|i: int|
                    0 <= i < u.len() && types::tid_key(#[trigger] u[i]) == types::tid_key(a) as u64;
                types::law_tid_key_is_injective(u[i], a);
                assert(is_dealt_with(task, q, u[i]));
            }
        }
    }
}

proof fn lemma_entered_is_tidy(task: StoredTask, loaded: Seq<Handle>, ep: Seq<SearchCandidate>)
    requires
        forall|i: int| #![trigger ep[i]] 0 <= i < ep.len() ==> ep[i].element < loaded.len(),
    ensures
        ({
            let f = task.entered(loaded, ep);
            &&& are_within(loaded, f.w)
            &&& f.discarded.len() == 0
            &&& layer_search::ascending(f.w)
            &&& f.w.len() == ep.len()
        }),
    decreases ep.len(),
{
    if ep.len() > 0 {
        let init = ep.drop_last();
        assert forall|i: int| #![trigger init[i]] 0 <= i < init.len() implies init[i].element
            < loaded.len() by {
            assert(init[i] == ep[i]);
        }
        lemma_entered_is_tidy(task, loaded, init);
        let f = task.entered(loaded, init);
        let _ = stored_complete::lemma_placed_ascending(f.w, ep.last());
        lemma_last_placed(f.w, ep.last());
        let g = task.entered(loaded, ep);
        assert(ep[ep.len() - 1].element < loaded.len());
        assert forall|x: SearchCandidate| #[trigger] g.w.contains(x) implies x.element
            < loaded.len() by {
            lemma_placed_contains(f.w, ep.last(), x);
        }
    }
}

/// A search that keeps what it leaves out loses nothing: every element of the layer
/// that it met, whoever named it, is among its results or among what it left out;
/// and nothing that it left out is nearer than any of its results.
pub proof fn law_nothing_that_was_met_is_lost(
    task: StoredTask,
    loaded0: Seq<Handle>,
    ep: Seq<SearchCandidate>,
    seen: Set<u64>,
    init_visited: bool,
    r: StoredResult,
    after: Set<u64>,
    loaded: Seq<Handle>,
    a: ItemPointer,
)
    requires
        task.track,
        ep.len() > 0,
        loaded.len() <= usize::MAX,
        forall|i: int| #![trigger ep[i]] 0 <= i < ep.len() ==> ep[i].element < loaded0.len(),
        stored_search::is_end_of_search(
            task,
            task.start(loaded0, ep, seen, init_visited),
            r,
            after,
            loaded,
        ),
    ensures
        after.contains((a.block_number * 0x1_0000 + a.offset) as u64) && !task.start(
            loaded0,
            ep,
            seen,
            init_visited,
        ).visited.contains((a.block_number * 0x1_0000 + a.offset) as u64) ==> {
            &&& stored_complete::has_element(task.pages, a)
            &&& stored_complete::element_at(task.pages, a).level >= task.lc
                ==> stored_complete::holds(loaded, r.w@, a) || stored_complete::holds(
                loaded,
                r.discarded@,
                a,
            )
        },
        forall|i: int, j: int|
            #![trigger r.w@[i], r.discarded@[j]]
            0 <= i < r.w@.len() && 0 <= j < r.discarded@.len() ==> r.discarded@[j].distance
                >= r.w@[i].distance,
{
    let start = task.start(loaded0, ep, seen, init_visited);
    lemma_entered_is_tidy(task, loaded0, ep);
    assert(is_tidy(task, start)) by {
        assert forall|x: SearchCandidate| #[trigger] start.frontier.discarded.contains(
            x,
        ) implies false by {}
    }
    let k = choose|k: nat|
        {
            &&& #[trigger] task.ends_after(start, k)
            &&& r.w@ == task.progress(start, k)->Ok_0.frontier.w.reverse()
            &&& task.track ==> r.discarded@ == task.progress(start, k)->Ok_0.frontier.discarded
            &&& !task.track ==> r.discarded@.len() == 0
            &&& r.tuples == task.progress(start, k)->Ok_0.tuples
            &&& after == task.progress(start, k)->Ok_0.visited
            &&& loaded == task.progress(start, k)->Ok_0.loaded
        };
    let p = task.progress(start, k)->Ok_0;
    lemma_progress_keeps(task, start, k);
    let w = p.frontier.w;
    let last = w.len() - 1;
    let key = types::tid_key(a) as u64;
    if after.contains(key) && !start.visited.contains(key) {
        assert(is_dealt_with(task, p, a));
        if stored_complete::element_at(task.pages, a).level >= task.lc {
            if among(loaded, w, a) {
                let x = choose|x: SearchCandidate| #[trigger]
                    w.contains(x) && loaded[x.element as int].tid == a;
                let i = choose|i: int| 0 <= i < w.len() && w[i] == x;
                assert(r.w@[last - i] == x);
                assert(stored_complete::holds(loaded, r.w@, a));
            } else {
                let x = choose|x: SearchCandidate| #[trigger]
                    p.frontier.discarded.contains(x) && loaded[x.element as int].tid == a;
                let i = choose|i: int| 0 <= i < r.discarded@.len() && r.discarded@[i] == x;
                assert(loaded[r.discarded@[i].element as int].tid == a);
                assert(stored_complete::holds(loaded, r.discarded@, a));
            }
        }
    }
    assert forall|i: int, j: int|
        #![trigger r.w@[i], r.discarded@[j]]
        0 <= i < r.w@.len() && 0 <= j < r.discarded@.len() implies r.discarded@[j].distance
        >= r.w@[i].distance by {
        assert(p.frontier.discarded.contains(r.discarded@[j]));
        assert(r.w@[i] == w[last - i]);
        assert(layer_search::le(w[last - i], w[last]));
    }
}

} // verus!
