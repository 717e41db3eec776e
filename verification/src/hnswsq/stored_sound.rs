//! A search of a stored graph follows the stored lists only, and fails only where
//! one of them leads nowhere.
use crate::hnswsq::layer_search;
use crate::hnswsq::layer_search::{Frontier, SearchCandidate};
use crate::hnswsq::skipping_laws::{lemma_placed_contains, lemma_push_contains};
use crate::hnswsq::stored;
use crate::hnswsq::stored::WalkError;
use crate::hnswsq::stored_complete;
use crate::hnswsq::stored_search;
use crate::hnswsq::stored_search::{Handle, StoredProgress, StoredResult, StoredTask};
use crate::hnswsq::tuple;
use crate::hnswsq::types;
use crate::util::item_pointer::ItemPointer;
use vstd::prelude::*;

verus! {

/// Whether a path of stored lists at the layer leads from an entry point to an
/// address.
pub open spec fn is_path(
    task: StoredTask,
    loaded0: Seq<Handle>,
    ep: Seq<SearchCandidate>,
    path: Seq<ItemPointer>,
    tid: ItemPointer,
) -> bool {
    &&& path.len() > 0
    &&& path.last() == tid
    &&& exists|a: int| 0 <= a < ep.len() && loaded0[(#[trigger] ep[a]).element as int].tid == path[0]
    &&& forall|k: int|
        #![trigger path[k]]
        0 <= k < path.len() - 1 ==> stored_complete::names(
            task.pages,
            task.m,
            task.lc,
            path[k],
            path[k + 1],
        )
}

spec fn is_led_to(
    task: StoredTask,
    loaded0: Seq<Handle>,
    ep: Seq<SearchCandidate>,
    tid: ItemPointer,
) -> bool {
    exists|path: Seq<ItemPointer>| #[trigger] is_path(task, loaded0, ep, path, tid)
}

proof fn lemma_led_further(
    task: StoredTask,
    loaded0: Seq<Handle>,
    ep: Seq<SearchCandidate>,
    a: ItemPointer,
    b: ItemPointer,
)
    requires
        is_led_to(task, loaded0, ep, a),
        stored_complete::names(task.pages, task.m, task.lc, a, b),
    ensures
        is_led_to(task, loaded0, ep, b),
{
    let before = choose|path: Seq<ItemPointer>| #[trigger] is_path(task, loaded0, ep, path, a);
    let path = before.push(b);
    assert forall|k: int| #![trigger path[k]] 0 <= k < path.len() - 1 implies stored_complete::names(
        task.pages,
        task.m,
        task.lc,
        path[k],
        path[k + 1],
    ) by {
        if k < before.len() - 1 {
            assert(path[k] == before[k] && path[k + 1] == before[k + 1]);
        }
    }
    assert(path[0] == before[0]);
    assert(is_path(task, loaded0, ep, path, b));
}

spec fn are_led_to(
    task: StoredTask,
    loaded0: Seq<Handle>,
    ep: Seq<SearchCandidate>,
    loaded: Seq<Handle>,
    s: Seq<SearchCandidate>,
) -> bool {
    forall|x: SearchCandidate| #[trigger]
        s.contains(x) ==> x.element < loaded.len() && is_led_to(
            task,
            loaded0,
            ep,
            loaded[x.element as int].tid,
        )
}

spec fn follows(
    task: StoredTask,
    loaded0: Seq<Handle>,
    ep: Seq<SearchCandidate>,
    p: StoredProgress,
) -> bool {
    are_led_to(task, loaded0, ep, p.loaded, p.frontier.w) && are_led_to(
        task,
        loaded0,
        ep,
        p.loaded,
        p.frontier.c,
    )
}

proof fn lemma_drop_contains(s: Seq<SearchCandidate>, x: SearchCandidate)
    requires
        s.len() > 0,
        s.drop_last().contains(x),
    ensures
        s.contains(x),
{
    let i = choose|i: int| 0 <= i < s.drop_last().len() && s.drop_last()[i] == x;
    assert(s[i] == x);
}

proof fn lemma_offered_follows(
    task: StoredTask,
    loaded0: Seq<Handle>,
    ep: Seq<SearchCandidate>,
    p: StoredProgress,
    tid: ItemPointer,
)
    requires
        follows(task, loaded0, ep, p),
        is_led_to(task, loaded0, ep, tid),
        task.offered(p, tid) is Ok,
        task.offered(p, tid)->Ok_0.loaded.len() <= usize::MAX,
    ensures
        follows(task, loaded0, ep, task.offered(p, tid)->Ok_0),
        p.loaded.len() <= task.offered(p, tid)->Ok_0.loaded.len(),
{
    let q = task.offered(p, tid)->Ok_0;
    if q != p {
        let t = stored_complete::element_at(task.pages, tid);
        let h = stored_search::handle_at(tid, t, task.load_vec);
        let sc = SearchCandidate {
            element: p.loaded.len() as usize,
            distance: (task.dist)(t.vector),
            key: types::tid_key(tid) as u64,
        };
        let f = p.frontier;
        let taken = layer_search::placed_ascending(f.w, sc);
        assert(q.loaded == p.loaded.push(h));
        assert(q.loaded[sc.element as int].tid == tid);
        lemma_placed_contains(f.w, sc, sc);
        assert(taken.len() > 0);
        assert forall|x: SearchCandidate| #[trigger] q.frontier.w.contains(x) implies x.element
            < q.loaded.len() && is_led_to(task, loaded0, ep, q.loaded[x.element as int].tid) by {
            if q.frontier.w == taken.drop_last() {
                lemma_drop_contains(taken, x);
            }
            lemma_placed_contains(f.w, sc, x);
            if x != sc {
                assert(f.w.contains(x));
                assert(q.loaded[x.element as int] == p.loaded[x.element as int]);
            }
        }
        assert forall|x: SearchCandidate| #[trigger] q.frontier.c.contains(x) implies x.element
            < q.loaded.len() && is_led_to(task, loaded0, ep, q.loaded[x.element as int].tid) by {
            lemma_placed_contains(f.c, sc, x);
            if x != sc {
                assert(f.c.contains(x));
                assert(q.loaded[x.element as int] == p.loaded[x.element as int]);
            }
        }
    }
}

proof fn lemma_each_follows(
    task: StoredTask,
    loaded0: Seq<Handle>,
    ep: Seq<SearchCandidate>,
    p: StoredProgress,
    u: Seq<ItemPointer>,
)
    requires
        follows(task, loaded0, ep, p),
        forall|i: int| #![trigger u[i]] 0 <= i < u.len() ==> is_led_to(task, loaded0, ep, u[i]),
        task.offered_each(p, u) is Ok,
        task.offered_each(p, u)->Ok_0.loaded.len() <= usize::MAX,
    ensures
        follows(task, loaded0, ep, task.offered_each(p, u)->Ok_0),
    decreases u.len(),
{
    if u.len() > 0 {
        let init = u.drop_last();
        let mid = task.offered_each(p, init)->Ok_0;
        assert(task.offered(mid, u.last()) == task.offered_each(p, u));
        assert(mid.loaded.len() <= task.offered(mid, u.last())->Ok_0.loaded.len());
        assert forall|i: int| #![trigger init[i]] 0 <= i < init.len() implies is_led_to(
            task,
            loaded0,
            ep,
            init[i],
        ) by {
            assert(init[i] == u[i]);
        }
        lemma_each_follows(task, loaded0, ep, p, init);
        assert(is_led_to(task, loaded0, ep, u[u.len() - 1]));
        lemma_offered_follows(task, loaded0, ep, mid, u.last());
    }
}

proof fn lemma_unseen_are_listed(tids: Seq<ItemPointer>, seen: Set<u64>, i: int) -> (j: int)
    requires
        0 <= i < tuple::unseen_tids(tids, seen).len(),
    ensures
        0 <= j < tids.len(),
        tids[j] == tuple::unseen_tids(tids, seen)[i],
    decreases tids.len(),
{
    let init = tids.drop_last();
    let before = tuple::unseen_tids(init, seen);
    if i < before.len() {
        let j = lemma_unseen_are_listed(init, seen, i);
        assert(init[j] == tids[j]);
        j
    } else {
        tids.len() - 1
    }
}

proof fn lemma_entered_contains(
    task: StoredTask,
    loaded: Seq<Handle>,
    ep: Seq<SearchCandidate>,
    x: SearchCandidate,
)
    ensures
        task.entered(loaded, ep).w.contains(x) <==> ep.contains(x),
        task.entered(loaded, ep).c.contains(x) <==> ep.contains(x),
    decreases ep.len(),
{
    if ep.len() > 0 {
        let init = ep.drop_last();
        let f = task.entered(loaded, init);
        lemma_entered_contains(task, loaded, init, x);
        lemma_placed_contains(f.w, ep.last(), x);
        lemma_placed_contains(f.c, ep.last(), x);
        lemma_push_contains(init, ep.last(), x);
        assert(init.push(ep.last()) =~= ep);
    }
}

proof fn lemma_start_follows(
    task: StoredTask,
    loaded0: Seq<Handle>,
    ep: Seq<SearchCandidate>,
    seen: Set<u64>,
    init_visited: bool,
)
    requires
        forall|j: int| #![trigger ep[j]] 0 <= j < ep.len() ==> ep[j].element < loaded0.len(),
    ensures
        follows(task, loaded0, ep, task.start(loaded0, ep, seen, init_visited)),
{
    let f = task.entered(loaded0, ep);
    assert forall|x: SearchCandidate| ep.contains(x) implies x.element < loaded0.len()
        && #[trigger] is_led_to(task, loaded0, ep, loaded0[x.element as int].tid) by {
        let a = choose|a: int| 0 <= a < ep.len() && ep[a] == x;
        let tid = loaded0[x.element as int].tid;
        assert(loaded0[ep[a].element as int].tid == seq![tid][0]);
        assert(is_path(task, loaded0, ep, seq![tid], tid));
    }
    assert forall|x: SearchCandidate| #[trigger] f.w.contains(x) implies x.element < loaded0.len()
        && is_led_to(task, loaded0, ep, loaded0[x.element as int].tid) by {
        lemma_entered_contains(task, loaded0, ep, x);
    }
    assert forall|x: SearchCandidate| #[trigger] f.c.contains(x) implies x.element < loaded0.len()
        && is_led_to(task, loaded0, ep, loaded0[x.element as int].tid) by {
        lemma_entered_contains(task, loaded0, ep, x);
    }
}

proof fn lemma_named_are_led_to(
    task: StoredTask,
    loaded0: Seq<Handle>,
    ep: Seq<SearchCandidate>,
    p: StoredProgress,
)
    requires
        0 <= task.m,
        0 <= task.lc,
        follows(task, loaded0, ep, p),
        p.frontier.c.len() > 0,
        ({
            let x = p.loaded[p.frontier.c.last().element as int];
            stored_complete::is_current(task.pages, x) && x.level >= task.lc && task.neighbors(x)
                is Some
        }),
    ensures
        ({
            let x = p.loaded[p.frontier.c.last().element as int];
            let u = tuple::unseen_tids(task.neighbors(x)->0, p.visited);
            forall|i: int|
                #![trigger u[i]]
                0 <= i < u.len() ==> is_led_to(task, loaded0, ep, u[i]) && stored_complete::names(
                    task.pages,
                    task.m,
                    task.lc,
                    x.tid,
                    u[i],
                )
        }),
{
    let x = p.loaded[p.frontier.c.last().element as int];
    let all = task.neighbors(x)->0;
    let u = tuple::unseen_tids(all, p.visited);
    assert(p.frontier.c.contains(p.frontier.c[p.frontier.c.len() - 1]));
    assert forall|i: int| #![trigger u[i]] 0 <= i < u.len() implies is_led_to(
        task,
        loaded0,
        ep,
        u[i],
    ) && stored_complete::names(task.pages, task.m, task.lc, x.tid, u[i]) by {
        let j = lemma_unseen_are_listed(all, p.visited, i);
        stored_complete::lemma_neighbor_is_named(task, x, j);
        lemma_led_further(task, loaded0, ep, x.tid, u[i]);
    }
}

proof fn lemma_progress_follows(
    task: StoredTask,
    loaded0: Seq<Handle>,
    ep: Seq<SearchCandidate>,
    seen: Set<u64>,
    init_visited: bool,
    k: nat,
)
    requires
        0 <= task.m,
        0 <= task.lc,
        ep.len() > 0,
        forall|j: int|
            #![trigger ep[j]]
            0 <= j < ep.len() ==> stored_complete::is_candidate(task, loaded0, ep[j]),
        task.progress(task.start(loaded0, ep, seen, init_visited), k) is Ok,
        task.progress(
            task.start(loaded0, ep, seen, init_visited),
            k,
        )->Ok_0.loaded.len() <= usize::MAX,
        forall|j: nat|
            j < k ==> #[trigger] task.goes_on(task.start(loaded0, ep, seen, init_visited), j),
    ensures
        follows(
            task,
            loaded0,
            ep,
            task.progress(task.start(loaded0, ep, seen, init_visited), k)->Ok_0,
        ),
    decreases k,
{
    let start = task.start(loaded0, ep, seen, init_visited);
    if k == 0 {
        assert forall|j: int| #![trigger ep[j]] 0 <= j < ep.len() implies ep[j].element
            < loaded0.len() by {
            assert(stored_complete::is_candidate(task, loaded0, ep[j]));
        }
        lemma_start_follows(task, loaded0, ep, seen, init_visited);
    } else {
        let j = (k - 1) as nat;
        assert(task.goes_on(start, j));
        let p = task.progress(start, j)->Ok_0;
        assert(task.progress(start, k) == task.expanded(p));
        stored_complete::lemma_loads_more(task, p);
        lemma_progress_follows(task, loaded0, ep, seen, init_visited, j);
        stored_complete::lemma_pending_are_current(task, loaded0, ep, seen, init_visited, j);
        let top = p.frontier.c[p.frontier.c.len() - 1];
        let x = p.loaded[top.element as int];
        lemma_named_are_led_to(task, loaded0, ep, p);
        let u = tuple::unseen_tids(task.neighbors(x)->0, p.visited);
        let mid = StoredProgress {
            frontier: Frontier { c: p.frontier.c.drop_last(), ..p.frontier },
            visited: stored_search::marked(p.visited, u),
            loaded: p.loaded,
            tuples: p.tuples + u.len(),
        };
        assert(task.expanded(p) == task.offered_each(mid, u));
        assert forall|y: SearchCandidate| #[trigger] mid.frontier.c.contains(y) implies y.element
            < p.loaded.len() && is_led_to(task, loaded0, ep, p.loaded[y.element as int].tid) by {
            lemma_drop_contains(p.frontier.c, y);
        }
        lemma_each_follows(task, loaded0, ep, mid, u);
    }
}

/// A result of a search is reached from an entry point by the stored lists of the
/// layer.
pub proof fn law_stored_results_are_reached(
    task: StoredTask,
    loaded0: Seq<Handle>,
    ep: Seq<SearchCandidate>,
    seen: Set<u64>,
    init_visited: bool,
    r: StoredResult,
    after: Set<u64>,
    loaded: Seq<Handle>,
    i: int,
) -> (path: Seq<ItemPointer>)
    requires
        0 <= task.m,
        0 <= task.lc,
        ep.len() > 0,
        loaded.len() <= usize::MAX,
        forall|j: int|
            #![trigger ep[j]]
            0 <= j < ep.len() ==> stored_complete::is_candidate(task, loaded0, ep[j]),
        stored_search::is_end_of_search(
            task,
            task.start(loaded0, ep, seen, init_visited),
            r,
            after,
            loaded,
        ),
        0 <= i < r.w@.len(),
    ensures
        path.len() > 0,
        path.last() == loaded[r.w@[i].element as int].tid,
        exists|a: int|
            0 <= a < ep.len() && loaded0[(#[trigger] ep[a]).element as int].tid == path[0],
        forall|k: int|
            #![trigger path[k]]
            0 <= k < path.len() - 1 ==> stored_complete::names(
                task.pages,
                task.m,
                task.lc,
                path[k],
                path[k + 1],
            ),
{
    let start = task.start(loaded0, ep, seen, init_visited);
    let k = choose|k: nat|
        {
            &&& #[trigger] task.ends_after(start, k)
            &&& r.w@ == task.progress(start, k)->Ok_0.frontier.w.reverse()
            &&& task.track ==> r.discarded@ == task.progress(start, k)->Ok_0.frontier.discarded
            &&& !task.track ==> r.discarded@.len() == 0
            &&& r.tuples == task.progress(start, k)->Ok_0.tuples
            &&& after == task.progress(start, k)->Ok_0.visited
            &&& loaded == task.progress(start, k)->Ok_0.loaded
        };
    lemma_progress_follows(task, loaded0, ep, seen, init_visited, k);
    let w = task.progress(start, k)->Ok_0.frontier.w;
    assert(r.w@[i] == w[w.len() - 1 - i]);
    assert(w.contains(r.w@[i]));
    let tid = loaded[r.w@[i].element as int].tid;
    choose|path: Seq<ItemPointer>| #[trigger] is_path(task, loaded0, ep, path, tid)
}

/// Whether there is no element at an address, or a deleted one.
pub open spec fn leads_nowhere(task: StoredTask, b: ItemPointer, e: WalkError) -> bool {
    match stored::item_at(task.pages, b) {
        Some(item) => if item is Element {
            item->Element_tuple.deleted != 0 && e == WalkError::Deleted
        } else {
            e == WalkError::Missing
        },
        None => e == WalkError::Missing,
    }
}

proof fn lemma_each_fails(task: StoredTask, p: StoredProgress, u: Seq<ItemPointer>, e: WalkError) -> (i:
    int)
    requires
        task.offered_each(p, u) == Err::<StoredProgress, WalkError>(e),
    ensures
        0 <= i < u.len(),
        leads_nowhere(task, u[i], e),
    decreases u.len(),
{
    let init = u.drop_last();
    if task.offered_each(p, init) is Err {
        let i = lemma_each_fails(task, p, init, e);
        assert(init[i] == u[i]);
        i
    } else {
        let q = task.offered_each(p, init)->Ok_0;
        assert(task.offered(q, u.last()) == task.offered_each(p, u));
        u.len() - 1
    }
}

/// A search fails only where a stored list leads nowhere: an element that is reached
/// has no list, or names an address where there is no element or a deleted one.
pub proof fn law_stored_search_fails_only_on_broken_lists(
    task: StoredTask,
    loaded0: Seq<Handle>,
    ep: Seq<SearchCandidate>,
    seen: Set<u64>,
    init_visited: bool,
    k: nat,
    e: WalkError,
) -> (r: (ItemPointer, ItemPointer))
    requires
        0 <= task.m,
        0 <= task.lc,
        ep.len() > 0,
        forall|j: int|
            #![trigger ep[j]]
            0 <= j < ep.len() ==> stored_complete::is_candidate(task, loaded0, ep[j]),
        task.fails_after(task.start(loaded0, ep, seen, init_visited), k, e),
        forall|j: nat|
            j < k ==> (#[trigger] task.progress(
                task.start(loaded0, ep, seen, init_visited),
                j,
            ))->Ok_0.loaded.len() <= usize::MAX,
    ensures
        stored_complete::has_element(task.pages, r.0),
        exists|path: Seq<ItemPointer>| #[trigger] is_path(task, loaded0, ep, path, r.0),
        ({
            let list = stored::item_at(
                task.pages,
                stored_complete::element_at(task.pages, r.0).neighbortid,
            );
            ||| e == WalkError::Missing && !(list is Some && list->0 is Neighbors)
            ||| stored_complete::names(task.pages, task.m, task.lc, r.0, r.1) && leads_nowhere(
                task,
                r.1,
                e,
            )
        }),
{
    let start = task.start(loaded0, ep, seen, init_visited);
    assert(k > 0);
    let j = (k - 1) as nat;
    assert(task.goes_on(start, j));
    let p = task.progress(start, j)->Ok_0;
    assert(task.progress(start, k) == task.expanded(p));
    assert(p.loaded.len() <= usize::MAX);
    lemma_progress_follows(task, loaded0, ep, seen, init_visited, j);
    stored_complete::lemma_pending_are_current(task, loaded0, ep, seen, init_visited, j);
    let top = p.frontier.c[p.frontier.c.len() - 1];
    let x = p.loaded[top.element as int];
    assert(p.frontier.c.contains(top));
    assert(is_led_to(task, loaded0, ep, x.tid));
    if task.neighbors(x) is None {
        (x.tid, x.tid)
    } else {
        lemma_named_are_led_to(task, loaded0, ep, p);
        let u = tuple::unseen_tids(task.neighbors(x)->0, p.visited);
        let mid = StoredProgress {
            frontier: Frontier { c: p.frontier.c.drop_last(), ..p.frontier },
            visited: stored_search::marked(p.visited, u),
            loaded: p.loaded,
            tuples: p.tuples + u.len(),
        };
        assert(task.expanded(p) == task.offered_each(mid, u));
        let i = lemma_each_fails(task, mid, u, e);
        assert(stored_complete::names(task.pages, task.m, task.lc, x.tid, u[i]));
        (x.tid, u[i])
    }
}

} // verus!
