//! Why the cached flags of a neighbor array can be used: a selection that
//! uses them is the selection without them, and every update keeps them right.
use crate::hnswsq::connect;
use crate::hnswsq::connect::ConnectionUpdate;
use crate::hnswsq::params;
use crate::hnswsq::select;
use crate::hnswsq::select::Selection;
use crate::hnswsq::types::{Candidate, Graph, NeighborArray};
use vstd::prelude::*;

verus! {

/// Whether the array holds no element twice and its cached flags can be used.
pub open spec fn is_sound_array(
    pair: spec_fn(usize, usize) -> i32,
    array: NeighborArray,
    lm: int,
) -> bool {
    connect::distinct(array.items@) && connect::cache_ok(pair, array, lm)
}

/// Whether that holds of every array of the graph.
pub open spec fn has_sound_caches(
    pair: spec_fn(usize, usize) -> i32,
    graph: Graph,
    m: int,
) -> bool {
    forall|e: int, lc: int|
        #![trigger graph.elements@[e].neighbors@[lc]]
        0 <= e < graph.elements@.len() && 0 <= lc <= graph.elements@[e].level ==> is_sound_array(
            pair,
            graph.elements@[e].neighbors@[lc],
            params::layer_m(m, lc),
        )
}

/// What is kept goes by the distances between the candidates alone.
proof fn lemma_picked_by_distances(
    pair: spec_fn(usize, usize) -> i32,
    other: spec_fn(usize, usize) -> i32,
    c: Seq<Candidate>,
    order: Seq<int>,
    k: int,
)
    requires
        0 <= k <= order.len(),
        forall|j: int| #![trigger order[j]] 0 <= j < order.len() ==> 0 <= order[j] < c.len(),
        forall|i: int, j: int|
            #![trigger c[i], c[j]]
            0 <= i < c.len() && 0 <= j < c.len() ==> pair(c[i].element, c[j].element) == other(
                c[i].element,
                c[j].element,
            ),
    ensures
        select::picked(pair, c, order, k) == select::picked(other, c, order, k),
        forall|m: int|
            #![trigger select::picked(pair, c, order, k)[m]]
            0 <= m < select::picked(pair, c, order, k).len() ==> 0 <= select::picked(
                pair,
                c,
                order,
                k,
            )[m] < c.len(),
        k < order.len() ==> select::is_pick(pair, c, order, k) == select::is_pick(
            other,
            c,
            order,
            k,
        ),
    decreases k,
{
    if k > 0 {
        lemma_picked_by_distances(pair, other, c, order, k - 1);
        assert(0 <= order[k - 1] < c.len());
    }
    let r = select::picked(pair, c, order, k);
    if k < order.len() {
        let e = order[k];
        assert forall|m: int| #![trigger r[m]] 0 <= m < r.len() implies pair(
            c[e].element,
            c[r[m]].element,
        ) == other(c[e].element, c[r[m]].element) by {
            assert(0 <= r[m] < c.len() && 0 <= e < c.len());
        }
        assert(select::is_closer(pair, c, e, r) == select::is_closer(other, c, e, r));
    }
}

/// Whether the cached flags of a graph can be used goes by the distances
/// between its elements alone.
pub proof fn law_caches_go_by_distances(
    pair: spec_fn(usize, usize) -> i32,
    other: spec_fn(usize, usize) -> i32,
    graph: Graph,
    m: int,
)
    requires
        graph.wf(),
        has_sound_caches(pair, graph, m),
        forall|x: usize, y: usize|
            #![trigger other(x, y)]
            x < graph.elements@.len() && y < graph.elements@.len() ==> pair(x, y) == other(x, y),
    ensures
        has_sound_caches(other, graph, m),
{
    assert forall|e: int, lc: int|
        #![trigger graph.elements@[e].neighbors@[lc]]
        0 <= e < graph.elements@.len() && 0 <= lc
            <= graph.elements@[e].level implies is_sound_array(
        other,
        graph.elements@[e].neighbors@[lc],
        params::layer_m(m, lc),
    ) by {
        let array = graph.elements@[e].neighbors@[lc];
        let c = array.items@;
        assert(graph.element_ok(e));
        assert(is_sound_array(pair, array, params::layer_m(m, lc)));
        assert forall|i: int, j: int|
            #![trigger c[i], c[j]]
            0 <= i < c.len() && 0 <= j < c.len() implies pair(c[i].element, c[j].element) == other(
            c[i].element,
            c[j].element,
        ) by {
            assert(graph.elements@[e].neighbors@[lc].items@[i].element < graph.elements@.len());
            assert(graph.elements@[e].neighbors@[lc].items@[j].element < graph.elements@.len());
        }
        if array.closer_set {
            assert forall|order: Seq<int>| #[trigger]
                select::is_order(c, true, order) implies select::cache_holds(
                other,
                c,
                None,
                order,
            ) by {
                assert(select::cache_holds(pair, c, None, order));
                assert forall|j: int| #![trigger order[j]] 0 <= j
                    < order.len() implies c[order[j]].closer == select::is_pick(
                    other,
                    c,
                    order,
                    j,
                ) by {
                    assert(select::without_new(order, None) == order);
                    lemma_picked_by_distances(pair, other, c, order, j);
                    assert(c[order[j]].closer == select::is_pick(pair, c, order, j));
                }
            }
        }
    }
}

/// Connecting a new element keeps the cached flags of an array right, and the
/// array without duplicates.
pub proof fn law_connecting_keeps_the_cache(
    pair: spec_fn(usize, usize) -> i32,
    before: NeighborArray,
    new_candidate: Candidate,
    lm: int,
    after: NeighborArray,
    update: ConnectionUpdate,
)
    requires
        is_sound_array(pair, before, lm),
        before.items@.len() <= lm,
        connect::distinct(before.items@.push(new_candidate)),
        connect::is_connected(pair, before, new_candidate, lm, after, update),
    ensures
        is_sound_array(pair, after, lm),
{
    if before.items@.len() == lm {
        let (order, changed, s) = choose|order: Seq<int>, changed: Seq<Candidate>, s: Selection|
            connect::shrunk_by(
                pair,
                before,
                new_candidate,
                lm,
                order,
                changed,
                s,
                after.items@,
                update,
            );
        assert(before.items@.len() == before.items.len());
        law_update_keeps_the_cache(
            pair,
            before,
            new_candidate,
            lm,
            order,
            changed,
            s,
            after,
            update,
        );
    }
}

/// What is kept depends on the candidates, not on how they are numbered.
proof fn lemma_picked_renumbered(
    pair: spec_fn(usize, usize) -> i32,
    c1: Seq<Candidate>,
    order1: Seq<int>,
    c2: Seq<Candidate>,
    order2: Seq<int>,
    f: spec_fn(int) -> int,
    k: int,
)
    requires
        order1.len() == order2.len(),
        0 <= k <= order1.len(),
        forall|j: int|
            #![trigger order1[j]]
            0 <= j < order1.len() ==> order2[j] == f(order1[j]) && c2[order2[j]].element
                == c1[order1[j]].element && c2[order2[j]].distance == c1[order1[j]].distance,
    ensures
        select::picked(pair, c2, order2, k) == select::picked(pair, c1, order1, k).map_values(f),
        forall|m: int|
            #![trigger select::picked(pair, c1, order1, k)[m]]
            0 <= m < select::picked(pair, c1, order1, k).len() ==> order1.contains(
                select::picked(pair, c1, order1, k)[m],
            ),
        k < order1.len() ==> select::is_pick(pair, c2, order2, k) == select::is_pick(
            pair,
            c1,
            order1,
            k,
        ),
    decreases k,
{
    let p1 = select::picked(pair, c1, order1, k);
    let p2 = select::picked(pair, c2, order2, k);
    if k > 0 {
        lemma_picked_renumbered(pair, c1, order1, c2, order2, f, k - 1);
        let b1 = select::picked(pair, c1, order1, k - 1);
        let b2 = select::picked(pair, c2, order2, k - 1);
        assert(select::is_pick(pair, c2, order2, k - 1) == select::is_pick(
            pair,
            c1,
            order1,
            k - 1,
        ));
        assert(order2[k - 1] == f(order1[k - 1]));
        if select::is_pick(pair, c1, order1, k - 1) {
            assert(p1 == b1.push(order1[k - 1]));
            assert(p2 == b2.push(order2[k - 1]));
            assert(p2 =~= p1.map_values(f));
        }
        assert forall|m: int| #![trigger p1[m]] 0 <= m < p1.len() implies order1.contains(p1[m]) by {
            if m < b1.len() {
                assert(b1[m] == p1[m]);
            } else {
                assert(order1[k - 1] == p1[m]);
            }
        }
    } else {
        assert(p2 =~= p1.map_values(f));
    }
    if k < order1.len() {
        let e1 = order1[k];
        let e2 = order2[k];
        assert(c2[e2].element == c1[e1].element && c2[e2].distance == c1[e1].distance);
        assert forall|m: int| 0 <= m < p1.len() implies #[trigger] c2[p2[m]].element
            == c1[p1[m]].element by {
            assert(order1.contains(p1[m]));
            let j = choose|j: int| 0 <= j < order1.len() && order1[j] == p1[m];
            assert(p2[m] == f(p1[m]));
            assert(c2[order2[j]].element == c1[order1[j]].element);
        }
        if select::is_closer(pair, c1, e1, p1) {
            assert forall|m: int| #![trigger p2[m]] 0 <= m < p2.len() implies pair(
                c2[e2].element,
                c2[p2[m]].element,
            ) > c2[e2].distance by {
                assert(c2[p2[m]].element == c1[p1[m]].element);
            }
        }
        if select::is_closer(pair, c2, e2, p2) {
            assert forall|m: int| #![trigger p1[m]] 0 <= m < p1.len() implies pair(
                c1[e1].element,
                c1[p1[m]].element,
            ) > c1[e1].distance by {
                assert(c2[p2[m]].element == c1[p1[m]].element);
            }
        }
    }
}

/// Leaving out one that is not kept changes nothing of what is kept.
proof fn lemma_picked_without(
    pair: spec_fn(usize, usize) -> i32,
    c: Seq<Candidate>,
    order: Seq<int>,
    q: int,
    j: int,
)
    requires
        0 <= q < order.len(),
        0 <= j < order.len(),
        j > q ==> !select::is_pick(pair, c, order, q),
    ensures
        select::picked(pair, c, order.remove(q), j) == select::picked(
            pair,
            c,
            order,
            if j <= q {
                j
            } else {
                j + 1
            },
        ),
    decreases j,
{
    if j > 0 {
        lemma_picked_without(pair, c, order, q, j - 1);
        let rest = order.remove(q);
        if j <= q {
            assert(rest[j - 1] == order[j - 1]);
        } else {
            assert(rest[j - 1] == order[j]);
            if j - 1 == q {
                assert(select::picked(pair, c, order, q + 1) == select::picked(pair, c, order, q));
            }
        }
    }
}

/// Candidates of different elements are sorted in one way only.
proof fn lemma_order_is_unique(c: Seq<Candidate>, a: Seq<int>, b: Seq<int>, k: int)
    requires
        connect::distinct(c),
        select::is_order(c, true, a),
        select::is_order(c, true, b),
        0 <= k <= c.len(),
    ensures
        a.take(k) == b.take(k),
    decreases k,
{
    if k > 0 {
        lemma_order_is_unique(c, a, b, k - 1);
        let x = a[k - 1];
        let y = b[k - 1];
        if x != y {
            assert(forall|j: int| 0 <= j < k - 1 ==> #[trigger] a[j] == b[j]) by {
                assert forall|j: int| 0 <= j < k - 1 implies #[trigger] a[j] == b[j] by {
                    assert(a.take(k - 1)[j] == b.take(k - 1)[j]);
                }
            }
            select::lemma_order_covers(c, true, b, x);
            let m = choose|m: int| 0 <= m < b.len() && b[m] == x;
            assert(m >= k) by {
                if m < k - 1 {
                    assert(a[m] == b[m]);
                }
            }
            select::lemma_order_covers(c, true, a, y);
            let l = choose|l: int| 0 <= l < a.len() && a[l] == y;
            assert(l >= k) by {
                if l < k - 1 {
                    assert(a[l] == b[l]);
                }
            }
            assert(select::comes_before(c[b[k - 1]], c[b[m]]));
            assert(select::comes_before(c[a[k - 1]], c[a[l]]));
            if x < y {
                assert(c[x].element != c[y].element);
            } else {
                assert(c[y].element != c[x].element);
            }
        }
        assert(a.take(k) =~= a.take(k - 1).push(x));
        assert(b.take(k) =~= b.take(k - 1).push(y));
    }
}

/// The flags that an array has cached can be used when one more candidate
/// comes: a selection by them is exactly the selection without them.
pub proof fn law_cached_flags_can_be_used(
    pair: spec_fn(usize, usize) -> i32,
    array: NeighborArray,
    new_candidate: Candidate,
    lm: int,
    order: Seq<int>,
)
    requires
        connect::cache_ok(pair, array, lm),
        array.closer_set,
        array.items@.len() <= usize::MAX,
        select::is_order(array.items@.push(new_candidate), true, order),
    ensures
        select::cache_holds(
            pair,
            array.items@.push(new_candidate),
            Some(array.items@.len() as usize),
            order,
        ),
{
    let items = array.items@;
    let all = items.push(new_candidate);
    let n = items.len() as int;
    select::lemma_order_covers(all, true, order, n);
    let p = choose|p: int| 0 <= p < order.len() && order[p] == n;
    let rest = select::without_new(order, Some(n as usize));
    select::lemma_without_new(order, n as usize, p);
    assert(rest == order.remove(p));
    assert(forall|j: int|
        #![trigger rest[j]]
        0 <= j < rest.len() ==> rest[j] == if j < p {
            order[j]
        } else {
            order[j + 1]
        });
    assert forall|j: int| #![trigger rest[j]] 0 <= j < rest.len() implies 0 <= rest[j] < n by {
        let i = if j < p {
            j
        } else {
            j + 1
        };
        assert(0 <= order[i] < all.len());
        assert(order[i] != order[p]);
    }
    assert(rest.no_duplicates()) by {
        assert forall|i: int, j: int| 0 <= i < rest.len() && 0 <= j < rest.len() && i
            != j implies rest[i] != rest[j] by {
            let i2 = if i < p {
                i
            } else {
                i + 1
            };
            let j2 = if j < p {
                j
            } else {
                j + 1
            };
            assert(order[i2] != order[j2]);
        }
    }
    assert forall|i: int, j: int| #![trigger rest[i], rest[j]] 0 <= i < j
        < rest.len() implies select::comes_before(items[rest[i]], items[rest[j]]) by {
        let i2 = if i < p {
            i
        } else {
            i + 1
        };
        let j2 = if j < p {
            j
        } else {
            j + 1
        };
        assert(select::comes_before(all[order[i2]], all[order[j2]]));
        assert(0 <= rest[i] < n && 0 <= rest[j] < n);
    }
    assert(select::is_order(items, true, rest));
    assert(select::cache_holds(pair, items, None, rest));
    assert(select::without_new(rest, None) == rest);
    assert forall|j: int| #![trigger rest[j]] 0 <= j < rest.len() implies all[rest[j]].closer
        == select::is_pick(pair, all, rest, j) by {
        let f = |x: int| x;
        assert(0 <= rest[j] < n);
        lemma_picked_renumbered(pair, items, rest, all, rest, f, j);
        assert(items[rest[j]].closer == select::is_pick(pair, items, rest, j));
    }
}

/// Whether `c` is one of `all`, its flag aside, and not the one at `pruned`.
pub open spec fn is_one_of_the_others(all: Seq<Candidate>, pruned: int, c: Candidate) -> bool {
    exists|x: int|
        {
            &&& 0 <= x < all.len()
            &&& x != pruned
            &&& (#[trigger] all[x]).element == c.element
            &&& all[x].distance == c.distance
        }
}

/// How the candidates are numbered once the new one, `n`, has taken the place
/// of the one that is pruned.
spec fn renumbered(n: int, pruned: int) -> spec_fn(int) -> int {
    |x: int|
        if x == n {
            pruned
        } else {
            x
        }
}

/// Every update of a full array keeps its cached flags right: they say which
/// of its candidates are kept. The array stays full, and it holds the
/// candidates that were not pruned.
pub proof fn law_update_keeps_the_cache(
    pair: spec_fn(usize, usize) -> i32,
    array: NeighborArray,
    new_candidate: Candidate,
    lm: int,
    order: Seq<int>,
    after: Seq<Candidate>,
    s: Selection,
    updated: NeighborArray,
    update: ConnectionUpdate,
)
    requires
        connect::cache_ok(pair, array, lm),
        array.items@.len() == lm,
        array.items@.len() <= usize::MAX,
        connect::distinct(array.items@.push(new_candidate)),
        connect::shrunk_by(
            pair,
            array,
            new_candidate,
            lm,
            order,
            after,
            s,
            updated.items@,
            update,
        ),
    ensures
        connect::cache_ok(pair, updated, lm),
        connect::distinct(updated.items@),
        forall|i: int|
            #![trigger updated.items@[i]]
            0 <= i < lm ==> is_one_of_the_others(
                array.items@.push(new_candidate),
                s.pruned->0 as int,
                updated.items@[i],
            ),
{
    let all = array.items@.push(new_candidate);
    let n = array.items@.len() as int;
    let new_items = updated.items@;
    let pr = s.pruned->0 as int;
    if array.closer_set {
        law_cached_flags_can_be_used(pair, array, new_candidate, lm, order);
    }
    assert(select::selected_in_order(pair, all, lm, order, after, s));
    lemma_new_items(all, after, s, new_items, update);
    lemma_new_items_are_the_others(all, after, n, pr, new_items);
    select::lemma_order_covers(all, true, order, pr);
    let q = choose|q: int| 0 <= q < order.len() && order[q] == pr;
    lemma_renumbered_order(all, order, q, n, pr, new_items);
    let sorted = order.remove(q).map_values(renumbered(n, pr));
    lemma_flags_are_right(pair, all, lm, order, after, s, q, new_items);
    assert forall|other: Seq<int>| #[trigger]
        select::is_order(new_items, true, other) implies select::cache_holds(
        pair,
        new_items,
        None,
        other,
    ) by {
        lemma_order_is_unique(new_items, sorted, other, n);
        assert(sorted.take(n) =~= sorted);
        assert(other.take(n) =~= other);
        assert(select::without_new(other, None) == sorted);
    }
}

/// The new items are those that were not pruned, numbered anew.
proof fn lemma_new_items(
    all: Seq<Candidate>,
    after: Seq<Candidate>,
    s: Selection,
    new_items: Seq<Candidate>,
    update: ConnectionUpdate,
)
    requires
        all.len() > 0,
        connect::distinct(all),
        select::same_candidates(all, after),
        s.pruned is Some,
        s.pruned->0 < all.len(),
        connect::shrunk(all, after, s, new_items, update),
    ensures
        new_items.len() == all.len() - 1,
        forall|x: int|
            #![trigger after[x]]
            0 <= x < all.len() && x != s.pruned->0 ==> new_items[renumbered(
                all.len() - 1,
                s.pruned->0 as int,
            )(x)] == after[x],
{
    let n = all.len() - 1;
    let pr = s.pruned->0 as int;
    let pruned = all[pr].element;
    match update {
        ConnectionUpdate::Appended => {},
        ConnectionUpdate::Replaced { place } => {
            let i = place as int;
            assert(all.take(n)[i] == all[i]);
            if i < pr {
                assert(all[i].element != all[pr].element);
            } else if pr < i {
                assert(all[pr].element != all[i].element);
            }
            assert(i == pr);
        },
        ConnectionUpdate::Unchanged => {
            if pr < n {
                assert(all[pr].element == pruned);
            }
            assert(pr == n);
        },
    }
    assert forall|x: int| #![trigger after[x]] 0 <= x <= n && x != pr implies new_items[renumbered(
        n,
        pr,
    )(x)] == after[x] by {
        if x < n {
            assert(after.take(n)[x] == after[x]);
        }
    }
}

proof fn lemma_new_items_are_the_others(
    all: Seq<Candidate>,
    after: Seq<Candidate>,
    n: int,
    pr: int,
    new_items: Seq<Candidate>,
)
    requires
        all.len() == n + 1,
        new_items.len() == n,
        0 <= pr <= n,
        connect::distinct(all),
        select::same_candidates(all, after),
        forall|x: int|
            #![trigger after[x]]
            0 <= x <= n && x != pr ==> new_items[renumbered(n, pr)(x)] == after[x],
    ensures
        connect::distinct(new_items),
        forall|x: int|
            #![trigger all[x]]
            0 <= x <= n && x != pr ==> new_items[renumbered(n, pr)(x)].element == all[x].element
                && new_items[renumbered(n, pr)(x)].distance == all[x].distance,
        forall|i: int|
            #![trigger new_items[i]]
            0 <= i < n ==> is_one_of_the_others(all, pr, new_items[i]),
{
    let f = renumbered(n, pr);
    assert forall|x: int| #![trigger all[x]] 0 <= x <= n && x != pr implies new_items[f(x)].element
        == all[x].element && new_items[f(x)].distance == all[x].distance by {
        assert(new_items[f(x)] == after[x]);
    }
    let back = |i: int|
        if i == pr {
            n
        } else {
            i
        };
    assert forall|i: int| #![trigger new_items[i]] 0 <= i < n implies is_one_of_the_others(
        all,
        pr,
        new_items[i],
    ) by {
        assert(f(back(i)) == i);
        assert(all[back(i)].element == new_items[i].element);
    }
    assert forall|i: int, j: int| #![trigger new_items[i], new_items[j]] 0 <= i < j
        < new_items.len() implies new_items[i].element != new_items[j].element by {
        let x = back(i);
        let y = back(j);
        assert(f(x) == i && f(y) == j);
        assert(all[x].element == new_items[i].element && all[y].element == new_items[j].element);
        if x < y {
            assert(all[x].element != all[y].element);
        } else {
            assert(all[y].element != all[x].element);
        }
    }
}

proof fn lemma_flags_are_right(
    pair: spec_fn(usize, usize) -> i32,
    all: Seq<Candidate>,
    lm: int,
    order: Seq<int>,
    after: Seq<Candidate>,
    s: Selection,
    q: int,
    new_items: Seq<Candidate>,
)
    requires
        all.len() == lm + 1,
        lm >= 0,
        new_items.len() == lm,
        select::is_order(all, true, order),
        select::same_candidates(all, after),
        select::selected_in_order(pair, all, lm, order, after, s),
        0 <= q < order.len(),
        order[q] == s.pruned->0,
        forall|x: int|
            #![trigger after[x]]
            0 <= x <= lm && x != s.pruned->0 ==> new_items[renumbered(
                lm,
                s.pruned->0 as int,
            )(x)] == after[x],
    ensures
        forall|j: int|
            #![trigger order.remove(q).map_values(renumbered(lm, s.pruned->0 as int))[j]]
            0 <= j < lm ==> new_items[order.remove(q).map_values(
                renumbered(lm, s.pruned->0 as int),
            )[j]].closer == select::is_pick(
                pair,
                new_items,
                order.remove(q).map_values(renumbered(lm, s.pruned->0 as int)),
                j,
            ),
{
    let pr = s.pruned->0 as int;
    let f = renumbered(lm, pr);
    let rest = order.remove(q);
    let sorted = rest.map_values(f);
    let stop = select::stop_from(pair, all, order, lm, 0);
    lemma_pruned_is_not_kept(pair, all, order, lm, q);
    assert forall|j: int| #![trigger rest[j]] 0 <= j < rest.len() implies sorted[j] == f(rest[j])
        && new_items[sorted[j]].element == all[rest[j]].element && new_items[sorted[j]].distance
        == all[rest[j]].distance && new_items[sorted[j]] == after[rest[j]] by {
        let j2 = if j < q {
            j
        } else {
            j + 1
        };
        assert(rest[j] == order[j2]);
        assert(order[j2] != order[q]);
        assert(new_items[f(rest[j])] == after[rest[j]]);
    }
    assert forall|j: int| #![trigger sorted[j]] 0 <= j < lm implies new_items[sorted[j]].closer
        == select::is_pick(pair, new_items, sorted, j) by {
        let j2 = if j < q {
            j
        } else {
            j + 1
        };
        assert(rest[j] == order[j2]);
        assert(new_items[sorted[j]] == after[order[j2]]);
        assert(after[order[j2]].closer == select::is_pick(pair, all, order, j2));
        lemma_picked_without(pair, all, order, q, j);
        assert(select::is_pick(pair, all, rest, j) == select::is_pick(pair, all, order, j2));
        lemma_picked_renumbered(pair, all, rest, new_items, sorted, f, j);
    }
}

/// Where the selection stops.
proof fn lemma_stop(
    pair: spec_fn(usize, usize) -> i32,
    c: Seq<Candidate>,
    order: Seq<int>,
    lm: int,
    k: int,
)
    requires
        0 <= k <= order.len(),
        0 <= lm,
        select::picked(pair, c, order, k).len() <= lm,
    ensures
        k <= select::stop_from(pair, c, order, lm, k) <= order.len(),
        select::stop_from(pair, c, order, lm, k) < order.len() ==> select::picked(
            pair,
            c,
            order,
            select::stop_from(pair, c, order, lm, k),
        ).len() == lm,
        select::picked(pair, c, order, select::stop_from(pair, c, order, lm, k)).len() <= lm,
    decreases order.len() - k,
{
    if !(k >= order.len() || select::picked(pair, c, order, k).len() >= lm) {
        lemma_stop(pair, c, order, lm, k + 1);
    }
}

/// Each of those passed over was at some place and was not kept.
proof fn lemma_passed_over(
    pair: spec_fn(usize, usize) -> i32,
    c: Seq<Candidate>,
    order: Seq<int>,
    k: int,
    m: int,
)
    requires
        0 <= k <= order.len(),
        0 <= m < select::passed_over(pair, c, order, k).len(),
    ensures
        exists|j: int|
            0 <= j < k && #[trigger] order[j] == select::passed_over(pair, c, order, k)[m]
                && !select::is_pick(pair, c, order, j),
    decreases k,
{
    if k > 0 {
        let before = select::passed_over(pair, c, order, k - 1);
        if m < before.len() {
            lemma_passed_over(pair, c, order, k - 1, m);
        } else {
            assert(order[k - 1] == select::passed_over(pair, c, order, k)[m]);
        }
    }
}

/// Of one more than `lm`, the one that is pruned is not kept, or comes last;
/// all the others were looked at.
proof fn lemma_pruned_is_not_kept(
    pair: spec_fn(usize, usize) -> i32,
    c: Seq<Candidate>,
    order: Seq<int>,
    lm: int,
    q: int,
)
    requires
        order.no_duplicates(),
        order.len() == lm + 1,
        0 <= q < order.len(),
        0 <= lm,
        order[q] == select::pruned_of(pair, c, order, lm),
    ensures
        q == order.len() - 1 || !select::is_pick(pair, c, order, q),
        select::stop_from(pair, c, order, lm, 0) == order.len() || (select::stop_from(
            pair,
            c,
            order,
            lm,
            0,
        ) == q && q == order.len() - 1),
{
    let k = select::stop_from(pair, c, order, lm, 0);
    lemma_stop(pair, c, order, lm, 0);
    select::lemma_picked_len(pair, c, order, k);
    let room = lm - select::picked(pair, c, order, k).len();
    let rest = select::passed_over(pair, c, order, k);
    if room < rest.len() {
        if k < order.len() {
            assert(select::picked(pair, c, order, k).len() == lm);
            assert(rest.len() == 0);
        }
        lemma_passed_over(pair, c, order, k, room);
        let j = choose|j: int|
            0 <= j < k && #[trigger] order[j] == rest[room] && !select::is_pick(pair, c, order, j);
        assert(order[j] == order[q]);
        assert(j == q);
    } else {
        assert(order[order.len() - 1] == order[q]);
        assert(q == order.len() - 1);
    }
}

/// The order without the one that is pruned, numbered anew, sorts the new
/// items.
proof fn lemma_renumbered_order(
    all: Seq<Candidate>,
    order: Seq<int>,
    q: int,
    n: int,
    pr: int,
    new_items: Seq<Candidate>,
)
    requires
        select::is_order(all, true, order),
        all.len() == n + 1,
        new_items.len() == n,
        0 <= q < order.len(),
        order[q] == pr,
        forall|x: int|
            #![trigger all[x]]
            0 <= x <= n && x != pr ==> new_items[renumbered(n, pr)(x)].element == all[x].element
                && new_items[renumbered(n, pr)(x)].distance == all[x].distance,
    ensures
        select::is_order(new_items, true, order.remove(q).map_values(renumbered(n, pr))),
{
    let f = renumbered(n, pr);
    let rest = order.remove(q);
    let sorted = rest.map_values(f);
    let at = |j: int|
        if j < q {
            j
        } else {
            j + 1
        };
    assert forall|j: int| 0 <= j < rest.len() implies #[trigger] sorted[j] == f(order[at(j)])
        && order[at(j)] != pr && 0 <= order[at(j)] <= n by {
        assert(rest[j] == order[at(j)]);
        assert(order[at(j)] != order[q]);
    }
    assert forall|i: int, j: int| 0 <= i < sorted.len() && 0 <= j < sorted.len() && i
        != j implies sorted[i] != sorted[j] by {
        assert(order[at(i)] != order[at(j)]);
    }
    assert forall|j: int| #![trigger sorted[j]] 0 <= j < sorted.len() implies 0 <= sorted[j]
        < new_items.len() by {
        if order[at(j)] == n {
            assert(pr != n);
            assert(0 <= order[q] < all.len());
        }
    }
    assert forall|i: int, j: int| #![trigger sorted[i], sorted[j]] 0 <= i < j
        < sorted.len() implies select::comes_before(new_items[sorted[i]], new_items[sorted[j]]) by {
        assert(select::comes_before(all[order[at(i)]], all[order[at(j)]]));
    }
}

} // verus!
