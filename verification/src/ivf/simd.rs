//! The search of an IVF index, over the distances from the query.
//!
//! Distances come in as order keys (see `util::nearest`): the kernels that
//! compute them are floating-point code outside this crate.
use crate::util::nearest;
use vstd::prelude::*;

verus! {

/// The indices of the `n_probe` nearest centroids, nearest first.
///
/// This is the first step of a search: it finds which posting lists to scan.
pub fn find_nearest_centroids(distances: &[i32], n_probe: usize) -> (out: Vec<usize>)
    ensures
        nearest::is_nearest(distances@, n_probe as int, out@),
{
    nearest::nearest_indices(distances, n_probe)
}

/// A candidate result from scanning a posting list.
#[derive(Clone, Copy, Debug, PartialEq, Eq, Structural)]
pub struct SearchResult {
    pub distance: i32,
    pub list_index: usize,
    pub entry_index: usize,
}

/// The entries that the results name.
pub open spec fn entries_of(results: Seq<SearchResult>) -> Seq<usize> {
    results.map(|i: int, r: SearchResult| r.entry_index)
}

/// The distances of the results.
pub open spec fn distances_of(results: Seq<SearchResult>) -> Seq<i32> {
    results.map(|i: int, r: SearchResult| r.distance)
}

/// Whether `out` holds the `k` nearest entries of one list, nearest first.
pub open spec fn is_list_result(
    distances: Seq<i32>,
    list_index: usize,
    k: int,
    out: Seq<SearchResult>,
) -> bool {
    &&& nearest::is_nearest(distances, k, entries_of(out))
    &&& forall|i: int|
        #![trigger out[i]]
        0 <= i < out.len() ==> out[i].list_index == list_index && out[i].distance
            == distances[out[i].entry_index as int]
}

/// Scan a posting list, given the distances of its entries, and return the
/// top-k nearest, nearest first.
pub fn scan_posting_list(distances: &[i32], list_index: usize, k: usize) -> (out: Vec<SearchResult>)
    ensures
        is_list_result(distances@, list_index, k as int, out@),
{
    let chosen: Vec<usize> = nearest::nearest_indices(distances, k);
    let mut out: Vec<SearchResult> = Vec::new();
    let mut i: usize = 0;
    while i < chosen.len()
        invariant
            i <= chosen.len(),
            nearest::is_nearest(distances@, k as int, chosen@),
            out@.len() == i,
            forall|j: int|
                #![trigger out@[j]]
                0 <= j < i ==> out@[j] == (SearchResult {
                    distance: distances@[chosen@[j] as int],
                    list_index,
                    entry_index: chosen@[j],
                }),
        decreases chosen.len() - i,
    {
        let entry_index: usize = chosen[i];
        out.push(SearchResult { distance: distances[entry_index], list_index, entry_index });
        i = i + 1;
    }
    assert(entries_of(out@) =~= chosen@);
    out
}

/// All results, one list after the other.
pub open spec fn flattened(lists: Seq<Vec<SearchResult>>) -> Seq<SearchResult>
    decreases lists.len(),
{
    if lists.len() == 0 {
        Seq::empty()
    } else {
        flattened(lists.drop_last()) + lists.last()@
    }
}

/// Whether `out` holds the `k` nearest of `all`, nearest first.
pub open spec fn is_merge(all: Seq<SearchResult>, k: int, out: Seq<SearchResult>) -> bool {
    exists|sel: Seq<usize>| #[trigger]
        nearest::is_nearest(distances_of(all), k, sel) && out.len() == sel.len() && forall|i: int|
            #![trigger out[i]]
            0 <= i < out.len() ==> out[i] == all[sel[i] as int]
}

/// Merge results from multiple posting list scans and return the global top-k,
/// nearest first.
pub fn merge_search_results(list_results: &Vec<Vec<SearchResult>>, k: usize) -> (out: Vec<
    SearchResult,
>)
    ensures
        is_merge(flattened(list_results@), k as int, out@),
{
    let mut all: Vec<SearchResult> = Vec::new();
    let mut keys: Vec<i32> = Vec::new();
    let mut q: usize = 0;
    assert(list_results@.take(0) =~= Seq::empty());
    while q < list_results.len()
        invariant
            q <= list_results.len(),
            all@ == flattened(list_results@.take(q as int)),
            keys@ == distances_of(all@),
        decreases list_results.len() - q,
    {
        let list: &Vec<SearchResult> = &list_results[q];
        let ghost before = all@;
        let mut j: usize = 0;
        while j < list.len()
            invariant
                j <= list.len(),
                all@ == before + list@.take(j as int),
                keys@ == distances_of(all@),
            decreases list.len() - j,
        {
            all.push(list[j]);
            keys.push(list[j].distance);
            assert(all@ =~= before + list@.take(j + 1));
            assert(keys@ =~= distances_of(all@));
            j = j + 1;
        }
        proof {
            let t = list_results@.take(q + 1);
            assert(t.drop_last() =~= list_results@.take(q as int));
            assert(t.last() == list_results@[q as int]);
            assert(list@.take(list@.len() as int) =~= list@);
        }
        q = q + 1;
    }
    assert(list_results@.take(list_results@.len() as int) =~= list_results@);
    let chosen: Vec<usize> = nearest::nearest_indices(keys.as_slice(), k);
    let mut out: Vec<SearchResult> = Vec::new();
    let mut i: usize = 0;
    while i < chosen.len()
        invariant
            i <= chosen.len(),
            keys@ == distances_of(all@),
            nearest::is_nearest(distances_of(all@), k as int, chosen@),
            out@.len() == i,
            forall|j: int| #![trigger out@[j]] 0 <= j < i ==> out@[j] == all@[chosen@[j] as int],
        decreases chosen.len() - i,
    {
        assert(chosen@[i as int] < distances_of(all@).len());
        out.push(all[chosen[i]]);
        i = i + 1;
    }
    out
}

/// How many entries the probed lists hold.
pub open spec fn probed_entries(lists: Seq<Vec<i32>>, probes: Seq<usize>) -> int
    decreases probes.len(),
{
    if probes.len() == 0 {
        0
    } else {
        probed_entries(lists, probes.drop_last()) + if probes.last() < lists.len() {
            lists[probes.last() as int]@.len() as int
        } else {
            0
        }
    }
}

/// Whether list `li` is probed and holds an entry `e`.
pub open spec fn is_probed_entry(
    lists: Seq<Vec<i32>>,
    probes: Seq<usize>,
    li: int,
    e: int,
) -> bool {
    &&& nearest::selects(probes, li)
    &&& 0 <= li < lists.len()
    &&& 0 <= e < lists[li]@.len()
}

/// Whether some result names entry `e` of list `li`.
pub open spec fn names(out: Seq<SearchResult>, li: int, e: int) -> bool {
    exists|i: int|
        0 <= i < out.len() && (#[trigger] out[i]).list_index == li && out[i].entry_index == e
}

/// Whether `out` holds the `k` nearest entries of the probed lists (all of
/// them, where there are fewer), each once, nearest first.
pub open spec fn is_search_result(
    lists: Seq<Vec<i32>>,
    probes: Seq<usize>,
    k: int,
    out: Seq<SearchResult>,
) -> bool {
    &&& out.len() == if k < probed_entries(lists, probes) {
        k
    } else {
        probed_entries(lists, probes)
    }
    &&& forall|i: int|
        #![trigger out[i]]
        0 <= i < out.len() ==> {
            &&& is_probed_entry(
                lists,
                probes,
                out[i].list_index as int,
                out[i].entry_index as int,
            )
            &&& out[i].distance == lists[out[i].list_index as int]@[out[i].entry_index as int]
        }
    &&& forall|i: int, j: int|
        #![trigger out[i], out[j]]
        0 <= i < j < out.len() ==> {
            &&& out[i].distance <= out[j].distance
            &&& out[i].list_index != out[j].list_index || out[i].entry_index != out[j].entry_index
        }
    &&& forall|li: int, e: int|
        is_probed_entry(lists, probes, li, e) && out.len() > 0 && !#[trigger] names(out, li, e)
            ==> out.last().distance <= lists[li]@[e]
}

/// Perform a complete IVF search: find nearest centroids, scan their posting
/// lists, and return the global top-k results.
///
/// `centroid_distances` are the distances of the centroids, `list_distances`
/// those of the entries of each posting list.
pub fn ivf_search(
    centroid_distances: &[i32],
    list_distances: &Vec<Vec<i32>>,
    n_probe: usize,
    k: usize,
) -> (out: Vec<SearchResult>)
    ensures
        exists|probes: Seq<usize>| #[trigger]
            nearest::is_nearest(centroid_distances@, n_probe as int, probes) && is_search_result(
                list_distances@,
                probes,
                k as int,
                out@,
            ),
{
    let probes: Vec<usize> = find_nearest_centroids(centroid_distances, n_probe);
    let mut list_results: Vec<Vec<SearchResult>> = Vec::new();
    let mut q: usize = 0;
    let ghost mut used: Seq<usize> = Seq::empty();
    proof {
        assert(probes@.take(0) =~= Seq::empty());
    }
    while q < probes.len()
        invariant
            q <= probes.len(),
            used.len() == list_results@.len(),
            used == used_probes(list_distances@, probes@.take(q as int)),
            forall|a: int|
                #![trigger used[a]]
                0 <= a < used.len() ==> used[a] < list_distances@.len() && is_list_result(
                    list_distances@[used[a] as int]@,
                    used[a],
                    k as int,
                    list_results@[a]@,
                ),
        decreases probes.len() - q,
    {
        let list_index: usize = probes[q];
        proof {
            let t = probes@.take(q + 1);
            assert(t.drop_last() =~= probes@.take(q as int));
        }
        if list_index < list_distances.len() {
            let results: Vec<SearchResult> = scan_posting_list(
                list_distances[list_index].as_slice(),
                list_index,
                k,
            );
            list_results.push(results);
            proof {
                used = used.push(list_index);
            }
        }
        q = q + 1;
    }
    let out: Vec<SearchResult> = merge_search_results(&list_results, k);
    proof {
        assert(probes@.take(probes@.len() as int) =~= probes@);
        lemma_search(
            centroid_distances@,
            n_probe as int,
            list_distances@,
            probes@,
            used,
            list_results@,
            k as int,
            out@,
        );
    }
    out
}

/// The probes that name a list, in order.
spec fn used_probes(lists: Seq<Vec<i32>>, probes: Seq<usize>) -> Seq<usize>
    decreases probes.len(),
{
    if probes.len() == 0 {
        Seq::empty()
    } else if probes.last() < lists.len() {
        used_probes(lists, probes.drop_last()).push(probes.last())
    } else {
        used_probes(lists, probes.drop_last())
    }
}

/// Where list `q` starts in the flattened results.
spec fn start_of(lists: Seq<Vec<SearchResult>>, q: int) -> int {
    flattened(lists.take(q)).len() as int
}

proof fn lemma_flattened(lists: Seq<Vec<SearchResult>>, q: int, j: int)
    requires
        0 <= q < lists.len(),
        0 <= j < lists[q]@.len(),
    ensures
        0 <= start_of(lists, q) + j < flattened(lists).len(),
        flattened(lists)[start_of(lists, q) + j] == lists[q]@[j],
    decreases lists.len(),
{
    let init = lists.drop_last();
    if q < lists.len() - 1 {
        lemma_flattened(init, q, j);
        assert(init.take(q) =~= lists.take(q));
    } else {
        assert(lists.take(q) =~= init);
    }
}

proof fn lemma_unflattened(lists: Seq<Vec<SearchResult>>, p: int) -> (r: (int, int))
    requires
        0 <= p < flattened(lists).len(),
    ensures
        0 <= r.0 < lists.len(),
        0 <= r.1 < lists[r.0]@.len(),
        p == start_of(lists, r.0) + r.1,
        flattened(lists)[p] == lists[r.0]@[r.1],
    decreases lists.len(),
{
    let init = lists.drop_last();
    if p < flattened(init).len() {
        let r = lemma_unflattened(init, p);
        assert(init.take(r.0) =~= lists.take(r.0));
        r
    } else {
        let q = lists.len() - 1;
        assert(lists.take(q) =~= init);
        (q, p - flattened(init).len())
    }
}

proof fn lemma_used(lists: Seq<Vec<i32>>, probes: Seq<usize>)
    ensures
        ({
            let used = used_probes(lists, probes);
            &&& forall|a: int|
                #![trigger used[a]]
                0 <= a < used.len() ==> used[a] < lists.len() && nearest::selects(
                    probes,
                    used[a] as int,
                )
            &&& forall|li: int|
                0 <= li < lists.len() && #[trigger] nearest::selects(probes, li)
                    ==> nearest::selects(used, li)
            &&& (forall|a: int, b: int|
                #![trigger probes[a], probes[b]]
                0 <= a < b < probes.len() ==> probes[a] != probes[b]) ==> forall|a: int, b: int|
                #![trigger used[a], used[b]]
                0 <= a < b < used.len() ==> used[a] != used[b]
        }),
    decreases probes.len(),
{
    if probes.len() > 0 {
        let init = probes.drop_last();
        lemma_used(lists, init);
        let u = used_probes(lists, init);
        let used = used_probes(lists, probes);
        assert forall|a: int|
            #![trigger used[a]]
            0 <= a < used.len() implies used[a] < lists.len() && nearest::selects(
            probes,
            used[a] as int,
        ) by {
            if a < u.len() {
                assert(used[a] == u[a]);
                let b = choose|b: int| 0 <= b < init.len() && (#[trigger] init[b]) == u[a] as int;
                assert(probes[b] == u[a] as int);
            } else {
                assert(probes[probes.len() - 1] == used[a] as int);
            }
        }
        assert forall|li: int|
            0 <= li < lists.len() && #[trigger] nearest::selects(
                probes,
                li,
            ) implies nearest::selects(used, li) by {
            let b = choose|b: int| 0 <= b < probes.len() && (#[trigger] probes[b]) == li;
            if b < init.len() {
                assert(init[b] == li);
                assert(nearest::selects(init, li));
                let a = choose|a: int| 0 <= a < u.len() && (#[trigger] u[a]) == li;
                assert(used[a] == li);
            } else {
                assert(used[used.len() - 1] == li);
            }
        }
        if forall|a: int, b: int|
            #![trigger probes[a], probes[b]]
            0 <= a < b < probes.len() ==> probes[a] != probes[b] {
            assert forall|a: int, b: int|
                #![trigger init[a], init[b]]
                0 <= a < b < init.len() implies init[a] != init[b] by {
                assert(probes[a] != probes[b]);
            }
            assert forall|a: int, b: int|
                #![trigger used[a], used[b]]
                0 <= a < b < used.len() implies used[a] != used[b] by {
                assert(used[a] == u[a]);
                if b < u.len() {
                    assert(used[b] == u[b]);
                } else {
                    assert(nearest::selects(init, u[a] as int));
                    let c = choose|c: int|
                        0 <= c < init.len() && (#[trigger] init[c]) == u[a] as int;
                    assert(probes[c] != probes[probes.len() - 1]);
                }
            }
        }
    }
}

/// The results of the lists are as many as their entries, up to `k` a list.
proof fn lemma_flattened_len(
    lists: Seq<Vec<i32>>,
    probes: Seq<usize>,
    results: Seq<Vec<SearchResult>>,
    k: int,
)
    requires
        k >= 0,
        results.len() == used_probes(lists, probes).len(),
        forall|a: int|
            #![trigger results[a]]
            0 <= a < results.len() ==> is_list_result(
                lists[used_probes(lists, probes)[a] as int]@,
                used_probes(lists, probes)[a],
                k,
                results[a]@,
            ),
    ensures
        flattened(results).len() <= probed_entries(lists, probes),
        flattened(results).len() < probed_entries(lists, probes) ==> flattened(results).len() >= k,
    decreases probes.len(),
{
    if probes.len() > 0 {
        let init = probes.drop_last();
        let u = used_probes(lists, init);
        let used = used_probes(lists, probes);
        if probes.last() < lists.len() {
            let r = results.drop_last();
            assert forall|a: int| #![trigger r[a]] 0 <= a < r.len() implies is_list_result(
                lists[u[a] as int]@,
                u[a],
                k,
                r[a]@,
            ) by {
                assert(r[a] == results[a]);
                assert(used[a] == u[a]);
            }
            lemma_flattened_len(lists, init, r, k);
            let last = results[results.len() - 1]@;
            assert(entries_of(last).len() == last.len());
        } else {
            lemma_flattened_len(lists, init, results, k);
        }
    } else {
        assert(results =~= Seq::empty());
    }
}

/// The nearest of the lists' nearest are the nearest of all their entries.
proof fn lemma_search(
    centroids: Seq<i32>,
    n_probe: int,
    lists: Seq<Vec<i32>>,
    probes: Seq<usize>,
    used: Seq<usize>,
    results: Seq<Vec<SearchResult>>,
    k: int,
    out: Seq<SearchResult>,
)
    requires
        k >= 0,
        nearest::is_nearest(centroids, n_probe, probes),
        used == used_probes(lists, probes),
        used.len() == results.len(),
        forall|a: int|
            #![trigger used[a]]
            0 <= a < used.len() ==> used[a] < lists.len() && is_list_result(
                lists[used[a] as int]@,
                used[a],
                k,
                results[a]@,
            ),
        is_merge(flattened(results), k, out),
    ensures
        is_search_result(lists, probes, k, out),
{
    let all = flattened(results);
    let keys = distances_of(all);
    let sel = choose|sel: Seq<usize>| #[trigger]
        nearest::is_nearest(keys, k, sel) && out.len() == sel.len() && forall|i: int|
            #![trigger out[i]]
            0 <= i < out.len() ==> out[i] == all[sel[i] as int];
    lemma_used(lists, probes);
    assert forall|a: int| #![trigger results[a]] 0 <= a < results.len() implies is_list_result(
        lists[used[a] as int]@,
        used[a],
        k,
        results[a]@,
    ) by {
        assert(used[a] < lists.len());
    }
    lemma_flattened_len(lists, probes, results, k);
    assert forall|i: int| #![trigger out[i]] 0 <= i < out.len() implies {
        &&& is_probed_entry(lists, probes, out[i].list_index as int, out[i].entry_index as int)
        &&& out[i].distance == lists[out[i].list_index as int]@[out[i].entry_index as int]
    } by {
        assert(sel[i] < keys.len());
        let (q, j) = lemma_unflattened(results, sel[i] as int);
        assert(results[q]@[j] == out[i]);
        assert(entries_of(results[q]@)[j] == out[i].entry_index);
        assert(entries_of(results[q]@)[j] < lists[used[q] as int]@.len());
    }
    assert forall|i: int, j: int| #![trigger out[i], out[j]] 0 <= i < j < out.len() implies {
        &&& out[i].distance <= out[j].distance
        &&& out[i].list_index != out[j].list_index || out[i].entry_index != out[j].entry_index
    } by {
        assert(sel[i] != sel[j] && keys[sel[i] as int] <= keys[sel[j] as int]);
        assert(sel[i] < keys.len() && sel[j] < keys.len());
        let (q1, j1) = lemma_unflattened(results, sel[i] as int);
        let (q2, j2) = lemma_unflattened(results, sel[j] as int);
        assert(results[q1]@[j1] == out[i] && results[q2]@[j2] == out[j]);
        if q1 == q2 {
            let es = entries_of(results[q1]@);
            assert(es[j1] == out[i].entry_index && es[j2] == out[j].entry_index);
            assert(es[j1] != es[j2]);
        } else {
            assert(used[q1] != used[q2]);
        }
    }
    assert forall|li: int, e: int|
        is_probed_entry(lists, probes, li, e) && out.len() > 0 && !#[trigger] names(
            out,
            li,
            e,
        ) implies out.last().distance <= lists[li]@[e] by {
        assert(nearest::selects(used, li));
        let q = choose|q: int| 0 <= q < used.len() && (#[trigger] used[q]) == li;
        let res = results[q]@;
        let es = entries_of(res);
        assert(is_list_result(lists[li]@, used[q], k, res));
        let last = out.len() - 1;
        assert(out[last] == all[sel[last] as int]);
        assert(sel[last] < keys.len());
        if exists|j: int| 0 <= j < res.len() && !nearest::selects(sel, start_of(results, q) + j)
            && #[trigger] res[j].distance <= lists[li]@[e] {
            let j = choose|j: int|
                0 <= j < res.len() && !nearest::selects(sel, start_of(results, q) + j)
                    && #[trigger] res[j].distance <= lists[li]@[e];
            lemma_flattened(results, q, j);
            assert(keys[sel.last() as int] <= keys[start_of(results, q) + j]);
        } else {
            assert forall|j: int|
                0 <= j < res.len() && #[trigger] res[j].distance
                    <= lists[li]@[e] implies nearest::selects(sel, start_of(results, q) + j) by {}
            if nearest::selects(es, e) {
                let j = choose|j: int| 0 <= j < es.len() && (#[trigger] es[j]) == e;
                assert(res[j].entry_index == e);
                assert(res[j].distance == lists[li]@[e]);
                assert(nearest::selects(sel, start_of(results, q) + j));
                let i = choose|i: int|
                    0 <= i < sel.len() && (#[trigger] sel[i]) == start_of(results, q) + j;
                lemma_flattened(results, q, j);
                assert(out[i] == res[j]);
                assert(names(out, li, e));
            } else {
                let j = lemma_full_list(
                    lists[li]@,
                    k,
                    res,
                    sel,
                    start_of(results, q),
                    used[q],
                    e,
                );
                lemma_flattened(results, q, j);
                assert(out[last] == res[j]);
                lemma_no_nearer(lists[li]@, k, res, used[q], e, j);
            }
        }
    }
}

/// An entry that a full list result left out is no nearer than any it holds.
proof fn lemma_no_nearer(
    d: Seq<i32>,
    k: int,
    res: Seq<SearchResult>,
    list_index: usize,
    e: int,
    j: int,
)
    requires
        is_list_result(d, list_index, k, res),
        0 <= e < d.len(),
        !nearest::selects(entries_of(res), e),
        0 <= j < res.len(),
    ensures
        res[j].distance <= d[e],
{
    let es = entries_of(res);
    assert(d[es.last() as int] <= d[e]);
    let last = es.len() - 1;
    assert(es[j] == res[j].entry_index);
    assert(es[last] == res[last].entry_index);
    if j < last {
        assert(d[es[j] as int] <= d[es[last] as int]);
    }
}

/// Where a list left out an entry and all its results are selected, they are
/// the whole selection.
proof fn lemma_full_list(
    d: Seq<i32>,
    k: int,
    res: Seq<SearchResult>,
    sel: Seq<usize>,
    start: int,
    list_index: usize,
    e: int,
) -> (j: int)
    requires
        is_list_result(d, list_index, k, res),
        0 <= e < d.len(),
        !nearest::selects(entries_of(res), e),
        0 < sel.len() <= k,
        forall|j: int|
            0 <= j < res.len() && #[trigger] res[j].distance <= d[e] ==> nearest::selects(
                sel,
                start + j,
            ),
    ensures
        0 <= j < res.len(),
        sel.last() == start + j,
{
    let es = entries_of(res);
    assert(es.len() == k) by {
        if es.len() < k {
            nearest::lemma_all_selected(d, k, es);
        }
    }
    let ids = Seq::new(
        k as nat,
        |j: int| choose|i: int| 0 <= i < sel.len() && (#[trigger] sel[i]) == start + j,
    );
    assert forall|j: int| 0 <= j < k implies 0 <= #[trigger] ids[j] < sel.len() && sel[ids[j]]
        == start + j by {
        lemma_no_nearer(d, k, res, list_index, e, j);
        assert(res[j].distance <= d[e]);
        assert(nearest::selects(sel, start + j));
    }
    let x = sel.len() - 1;
    assert forall|a: int, b: int|
        #![trigger ids[a], ids[b]]
        0 <= a < b < ids.len() implies ids[a] != ids[b] by {
        assert(sel[ids[a]] == start + a && sel[ids[b]] == start + b);
    }
    nearest::lemma_pigeonhole(ids, k, x);
    let j = choose|j: int| 0 <= j < ids.len() && ids[j] == x;
    assert(sel[ids[j]] == start + j);
    j
}

/// The results of several lists are those of each, one after the other.
pub proof fn law_results_are_flattened_in_order(a: Seq<Vec<SearchResult>>, b: Seq<Vec<SearchResult>>)
    ensures
        flattened(a + b) == flattened(a) + flattened(b),
        a.len() == 1 ==> flattened(a) == a[0]@,
        a.len() == 0 ==> flattened(a) == Seq::<SearchResult>::empty(),
    decreases b.len(),
{
    if b.len() == 0 {
        assert(a + b =~= a);
        assert(flattened(a) + flattened(b) =~= flattened(a));
    } else {
        law_results_are_flattened_in_order(a, b.drop_last());
        assert((a + b).drop_last() =~= a + b.drop_last());
        assert(flattened(a + b) =~= flattened(a) + flattened(b));
    }
    if a.len() == 1 {
        assert(a.drop_last() =~= Seq::empty());
        reveal_with_fuel(flattened, 2);
        assert(flattened(a) =~= a[0]@);
    }
}

/// The lists probed have the entries of each of them.
pub proof fn law_probed_entries_add_up(lists: Seq<Vec<i32>>, a: Seq<usize>, b: Seq<usize>)
    ensures
        probed_entries(lists, a + b) == probed_entries(lists, a) + probed_entries(lists, b),
        a.len() == 1 && a[0] < lists.len() ==> probed_entries(lists, a) == lists[a[0] as int]@.len(),
        a.len() == 0 ==> probed_entries(lists, a) == 0,
    decreases b.len(),
{
    if b.len() == 0 {
        assert(a + b =~= a);
    } else {
        law_probed_entries_add_up(lists, a, b.drop_last());
        assert((a + b).drop_last() =~= a + b.drop_last());
    }
    reveal_with_fuel(probed_entries, 2);
}

/// A merge keeps the nearest of all results: as many as asked for, or all, nearest
/// first; and none that is left out is nearer than one that is kept.
pub proof fn law_merge_keeps_the_nearest(all: Seq<SearchResult>, k: int, out: Seq<SearchResult>)
    requires
        is_merge(all, k, out),
        k >= 0,
    ensures
        out.len() == if k < all.len() {
            k
        } else {
            all.len() as int
        },
        forall|i: int, j: int|
            #![trigger out[i], out[j]]
            0 <= i < j < out.len() ==> out[i].distance <= out[j].distance,
        forall|i: int| #![trigger out[i]] 0 <= i < out.len() ==> all.contains(out[i]),
        forall|x: int, i: int|
            #![trigger all[x], out[i]]
            0 <= x < all.len() && 0 <= i < out.len() && !out.contains(all[x]) ==> out[i].distance
                <= all[x].distance,
{
    let d = distances_of(all);
    let sel = choose|sel: Seq<usize>| #[trigger]
        nearest::is_nearest(d, k, sel) && out.len() == sel.len() && forall|i: int|
            #![trigger out[i]]
            0 <= i < out.len() ==> out[i] == all[sel[i] as int];
    nearest::law_nearest_are_the_smallest(d, k, sel);
    assert forall|i: int| #![trigger out[i]] 0 <= i < out.len() implies all.contains(out[i])
        && out[i].distance == d[sel[i] as int] by {
        assert(sel[i] < d.len());
        assert(all[sel[i] as int] == out[i]);
    }
    assert forall|i: int, j: int| #![trigger out[i], out[j]] 0 <= i < j
        < out.len() implies out[i].distance <= out[j].distance by {
        assert(d[sel[i] as int] <= d[sel[j] as int]);
    }
    assert forall|x: int, i: int|
        #![trigger all[x], out[i]]
        0 <= x < all.len() && 0 <= i < out.len() && !out.contains(
            all[x],
        ) implies out[i].distance <= all[x].distance by {
        if exists|a: int| 0 <= a < sel.len() && (#[trigger] sel[a]) == x {
            let j = choose|j: int| 0 <= j < sel.len() && (#[trigger] sel[j]) == x;
            assert(out[j] == all[x]);
        }
        assert(d[sel[i] as int] <= d[x]);
    }
}

} // verus!
