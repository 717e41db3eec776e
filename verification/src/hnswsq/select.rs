//! Choice of an element's neighbors.
use crate::hnswsq::types::Candidate;
use vstd::prelude::*;

verus! {

/// What a deterministic function returns for `x` and `y`.
pub open spec fn pair_value<F: Fn(usize, usize) -> i32>(f: F, x: usize, y: usize) -> i32 {
    choose|d: i32| call_ensures(f, (x, y), d)
}

/// The distances between elements that `f` gives, as a specification.
pub open spec fn pairs_of<F: Fn(usize, usize) -> i32>(f: F) -> spec_fn(usize, usize) -> i32 {
    |x: usize, y: usize| pair_value(f, x, y)
}

/// Whether `f` can be called on the candidates of `c` and is deterministic.
pub open spec fn is_pair_distance<F: Fn(usize, usize) -> i32>(f: F, c: Seq<Candidate>) -> bool {
    &&& forall|i: int, j: int|
        #![trigger c[i], c[j]]
        0 <= i < c.len() && 0 <= j < c.len() ==> call_requires(f, (c[i].element, c[j].element))
    &&& forall|x: usize, y: usize, d1: i32, d2: i32|
        #![trigger call_ensures(f, (x, y), d1), call_ensures(f, (x, y), d2)]
        call_ensures(f, (x, y), d1) && call_ensures(f, (x, y), d2) ==> d1 == d2
}

/// Whether `f` can be called on the candidates of `c` and gives the distances
/// `pair`.
pub open spec fn gives_pairs<F: Fn(usize, usize) -> i32>(
    f: F,
    c: Seq<Candidate>,
    pair: spec_fn(usize, usize) -> i32,
) -> bool {
    &&& forall|i: int, j: int|
        #![trigger c[i], c[j]]
        0 <= i < c.len() && 0 <= j < c.len() ==> call_requires(f, (c[i].element, c[j].element))
    &&& forall|i: int, j: int, d: i32|
        #![trigger call_ensures(f, (c[i].element, c[j].element), d)]
        0 <= i < c.len() && 0 <= j < c.len() && call_ensures(
            f,
            (c[i].element, c[j].element),
            d,
        ) ==> d == pair(c[i].element, c[j].element)
}

/// Whether candidate `i` is nearer to the element that neighbors are chosen
/// for than to each of the candidates `r`.
pub open spec fn is_closer(
    pair: spec_fn(usize, usize) -> i32,
    c: Seq<Candidate>,
    i: int,
    r: Seq<int>,
) -> bool {
    forall|m: int|
        #![trigger r[m]]
        0 <= m < r.len() ==> pair(c[i].element, c[r[m]].element) > c[i].distance
}

/// Of the first `k` in `order`, those that are kept for being diverse: each is
/// nearer to the element than to the ones that were kept before it.
pub open spec fn picked(
    pair: spec_fn(usize, usize) -> i32,
    c: Seq<Candidate>,
    order: Seq<int>,
    k: int,
) -> Seq<int>
    decreases k,
{
    if k <= 0 {
        Seq::empty()
    } else {
        let before = picked(pair, c, order, k - 1);
        if is_closer(pair, c, order[k - 1], before) {
            before.push(order[k - 1])
        } else {
            before
        }
    }
}

/// Whether the one at place `k` in `order` is kept.
pub open spec fn is_pick(
    pair: spec_fn(usize, usize) -> i32,
    c: Seq<Candidate>,
    order: Seq<int>,
    k: int,
) -> bool {
    is_closer(pair, c, order[k], picked(pair, c, order, k))
}

/// Of the first `k` in `order`, those that are not kept.
pub open spec fn passed_over(
    pair: spec_fn(usize, usize) -> i32,
    c: Seq<Candidate>,
    order: Seq<int>,
    k: int,
) -> Seq<int>
    decreases k,
{
    if k <= 0 {
        Seq::empty()
    } else {
        let before = passed_over(pair, c, order, k - 1);
        if is_pick(pair, c, order, k - 1) {
            before
        } else {
            before.push(order[k - 1])
        }
    }
}

/// Where, from `k` on, `lm` are kept or all were looked at.
pub open spec fn stop_from(
    pair: spec_fn(usize, usize) -> i32,
    c: Seq<Candidate>,
    order: Seq<int>,
    lm: int,
    k: int,
) -> int
    decreases order.len() - k,
{
    if k >= order.len() || picked(pair, c, order, k).len() >= lm {
        k
    } else {
        stop_from(pair, c, order, lm, k + 1)
    }
}

/// Of the first `k` in `order`, those that are kept and the first `room` of
/// those that are not, in the order in which they were looked at.
pub open spec fn chosen_of(
    pair: spec_fn(usize, usize) -> i32,
    c: Seq<Candidate>,
    order: Seq<int>,
    room: int,
    k: int,
) -> Seq<int>
    decreases k,
{
    if k <= 0 {
        Seq::empty()
    } else {
        let before = chosen_of(pair, c, order, room, k - 1);
        if is_pick(pair, c, order, k - 1) || passed_over(pair, c, order, k - 1).len() < room {
            before.push(order[k - 1])
        } else {
            before
        }
    }
}

/// The chosen ones, in the order in which they were looked at: those kept, and
/// as many of those passed over as there is room for.
pub open spec fn selection(
    pair: spec_fn(usize, usize) -> i32,
    c: Seq<Candidate>,
    order: Seq<int>,
    lm: int,
) -> Seq<int> {
    let k = stop_from(pair, c, order, lm, 0);
    chosen_of(pair, c, order, lm - picked(pair, c, order, k).len(), k)
}

/// The one that is pruned: the nearest of those passed over that there is no
/// room for, or else the furthest of all.
pub open spec fn pruned_of(
    pair: spec_fn(usize, usize) -> i32,
    c: Seq<Candidate>,
    order: Seq<int>,
    lm: int,
) -> int {
    let k = stop_from(pair, c, order, lm, 0);
    let room = lm - picked(pair, c, order, k).len();
    let rest = passed_over(pair, c, order, k);
    if room < rest.len() {
        rest[room]
    } else {
        order.last()
    }
}

/// Candidate `a` comes no later than `b`: it is nearer, or as near with an
/// element no lower.
pub open spec fn comes_before(a: Candidate, b: Candidate) -> bool {
    a.distance < b.distance || (a.distance == b.distance && a.element >= b.element)
}

fn is_before(a: &Candidate, b: &Candidate) -> (r: bool)
    ensures
        r == comes_before(*a, *b),
{
    a.distance < b.distance || (a.distance == b.distance && a.element >= b.element)
}

/// `order` names each candidate once: nearest first where they are sorted,
/// from the last one on where they are not.
pub open spec fn is_order(c: Seq<Candidate>, sorted: bool, order: Seq<int>) -> bool {
    &&& order.len() == c.len()
    &&& order.no_duplicates()
    &&& forall|k: int| #![trigger order[k]] 0 <= k < order.len() ==> 0 <= order[k] < c.len()
    &&& sorted ==> forall|j: int, k: int|
        #![trigger order[j], order[k]]
        0 <= j < k < order.len() ==> comes_before(c[order[j]], c[order[k]])
    &&& !sorted ==> forall|k: int|
        #![trigger order[k]]
        0 <= k < order.len() ==> order[k] == c.len() - 1 - k
}

/// The places of `order` as a sequence of integers.
pub open spec fn ints(s: Seq<usize>) -> Seq<int> {
    s.map_values(|x: usize| x as int)
}

/// The order in which the candidates are looked at.
fn find_order(c: &Vec<Candidate>, sorted: bool) -> (order: Vec<usize>)
    ensures
        is_order(c@, sorted, ints(order@)),
{
    let n: usize = c.len();
    let mut order: Vec<usize> = Vec::new();
    if !sorted {
        let mut k: usize = 0;
        while k < n
            invariant
                n == c@.len(),
                k <= n,
                order@.len() == k,
                forall|j: int| #![trigger order@[j]] 0 <= j < k ==> order@[j] == n - 1 - j,
            decreases n - k,
        {
            order.push(n - 1 - k);
            k = k + 1;
        }
        return order;
    }
    let mut k: usize = 0;
    while k < n
        invariant
            n == c@.len(),
            k <= n,
            order@.len() == k,
            order@.no_duplicates(),
            forall|j: int| #![trigger order@[j]] 0 <= j < k ==> order@[j] < k,
            forall|i: int, j: int|
                #![trigger order@[i], order@[j]]
                0 <= i < j < k ==> comes_before(c@[order@[i] as int], c@[order@[j] as int]),
        decreases n - k,
    {
        let mut p: usize = k;
        while p > 0 && !is_before(&c[order[p - 1]], &c[k])
            invariant
                n == c@.len(),
                k < n,
                p <= k,
                order@.len() == k,
                forall|j: int| #![trigger order@[j]] 0 <= j < k ==> order@[j] < k,
                forall|j: int|
                    #![trigger order@[j]]
                    p <= j < k ==> !comes_before(c@[order@[j] as int], c@[k as int]),
            decreases p,
        {
            p = p - 1;
        }
        let ghost before = order@;
        order.insert(p, k);
        proof {
            let t = order@;
            assert(forall|j: int|
                #![trigger t[j]]
                0 <= j < t.len() ==> t[j] == if j < p {
                    before[j]
                } else if j == p {
                    k
                } else {
                    before[j - 1]
                });
            assert forall|i: int, j: int| #![trigger t[i], t[j]] 0 <= i < j < t.len() implies t[i]
                != t[j] && comes_before(c@[t[i] as int], c@[t[j] as int]) by {
                let i2 = if i < p {
                    i
                } else {
                    i - 1
                };
                let j2 = if j < p {
                    j
                } else {
                    j - 1
                };
                if i == p {
                    assert(before[j2] < k && !comes_before(c@[before[j2] as int], c@[k as int]));
                } else if j == p {
                    assert(before[i2] < k);
                    assert(before[p - 1] < k);
                    if i2 < p - 1 {
                        assert(comes_before(c@[before[i2] as int], c@[before[p - 1] as int]));
                    }
                } else {
                    assert(before[i2] != before[j2]);
                }
            }
        }
        k = k + 1;
    }
    assert forall|i: int, j: int| 0 <= i < ints(order@).len() && 0 <= j < ints(order@).len() && i
        != j implies ints(order@)[i] != ints(order@)[j] by {
        assert(order@[i] != order@[j]);
    }
    order
}

/// Whether candidate `i` is nearer to the element than to each of `r`.
fn check_element_closer<F: Fn(usize, usize) -> i32>(
    c: &Vec<Candidate>,
    i: usize,
    r: &Vec<usize>,
    pair: &F,
    Ghost(pd): Ghost<spec_fn(usize, usize) -> i32>,
) -> (closer: bool)
    requires
        gives_pairs(*pair, c@, pd),
        i < c@.len(),
        forall|m: int| #![trigger r@[m]] 0 <= m < r@.len() ==> r@[m] < c@.len(),
    ensures
        closer == is_closer(pd, c@, i as int, ints(r@)),
{
    let mut m: usize = 0;
    while m < r.len()
        invariant
            gives_pairs(*pair, c@, pd),
            i < c@.len(),
            m <= r@.len(),
            forall|j: int| #![trigger r@[j]] 0 <= j < r@.len() ==> r@[j] < c@.len(),
            forall|j: int|
                #![trigger r@[j]]
                0 <= j < m ==> pd(c@[i as int].element, c@[r@[j] as int].element)
                    > c@[i as int].distance,
        decreases r@.len() - m,
    {
        let ri: usize = r[m];
        assert(r@[m as int] < c@.len());
        let d: i32 = pair(c[i].element, c[ri].element);
        assert(call_ensures(*pair, (c@[i as int].element, c@[ri as int].element), d));
        if d <= c[i].distance {
            assert(ints(r@)[m as int] == ri);
            return false;
        }
        m = m + 1;
    }
    assert forall|j: int| #![trigger ints(r@)[j]] 0 <= j < ints(r@).len() implies pd(
        c@[i as int].element,
        c@[ints(r@)[j]].element,
    ) > c@[i as int].distance by {
        assert(r@[j] < c@.len());
    }
    true
}

/// Whether the candidates differ in nothing but their flags.
pub open spec fn same_candidates(a: Seq<Candidate>, b: Seq<Candidate>) -> bool {
    &&& a.len() == b.len()
    &&& forall|i: int|
        #![trigger a[i]]
        #![trigger b[i]]
        0 <= i < a.len() ==> a[i].element == b[i].element && a[i].distance == b[i].distance
}

/// `order` without the new candidate.
pub open spec fn without_new(order: Seq<int>, new_candidate: Option<usize>) -> Seq<int> {
    match new_candidate {
        Some(i) => order.filter(|x: int| x != i),
        None => order,
    }
}

/// Whether the cached flags say which of the candidates other than the new one
/// are kept when the new one is left out.
pub open spec fn cache_holds(
    pair: spec_fn(usize, usize) -> i32,
    c: Seq<Candidate>,
    new_candidate: Option<usize>,
    order: Seq<int>,
) -> bool {
    let rest = without_new(order, new_candidate);
    forall|j: int|
        #![trigger rest[j]]
        0 <= j < rest.len() ==> c[rest[j]].closer == is_pick(pair, c, rest, j)
}

/// What a selection returns.
#[derive(Debug)]
pub struct Selection {
    /// The chosen candidates, by their places.
    pub selected: Vec<usize>,
    /// The candidate that was pruned.
    pub pruned: Option<usize>,
}

/// What selecting `lm` of more than `lm` candidates in `order` leads to.
pub open spec fn selected_in_order(
    pair: spec_fn(usize, usize) -> i32,
    c: Seq<Candidate>,
    lm: int,
    order: Seq<int>,
    after: Seq<Candidate>,
    s: Selection,
) -> bool {
    let k = stop_from(pair, c, order, lm, 0);
    &&& ints(s.selected@) == selection(pair, c, order, lm)
    &&& s.pruned is Some && s.pruned->0 == pruned_of(pair, c, order, lm)
    &&& forall|j: int|
        #![trigger order[j]]
        0 <= j < order.len() ==> after[order[j]].closer == if j < k {
            is_pick(pair, c, order, j)
        } else {
            c[order[j]].closer
        }
}

/// Some `lm` candidates are chosen, none of them twice, and one of the others
/// is pruned.
pub open spec fn is_some_selection(n: int, lm: int, s: Selection) -> bool {
    &&& s.selected@.len() == lm
    &&& s.selected@.no_duplicates()
    &&& forall|m: int| #![trigger s.selected@[m]] 0 <= m < lm ==> s.selected@[m] < n
    &&& s.pruned is Some && s.pruned->0 < n && !s.selected@.contains(s.pruned->0)
}

/// Whether the places `selected` of `c` follow the order in which the
/// candidates are looked at: nearest first where they are sorted, from the
/// last one on where they are not.
pub open spec fn is_in_order(c: Seq<Candidate>, sorted: bool, selected: Seq<usize>) -> bool {
    forall|a: int, b: int|
        #![trigger selected[a], selected[b]]
        0 <= a < b < selected.len() ==> if sorted {
            comes_before(c[selected[a] as int], c[selected[b] as int])
        } else {
            selected[a] > selected[b]
        }
}

/// Whether no candidate is nearer than one before it.
pub open spec fn is_nearest_first(c: Seq<Candidate>) -> bool {
    forall|a: int, b: int|
        #![trigger c[a], c[b]]
        0 <= a < b < c.len() ==> c[a].distance <= c[b].distance
}

/// Whether no candidate is further than one before it.
pub open spec fn is_furthest_first(c: Seq<Candidate>) -> bool {
    forall|a: int, b: int|
        #![trigger c[a], c[b]]
        0 <= a < b < c.len() ==> c[a].distance >= c[b].distance
}

/// What is selected comes nearest first, where the candidates are sorted or
/// come furthest first.
pub proof fn law_selected_are_nearest_first(
    c: Seq<Candidate>,
    sorted: bool,
    after: Seq<Candidate>,
    selected: Seq<usize>,
)
    requires
        sorted || is_furthest_first(c),
        same_candidates(c, after),
        is_in_order(c, sorted, selected),
        forall|m: int| #![trigger selected[m]] 0 <= m < selected.len() ==> selected[m] < c.len(),
    ensures
        is_nearest_first(selected.map_values(|i: usize| after[i as int])),
{
    let out = selected.map_values(|i: usize| after[i as int]);
    assert forall|a: int, b: int| #![trigger out[a], out[b]] 0 <= a < b
        < out.len() implies out[a].distance <= out[b].distance by {
        let x = selected[a] as int;
        let y = selected[b] as int;
        assert(out[a] == after[x] && out[b] == after[y]);
        assert(after[x].distance == c[x].distance && after[y].distance == c[y].distance);
        if !sorted {
            assert(c[y].distance >= c[x].distance);
        }
    }
}

proof fn lemma_is_closer_same(
    pair: spec_fn(usize, usize) -> i32,
    a: Seq<Candidate>,
    b: Seq<Candidate>,
    i: int,
    r: Seq<int>,
)
    requires
        same_candidates(a, b),
        0 <= i < a.len(),
        forall|m: int| #![trigger r[m]] 0 <= m < r.len() ==> 0 <= r[m] < a.len(),
    ensures
        is_closer(pair, a, i, r) == is_closer(pair, b, i, r),
{
    assert(a[i].element == b[i].element && a[i].distance == b[i].distance);
    assert forall|m: int| #![trigger r[m]] 0 <= m < r.len() implies a[r[m]].element
        == b[r[m]].element by {
        assert(0 <= r[m] < a.len());
    }
}

pub proof fn lemma_picked_len(
    pair: spec_fn(usize, usize) -> i32,
    c: Seq<Candidate>,
    order: Seq<int>,
    k: int,
)
    requires
        0 <= k <= order.len(),
    ensures
        picked(pair, c, order, k).len() + passed_over(pair, c, order, k).len() == k,
    decreases k,
{
    if k > 0 {
        lemma_picked_len(pair, c, order, k - 1);
    }
}

/// The place of the new candidate in `order`, and `order` without it.
pub proof fn lemma_without_new(order: Seq<int>, i: usize, p: int)
    requires
        order.no_duplicates(),
        0 <= p < order.len(),
        order[p] == i,
    ensures
        without_new(order, Some(i)) == order.remove(p),
    decreases order.len(),
{
    let keep = |x: int| x != i;
    let n = order.len() - 1;
    reveal(Seq::filter);
    let shorter = order.drop_last();
    if p == n {
        assert(shorter.filter(keep) =~= shorter) by {
            lemma_filter_all(shorter, i);
        }
        assert(order.remove(p) =~= shorter);
    } else {
        assert(order[n] != order[p]);
        assert(shorter.no_duplicates());
        lemma_without_new(shorter, i, p);
        assert(order.remove(p) =~= shorter.remove(p).push(order[n]));
    }
}

proof fn lemma_filter_all(order: Seq<int>, i: usize)
    requires
        forall|k: int| #![trigger order[k]] 0 <= k < order.len() ==> order[k] != i,
    ensures
        order.filter(|x: int| x != i) == order,
    decreases order.len(),
{
    reveal(Seq::filter);
    if order.len() > 0 {
        lemma_filter_all(order.drop_last(), i);
        assert(order =~= order.drop_last().push(order.last()));
    }
}

/// What is kept of the first `k` when the new candidate, at place `p`, is left
/// out.
spec fn kept_without(
    pair: spec_fn(usize, usize) -> i32,
    c: Seq<Candidate>,
    rest: Seq<int>,
    p: int,
    k: int,
) -> Seq<int> {
    if k <= p {
        picked(pair, c, rest, k)
    } else {
        picked(pair, c, rest, k - 1)
    }
}

/// How what is kept, `r`, relates to what is kept without the new candidate
/// (which is at place `p`): it is the same until the new one is kept; from
/// then on it differs by those `added` and, if any, those removed.
spec fn cache_relates(
    pair: spec_fn(usize, usize) -> i32,
    c: Seq<Candidate>,
    rest: Seq<int>,
    p: int,
    k: int,
    r: Seq<int>,
    added: Seq<int>,
    removed_any: bool,
) -> bool {
    let base = kept_without(pair, c, rest, p, k);
    if added.len() == 0 {
        r == base
    } else {
        &&& k > p
        &&& forall|m: int| #![trigger added[m]] 0 <= m < added.len() ==> r.contains(added[m])
        &&& forall|m: int|
            #![trigger r[m]]
            0 <= m < r.len() ==> base.contains(r[m]) || added.contains(r[m])
        &&& !removed_any ==> forall|m: int|
            #![trigger base[m]]
            0 <= m < base.len() ==> r.contains(base[m])
    }
}

proof fn lemma_only_added_matter(
    pair: spec_fn(usize, usize) -> i32,
    c: Seq<Candidate>,
    i: int,
    base: Seq<int>,
    r: Seq<int>,
    added: Seq<int>,
)
    requires
        is_closer(pair, c, i, base),
        forall|m: int| #![trigger added[m]] 0 <= m < added.len() ==> r.contains(added[m]),
        forall|m: int|
            #![trigger r[m]]
            0 <= m < r.len() ==> base.contains(r[m]) || added.contains(r[m]),
    ensures
        is_closer(pair, c, i, r) == is_closer(pair, c, i, added),
{
    if is_closer(pair, c, i, r) {
        assert forall|m: int| #![trigger added[m]] 0 <= m < added.len() implies pair(
            c[i].element,
            c[added[m]].element,
        ) > c[i].distance by {
            assert(r.contains(added[m]));
            let j = choose|j: int| 0 <= j < r.len() && r[j] == added[m];
            assert(r[j] == added[m]);
        }
    }
    if is_closer(pair, c, i, added) {
        assert forall|m: int| #![trigger r[m]] 0 <= m < r.len() implies pair(
            c[i].element,
            c[r[m]].element,
        ) > c[i].distance by {
            if base.contains(r[m]) {
                let j = choose|j: int| 0 <= j < base.len() && base[j] == r[m];
                assert(base[j] == r[m]);
            } else {
                let j = choose|j: int| 0 <= j < added.len() && added[j] == r[m];
                assert(added[j] == r[m]);
            }
        }
    }
}

proof fn lemma_still_not_closer(
    pair: spec_fn(usize, usize) -> i32,
    c: Seq<Candidate>,
    i: int,
    base: Seq<int>,
    r: Seq<int>,
)
    requires
        !is_closer(pair, c, i, base),
        forall|m: int| #![trigger base[m]] 0 <= m < base.len() ==> r.contains(base[m]),
    ensures
        !is_closer(pair, c, i, r),
{
    let m = choose|m: int|
        #![trigger base[m]]
        0 <= m < base.len() && pair(c[i].element, c[base[m]].element) <= c[i].distance;
    assert(r.contains(base[m]));
    let j = choose|j: int| 0 <= j < r.len() && r[j] == base[m];
    assert(r[j] == base[m]);
}

/// The cache stays related when the one at place `k` was looked at.
proof fn lemma_cache_step(
    pair: spec_fn(usize, usize) -> i32,
    c: Seq<Candidate>,
    order: Seq<int>,
    rest: Seq<int>,
    p: int,
    k: int,
    r: Seq<int>,
    added: Seq<int>,
    removed_any: bool,
    closer: bool,
    added2: Seq<int>,
    removed2: bool,
)
    requires
        0 <= k < order.len(),
        0 <= p <= order.len(),
        p < order.len() ==> rest == order.remove(p),
        p == order.len() ==> rest == order,
        r == picked(pair, c, order, k),
        forall|j: int|
            #![trigger rest[j]]
            0 <= j < rest.len() ==> c[rest[j]].closer == is_pick(pair, c, rest, j),
        cache_relates(pair, c, rest, p, k, r, added, removed_any),
        closer == if added.len() > 0 {
            if c[order[k]].closer {
                is_closer(pair, c, order[k], added)
            } else if removed_any {
                is_closer(pair, c, order[k], r)
            } else {
                false
            }
        } else if k == p {
            is_closer(pair, c, order[k], r)
        } else {
            c[order[k]].closer
        },
        added2 == if closer && ((added.len() > 0 && !c[order[k]].closer) || (added.len() == 0 && k
            == p)) {
            added.push(order[k])
        } else {
            added
        },
        removed2 == (removed_any || (added.len() > 0 && c[order[k]].closer && !closer)),
    ensures
        closer == is_pick(pair, c, order, k),
        cache_relates(
            pair,
            c,
            rest,
            p,
            k + 1,
            if closer {
                r.push(order[k])
            } else {
                r
            },
            added2,
            removed2,
        ),
{
    let e = order[k];
    let q = if k <= p {
        k
    } else {
        k - 1
    };
    let base = kept_without(pair, c, rest, p, k);
    assert(base == picked(pair, c, rest, q));
    let r2 = if closer {
        r.push(e)
    } else {
        r
    };
    if k != p {
        assert(rest[q] == e);
        assert(c[e].closer == is_closer(pair, c, e, base));
        let base2 = kept_without(pair, c, rest, p, k + 1);
        assert(base2 == picked(pair, c, rest, q + 1));
        assert(base2 == if c[e].closer {
            base.push(e)
        } else {
            base
        });
        if added.len() > 0 {
            if c[e].closer {
                lemma_only_added_matter(pair, c, e, base, r, added);
            } else if !removed_any {
                lemma_still_not_closer(pair, c, e, base, r);
            }
            assert forall|m: int| #![trigger added2[m]] 0 <= m < added2.len() implies r2.contains(
                added2[m],
            ) by {
                if m < added.len() {
                    assert(r.contains(added[m]));
                    let j = choose|j: int| 0 <= j < r.len() && r[j] == added[m];
                    assert(r2[j] == added2[m]);
                } else {
                    assert(r2[r.len() as int] == added2[m]);
                }
            }
            assert forall|m: int| #![trigger r2[m]] 0 <= m < r2.len() implies base2.contains(r2[m])
                || added2.contains(r2[m]) by {
                if m < r.len() {
                    assert(r[m] == r2[m]);
                    if base.contains(r[m]) {
                        let j = choose|j: int| 0 <= j < base.len() && base[j] == r[m];
                        assert(base2[j] == r2[m]);
                    } else {
                        let j = choose|j: int| 0 <= j < added.len() && added[j] == r[m];
                        assert(added2[j] == r2[m]);
                    }
                } else if c[e].closer {
                    assert(base2[base.len() as int] == e);
                } else {
                    assert(added2[added.len() as int] == e);
                }
            }
            if !removed2 {
                assert forall|m: int| #![trigger base2[m]] 0 <= m < base2.len() implies r2.contains(
                    base2[m],
                ) by {
                    if m < base.len() {
                        assert(r.contains(base[m]));
                        let j = choose|j: int| 0 <= j < r.len() && r[j] == base[m];
                        assert(r2[j] == base2[m]);
                    } else {
                        assert(r2[r.len() as int] == base2[m]);
                    }
                }
            }
        }
    } else {
        assert(added.len() == 0);
        if closer {
            assert(added2[0] == e);
            assert(r2[r.len() as int] == e);
            assert forall|m: int| #![trigger r2[m]] 0 <= m < r2.len() implies base.contains(r2[m])
                || added2.contains(r2[m]) by {
                if m < r.len() {
                    assert(base[m] == r2[m]);
                } else {
                    assert(added2[0] == r2[m]);
                }
            }
            assert forall|m: int| #![trigger base[m]] 0 <= m < base.len() implies r2.contains(
                base[m],
            ) by {
                assert(r2[m] == base[m]);
            }
        }
    }
}

/// Of the first `k` in `order`, those that are not marked.
spec fn left_out(order: Seq<int>, marked: Seq<bool>, k: int) -> Seq<int>
    decreases k,
{
    if k <= 0 {
        Seq::empty()
    } else if marked[k - 1] {
        left_out(order, marked, k - 1)
    } else {
        left_out(order, marked, k - 1).push(order[k - 1])
    }
}

/// More marks after the first `k` change nothing.
proof fn lemma_left_out_of_first(order: Seq<int>, marked: Seq<bool>, more: Seq<bool>, k: int)
    requires
        0 <= k <= marked.len() <= more.len(),
        forall|j: int| #![trigger more[j]] 0 <= j < k ==> more[j] == marked[j],
    ensures
        left_out(order, more, k) == left_out(order, marked, k),
        left_out(order, marked, k).len() <= k,
    decreases k,
{
    if k > 0 {
        lemma_left_out_of_first(order, marked, more, k - 1);
        assert(more[k - 1] == marked[k - 1]);
    }
}

/// Each of those left out is at a place that is not marked, and as many are
/// left out before it as come before it.
proof fn lemma_left_out(order: Seq<int>, marked: Seq<bool>, k: int, m: int) -> (q: int)
    requires
        0 <= k <= order.len(),
        0 <= m < left_out(order, marked, k).len(),
    ensures
        0 <= q < k,
        order[q] == left_out(order, marked, k)[m],
        !marked[q],
        left_out(order, marked, q).len() == m,
    decreases k,
{
    if marked[k - 1] || m < left_out(order, marked, k - 1).len() {
        lemma_left_out(order, marked, k - 1, m)
    } else {
        k - 1
    }
}

/// Whether `selected` are those of `order` at the places `at`, each of them
/// marked or among the first `room` that are not.
spec fn is_selected_at(
    order: Seq<int>,
    marked: Seq<bool>,
    room: int,
    k: int,
    at: Seq<int>,
    selected: Seq<usize>,
) -> bool {
    &&& at.len() == selected.len()
    &&& forall|m: int|
        #![trigger at[m]]
        0 <= m < at.len() ==> {
            &&& 0 <= at[m] < k
            &&& selected[m] == order[at[m]]
            &&& marked[at[m]] || left_out(order, marked, at[m]).len() < room
        }
    &&& forall|a: int, b: int| #![trigger at[a], at[b]] 0 <= a < b < at.len() ==> at[a] < at[b]
}

/// Choose `lm` of the candidates `c`, between which `pair` gives the distances
/// `pd`.
pub(crate) fn select_by<F: Fn(usize, usize) -> i32>(
    c: &mut Vec<Candidate>,
    lm: usize,
    pair: &F,
    closer_set: &mut bool,
    new_candidate: Option<usize>,
    sort_candidates: bool,
    Ghost(pd): Ghost<spec_fn(usize, usize) -> i32>,
) -> (s: Selection)
    requires
        gives_pairs(*pair, old(c)@, pd),
        new_candidate is Some ==> new_candidate->0 < old(c)@.len(),
    ensures
        same_candidates(old(c)@, final(c)@),
        old(c)@.len() <= lm ==> {
            &&& final(c)@ == old(c)@
            &&& *final(closer_set) == *old(closer_set)
            &&& s.selected@.len() == old(c)@.len()
            &&& forall|i: int|
                #![trigger s.selected@[i]]
                0 <= i < old(c)@.len() ==> s.selected@[i] == i
            &&& s.pruned is None
        },
        old(c)@.len() > lm ==> {
            &&& *final(closer_set) == sort_candidates
            &&& is_some_selection(old(c)@.len() as int, lm as int, s)
            &&& is_in_order(old(c)@, sort_candidates, s.selected@)
            &&& sort_candidates || is_furthest_first(old(c)@) ==> is_nearest_first(
                s.selected@.map_values(|i: usize| old(c)@[i as int]),
            )
            &&& exists|order: Seq<int>|
                {
                    &&& #[trigger] is_order(old(c)@, sort_candidates, order)
                    &&& !*old(closer_set) || cache_holds(
                        pd,
                        old(c)@,
                        new_candidate,
                        order,
                    ) ==> selected_in_order(
                        pd,
                        old(c)@,
                        lm as int,
                        order,
                        final(c)@,
                        s,
                    )
                }
        },
{
    let ghost c0 = c@;
    let n: usize = c.len();
    let mut r: Vec<usize> = Vec::new();
    if n <= lm {
        let mut i: usize = 0;
        while i < n
            invariant
                i <= n,
                r@.len() == i,
                forall|j: int| #![trigger r@[j]] 0 <= j < i ==> r@[j] == j,
            decreases n - i,
        {
            r.push(i);
            i = i + 1;
        }
        return Selection { selected: r, pruned: None };
    }
    let places: Vec<usize> = find_order(c, sort_candidates);
    let must_calculate: bool = !*closer_set;
    let ghost order = ints(places@);
    let ghost rest = without_new(order, new_candidate);
    let ghost sound = must_calculate || cache_holds(pd, c0, new_candidate, order);
    let ghost p: int = match new_candidate {
        Some(i) => choose|p: int| 0 <= p < order.len() && order[p] == i,
        None => order.len() as int,
    };
    proof {
        match new_candidate {
            Some(i) => {
                lemma_order_covers(c0, sort_candidates, order, i as int);
                assert(0 <= p < order.len() && order[p] == i);
                lemma_without_new(order, i, p);
            },
            None => {},
        }
        assert(ints(r@) =~= Seq::<int>::empty());
    }
    let mut wd: Vec<usize> = Vec::new();
    let ghost mut marked: Seq<bool> = Seq::empty();
    let mut added: Vec<usize> = Vec::new();
    let mut removed_any: bool = false;
    let mut k: usize = 0;
    assert(ints(wd@) =~= Seq::<int>::empty());
    assert(ints(added@) =~= Seq::<int>::empty());
    while k < n && r.len() < lm
        invariant
            n == c0.len(),
            n > lm,
            k <= n,
            order == ints(places@),
            places@.len() == n,
            is_order(c0, sort_candidates, order),
            gives_pairs(*pair, c0, pd),
            same_candidates(c0, c@),
            c@.len() == n,
            rest == without_new(order, new_candidate),
            0 <= p <= order.len(),
            p < order.len() ==> rest == order.remove(p),
            p == order.len() ==> rest == order,
            new_candidate is Some ==> p < order.len() && order[p] == new_candidate->0,
            new_candidate is None ==> p == order.len(),
            must_calculate == !*closer_set,
            sound == (must_calculate || cache_holds(pd, c0, new_candidate, order)),
            r@.len() + wd@.len() == k,
            r@.len() <= lm,
            marked.len() == k,
            ints(wd@) == left_out(order, marked, k as int),
            forall|j: int| #![trigger order[j]] 0 <= j < k ==> c@[order[j]].closer == marked[j],
            forall|m: int| #![trigger r@[m]] 0 <= m < r@.len() ==> r@[m] < n,
            forall|m: int| #![trigger wd@[m]] 0 <= m < wd@.len() ==> wd@[m] < n,
            forall|m: int| #![trigger added@[m]] 0 <= m < added@.len() ==> added@[m] < n,
            forall|j: int|
                #![trigger order[j]]
                k <= j < n ==> c@[order[j]].closer == c0[order[j]].closer,
            sound ==> {
                &&& ints(r@) == picked(pd, c0, order, k as int)
                &&& ints(wd@) == passed_over(pd, c0, order, k as int)
                &&& stop_from(pd, c0, order, lm as int, 0) == stop_from(
                    pd,
                    c0,
                    order,
                    lm as int,
                    k as int,
                )
                &&& forall|j: int|
                    #![trigger marked[j]]
                    0 <= j < k ==> marked[j] == is_pick(pd, c0, order, j)
            },
            sound && !must_calculate ==> cache_relates(
                pd,
                c0,
                rest,
                p,
                k as int,
                ints(r@),
                ints(added@),
                removed_any,
            ),
        decreases n - k,
    {
        let e: usize = places[k];
        assert(order[k as int] == e);
        let ghost r0 = ints(r@);
        let ghost wd0 = ints(wd@);
        let ghost added0 = ints(added@);
        let ghost removed0 = removed_any;
        let ghost before = c@;
        let cached: Candidate = c[e];
        let is_new: bool = match new_candidate {
            Some(i) => e == i,
            None => false,
        };
        assert(is_new <==> k == p);
        let mut closer: bool = cached.closer;
        proof {
            lemma_is_closer_same(pd, c0, c@, e as int, r0);
            lemma_is_closer_same(pd, c0, c@, e as int, added0);
            lemma_gives_pairs_same(*pair, c0, c@, pd);
        }
        if must_calculate {
            closer = check_element_closer(c, e, &r, pair, Ghost(pd));
        } else if added.len() > 0 {
            if closer {
                closer = check_element_closer(c, e, &added, pair, Ghost(pd));
                if !closer {
                    removed_any = true;
                }
            } else if removed_any {
                closer = check_element_closer(c, e, &r, pair, Ghost(pd));
                if closer {
                    added.push(e);
                    assert(ints(added@) =~= added0.push(e as int));
                }
            }
        } else if is_new {
            closer = check_element_closer(c, e, &r, pair, Ghost(pd));
            if closer {
                added.push(e);
                assert(ints(added@) =~= added0.push(e as int));
            }
        }
        c.set(e, Candidate { element: cached.element, distance: cached.distance, closer });
        if closer {
            r.push(e);
            assert(ints(r@) =~= r0.push(e as int));
        } else {
            wd.push(e);
            assert(ints(wd@) =~= wd0.push(e as int));
        }
        proof {
            lemma_left_out_of_first(order, marked, marked.push(closer), k as int);
            marked = marked.push(closer);
            if sound && !must_calculate {
                lemma_cache_step(
                    pd,
                    c0,
                    order,
                    rest,
                    p,
                    k as int,
                    r0,
                    added0,
                    removed0,
                    closer,
                    ints(added@),
                    removed_any,
                );
            }
            assert forall|j: int| #![trigger order[j]] 0 <= j < n && j != k implies c@[order[j]]
                == before[order[j]] by {
                assert(order[j] != order[k as int]);
            }
        }
        k = k + 1;
    }
    *closer_set = sort_candidates;
    let room: usize = lm - r.len();
    let pruned: usize = if room < wd.len() {
        wd[room]
    } else {
        places[n - 1]
    };
    let mut selected: Vec<usize> = Vec::new();
    let ghost mut at: Seq<int> = Seq::empty();
    let mut passed: usize = 0;
    let mut j: usize = 0;
    assert(ints(selected@) =~= Seq::<int>::empty());
    while j < k
        invariant
            n == c0.len(),
            c@.len() == n,
            j <= k <= n,
            order == ints(places@),
            places@.len() == n,
            is_order(c0, sort_candidates, order),
            marked.len() == k,
            forall|i: int| #![trigger order[i]] 0 <= i < k ==> c@[order[i]].closer == marked[i],
            passed == left_out(order, marked, j as int).len(),
            passed <= j,
            is_selected_at(order, marked, room as int, j as int, at, selected@),
            selected@.len() == if passed < room {
                j as int
            } else {
                j - passed + room
            },
            sound ==> {
                &&& forall|i: int|
                    #![trigger marked[i]]
                    0 <= i < k ==> marked[i] == is_pick(pd, c0, order, i)
                &&& left_out(order, marked, j as int) == passed_over(pd, c0, order, j as int)
                &&& ints(selected@) == chosen_of(pd, c0, order, room as int, j as int)
            },
        decreases k - j,
    {
        let e: usize = places[j];
        assert(order[j as int] == e);
        let ghost before = selected@;
        let ghost at0 = at;
        let closer: bool = c[e].closer;
        assert(closer == marked[j as int]);
        if closer || passed < room {
            selected.push(e);
            proof {
                at = at.push(j as int);
                assert(ints(selected@) =~= ints(before).push(e as int));
                assert forall|m: int| #![trigger at[m]] 0 <= m < at.len() implies {
                    &&& 0 <= at[m] < j + 1
                    &&& selected@[m] == order[at[m]]
                    &&& marked[at[m]] || left_out(order, marked, at[m]).len() < room
                } by {
                    if m < at0.len() {
                        assert(at[m] == at0[m]);
                    }
                }
                assert forall|a: int, b: int| #![trigger at[a], at[b]] 0 <= a < b
                    < at.len() implies at[a] < at[b] by {
                    assert(at[a] == at0[a]);
                    if b < at0.len() {
                        assert(at[b] == at0[b]);
                    }
                }
            }
        }
        if !closer {
            passed = passed + 1;
        }
        j = j + 1;
    }
    let s: Selection = Selection { selected, pruned: Some(pruned) };
    proof {
        lemma_some_selection(
            c0,
            sort_candidates,
            order,
            marked,
            room as int,
            k as int,
            at,
            lm as int,
            pruned,
            s,
        );
        if sort_candidates || is_furthest_first(c0) {
            law_selected_are_nearest_first(c0, sort_candidates, c0, s.selected@);
        }
        if sound {
            assert(stop_from(pd, c0, order, lm as int, 0) == k);
            assert(selected_in_order(pd, c0, lm as int, order, c@, s));
        }
        assert(is_order(c0, sort_candidates, order));
    }
    s
}

/// Choose `lm` of the candidates `c` for the neighbors of an element. Where
/// there are more, those are chosen that are nearer to the element than to
/// the ones chosen before them; what room is left goes to the nearest of the
/// others. The chosen ones come nearest first, or in the order of `c` where
/// nothing is pruned. The flags of an earlier selection are used where
/// `closer_set`.
pub fn select_neighbors<F: Fn(usize, usize) -> i32>(
    c: &mut Vec<Candidate>,
    lm: usize,
    pair: &F,
    closer_set: &mut bool,
    new_candidate: Option<usize>,
    sort_candidates: bool,
) -> (s: Selection)
    requires
        is_pair_distance(*pair, old(c)@),
        new_candidate is Some ==> new_candidate->0 < old(c)@.len(),
    ensures
        same_candidates(old(c)@, final(c)@),
        old(c)@.len() <= lm ==> {
            &&& final(c)@ == old(c)@
            &&& *final(closer_set) == *old(closer_set)
            &&& s.selected@.len() == old(c)@.len()
            &&& forall|i: int|
                #![trigger s.selected@[i]]
                0 <= i < old(c)@.len() ==> s.selected@[i] == i
            &&& s.pruned is None
        },
        old(c)@.len() > lm ==> {
            &&& *final(closer_set) == sort_candidates
            &&& is_some_selection(old(c)@.len() as int, lm as int, s)
            &&& is_in_order(old(c)@, sort_candidates, s.selected@)
            &&& sort_candidates || is_furthest_first(old(c)@) ==> is_nearest_first(
                s.selected@.map_values(|i: usize| old(c)@[i as int]),
            )
            &&& exists|order: Seq<int>|
                {
                    &&& #[trigger] is_order(old(c)@, sort_candidates, order)
                    &&& !*old(closer_set) || cache_holds(
                        pairs_of(*pair),
                        old(c)@,
                        new_candidate,
                        order,
                    ) ==> selected_in_order(
                        pairs_of(*pair),
                        old(c)@,
                        lm as int,
                        order,
                        final(c)@,
                        s,
                    )
                }
        },
{
    let ghost pd = pairs_of(*pair);
    select_by(c, lm, pair, closer_set, new_candidate, sort_candidates, Ghost(pd))
}

proof fn lemma_gives_pairs_same<F: Fn(usize, usize) -> i32>(
    f: F,
    a: Seq<Candidate>,
    b: Seq<Candidate>,
    pair: spec_fn(usize, usize) -> i32,
)
    requires
        gives_pairs(f, a, pair),
        same_candidates(a, b),
    ensures
        gives_pairs(f, b, pair),
{
    assert forall|i: int, j: int|
        #![trigger b[i], b[j]]
        0 <= i < b.len() && 0 <= j < b.len() implies call_requires(
        f,
        (b[i].element, b[j].element),
    ) by {
        assert(a[i].element == b[i].element && a[j].element == b[j].element);
    }
    assert forall|i: int, j: int, d: i32|
        #![trigger call_ensures(f, (b[i].element, b[j].element), d)]
        0 <= i < b.len() && 0 <= j < b.len() && call_ensures(
            f,
            (b[i].element, b[j].element),
            d,
        ) implies d == pair(b[i].element, b[j].element) by {
        assert(a[i].element == b[i].element && a[j].element == b[j].element);
        assert(call_ensures(f, (a[i].element, a[j].element), d));
    }
}

/// An order names every candidate.
pub proof fn lemma_order_covers(c: Seq<Candidate>, sorted: bool, order: Seq<int>, i: int)
    requires
        is_order(c, sorted, order),
        0 <= i < c.len(),
    ensures
        exists|p: int| 0 <= p < order.len() && order[p] == i,
{
    if !order.contains(i) {
        let n = c.len() as int;
        let all = vstd::set_lib::set_int_range(0, n);
        vstd::set_lib::lemma_int_range(0, n);
        order.unique_seq_to_set();
        let got = order.to_set();
        assert forall|x: int| #[trigger] got.contains(x) implies all.remove(i).contains(x) by {
            let k = choose|k: int| 0 <= k < order.len() && order[k] == x;
            assert(0 <= order[k] < c.len());
        }
        vstd::set_lib::lemma_len_subset(got, all.remove(i));
    }
}

proof fn lemma_some_selection(
    c: Seq<Candidate>,
    sorted: bool,
    order: Seq<int>,
    marked: Seq<bool>,
    room: int,
    k: int,
    at: Seq<int>,
    lm: int,
    pruned: usize,
    s: Selection,
)
    requires
        is_order(c, sorted, order),
        0 <= k <= order.len(),
        0 <= room <= lm < order.len(),
        k < order.len() ==> room == 0,
        k == lm - room + left_out(order, marked, k).len(),
        is_selected_at(order, marked, room, k, at, s.selected@),
        s.selected@.len() == if left_out(order, marked, k).len() < room {
            k
        } else {
            k - left_out(order, marked, k).len() + room
        },
        s.pruned == Some(pruned),
        pruned == if room < left_out(order, marked, k).len() {
            left_out(order, marked, k)[room]
        } else {
            order.last()
        },
    ensures
        is_some_selection(c.len() as int, lm, s),
        is_in_order(c, sorted, s.selected@),
{
    let sel = s.selected@;
    assert forall|m: int| #![trigger sel[m]] 0 <= m < sel.len() implies sel[m] == order[at[m]]
        && sel[m] < c.len() by {
        assert(0 <= at[m] < k);
        assert(0 <= order[at[m]] < c.len());
    }
    assert forall|a: int, b: int| #![trigger sel[a], sel[b]] 0 <= a < b < sel.len() implies sel[a]
        != sel[b] && if sorted {
        comes_before(c[sel[a] as int], c[sel[b] as int])
    } else {
        sel[a] > sel[b]
    } by {
        let x = at[a];
        let y = at[b];
        assert(0 <= x < y < k);
        assert(order[x] != order[y]);
    }
    assert(pruned < c.len()) by {
        if room < left_out(order, marked, k).len() {
            let q = lemma_left_out(order, marked, k, room);
            assert(0 <= order[q] < c.len());
        } else {
            assert(0 <= order[order.len() - 1] < c.len());
        }
    }
    if sel.contains(pruned) {
        let m = choose|m: int| 0 <= m < sel.len() && sel[m] == pruned;
        assert(order[at[m]] == pruned);
        if room < left_out(order, marked, k).len() {
            let q = lemma_left_out(order, marked, k, room);
            assert(order[q] == order[at[m]]);
        } else {
            assert(order[order.len() - 1] == order[at[m]]);
        }
    }
}

} // verus!
