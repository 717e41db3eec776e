//! What a selection of neighbors is for: those that are chosen are diverse.
use crate::hnswsq::select;
use crate::hnswsq::select::Selection;
use crate::hnswsq::types::Candidate;
use vstd::prelude::*;

verus! {

/// The place in `order` of the one kept at place `m` of those kept.
proof fn lemma_picked_at(
    pair: spec_fn(usize, usize) -> i32,
    c: Seq<Candidate>,
    order: Seq<int>,
    k: int,
    m: int,
) -> (i: int)
    requires
        0 <= k <= order.len(),
        0 <= m < select::picked(pair, c, order, k).len(),
    ensures
        0 <= i < k,
        select::is_pick(pair, c, order, i),
        order[i] == select::picked(pair, c, order, k)[m],
    decreases k,
{
    if m < select::picked(pair, c, order, k - 1).len() {
        lemma_picked_at(pair, c, order, k - 1, m)
    } else {
        k - 1
    }
}

/// The place among those kept of the one at place `i` in `order`.
proof fn lemma_pick_is_kept(
    pair: spec_fn(usize, usize) -> i32,
    c: Seq<Candidate>,
    order: Seq<int>,
    k: int,
    i: int,
) -> (m: int)
    requires
        0 <= i < k <= order.len(),
        select::is_pick(pair, c, order, i),
    ensures
        0 <= m < select::picked(pair, c, order, k).len(),
        select::picked(pair, c, order, k)[m] == order[i],
    decreases k,
{
    if i < k - 1 {
        lemma_pick_is_kept(pair, c, order, k - 1, i)
    } else {
        select::picked(pair, c, order, k).len() - 1
    }
}

/// Whether the one at place `i` in `order` is chosen where `room` is left for
/// those passed over.
spec fn is_chosen(
    pair: spec_fn(usize, usize) -> i32,
    c: Seq<Candidate>,
    order: Seq<int>,
    room: int,
    i: int,
) -> bool {
    select::is_pick(pair, c, order, i) || select::passed_over(pair, c, order, i).len() < room
}

/// The place in `order` of the one at place `m` of those chosen.
proof fn lemma_chosen_at(
    pair: spec_fn(usize, usize) -> i32,
    c: Seq<Candidate>,
    order: Seq<int>,
    room: int,
    k: int,
    m: int,
) -> (i: int)
    requires
        0 <= k <= order.len(),
        0 <= m < select::chosen_of(pair, c, order, room, k).len(),
    ensures
        0 <= i < k,
        is_chosen(pair, c, order, room, i),
        order[i] == select::chosen_of(pair, c, order, room, k)[m],
    decreases k,
{
    if m < select::chosen_of(pair, c, order, room, k - 1).len() {
        lemma_chosen_at(pair, c, order, room, k - 1, m)
    } else {
        k - 1
    }
}

/// The place among those chosen of the one at place `i` in `order`.
proof fn lemma_is_chosen(
    pair: spec_fn(usize, usize) -> i32,
    c: Seq<Candidate>,
    order: Seq<int>,
    room: int,
    k: int,
    i: int,
) -> (m: int)
    requires
        0 <= i < k <= order.len(),
        is_chosen(pair, c, order, room, i),
    ensures
        0 <= m < select::chosen_of(pair, c, order, room, k).len(),
        select::chosen_of(pair, c, order, room, k)[m] == order[i],
    decreases k,
{
    if i < k - 1 {
        lemma_is_chosen(pair, c, order, room, k - 1, i)
    } else {
        select::chosen_of(pair, c, order, room, k).len() - 1
    }
}

proof fn lemma_passed_over_grows(
    pair: spec_fn(usize, usize) -> i32,
    c: Seq<Candidate>,
    order: Seq<int>,
    i: int,
    j: int,
)
    requires
        0 <= i <= j <= order.len(),
    ensures
        select::passed_over(pair, c, order, i).len() <= select::passed_over(
            pair,
            c,
            order,
            j,
        ).len(),
        i < j && !select::is_pick(pair, c, order, i) ==> select::passed_over(
            pair,
            c,
            order,
            i,
        ).len() < select::passed_over(pair, c, order, j).len(),
    decreases j - i,
{
    if i < j {
        lemma_passed_over_grows(pair, c, order, i, j - 1);
    }
}

/// The place in `order` of the one at place `m` of those passed over.
proof fn lemma_passed_over_at(
    pair: spec_fn(usize, usize) -> i32,
    c: Seq<Candidate>,
    order: Seq<int>,
    k: int,
    m: int,
) -> (q: int)
    requires
        0 <= k <= order.len(),
        0 <= m < select::passed_over(pair, c, order, k).len(),
    ensures
        0 <= q < k,
        order[q] == select::passed_over(pair, c, order, k)[m],
        !select::is_pick(pair, c, order, q),
        select::passed_over(pair, c, order, q).len() == m,
    decreases k,
{
    if select::is_pick(pair, c, order, k - 1) || m < select::passed_over(
        pair,
        c,
        order,
        k - 1,
    ).len() {
        lemma_passed_over_at(pair, c, order, k - 1, m)
    } else {
        k - 1
    }
}

proof fn lemma_stop_from(
    pair: spec_fn(usize, usize) -> i32,
    c: Seq<Candidate>,
    order: Seq<int>,
    lm: int,
    k: int,
)
    requires
        0 <= k <= order.len(),
        0 <= lm,
        select::picked(pair, c, order, k).len() <= lm,
    ensures
        k <= select::stop_from(pair, c, order, lm, k) <= order.len(),
        select::picked(pair, c, order, select::stop_from(pair, c, order, lm, k)).len() <= lm,
        select::stop_from(pair, c, order, lm, k) < order.len() ==> select::picked(
            pair,
            c,
            order,
            select::stop_from(pair, c, order, lm, k),
        ).len() == lm,
    decreases order.len() - k,
{
    if !(k >= order.len() || select::picked(pair, c, order, k).len() >= lm) {
        lemma_stop_from(pair, c, order, lm, k + 1);
    }
}

/// A candidate counts as closer exactly where its distance to the element is
/// smaller than to each of those that it is compared with.
pub proof fn law_closer_than_to_each(
    pair: spec_fn(usize, usize) -> i32,
    c: Seq<Candidate>,
    i: int,
    r: Seq<int>,
)
    ensures
        select::is_closer(pair, c, i, r) <==> forall|m: int|
            #![trigger r[m]]
            0 <= m < r.len() ==> c[i].distance < pair(c[i].element, c[r[m]].element),
{
}

/// One is a pick exactly where it is nearer to the element than to each pick
/// before it.
proof fn lemma_pick_by_distances(
    pair: spec_fn(usize, usize) -> i32,
    c: Seq<Candidate>,
    order: Seq<int>,
    j: int,
)
    requires
        0 <= j < order.len(),
    ensures
        select::is_pick(pair, c, order, j) <==> forall|i: int|
            0 <= i < j && #[trigger] select::is_pick(pair, c, order, i) ==> pair(
                c[order[j]].element,
                c[order[i]].element,
            ) > c[order[j]].distance,
{
    let r = select::picked(pair, c, order, j);
    law_closer_than_to_each(pair, c, order[j], r);
    if select::is_pick(pair, c, order, j) {
        assert forall|i: int| 0 <= i < j && #[trigger] select::is_pick(
            pair,
            c,
            order,
            i,
        ) implies pair(c[order[j]].element, c[order[i]].element) > c[order[j]].distance by {
            let m = lemma_pick_is_kept(pair, c, order, j, i);
            assert(c[order[j]].distance < pair(c[order[j]].element, c[r[m]].element));
        }
    } else {
        let m = choose|m: int|
            #![trigger r[m]]
            0 <= m < r.len() && pair(c[order[j]].element, c[r[m]].element) <= c[order[j]].distance;
        let i = lemma_picked_at(pair, c, order, j, m);
        assert(select::is_pick(pair, c, order, i));
    }
}

/// Whether the candidates that are looked at, up to `stop`, are marked as closer
/// exactly where they are nearer to the element than to each marked before.
spec fn are_marked_diverse(
    pair: spec_fn(usize, usize) -> i32,
    c: Seq<Candidate>,
    order: Seq<int>,
    stop: int,
    after: Seq<Candidate>,
) -> bool {
    forall|j: int|
        #![trigger order[j]]
        0 <= j < stop ==> (after[order[j]].closer <==> forall|i: int|
            #![trigger order[i]]
            0 <= i < j && after[order[i]].closer ==> pair(
                c[order[j]].element,
                c[order[i]].element,
            ) > c[order[j]].distance)
}

proof fn lemma_marked_diverse(
    pair: spec_fn(usize, usize) -> i32,
    c: Seq<Candidate>,
    order: Seq<int>,
    stop: int,
    after: Seq<Candidate>,
)
    requires
        0 <= stop <= order.len(),
        forall|j: int|
            #![trigger order[j]]
            0 <= j < stop ==> after[order[j]].closer == select::is_pick(pair, c, order, j),
    ensures
        are_marked_diverse(pair, c, order, stop, after),
{
    assert forall|j: int| #![trigger order[j]] 0 <= j < stop implies (after[order[j]].closer
        <==> forall|i: int|
        #![trigger order[i]]
        0 <= i < j && after[order[i]].closer ==> pair(c[order[j]].element, c[order[i]].element)
            > c[order[j]].distance) by {
        lemma_pick_by_distances(pair, c, order, j);
        if !select::is_pick(pair, c, order, j) {
            let i = choose|i: int|
                0 <= i < j && #[trigger] select::is_pick(pair, c, order, i) && pair(
                    c[order[j]].element,
                    c[order[i]].element,
                ) <= c[order[j]].distance;
            assert(after[order[i]].closer);
        } else {
            assert forall|i: int| #![trigger order[i]] 0 <= i < j
                && after[order[i]].closer implies pair(c[order[j]].element, c[order[i]].element)
                > c[order[j]].distance by {
                assert(select::is_pick(pair, c, order, i));
            }
        }
    }
}

/// Those at chosen places are selected.
proof fn lemma_selected(
    pair: spec_fn(usize, usize) -> i32,
    c: Seq<Candidate>,
    order: Seq<int>,
    room: int,
    stop: int,
    sel: Seq<usize>,
    n: int,
    j: int,
)
    requires
        order.no_duplicates(),
        0 <= j < stop <= order.len(),
        forall|i: int| #![trigger order[i]] 0 <= i < order.len() ==> 0 <= order[i] < n,
        forall|m: int| #![trigger sel[m]] 0 <= m < sel.len() ==> sel[m] < n,
        select::ints(sel) == select::chosen_of(pair, c, order, room, stop),
        n <= usize::MAX,
    ensures
        sel.contains(order[j] as usize) <==> is_chosen(pair, c, order, room, j),
{
    let all = select::chosen_of(pair, c, order, room, stop);
    assert(all.len() == sel.len());
    assert(0 <= order[j] < n);
    if is_chosen(pair, c, order, room, j) {
        let m = lemma_is_chosen(pair, c, order, room, stop, j);
        assert(select::ints(sel)[m] == sel[m] as int);
        assert(sel[m] == order[j] as usize);
    }
    if sel.contains(order[j] as usize) {
        let m = choose|m: int| 0 <= m < sel.len() && sel[m] == order[j] as usize;
        assert(select::ints(sel)[m] == sel[m] as int);
        let i = lemma_chosen_at(pair, c, order, room, stop, m);
        assert(order[i] == order[j]);
    }
}

/// What a selection is for, in terms of the distances alone.  The candidates are
/// looked at in `order`, nearest first or from the last one on, up to `stop`.
/// One that is looked at is marked as closer exactly where it is nearer to the
/// element than to each of those marked before it.  All that are marked are
/// selected; others are selected only where all candidates were looked at, and
/// the nearest of them first.
pub proof fn law_selected_are_diverse(
    pair: spec_fn(usize, usize) -> i32,
    c: Seq<Candidate>,
    sorted: bool,
    lm: int,
    order: Seq<int>,
    after: Seq<Candidate>,
    s: Selection,
) -> (stop: int)
    requires
        select::is_order(c, sorted, order),
        c.len() <= usize::MAX,
        0 <= lm < c.len(),
        select::is_some_selection(c.len() as int, lm, s),
        select::selected_in_order(pair, c, lm, order, after, s),
    ensures
        order.len() == c.len(),
        order.no_duplicates(),
        forall|j: int| #![trigger order[j]] 0 <= j < order.len() ==> 0 <= order[j] < c.len(),
        sorted ==> forall|i: int, j: int|
            #![trigger order[i], order[j]]
            0 <= i < j < order.len() ==> c[order[i]].distance <= c[order[j]].distance,
        !sorted ==> forall|j: int|
            #![trigger order[j]]
            0 <= j < order.len() ==> order[j] == c.len() - 1 - j,
        0 <= stop <= order.len(),
        stop == select::stop_from(pair, c, order, lm, 0),
        s.selected@.len() == lm,
        s.selected@.no_duplicates(),
        forall|j: int|
            #![trigger order[j]]
            0 <= j < stop ==> (after[order[j]].closer <==> forall|i: int|
                #![trigger order[i]]
                0 <= i < j && after[order[i]].closer ==> pair(
                    c[order[j]].element,
                    c[order[i]].element,
                ) > c[order[j]].distance),
        forall|j: int|
            #![trigger order[j]]
            0 <= j < stop && after[order[j]].closer ==> s.selected@.contains(order[j] as usize),
        forall|m: int|
            #![trigger s.selected@[m]]
            0 <= m < lm ==> exists|j: int|
                0 <= j < stop && #[trigger] order[j] == s.selected@[m] as int,
        stop < order.len() ==> forall|m: int|
            #![trigger s.selected@[m]]
            0 <= m < lm ==> after[s.selected@[m] as int].closer,
        forall|i: int, j: int|
            #![trigger order[i], order[j]]
            0 <= i < j < stop && !after[order[i]].closer && !after[order[j]].closer
                && s.selected@.contains(order[j] as usize) ==> s.selected@.contains(
                order[i] as usize,
            ),
{
    let stop = select::stop_from(pair, c, order, lm, 0);
    let sel = s.selected@;
    let room = lm - select::picked(pair, c, order, stop).len();
    let n = c.len() as int;
    lemma_stop_from(pair, c, order, lm, 0);
    lemma_marked_diverse(pair, c, order, stop, after);
    let all = select::chosen_of(pair, c, order, room, stop);
    assert(select::ints(sel) == all);
    assert forall|j: int| #![trigger order[j]] 0 <= j < stop
        && after[order[j]].closer implies sel.contains(order[j] as usize) by {
        lemma_selected(pair, c, order, room, stop, sel, n, j);
    }
    assert forall|m: int| #![trigger sel[m]] 0 <= m < lm implies exists|j: int|
        0 <= j < stop && #[trigger] order[j] == sel[m] as int by {
        assert(select::ints(sel)[m] == sel[m] as int);
        let j = lemma_chosen_at(pair, c, order, room, stop, m);
        assert(order[j] == sel[m] as int);
    }
    if stop < order.len() {
        assert forall|m: int| #![trigger sel[m]] 0 <= m < lm implies after[sel[m] as int].closer by {
            assert(select::ints(sel)[m] == sel[m] as int);
            let j = lemma_chosen_at(pair, c, order, room, stop, m);
            assert(after[order[j]].closer);
        }
    }
    assert forall|i: int, j: int|
        #![trigger order[i], order[j]]
        0 <= i < j < stop && !after[order[i]].closer && !after[order[j]].closer && sel.contains(
            order[j] as usize,
        ) implies sel.contains(order[i] as usize) by {
        lemma_selected(pair, c, order, room, stop, sel, n, i);
        lemma_selected(pair, c, order, room, stop, sel, n, j);
        lemma_passed_over_grows(pair, c, order, i, j);
    }
    stop
}

/// The one that is pruned is the nearest of those looked at that are left out;
/// where none of them is, it is the last of all.
pub proof fn law_pruned_is_the_nearest_left_out(
    pair: spec_fn(usize, usize) -> i32,
    c: Seq<Candidate>,
    sorted: bool,
    lm: int,
    order: Seq<int>,
    after: Seq<Candidate>,
    s: Selection,
    j: int,
)
    requires
        select::is_order(c, sorted, order),
        c.len() <= usize::MAX,
        0 <= lm < c.len(),
        select::is_some_selection(c.len() as int, lm, s),
        select::selected_in_order(pair, c, lm, order, after, s),
        0 <= j < order.len(),
        !s.selected@.contains(order[j] as usize),
    ensures
        s.pruned is Some,
        !s.selected@.contains(s.pruned->0),
        s.pruned->0 == order.last() || exists|q: int|
            0 <= q <= j && #[trigger] order[q] == s.pruned->0 as int,
        (forall|m: int|
            #![trigger s.selected@[m]]
            0 <= m < lm ==> after[s.selected@[m] as int].closer) || exists|q: int|
            0 <= q <= j && #[trigger] order[q] == s.pruned->0 as int,
{
    let stop = select::stop_from(pair, c, order, lm, 0);
    let sel = s.selected@;
    let room = lm - select::picked(pair, c, order, stop).len();
    let n = c.len() as int;
    lemma_stop_from(pair, c, order, lm, 0);
    let rest = select::passed_over(pair, c, order, stop);
    if room < rest.len() {
        let q = lemma_passed_over_at(pair, c, order, stop, room);
        if j < stop {
            lemma_selected(pair, c, order, room, stop, sel, n, j);
            if j < q {
                lemma_passed_over_grows(pair, c, order, j, q);
            }
        }
        assert(order[q] == s.pruned->0 as int);
    } else if j < stop {
        lemma_selected(pair, c, order, room, stop, sel, n, j);
        lemma_passed_over_grows(pair, c, order, j, stop);
    } else {
        let _ = law_selected_are_diverse(pair, c, sorted, lm, order, after, s);
        assert(stop < order.len());
        assert forall|m: int| #![trigger sel[m]] 0 <= m < lm implies after[sel[m] as int].closer by {
            assert(select::ints(sel)[m] == sel[m] as int);
            let i = lemma_chosen_at(pair, c, order, room, stop, m);
            assert(after[order[i]].closer);
        }
    }
}

/// One that is pruned and does not come last was looked at.
pub proof fn law_pruned_was_looked_at(
    pair: spec_fn(usize, usize) -> i32,
    c: Seq<Candidate>,
    sorted: bool,
    lm: int,
    order: Seq<int>,
    after: Seq<Candidate>,
    s: Selection,
    q: int,
)
    requires
        select::is_order(c, sorted, order),
        c.len() <= usize::MAX,
        0 <= lm < c.len(),
        select::is_some_selection(c.len() as int, lm, s),
        select::selected_in_order(pair, c, lm, order, after, s),
        0 <= q < order.len() - 1,
        order[q] == s.pruned->0,
    ensures
        q < select::stop_from(pair, c, order, lm, 0),
        !after[order[q]].closer,
{
    let stop = select::stop_from(pair, c, order, lm, 0);
    let room = lm - select::picked(pair, c, order, stop).len();
    lemma_stop_from(pair, c, order, lm, 0);
    let rest = select::passed_over(pair, c, order, stop);
    if room < rest.len() {
        let i = lemma_passed_over_at(pair, c, order, stop, room);
        assert(order[i] == order[q]);
        assert(i == q);
    } else {
        assert(order[order.len() - 1] == order[q]);
    }
}

} // verus!
