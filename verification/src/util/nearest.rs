//! Selecting the nearest of a sequence of distances.
//!
//! A distance is the order key of a floating-point distance (see
//! `util::float_bits`): an integer that is smaller exactly where the distance
//! is.
use vstd::prelude::*;

verus! {

/// Whether `out` names place `x`.
pub open spec fn selects(out: Seq<usize>, x: int) -> bool {
    exists|a: int| 0 <= a < out.len() && (#[trigger] out[a]) == x
}

/// Whether `out` names the `k` nearest of `d` (all of them, where there are
/// fewer), nearest first.  Which of equally distant ones are taken, and in
/// which order they come, is left open.
pub open spec fn is_nearest(d: Seq<i32>, k: int, out: Seq<usize>) -> bool {
    &&& out.len() == if k < d.len() {
        k
    } else {
        d.len() as int
    }
    &&& forall|i: int| 0 <= i < out.len() ==> (#[trigger] out[i]) < d.len()
    &&& forall|i: int, j: int|
        #![trigger out[i], out[j]]
        0 <= i < j < out.len() ==> out[i] != out[j] && d[out[i] as int] <= d[out[j] as int]
    &&& forall|x: int|
        0 <= x < d.len() && out.len() > 0 && !#[trigger] selects(out, x) ==> d[out.last() as int]
            <= d[x]
}

/// The indices of the `k` smallest distances, nearest first.
pub fn nearest_indices(d: &[i32], k: usize) -> (out: Vec<usize>)
    ensures
        is_nearest(d@, k as int, out@),
{
    let mut out: Vec<usize> = Vec::new();
    if k == 0 {
        return out;
    }
    let mut i: usize = 0;
    while i < d.len()
        invariant
            k > 0,
            i <= d.len(),
            is_nearest(d@.take(i as int), k as int, out@),
        decreases d.len() - i,
    {
        let ghost before = out@;
        let ghost seen = d@.take(i as int);
        let full: bool = out.len() == k;
        let x: i32 = d[i];
        assert(forall|j: int| 0 <= j < out@.len() ==> (#[trigger] out@[j]) < i);
        if !full || x < d[out[out.len() - 1]] {
            let mut p: usize = out.len();
            while p > 0 && x < d[out[p - 1]]
                invariant
                    p <= out.len(),
                    i < d.len(),
                    x == d@[i as int],
                    out@ == before,
                    seen == d@.take(i as int),
                    is_nearest(seen, k as int, out@),
                    forall|j: int| 0 <= j < out@.len() ==> (#[trigger] out@[j]) < i,
                    forall|j: int|
                        #![trigger out@[j]]
                        p <= j < out@.len() ==> x < d@[out@[j] as int],
                decreases p,
            {
                p = p - 1;
            }
            out.insert(p, i);
            if full {
                let _ = out.pop();
                proof {
                    lemma_replace_furthest(d@, k as int, i as int, before, p as int);
                    assert(out@ =~= before.insert(p as int, i).drop_last());
                }
            } else {
                proof {
                    lemma_grow_selection(d@, k as int, i as int, before, p as int);
                }
            }
        } else {
            proof {
                lemma_skip_far(d@, k as int, i as int, before);
            }
        }
        i = i + 1;
    }
    assert(d@.take(d@.len() as int) =~= d@);
    out
}

/// Inserting a place behind the nearer ones keeps the order.
proof fn lemma_insert_in_order(d: Seq<i32>, i: int, before: Seq<usize>, p: int)
    requires
        0 <= i < d.len() <= usize::MAX,
        forall|a: int| 0 <= a < before.len() ==> (#[trigger] before[a]) < i,
        forall|a: int, b: int|
            #![trigger before[a], before[b]]
            0 <= a < b < before.len() ==> before[a] != before[b] && d[before[a] as int]
                <= d[before[b] as int],
        0 <= p <= before.len(),
        p > 0 ==> d[before[p - 1] as int] <= d[i],
        forall|j: int|
            #![trigger before[j]]
            p <= j < before.len() ==> d[i] < d[before[j] as int],
    ensures
        ({
            let grown = before.insert(p, i as usize);
            &&& forall|a: int| 0 <= a < grown.len() ==> (#[trigger] grown[a]) <= i
            &&& forall|a: int, b: int|
                #![trigger grown[a], grown[b]]
                0 <= a < b < grown.len() ==> grown[a] != grown[b] && d[grown[a] as int]
                    <= d[grown[b] as int]
        }),
{
    let grown = before.insert(p, i as usize);
    assert forall|a: int| 0 <= a < grown.len() implies (#[trigger] grown[a]) <= i by {
        if a < p {
            assert(grown[a] == before[a]);
        } else if a > p {
            assert(grown[a] == before[a - 1]);
        }
    }
    assert forall|a: int, b: int|
        #![trigger grown[a], grown[b]]
        0 <= a < b < grown.len() implies grown[a] != grown[b] && d[grown[a] as int] <= d[grown[b]
        as int] by {
        let a2 = if a < p {
            a
        } else {
            a - 1
        };
        let b2 = if b < p {
            b
        } else {
            b - 1
        };
        if a == p {
            assert(grown[b] == before[b2]);
        } else if b == p {
            assert(grown[a] == before[a2]);
            if a2 < p - 1 {
                assert(d[before[a2] as int] <= d[before[p - 1] as int]);
            }
        } else {
            assert(grown[a] == before[a2] && grown[b] == before[b2]);
        }
    }
}

/// What an insertion names: what was named before, and the new place.
proof fn lemma_insert_selects(before: Seq<usize>, p: int, i: usize)
    requires
        0 <= p <= before.len(),
    ensures
        forall|x: int|
            #[trigger] selects(before.insert(p, i), x) <==> selects(before, x) || x == i,
{
    let grown = before.insert(p, i);
    assert forall|x: int| selects(before, x) || x == i implies #[trigger] selects(grown, x) by {
        if x == i {
            assert(grown[p] == x);
        } else {
            let a = choose|a: int| 0 <= a < before.len() && (#[trigger] before[a]) == x;
            if a < p {
                assert(grown[a] == x);
            } else {
                assert(grown[a + 1] == x);
            }
        }
    }
    assert forall|x: int| #[trigger] selects(grown, x) implies selects(before, x) || x == i by {
        let a = choose|a: int| 0 <= a < grown.len() && (#[trigger] grown[a]) == x;
        if a < p {
            assert(before[a] == x);
        } else if a > p {
            assert(before[a - 1] == x);
        }
    }
}

/// What a selection among the first `i` distances says of the whole sequence.
proof fn lemma_selection_of_prefix(d: Seq<i32>, k: int, i: int, out: Seq<usize>)
    requires
        0 <= i < d.len(),
        is_nearest(d.take(i), k, out),
    ensures
        forall|a: int| 0 <= a < out.len() ==> (#[trigger] out[a]) < i,
        forall|a: int, b: int|
            #![trigger out[a], out[b]]
            0 <= a < b < out.len() ==> out[a] != out[b] && d[out[a] as int] <= d[out[b] as int],
        forall|x: int|
            0 <= x < i && out.len() > 0 && !#[trigger] selects(out, x) ==> d[out.last() as int]
                <= d[x],
{
    let s = d.take(i);
    assert forall|a: int| 0 <= a < out.len() implies (#[trigger] out[a]) < i by {
        assert(out[a] < s.len());
    }
    assert forall|a: int, b: int|
        #![trigger out[a], out[b]]
        0 <= a < b < out.len() implies out[a] != out[b] && d[out[a] as int] <= d[out[b] as int] by {
        assert(s[out[a] as int] <= s[out[b] as int]);
    }
    assert forall|x: int|
        0 <= x < i && out.len() > 0 && !#[trigger] selects(out, x) implies d[out.last() as int]
        <= d[x] by {
        assert(s[out.last() as int] <= s[x]);
    }
}

/// A selection that had room for the new place.
proof fn lemma_grow_selection(d: Seq<i32>, k: int, i: int, before: Seq<usize>, p: int)
    requires
        0 <= i < d.len() <= usize::MAX,
        is_nearest(d.take(i), k, before),
        0 <= p <= before.len(),
        p > 0 ==> d[before[p - 1] as int] <= d[i],
        forall|j: int|
            #![trigger before[j]]
            p <= j < before.len() ==> d[i] < d[before[j] as int],
        before.len() < k,
    ensures
        is_nearest(d.take(i + 1), k, before.insert(p, i as usize)),
{
    let grown = before.insert(p, i as usize);
    let t = d.take(i + 1);
    lemma_selection_of_prefix(d, k, i, before);
    lemma_insert_in_order(d, i, before, p);
    lemma_insert_selects(before, p, i as usize);
    lemma_all_selected(d.take(i), k, before);
    assert forall|a: int, b: int|
        #![trigger grown[a], grown[b]]
        0 <= a < b < grown.len() implies grown[a] != grown[b] && t[grown[a] as int] <= t[grown[b]
        as int] by {
        assert(grown[a] <= i && grown[b] <= i);
    }
    assert forall|x: int| 0 <= x < t.len() implies #[trigger] selects(grown, x) by {
        if x < i {
            assert(selects(before, x));
        }
    }
}

/// A full selection whose furthest place gives way to the new one.
proof fn lemma_replace_furthest(d: Seq<i32>, k: int, i: int, before: Seq<usize>, p: int)
    requires
        0 <= i < d.len() <= usize::MAX,
        is_nearest(d.take(i), k, before),
        0 <= p < before.len(),
        p > 0 ==> d[before[p - 1] as int] <= d[i],
        forall|j: int|
            #![trigger before[j]]
            p <= j < before.len() ==> d[i] < d[before[j] as int],
        before.len() == k,
    ensures
        is_nearest(d.take(i + 1), k, before.insert(p, i as usize).drop_last()),
{
    let grown = before.insert(p, i as usize);
    let out = grown.drop_last();
    let t = d.take(i + 1);
    lemma_selection_of_prefix(d, k, i, before);
    lemma_insert_in_order(d, i, before, p);
    lemma_insert_selects(before, p, i as usize);
    assert forall|a: int, b: int|
        #![trigger out[a], out[b]]
        0 <= a < b < out.len() implies out[a] != out[b] && t[out[a] as int] <= t[out[b] as int] by {
        assert(out[a] == grown[a] && out[b] == grown[b]);
        assert(grown[a] <= i && grown[b] <= i);
    }
    assert(grown[k] == before[k - 1]);
    assert(out.last() == grown[k - 1]);
    assert(d[grown[k - 1] as int] <= d[grown[k] as int]);
    assert forall|x: int|
        0 <= x < t.len() && out.len() > 0 && !#[trigger] selects(out, x) implies t[out.last() as int]
        <= t[x] by {
        if selects(grown, x) {
            let a = choose|a: int| 0 <= a < grown.len() && (#[trigger] grown[a]) == x;
            if a < k {
                assert(out[a] == x);
            }
        } else {
            assert(!selects(before, x) && x != i);
        }
    }
}

/// A selection of as many places as there are names every place.
pub proof fn lemma_all_selected(d: Seq<i32>, k: int, out: Seq<usize>)
    requires
        is_nearest(d, k, out),
        out.len() == d.len(),
    ensures
        forall|x: int| 0 <= x < d.len() ==> #[trigger] selects(out, x),
{
    assert forall|x: int| 0 <= x < d.len() implies #[trigger] selects(out, x) by {
        let ids = out.map(|i: int, v: usize| v as int);
        assert(forall|i: int| 0 <= i < ids.len() ==> ids[i] == out[i]);
        lemma_pigeonhole(ids, d.len() as int, x);
        let a = choose|a: int| 0 <= a < ids.len() && ids[a] == x;
        assert(out[a] == x);
    }
}

/// `n` distinct numbers below `n` are all the numbers below `n`.
pub proof fn lemma_pigeonhole(ids: Seq<int>, n: int, x: int)
    requires
        ids.len() == n,
        forall|i: int| 0 <= i < ids.len() ==> 0 <= #[trigger] ids[i] < n,
        forall|i: int, j: int|
            #![trigger ids[i], ids[j]]
            0 <= i < j < ids.len() ==> ids[i] != ids[j],
        0 <= x < n,
    ensures
        exists|a: int| 0 <= a < ids.len() && ids[a] == x,
    decreases n,
{
    if !(exists|a: int| 0 <= a < ids.len() && ids[a] == x) {
        let renamed = ids.map(
            |i: int, v: int|
                if v > x {
                    v - 1
                } else {
                    v
                },
        );
        let rest = renamed.drop_last();
        assert forall|i: int| 0 <= i < ids.len() implies 0 <= #[trigger] renamed[i] < n - 1 by {
            assert(0 <= ids[i] < n && ids[i] != x);
        }
        assert forall|i: int, j: int|
            #![trigger renamed[i], renamed[j]]
            0 <= i < j < ids.len() implies renamed[i] != renamed[j] by {
            assert(ids[i] != ids[j] && ids[i] != x && ids[j] != x);
        }
        assert(forall|i: int| 0 <= i < rest.len() ==> rest[i] == renamed[i]);
        let y = renamed[n - 1];
        lemma_pigeonhole(rest, n - 1, y);
        let a = choose|a: int| 0 <= a < rest.len() && rest[a] == y;
        assert(renamed[a] == renamed[n - 1]);
    }
}

/// A full selection that the new place does not enter.
proof fn lemma_skip_far(d: Seq<i32>, k: int, i: int, out: Seq<usize>)
    requires
        k > 0,
        0 <= i < d.len() <= usize::MAX,
        out.len() == k,
        is_nearest(d.take(i), k, out),
        d[out[k - 1] as int] <= d[i],
    ensures
        is_nearest(d.take(i + 1), k, out),
{
    let t = d.take(i + 1);
    lemma_selection_of_prefix(d, k, i, out);
    assert forall|a: int, b: int|
        #![trigger out[a], out[b]]
        0 <= a < b < out.len() implies out[a] != out[b] && t[out[a] as int] <= t[out[b] as int] by {
        assert(out[a] < i && out[b] < i);
    }
    assert forall|a: int| 0 <= a < out.len() implies (#[trigger] out[a]) < t.len() by {
        assert(out[a] < i);
    }
    assert(out.last() < i) by {
        assert(out[k - 1] < i);
    }
}

/// The nearest of some distances are as many as asked for, or all; they are
/// different places, nearest first; and no other is nearer than any of them.
pub proof fn law_nearest_are_the_smallest(d: Seq<i32>, k: int, out: Seq<usize>)
    requires
        is_nearest(d, k, out),
        k >= 0,
    ensures
        out.len() == if k < d.len() {
            k
        } else {
            d.len() as int
        },
        out.no_duplicates(),
        forall|i: int| #![trigger out[i]] 0 <= i < out.len() ==> out[i] < d.len(),
        forall|i: int, j: int|
            #![trigger out[i], out[j]]
            0 <= i < j < out.len() ==> d[out[i] as int] <= d[out[j] as int],
        forall|x: int, i: int|
            #![trigger d[x], out[i]]
            0 <= x < d.len() && 0 <= i < out.len() && !(exists|a: int|
                0 <= a < out.len() && (#[trigger] out[a]) == x) ==> d[out[i] as int] <= d[x],
{
    assert forall|x: int, i: int|
        #![trigger d[x], out[i]]
        0 <= x < d.len() && 0 <= i < out.len() && !(exists|a: int|
            0 <= a < out.len() && (#[trigger] out[a]) == x) implies d[out[i] as int] <= d[x] by {
        assert(!selects(out, x));
        if i < out.len() - 1 {
            assert(d[out[i] as int] <= d[out[out.len() - 1] as int]);
        }
    }
}

} // verus!
