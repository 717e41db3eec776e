//! K-means++ initialization and Lloyd's algorithm, given the distances, the draws
//! and the means.
use crate::hnswsq::neighbors;
use crate::hnswsq::select;
use crate::ivf::assign;
use crate::util::float_bits;
use crate::util::random;
use vstd::prelude::*;

verus! {

/// The order key of the greatest finite distance.
pub const MAX_DISTANCE: i32 = 0x7F7F_FFFF;

/// How many centroids `n` vectors get where `k` are asked for.
pub fn centroid_count(n: usize, k: usize) -> (r: usize)
    ensures
        r == if k < n {
            k
        } else {
            n
        },
{
    if k < n {
        k
    } else {
        n
    }
}

/// The initial centroids under selection: they are named by the index of the
/// vector that they are.
#[derive(Debug)]
pub struct KMeansInit {
    /// How many centroids are to be chosen.
    pub k: usize,
    /// Distance of each vector to the nearest centroid chosen so far.
    pub min_distances: Vec<i32>,
    /// The vectors that were chosen.
    pub chosen: Vec<usize>,
}

impl KMeansInit {
    /// Every chosen centroid is one of the vectors, and no more are chosen than
    /// were asked for.
    pub open spec fn wf(&self) -> bool {
        &&& self.k <= self.min_distances@.len()
        &&& self.chosen@.len() <= self.k
        &&& forall|i: int|
            0 <= i < self.chosen@.len() ==> (#[trigger] self.chosen@[i]) < self.min_distances@.len()
    }

    /// Choose the first of `k` centroids (as many as there are vectors, at
    /// most) uniformly at random.  No centroid is chosen where there are no
    /// vectors or none is asked for.
    pub fn start(n: usize, k: usize) -> (s: KMeansInit)
        ensures
            s.wf(),
            s.k == if k < n {
                k
            } else {
                n
            },
            s.min_distances@ == Seq::new(n as nat, |i: int| MAX_DISTANCE),
            s.chosen@.len() == if n == 0 || k == 0 {
                0int
            } else {
                1
            },
    {
        let mut min_distances: Vec<i32> = Vec::new();
        let mut i: usize = 0;
        while i < n
            invariant
                i <= n,
                min_distances@ == Seq::new(i as nat, |j: int| MAX_DISTANCE),
            decreases n - i,
        {
            min_distances.push(MAX_DISTANCE);
            assert(min_distances@ =~= Seq::new((i + 1) as nat, |j: int| MAX_DISTANCE));
            i = i + 1;
        }
        let mut s: KMeansInit = KMeansInit {
            k: centroid_count(n, k),
            min_distances,
            chosen: Vec::new(),
        };
        if n > 0 && k > 0 {
            let first: usize = random::random_index(n);
            s.chosen.push(first);
        }
        s
    }

    /// Update the minimum distances with those to the latest centroid.
    pub fn observe(&mut self, distances: &[i32])
        requires
            old(self).wf(),
            distances.len() == old(self).min_distances@.len(),
        ensures
            final(self).wf(),
            final(self).k == old(self).k,
            final(self).chosen@ == old(self).chosen@,
            final(self).min_distances@ == Seq::new(
                old(self).min_distances@.len(),
                |i: int|
                    if distances@[i] < old(self).min_distances@[i] {
                        distances@[i]
                    } else {
                        old(self).min_distances@[i]
                    },
            ),
    {
        let mut i: usize = 0;
        while i < distances.len()
            invariant
                i <= distances.len(),
                distances.len() == self.min_distances@.len(),
                self.min_distances@.len() == old(self).min_distances@.len(),
                self.k == old(self).k,
                self.chosen@ == old(self).chosen@,
                forall|j: int|
                    #![trigger self.min_distances@[j]]
                    0 <= j < i ==> self.min_distances@[j] == if distances@[j] < old(
                        self,
                    ).min_distances@[j] {
                        distances@[j]
                    } else {
                        old(self).min_distances@[j]
                    },
                forall|j: int|
                    #![trigger self.min_distances@[j]]
                    i <= j < distances.len() ==> self.min_distances@[j] == old(
                        self,
                    ).min_distances@[j],
            decreases distances.len() - i,
        {
            if distances[i] < self.min_distances[i] {
                self.min_distances[i] = distances[i];
            }
            i = i + 1;
        }
        assert(self.min_distances@ =~= Seq::new(
            old(self).min_distances@.len(),
            |i: int|
                if distances@[i] < old(self).min_distances@[i] {
                    distances@[i]
                } else {
                    old(self).min_distances@[i]
                },
        ));
    }

    /// Take vector `index` as the next centroid.
    pub fn choose_next(&mut self, index: usize)
        requires
            old(self).wf(),
            old(self).chosen@.len() < old(self).k,
            index < old(self).min_distances@.len(),
        ensures
            final(self).wf(),
            final(self).k == old(self).k,
            final(self).min_distances@ == old(self).min_distances@,
            final(self).chosen@ == old(self).chosen@.push(index),
    {
        self.chosen.push(index);
    }

    /// Take a vector as the next centroid at random: all of them lie at
    /// distance zero from the centroids.
    pub fn choose_at_random(&mut self)
        requires
            old(self).wf(),
            0 < old(self).chosen@.len() < old(self).k,
        ensures
            final(self).wf(),
            final(self).k == old(self).k,
            final(self).min_distances@ == old(self).min_distances@,
            final(self).chosen@.len() == old(self).chosen@.len() + 1,
            final(self).chosen@.drop_last() == old(self).chosen@,
    {
        let index: usize = random::random_index(self.min_distances.len());
        self.chosen.push(index);
        assert(self.chosen@.drop_last() =~= old(self).chosen@);
    }

    /// Whether all centroids are chosen.
    pub fn is_done(&self) -> (r: bool)
        ensures
            r == (self.chosen@.len() >= self.k),
    {
        self.chosen.len() >= self.k
    }
}

/// The distance of vector `i` to the nearest of the chosen ones.
pub open spec fn min_distance(
    dist: spec_fn(usize, usize) -> i32,
    chosen: Seq<usize>,
    i: int,
) -> i32
    decreases chosen.len(),
{
    if chosen.len() == 0 {
        MAX_DISTANCE
    } else {
        let before = min_distance(dist, chosen.drop_last(), i);
        let d = dist(i as usize, chosen.last());
        if d < before {
            d
        } else {
            before
        }
    }
}

/// The distances of `n` vectors to the nearest of the chosen ones.
pub open spec fn min_distances(
    dist: spec_fn(usize, usize) -> i32,
    n: int,
    chosen: Seq<usize>,
) -> Seq<i32> {
    Seq::new(n as nat, |i: int| min_distance(dist, chosen, i))
}

/// Whether `c` is what `draw` gave for the distances to the chosen ones; where
/// it gave none, any vector will do.
pub open spec fn is_drawn<W: Fn(&Vec<i32>) -> Option<usize>>(
    draw: W,
    dist: spec_fn(usize, usize) -> i32,
    n: int,
    chosen: Seq<usize>,
    c: usize,
) -> bool {
    exists|d: Vec<i32>, drawn: Option<usize>|
        d@ == min_distances(dist, n, chosen) && #[trigger] call_ensures(draw, (&d,), drawn) && (
        drawn is Some ==> drawn->0 == c)
}

/// K-means++ initialization: choose `k` of the vectors as centroids (all of them,
/// where there are fewer).  The first one is drawn uniformly; each other one by
/// `draw`, which is given the distance of each vector to the nearest centroid
/// so far, and uniformly where `draw` gives none.
pub fn kmeans_plus_plus_init<
    D: Fn(usize, usize) -> i32,
    W: Fn(&Vec<i32>) -> Option<usize>,
>(num_vectors: usize, k: usize, distance: &D, draw: &W) -> (chosen: Vec<usize>)
    requires
        neighbors::is_pair_distance_on(*distance, num_vectors as int),
        forall|d: Vec<i32>|
            #![trigger call_requires(*draw, (&d,))]
            d@.len() == num_vectors ==> call_requires(*draw, (&d,)),
        forall|d: Vec<i32>, drawn: Option<usize>| #[trigger]
            call_ensures(*draw, (&d,), drawn) && drawn is Some ==> drawn->0 < d@.len(),
    ensures
        chosen@.len() == if k < num_vectors {
            k
        } else {
            num_vectors
        },
        forall|j: int| #![trigger chosen@[j]] 0 <= j < chosen@.len() ==> chosen@[j] < num_vectors,
        forall|j: int|
            #![trigger chosen@[j]]
            0 < j < chosen@.len() ==> is_drawn(
                *draw,
                select::pairs_of(*distance),
                num_vectors as int,
                chosen@.take(j),
                chosen@[j],
            ),
{
    let ghost dist = select::pairs_of(*distance);
    let ghost n = num_vectors as int;
    let mut s: KMeansInit = KMeansInit::start(num_vectors, k);
    proof {
        if s.chosen@.len() > 0 {
            assert(s.chosen@.drop_last() =~= Seq::empty());
            assert(s.min_distances@ =~= min_distances(dist, n, s.chosen@.drop_last()));
        }
    }
    while !s.is_done()
        invariant
            s.wf(),
            s.k == if k < num_vectors {
                k
            } else {
                num_vectors
            },
            n == num_vectors,
            dist == select::pairs_of(*distance),
            neighbors::is_pair_distance_on(*distance, n),
            forall|d: Vec<i32>|
                #![trigger call_requires(*draw, (&d,))]
                d@.len() == num_vectors ==> call_requires(*draw, (&d,)),
            forall|d: Vec<i32>, drawn: Option<usize>| #[trigger]
                call_ensures(*draw, (&d,), drawn) && drawn is Some ==> drawn->0 < d@.len(),
            s.k > 0 ==> s.chosen@.len() > 0,
            s.chosen@.len() > 0 ==> s.min_distances@ == min_distances(
                dist,
                n,
                s.chosen@.drop_last(),
            ),
            forall|j: int|
                #![trigger s.chosen@[j]]
                0 < j < s.chosen@.len() ==> is_drawn(*draw, dist, n, s.chosen@.take(j), s.chosen@[j]),
        decreases s.k - s.chosen@.len(),
    {
        let ghost before = s.chosen@;
        let last: usize = s.chosen[s.chosen.len() - 1];
        let mut distances: Vec<i32> = Vec::new();
        let mut i: usize = 0;
        while i < num_vectors
            invariant
                i <= num_vectors,
                last < num_vectors,
                n == num_vectors,
                dist == select::pairs_of(*distance),
                neighbors::is_pair_distance_on(*distance, n),
                distances@.len() == i,
                forall|x: int|
                    #![trigger distances@[x]]
                    0 <= x < i ==> distances@[x] == dist(x as usize, last),
            decreases num_vectors - i,
        {
            let d: i32 = distance(i, last);
            assert(dist(i, last) == d);
            distances.push(d);
            i = i + 1;
        }
        s.observe(distances.as_slice());
        assert(s.min_distances@ =~= min_distances(dist, n, before)) by {
            assert(before.last() == last);
        }
        let drawn: Option<usize> = draw(&s.min_distances);
        match drawn {
            Some(index) => s.choose_next(index),
            None => s.choose_at_random(),
        }
        proof {
            let c = s.chosen@.last();
            assert(s.chosen@.drop_last() =~= before);
            assert(is_drawn(*draw, dist, n, before, c));
            assert forall|j: int| #![trigger s.chosen@[j]] 0 < j < s.chosen@.len() implies is_drawn(
                *draw,
                dist,
                n,
                s.chosen@.take(j),
                s.chosen@[j],
            ) by {
                if j < before.len() {
                    assert(s.chosen@[j] == before[j]);
                    assert(s.chosen@.take(j) =~= before.take(j));
                } else {
                    assert(s.chosen@.take(j) =~= before);
                }
            }
        }
    }
    s.chosen
}

/// How many of the vectors were assigned to cluster `c`.
pub open spec fn cluster_size(assigned: Seq<usize>, c: int) -> int
    decreases assigned.len(),
{
    if assigned.len() == 0 {
        0
    } else {
        cluster_size(assigned.drop_last(), c) + if assigned.last() == c {
            1int
        } else {
            0
        }
    }
}

proof fn lemma_cluster_size(assigned: Seq<usize>, c: int)
    ensures
        0 <= cluster_size(assigned, c) <= assigned.len(),
    decreases assigned.len(),
{
    if assigned.len() > 0 {
        lemma_cluster_size(assigned.drop_last(), c);
    }
}

/// The size of a cluster is the number of vectors that are assigned to it: it is
/// above zero exactly where one is.
pub proof fn law_cluster_size_counts_the_assigned(assigned: Seq<usize>, c: usize)
    ensures
        cluster_size(assigned, c as int) == assigned.to_multiset().count(c),
        cluster_size(assigned, c as int) > 0 <==> exists|i: int|
            0 <= i < assigned.len() && #[trigger] assigned[i] == c,
    decreases assigned.len(),
{
    broadcast use vstd::seq_lib::group_to_multiset_ensures;

    if assigned.len() > 0 {
        let init = assigned.drop_last();
        law_cluster_size_counts_the_assigned(init, c);
        lemma_cluster_size(init, c as int);
        assert(assigned =~= init.push(assigned.last()));
        if exists|i: int| 0 <= i < init.len() && #[trigger] init[i] == c {
            let i = choose|i: int| 0 <= i < init.len() && #[trigger] init[i] == c;
            assert(assigned[i] == c);
        }
        if exists|i: int| 0 <= i < assigned.len() && #[trigger] assigned[i] == c {
            let i = choose|i: int| 0 <= i < assigned.len() && #[trigger] assigned[i] == c;
            if i < init.len() {
                assert(init[i] == c);
            }
        }
        if assigned.last() == c {
            assert(assigned[assigned.len() - 1] == c);
        }
    } else {
        assert(assigned.to_multiset().count(c) == 0);
    }
}

/// Count the vectors of each of `k` clusters.
pub fn cluster_counts(assigned: &[usize], k: usize) -> (counts: Vec<usize>)
    requires
        forall|i: int| 0 <= i < assigned@.len() ==> (#[trigger] assigned@[i]) < k,
    ensures
        counts@.len() == k,
        forall|c: int|
            #![trigger counts@[c]]
            0 <= c < k ==> counts@[c] == cluster_size(assigned@, c),
        forall|c: int|
            #![trigger counts@[c]]
            0 <= c < k ==> counts@[c] == assigned@.to_multiset().count(c as usize),
{
    let mut counts: Vec<usize> = Vec::new();
    let mut z: usize = 0;
    while z < k
        invariant
            z <= k,
            counts@.len() == z,
            forall|c: int| #![trigger counts@[c]] 0 <= c < z ==> counts@[c] == 0,
        decreases k - z,
    {
        counts.push(0);
        z = z + 1;
    }
    let mut i: usize = 0;
    while i < assigned.len()
        invariant
            i <= assigned.len(),
            counts@.len() == k,
            forall|i: int| 0 <= i < assigned@.len() ==> (#[trigger] assigned@[i]) < k,
            forall|c: int|
                #![trigger counts@[c]]
                0 <= c < k ==> counts@[c] == cluster_size(assigned@.take(i as int), c),
        decreases assigned.len() - i,
    {
        let c: usize = assigned[i];
        proof {
            let t = assigned@.take(i + 1);
            assert(t.drop_last() =~= assigned@.take(i as int));
            lemma_cluster_size(assigned@.take(i as int), c as int);
            assert(assigned@[i as int] < k);
        }
        let n: usize = counts[c];
        counts[c] = n + 1;
        i = i + 1;
    }
    assert(assigned@.take(assigned@.len() as int) =~= assigned@);
    proof {
        assert forall|c: int| #![trigger counts@[c]] 0 <= c < k implies counts@[c]
            == assigned@.to_multiset().count(c as usize) by {
            law_cluster_size_counts_the_assigned(assigned@, c as usize);
        }
    }
    counts
}

/// Whether two rows hold the same numbers.
pub open spec fn same_row(a: Seq<u32>, b: Seq<u32>) -> bool {
    a.len() == b.len() && forall|j: int|
        #![trigger a[j]]
        0 <= j < a.len() ==> float_bits::same_number(a[j], b[j])
}

/// Whether cluster `c` moves: it is not empty, and its mean is not where its
/// centroid is.
pub open spec fn moves(
    centroids: Seq<Vec<u32>>,
    means: Seq<Vec<u32>>,
    counts: Seq<usize>,
    c: int,
) -> bool {
    counts[c] > 0 && !same_row(means[c]@, centroids[c]@)
}

/// The centroid (as the bits of its coordinates) of cluster `c` after one
/// round: a cluster moves to its mean; an empty cluster keeps its centroid.
pub open spec fn moved(
    centroids: Seq<Vec<u32>>,
    means: Seq<Vec<u32>>,
    counts: Seq<usize>,
    c: int,
) -> Seq<u32> {
    if moves(centroids, means, counts, c) {
        means[c]@
    } else {
        centroids[c]@
    }
}

/// Move each centroid to the mean of its cluster, keeping those of empty
/// clusters.  Returns whether any centroid changed.
pub fn update_centroids(
    centroids: &mut Vec<Vec<u32>>,
    means: &Vec<Vec<u32>>,
    counts: &Vec<usize>,
) -> (changed: bool)
    requires
        means@.len() == old(centroids)@.len(),
        counts@.len() == old(centroids)@.len(),
    ensures
        final(centroids)@.len() == old(centroids)@.len(),
        forall|c: int|
            #![trigger final(centroids)@[c]]
            0 <= c < final(centroids)@.len() ==> final(centroids)@[c]@ == moved(
                old(centroids)@,
                means@,
                counts@,
                c,
            ),
        changed <==> exists|c: int|
            0 <= c < old(centroids)@.len() && #[trigger] moves(
                old(centroids)@,
                means@,
                counts@,
                c,
            ),
{
    let ghost before = centroids@;
    let mut changed: bool = false;
    let mut c: usize = 0;
    while c < centroids.len()
        invariant
            c <= centroids.len(),
            centroids@.len() == before.len(),
            before == old(centroids)@,
            means@.len() == before.len(),
            counts@.len() == before.len(),
            forall|i: int|
                #![trigger centroids@[i]]
                0 <= i < c ==> centroids@[i]@ == moved(before, means@, counts@, i),
            forall|i: int|
                #![trigger centroids@[i]]
                c <= i < before.len() ==> centroids@[i] == before[i],
            changed <==> exists|i: int|
                0 <= i < c && #[trigger] moves(before, means@, counts@, i),
        decreases centroids.len() - c,
    {
        let mut differs: bool = false;
        if counts[c] > 0 {
            differs = !same_words(&means[c], &centroids[c]);
            if differs {
                let mean: Vec<u32> = copy_words(&means[c]);
                centroids[c] = mean;
            }
        }
        proof {
            let i = c as int;
            assert(differs == moves(before, means@, counts@, i));
        }
        changed = changed || differs;
        c = c + 1;
    }
    changed
}

/// Whether two rows hold the same numbers.
fn same_words(a: &Vec<u32>, b: &Vec<u32>) -> (r: bool)
    ensures
        r == same_row(a@, b@),
{
    if a.len() != b.len() {
        return false;
    }
    let mut i: usize = 0;
    while i < a.len()
        invariant
            i <= a.len(),
            a.len() == b.len(),
            forall|j: int|
                #![trigger a@[j]]
                0 <= j < i ==> float_bits::same_number(a@[j], b@[j]),
        decreases a.len() - i,
    {
        if !float_bits::numbers_equal(a[i], b[i]) {
            assert(!float_bits::same_number(a@[i as int], b@[i as int]));
            return false;
        }
        i = i + 1;
    }
    true
}

/// A copy of a row of words.
fn copy_words(a: &Vec<u32>) -> (r: Vec<u32>)
    ensures
        r@ == a@,
{
    let mut r: Vec<u32> = Vec::new();
    let mut i: usize = 0;
    while i < a.len()
        invariant
            i <= a.len(),
            r@ == a@.take(i as int),
        decreases a.len() - i,
    {
        r.push(a[i]);
        assert(r@ =~= a@.take(i + 1));
        i = i + 1;
    }
    assert(r@ =~= a@);
    r
}

/// Whether `f` gives `d` for the distance from vector `i` to `row`.
pub open spec fn gives_distance<D: Fn(usize, &Vec<u32>) -> i32>(
    f: D,
    i: usize,
    row: Seq<u32>,
    d: i32,
) -> bool {
    exists|v: Vec<u32>| v@ == row && #[trigger] call_ensures(f, (i, &v), d)
}

/// The distance from vector `i` to `row` that `f` gives.
pub open spec fn distance_from<D: Fn(usize, &Vec<u32>) -> i32>(
    f: D,
    i: usize,
    row: Seq<u32>,
) -> i32 {
    choose|d: i32| gives_distance(f, i, row, d)
}

/// The distances from vectors to rows that `f` gives, as a specification.
pub open spec fn distances_of<D: Fn(usize, &Vec<u32>) -> i32>(f: D) -> spec_fn(
    int,
    Seq<u32>,
) -> i32 {
    |i: int, row: Seq<u32>| distance_from(f, i as usize, row)
}

/// Whether `f` can be called on each of `n` vectors and goes by what the row
/// holds.
pub open spec fn is_distance<D: Fn(usize, &Vec<u32>) -> i32>(f: D, n: int) -> bool {
    &&& forall|i: usize, v: Vec<u32>|
        #![trigger call_requires(f, (i, &v))]
        i < n ==> call_requires(f, (i, &v))
    &&& forall|i: usize, row: Seq<u32>, d1: i32, d2: i32|
        #![trigger gives_distance(f, i, row, d1), gives_distance(f, i, row, d2)]
        gives_distance(f, i, row, d1) && gives_distance(f, i, row, d2) ==> d1 == d2
}

/// Whether `f` gives `row` for the mean of the vectors assigned to cluster `c`.
pub open spec fn gives_mean<M: Fn(&Vec<usize>, usize) -> Vec<u32>>(
    f: M,
    assigned: Seq<usize>,
    c: usize,
    row: Seq<u32>,
) -> bool {
    exists|a: Vec<usize>, v: Vec<u32>|
        a@ == assigned && v@ == row && #[trigger] call_ensures(f, (&a, c), v)
}

/// The mean of the vectors assigned to cluster `c` that `f` gives.
pub open spec fn mean_from<M: Fn(&Vec<usize>, usize) -> Vec<u32>>(
    f: M,
    assigned: Seq<usize>,
    c: usize,
) -> Seq<u32> {
    choose|row: Seq<u32>| gives_mean(f, assigned, c, row)
}

/// The means of clusters that `f` gives, as a specification.
pub open spec fn means_of<M: Fn(&Vec<usize>, usize) -> Vec<u32>>(f: M) -> spec_fn(
    Seq<usize>,
    int,
) -> Seq<u32> {
    |assigned: Seq<usize>, c: int| mean_from(f, assigned, c as usize)
}

/// Whether `f` can be called on each of `k` clusters that has one of `n`
/// vectors, and goes by the assignment.
pub open spec fn is_mean<M: Fn(&Vec<usize>, usize) -> Vec<u32>>(f: M, n: int, k: int) -> bool {
    &&& forall|a: Vec<usize>, c: usize|
        #![trigger call_requires(f, (&a, c))]
        a@.len() == n && c < k && cluster_size(a@, c as int) > 0 ==> call_requires(f, (&a, c))
    &&& forall|assigned: Seq<usize>, c: usize, r1: Seq<u32>, r2: Seq<u32>|
        #![trigger gives_mean(f, assigned, c, r1), gives_mean(f, assigned, c, r2)]
        gives_mean(f, assigned, c, r1) && gives_mean(f, assigned, c, r2) ==> r1 == r2
}

/// The distances from vector `i` to all the centroids.
pub open spec fn distances_to(
    dist: spec_fn(int, Seq<u32>) -> i32,
    i: int,
    rows: Seq<Seq<u32>>,
) -> Seq<i32> {
    Seq::new(rows.len(), |c: int| dist(i, rows[c]))
}

/// The nearest centroid of each of `n` vectors, the first one of equals.
pub open spec fn nearest_rows(
    dist: spec_fn(int, Seq<u32>) -> i32,
    n: int,
    rows: Seq<Seq<u32>>,
) -> Seq<usize> {
    Seq::new(
        n as nat,
        |i: int|
            (choose|c: int| assign::is_first_minimum(distances_to(dist, i, rows), c)) as usize,
    )
}

/// Whether cluster `c` moves in a round: it is not empty, and its mean is not
/// where its centroid is.
pub open spec fn moves_in_round(
    dist: spec_fn(int, Seq<u32>) -> i32,
    mean: spec_fn(Seq<usize>, int) -> Seq<u32>,
    n: int,
    rows: Seq<Seq<u32>>,
    c: int,
) -> bool {
    let assigned = nearest_rows(dist, n, rows);
    cluster_size(assigned, c) > 0 && !same_row(mean(assigned, c), rows[c])
}

/// The centroids after one round: each cluster that moves goes to its mean.
pub open spec fn after_round(
    dist: spec_fn(int, Seq<u32>) -> i32,
    mean: spec_fn(Seq<usize>, int) -> Seq<u32>,
    n: int,
    rows: Seq<Seq<u32>>,
) -> Seq<Seq<u32>> {
    Seq::new(
        rows.len(),
        |c: int|
            if moves_in_round(dist, mean, n, rows, c) {
                mean(nearest_rows(dist, n, rows), c)
            } else {
                rows[c]
            },
    )
}

/// The centroids after `k` rounds.
pub open spec fn after_rounds(
    dist: spec_fn(int, Seq<u32>) -> i32,
    mean: spec_fn(Seq<usize>, int) -> Seq<u32>,
    n: int,
    rows: Seq<Seq<u32>>,
    k: nat,
) -> Seq<Seq<u32>>
    decreases k,
{
    if k == 0 {
        rows
    } else {
        after_round(dist, mean, n, after_rounds(dist, mean, n, rows, (k - 1) as nat))
    }
}

/// Whether no cluster moves.
pub open spec fn is_settled(
    dist: spec_fn(int, Seq<u32>) -> i32,
    mean: spec_fn(Seq<usize>, int) -> Seq<u32>,
    n: int,
    rows: Seq<Seq<u32>>,
) -> bool {
    forall|c: int| 0 <= c < rows.len() ==> !#[trigger] moves_in_round(dist, mean, n, rows, c)
}

/// What the rows hold.
pub open spec fn rows_of(centroids: Seq<Vec<u32>>) -> Seq<Seq<u32>> {
    centroids.map_values(|v: Vec<u32>| v@)
}

/// Rounds keep the number of centroids.
proof fn lemma_rounds_len(
    dist: spec_fn(int, Seq<u32>) -> i32,
    mean: spec_fn(Seq<usize>, int) -> Seq<u32>,
    n: int,
    rows: Seq<Seq<u32>>,
    k: nat,
)
    ensures
        after_rounds(dist, mean, n, rows, k).len() == rows.len(),
    decreases k,
{
    if k > 0 {
        lemma_rounds_len(dist, mean, n, rows, (k - 1) as nat);
    }
}

/// Centroids that a round leaves where they are stay there, however many rounds
/// follow, and each that is the nearest of some vectors is their mean.
pub proof fn law_settled_centroids_stay(
    dist: spec_fn(int, Seq<u32>) -> i32,
    mean: spec_fn(Seq<usize>, int) -> Seq<u32>,
    n: int,
    rows: Seq<Seq<u32>>,
    k: nat,
)
    requires
        after_round(dist, mean, n, rows) == rows,
    ensures
        after_rounds(dist, mean, n, rows, k) == rows,
        forall|c: int|
            #![trigger rows[c]]
            0 <= c < rows.len() && cluster_size(nearest_rows(dist, n, rows), c) > 0 ==> {
                ||| mean(nearest_rows(dist, n, rows), c) == rows[c]
                ||| same_row(mean(nearest_rows(dist, n, rows), c), rows[c])
            },
    decreases k,
{
    if k > 0 {
        law_settled_centroids_stay(dist, mean, n, rows, (k - 1) as nat);
    }
    assert forall|c: int|
        #![trigger rows[c]]
        0 <= c < rows.len() && cluster_size(nearest_rows(dist, n, rows), c) > 0 implies {
        ||| mean(nearest_rows(dist, n, rows), c) == rows[c]
        ||| same_row(mean(nearest_rows(dist, n, rows), c), rows[c])
    } by {
        assert(after_round(dist, mean, n, rows)[c] == rows[c]);
    }
}

/// A round in which no cluster moves ends the algorithm: more rounds change
/// nothing.
pub proof fn law_no_move_ends_the_rounds(
    dist: spec_fn(int, Seq<u32>) -> i32,
    mean: spec_fn(Seq<usize>, int) -> Seq<u32>,
    n: int,
    rows: Seq<Seq<u32>>,
    j: nat,
    k: nat,
)
    requires
        is_settled(dist, mean, n, after_rounds(dist, mean, n, rows, j)),
        j <= k,
    ensures
        after_rounds(dist, mean, n, rows, k) == after_rounds(dist, mean, n, rows, j),
    decreases k,
{
    if j < k {
        let now = after_rounds(dist, mean, n, rows, j);
        law_no_move_ends_the_rounds(dist, mean, n, rows, j, (k - 1) as nat);
        assert(after_round(dist, mean, n, now) =~= now);
    }
}

/// Nothing moves where there are no vectors.
proof fn lemma_no_vectors(
    dist: spec_fn(int, Seq<u32>) -> i32,
    mean: spec_fn(Seq<usize>, int) -> Seq<u32>,
    rows: Seq<Seq<u32>>,
)
    ensures
        is_settled(dist, mean, 0, rows),
{
    assert forall|c: int| 0 <= c < rows.len() implies !#[trigger] moves_in_round(
        dist,
        mean,
        0,
        rows,
        c,
    ) by {
        assert(nearest_rows(dist, 0, rows).len() == 0);
    }
}

/// The nearest of the centroids for each vector.
fn assign_vectors<D: Fn(usize, &Vec<u32>) -> i32>(
    num_vectors: usize,
    centroids: &Vec<Vec<u32>>,
    distance: &D,
) -> (assigned: Vec<usize>)
    requires
        centroids@.len() > 0,
        is_distance(*distance, num_vectors as int),
    ensures
        assigned@ == nearest_rows(
            distances_of(*distance),
            num_vectors as int,
            rows_of(centroids@),
        ),
        forall|i: int|
            #![trigger assigned@[i]]
            0 <= i < assigned@.len() ==> assigned@[i] < centroids@.len(),
{
    let ghost dist = distances_of(*distance);
    let ghost rows = rows_of(centroids@);
    let ghost want = nearest_rows(dist, num_vectors as int, rows);
    let mut assigned: Vec<usize> = Vec::new();
    let mut i: usize = 0;
    while i < num_vectors
        invariant
            i <= num_vectors,
            centroids@.len() > 0,
            is_distance(*distance, num_vectors as int),
            dist == distances_of(*distance),
            rows == rows_of(centroids@),
            want == nearest_rows(dist, num_vectors as int, rows),
            assigned@ == want.take(i as int),
            forall|j: int|
                #![trigger assigned@[j]]
                0 <= j < assigned@.len() ==> assigned@[j] < centroids@.len(),
        decreases num_vectors - i,
    {
        let ghost to_all = distances_to(dist, i as int, rows);
        let mut distances: Vec<i32> = Vec::new();
        let mut c: usize = 0;
        while c < centroids.len()
            invariant
                i < num_vectors,
                c <= centroids@.len(),
                is_distance(*distance, num_vectors as int),
                dist == distances_of(*distance),
                rows == rows_of(centroids@),
                to_all == distances_to(dist, i as int, rows),
                distances@ == to_all.take(c as int),
            decreases centroids@.len() - c,
        {
            let d: i32 = distance(i, &centroids[c]);
            proof {
                assert(centroids@[c as int]@ == rows[c as int]);
                assert(gives_distance(*distance, i, rows[c as int], d));
                assert(to_all[c as int] == d);
            }
            distances.push(d);
            assert(distances@ =~= to_all.take(c + 1));
            c = c + 1;
        }
        assert(distances@ =~= to_all);
        let best: usize = assign::first_minimum(distances.as_slice());
        proof {
            let chosen = choose|x: int| assign::is_first_minimum(to_all, x);
            assert(assign::is_first_minimum(to_all, best as int));
            assert(assign::is_first_minimum(to_all, chosen));
            if chosen < best {
                assert(to_all[best as int] < to_all[chosen]);
                assert(to_all[chosen] <= to_all[best as int]);
            } else if (best as int) < chosen {
                assert(to_all[chosen] < to_all[best as int]);
                assert(to_all[best as int] <= to_all[chosen]);
            }
            assert(want[i as int] == best);
        }
        assigned.push(best);
        assert(assigned@ =~= want.take(i + 1));
        i = i + 1;
    }
    assert(assigned@ =~= want);
    assigned
}

/// One round of Lloyd's algorithm: assign each vector to the nearest centroid,
/// and move each centroid to the mean of its cluster.  Returns whether any
/// centroid changed.
pub fn lloyds_round<D: Fn(usize, &Vec<u32>) -> i32, M: Fn(&Vec<usize>, usize) -> Vec<u32>>(
    num_vectors: usize,
    centroids: &mut Vec<Vec<u32>>,
    distance: &D,
    mean: &M,
) -> (changed: bool)
    requires
        old(centroids)@.len() > 0,
        is_distance(*distance, num_vectors as int),
        is_mean(*mean, num_vectors as int, old(centroids)@.len() as int),
    ensures
        rows_of(final(centroids)@) == after_round(
            distances_of(*distance),
            means_of(*mean),
            num_vectors as int,
            rows_of(old(centroids)@),
        ),
        changed == !is_settled(
            distances_of(*distance),
            means_of(*mean),
            num_vectors as int,
            rows_of(old(centroids)@),
        ),
{
    let ghost dist = distances_of(*distance);
    let ghost mn = means_of(*mean);
    let ghost before = centroids@;
    let ghost rows = rows_of(before);
    let k: usize = centroids.len();
    let assigned: Vec<usize> = assign_vectors(num_vectors, centroids, distance);
    let counts: Vec<usize> = cluster_counts(assigned.as_slice(), k);
    let mut means: Vec<Vec<u32>> = Vec::new();
    let mut c: usize = 0;
    while c < k
        invariant
            c <= k,
            k == counts@.len(),
            assigned@.len() == num_vectors,
            is_mean(*mean, num_vectors as int, k as int),
            mn == means_of(*mean),
            forall|x: int|
                #![trigger counts@[x]]
                0 <= x < k ==> counts@[x] == cluster_size(assigned@, x),
            means@.len() == c,
            forall|x: int|
                #![trigger means@[x]]
                0 <= x < c && counts@[x] > 0 ==> means@[x]@ == mn(assigned@, x),
        decreases k - c,
    {
        if counts[c] > 0 {
            let row: Vec<u32> = mean(&assigned, c);
            proof {
                assert(gives_mean(*mean, assigned@, c, row@));
                assert(mn(assigned@, c as int) == row@);
            }
            means.push(row);
        } else {
            means.push(Vec::new());
        }
        c = c + 1;
    }
    let changed: bool = update_centroids(centroids, &means, &counts);
    proof {
        assert forall|x: int| 0 <= x < k implies #[trigger] moves(before, means@, counts@, x)
            == moves_in_round(dist, mn, num_vectors as int, rows, x) by {
            assert(counts@[x] == cluster_size(assigned@, x));
            if counts@[x] > 0 {
                assert(means@[x]@ == mn(assigned@, x));
            }
        }
        assert forall|x: int| 0 <= x < k implies #[trigger] rows_of(centroids@)[x] == after_round(
            dist,
            mn,
            num_vectors as int,
            rows,
        )[x] by {
            assert(centroids@[x]@ == moved(before, means@, counts@, x));
            assert(moves(before, means@, counts@, x) == moves_in_round(
                dist,
                mn,
                num_vectors as int,
                rows,
                x,
            ));
        }
        assert(rows_of(centroids@) =~= after_round(dist, mn, num_vectors as int, rows));
        if changed {
            let x = choose|x: int| 0 <= x < k && #[trigger] moves(before, means@, counts@, x);
            assert(moves_in_round(dist, mn, num_vectors as int, rows, x));
        } else {
            assert forall|x: int| 0 <= x < rows.len() implies !#[trigger] moves_in_round(
                dist,
                mn,
                num_vectors as int,
                rows,
                x,
            ) by {
                assert(!moves(before, means@, counts@, x));
            }
        }
    }
    changed
}

/// Lloyd's algorithm: iteratively refine centroids by assignment and update,
/// until no centroid changes or `max_iterations` is reached.  `distance` gives
/// the order key of the distance from a vector to a centroid, `mean` the mean of
/// the vectors that are assigned to a cluster.
///
/// Returns the final centroids.
pub fn lloyds_algorithm<D: Fn(usize, &Vec<u32>) -> i32, M: Fn(&Vec<usize>, usize) -> Vec<u32>>(
    num_vectors: usize,
    centroids: &mut Vec<Vec<u32>>,
    max_iterations: usize,
    distance: &D,
    mean: &M,
) -> (out: Vec<Vec<u32>>)
    requires
        is_distance(*distance, num_vectors as int),
        is_mean(*mean, num_vectors as int, old(centroids)@.len() as int),
    ensures
        rows_of(final(centroids)@) == after_rounds(
            distances_of(*distance),
            means_of(*mean),
            num_vectors as int,
            rows_of(old(centroids)@),
            max_iterations as nat,
        ),
        final(centroids)@.len() == old(centroids)@.len(),
        rows_of(out@) == rows_of(final(centroids)@),
{
    let ghost dist = distances_of(*distance);
    let ghost mn = means_of(*mean);
    let ghost n = num_vectors as int;
    let ghost rows = rows_of(centroids@);
    let mut i: usize = 0;
    let mut changed: bool = num_vectors > 0 && centroids.len() > 0;
    proof {
        if num_vectors == 0 {
            lemma_no_vectors(dist, mn, rows);
        }
    }
    while i < max_iterations && changed
        invariant
            i <= max_iterations,
            n == num_vectors,
            dist == distances_of(*distance),
            mn == means_of(*mean),
            is_distance(*distance, n),
            is_mean(*mean, n, rows.len() as int),
            centroids@.len() == rows.len(),
            changed ==> rows.len() > 0,
            rows_of(centroids@) == after_rounds(dist, mn, n, rows, i as nat),
            !changed ==> is_settled(dist, mn, n, after_rounds(dist, mn, n, rows, i as nat)),
        decreases max_iterations - i,
    {
        let ghost now = rows_of(centroids@);
        changed = lloyds_round(num_vectors, centroids, distance, mean);
        proof {
            lemma_rounds_len(dist, mn, n, rows, (i + 1) as nat);
            assert(rows_of(centroids@).len() == rows.len());
            if !changed {
                assert(after_round(dist, mn, n, now) =~= now);
            }
        }
        i = i + 1;
    }
    proof {
        if !changed {
            law_no_move_ends_the_rounds(dist, mn, n, rows, i as nat, max_iterations as nat);
        }
    }
    let mut out: Vec<Vec<u32>> = Vec::new();
    let mut c: usize = 0;
    while c < centroids.len()
        invariant
            c <= centroids@.len(),
            rows_of(out@) == rows_of(centroids@).take(c as int),
        decreases centroids@.len() - c,
    {
        let row: Vec<u32> = copy_words(&centroids[c]);
        let ghost before = out@;
        out.push(row);
        assert(rows_of(out@) =~= rows_of(before).push(row@));
        assert(rows_of(out@) =~= rows_of(centroids@).take(c + 1));
        c = c + 1;
    }
    assert(rows_of(centroids@).take(c as int) =~= rows_of(centroids@));
    out
}

/// All centroids of the index, as the bits of their coordinates.
#[derive(Debug, PartialEq)]
pub struct IvfCentroidPage {
    pub centroids: Vec<Vec<u32>>,
}

impl IvfCentroidPage {
    /// Create a new centroid page with the given centroids.
    pub fn new(centroids: Vec<Vec<u32>>) -> (p: IvfCentroidPage)
        ensures
            p.centroids == centroids,
    {
        IvfCentroidPage { centroids }
    }

    /// Get the number of centroids.
    pub fn num_centroids(&self) -> (n: usize)
        ensures
            n == self.centroids@.len(),
    {
        self.centroids.len()
    }

    /// Get a centroid by index.
    pub fn get_centroid(&self, index: usize) -> (r: Option<&Vec<u32>>)
        ensures
            r is Some <==> index < self.centroids@.len(),
            r is Some ==> *r->0 == self.centroids@[index as int],
    {
        if index < self.centroids.len() {
            Some(&self.centroids[index])
        } else {
            None
        }
    }
}

/// After a round every centroid that is the nearest of some vector, the first of
/// equals, holds the same numbers as the mean of the vectors that it is the
/// nearest of, and every other one is where it was.
pub proof fn law_round_moves_centroids_to_their_means(
    dist: spec_fn(int, Seq<u32>) -> i32,
    mean: spec_fn(Seq<usize>, int) -> Seq<u32>,
    n: int,
    rows: Seq<Seq<u32>>,
    assigned: Seq<usize>,
    c: int,
)
    requires
        n >= 0,
        assigned.len() == n,
        forall|i: int| #![trigger assigned[i]] 0 <= i < n ==> assigned[i] < rows.len(),
        forall|i: int, j: int|
            #![trigger dist(i, rows[j])]
            0 <= i < n && 0 <= j < rows.len() ==> if j < assigned[i] {
                dist(i, rows[assigned[i] as int]) < dist(i, rows[j])
            } else {
                dist(i, rows[assigned[i] as int]) <= dist(i, rows[j])
            },
        rows.len() <= usize::MAX,
        0 <= c < rows.len(),
    ensures
        after_round(dist, mean, n, rows).len() == rows.len(),
        !(exists|i: int| 0 <= i < n && #[trigger] assigned[i] == c) ==> after_round(
            dist,
            mean,
            n,
            rows,
        )[c] == rows[c],
        (exists|i: int| 0 <= i < n && #[trigger] assigned[i] == c) ==> {
            let now = after_round(dist, mean, n, rows)[c];
            let want = mean(assigned, c);
            &&& now.len() == want.len()
            &&& forall|j: int|
                #![trigger now[j]]
                0 <= j < now.len() ==> now[j] == want[j] || (now[j] % 0x8000_0000 == 0 && want[j]
                    % 0x8000_0000 == 0)
        },
{
    assert(nearest_rows(dist, n, rows) =~= assigned) by {
        assert forall|i: int| 0 <= i < n implies nearest_rows(dist, n, rows)[i] == assigned[i] by {
            let d = distances_to(dist, i, rows);
            let a = assigned[i] as int;
            assert(assign::is_first_minimum(d, a)) by {
                assert forall|j: int| 0 <= j < a implies d[a] < #[trigger] d[j] by {
                    assert(dist(i, rows[a]) < dist(i, rows[j]));
                }
                assert forall|j: int| a <= j < d.len() implies d[a] <= #[trigger] d[j] by {
                    assert(dist(i, rows[a]) <= dist(i, rows[j]));
                }
            }
            let x = choose|x: int| assign::is_first_minimum(d, x);
            assert(assign::is_first_minimum(d, x));
            if x < a {
                assert(d[a] < d[x] && d[x] <= d[a]);
            } else if a < x {
                assert(d[x] < d[a] && d[a] <= d[x]);
            }
        }
    }
    law_cluster_size_counts_the_assigned(assigned, c as usize);
}

/// The algorithm ends where no centroid moves, or after as many rounds as it may
/// take: another round would be the last one's or leave everything in place.
pub proof fn law_rounds_follow_one_another(
    dist: spec_fn(int, Seq<u32>) -> i32,
    mean: spec_fn(Seq<usize>, int) -> Seq<u32>,
    n: int,
    rows: Seq<Seq<u32>>,
    j: nat,
    k: nat,
)
    ensures
        after_rounds(dist, mean, n, rows, 0) == rows,
        after_rounds(dist, mean, n, rows, 1) == after_round(dist, mean, n, rows),
        after_rounds(dist, mean, n, after_rounds(dist, mean, n, rows, j), k) == after_rounds(
            dist,
            mean,
            n,
            rows,
            j + k,
        ),
    decreases k,
{
    if k > 0 {
        law_rounds_follow_one_another(dist, mean, n, rows, j, (k - 1) as nat);
    }
    reveal_with_fuel(after_rounds, 2);
}

} // verus!
