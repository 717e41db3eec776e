//! Building an IVF index: sampling, assignment to lists, grouping.
use crate::util::random;
use rand::rngs::SmallRng;
use vstd::prelude::*;

verus! {

/// Default number of samples for K-means training.
pub const DEFAULT_SAMPLE_SIZE: usize = 10000;

/// Maximum iterations for Lloyd's algorithm.
pub const MAX_KMEANS_ITERATIONS: usize = 100;

/// Sample `sample_size` of `num_vectors` vectors for K-means training, by
/// reservoir sampling (Algorithm R).  The vectors are named by their index.
/// Where there are no more vectors than that, all are taken, in order.
pub fn sample_vectors(num_vectors: usize, sample_size: usize) -> (out: Vec<usize>)
    requires
        num_vectors < usize::MAX,
    ensures
        num_vectors <= sample_size ==> out@ == Seq::new(num_vectors as nat, |i: int| i as usize),
        num_vectors > sample_size ==> random::is_sample(
            out@,
            num_vectors as int,
            sample_size as int,
        ),
{
    let first: usize = if num_vectors <= sample_size {
        num_vectors
    } else {
        sample_size
    };
    let mut reservoir: Vec<usize> = Vec::new();
    let mut i: usize = 0;
    while i < first
        invariant
            i <= first,
            reservoir@ == Seq::new(i as nat, |k: int| k as usize),
        decreases first - i,
    {
        reservoir.push(i);
        assert(reservoir@ =~= Seq::new((i + 1) as nat, |k: int| k as usize));
        i = i + 1;
    }
    if num_vectors <= sample_size {
        return reservoir;
    }
    let mut rng: SmallRng = random::entropy_rng();
    while i < num_vectors
        invariant
            sample_size <= i <= num_vectors,
            num_vectors < usize::MAX,
            random::is_sample(reservoir@, i as int, sample_size as int),
        decreases num_vectors - i,
    {
        let j: usize = random::draw_below(&mut rng, i + 1);
        proof {
            random::law_reservoir_step_keeps_a_sample(
                reservoir@,
                i,
                sample_size as int,
                j as int,
            );
        }
        random::reservoir_step(&mut reservoir, i, j);
        i = i + 1;
    }
    reservoir
}

/// Whether `c` is the first of the smallest distances.
pub open spec fn is_first_minimum(distances: Seq<i32>, c: int) -> bool {
    &&& 0 <= c < distances.len()
    &&& forall|i: int| 0 <= i < c ==> distances[c] < #[trigger] distances[i]
    &&& forall|i: int| c <= i < distances.len() ==> distances[c] <= #[trigger] distances[i]
}

/// Find the first of the smallest distances.
pub fn first_minimum(distances: &[i32]) -> (best: usize)
    requires
        0 < distances.len(),
    ensures
        is_first_minimum(distances@, best as int),
{
    let mut best: usize = 0;
    let mut c: usize = 1;
    while c < distances.len()
        invariant
            1 <= c <= distances.len(),
            best < c,
            is_first_minimum(distances@.take(c as int), best as int),
        decreases distances.len() - c,
    {
        let ghost before = distances@.take(c as int);
        let ghost after = distances@.take(c + 1);
        assert(before[best as int] == distances@[best as int]);
        if distances[c] < distances[best] {
            proof {
                assert forall|i: int| 0 <= i < c implies after[c as int] < #[trigger] after[i] by {
                    assert(before[i] == after[i]);
                }
            }
            best = c;
        } else {
            proof {
                assert forall|i: int| 0 <= i < best implies after[best as int]
                    < #[trigger] after[i] by {
                    assert(before[i] == after[i]);
                }
                assert forall|i: int| best <= i < after.len() implies after[best as int]
                    <= #[trigger] after[i] by {
                    if i < c {
                        assert(before[i] == after[i]);
                    }
                }
            }
        }
        c = c + 1;
    }
    assert(distances@.take(distances@.len() as int) =~= distances@);
    best
}

/// Find the nearest centroid, given the distances of all centroids.
pub fn nearest_centroid(distances: &[i32]) -> (list: u16)
    requires
        0 < distances.len() <= 0x1_0000,
    ensures
        is_first_minimum(distances@, list as int),
{
    first_minimum(distances) as u16
}

/// Assign vectors to their nearest centroids; `distances[i]` holds the
/// distances from vector `i` to all centroids.
///
/// Returns a vector of list IDs (one per input vector).
pub fn assign_vectors_to_lists(distances: &Vec<Vec<i32>>) -> (lists: Vec<u16>)
    requires
        forall|i: int|
            #![trigger distances@[i]]
            0 <= i < distances@.len() ==> 0 < distances@[i]@.len() <= 0x1_0000,
    ensures
        lists@.len() == distances@.len(),
        forall|i: int|
            #![trigger lists@[i]]
            0 <= i < lists@.len() ==> is_first_minimum(distances@[i]@, lists@[i] as int),
{
    let mut lists: Vec<u16> = Vec::new();
    let mut i: usize = 0;
    while i < distances.len()
        invariant
            i <= distances.len(),
            forall|i: int|
                #![trigger distances@[i]]
                0 <= i < distances@.len() ==> 0 < distances@[i]@.len() <= 0x1_0000,
            lists@.len() == i,
            forall|k: int|
                #![trigger lists@[k]]
                0 <= k < i ==> is_first_minimum(distances@[k]@, lists@[k] as int),
        decreases distances.len() - i,
    {
        assert(0 < distances@[i as int]@.len() <= 0x1_0000);
        let list: u16 = nearest_centroid(distances[i].as_slice());
        lists.push(list);
        i = i + 1;
    }
    lists
}

/// The vectors that were assigned to one list, in order.
pub open spec fn is_list_of(assigned: Seq<u16>, list: u16, out: Seq<usize>) -> bool {
    &&& forall|a: int|
        #![trigger out[a]]
        0 <= a < out.len() ==> out[a] < assigned.len() && assigned[out[a] as int] == list
    &&& forall|a: int, b: int| #![trigger out[a], out[b]] 0 <= a < b < out.len() ==> out[a] < out[b]
    &&& forall|i: int|
        #![trigger assigned[i]]
        0 <= i < assigned.len() && assigned[i] == list ==> exists|a: int|
            0 <= a < out.len() && #[trigger] out[a] == i
}

/// The vectors of one list, in the order in which they came.
pub fn vectors_of_list(assigned: &[u16], list: u16) -> (out: Vec<usize>)
    ensures
        is_list_of(assigned@, list, out@),
{
    let mut out: Vec<usize> = Vec::new();
    let mut i: usize = 0;
    while i < assigned.len()
        invariant
            i <= assigned.len(),
            is_list_of(assigned@.take(i as int), list, out@),
            forall|a: int| 0 <= a < out@.len() ==> (#[trigger] out@[a]) < i,
        decreases assigned.len() - i,
    {
        let ghost before = out@;
        let ghost seen = assigned@.take(i as int);
        let ghost next = assigned@.take(i + 1);
        if assigned[i] == list {
            out.push(i);
        }
        proof {
            assert forall|a: int| #![trigger out@[a]] 0 <= a < out@.len() implies out@[a]
                < next.len() && next[out@[a] as int] == list by {
                if a < before.len() {
                    assert(out@[a] == before[a]);
                    assert(seen[before[a] as int] == list);
                }
            }
            assert forall|k: int|
                #![trigger next[k]]
                0 <= k < next.len() && next[k] == list implies exists|a: int|
                0 <= a < out@.len() && #[trigger] out@[a] == k by {
                if k < i {
                    assert(seen[k] == list);
                    let a = choose|a: int| 0 <= a < before.len() && #[trigger] before[a] == k;
                    assert(out@[a] == k);
                } else {
                    assert(out@[before.len() as int] == k);
                }
            }
        }
        i = i + 1;
    }
    assert(assigned@.take(assigned@.len() as int) =~= assigned@);
    out
}

/// No vector is lost and none is stored twice: each stands in the list that it
/// was assigned to, and in no other.
pub proof fn law_every_vector_is_in_one_list(
    assigned: Seq<u16>,
    i: int,
    list: u16,
    out: Seq<usize>,
)
    requires
        0 <= i < assigned.len(),
        is_list_of(assigned, list, out),
    ensures
        (exists|a: int| 0 <= a < out.len() && #[trigger] out[a] == i) <==> assigned[i] == list,
        forall|a: int, b: int|
            #![trigger out[a], out[b]]
            0 <= a < out.len() && 0 <= b < out.len() && out[a] == i && out[b] == i ==> a == b,
{
    assert forall|a: int, b: int|
        #![trigger out[a], out[b]]
        0 <= a < out.len() && 0 <= b < out.len() && out[a] == i && out[b] == i implies a == b by {
        if a < b {
            assert(out[a] < out[b]);
        } else if b < a {
            assert(out[b] < out[a]);
        }
    }
}

/// The list of a vector is the one with the smallest distance, the first of
/// equals.
pub proof fn law_first_minimum_is_the_nearest(distances: Seq<i32>, c: int)
    ensures
        is_first_minimum(distances, c) <==> {
            &&& 0 <= c < distances.len()
            &&& forall|i: int|
                #![trigger distances[i]]
                0 <= i < distances.len() ==> if i < c {
                    distances[c] < distances[i]
                } else {
                    distances[c] <= distances[i]
                }
        },
{
}

} // verus!
