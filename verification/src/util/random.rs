//! Random draws.
use rand::rngs::SmallRng;
use rand::{Rng, RngCore, SeedableRng};
use vstd::prelude::*;

verus! {

/// The small, fast generator of the `rand` crate.  Its state is opaque.
#[verifier::external_type_specification]
#[verifier::external_body]
pub struct ExSmallRng(SmallRng);

/// Seeds a generator with `rand::SeedableRng::from_entropy`.  Nothing is
/// claimed of the generator: its state is a matter of chance.  The call panics
/// where the operating system has no entropy to give.
#[verifier::external_body]
pub(crate) fn entropy_rng() -> SmallRng {
    SmallRng::from_entropy()
}

/// Seeds a generator with `rand::SeedableRng::seed_from_u64`.  Nothing is
/// claimed of the generator: which numbers follow from a seed differs between
/// platforms and versions of the crate.
#[verifier::external_body]
pub(crate) fn seeded_rng(seed: u64) -> SmallRng {
    SmallRng::seed_from_u64(seed)
}

/// Draws with `rand::Rng::gen_range` from `0..n`.  Trusted: the draw lies in
/// the range.  Which number it is, is a matter of chance; an empty range would
/// panic.
#[verifier::external_body]
pub(crate) fn draw_below(rng: &mut SmallRng, n: usize) -> (j: usize)
    requires
        n > 0,
    ensures
        j < n,
{
    rng.gen_range(0..n)
}

/// Draws `n` bytes with `rand::RngCore::fill_bytes`.  Trusted: there are `n`
/// of them.  Which bytes they are, is a matter of chance.
#[verifier::external_body]
pub(crate) fn draw_bytes(rng: &mut SmallRng, n: usize) -> (bytes: Vec<u8>)
    ensures
        bytes@.len() == n,
{
    let mut bytes = vec![0u8; n];
    rng.fill_bytes(&mut bytes);
    bytes
}

/// A uniformly drawn index below `n`.
pub fn random_index(n: usize) -> (j: usize)
    requires
        n > 0,
    ensures
        j < n,
{
    let mut rng: SmallRng = entropy_rng();
    draw_below(&mut rng, n)
}

/// The reservoir after item `i` came by and `j` was drawn from `0..=i`.
pub open spec fn reservoir_after(reservoir: Seq<usize>, i: usize, j: int) -> Seq<usize> {
    if j < reservoir.len() {
        reservoir.update(j, i)
    } else {
        reservoir
    }
}

/// One step of reservoir sampling: item `i` takes place `j` of the reservoir,
/// where there is such a place.
pub fn reservoir_step(reservoir: &mut Vec<usize>, i: usize, j: usize)
    ensures
        final(reservoir)@ == reservoir_after(old(reservoir)@, i, j as int),
{
    if j < reservoir.len() {
        reservoir[j] = i;
    }
}

/// A sample of `size` different items of the first `n`.
pub open spec fn is_sample(s: Seq<usize>, n: int, size: int) -> bool {
    &&& s.len() == size
    &&& forall|a: int| 0 <= a < s.len() ==> (#[trigger] s[a]) < n
    &&& forall|a: int, b: int| #![trigger s[a], s[b]] 0 <= a < b < s.len() ==> s[a] != s[b]
}

/// A step of reservoir sampling makes a sample of `n` items one of `n + 1`,
/// whatever was drawn.
pub proof fn law_reservoir_step_keeps_a_sample(s: Seq<usize>, n: usize, size: int, j: int)
    requires
        is_sample(s, n as int, size),
        0 <= j <= n,
    ensures
        is_sample(reservoir_after(s, n, j), n + 1, size),
{
    let t = reservoir_after(s, n, j);
    assert forall|a: int| 0 <= a < t.len() implies (#[trigger] t[a]) < n + 1 by {
        if a != j {
            assert(t[a] == s[a]);
        }
    }
    assert forall|a: int, b: int| #![trigger t[a], t[b]] 0 <= a < b < t.len() implies t[a]
        != t[b] by {
        assert(s[a] != s[b] && s[a] < n && s[b] < n);
    }
}

/// The item takes the place that was drawn, wherever that is in the reservoir, and
/// no other place changes.
pub proof fn law_drawn_places_are_taken(reservoir: Seq<usize>, i: usize, j: int, a: int)
    requires
        0 <= j,
        0 <= a < reservoir.len(),
    ensures
        reservoir_after(reservoir, i, j).len() == reservoir.len(),
        reservoir_after(reservoir, i, j)[a] == if a == j {
            i
        } else {
            reservoir[a]
        },
{
}

} // verus!
