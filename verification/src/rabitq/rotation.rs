//! The layout of a fast random rotation.
//!
//! A rotation goes through four rounds.  Each changes signs at random, mixes a
//! window whose size is a power of two, and, where the window does not cover
//! the vector, mixes the two halves of the vector.  Only the sign bits have to
//! be kept.
use crate::quantization::rabitq;
use crate::quantization::rabitq::flip_signs;
use crate::util::math;
use crate::util::math::div_ceil;
use crate::util::random::draw_bytes;
use rand::rngs::SmallRng;
use vstd::arithmetic::power2::*;
use vstd::prelude::*;

verus! {

/// Rounds of a rotation.
pub const FAST_ROTATION_ROUNDS: usize = 4;

/// Bytes of sign bits that a round needs.
pub fn sign_bytes_per_round(dim: usize) -> (n: usize)
    ensures
        n == math::groups_of(dim as int, 8),
{
    div_ceil(dim, 8)
}

/// Bytes of sign bits that a rotation needs.
pub fn fast_rotation_signs_len(dim: usize) -> (n: usize)
    ensures
        n == 4 * math::groups_of(dim as int, 8),
{
    FAST_ROTATION_ROUNDS * sign_bytes_per_round(dim)
}

/// Random sign bits for a rotation.
pub fn random_fast_rotation_signs(dim: usize, rng: &mut SmallRng) -> (signs: Vec<u8>)
    ensures
        signs@.len() == 4 * math::groups_of(dim as int, 8),
{
    draw_bytes(rng, fast_rotation_signs_len(dim))
}

/// The size of the window: the greatest power of two that is not above `dim`.
pub fn window_len(dim: usize) -> (w: usize)
    requires
        dim > 0,
    ensures
        rabitq::is_power_of_two(w as int),
        w <= dim < 2 * w,
{
    let mut w: usize = 1;
    let ghost mut k: nat = 0;
    proof {
        lemma2_to64();
    }
    while w <= dim / 2
        invariant
            dim > 0,
            w == pow2(k),
            1 <= w <= dim,
        decreases dim - w,
    {
        proof {
            lemma_pow2_unfold(k + 1);
            k = k + 1;
        }
        w = 2 * w;
    }
    w
}

/// Where a round mixes.
#[derive(Clone, Copy, Debug, PartialEq, Eq, Structural)]
pub struct RoundWindow {
    pub start: usize,
    pub len: usize,
    /// The halves of the vector are mixed too.
    pub mixes_halves: bool,
}

/// The window of a round: the head of the vector in even rounds, the tail in
/// odd ones.
pub fn round_window(dim: usize, round: usize) -> (r: RoundWindow)
    requires
        dim > 0,
    ensures
        rabitq::is_power_of_two(r.len as int),
        r.len <= dim < 2 * r.len,
        r.start == if round % 2 == 0 {
            0
        } else {
            dim - r.len
        },
        r.mixes_halves == (r.len != dim),
{
    let len: usize = window_len(dim);
    let start: usize = if round % 2 == 0 {
        0
    } else {
        dim - len
    };
    RoundWindow { start, len, mixes_halves: len != dim }
}

/// The windows of two rounds that follow each other cover the vector.
pub proof fn law_two_rounds_cover_the_vector(dim: int, len: int, i: int)
    requires
        len <= dim < 2 * len,
        0 <= i < dim,
    ensures
        i < len || dim - len <= i,
{
}

/// The sign bits of one round.
pub open spec fn round_signs(signs: Seq<u8>, dim: int, round: int) -> Seq<u8> {
    let n = math::groups_of(dim, 8);
    signs.subrange(round * n, (round + 1) * n)
}

/// The first step of a round: change the signs of the values by the sign bits
/// of the round.
pub fn flip_round_signs(values: &mut Vec<u32>, signs: &Vec<u8>, round: usize)
    requires
        round < 4,
        signs@.len() == 4 * math::groups_of(old(values)@.len() as int, 8),
    ensures
        final(values)@ == rabitq::signs_flipped(
            old(values)@,
            round_signs(signs@, old(values)@.len() as int, round as int),
        ),
{
    let n: usize = sign_bytes_per_round(values.len());
    assert(round * n + n <= signs@.len()) by (nonlinear_arith)
        requires
            round < 4,
            signs@.len() == 4 * n,
    ;
    let mut own: Vec<u8> = Vec::new();
    let mut i: usize = 0;
    while i < n
        invariant
            i <= n,
            round * n + n <= signs.len(),
            own@ == signs@.subrange(round * n, round * n + i),
        decreases n - i,
    {
        own.push(signs[round * n + i]);
        i = i + 1;
        assert(own@ =~= signs@.subrange(round * n, round * n + i));
    }
    assert(round * n + n == (round + 1) * n) by (nonlinear_arith);
    let dim: usize = values.len();
    flip_signs(values, dim, &own);
    assert(values@ =~= rabitq::signs_flipped(
        old(values)@,
        round_signs(signs@, dim as int, round as int),
    ));
}

/// The vector that a rotation starts from: the input, cut off or filled up with
/// zeros.
pub open spec fn rotation_input(input: Seq<u32>, dim: int) -> Seq<u32> {
    Seq::new(
        dim as nat,
        |i: int|
            if i < input.len() {
                input[i]
            } else {
                0u32
            },
    )
}

/// The vector that a rotation in `dim` dimensions starts from.
pub fn load_rotation_input(input: &Vec<u32>, dim: usize) -> (out: Vec<u32>)
    ensures
        out@ == rotation_input(input@, dim as int),
{
    let mut out: Vec<u32> = Vec::new();
    let mut i: usize = 0;
    while i < dim
        invariant
            i <= dim,
            out@ == rotation_input(input@, i as int),
        decreases dim - i,
    {
        let v: u32 = if i < input.len() {
            input[i]
        } else {
            0
        };
        out.push(v);
        i = i + 1;
        assert(out@ =~= rotation_input(input@, i as int));
    }
    out
}

} // verus!
