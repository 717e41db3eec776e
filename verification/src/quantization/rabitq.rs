//! RaBitQ codes.
//!
//! A vector is rotated, and every dimension of the rotated vector becomes a
//! code of one, two, four or eight bits: the sign, and the size on a scale of
//! `2^(bits - 1)` levels.  `f32` values are kept as their bit patterns.
use crate::quantization::packing;
use crate::quantization::packing::{get_bit, pack_bits, pack_nibbles, pack_pairs};
use crate::quantization::rabitq_fastscan;
use crate::util::float_bits;
use crate::util::math;
use crate::util::math::div_ceil;
use rand::rngs::StdRng;
use rand::{RngCore, SeedableRng};
use vstd::arithmetic::power2::*;
use vstd::prelude::*;

verus! {

/// A RaBitQ-quantized vector.
///
/// `dim` is the padded power-of-two dimension.  The `f32` factors are kept as
/// their bit patterns.
#[derive(Clone, Debug, PartialEq)]
pub struct RabitqVector {
    pub dim: u32,
    /// Bits of the squared norm of the vector.
    pub sum_of_x2: u32,
    /// Bits of the dot product of the rotated vector with its code.
    pub l1_of_rotated: u32,
    pub packed_code: Vec<u8>,
    pub num_bits: u8,
    /// Bits of the dot product of the rotated center with the code.
    pub cent_dot: u32,
}

/// `n` is a power of two.
pub open spec fn is_power_of_two(n: int) -> bool {
    exists|k: nat| #[trigger] pow2(k) == n
}

/// The dimension that a vector is rotated in: the least power of two that is
/// not below `dim` (and 1 for an empty vector).
pub fn padded_dim(dim: usize) -> (r: usize)
    requires
        dim <= usize::MAX / 2 + 1,
    ensures
        is_power_of_two(r as int),
        r >= dim,
        r == 1 || r < 2 * dim,
        forall|k: nat| #[trigger] pow2(k) >= dim ==> r <= pow2(k),
{
    let mut r: usize = 1;
    let ghost mut k: nat = 0;
    proof {
        lemma2_to64();
    }
    while r < dim
        invariant
            dim <= usize::MAX / 2 + 1,
            r == pow2(k),
            r >= 1,
            r == 1 || r < 2 * dim,
        decreases 2 * dim - r,
    {
        proof {
            lemma_pow2_unfold(k + 1);
            k = k + 1;
        }
        r = 2 * r;
    }
    assert forall|j: nat| #[trigger] pow2(j) >= dim implies r <= pow2(j) by {
        if pow2(j) < r {
            if j >= k {
                if j > k {
                    lemma_pow2_strictly_increases(k, j);
                }
            } else {
                if j + 1 < k {
                    lemma_pow2_strictly_increases(j + 1, k);
                }
                lemma_pow2_unfold(j + 1);
                lemma_pow2_pos(j);
            }
        }
    }
    r
}

/// The value `bits` at place `i`, its sign changed where the sign bits say so.
pub open spec fn with_sign(bits: u32, signs: Seq<u8>, i: int) -> u32 {
    if i / 8 < signs.len() && packing::packed_bit(signs, i) == 1 {
        float_bits::negated(bits)
    } else {
        bits
    }
}

/// The values with their signs changed.
pub open spec fn signs_flipped(values: Seq<u32>, signs: Seq<u8>) -> Seq<u32> {
    Seq::new(values.len(), |i: int| with_sign(values[i], signs, i))
}

/// Change the sign of each of the first `n` values whose sign bit is set.
/// Values that have no sign bit keep their sign.
pub fn flip_signs(values: &mut Vec<u32>, n: usize, signs: &Vec<u8>)
    requires
        n <= old(values)@.len(),
    ensures
        final(values)@ == signs_flipped(old(values)@.take(n as int), signs@) + old(values)@.skip(
            n as int,
        ),
{
    let mut i: usize = 0;
    while i < n
        invariant
            i <= n <= old(values)@.len(),
            values@.len() == old(values)@.len(),
            forall|j: int|
                #![trigger values@[j]]
                0 <= j < i ==> values@[j] == with_sign(old(values)@[j], signs@, j),
            forall|j: int| #![trigger values@[j]] i <= j < values@.len() ==> values@[j] == old(values)@[j],
        decreases n - i,
    {
        if i / 8 < signs.len() && get_bit(signs[i / 8], i % 8) == 1 {
            values[i] = values[i] ^ 0x8000_0000;
        }
        i = i + 1;
    }
}

/// Changing the signs twice by the same sign bits gives the values back.
pub proof fn law_flipping_signs_is_an_involution(values: Seq<u32>, signs: Seq<u8>)
    ensures
        signs_flipped(signs_flipped(values, signs), signs) == values,
{
    let once = signs_flipped(values, signs);
    let twice = signs_flipped(once, signs);
    assert forall|i: int| 0 <= i < values.len() implies twice[i] == values[i] by {
        float_bits::law_negation_is_an_involution(values[i]);
    }
    assert(twice =~= values);
}

/// The first `n` bytes that the standard generator gives for a seed.
pub uninterp spec fn std_rng_bytes(seed: u64, n: nat) -> Seq<u8>;

/// Draws bytes with `rand::rngs::StdRng`, seeded with
/// `rand::SeedableRng::seed_from_u64`, by `rand::RngCore::fill_bytes`.
/// Trusted: there are `n` bytes, and the seed and `n` decide them.
#[verifier::external_body]
fn draw_std_rng_bytes(seed: u64, n: usize) -> (bytes: Vec<u8>)
    ensures
        bytes@.len() == n,
        bytes@ == std_rng_bytes(seed, n as nat),
{
    let mut bytes = vec![0u8; n];
    StdRng::seed_from_u64(seed).fill_bytes(&mut bytes);
    bytes
}

/// The sign bits of the rotation that belongs to `seed`, for vectors of `dim`
/// dimensions.
pub fn rotation_signs(dim: usize, seed: u64) -> (signs: Vec<u8>)
    ensures
        signs@.len() == math::groups_of(dim as int, 8),
        signs@ == std_rng_bytes(seed, math::groups_of(dim as int, 8) as nat),
{
    draw_std_rng_bytes(seed, div_ceil(dim, 8))
}

/// The first step of the rotation that belongs to `seed`: random signs for the
/// first `dim` values.
pub fn flip_rotation_signs(values: &mut Vec<u32>, dim: usize, seed: u64)
    requires
        dim <= old(values)@.len(),
    ensures
        final(values)@ == signs_flipped(
            old(values)@.take(dim as int),
            std_rng_bytes(seed, math::groups_of(dim as int, 8) as nat),
        ) + old(values)@.skip(dim as int),
{
    let signs: Vec<u8> = rotation_signs(dim, seed);
    flip_signs(values, dim, &signs);
}

/// 1 where bit `j` of the two bytes differs.
pub open spec fn differs_at(x: u8, y: u8, j: int) -> int {
    if packing::bit_of(x, j) != packing::bit_of(y, j) {
        1
    } else {
        0
    }
}

/// How many of the first `n` bits of two bytes differ.
pub open spec fn differing_bits(x: u8, y: u8, n: int) -> int
    decreases n,
{
    if n <= 0 {
        0
    } else {
        differing_bits(x, y, n - 1) + differs_at(x, y, n - 1)
    }
}

/// How many bits of the first `n` bytes of two codes differ.
pub open spec fn hamming(a: Seq<u8>, b: Seq<u8>, n: int) -> int
    decreases n,
{
    if n <= 0 {
        0
    } else {
        hamming(a, b, n - 1) + differing_bits(a[n - 1], b[n - 1], 8)
    }
}

fn count_differing_bits(x: u8, y: u8) -> (n: usize)
    ensures
        n == differing_bits(x, y, 8),
        n <= 8,
{
    let mut n: usize = 0;
    let mut j: usize = 0;
    while j < 8
        invariant
            j <= 8,
            n == differing_bits(x, y, j as int),
            n <= j,
        decreases 8 - j,
    {
        if get_bit(x, j) != get_bit(y, j) {
            n = n + 1;
        }
        j = j + 1;
    }
    n
}

pub open spec fn shorter(a: Seq<u8>, b: Seq<u8>) -> int {
    if a.len() < b.len() {
        a.len() as int
    } else {
        b.len() as int
    }
}

/// The number of bits in which two packed codes differ, as far as both reach.
pub fn code_hamming(a: &Vec<u8>, b: &Vec<u8>) -> (n: usize)
    requires
        8 * shorter(a@, b@) <= usize::MAX,
    ensures
        n == hamming(a@, b@, shorter(a@, b@)),
        n <= 8 * shorter(a@, b@),
{
    let mut n: usize = 0;
    let mut i: usize = 0;
    while i < a.len() && i < b.len()
        invariant
            i <= shorter(a@, b@),
            8 * shorter(a@, b@) <= usize::MAX,
            n == hamming(a@, b@, i as int),
            n <= 8 * i,
        decreases a.len() - i,
    {
        n = n + count_differing_bits(a[i], b[i]);
        i = i + 1;
    }
    n
}

proof fn lemma_differing_bits_are_symmetric(x: u8, y: u8, n: int)
    ensures
        differing_bits(x, y, n) == differing_bits(y, x, n),
        x == y ==> differing_bits(x, y, n) == 0,
        differing_bits(x, y, n) >= 0,
    decreases n,
{
    if n > 0 {
        lemma_differing_bits_are_symmetric(x, y, n - 1);
    }
}

/// The distance of two codes does not depend on their order, and a code has
/// distance 0 from itself.
pub proof fn law_hamming_is_symmetric(a: Seq<u8>, b: Seq<u8>, n: int)
    requires
        n <= a.len(),
        n <= b.len(),
    ensures
        hamming(a, b, n) == hamming(b, a, n),
        hamming(a, a, n) == 0,
        hamming(a, b, n) >= 0,
    decreases n,
{
    if n > 0 {
        law_hamming_is_symmetric(a, b, n - 1);
        lemma_differing_bits_are_symmetric(a[n - 1], b[n - 1], 8);
        lemma_differing_bits_are_symmetric(a[n - 1], a[n - 1], 8);
    }
}

impl RabitqVector {
    /// Size in bytes of the code and its two factors.
    pub fn quantized_size_bytes(&self) -> (n: usize)
        requires
            self.packed_code@.len() <= usize::MAX - 8,
        ensures
            n == self.packed_code@.len() + 8,
    {
        self.packed_code.len() + 8
    }

    /// The number of dimensions in which the signs of two codes agree, less the
    /// number of those in which they do not.
    pub fn code_agreement(&self, other: &RabitqVector) -> (m: i64)
        requires
            16 * shorter(self.packed_code@, other.packed_code@) <= i64::MAX,
            8 * shorter(self.packed_code@, other.packed_code@) <= usize::MAX,
        ensures
            m == self.dim - 2 * hamming(
                self.packed_code@,
                other.packed_code@,
                shorter(self.packed_code@, other.packed_code@),
            ),
    {
        self.dim as i64 - 2 * (code_hamming(&self.packed_code, &other.packed_code) as i64)
    }
}

/// A zero in the sign bit: the number is positive, +0 or a NaN without sign.
pub open spec fn is_sign_positive(bits: u32) -> bool {
    bits < 0x8000_0000
}

/// The number is greater than zero.
pub open spec fn is_above_zero(bits: u32) -> bool {
    0 < bits <= 0x7F80_0000
}

/// The number of levels of one sign.
pub open spec fn levels_of(num_bits: u8) -> int {
    if num_bits == 2 {
        2
    } else if num_bits == 4 {
        8
    } else if num_bits == 8 {
        128
    } else {
        1
    }
}

/// The code of one dimension: the levels count upwards from the middle for a
/// positive value and downwards for a negative one.  A code of one bit only
/// says whether the value is above zero.
pub open spec fn full_code(num_bits: u8, bits: u32, level: int) -> int {
    if levels_of(num_bits) == 1 {
        if is_above_zero(bits) {
            1
        } else {
            0
        }
    } else if is_sign_positive(bits) {
        levels_of(num_bits) + level
    } else {
        levels_of(num_bits) - 1 - level
    }
}

/// Bytes of a code for `dim` dimensions.
pub open spec fn packed_len(num_bits: u8, dim: int) -> int {
    if num_bits == 8 {
        dim
    } else if num_bits == 4 {
        math::groups_of(dim, 2)
    } else if num_bits == 2 {
        math::groups_of(dim, 4)
    } else {
        math::groups_of(dim, 8)
    }
}

/// The code of dimension `i` in a packed code.  The two bits of a two-bit code
/// are kept with the sign bit lowest; the wider codes have it highest.
pub open spec fn code_at(num_bits: u8, code: Seq<u8>, i: int) -> int {
    if num_bits == 8 {
        code[i] as int
    } else if num_bits == 4 {
        packing::packed_nibble(code, i)
    } else if num_bits == 2 {
        let pair = packing::packed_pair(code, i);
        2 * (pair % 2) + pair / 2
    } else {
        packing::packed_bit(code, i)
    }
}

/// Codes are packed with zero behind the last dimension.
pub open spec fn is_packed(num_bits: u8, code: Seq<u8>, full: Seq<int>) -> bool {
    &&& code.len() == packed_len(num_bits, full.len() as int)
    &&& forall|i: int|
        #![trigger full[i]]
        0 <= i < full.len() ==> code_at(num_bits, code, i) == full[i]
    &&& forall|i: int|
        #![trigger code_at(num_bits, code, i)]
        full.len() <= i && packed_len(num_bits, i + 1) <= code.len() ==> code_at(num_bits, code, i)
            == 0
}

/// The codes of all dimensions of a rotated vector.
pub open spec fn full_codes(num_bits: u8, rotated: Seq<u32>, levels: Seq<u8>) -> Seq<int> {
    Seq::new(rotated.len(), |i: int| full_code(num_bits, rotated[i], levels[i] as int))
}

/// Encode one dimension.
pub fn encode(num_bits: u8, bits: u32, level: u8) -> (code: u8)
    requires
        level < levels_of(num_bits),
    ensures
        code == full_code(num_bits, bits, level as int),
        code < 2 * levels_of(num_bits),
        num_bits == 1 ==> (code == 1 <==> 0 < bits <= 0x7F80_0000) && code < 2,
        num_bits == 2 ==> code == if bits < 0x8000_0000 {
            2 + level
        } else {
            1 - level
        },
        num_bits == 4 ==> code == if bits < 0x8000_0000 {
            8 + level
        } else {
            7 - level
        },
        num_bits == 8 ==> code == if bits < 0x8000_0000 {
            128 + level
        } else {
            127 - level
        },
{
    let levels: u8 = if num_bits == 2 {
        2
    } else if num_bits == 4 {
        8
    } else if num_bits == 8 {
        128
    } else {
        1
    };
    if levels == 1 {
        if 0 < bits && bits <= 0x7F80_0000 {
            1
        } else {
            0
        }
    } else if bits < 0x8000_0000 {
        levels + level
    } else {
        levels - 1 - level
    }
}

/// Pack the code of a rotated vector, whose dimensions have the given levels.
pub fn pack_code(num_bits: u8, rotated: &Vec<u32>, levels: &Vec<u8>) -> (code: Vec<u8>)
    requires
        levels@.len() == rotated@.len(),
        forall|i: int| #![trigger levels@[i]] 0 <= i < levels@.len() ==> levels@[i] < levels_of(num_bits),
    ensures
        is_packed(num_bits, code@, full_codes(num_bits, rotated@, levels@)),
        num_bits == 1 ==> code@.len() == (rotated@.len() + 7) / 8 && forall|i: int|
            #![trigger rotated@[i]]
            0 <= i < rotated@.len() ==> ((code@[i / 8] >> ((i % 8) as u8)) & 1 == 1 <==> 0
                < rotated@[i] <= 0x7F80_0000),
        num_bits == 2 ==> code@.len() == (rotated@.len() + 3) / 4,
        num_bits == 4 ==> code@.len() == (rotated@.len() + 1) / 2,
        num_bits == 8 ==> code@.len() == rotated@.len(),
{
    proof {
        assert forall|code: Seq<u8>| #[trigger]
            is_packed(num_bits, code, full_codes(num_bits, rotated@, levels@)) implies (num_bits
            == 1 ==> forall|i: int|
            #![trigger rotated@[i]]
            0 <= i < rotated@.len() ==> ((code[i / 8] >> ((i % 8) as u8)) & 1 == 1 <==> 0
                < rotated@[i] <= 0x7F80_0000)) by {
            let full = full_codes(num_bits, rotated@, levels@);
            if num_bits == 1 {
                assert forall|i: int| #![trigger rotated@[i]] 0 <= i < rotated@.len() implies ((
                code[i / 8] >> ((i % 8) as u8)) & 1 == 1 <==> 0 < rotated@[i] <= 0x7F80_0000) by {
                    law_packed_codes_stand_in_the_bits(num_bits, code, full, i);
                    assert(full[i] == full_code(num_bits, rotated@[i], levels@[i] as int));
                    law_one_bit_code_is_the_sign(rotated@[i], levels@[i] as int);
                }
            }
        }
    }
    let mut digits: Vec<u8> = Vec::new();
    let mut i: usize = 0;
    while i < rotated.len()
        invariant
            i <= rotated@.len(),
            levels@.len() == rotated@.len(),
            digits@.len() == i,
            forall|j: int|
                #![trigger levels@[j]]
                0 <= j < levels@.len() ==> levels@[j] < levels_of(num_bits),
            forall|j: int|
                #![trigger digits@[j]]
                0 <= j < i ==> {
                    let full = full_code(num_bits, rotated@[j], levels@[j] as int);
                    &&& 0 <= full < 2 * levels_of(num_bits)
                    &&& digits@[j] == if num_bits == 2 {
                        full / 2 + 2 * (full % 2)
                    } else {
                        full
                    }
                },
        decreases rotated.len() - i,
    {
        let full: u8 = encode(num_bits, rotated[i], levels[i]);
        let d: u8 = if num_bits == 2 {
            full / 2 + 2 * (full % 2)
        } else {
            full
        };
        digits.push(d);
        i = i + 1;
    }
    let ghost full = full_codes(num_bits, rotated@, levels@);
    if num_bits == 8 {
        assert(is_packed(num_bits, digits@, full));
        digits
    } else if num_bits == 4 {
        let code: Vec<u8> = pack_nibbles(&digits);
        assert(is_packed(num_bits, code@, full));
        code
    } else if num_bits == 2 {
        let code: Vec<u8> = pack_pairs(&digits);
        assert(is_packed(num_bits, code@, full));
        code
    } else {
        let code: Vec<u8> = pack_bits(&digits);
        assert(is_packed(num_bits, code@, full));
        code
    }
}

/// Read the code of dimension `i`.
pub fn unpack_code(num_bits: u8, code: &Vec<u8>, i: usize) -> (c: u8)
    requires
        i < usize::MAX,
        packed_len(num_bits, i + 1) <= code@.len(),
    ensures
        c == code_at(num_bits, code@, i as int),
{
    if num_bits == 8 {
        code[i]
    } else if num_bits == 4 {
        if i % 2 == 0 {
            code[i / 2] % 16
        } else {
            code[i / 2] / 16
        }
    } else if num_bits == 2 {
        let low: u8 = get_bit(code[i / 4], 2 * (i % 4));
        let high: u8 = get_bit(code[i / 4], 2 * (i % 4) + 1);
        2 * low + high
    } else {
        get_bit(code[i / 8], i % 8)
    }
}

/// From the code of a dimension its sign and its level can be told: two
/// dimensions that have the same code agree in both.
pub proof fn law_codes_keep_sign_and_level(
    num_bits: u8,
    bits1: u32,
    level1: int,
    bits2: u32,
    level2: int,
)
    requires
        num_bits == 2 || num_bits == 4 || num_bits == 8,
        0 <= level1 < levels_of(num_bits),
        0 <= level2 < levels_of(num_bits),
        full_code(num_bits, bits1, level1) == full_code(num_bits, bits2, level2),
    ensures
        is_sign_positive(bits1) == is_sign_positive(bits2),
        level1 == level2,
{
}

/// The RaBitQ quantizer: only a rotation seed, and an optional center that is
/// taken off every vector.
#[derive(Clone)]
pub struct RabitqQuantizer {
    pub num_bits: u8,
    pub rotation_seed: u64,
    /// The padded dimension.
    pub dim: usize,
    /// Bits of the center, or empty.
    pub center: Vec<u32>,
}

impl RabitqQuantizer {
    pub fn new(num_bits: u8, rotation_seed: u64, dim: usize) -> (q: RabitqQuantizer)
        requires
            dim <= usize::MAX / 2 + 1,
        ensures
            q.num_bits == num_bits,
            q.rotation_seed == rotation_seed,
            is_power_of_two(q.dim as int),
            q.dim >= dim,
            q.dim == 1 || q.dim < 2 * dim,
            q.center@ == Seq::<u32>::empty(),
    {
        RabitqQuantizer { num_bits, rotation_seed, dim: padded_dim(dim), center: Vec::new() }
    }

    pub fn with_center(self, center: Vec<u32>) -> (q: RabitqQuantizer)
        ensures
            q == (RabitqQuantizer { center, ..self }),
    {
        RabitqQuantizer {
            num_bits: self.num_bits,
            rotation_seed: self.rotation_seed,
            dim: self.dim,
            center,
        }
    }

    pub fn rotation_seed(&self) -> (seed: u64)
        ensures
            seed == self.rotation_seed,
    {
        self.rotation_seed
    }

    pub fn dim(&self) -> (dim: usize)
        ensures
            dim == self.dim,
    {
        self.dim
    }
}

/// The integer half of the scan state for one query: the quantized table of
/// partial sums.
pub struct RabitqFastScan {
    pub num_bits: u8,
    pub dim: u32,
    /// For every four dimensions the sums of their 16 subsets, as bytes.
    pub table_u8: Vec<u8>,
}

impl RabitqFastScan {
    /// Bytes per 1-bit code.
    pub fn code_len(&self) -> (n: usize)
        ensures
            n == self.dim / 8,
    {
        self.dim as usize / 8
    }

    /// Sum the quantized table for one transposed batch of 32 rows.
    pub fn sum_batch(&self, batch_codes: &[u8], out: &mut [u16])
        requires
            self.dim / 8 * 32 == batch_codes@.len(),
            self.dim / 8 * 32 == self.table_u8@.len(),
            old(out)@.len() >= 32,
        ensures
            final(out)@.len() == old(out)@.len(),
            forall|r: int|
                0 <= r < 32 ==> #[trigger] final(out)@[r] == rabitq_fastscan::saturated(
                    rabitq_fastscan::batch_row_sum(
                        batch_codes@,
                        self.table_u8@,
                        r,
                        self.dim as int / 8,
                    ),
                ),
            forall|r: int| 32 <= r < old(out)@.len() ==> #[trigger] final(out)@[r] == old(out)@[r],
    {
        rabitq_fastscan::sum_batch(batch_codes, self.code_len(), self.table_u8.as_slice(), out);
    }
}

/// A code of one bit is the sign: of numbers, exactly those that are greater than
/// zero have a one, in the order of numbers; and a number and its negative have
/// different codes, unless they are zero.
pub proof fn law_one_bit_code_is_the_sign(bits: u32, level: int)
    ensures
        full_code(1, bits, level) == 1 <==> 0 < bits <= 0x7F80_0000,
        full_code(1, bits, level) == 0 || full_code(1, bits, level) == 1,
        bits % 0x8000_0000 <= 0x7F80_0000 ==> (full_code(1, bits, level) == 1
            <==> float_bits::key_of(bits) > float_bits::key_of(0)),
        0 < bits % 0x8000_0000 <= 0x7F80_0000 ==> full_code(1, bits, level) != full_code(
            1,
            bits ^ 0x8000_0000u32,
            level,
        ),
{
    assert(bits < 0x8000_0000 ==> bits ^ 0x8000_0000u32 == bits + 0x8000_0000u32) by (bit_vector);
    assert(bits >= 0x8000_0000 ==> bits ^ 0x8000_0000u32 == bits - 0x8000_0000u32) by (bit_vector);
}

/// Wider codes stand in the order of the values that they stand for: those of
/// positive values above those of negative ones, levels away from the middle;
/// and the codes of a value and of its negative mirror each other.
pub proof fn law_wide_codes_are_ordered(num_bits: u8, bits1: u32, level1: int, bits2: u32, level2: int)
    requires
        num_bits == 2 || num_bits == 4 || num_bits == 8,
    ensures
        bits1 >= 0x8000_0000 && bits2 < 0x8000_0000 && level1 >= 0 && level2 >= 0 ==> full_code(
            num_bits,
            bits1,
            level1,
        ) < full_code(num_bits, bits2, level2),
        bits1 < 0x8000_0000 && bits2 < 0x8000_0000 ==> full_code(num_bits, bits2, level2)
            - full_code(num_bits, bits1, level1) == level2 - level1,
        bits1 >= 0x8000_0000 && bits2 >= 0x8000_0000 ==> full_code(num_bits, bits2, level2)
            - full_code(num_bits, bits1, level1) == level1 - level2,
        bits1 < 0x8000_0000 <= bits2 && level1 == level2 ==> full_code(num_bits, bits1, level1)
            + full_code(num_bits, bits2, level2) == if num_bits == 2 {
            3
        } else if num_bits == 4 {
            15
        } else {
            255int
        },
{
}

/// The codes of all dimensions stand in the bits of the packed code from the low
/// ones on; of the two bits of a two-bit code the sign is the lower one.
pub proof fn law_packed_codes_stand_in_the_bits(num_bits: u8, code: Seq<u8>, full: Seq<int>, i: int)
    requires
        is_packed(num_bits, code, full),
        0 <= i < full.len(),
    ensures
        num_bits == 1 ==> full[i] == (code[i / 8] >> ((i % 8) as u8)) & 1,
        num_bits == 2 ==> {
            let pair = (code[i / 4] >> ((2 * (i % 4)) as u8)) & 3;
            full[i] == 2 * (pair % 2) + pair / 2
        },
        num_bits == 4 ==> full[i] == (code[i / 2] >> ((4 * (i % 2)) as u8)) & 15,
        num_bits == 8 ==> full[i] == code[i],
        num_bits == 1 ==> code.len() == (full.len() + 7) / 8,
        num_bits == 2 ==> code.len() == (full.len() + 3) / 4,
        num_bits == 4 ==> code.len() == (full.len() + 1) / 2,
        num_bits == 8 ==> code.len() == full.len(),
{
    packing::law_digits_are_packed_from_the_low_bits(code, i);
    assert(code_at(num_bits, code, i) == full[i]);
}

} // verus!
