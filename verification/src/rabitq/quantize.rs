//! Sign codes and error-correction codes of rotated vectors.
//!
//! Every dimension has a sign bit; codes of four and eight bits have three or
//! seven bits of error correction besides.  `f32` values are kept as bits.
use crate::quantization::packing;
use crate::quantization::packing::pack_nibbles;
use crate::util::math;
use crate::util::math::div_ceil;
use vstd::prelude::*;

verus! {

/// Number of bits per packed sign-code word.
pub const BITS_STORE_TYPE_SIZE: usize = 64;

/// The compact representation of a node.
#[derive(Clone)]
pub struct RabitqCode {
    /// Sign bits, packed into words with the low bits first.
    pub code: Vec<u64>,
    /// Error-correction codes: empty, two to a byte, or one to a byte.
    pub ex_code: Vec<u8>,
    pub f_add: u32,
    pub f_rescale: u32,
    pub f_add_ex: u32,
    pub f_rescale_ex: u32,
}

/// Training state and configuration of the quantizer.
#[derive(Clone)]
pub struct RabitqQuantizer {
    /// The number of the distance that vectors are compared by.
    pub distance_type: u16,
    pub training: bool,
    pub count: u64,
    /// Bits of the mean of the samples.
    pub mean: Vec<u32>,
    pub rotation_signs: Vec<u8>,
    /// Bits per dimension: 1, 4 or 8.
    pub num_bits: u8,
    pub ex_bits: u8,
}

impl RabitqQuantizer {
    /// All but one of the bits of a dimension are error correction.
    pub open spec fn wf(self) -> bool {
        self.num_bits >= 1 && self.ex_bits == self.num_bits - 1
    }

    pub fn new_with_distance_type(distance_type: u16, num_bits: u8) -> (q: RabitqQuantizer)
        requires
            num_bits == 1 || num_bits == 4 || num_bits == 8,
        ensures
            q.wf(),
            q.distance_type == distance_type,
            !q.training,
            q.count == 0,
            q.mean@ == Seq::<u32>::empty(),
            q.rotation_signs@ == Seq::<u8>::empty(),
            q.num_bits == num_bits,
    {
        RabitqQuantizer {
            distance_type,
            training: false,
            count: 0,
            mean: Vec::new(),
            rotation_signs: Vec::new(),
            num_bits,
            ex_bits: num_bits - 1,
        }
    }

    /// Take over a state that was stored.
    pub fn load(&mut self, count: u64, mean: Vec<u32>, rotation_signs: Vec<u8>, num_bits: u8)
        requires
            num_bits >= 1,
        ensures
            *final(self) == (RabitqQuantizer {
                count,
                mean,
                rotation_signs,
                num_bits,
                ex_bits: (num_bits - 1) as u8,
                ..*old(self)
            }),
            final(self).wf(),
    {
        self.count = count;
        self.mean = mean;
        self.rotation_signs = rotation_signs;
        self.num_bits = num_bits;
        self.ex_bits = num_bits - 1;
    }

    pub fn set_rotation_signs(&mut self, signs: Vec<u8>)
        ensures
            *final(self) == (RabitqQuantizer { rotation_signs: signs, ..*old(self) }),
    {
        self.rotation_signs = signs;
    }

    pub fn get_ex_bits(&self) -> (n: u8)
        ensures
            n == self.ex_bits,
    {
        self.ex_bits
    }

    /// Begin to train on vectors of `dimensions` dimensions: no sample yet, and a
    /// mean of zero.
    pub fn start_training(&mut self, dimensions: usize)
        ensures
            final(self).training,
            final(self).count == 0,
            final(self).mean@ == Seq::new(dimensions as nat, |i: int| 0u32),
            final(self).distance_type == old(self).distance_type,
            final(self).rotation_signs == old(self).rotation_signs,
            final(self).num_bits == old(self).num_bits,
            final(self).ex_bits == old(self).ex_bits,
    {
        let mut mean: Vec<u32> = Vec::new();
        let mut i: usize = 0;
        while i < dimensions
            invariant
                i <= dimensions,
                mean@ == Seq::new(i as nat, |j: int| 0u32),
            decreases dimensions - i,
        {
            mean.push(0);
            i = i + 1;
            assert(mean@ =~= Seq::new(i as nat, |j: int| 0u32));
        }
        self.training = true;
        self.count = 0;
        self.mean = mean;
    }

    /// Count a sample, after which the mean is `mean`.
    pub fn add_sample(&mut self, mean: Vec<u32>)
        requires
            old(self).count < u64::MAX,
            mean@.len() == old(self).mean@.len(),
        ensures
            *final(self) == (RabitqQuantizer {
                count: (old(self).count + 1) as u64,
                mean,
                ..*old(self)
            }),
    {
        self.count = self.count + 1;
        self.mean = mean;
    }

    pub fn finish_training(&mut self)
        ensures
            *final(self) == (RabitqQuantizer { training: false, ..*old(self) }),
    {
        self.training = false;
    }
}

/// The number is zero or greater; -0 is zero, and a NaN is not.
pub open spec fn is_not_negative(bits: u32) -> bool {
    bits <= 0x7F80_0000 || bits == 0x8000_0000
}

/// The number is less than zero.
pub open spec fn is_below_zero(bits: u32) -> bool {
    0x8000_0000 < bits <= 0xFF80_0000
}

/// Bit `j` of a word.
pub open spec fn word_bit(word: u64, j: u64) -> bool {
    (word >> j) & 1 == 1
}

/// Bit `i` of packed words.
pub open spec fn sign_bit(code: Seq<u64>, i: int) -> bool {
    word_bit(code[i / 64], (i % 64) as u64)
}

proof fn lemma_set_bit(word: u64, j: u64, k: u64)
    by (bit_vector)
    requires
        j < 64,
        k < 64,
    ensures
        word_bit(word | (1u64 << j), k) == (k == j || word_bit(word, k)),
{
}

proof fn lemma_no_bit(k: u64)
    by (bit_vector)
    requires
        k < 64,
    ensures
        !word_bit(0, k),
{
}

/// Pack the signs of a rotated vector into words: a bit is set where the value
/// is not negative.
pub fn pack_sign_bits(rotated: &Vec<u32>) -> (code: Vec<u64>)
    ensures
        code@.len() == math::groups_of(rotated@.len() as int, 64),
        forall|i: int|
            #![trigger sign_bit(code@, i)]
            0 <= i < 64 * code@.len() ==> sign_bit(code@, i) == (i < rotated@.len()
                && is_not_negative(rotated@[i])),
{
    let n: usize = div_ceil(rotated.len(), BITS_STORE_TYPE_SIZE);
    let mut code: Vec<u64> = Vec::new();
    proof {
        math::lemma_groups_of(rotated@.len() as int, 64);
    }
    while code.len() < n
        invariant
            code.len() <= n,
            n == math::groups_of(rotated@.len() as int, 64),
            (n - 1) * 64 < rotated.len() || n == 0,
            forall|i: int|
                #![trigger sign_bit(code@, i)]
                0 <= i < 64 * code@.len() ==> sign_bit(code@, i) == (i < rotated@.len()
                    && is_not_negative(rotated@[i])),
        decreases n - code.len(),
    {
        let base: usize = code.len() * 64;
        let mut word: u64 = 0;
        let mut j: usize = 0;
        assert forall|k: u64| #![trigger word_bit(word, k)] k < 64 implies !word_bit(word, k) by {
            lemma_no_bit(k);
        }
        while j < 64 && j < rotated.len() - base
            invariant
                j <= 64,
                base <= rotated.len(),
                j <= rotated.len() - base,
                forall|k: u64|
                    #![trigger word_bit(word, k)]
                    k < 64 ==> word_bit(word, k) == (k < j && is_not_negative(rotated@[base + k])),
            decreases 64 - j,
        {
            let bits: u32 = rotated[base + j];
            if bits <= 0x7F80_0000 || bits == 0x8000_0000 {
                let ghost before = word;
                word = word | (1u64 << (j as u64));
                assert forall|k: u64| #![trigger word_bit(word, k)] k < 64 implies word_bit(word, k)
                    == (k < j + 1 && is_not_negative(rotated@[base + k])) by {
                    lemma_set_bit(before, j as u64, k);
                    assert(word_bit(before, k) == (k < j && is_not_negative(rotated@[base + k])));
                }
            }
            j = j + 1;
        }
        let ghost before = code@;
        code.push(word);
        assert forall|i: int| #![trigger sign_bit(code@, i)] 0 <= i < 64 * code@.len() implies sign_bit(
            code@,
            i,
        ) == (i < rotated@.len() && is_not_negative(rotated@[i])) by {
            if i < base {
                assert(sign_bit(before, i) == sign_bit(code@, i));
            } else {
                let k: u64 = (i - base) as u64;
                assert(i / 64 == before.len() && i % 64 == k);
                assert(base + k == i);
                assert(sign_bit(code@, i) == word_bit(word, k));
            }
        }
    }
    code
}

/// Bytes of the packed error-correction codes.
pub open spec fn ex_packed_len(dim: int, ex_bits: u8) -> int {
    if ex_bits == 3 {
        math::groups_of(dim, 2)
    } else {
        dim
    }
}

/// The error-correction code of dimension `i`.
pub open spec fn ex_code_at(packed: Seq<u8>, ex_bits: u8, i: int) -> int {
    if ex_bits == 3 {
        packing::packed_nibble(packed, i)
    } else {
        packed[i] as int
    }
}

pub fn ex_code_packed_len(dim: usize, ex_bits: u8) -> (n: usize)
    requires
        ex_bits == 3 || ex_bits == 7,
    ensures
        n == ex_packed_len(dim as int, ex_bits),
{
    if ex_bits == 3 {
        div_ceil(dim, 2)
    } else {
        dim
    }
}

/// Pack error-correction codes.
pub fn pack_ex_code(ex_code: &Vec<u8>, ex_bits: u8) -> (out: Vec<u8>)
    requires
        ex_bits == 3 || ex_bits == 7,
        ex_bits == 3 ==> forall|i: int|
            #![trigger ex_code@[i]]
            0 <= i < ex_code@.len() ==> ex_code@[i] < 16,
    ensures
        out@.len() == ex_packed_len(ex_code@.len() as int, ex_bits),
        forall|i: int|
            #![trigger ex_code_at(out@, ex_bits, i)]
            0 <= i && ex_packed_len(i + 1, ex_bits) <= out@.len() ==> ex_code_at(out@, ex_bits, i)
                == packing::digit_or_zero(ex_code@, i),
{
    if ex_bits == 3 {
        pack_nibbles(ex_code)
    } else {
        let out: Vec<u8> = ex_code.clone();
        assert(out@ =~= ex_code@);
        out
    }
}

/// The error-correction code of dimension `i`.
pub fn unpack_ex_code(packed: &Vec<u8>, ex_bits: u8, i: usize) -> (c: u8)
    requires
        ex_bits == 3 || ex_bits == 7,
        ex_packed_len(i + 1, ex_bits) <= packed@.len(),
    ensures
        c == ex_code_at(packed@, ex_bits, i as int),
{
    if ex_bits == 3 {
        if i % 2 == 0 {
            packed[i / 2] % 16
        } else {
            packed[i / 2] / 16
        }
    } else {
        packed[i]
    }
}

/// The greatest level that `ex_bits` bits can tell.
pub open spec fn top_level(ex_bits: u8) -> int {
    if ex_bits == 3 {
        7
    } else {
        127
    }
}

/// The error-correction code of a value at a level: levels count downwards where
/// the value is below zero.
pub open spec fn folded(bits: u32, level: int, ex_bits: u8) -> int {
    if is_below_zero(bits) {
        top_level(ex_bits) - level
    } else {
        level
    }
}

/// The error-correction codes of a rotated vector whose dimensions have the
/// given levels, packed.
pub fn encode_ex_code(rotated: &Vec<u32>, levels: &Vec<u8>, ex_bits: u8) -> (out: Vec<u8>)
    requires
        ex_bits == 3 || ex_bits == 7,
        rotated@.len() == levels@.len(),
        forall|i: int|
            #![trigger levels@[i]]
            0 <= i < levels@.len() ==> levels@[i] <= top_level(ex_bits),
    ensures
        out@.len() == ex_packed_len(levels@.len() as int, ex_bits),
        forall|i: int|
            #![trigger levels@[i]]
            0 <= i < levels@.len() ==> ex_code_at(out@, ex_bits, i) == folded(
                rotated@[i],
                levels@[i] as int,
                ex_bits,
            ),
{
    let top: u8 = if ex_bits == 3 {
        7
    } else {
        127
    };
    let mut codes: Vec<u8> = Vec::new();
    let mut i: usize = 0;
    while i < levels.len()
        invariant
            i <= levels@.len(),
            rotated@.len() == levels@.len(),
            top == top_level(ex_bits),
            codes@.len() == i,
            forall|j: int|
                #![trigger levels@[j]]
                0 <= j < levels@.len() ==> levels@[j] <= top_level(ex_bits),
            forall|j: int|
                #![trigger codes@[j]]
                0 <= j < i ==> codes@[j] == folded(rotated@[j], levels@[j] as int, ex_bits)
                    && codes@[j] <= top,
        decreases levels.len() - i,
    {
        let bits: u32 = rotated[i];
        let code: u8 = if 0x8000_0000 < bits && bits <= 0xFF80_0000 {
            top - levels[i]
        } else {
            levels[i]
        };
        codes.push(code);
        i = i + 1;
    }
    let out: Vec<u8> = pack_ex_code(&codes, ex_bits);
    assert forall|k: int| #![trigger levels@[k]] 0 <= k < levels@.len() implies ex_code_at(
        out@,
        ex_bits,
        k,
    ) == folded(rotated@[k], levels@[k] as int, ex_bits) by {
        assert(codes@[k] == folded(rotated@[k], levels@[k] as int, ex_bits));
        assert(ex_packed_len(k + 1, ex_bits) <= out@.len());
        assert(ex_code_at(out@, ex_bits, k) == packing::digit_or_zero(codes@, k));
    }
    out
}

} // verus!
