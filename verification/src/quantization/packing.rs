//! Digits packed into bytes.
use crate::util::math;
use crate::util::math::div_ceil;
use vstd::prelude::*;

verus! {

/// The weight of digit `j` to the base 2.
pub open spec fn weight(j: int) -> int {
    if j <= 0 {
        1
    } else if j == 1 {
        2
    } else if j == 2 {
        4
    } else if j == 3 {
        8
    } else if j == 4 {
        16
    } else if j == 5 {
        32
    } else if j == 6 {
        64
    } else {
        128
    }
}

fn weight_of(j: usize) -> (w: u8)
    requires
        j < 8,
    ensures
        w == weight(j as int),
{
    if j == 0 {
        1
    } else if j == 1 {
        2
    } else if j == 2 {
        4
    } else if j == 3 {
        8
    } else if j == 4 {
        16
    } else if j == 5 {
        32
    } else if j == 6 {
        64
    } else {
        128
    }
}

/// Bit `j` of a byte.
pub open spec fn bit_of(b: u8, j: int) -> int {
    b as int / weight(j) % 2
}

/// Bit `j` of a byte.
pub fn get_bit(b: u8, j: usize) -> (bit: u8)
    requires
        j < 8,
    ensures
        bit == bit_of(b, j as int),
        bit < 2,
{
    b / weight_of(j) % 2
}

/// Bit `i` of packed bits, the low bits of each byte first.
pub open spec fn packed_bit(bytes: Seq<u8>, i: int) -> int {
    bit_of(bytes[i / 8], i % 8)
}

/// The two bits at place `i` of packed pairs of bits.
pub open spec fn packed_pair(bytes: Seq<u8>, i: int) -> int {
    bytes[i / 4] as int / weight(2 * (i % 4)) % 4
}

/// The half byte at place `i`, low halves first.
pub open spec fn packed_nibble(bytes: Seq<u8>, i: int) -> int {
    if i % 2 == 0 {
        bytes[i / 2] as int % 16
    } else {
        bytes[i / 2] as int / 16
    }
}

proof fn lemma_bits_of_a_sum(
    b: u8,
    d0: u8,
    d1: u8,
    d2: u8,
    d3: u8,
    d4: u8,
    d5: u8,
    d6: u8,
    d7: u8,
)
    by (bit_vector)
    requires
        d0 < 2,
        d1 < 2,
        d2 < 2,
        d3 < 2,
        d4 < 2,
        d5 < 2,
        d6 < 2,
        d7 < 2,
        b == d0 + 2 * d1 + 4 * d2 + 8 * d3 + 16 * d4 + 32 * d5 + 64 * d6 + 128 * d7,
    ensures
        b / 1 % 2 == d0,
        b / 2 % 2 == d1,
        b / 4 % 2 == d2,
        b / 8 % 2 == d3,
        b / 16 % 2 == d4,
        b / 32 % 2 == d5,
        b / 64 % 2 == d6,
        b / 128 % 2 == d7,
{
}

proof fn lemma_pairs_of_a_sum(b: u8, d0: u8, d1: u8, d2: u8, d3: u8)
    by (bit_vector)
    requires
        d0 < 4,
        d1 < 4,
        d2 < 4,
        d3 < 4,
        b == d0 + 4 * d1 + 16 * d2 + 64 * d3,
    ensures
        b / 1 % 4 == d0,
        b / 4 % 4 == d1,
        b / 16 % 4 == d2,
        b / 64 % 4 == d3,
{
}

/// Digit `i`, or zero behind the last one.
pub open spec fn digit_or_zero(digits: Seq<u8>, i: int) -> int {
    if 0 <= i < digits.len() {
        digits[i] as int
    } else {
        0
    }
}

/// The digit `j` places behind place `p`.
fn digit(s: &Vec<u8>, p: usize, j: usize) -> (d: u8)
    requires
        p < s@.len(),
    ensures
        d == digit_or_zero(s@, p + j),
{
    if j < s.len() - p {
        s[p + j]
    } else {
        0
    }
}

/// Pack bits into bytes, the low bits first.
pub fn pack_bits(bits: &Vec<u8>) -> (out: Vec<u8>)
    requires
        forall|i: int| #![trigger bits@[i]] 0 <= i < bits@.len() ==> bits@[i] < 2,
    ensures
        out@.len() == math::groups_of(bits@.len() as int, 8),
        forall|i: int|
            #![trigger packed_bit(out@, i)]
            0 <= i < 8 * out@.len() ==> packed_bit(out@, i) == digit_or_zero(bits@, i),
{
    let len: usize = bits.len();
    let n: usize = div_ceil(len, 8);
    let mut out: Vec<u8> = Vec::new();
    let mut k: usize = 0;
    while k < n
        invariant
            k <= n,
            len == bits@.len(),
            n == math::groups_of(len as int, 8),
            out@.len() == k,
            forall|i: int| #![trigger bits@[i]] 0 <= i < bits@.len() ==> bits@[i] < 2,
            forall|i: int|
                #![trigger packed_bit(out@, i)]
                0 <= i < 8 * k ==> packed_bit(out@, i) == digit_or_zero(bits@, i),
        decreases n - k,
    {
        let p: usize = 8 * k;
        let d0: u8 = digit(bits, p, 0);
        let d1: u8 = digit(bits, p, 1);
        let d2: u8 = digit(bits, p, 2);
        let d3: u8 = digit(bits, p, 3);
        let d4: u8 = digit(bits, p, 4);
        let d5: u8 = digit(bits, p, 5);
        let d6: u8 = digit(bits, p, 6);
        let d7: u8 = digit(bits, p, 7);
        let b: u8 = d0 + 2 * d1 + 4 * d2 + 8 * d3 + 16 * d4 + 32 * d5 + 64 * d6 + 128 * d7;
        proof {
            lemma_bits_of_a_sum(b, d0, d1, d2, d3, d4, d5, d6, d7);
        }
        let ghost before = out@;
        out.push(b);
        assert forall|i: int| #![trigger packed_bit(out@, i)] 0 <= i < 8 * (k
            + 1) implies packed_bit(out@, i) == digit_or_zero(bits@, i) by {
            if i < p {
                assert(packed_bit(before, i) == digit_or_zero(bits@, i));
                assert(out@[i / 8] == before[i / 8]);
            } else {
                assert(i / 8 == k);
                assert(out@[k as int] == b);
            }
        }
        k = k + 1;
    }
    out
}

/// Pack pairs of bits into bytes, the low pairs first.
pub fn pack_pairs(pairs: &Vec<u8>) -> (out: Vec<u8>)
    requires
        forall|i: int| #![trigger pairs@[i]] 0 <= i < pairs@.len() ==> pairs@[i] < 4,
    ensures
        out@.len() == math::groups_of(pairs@.len() as int, 4),
        forall|i: int|
            #![trigger packed_pair(out@, i)]
            0 <= i < 4 * out@.len() ==> packed_pair(out@, i) == digit_or_zero(pairs@, i),
{
    let len: usize = pairs.len();
    let n: usize = div_ceil(len, 4);
    let mut out: Vec<u8> = Vec::new();
    let mut k: usize = 0;
    while k < n
        invariant
            k <= n,
            len == pairs@.len(),
            n == math::groups_of(len as int, 4),
            out@.len() == k,
            forall|i: int| #![trigger pairs@[i]] 0 <= i < pairs@.len() ==> pairs@[i] < 4,
            forall|i: int|
                #![trigger packed_pair(out@, i)]
                0 <= i < 4 * k ==> packed_pair(out@, i) == digit_or_zero(pairs@, i),
        decreases n - k,
    {
        let p: usize = 4 * k;
        let d0: u8 = digit(pairs, p, 0);
        let d1: u8 = digit(pairs, p, 1);
        let d2: u8 = digit(pairs, p, 2);
        let d3: u8 = digit(pairs, p, 3);
        let b: u8 = d0 + 4 * d1 + 16 * d2 + 64 * d3;
        proof {
            lemma_pairs_of_a_sum(b, d0, d1, d2, d3);
        }
        let ghost before = out@;
        out.push(b);
        assert forall|i: int| #![trigger packed_pair(out@, i)] 0 <= i < 4 * (k
            + 1) implies packed_pair(out@, i) == digit_or_zero(pairs@, i) by {
            if i < p {
                assert(packed_pair(before, i) == digit_or_zero(pairs@, i));
                assert(out@[i / 4] == before[i / 4]);
            } else {
                assert(i / 4 == k);
                assert(out@[k as int] == b);
            }
        }
        k = k + 1;
    }
    out
}

/// Pack half bytes into bytes, the low halves first.
pub fn pack_nibbles(nibbles: &Vec<u8>) -> (out: Vec<u8>)
    requires
        forall|i: int| #![trigger nibbles@[i]] 0 <= i < nibbles@.len() ==> nibbles@[i] < 16,
    ensures
        out@.len() == math::groups_of(nibbles@.len() as int, 2),
        forall|i: int|
            #![trigger packed_nibble(out@, i)]
            0 <= i < 2 * out@.len() ==> packed_nibble(out@, i) == digit_or_zero(nibbles@, i),
{
    let len: usize = nibbles.len();
    let n: usize = div_ceil(len, 2);
    let mut out: Vec<u8> = Vec::new();
    let mut k: usize = 0;
    while k < n
        invariant
            k <= n,
            len == nibbles@.len(),
            n == math::groups_of(len as int, 2),
            out@.len() == k,
            forall|i: int| #![trigger nibbles@[i]] 0 <= i < nibbles@.len() ==> nibbles@[i] < 16,
            forall|i: int|
                #![trigger packed_nibble(out@, i)]
                0 <= i < 2 * k ==> packed_nibble(out@, i) == digit_or_zero(nibbles@, i),
        decreases n - k,
    {
        let p: usize = 2 * k;
        let d0: u8 = digit(nibbles, p, 0);
        let d1: u8 = digit(nibbles, p, 1);
        let b: u8 = d0 + 16 * d1;
        let ghost before = out@;
        out.push(b);
        assert forall|i: int| #![trigger packed_nibble(out@, i)] 0 <= i < 2 * (k
            + 1) implies packed_nibble(out@, i) == digit_or_zero(nibbles@, i) by {
            if i < p {
                assert(packed_nibble(before, i) == digit_or_zero(nibbles@, i));
                assert(out@[i / 2] == before[i / 2]);
            } else {
                assert(i / 2 == k);
                assert(out@[k as int] == b);
            }
        }
        k = k + 1;
    }
    out
}

proof fn lemma_bit_shifts(b: u8)
    by (bit_vector)
    ensures
        b / 1 % 2 == (b >> 0u8) & 1,
        b / 2 % 2 == (b >> 1u8) & 1,
        b / 4 % 2 == (b >> 2u8) & 1,
        b / 8 % 2 == (b >> 3u8) & 1,
        b / 16 % 2 == (b >> 4u8) & 1,
        b / 32 % 2 == (b >> 5u8) & 1,
        b / 64 % 2 == (b >> 6u8) & 1,
        b / 128 % 2 == (b >> 7u8) & 1,
        b / 1 % 4 == (b >> 0u8) & 3,
        b / 4 % 4 == (b >> 2u8) & 3,
        b / 16 % 4 == (b >> 4u8) & 3,
        b / 64 % 4 == (b >> 6u8) & 3,
        b % 16 == (b >> 0u8) & 15,
        b / 16 == (b >> 4u8) & 15,
{
}

/// Packed bits, pairs and half bytes stand in the bytes from the low bits on:
/// eight, four or two to a byte.
pub proof fn law_digits_are_packed_from_the_low_bits(bytes: Seq<u8>, i: int)
    requires
        0 <= i,
    ensures
        packed_bit(bytes, i) == (bytes[i / 8] >> ((i % 8) as u8)) & 1,
        packed_pair(bytes, i) == (bytes[i / 4] >> ((2 * (i % 4)) as u8)) & 3,
        packed_nibble(bytes, i) == (bytes[i / 2] >> ((4 * (i % 2)) as u8)) & 15,
{
    lemma_bit_shifts(bytes[i / 8]);
    lemma_bit_shifts(bytes[i / 4]);
    lemma_bit_shifts(bytes[i / 2]);
}

} // verus!
