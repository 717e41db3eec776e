//! How codes are compared and laid out, told by their bits and bytes.
use crate::quantization::packing;
use crate::quantization::rabitq;
use crate::quantization::rabitq_fastscan;
use crate::quantization::{QuantizedVector, QuantizerType};
use crate::util::math;
use vstd::arithmetic::power2::*;
use vstd::prelude::*;

verus! {

/// The bits in which two codes differ are those of their bytes together: of a byte,
/// the ones of the exclusive or.
pub proof fn law_differing_bits_add_up(a: Seq<u8>, b: Seq<u8>, x: u8, y: u8)
    requires
        a.len() == b.len(),
    ensures
        rabitq::hamming(Seq::empty(), Seq::empty(), 0) == 0,
        rabitq::hamming(a.push(x), b.push(y), a.len() as int + 1) == rabitq::hamming(
            a,
            b,
            a.len() as int,
        ) + (((x ^ y) >> 0u8) & 1) + (((x ^ y) >> 1u8) & 1) + (((x ^ y) >> 2u8) & 1) + (((x ^ y)
            >> 3u8) & 1) + (((x ^ y) >> 4u8) & 1) + (((x ^ y) >> 5u8) & 1) + (((x ^ y) >> 6u8) & 1)
            + (((x ^ y) >> 7u8) & 1),
{
    let n = a.len() as int;
    lemma_hamming_of_prefix(a, b, x, y, n);
    reveal_with_fuel(rabitq::differing_bits, 9);
    lemma_differing_bits(x, y);
}

proof fn lemma_differing_bits(x: u8, y: u8)
    by (bit_vector)
    ensures
        ((x ^ y) >> 0u8) & 1 == if x % 2 != y % 2 { 1u8 } else { 0u8 },
        ((x ^ y) >> 1u8) & 1 == if x / 2 % 2 != y / 2 % 2 { 1u8 } else { 0u8 },
        ((x ^ y) >> 2u8) & 1 == if x / 4 % 2 != y / 4 % 2 { 1u8 } else { 0u8 },
        ((x ^ y) >> 3u8) & 1 == if x / 8 % 2 != y / 8 % 2 { 1u8 } else { 0u8 },
        ((x ^ y) >> 4u8) & 1 == if x / 16 % 2 != y / 16 % 2 { 1u8 } else { 0u8 },
        ((x ^ y) >> 5u8) & 1 == if x / 32 % 2 != y / 32 % 2 { 1u8 } else { 0u8 },
        ((x ^ y) >> 6u8) & 1 == if x / 64 % 2 != y / 64 % 2 { 1u8 } else { 0u8 },
        ((x ^ y) >> 7u8) & 1 == if x / 128 % 2 != y / 128 % 2 { 1u8 } else { 0u8 },
{
}

proof fn lemma_hamming_of_prefix(a: Seq<u8>, b: Seq<u8>, x: u8, y: u8, n: int)
    requires
        a.len() == b.len(),
        0 <= n <= a.len(),
    ensures
        rabitq::hamming(a.push(x), b.push(y), n) == rabitq::hamming(a, b, n),
    decreases n,
{
    if n > 0 {
        lemma_hamming_of_prefix(a, b, x, y, n - 1);
    }
}

/// A value changes its sign where the bit of its place is set, and only there: the
/// first value goes by the lowest bit of the first byte.
pub proof fn law_signs_follow_the_bits(values: Seq<u32>, signs: Seq<u8>, i: int)
    requires
        0 <= i < values.len(),
    ensures
        rabitq::signs_flipped(values, signs).len() == values.len(),
        rabitq::signs_flipped(values, signs)[i] == if i / 8 < signs.len() && (signs[i / 8] >> ((i
            % 8) as u8)) & 1 == 1 {
            values[i] ^ 0x8000_0000
        } else {
            values[i]
        },
{
    packing::law_digits_are_packed_from_the_low_bits(signs, i);
}

/// What a code adds up to is what its bytes do: of each, the entries for the low
/// and for the high half in the table of its place.
pub proof fn law_table_entries_add_up(code: Seq<u8>, table: Seq<u8>, x: u8, last: Seq<u8>)
    requires
        table.len() == 32 * code.len(),
        last.len() == 32,
    ensures
        rabitq_fastscan::code_sum(Seq::empty(), Seq::empty(), 0) == 0,
        rabitq_fastscan::code_sum(code.push(x), table + last, code.len() as int + 1)
            == rabitq_fastscan::code_sum(code, table, code.len() as int) + last[(x & 15) as int]
            + last[16 + (x >> 4u8)],
{
    let n = code.len() as int;
    lemma_code_sum_of_prefix(code, table, x, last, n);
    assert(x & 15 == x % 16 && x >> 4u8 == x / 16) by (bit_vector);
    assert((table + last)[n * 32 + x as int % 16] == last[x as int % 16]);
    assert((table + last)[n * 32 + 16 + x as int / 16] == last[16 + x as int / 16]);
}

proof fn lemma_code_sum_of_prefix(code: Seq<u8>, table: Seq<u8>, x: u8, last: Seq<u8>, n: int)
    requires
        table.len() == 32 * code.len(),
        0 <= n <= code.len(),
    ensures
        rabitq_fastscan::code_sum(code.push(x), table + last, n) == rabitq_fastscan::code_sum(
            code,
            table,
            n,
        ),
    decreases n,
{
    if n > 0 {
        lemma_code_sum_of_prefix(code, table, x, last, n - 1);
        let b = code[n - 1];
        assert(code.push(x)[n - 1] == b);
        assert(0 <= rabitq_fastscan::nibble(b, 0) < 16);
        assert(0 <= rabitq_fastscan::nibble(b, 1) < 16);
    }
}

/// Sums stand as they are up to the largest that fits.
pub proof fn law_sums_are_capped(v: int)
    ensures
        0 <= v <= 65535 ==> rabitq_fastscan::saturated(v) == v,
        v > 65535 ==> rabitq_fastscan::saturated(v) == 65535,
{
}

/// The rows of a batch of 32, in the order in which their halves stand.
pub open spec fn batch_order() -> Seq<int> {
    seq![0, 8, 1, 9, 2, 10, 3, 11, 4, 12, 5, 13, 6, 14, 7, 15]
}

/// Where the rows stand after they were transposed: of each byte of a batch there
/// are 32, first the low halves, then the high ones. Byte `j` of each sixteen holds
/// those of row `batch_order()[j]` low and of the row 16 below it high; rows that
/// are not there count as zero.
pub proof fn law_transposed_layout(
    codes: Seq<u8>,
    n_rows: int,
    code_len: int,
    batch: int,
    c: int,
    j: int,
)
    requires
        0 <= n_rows,
        0 <= c < code_len,
        0 <= batch,
        batch * 32 < n_rows,
        codes.len() == n_rows * code_len,
        0 <= j < 16,
    ensures
        ({
            let t = rabitq_fastscan::transposed(codes, n_rows, code_len);
            let first = batch * 32 + batch_order()[j];
            let a = if first < n_rows {
                codes[first * code_len + c]
            } else {
                0
            };
            let b = if first + 16 < n_rows {
                codes[(first + 16) * code_len + c]
            } else {
                0
            };
            let at = (batch * code_len + c) * 32 + j;
            &&& 0 <= at
            &&& at + 16 < t.len()
            &&& t[at] == a % 16 + 16 * (b % 16)
            &&& t[at + 16] == a / 16 + 16 * (b / 16)
        }),
{
    let w = batch * code_len + c;
    let groups = math::groups_of(n_rows, 32);
    math::lemma_groups_of(n_rows, 32);
    assert(batch < groups);
    assert(0 <= w && w + 1 <= groups * code_len) by (nonlinear_arith)
        requires
            w == batch * code_len + c,
            0 <= c < code_len,
            0 <= batch,
            batch + 1 <= groups,
    ;
    assert(w / code_len == batch && w % code_len == c) by {
        vstd::arithmetic::div_mod::lemma_fundamental_div_mod_converse(w, code_len, batch, c);
    }
    let at = w * 32 + j;
    assert(at / 32 == w && at % 32 == j);
    assert((at + 16) / 32 == w && (at + 16) % 32 == j + 16);
    assert(groups * code_len * 32 == (groups * code_len) * 32);
    assert(batch_order()[j] == rabitq_fastscan::row_at(j));
}

/// The powers of two are one and the doubles of powers of two.
pub proof fn law_powers_of_two_are_doubled(n: int)
    ensures
        rabitq::is_power_of_two(n) <==> n == 1 || (n > 0 && n % 2 == 0 && rabitq::is_power_of_two(
            n / 2,
        )),
{
    lemma_pow2_one();
    if rabitq::is_power_of_two(n) {
        let k = choose|k: nat| #[trigger] pow2(k) == n;
        if k > 0 {
            lemma_pow2_unfold(k);
            lemma_pow2_pos((k - 1) as nat);
            assert(pow2((k - 1) as nat) == n / 2);
        }
    }
    if n > 0 && n % 2 == 0 && rabitq::is_power_of_two(n / 2) {
        let k = choose|k: nat| #[trigger] pow2(k) == n / 2;
        lemma_pow2_unfold((k + 1) as nat);
        assert(pow2((k + 1) as nat) == n);
    }
}

proof fn lemma_pow2_one()
    ensures
        pow2(0) == 1,
        rabitq::is_power_of_two(1),
{
    lemma2_to64();
    assert(pow2(0) == 1);
}

/// Codes are compared as far as both of them go.
pub proof fn law_codes_are_compared_as_far_as_both_go(a: Seq<u8>, b: Seq<u8>)
    ensures
        rabitq::shorter(a, b) <= a.len(),
        rabitq::shorter(a, b) <= b.len(),
        rabitq::shorter(a, b) == a.len() || rabitq::shorter(a, b) == b.len(),
{
}

/// The digits behind the last count as zero.
pub proof fn law_missing_digits_are_zero(digits: Seq<u8>, i: int)
    ensures
        0 <= i < digits.len() ==> packing::digit_or_zero(digits, i) == digits[i],
        i >= digits.len() ==> packing::digit_or_zero(digits, i) == 0,
{
}

/// The schemes are told by their numbers.
pub proof fn law_schemes_have_their_numbers(a: QuantizerType, b: QuantizerType)
    ensures
        a.number() == b.number() ==> a == b,
        (QuantizerType::Sbq).number() == 0,
        (QuantizerType::Rabitq).number() == 1,
{
}

/// A quantized vector takes eight bytes for each word of its signs, or one for each
/// byte of its code and eight for its two factors.
pub proof fn law_sizes_of_quantized_vectors(v: QuantizedVector)
    ensures
        v is Sbq ==> v.size() == 8 * v->Sbq_0@.len(),
        v is Rabitq ==> v.size() == v->Rabitq_0.packed_code@.len() + 8,
{
}

} // verus!
