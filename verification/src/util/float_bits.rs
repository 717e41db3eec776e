//! `f32` numbers as their bit patterns.
use vstd::prelude::*;

verus! {

/// Bits of the number without its sign.
pub open spec fn magnitude(bits: u32) -> int {
    bits as int % 0x8000_0000
}

/// Whether the bits are those of no number.
pub open spec fn is_nan(bits: u32) -> bool {
    magnitude(bits) > 0x7F80_0000
}

/// Whether the numbers compare equal: the two zeros do, and what is no number
/// equals nothing.
pub open spec fn same_number(a: u32, b: u32) -> bool {
    !is_nan(a) && !is_nan(b) && (a == b || (magnitude(a) == 0 && magnitude(b) == 0))
}

/// Whether the numbers compare equal.
pub fn numbers_equal(a: u32, b: u32) -> (r: bool)
    ensures
        r == same_number(a, b),
{
    let ma: u32 = a % 0x8000_0000;
    let mb: u32 = b % 0x8000_0000;
    ma <= 0x7F80_0000 && mb <= 0x7F80_0000 && (a == b || (ma == 0 && mb == 0))
}

/// Non-negative numbers have their bits as the key; negative ones count down
/// from minus one, by their magnitude.
pub open spec fn key_of(bits: u32) -> int {
    if bits < 0x8000_0000 {
        bits as int
    } else {
        -magnitude(bits) - 1
    }
}

/// The order key of the number with the given bits: keys compare as
/// `f32::total_cmp` compares the numbers.
pub fn order_key(bits: u32) -> (key: i32)
    ensures
        key as int == key_of(bits),
{
    if bits < 0x8000_0000 {
        bits as i32
    } else {
        -((bits - 0x8000_0000) as i32) - 1
    }
}

/// The bits of the number with the given order key.
pub fn bits_of_key(key: i32) -> (bits: u32)
    ensures
        key_of(bits) == key,
{
    if key >= 0 {
        key as u32
    } else {
        (-(key + 1)) as u32 + 0x8000_0000
    }
}

/// Different bits have different keys.
pub proof fn law_order_key_is_injective(a: u32, b: u32)
    requires
        key_of(a) == key_of(b),
    ensures
        a == b,
{
}

/// The number with the other sign.
pub open spec fn negated(bits: u32) -> u32 {
    bits ^ 0x8000_0000
}

/// Changing the sign twice gives the number back, and once never does.
pub proof fn law_negation_is_an_involution(bits: u32)
    by (bit_vector)
    ensures
        negated(negated(bits)) == bits,
        negated(bits) != bits,
{
}

/// Keys stand in the order of the numbers: those of negative numbers below those
/// of positive ones, and by size away from zero; a number that is not zero and
/// its negative have keys on both sides of those of the zeros.
pub proof fn law_keys_stand_in_the_order_of_numbers(a: u32, b: u32)
    ensures
        a < b < 0x8000_0000 ==> key_of(a) < key_of(b),
        0x8000_0000 <= a < b ==> key_of(a) > key_of(b),
        a < 0x8000_0000 <= b ==> key_of(b) < key_of(a),
        key_of(0) == 0,
        key_of(0x8000_0000) == -1,
        i32::MIN <= key_of(a) <= i32::MAX,
{
}

/// Numbers compare equal exactly where their bits are the same and they are
/// numbers, or both are zeros.
pub proof fn law_equal_numbers(a: u32, b: u32)
    ensures
        same_number(a, b) <==> (a == b && (a <= 0x7F80_0000 || 0x8000_0000 <= a <= 0xFF80_0000))
            || ((a == 0 || a == 0x8000_0000) && (b == 0 || b == 0x8000_0000)),
{
}

} // verus!
