//! Distances between packed codes, without the vectors.
use crate::quantization::rabitq;
use vstd::prelude::*;

verus! {

/// A half byte as a signed number.
pub open spec fn signed_nibble(n: int) -> int {
    if n >= 8 {
        n - 16
    } else {
        n
    }
}

/// A byte as a signed number.
pub open spec fn signed_byte(b: u8) -> int {
    if b >= 128 {
        b - 256
    } else {
        b as int
    }
}

/// The low and the high half of a byte, as signed numbers.
pub fn nibble_pair(b: u8) -> (pair: (i8, i8))
    ensures
        pair.0 == signed_nibble(b as int % 16),
        pair.1 == signed_nibble(b as int / 16),
        -8 <= pair.0 <= 7,
        -8 <= pair.1 <= 7,
{
    let low: i8 = (b % 16) as i8;
    let high: i8 = (b / 16) as i8;
    let lo: i8 = if low >= 8 {
        low - 16
    } else {
        low
    };
    let hi: i8 = if high >= 8 {
        high - 16
    } else {
        high
    };
    (lo, hi)
}

pub open spec fn apart(a: int, b: int) -> int {
    if a < b {
        b - a
    } else {
        a - b
    }
}

/// The distance of two bytes of code: of their halves where a byte holds two
/// codes, and of the bytes themselves otherwise.
pub open spec fn byte_l1(a: u8, b: u8, num_bits: u8) -> int {
    if num_bits == 4 {
        apart(signed_nibble(a as int % 16), signed_nibble(b as int % 16)) + apart(
            signed_nibble(a as int / 16),
            signed_nibble(b as int / 16),
        )
    } else {
        apart(signed_byte(a), signed_byte(b))
    }
}

/// The distance of the first `n` bytes of two codes.
pub open spec fn l1(a: Seq<u8>, b: Seq<u8>, num_bits: u8, n: int) -> int
    decreases n,
{
    if n <= 0 {
        0
    } else {
        l1(a, b, num_bits, n - 1) + byte_l1(a[n - 1], b[n - 1], num_bits)
    }
}

fn code_byte_l1(a: u8, b: u8, num_bits: u8) -> (d: u64)
    ensures
        d == byte_l1(a, b, num_bits),
        d <= 255,
{
    if num_bits == 4 {
        let (lo_a, hi_a) = nibble_pair(a);
        let (lo_b, hi_b) = nibble_pair(b);
        let lo: i8 = if lo_a < lo_b {
            lo_b - lo_a
        } else {
            lo_a - lo_b
        };
        let hi: i8 = if hi_a < hi_b {
            hi_b - hi_a
        } else {
            hi_a - hi_b
        };
        (lo + hi) as u64
    } else {
        let x: i64 = if a >= 128 {
            a as i64 - 256
        } else {
            a as i64
        };
        let y: i64 = if b >= 128 {
            b as i64 - 256
        } else {
            b as i64
        };
        if x < y {
            (y - x) as u64
        } else {
            (x - y) as u64
        }
    }
}

/// The sum of the differences of two codes, dimension by dimension, as far as
/// both reach.
pub fn code_l1(a: &Vec<u8>, b: &Vec<u8>, num_bits: u8) -> (d: u64)
    requires
        255 * rabitq::shorter(a@, b@) <= u64::MAX,
    ensures
        d == l1(a@, b@, num_bits, rabitq::shorter(a@, b@)),
{
    let mut d: u64 = 0;
    let mut i: usize = 0;
    while i < a.len() && i < b.len()
        invariant
            i <= rabitq::shorter(a@, b@),
            255 * rabitq::shorter(a@, b@) <= u64::MAX,
            d == l1(a@, b@, num_bits, i as int),
            d <= 255 * i,
        decreases a.len() - i,
    {
        d = d + code_byte_l1(a[i], b[i], num_bits);
        i = i + 1;
    }
    d
}

/// The distance of two codes does not depend on their order, is never negative,
/// and is 0 from a code to itself.
pub proof fn law_l1_is_symmetric(a: Seq<u8>, b: Seq<u8>, num_bits: u8, n: int)
    requires
        n <= a.len(),
        n <= b.len(),
    ensures
        l1(a, b, num_bits, n) == l1(b, a, num_bits, n),
        l1(a, a, num_bits, n) == 0,
        l1(a, b, num_bits, n) >= 0,
    decreases n,
{
    if n > 0 {
        law_l1_is_symmetric(a, b, num_bits, n - 1);
    }
}

/// The way over a third code is never shorter.
pub proof fn law_l1_triangle(a: Seq<u8>, b: Seq<u8>, c: Seq<u8>, num_bits: u8, n: int)
    requires
        n <= a.len(),
        n <= b.len(),
        n <= c.len(),
    ensures
        l1(a, c, num_bits, n) <= l1(a, b, num_bits, n) + l1(b, c, num_bits, n),
    decreases n,
{
    if n > 0 {
        law_l1_triangle(a, b, c, num_bits, n - 1);
    }
}

/// Twice the factor by which the code of a dimension stands for the rotated
/// value: the code less the middle of its scale.
pub open spec fn doubled_factor(code: int, num_bits: u8) -> int {
    if num_bits == 4 {
        2 * code - 15
    } else {
        2 * code - 255
    }
}

/// The product of the factors of a byte of two codes.
pub open spec fn byte_product(a: u8, b: u8, num_bits: u8) -> int {
    if num_bits == 4 {
        doubled_factor(a as int % 16, num_bits) * doubled_factor(b as int % 16, num_bits)
            + doubled_factor(a as int / 16, num_bits) * doubled_factor(b as int / 16, num_bits)
    } else {
        doubled_factor(a as int, num_bits) * doubled_factor(b as int, num_bits)
    }
}

/// Four times the dot product of the first `n` bytes of two codes.
pub open spec fn dot(a: Seq<u8>, b: Seq<u8>, num_bits: u8, n: int) -> int
    decreases n,
{
    if n <= 0 {
        0
    } else {
        dot(a, b, num_bits, n - 1) + byte_product(a[n - 1], b[n - 1], num_bits)
    }
}

fn product(x: i64, y: i64) -> (p: i64)
    requires
        -255 <= x <= 255,
        -255 <= y <= 255,
    ensures
        p == x * y,
        -65025 <= p <= 65025,
{
    assert(-65025 <= x * y <= 65025) by (nonlinear_arith)
        requires
            -255 <= x <= 255,
            -255 <= y <= 255,
    ;
    x * y
}

fn code_byte_product(a: u8, b: u8, num_bits: u8) -> (p: i64)
    ensures
        p == byte_product(a, b, num_bits),
        -65025 <= p <= 65025,
{
    if num_bits == 4 {
        let a0: i64 = 2 * ((a % 16) as i64) - 15;
        let b0: i64 = 2 * ((b % 16) as i64) - 15;
        let a1: i64 = 2 * ((a / 16) as i64) - 15;
        let b1: i64 = 2 * ((b / 16) as i64) - 15;
        assert(-225 <= a0 * b0 <= 225) by (nonlinear_arith)
            requires
                -15 <= a0 <= 15,
                -15 <= b0 <= 15,
        ;
        assert(-225 <= a1 * b1 <= 225) by (nonlinear_arith)
            requires
                -15 <= a1 <= 15,
                -15 <= b1 <= 15,
        ;
        a0 * b0 + a1 * b1
    } else {
        product(2 * (a as i64) - 255, 2 * (b as i64) - 255)
    }
}

/// What the cosine of two codes is made of, each four times.
#[derive(Clone, Copy, Debug, PartialEq, Eq, Structural)]
pub struct CodeProducts {
    pub dot: i64,
    pub norm_a: i64,
    pub norm_b: i64,
}

/// The dot product of two codes and their squared norms, as far as both reach.
pub fn code_products(a: &Vec<u8>, b: &Vec<u8>, num_bits: u8) -> (p: CodeProducts)
    requires
        65025 * rabitq::shorter(a@, b@) <= i64::MAX,
    ensures
        ({
            let n = rabitq::shorter(a@, b@);
            &&& p.dot == dot(a@, b@, num_bits, n)
            &&& p.norm_a == dot(a@, a@, num_bits, n)
            &&& p.norm_b == dot(b@, b@, num_bits, n)
        }),
{
    let mut p: CodeProducts = CodeProducts { dot: 0, norm_a: 0, norm_b: 0 };
    let mut i: usize = 0;
    while i < a.len() && i < b.len()
        invariant
            i <= rabitq::shorter(a@, b@),
            65025 * rabitq::shorter(a@, b@) <= i64::MAX,
            p.dot == dot(a@, b@, num_bits, i as int),
            p.norm_a == dot(a@, a@, num_bits, i as int),
            p.norm_b == dot(b@, b@, num_bits, i as int),
            -65025 * i <= p.dot <= 65025 * i,
            -65025 * i <= p.norm_a <= 65025 * i,
            -65025 * i <= p.norm_b <= 65025 * i,
        decreases a.len() - i,
    {
        p = CodeProducts {
            dot: p.dot + code_byte_product(a[i], b[i], num_bits),
            norm_a: p.norm_a + code_byte_product(a[i], a[i], num_bits),
            norm_b: p.norm_b + code_byte_product(b[i], b[i], num_bits),
        };
        i = i + 1;
    }
    p
}

/// The factors of a code are odd, so a code that is not empty has a norm above
/// zero and its cosine is defined.
pub proof fn law_norms_are_positive(a: Seq<u8>, num_bits: u8, n: int)
    requires
        n <= a.len(),
    ensures
        dot(a, a, num_bits, n) >= n,
    decreases n,
{
    if n > 0 {
        law_norms_are_positive(a, num_bits, n - 1);
        let b = a[n - 1];
        if num_bits == 4 {
            let x = doubled_factor(b as int % 16, num_bits);
            let y = doubled_factor(b as int / 16, num_bits);
            assert(x * x >= 1) by (nonlinear_arith)
                requires
                    x != 0,
            ;
            assert(y * y >= 1) by (nonlinear_arith)
                requires
                    y != 0,
            ;
        } else {
            let x = doubled_factor(b as int, num_bits);
            assert(x * x >= 1) by (nonlinear_arith)
                requires
                    x != 0,
            ;
        }
    }
}

} // verus!
