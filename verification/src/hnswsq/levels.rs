//! Hashing of element addresses.
use crate::util::bytes;
use crate::util::bytes::{push_u16, push_u32};
use crate::util::item_pointer::ItemPointer;
use vstd::prelude::*;

verus! {

/// The start value and the factor of the byte-wise hash.
pub const FNV_OFFSET: u64 = 0xcbf2_9ce4_8422_2325;

pub const FNV_PRIME: u64 = 0x100_0000_01b3;

/// The factors of the final mixing.
pub const MIX_1: u64 = 0xff51_afd7_ed55_8ccd;

pub const MIX_2: u64 = 0xc4ce_b9fe_1a85_ec53;

/// A product that wraps around.
pub open spec fn product(a: u64, b: u64) -> u64 {
    (a as int * b as int % 0x1_0000_0000_0000_0000) as u64
}

/// The byte-wise hash: each byte is mixed in, then the hash is multiplied.
pub open spec fn fnv1a(data: Seq<u8>) -> u64
    decreases data.len(),
{
    if data.len() == 0 {
        FNV_OFFSET
    } else {
        product(fnv1a(data.drop_last()) ^ (data.last() as u64), FNV_PRIME)
    }
}

/// `h` with its high bits mixed into the low ones.
pub open spec fn folded(h: u64) -> u64 {
    h ^ (h >> 33)
}

/// A mixing of 64 bits.
pub open spec fn murmur(h: u64) -> u64 {
    folded(product(folded(product(folded(h), MIX_1)), MIX_2))
}

fn multiply(a: u64, b: u64) -> (r: u64)
    ensures
        r == product(a, b),
{
    a.wrapping_mul(b)
}

/// A mixing of 64 bits.
pub fn murmur64(h: u64) -> (r: u64)
    ensures
        r == murmur(h),
{
    let a: u64 = multiply(h ^ (h >> 33), MIX_1);
    let b: u64 = multiply(a ^ (a >> 33), MIX_2);
    b ^ (b >> 33)
}

/// The hash that an element's level is drawn from where the draw is pinned: a
/// function of the address of its row.
pub open spec fn level_hash_of(tid: ItemPointer) -> u64 {
    let h = fnv1a(bytes::u32_bytes(tid.block_number) + bytes::u16_bytes(tid.offset));
    folded(product(folded(h), MIX_1))
}

/// The pinned draw: 53 bits of the hash, as a fraction of 2^53.
pub fn level_draw(tid: ItemPointer) -> (draw: u64)
    ensures
        draw == level_hash_of(tid) >> 11,
        draw < 0x20_0000_0000_0000,
{
    let mut data: Vec<u8> = Vec::new();
    push_u32(&mut data, tid.block_number);
    push_u16(&mut data, tid.offset);
    assert(data@ =~= bytes::u32_bytes(tid.block_number) + bytes::u16_bytes(tid.offset));
    let mut h: u64 = FNV_OFFSET;
    let mut i: usize = 0;
    while i < data.len()
        invariant
            i <= data@.len(),
            h == fnv1a(data@.take(i as int)),
        decreases data@.len() - i,
    {
        assert(data@.take(i + 1).drop_last() =~= data@.take(i as int));
        h = multiply(h ^ (data[i] as u64), FNV_PRIME);
        i = i + 1;
    }
    assert(data@.take(data@.len() as int) =~= data@);
    let a: u64 = multiply(h ^ (h >> 33), MIX_1);
    let b: u64 = a ^ (a >> 33);
    assert(b >> 11 < 0x20_0000_0000_0000) by (bit_vector);
    b >> 11
}

proof fn lemma_folded_is_injective(a: u64, b: u64)
    requires
        folded(a) == folded(b),
    ensures
        a == b,
{
    assert((a ^ (a >> 33)) == (b ^ (b >> 33)) ==> a == b) by (bit_vector);
}

/// Multiplication by `c` can be undone where `c * inverse` is 1, up to whole
/// turns.
proof fn lemma_product_is_injective(a: u64, b: u64, c: u64, inverse: int, turns: int)
    requires
        c * inverse == 1 + turns * 0x1_0000_0000_0000_0000,
        product(a, c) == product(b, c),
    ensures
        a == b,
{
    let n = 0x1_0000_0000_0000_0000int;
    let x = a as int * c as int;
    let y = b as int * c as int;
    assert(x % n == y % n);
    let k = x / n - y / n;
    assert(x - y == k * n) by {
        vstd::arithmetic::div_mod::lemma_fundamental_div_mod(x, n);
        vstd::arithmetic::div_mod::lemma_fundamental_div_mod(y, n);
        assert(n * (x / n) - n * (y / n) == k * n) by (nonlinear_arith)
            requires
                k == x / n - y / n,
        ;
    }
    let d = a as int - b as int;
    assert(d * c as int == k * n) by (nonlinear_arith)
        requires
            d == a as int - b as int,
            x == a as int * c as int,
            y == b as int * c as int,
            x - y == k * n,
    ;
    assert(d == (k * inverse - d * turns) * n) by (nonlinear_arith)
        requires
            d * c as int == k * n,
            c * inverse == 1 + turns * n,
    ;
    let t = k * inverse - d * turns;
    assert(t == 0) by (nonlinear_arith)
        requires
            d == t * n,
            -n < d < n,
            n > 0,
    ;
}

/// Different values are mixed into different ones.
pub proof fn law_murmur_is_injective(a: u64, b: u64)
    requires
        murmur(a) == murmur(b),
    ensures
        a == b,
{
    let a1 = product(folded(a), MIX_1);
    let b1 = product(folded(b), MIX_1);
    lemma_folded_is_injective(product(folded(a1), MIX_2), product(folded(b1), MIX_2));
    assert(MIX_2 * 0x9cb4_b2f8_1293_37dbint == 1 + 8680939279959119233
        * 0x1_0000_0000_0000_0000int);
    lemma_product_is_injective(
        folded(a1),
        folded(b1),
        MIX_2,
        0x9cb4_b2f8_1293_37dbint,
        8680939279959119233,
    );
    lemma_folded_is_injective(a1, b1);
    assert(MIX_1 * 0x4f74_430c_22a5_4005int == 1 + 5710046619856821070
        * 0x1_0000_0000_0000_0000int);
    lemma_product_is_injective(
        folded(a),
        folded(b),
        MIX_1,
        0x4f74_430c_22a5_4005int,
        5710046619856821070,
    );
    lemma_folded_is_injective(a, b);
}

/// The hash of bytes takes them in one by one: exclusive or, then the product, cut
/// to 64 bits.
pub proof fn law_bytes_are_hashed_in_order(data: Seq<u8>, b: u8)
    ensures
        fnv1a(Seq::empty()) == 0xcbf2_9ce4_8422_2325,
        fnv1a(data.push(b)) == (fnv1a(data) ^ (b as u64)) * 0x100_0000_01b3
            % 0x1_0000_0000_0000_0000,
{
    assert(data.push(b).drop_last() =~= data);
}

} // verus!
