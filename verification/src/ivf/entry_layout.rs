//! The layout of sealed entries.
use crate::ivf::entry;
use crate::ivf::entry::IvfEntry;
use crate::quantization::rabitq_fastscan as fastscan;
use crate::util::bytes;
use crate::util::math;
use vstd::prelude::*;

verus! {

/// How long a stream is: a header, six bytes for each row address, the codes, and
/// three words for each entry.  Codes of one and two bits are padded to batches
/// of 32.
pub proof fn law_stream_length(n: int, num_bits: u8, code_len: int)
    requires
        0 <= n,
    ensures
        num_bits == 1 || num_bits == 2 ==> entry::stream_len(n, num_bits, code_len) == 16 + 18 * n + (n
            + 31) / 32 * 32 * code_len,
        num_bits == 4 || num_bits == 8 ==> entry::stream_len(n, num_bits, code_len) == 16 + 18 * n + n
            * code_len,
{
}

/// How many bytes the codes of a padded dimension take.
pub proof fn law_packed_code_length(dim: int)
    requires
        0 <= dim,
        dim % 8 == 0,
    ensures
        8 * entry::packed_code_len(1, dim) == dim,
        4 * entry::packed_code_len(2, dim) == dim,
        2 * entry::packed_code_len(4, dim) == dim,
        entry::packed_code_len(8, dim) == dim,
{
    let q = dim / 8;
    assert(dim == 8 * q);
    assert(dim / 4 == 2 * q);
    assert(dim / 2 == 4 * q);
}

/// Where the row addresses and the words of an entry stand in a stream.
proof fn lemma_places(
    b: Seq<u8>,
    n: int,
    i: int,
    tids: Seq<u8>,
    sums: Seq<u8>,
    scales: Seq<u8>,
    margins: Seq<u8>,
    words: int,
)
    requires
        0 <= i < n,
        16 + 6 * n <= words,
        b.len() == words + 12 * n,
        b.subrange(16, 16 + n * 6) == tids,
        b.subrange(words, words + n * 4) == sums,
        b.subrange(words + n * 4, words + n * 8) == scales,
        b.subrange(words + n * 8, words + n * 12) == margins,
    ensures
        bytes::u32_at(b, 16 + 6 * i) == bytes::u32_at(tids, 6 * i),
        bytes::u16_at(b, 16 + 6 * i + 4) == bytes::u16_at(tids, 6 * i + 4),
        bytes::u32_at(b, words + 4 * i) == bytes::u32_at(sums, 4 * i),
        bytes::u32_at(b, words + 4 * n + 4 * i) == bytes::u32_at(scales, 4 * i),
        bytes::u32_at(b, words + 8 * n + 4 * i) == bytes::u32_at(margins, 4 * i),
{
    lemma_word_at(b, 16, tids, 6 * i);
    assert(tids[6 * i + 4] == b[16 + 6 * i + 4] && tids[6 * i + 5] == b[16 + 6 * i + 5]);
    lemma_word_at(b, words, sums, 4 * i);
    lemma_word_at(b, words + 4 * n, scales, 4 * i);
    lemma_word_at(b, words + 8 * n, margins, 4 * i);
}

proof fn lemma_word_at(b: Seq<u8>, start: int, t: Seq<u8>, k: int)
    requires
        0 <= start,
        start + t.len() <= b.len(),
        t == b.subrange(start, start + t.len()),
        0 <= k,
        k + 4 <= t.len(),
    ensures
        bytes::u32_at(t, k) == bytes::u32_at(b, start + k),
{
    assert(t[k] == b[start + k] && t[k + 1] == b[start + k + 1] && t[k + 2] == b[start + k + 2] && t[k
        + 3] == b[start + k + 3]);
}

/// Where everything stands in a stream: the header's fields, the row addresses,
/// and behind the codes the three words of each entry, low bytes first.
pub proof fn law_stream_layout(
    entries: Seq<IvfEntry>,
    scales: Seq<u32>,
    margin_factors: Seq<u32>,
    i: int,
)
    requires
        entry::can_read_back(entries),
        scales.len() == entries.len(),
        margin_factors.len() == entries.len(),
        0 <= i < entries.len(),
    ensures
        ({
            let b = entry::serialized(entries, scales, margin_factors);
            let n = entries.len() as int;
            let cl = entries[0].code.packed_code@.len() as int;
            let bits = entries[0].code.num_bits;
            let words = 16 + 6 * n + if bits == 1 || bits == 2 {
                (n + 31) / 32 * 32 * cl
            } else {
                n * cl
            };
            &&& b.len() == words + 12 * n
            &&& bytes::u32_at(b, 0) == entry::IVF_ENTRY_MAGIC
            &&& bytes::u32_at(b, 4) == n
            &&& bytes::u16_at(b, 8) == cl
            &&& b[10] == bits
            &&& bytes::u16_at(b, 11) == entries[0].code.dim
            &&& bytes::u32_at(b, 16 + 6 * i) == entries[i].heap_tid.block_number
            &&& bytes::u16_at(b, 16 + 6 * i + 4) == entries[i].heap_tid.offset
            &&& bytes::u32_at(b, words + 4 * i) == entries[i].code.sum_of_x2
            &&& bytes::u32_at(b, words + 4 * n + 4 * i) == scales[i]
            &&& bytes::u32_at(b, words + 8 * n + 4 * i) == margin_factors[i]
        }),
{
    let b = entry::serialized(entries, scales, margin_factors);
    let n = entries.len() as int;
    entry::lemma_regions_of_serialized(entries, scales, margin_factors);
    entry::law_seal_length_is_exact(entries, scales, margin_factors);
    let shape = entry::shape_of(entries);
    let words = 16 + n * 6 + entry::codes_len(n, b[10], shape.code_len as int);
    assert(entry::codes_len(n, b[10], shape.code_len as int) >= 0) by {
        let g = math::groups_of(n, 32);
        let cl = shape.code_len as int;
        math::lemma_groups_of(n, 32);
        assert(0 <= g * 32 * cl && 0 <= n * cl) by (nonlinear_arith)
            requires
                0 <= g,
                0 <= n,
                0 <= cl,
        ;
    }
    entry::lemma_tid_round_trip(entries, i);
    bytes::lemma_word_round_trip(entry::sums_of(entries), i);
    bytes::lemma_word_round_trip(scales, i);
    bytes::lemma_word_round_trip(margin_factors, i);
    lemma_places(
        b,
        n,
        i,
        entry::tids_region(entries),
        bytes::word_bytes(entry::sums_of(entries)),
        bytes::word_bytes(scales),
        bytes::word_bytes(margin_factors),
        words,
    );
}

/// The codes of sealed entries stand behind the row addresses. Wide ones come one
/// after the other; those of one bit are transposed in batches of 32 rows, and those
/// of two bits plane by plane.
pub proof fn law_codes_stand_behind_the_addresses(
    entries: Seq<IvfEntry>,
    scales: Seq<u32>,
    margin_factors: Seq<u32>,
    i: int,
    j: int,
)
    requires
        entry::can_read_back(entries),
        scales.len() == entries.len(),
        margin_factors.len() == entries.len(),
        0 <= i < entries.len(),
        0 <= j < entries[0].code.packed_code@.len(),
    ensures
        ({
            let b = entry::serialized(entries, scales, margin_factors);
            let n = entries.len() as int;
            let cl = entries[0].code.packed_code@.len() as int;
            let bits = entries[0].code.num_bits;
            let rows = entry::row_major(entries, cl);
            &&& bits != 1 && bits != 2 ==> 16 + 6 * n + i * cl + j < b.len() && b[16 + 6 * n + i * cl
                + j] == entries[i].code.packed_code@[j]
            &&& rows.len() == n * cl
            &&& rows[i * cl + j] == entries[i].code.packed_code@[j]
            &&& bits == 1 ==> b.subrange(16 + 6 * n, 16 + 6 * n + (n + 31) / 32 * 32 * cl)
                == fastscan::transposed(rows, n, cl)
            &&& bits == 2 ==> b.subrange(16 + 6 * n, 16 + 6 * n + (n + 31) / 32 * 32 * cl)
                == fastscan::transposed(entry::plane(entries, cl / 2, 0), n, cl / 2)
                + fastscan::transposed(entry::plane(entries, cl / 2, 1), n, cl / 2)
        }),
{
    let b = entry::serialized(entries, scales, margin_factors);
    let n = entries.len() as int;
    let cl = entries[0].code.packed_code@.len() as int;
    let bits = entries[0].code.num_bits;
    entry::lemma_regions_of_serialized(entries, scales, margin_factors);
    entry::law_seal_length_is_exact(entries, scales, margin_factors);
    math::lemma_place(i, cl, j);
    math::lemma_place_below(i, n, cl, j);
    let rows = entry::row_major(entries, cl);
    assert(entries.len() * cl == n * cl);
    assert(rows[i * cl + j] == entries[i].code.packed_code@[j]);
    let codes = entry::codes_len(n, bits, cl);
    let region = b.subrange(16 + n * 6, 16 + n * 6 + codes);
    assert(region == entry::codes_region(entries));
    if bits != 1 && bits != 2 {
        assert(codes == n * cl);
        assert(b.len() == 16 + n * 6 + codes + n * 12);
        assert(region[i * cl + j] == b[16 + n * 6 + (i * cl + j)]);
    } else {
        assert(math::groups_of(n, 32) == (n + 31) / 32);
    }
}

} // verus!
