//! Entries of an inverted list, and the packed struct-of-arrays byte stream
//! that a sealed segment holds.
use crate::quantization::rabitq::RabitqVector;
use crate::quantization::rabitq_fastscan as fastscan;
use crate::util::bytes;
use crate::util::item_pointer::ItemPointer;
use crate::util::math;
use crate::util::page;
use vstd::prelude::*;

verus! {

/// Magic for the entry byte stream ("IVF1").
pub const IVF_ENTRY_MAGIC: u32 = 0x4956_4631;

/// Header size: magic(4) + num_entries(4) + code_len(2) + num_bits(1) +
/// dim(2) + padding(3) = 16 bytes.
pub const ENTRY_HEADER_SIZE: usize = 16;

/// Packed heap-tid size: block number (u32) + offset (u16).
pub const TID_SIZE: usize = 6;

/// A single entry in an IVF inverted list (in-memory representation).
#[derive(Clone, Debug, PartialEq)]
pub struct IvfEntry {
    /// Heap tuple ID (ctid) pointing to the original row.
    pub heap_tid: ItemPointer,
    /// Centroid-relative RaBitQ code.
    pub code: RabitqVector,
}

impl IvfEntry {
    /// Create a new entry.
    pub fn new(heap_tid: ItemPointer, code: RabitqVector) -> (e: IvfEntry)
        ensures
            e == (IvfEntry { heap_tid, code }),
    {
        IvfEntry { heap_tid, code }
    }
}

/// What the entries of one stream have in common.
pub struct Shape {
    pub num_bits: u8,
    pub dim: u16,
    pub code_len: usize,
}

/// The shape of a stream: that of its first entry.
pub open spec fn shape_of(entries: Seq<IvfEntry>) -> Shape {
    if entries.len() > 0 {
        Shape {
            num_bits: entries[0].code.num_bits,
            dim: entries[0].code.dim as u16,
            code_len: entries[0].code.packed_code.len(),
        }
    } else {
        Shape { num_bits: 1, dim: 0, code_len: 0 }
    }
}

/// Whether codes of this width are stored transposed.
pub open spec fn is_transposed(num_bits: u8) -> bool {
    num_bits == 1 || num_bits == 2
}

/// The code bytes of all entries, one entry after the other.
pub open spec fn row_major(entries: Seq<IvfEntry>, code_len: int) -> Seq<u8> {
    Seq::new(
        (entries.len() * code_len) as nat,
        |p: int| entries[p / code_len].code.packed_code@[p % code_len],
    )
}

/// Bit `i` of a byte, as 0 or 1.
pub open spec fn bit(b: u8, i: u8) -> u8 {
    (b >> i) & 1
}

/// The byte of one bit-plane (`which` is 0 for the sign bits, 1 for the ex
/// bits) that covers the eight dimensions packed in `b0` and `b1`.
pub open spec fn plane_byte(b0: u8, b1: u8, which: u8) -> u8 {
    bit(b0, which) | (bit(b0, (2 + which) as u8) << 1u8) | (bit(b0, (4 + which) as u8) << 2u8) | (
    bit(b0, (6 + which) as u8) << 3u8) | (bit(b1, which) << 4u8) | (bit(b1, (2 + which) as u8)
        << 5u8) | (bit(b1, (4 + which) as u8) << 6u8) | (bit(b1, (6 + which) as u8) << 7u8)
}

/// The packed byte of four dimensions whose sign and ex bits are the low four
/// bits of `s` and `e`.
pub open spec fn packed_byte(s: u8, e: u8) -> u8 {
    bit(s, 0) | (bit(e, 0) << 1u8) | (bit(s, 1) << 2u8) | (bit(e, 1) << 3u8) | (bit(s, 2) << 4u8)
        | (bit(e, 2) << 5u8) | (bit(s, 3) << 6u8) | (bit(e, 3) << 7u8)
}

/// One bit-plane of all entries, one entry after the other.
pub open spec fn plane(entries: Seq<IvfEntry>, plane_len: int, which: u8) -> Seq<u8> {
    Seq::new(
        (entries.len() * plane_len) as nat,
        |p: int|
            plane_byte(
                entries[p / plane_len].code.packed_code@[2 * (p % plane_len)],
                entries[p / plane_len].code.packed_code@[2 * (p % plane_len) + 1],
                which,
            ),
    )
}

/// The codes region of a stream: transposed for 1-bit codes, both bit-planes
/// transposed for 2-bit codes, row-major otherwise.
pub open spec fn codes_region(entries: Seq<IvfEntry>) -> Seq<u8> {
    let shape = shape_of(entries);
    let n = entries.len() as int;
    if shape.num_bits == 1 {
        fastscan::transposed(row_major(entries, shape.code_len as int), n, shape.code_len as int)
    } else if shape.num_bits == 2 {
        let half = shape.code_len as int / 2;
        fastscan::transposed(plane(entries, half, 0), n, half) + fastscan::transposed(
            plane(entries, half, 1),
            n,
            half,
        )
    } else {
        row_major(entries, shape.code_len as int)
    }
}

/// The six bytes of a heap tid.
pub open spec fn tid_bytes(tid: ItemPointer) -> Seq<u8> {
    bytes::u32_bytes(tid.block_number) + bytes::u16_bytes(tid.offset)
}

/// The tids region of a stream.
pub open spec fn tids_region(entries: Seq<IvfEntry>) -> Seq<u8> {
    Seq::new(6 * entries.len(), |p: int| tid_bytes(entries[p / 6].heap_tid)[p % 6])
}

/// The header of a stream.
pub open spec fn header(entries: Seq<IvfEntry>) -> Seq<u8> {
    let shape = shape_of(entries);
    bytes::u32_bytes(IVF_ENTRY_MAGIC) + bytes::u32_bytes(entries.len() as u32) + bytes::u16_bytes(
        shape.code_len as u16,
    ) + seq![shape.num_bits] + bytes::u16_bytes(shape.dim) + seq![0u8, 0u8, 0u8]
}

/// The squared norms of the entries.
pub open spec fn sums_of(entries: Seq<IvfEntry>) -> Seq<u32> {
    Seq::new(entries.len(), |i: int| entries[i].code.sum_of_x2)
}

/// The byte stream of `entries` with their precomputed factors.
pub open spec fn serialized(
    entries: Seq<IvfEntry>,
    scales: Seq<u32>,
    margin_factors: Seq<u32>,
) -> Seq<u8> {
    header(entries) + tids_region(entries) + codes_region(entries) + bytes::word_bytes(
        sums_of(entries),
    ) + bytes::word_bytes(scales) + bytes::word_bytes(margin_factors)
}

/// Entries that one stream can hold: their codes have one length, and the
/// codes region can be addressed.  A 2-bit code is cut into planes of whole
/// bytes, so what lies past the last pair of bytes has to be zero.
pub open spec fn can_serialize(entries: Seq<IvfEntry>) -> bool {
    let shape = shape_of(entries);
    &&& forall|i: int|
        #![trigger entries[i]]
        0 <= i < entries.len() ==> entries[i].code.packed_code@.len() == shape.code_len
    &&& is_transposed(shape.num_bits) ==> math::groups_of(entries.len() as int, 32) * 32
        * shape.code_len <= usize::MAX
    &&& shape.num_bits == 2 && shape.code_len % 2 == 1 ==> forall|i: int|
        #![trigger entries[i]]
        0 <= i < entries.len() ==> entries[i].code.packed_code@.last() == 0
}

/// Bit `i` of a byte.
fn bit_of(b: u8, i: u8) -> (r: u8)
    requires
        i < 8,
    ensures
        r == bit(b, i),
{
    (b >> i) & 1
}

/// One bit-plane of the eight dimensions packed in `b0` and `b1`.
fn split_plane(b0: u8, b1: u8, which: u8) -> (r: u8)
    requires
        which < 2,
    ensures
        r == plane_byte(b0, b1, which),
{
    bit_of(b0, which) | (bit_of(b0, 2 + which) << 1u8) | (bit_of(b0, 4 + which) << 2u8) | (bit_of(
        b0,
        6 + which,
    ) << 3u8) | (bit_of(b1, which) << 4u8) | (bit_of(b1, 2 + which) << 5u8) | (bit_of(b1, 4 + which)
        << 6u8) | (bit_of(b1, 6 + which) << 7u8)
}

/// Append the code bytes of all entries, one entry after the other.
fn push_row_major(buf: &mut Vec<u8>, entries: &[IvfEntry], code_len: usize)
    requires
        forall|i: int|
            #![trigger entries@[i]]
            0 <= i < entries@.len() ==> entries@[i].code.packed_code@.len() == code_len,
    ensures
        final(buf)@ == old(buf)@ + row_major(entries@, code_len as int),
{
    let ghost want = row_major(entries@, code_len as int);
    assert(buf@ =~= old(buf)@ + want.take(0));
    let mut i: usize = 0;
    while i < entries.len()
        invariant
            i <= entries.len(),
            forall|i: int|
                #![trigger entries@[i]]
                0 <= i < entries@.len() ==> entries@[i].code.packed_code@.len() == code_len,
            want == row_major(entries@, code_len as int),
            buf@ == old(buf)@ + want.take(i * code_len),
        decreases entries.len() - i,
    {
        let ghost code = entries@[i as int].code.packed_code@;
        bytes::push_all(buf, entries[i].code.packed_code.as_slice());
        proof {
            let n = entries@.len() as int;
            assert((i + 1) * code_len == i * code_len + code_len && 0 <= i * code_len && (i + 1)
                * code_len <= n * code_len) by (nonlinear_arith)
                requires
                    0 <= i < n,
                    code_len >= 0,
            ;
            assert forall|c: int| 0 <= c < code_len implies want[i * code_len + c] == code[c] by {
                math::lemma_place(i as int, code_len as int, c);
                math::lemma_place_below(i as int, n, code_len as int, c);
            }
            assert(want.take((i + 1) * code_len) =~= want.take(i * code_len) + code) by {
                assert forall|p: int|
                    i * code_len <= p < (i + 1) * code_len implies want[p] == code[p - i
                    * code_len] by {
                    assert(want[i * code_len + (p - i * code_len)] == code[p - i * code_len]);
                }
            }
            assert(buf@ =~= old(buf)@ + want.take((i + 1) * code_len));
        }
        i = i + 1;
    }
    assert(want.take(entries@.len() * code_len) =~= want);
}

/// One bit-plane of all entries, one entry after the other.
fn plane_of(entries: &[IvfEntry], code_len: usize, which: u8) -> (out: Vec<u8>)
    requires
        which < 2,
        forall|i: int|
            #![trigger entries@[i]]
            0 <= i < entries@.len() ==> entries@[i].code.packed_code@.len() == code_len,
    ensures
        out@ == plane(entries@, code_len as int / 2, which),
{
    let plane_len: usize = code_len / 2;
    let ghost want = plane(entries@, plane_len as int, which);
    let mut out: Vec<u8> = Vec::new();
    assert(out@ =~= want.take(0));
    let mut i: usize = 0;
    while i < entries.len()
        invariant
            i <= entries.len(),
            which < 2,
            plane_len == code_len / 2,
            forall|i: int|
                #![trigger entries@[i]]
                0 <= i < entries@.len() ==> entries@[i].code.packed_code@.len() == code_len,
            want == plane(entries@, plane_len as int, which),
            out@ == want.take(i * plane_len),
        decreases entries.len() - i,
    {
        let mut k: usize = 0;
        let code: &Vec<u8> = &entries[i].code.packed_code;
        while k < plane_len
            invariant
                k <= plane_len,
                i < entries.len(),
                which < 2,
                plane_len == code_len / 2,
                code@ == entries@[i as int].code.packed_code@,
                code@.len() == code_len,
                want == plane(entries@, plane_len as int, which),
                out@ == want.take(i * plane_len + k),
            decreases plane_len - k,
        {
            let b: u8 = split_plane(code[2 * k], code[2 * k + 1], which);
            proof {
                let p = i * plane_len + k;
                math::lemma_place(i as int, plane_len as int, k as int);
                math::lemma_place_below(
                    i as int,
                    entries@.len() as int,
                    plane_len as int,
                    k as int,
                );
                assert(want[p] == b);
                assert(want.take(p + 1) =~= want.take(p).push(b));
            }
            out.push(b);
            k = k + 1;
        }
        proof {
            assert((i + 1) * plane_len == i * plane_len + plane_len) by (nonlinear_arith);
        }
        i = i + 1;
    }
    assert(want.take(entries@.len() * plane_len) =~= want);
    out
}

/// Append the tids of all entries.
fn push_tids(buf: &mut Vec<u8>, entries: &[IvfEntry])
    ensures
        final(buf)@ == old(buf)@ + tids_region(entries@),
{
    let ghost want = tids_region(entries@);
    assert(buf@ =~= old(buf)@ + want.take(0));
    let mut i: usize = 0;
    while i < entries.len()
        invariant
            i <= entries.len(),
            want == tids_region(entries@),
            buf@ == old(buf)@ + want.take(6 * i),
        decreases entries.len() - i,
    {
        let tid: ItemPointer = entries[i].heap_tid;
        bytes::push_u32(buf, tid.block_number);
        bytes::push_u16(buf, tid.offset);
        proof {
            assert(tid_bytes(tid).len() == 6);
            assert(want.take(6 * (i + 1)) =~= want.take(6 * i) + tid_bytes(tid));
            assert(buf@ =~= old(buf)@ + want.take(6 * (i + 1)));
        }
        i = i + 1;
    }
    assert(want.take(6 * entries@.len() as int) =~= want);
}

/// Append the codes region.
fn push_codes(buf: &mut Vec<u8>, entries: &[IvfEntry], num_bits: u8, code_len: usize)
    requires
        can_serialize(entries@),
        num_bits == shape_of(entries@).num_bits,
        code_len == shape_of(entries@).code_len,
    ensures
        final(buf)@ == old(buf)@ + codes_region(entries@),
{
    let n: usize = entries.len();
    let ghost groups = math::groups_of(n as int, 32);
    proof {
        math::lemma_groups_of(n as int, 32);
        if is_transposed(num_bits) {
            let half = code_len as int / 2;
            assert(n * code_len <= groups * 32 * code_len && groups * code_len * 32 == groups * 32
                * code_len) by (nonlinear_arith)
                requires
                    n <= groups * 32,
                    code_len >= 0,
            ;
            assert(n * half <= n * code_len && groups * half * 32 <= groups * 32 * code_len)
                by (nonlinear_arith)
                requires
                    0 <= half <= code_len,
                    0 <= n,
                    0 <= groups,
            ;
        }
    }
    if num_bits == 1 {
        let mut rows: Vec<u8> = Vec::new();
        push_row_major(&mut rows, entries, code_len);
        assert(rows@ =~= row_major(entries@, code_len as int));
        let transposed: Vec<u8> = fastscan::transpose_1bit(rows.as_slice(), n, code_len);
        bytes::push_all(buf, transposed.as_slice());
    } else if num_bits == 2 {
        let sign_plane: Vec<u8> = plane_of(entries, code_len, 0);
        let ex_plane: Vec<u8> = plane_of(entries, code_len, 1);
        let half: usize = code_len / 2;
        let signs: Vec<u8> = fastscan::transpose_1bit(sign_plane.as_slice(), n, half);
        let exs: Vec<u8> = fastscan::transpose_1bit(ex_plane.as_slice(), n, half);
        bytes::push_all(buf, signs.as_slice());
        bytes::push_all(buf, exs.as_slice());
        assert(buf@ =~= old(buf)@ + codes_region(entries@));
    } else {
        push_row_major(buf, entries, code_len);
    }
}

/// Serialize a list's entries to a packed struct-of-arrays byte stream.
///
/// Layout (all little-endian):
/// ```text
/// [16-byte header][tids: n*6][codes: n*code_len][sum_of_x2: n*4]
/// [scale: n*4][margin_factor: n*4]
/// ```
///
/// `scales` and `margin_factors` are the bits of the factors of each entry,
/// precomputed so that the query-time estimate needs no division or root.
pub fn serialize_entries(entries: &[IvfEntry], scales: &[u32], margin_factors: &[u32]) -> (out: Vec<
    u8,
>)
    requires
        can_serialize(entries@),
        scales.len() == entries.len(),
        margin_factors.len() == entries.len(),
    ensures
        out@ == serialized(entries@, scales@, margin_factors@),
{
    let mut num_bits: u8 = 1;
    let mut dim: u16 = 0;
    let mut code_len: usize = 0;
    if entries.len() > 0 {
        num_bits = entries[0].code.num_bits;
        dim = #[verifier::truncate] (entries[0].code.dim as u16);
        code_len = entries[0].code.packed_code.len();
    }
    let mut buf: Vec<u8> = Vec::new();
    bytes::push_u32(&mut buf, IVF_ENTRY_MAGIC);
    bytes::push_u32(&mut buf, #[verifier::truncate] (entries.len() as u32));
    bytes::push_u16(&mut buf, #[verifier::truncate] (code_len as u16));
    buf.push(num_bits);
    bytes::push_u16(&mut buf, dim);
    buf.push(0);
    buf.push(0);
    buf.push(0);
    assert(buf@ =~= header(entries@));
    push_tids(&mut buf, entries);
    push_codes(&mut buf, entries, num_bits, code_len);
    let mut sums: Vec<u32> = Vec::new();
    let mut i: usize = 0;
    while i < entries.len()
        invariant
            i <= entries.len(),
            sums@ == sums_of(entries@).take(i as int),
        decreases entries.len() - i,
    {
        sums.push(entries[i].code.sum_of_x2);
        assert(sums@ =~= sums_of(entries@).take(i + 1));
        i = i + 1;
    }
    assert(sums@ =~= sums_of(entries@));
    bytes::push_words(&mut buf, sums.as_slice());
    bytes::push_words(&mut buf, scales);
    bytes::push_words(&mut buf, margin_factors);
    buf
}

/// Bytes of the codes region of a stream.
pub open spec fn codes_len(num_entries: int, num_bits: u8, code_len: int) -> int {
    if is_transposed(num_bits) {
        math::groups_of(num_entries, 32) * 32 * code_len
    } else {
        num_entries * code_len
    }
}

/// Bytes of a whole stream.
pub open spec fn stream_len(num_entries: int, num_bits: u8, code_len: int) -> int {
    ENTRY_HEADER_SIZE + num_entries * TID_SIZE + codes_len(num_entries, num_bits, code_len)
        + num_entries * 12
}

/// How many entries the header of a stream announces.
pub open spec fn header_entries(b: Seq<u8>) -> u32 {
    bytes::u32_at(b, 4)
}

/// The code length that the header of a stream announces.
pub open spec fn header_code_len(b: Seq<u8>) -> u16 {
    bytes::u16_at(b, 8)
}

/// Whether `b` starts with a stream: a header with the magic number, and all
/// the bytes that the header announces.
pub open spec fn is_stream(b: Seq<u8>) -> bool {
    &&& b.len() >= ENTRY_HEADER_SIZE
    &&& bytes::u32_at(b, 0) == IVF_ENTRY_MAGIC
    &&& b.len() >= stream_len(header_entries(b) as int, b[10], header_code_len(b) as int)
}

proof fn lemma_stream_bounds(n: int, num_bits: u8, code_len: int)
    requires
        0 <= n <= u32::MAX,
        0 <= code_len <= u16::MAX,
    ensures
        n * code_len <= codes_len(n, num_bits, code_len) <= 0x1_0000_001F * 0xFFFF,
        0 <= n * code_len,
        is_transposed(num_bits) ==> math::groups_of(n, 32) * 32 <= 0x1_0000_001F,
{
    math::lemma_groups_of(n, 32);
    let g = math::groups_of(n, 32);
    assert(n <= g * 32 <= n + 31);
    assert(0 <= n * code_len <= g * 32 * code_len <= 0x1_0000_001F * 0xFFFF && n * code_len
        <= 0x1_0000_001F * 0xFFFF) by (nonlinear_arith)
        requires
            0 <= n <= g * 32 <= 0x1_0000_001F,
            0 <= code_len <= 0xFFFF,
    ;
}

/// A borrowed, zero-copy view over a serialized entry byte stream.
pub struct IvfEntrySlice<'a> {
    pub num_entries: usize,
    pub code_len: usize,
    pub num_bits: u8,
    pub dim: u16,
    pub tids: &'a [u8],
    pub codes: &'a [u8],
    pub sums: &'a [u8],
    pub scales: &'a [u8],
    pub margin_factors: &'a [u8],
}

impl<'a> IvfEntrySlice<'a> {
    /// The regions have the lengths that the header gives them.
    pub open spec fn wf(&self) -> bool {
        &&& self.num_entries <= u32::MAX
        &&& self.code_len <= u16::MAX
        &&& self.tids.len() == self.num_entries * TID_SIZE
        &&& self.codes.len() == codes_len(
            self.num_entries as int,
            self.num_bits,
            self.code_len as int,
        )
        &&& self.sums.len() == self.num_entries * 4
        &&& self.scales.len() == self.num_entries * 4
        &&& self.margin_factors.len() == self.num_entries * 4
    }

    /// Whether this view shows the stream at the start of `b`.
    pub open spec fn shows(&self, b: Seq<u8>) -> bool {
        let n = header_entries(b) as int;
        let tids_end = ENTRY_HEADER_SIZE + n * 6;
        let codes_end = tids_end + codes_len(n, b[10], header_code_len(b) as int);
        &&& self.num_entries == n
        &&& self.code_len == header_code_len(b)
        &&& self.num_bits == b[10]
        &&& self.dim == bytes::u16_at(b, 11)
        &&& self.tids@ == b.subrange(ENTRY_HEADER_SIZE as int, tids_end)
        &&& self.codes@ == b.subrange(tids_end, codes_end)
        &&& self.sums@ == b.subrange(codes_end, codes_end + n * 4)
        &&& self.scales@ == b.subrange(codes_end + n * 4, codes_end + n * 8)
        &&& self.margin_factors@ == b.subrange(codes_end + n * 8, codes_end + n * 12)
    }

    /// Whether `b` can be parsed.
    pub fn can_parse(b: &[u8]) -> (ok: bool)
        ensures
            ok == is_stream(b@),
    {
        if b.len() < ENTRY_HEADER_SIZE {
            return false;
        }
        if bytes::read_u32(b, 0) != IVF_ENTRY_MAGIC {
            return false;
        }
        let n: u64 = bytes::read_u32(b, 4) as u64;
        let code_len: u64 = bytes::read_u16(b, 8) as u64;
        let num_bits: u8 = b[10];
        proof {
            lemma_stream_bounds(n as int, num_bits, code_len as int);
            math::lemma_groups_of(n as int, 32);
        }
        let codes: u64 = if num_bits == 1 || num_bits == 2 {
            let groups: u64 = (n + 31) / 32;
            assert(groups * 32 * code_len == codes_len(n as int, num_bits, code_len as int));
            groups * 32 * code_len
        } else {
            n * code_len
        };
        b.len() as u64 >= 16 + n * 6 + codes + n * 12
    }

    /// Parse a byte stream, returning slices into `b` (zero-copy).
    pub fn parse(b: &'a [u8]) -> (view: IvfEntrySlice<'a>)
        requires
            is_stream(b@),
        ensures
            view.wf(),
            view.shows(b@),
    {
        let num_entries: usize = bytes::read_u32(b, 4) as usize;
        let code_len: usize = bytes::read_u16(b, 8) as usize;
        let num_bits: u8 = b[10];
        let dim: u16 = bytes::read_u16(b, 11);
        let ghost n = num_entries as int;
        proof {
            lemma_stream_bounds(n, num_bits, code_len as int);
            math::lemma_groups_of(n, 32);
        }
        let codes: usize = if num_bits == 1 || num_bits == 2 {
            let groups: usize = math::div_ceil(num_entries, 32);
            assert(groups * 32 * code_len == codes_len(n, num_bits, code_len as int));
            groups * 32 * code_len
        } else {
            num_entries * code_len
        };
        let tids_end: usize = ENTRY_HEADER_SIZE + num_entries * TID_SIZE;
        let codes_end: usize = tids_end + codes;
        let sums_end: usize = codes_end + num_entries * 4;
        let scales_end: usize = sums_end + num_entries * 4;
        let end: usize = scales_end + num_entries * 4;
        IvfEntrySlice {
            num_entries,
            code_len,
            num_bits,
            dim,
            tids: vstd::slice::slice_subrange(b, ENTRY_HEADER_SIZE, tids_end),
            codes: vstd::slice::slice_subrange(b, tids_end, codes_end),
            sums: vstd::slice::slice_subrange(b, codes_end, sums_end),
            scales: vstd::slice::slice_subrange(b, sums_end, scales_end),
            margin_factors: vstd::slice::slice_subrange(b, scales_end, end),
        }
    }

    pub fn len(&self) -> (n: usize)
        ensures
            n == self.num_entries,
    {
        self.num_entries
    }

    pub fn is_empty(&self) -> (r: bool)
        ensures
            r == (self.num_entries == 0),
    {
        self.num_entries == 0
    }

    pub fn num_bits(&self) -> (n: u8)
        ensures
            n == self.num_bits,
    {
        self.num_bits
    }

    pub fn dim(&self) -> (d: u16)
        ensures
            d == self.dim,
    {
        self.dim
    }

    pub fn code_len(&self) -> (n: usize)
        ensures
            n == self.code_len,
    {
        self.code_len
    }

    /// Heap tid of entry `i`.
    pub fn tid(&self, i: usize) -> (tid: ItemPointer)
        requires
            self.wf(),
            i < self.num_entries,
        ensures
            tid.block_number == bytes::u32_at(self.tids@, 6 * i),
            tid.offset == bytes::u16_at(self.tids@, 6 * i + 4),
    {
        ItemPointer::new(
            bytes::read_u32(self.tids, i * TID_SIZE),
            bytes::read_u16(self.tids, i * TID_SIZE + 4),
        )
    }

    /// Packed RaBitQ code of entry `i` (4/8-bit, row-major).
    pub fn code(&self, i: usize) -> (code: &'a [u8])
        requires
            self.wf(),
            i < self.num_entries,
        ensures
            code@ == self.codes@.subrange(i * self.code_len, (i + 1) * self.code_len),
    {
        proof {
            lemma_stream_bounds(self.num_entries as int, self.num_bits, self.code_len as int);
            assert((i + 1) * self.code_len == i * self.code_len + self.code_len && 0 <= i
                * self.code_len && (i + 1) * self.code_len <= self.num_entries * self.code_len)
                by (nonlinear_arith)
                requires
                    0 <= i < self.num_entries,
                    self.code_len >= 0,
            ;
        }
        vstd::slice::slice_subrange(self.codes, i * self.code_len, (i + 1) * self.code_len)
    }

    /// Raw code bytes (transposed for 1-bit, row-major for 4/8-bit).
    pub fn codes(&self) -> (codes: &'a [u8])
        ensures
            codes@ == self.codes@,
    {
        self.codes
    }

    /// Number of 32-row transposed batches.
    pub fn num_batches(&self) -> (n: usize)
        ensures
            n == math::groups_of(self.num_entries as int, 32),
    {
        math::div_ceil(self.num_entries, 32)
    }

    /// Transposed 32-row code batch `batch` (1-bit only).
    pub fn code_batch(&self, batch: usize) -> (b: &'a [u8])
        requires
            self.wf(),
            is_transposed(self.num_bits),
            batch < math::groups_of(self.num_entries as int, 32),
        ensures
            b@ == self.codes@.subrange(
                batch * (32 * self.code_len),
                (batch + 1) * (32 * self.code_len),
            ),
    {
        let ghost g = math::groups_of(self.num_entries as int, 32);
        let b: usize = 32 * self.code_len;
        proof {
            assert(g * 32 * self.code_len == g * b) by (nonlinear_arith)
                requires
                    b == 32 * self.code_len,
            ;
            assert((batch + 1) * b == batch * b + b && 0 <= batch * b && (batch + 1) * b <= g * b)
                by (nonlinear_arith)
                requires
                    0 <= batch < g,
                    b >= 0,
            ;
        }
        vstd::slice::slice_subrange(self.codes, batch * b, (batch + 1) * b)
    }

    /// Transposed sign-plane of 2-bit batch `batch` (32 x code_len/2 bytes).
    /// Plane 0 occupies the first half of the codes region.
    pub fn code_batch_plane0(&self, batch: usize) -> (b: &'a [u8])
        requires
            self.wf(),
            is_transposed(self.num_bits),
            batch < math::groups_of(self.num_entries as int, 32),
        ensures
            b@ == self.codes@.subrange(
                batch * (32 * (self.code_len as int / 2)),
                (batch + 1) * (32 * (self.code_len as int / 2)),
            ),
    {
        let half: usize = self.code_len / 2;
        proof {
            self.lemma_plane_bounds(batch as int);
            assert(batch * 32 * half == batch * (32 * half)) by (nonlinear_arith);
        }
        let start: usize = batch * 32 * half;
        vstd::slice::slice_subrange(self.codes, start, start + 32 * half)
    }

    /// Transposed ex-plane of 2-bit batch `batch` (32 x code_len/2 bytes).
    /// Plane 1 occupies the second half of the codes region.
    pub fn code_batch_plane1(&self, batch: usize) -> (b: &'a [u8])
        requires
            self.wf(),
            is_transposed(self.num_bits),
            batch < math::groups_of(self.num_entries as int, 32),
        ensures
            ({
                let batch_bytes = 32 * (self.code_len as int / 2);
                let plane_bytes = math::groups_of(self.num_entries as int, 32) * batch_bytes;
                b@ == self.codes@.subrange(
                    plane_bytes + batch * batch_bytes,
                    plane_bytes + (batch + 1) * batch_bytes,
                )
            }),
    {
        let half: usize = self.code_len / 2;
        let ghost g = math::groups_of(self.num_entries as int, 32);
        proof {
            self.lemma_plane_bounds(batch as int);
            assert(batch * 32 * half == batch * (32 * half) && g * 32 * half == g * (32 * half))
                by (nonlinear_arith);
        }
        let plane_bytes: usize = self.num_batches() * 32 * half;
        let start: usize = plane_bytes + batch * 32 * half;
        vstd::slice::slice_subrange(self.codes, start, start + 32 * half)
    }

    proof fn lemma_plane_bounds(&self, batch: int)
        requires
            self.wf(),
            is_transposed(self.num_bits),
            0 <= batch < math::groups_of(self.num_entries as int, 32),
        ensures
            ({
                let g = math::groups_of(self.num_entries as int, 32);
                let w = 32 * (self.code_len as int / 2);
                &&& 0 <= batch * w
                &&& (batch + 1) * w == batch * w + w
                &&& batch * w + w <= g * w
                &&& g * w + g * w <= self.codes.len()
                &&& g * 32 <= g * w || self.code_len < 2
                &&& g * 32 <= 0x1_0000_001F
                &&& batch * 32 <= g * 32 <= self.num_entries + 31
            }),
    {
        let g = math::groups_of(self.num_entries as int, 32);
        let h = self.code_len as int / 2;
        let w = 32 * h;
        let cl = self.code_len as int;
        math::lemma_groups_of(self.num_entries as int, 32);
        assert(0 <= batch * w && (batch + 1) * w == batch * w + w && batch * w + w <= g * w && g * w
            + g * w <= g * 32 * cl && (h >= 1 ==> g * 32 <= g * w)) by (nonlinear_arith)
            requires
                0 <= batch < g,
                w == 32 * h,
                0 <= h,
                2 * h <= cl,
        ;
    }

    /// Bits of `sum_of_x2` (residual norm squared) of entry `i`.
    pub fn sum_of_x2(&self, i: usize) -> (v: u32)
        requires
            self.wf(),
            i < self.num_entries,
        ensures
            v == bytes::u32_at(self.sums@, 4 * i),
    {
        bytes::read_u32(self.sums, i * 4)
    }

    /// Bits of the precomputed scale of entry `i`.
    pub fn scale(&self, i: usize) -> (v: u32)
        requires
            self.wf(),
            i < self.num_entries,
        ensures
            v == bytes::u32_at(self.scales@, 4 * i),
    {
        bytes::read_u32(self.scales, i * 4)
    }

    /// Bits of the precomputed margin factor of entry `i`.
    pub fn margin_factor(&self, i: usize) -> (v: u32)
        requires
            self.wf(),
            i < self.num_entries,
        ensures
            v == bytes::u32_at(self.margin_factors@, 4 * i),
    {
        bytes::read_u32(self.margin_factors, i * 4)
    }

    /// Copy the words of `src` from word `base` on into `out`, whatever the
    /// byte offset of the region.
    fn copy_f32_region(src: &[u8], base: usize, out: &mut [u32])
        requires
            base + old(out)@.len() <= src.len() / 4,
        ensures
            final(out)@.len() == old(out)@.len(),
            forall|k: int|
                0 <= k < final(out)@.len() ==> #[trigger] final(out)@[k] == bytes::u32_at(
                    src@,
                    4 * (base + k),
                ),
    {
        let n: usize = out.len();
        let mut k: usize = 0;
        while k < n
            invariant
                k <= n,
                n == out@.len(),
                out@.len() == old(out)@.len(),
                base + n <= src.len() / 4,
                forall|j: int|
                    0 <= j < k ==> #[trigger] out@[j] == bytes::u32_at(src@, 4 * (base + j)),
            decreases n - k,
        {
            out[k] = bytes::read_u32(src, 4 * (base + k));
            k = k + 1;
        }
    }

    /// Copy `out.len()` `sum_of_x2` values starting at entry `base`.
    pub fn copy_sums(&self, base: usize, out: &mut [u32])
        requires
            self.wf(),
            base + old(out)@.len() <= self.num_entries,
        ensures
            final(out)@.len() == old(out)@.len(),
            forall|k: int|
                0 <= k < final(out)@.len() ==> #[trigger] final(out)@[k] == bytes::u32_at(
                    self.sums@,
                    4 * (base + k),
                ),
    {
        Self::copy_f32_region(self.sums, base, out);
    }

    /// Copy `out.len()` precomputed scales starting at entry `base`.
    pub fn copy_scales(&self, base: usize, out: &mut [u32])
        requires
            self.wf(),
            base + old(out)@.len() <= self.num_entries,
        ensures
            final(out)@.len() == old(out)@.len(),
            forall|k: int|
                0 <= k < final(out)@.len() ==> #[trigger] final(out)@[k] == bytes::u32_at(
                    self.scales@,
                    4 * (base + k),
                ),
    {
        Self::copy_f32_region(self.scales, base, out);
    }

    /// Copy `out.len()` precomputed margin factors starting at entry `base`.
    pub fn copy_margin_factors(&self, base: usize, out: &mut [u32])
        requires
            self.wf(),
            base + old(out)@.len() <= self.num_entries,
        ensures
            final(out)@.len() == old(out)@.len(),
            forall|k: int|
                0 <= k < final(out)@.len() ==> #[trigger] final(out)@[k] == bytes::u32_at(
                    self.margin_factors@,
                    4 * (base + k),
                ),
    {
        Self::copy_f32_region(self.margin_factors, base, out);
    }
}

/// Bytes of one code of the given width over `dim_padded` dimensions.
pub open spec fn packed_code_len(num_bits: u8, dim_padded: int) -> int {
    if num_bits == 1 {
        dim_padded / 8
    } else if num_bits == 2 {
        dim_padded / 4
    } else if num_bits == 4 {
        dim_padded / 2
    } else {
        dim_padded
    }
}

/// Exact serialized byte length of a seal of `n` entries, so that exactly the
/// right number of blocks can be reserved before sealing.
pub fn seal_bytes_len(n: usize, num_bits: u8, dim_padded: u32) -> (len: usize)
    requires
        stream_len(n as int, num_bits, packed_code_len(num_bits, dim_padded as int)) <= usize::MAX,
        n <= usize::MAX - 31,
    ensures
        len == stream_len(n as int, num_bits, packed_code_len(num_bits, dim_padded as int)),
{
    let dim: usize = dim_padded as usize;
    let code_len: usize = if num_bits == 1 {
        dim / 8
    } else if num_bits == 2 {
        dim / 4
    } else if num_bits == 4 {
        dim / 2
    } else {
        dim
    };
    proof {
        math::lemma_groups_of(n as int, 32);
        assert(0 <= codes_len(n as int, num_bits, code_len as int)) by {
            let g = math::groups_of(n as int, 32);
            assert(0 <= g * 32 * code_len && 0 <= n * code_len) by (nonlinear_arith)
                requires
                    0 <= g,
                    0 <= n,
                    0 <= code_len,
            ;
        }
    }
    let codes: usize = if num_bits == 1 || num_bits == 2 {
        let groups: usize = math::div_ceil(n, 32);
        groups * 32 * code_len
    } else {
        n * code_len
    };
    ENTRY_HEADER_SIZE + n * TID_SIZE + codes + n * 12
}

/// Number of blocks a seal of `n` entries occupies (exact for a fresh page).
pub fn seal_blocks_needed(n: usize, num_bits: u8, dim_padded: u32) -> (blocks: u32)
    requires
        stream_len(n as int, num_bits, packed_code_len(num_bits, dim_padded as int)) <= usize::MAX,
        n <= usize::MAX - 31,
        math::groups_of(
            stream_len(n as int, num_bits, packed_code_len(num_bits, dim_padded as int)),
            page::aligned_space(page::fresh_page_space()),
        ) <= u32::MAX,
    ensures
        blocks == math::groups_of(
            stream_len(n as int, num_bits, packed_code_len(num_bits, dim_padded as int)),
            page::aligned_space(page::fresh_page_space()),
        ),
{
    let len: usize = seal_bytes_len(n, num_bits, dim_padded);
    let cap: usize = page::tsv_fresh_page_capacity();
    math::div_ceil(len, cap) as u32
}

/// The code of entry `i` of a 2-bit stream: the two planes of its dimensions,
/// interleaved.  A byte past the last pair holds no dimension.
pub open spec fn interleaved(p0: Seq<u8>, p1: Seq<u8>, code_len: int, i: int) -> Seq<u8> {
    let half = code_len / 2;
    Seq::new(
        code_len as nat,
        |j: int|
            if j / 2 >= half {
                0u8
            } else if j % 2 == 0 {
                packed_byte(p0[i * half + j / 2], p1[i * half + j / 2])
            } else {
                packed_byte(p0[i * half + j / 2] >> 4u8, p1[i * half + j / 2] >> 4u8)
            },
    )
}

/// The row-major code of entry `i` of a stream.
pub open spec fn code_at(view: IvfEntrySlice, i: int) -> Seq<u8> {
    let n = view.num_entries as int;
    let len = view.code_len as int;
    if view.num_bits == 1 {
        fastscan::untransposed(view.codes@, n, len).subrange(i * len, (i + 1) * len)
    } else if view.num_bits == 2 {
        let half = len / 2;
        let plane_bytes = math::groups_of(n, 32) * half * 32;
        interleaved(
            fastscan::untransposed(view.codes@.subrange(0, plane_bytes), n, half),
            fastscan::untransposed(view.codes@.subrange(plane_bytes, 2 * plane_bytes), n, half),
            len,
            i,
        )
    } else {
        view.codes@.subrange(i * len, (i + 1) * len)
    }
}

/// Entry `i` of a stream, as it is held in memory.  The rotated norm is not
/// stored and is given back from the outside; the center correction is lost.
pub open spec fn is_entry_of(e: IvfEntry, view: IvfEntrySlice, i: int, l1_of_rotated: u32) -> bool {
    &&& e.heap_tid.block_number == bytes::u32_at(view.tids@, 6 * i)
    &&& e.heap_tid.offset == bytes::u16_at(view.tids@, 6 * i + 4)
    &&& e.code.dim == view.dim
    &&& e.code.sum_of_x2 == bytes::u32_at(view.sums@, 4 * i)
    &&& e.code.l1_of_rotated == l1_of_rotated
    &&& e.code.packed_code@ == code_at(view, i)
    &&& e.code.num_bits == view.num_bits
    &&& e.code.cent_dot == 0
}

/// Interleave the low four bits of a sign byte and an ex byte.
fn interleave(s: u8, e: u8) -> (r: u8)
    ensures
        r == packed_byte(s, e),
{
    bit_of(s, 0) | (bit_of(e, 0) << 1u8) | (bit_of(s, 1) << 2u8) | (bit_of(e, 1) << 3u8) | (bit_of(
        s,
        2,
    ) << 4u8) | (bit_of(e, 2) << 5u8) | (bit_of(s, 3) << 6u8) | (bit_of(e, 3) << 7u8)
}

/// The code of entry `i`, from the two planes of all entries.
fn interleave_planes(p0: &[u8], p1: &[u8], code_len: usize, i: usize) -> (code: Vec<u8>)
    requires
        (i + 1) * (code_len as int / 2) <= p0.len(),
        (i + 1) * (code_len as int / 2) <= p1.len(),
    ensures
        code@ == interleaved(p0@, p1@, code_len as int, i as int),
{
    let half: usize = code_len / 2;
    let ghost want = interleaved(p0@, p1@, code_len as int, i as int);
    assert((i + 1) * half == i * half + half && 0 <= i * half) by (nonlinear_arith)
        requires
            half >= 0,
            i >= 0,
    ;
    let mut code: Vec<u8> = Vec::new();
    let mut j: usize = 0;
    while j < code_len
        invariant
            j <= code_len,
            half == code_len / 2,
            i * half + half <= p0.len(),
            i * half + half <= p1.len(),
            0 <= i * half,
            want == interleaved(p0@, p1@, code_len as int, i as int),
            code@ == want.take(j as int),
        decreases code_len - j,
    {
        let b: u8 = if j / 2 >= half {
            0
        } else {
            let s: u8 = p0[i * half + j / 2];
            let e: u8 = p1[i * half + j / 2];
            if j % 2 == 0 {
                interleave(s, e)
            } else {
                interleave(s >> 4u8, e >> 4u8)
            }
        };
        code.push(b);
        assert(code@ =~= want.take(j + 1));
        j = j + 1;
    }
    assert(want.take(code_len as int) =~= want);
    code
}

/// Read all entries of a stream.  `l1_of_rotated` holds, for each entry, the
/// bits of the rotated norm, which the stream does not store.
pub fn read_entries(b: &[u8], l1_of_rotated: &[u32]) -> (entries: Vec<IvfEntry>)
    requires
        b.len() > 0 ==> is_stream(b@) && l1_of_rotated.len() == header_entries(b@),
    ensures
        b.len() == 0 ==> entries@.len() == 0,
        b.len() > 0 ==> entries@.len() == header_entries(b@) && exists|view: IvfEntrySlice|
            {
                &&& view.wf()
                &&& #[trigger] view.shows(b@)
                &&& forall|i: int|
                    0 <= i < entries@.len() ==> is_entry_of(
                        #[trigger] entries@[i],
                        view,
                        i,
                        l1_of_rotated@[i],
                    )
            },
{
    let mut entries: Vec<IvfEntry> = Vec::new();
    if b.len() == 0 {
        return entries;
    }
    let view: IvfEntrySlice = IvfEntrySlice::parse(b);
    let n: usize = view.num_entries;
    let code_len: usize = view.code_len;
    let half: usize = code_len / 2;
    let mut rows: Vec<u8> = Vec::new();
    let mut p0: Vec<u8> = Vec::new();
    let mut p1: Vec<u8> = Vec::new();
    let ghost g = math::groups_of(n as int, 32);
    let ghost plane_bytes = g * half * 32;
    proof {
        lemma_stream_bounds(n as int, view.num_bits, code_len as int);
        math::lemma_groups_of(n as int, 32);
        assert(g * code_len * 32 == g * 32 * code_len && plane_bytes + plane_bytes <= g * 32
            * code_len && n * half <= n * code_len && 0 <= n * half && 0 <= plane_bytes && g * 32
            * half == plane_bytes && (half >= 1 ==> g * 32 <= plane_bytes)) by (nonlinear_arith)
            requires
                plane_bytes == g * half * 32,
                0 <= half,
                2 * half <= code_len,
                0 <= g,
                0 <= n,
        ;
    }
    if view.num_bits == 1 {
        rows = fastscan::untranspose_1bit(view.codes, n, code_len);
    } else if view.num_bits == 2 {
        let bytes_of_plane: usize = view.num_batches() * 32 * half;
        p0 =
        fastscan::untranspose_1bit(
            vstd::slice::slice_subrange(view.codes, 0, bytes_of_plane),
            n,
            half,
        );
        p1 =
        fastscan::untranspose_1bit(
            vstd::slice::slice_subrange(view.codes, bytes_of_plane, bytes_of_plane * 2),
            n,
            half,
        );
    }
    let mut i: usize = 0;
    while i < n
        invariant
            i <= n,
            view.wf(),
            view.shows(b@),
            n == view.num_entries,
            n == l1_of_rotated.len(),
            code_len == view.code_len,
            half == code_len / 2,
            view.num_bits == 1 ==> rows@ == fastscan::untransposed(
                view.codes@,
                n as int,
                code_len as int,
            ),
            view.num_bits == 2 ==> {
                let plane_bytes = math::groups_of(n as int, 32) * half * 32;
                &&& p0@ == fastscan::untransposed(
                    view.codes@.subrange(0, plane_bytes),
                    n as int,
                    half as int,
                )
                &&& p1@ == fastscan::untransposed(
                    view.codes@.subrange(plane_bytes, 2 * plane_bytes),
                    n as int,
                    half as int,
                )
            },
            entries@.len() == i,
            forall|k: int|
                0 <= k < i ==> is_entry_of(#[trigger] entries@[k], view, k, l1_of_rotated@[k]),
        decreases n - i,
    {
        proof {
            assert((i + 1) * code_len == i * code_len + code_len && 0 <= i * code_len && (i + 1)
                * code_len <= n * code_len && (i + 1) * half <= n * half) by (nonlinear_arith)
                requires
                    0 <= i < n,
                    code_len >= 0,
                    half >= 0,
            ;
            lemma_stream_bounds(n as int, view.num_bits, code_len as int);
        }
        let packed_code: Vec<u8> = if view.num_bits == 1 {
            vstd::slice::slice_to_vec(
                vstd::slice::slice_subrange(rows.as_slice(), i * code_len, (i + 1) * code_len),
            )
        } else if view.num_bits == 2 {
            interleave_planes(p0.as_slice(), p1.as_slice(), code_len, i)
        } else {
            vstd::slice::slice_to_vec(view.code(i))
        };
        let e: IvfEntry = IvfEntry {
            heap_tid: view.tid(i),
            code: RabitqVector {
                dim: view.dim as u32,
                sum_of_x2: view.sum_of_x2(i),
                l1_of_rotated: l1_of_rotated[i],
                packed_code,
                num_bits: view.num_bits,
                cent_dot: 0,
            },
        };
        entries.push(e);
        i = i + 1;
    }
    entries
}

/// Entries that a stream can give back: the header's fields hold their shape,
/// and they all have that shape.
pub open spec fn can_read_back(entries: Seq<IvfEntry>) -> bool {
    let shape = shape_of(entries);
    &&& can_serialize(entries)
    &&& entries.len() <= u32::MAX
    &&& shape.code_len <= u16::MAX
    &&& shape.num_bits == 2 ==> shape.code_len % 2 == 0
    &&& forall|i: int|
        #![trigger entries[i]]
        0 <= i < entries.len() ==> {
            &&& entries[i].code.num_bits == shape.num_bits
            &&& entries[i].code.dim == shape.dim
        }
}

proof fn lemma_codes_region_len(entries: Seq<IvfEntry>)
    requires
        can_serialize(entries),
        shape_of(entries).num_bits == 2 ==> shape_of(entries).code_len % 2 == 0,
    ensures
        codes_region(entries).len() == codes_len(
            entries.len() as int,
            shape_of(entries).num_bits,
            shape_of(entries).code_len as int,
        ),
{
    let n = entries.len() as int;
    let cl = shape_of(entries).code_len as int;
    let g = math::groups_of(n, 32);
    let half = cl / 2;
    math::lemma_groups_of(n, 32);
    assert(0 <= g * cl * 32 && g * cl * 32 == g * 32 * cl && 0 <= g * half * 32 && 0 <= n * cl && (
    cl == 2 * half ==> g * half * 32 + g * half * 32 == g * 32 * cl)) by (nonlinear_arith)
        requires
            0 <= g,
            0 <= cl,
            0 <= half,
            0 <= n,
    ;
}

/// A seal takes exactly the bytes that [`seal_bytes_len`] announces.
pub proof fn law_seal_length_is_exact(
    entries: Seq<IvfEntry>,
    scales: Seq<u32>,
    margin_factors: Seq<u32>,
)
    requires
        can_serialize(entries),
        scales.len() == entries.len(),
        margin_factors.len() == entries.len(),
        shape_of(entries).num_bits == 2 ==> shape_of(entries).code_len % 2 == 0,
    ensures
        serialized(entries, scales, margin_factors).len() == stream_len(
            entries.len() as int,
            shape_of(entries).num_bits,
            shape_of(entries).code_len as int,
        ),
{
    lemma_codes_region_len(entries);
}

/// What is sealed can be parsed, and the view shows each region as it was
/// written.
pub proof fn lemma_regions_of_serialized(
    entries: Seq<IvfEntry>,
    scales: Seq<u32>,
    margin_factors: Seq<u32>,
)
    requires
        can_read_back(entries),
        scales.len() == entries.len(),
        margin_factors.len() == entries.len(),
    ensures
        ({
            let b = serialized(entries, scales, margin_factors);
            let n = entries.len() as int;
            let shape = shape_of(entries);
            let tids_end = ENTRY_HEADER_SIZE + n * 6;
            let codes_end = tids_end + codes_len(n, b[10], shape.code_len as int);
            &&& is_stream(b)
            &&& header_entries(b) == n
            &&& header_code_len(b) == shape.code_len
            &&& b[10] == shape.num_bits
            &&& bytes::u16_at(b, 11) == shape.dim
            &&& b.subrange(ENTRY_HEADER_SIZE as int, tids_end) == tids_region(entries)
            &&& b.subrange(tids_end, codes_end) == codes_region(entries)
            &&& b.subrange(codes_end, codes_end + n * 4) == bytes::word_bytes(sums_of(entries))
            &&& b.subrange(codes_end + n * 4, codes_end + n * 8) == bytes::word_bytes(scales)
            &&& b.subrange(codes_end + n * 8, codes_end + n * 12) == bytes::word_bytes(
                margin_factors,
            )
        }),
{
    let b = serialized(entries, scales, margin_factors);
    let n = entries.len() as int;
    let shape = shape_of(entries);
    let h = header(entries);
    assert(h.len() == 16);
    assert(forall|k: int| 0 <= k < 16 ==> b[k] == h[k]);
    bytes::lemma_u32_round_trip(b, 0, IVF_ENTRY_MAGIC);
    bytes::lemma_u32_round_trip(b, 4, entries.len() as u32);
    bytes::lemma_u16_round_trip(b, 8, shape.code_len as u16);
    bytes::lemma_u16_round_trip(b, 11, shape.dim);
    lemma_codes_region_len(entries);
    let tids_end = ENTRY_HEADER_SIZE + n * 6;
    let codes_end = tids_end + codes_len(n, b[10], shape.code_len as int);
    assert(b.subrange(ENTRY_HEADER_SIZE as int, tids_end) =~= tids_region(entries));
    assert(b.subrange(tids_end, codes_end) =~= codes_region(entries));
    assert(b.subrange(codes_end, codes_end + n * 4) =~= bytes::word_bytes(sums_of(entries)));
    assert(b.subrange(codes_end + n * 4, codes_end + n * 8) =~= bytes::word_bytes(scales));
    assert(b.subrange(codes_end + n * 8, codes_end + n * 12) =~= bytes::word_bytes(margin_factors));
}

proof fn lemma_planes_interleave(b0: u8, b1: u8)
    ensures
        packed_byte(plane_byte(b0, b1, 0), plane_byte(b0, b1, 1)) == b0,
        packed_byte(plane_byte(b0, b1, 0) >> 4u8, plane_byte(b0, b1, 1) >> 4u8) == b1,
{
    assert(packed_byte(plane_byte(b0, b1, 0), plane_byte(b0, b1, 1)) == b0) by (bit_vector);
    assert(packed_byte(plane_byte(b0, b1, 0) >> 4u8, plane_byte(b0, b1, 1) >> 4u8) == b1)
        by (bit_vector);
}

/// The code of entry `i`, read from the codes region that was written.
proof fn lemma_code_reads_back(entries: Seq<IvfEntry>, view: IvfEntrySlice, i: int)
    requires
        can_read_back(entries),
        view.num_entries == entries.len(),
        view.code_len == shape_of(entries).code_len,
        view.num_bits == shape_of(entries).num_bits,
        view.codes@ == codes_region(entries),
        0 <= i < entries.len(),
    ensures
        code_at(view, i) == entries[i].code.packed_code@,
{
    let n = entries.len() as int;
    let cl = view.code_len as int;
    let half = cl / 2;
    let code = entries[i].code.packed_code@;
    let rows = row_major(entries, cl);
    math::lemma_groups_of(n, 32);
    lemma_codes_region_len(entries);
    assert(0 <= i * cl && (i + 1) * cl == i * cl + cl && (i + 1) * cl <= n * cl && 0 <= n * half
        && 0 <= i * half && (i + 1) * half <= n * half && (i + 1) * half == i * half + half)
        by (nonlinear_arith)
        requires
            0 <= i < n,
            0 <= cl,
            0 <= half,
    ;
    assert forall|c: int| 0 <= c < cl implies rows[i * cl + c] == code[c] by {
        math::lemma_place(i, cl, c);
        math::lemma_place_below(i, n, cl, c);
    }
    if view.num_bits == 1 {
        fastscan::law_untranspose_inverts_transpose(rows, n, cl);
        assert(code_at(view, i) =~= code);
    } else if view.num_bits == 2 {
        let q0 = plane(entries, half, 0);
        let q1 = plane(entries, half, 1);
        let pb = math::groups_of(n, 32) * half * 32;
        assert(0 <= pb) by (nonlinear_arith)
            requires
                pb == math::groups_of(n, 32) * half * 32,
                0 <= math::groups_of(n, 32),
                0 <= half,
        ;
        assert(view.codes@.subrange(0, pb) =~= fastscan::transposed(q0, n, half));
        assert(view.codes@.subrange(pb, 2 * pb) =~= fastscan::transposed(q1, n, half));
        fastscan::law_untranspose_inverts_transpose(q0, n, half);
        fastscan::law_untranspose_inverts_transpose(q1, n, half);
        let got = code_at(view, i);
        assert forall|j: int| 0 <= j < cl implies got[j] == code[j] by {
            let k = j / 2;
            math::lemma_place(i, half, k);
            math::lemma_place_below(i, n, half, k);
            lemma_planes_interleave(code[2 * k], code[2 * k + 1]);
            assert(q0[i * half + k] == plane_byte(code[2 * k], code[2 * k + 1], 0));
            assert(q1[i * half + k] == plane_byte(code[2 * k], code[2 * k + 1], 1));
        }
        assert(got =~= code);
    } else {
        assert(code_at(view, i) =~= code);
    }
}

/// Tid `i` of the tids region.
pub proof fn lemma_tid_round_trip(entries: Seq<IvfEntry>, i: int)
    requires
        0 <= i < entries.len(),
    ensures
        bytes::u32_at(tids_region(entries), 6 * i) == entries[i].heap_tid.block_number,
        bytes::u16_at(tids_region(entries), 6 * i + 4) == entries[i].heap_tid.offset,
{
    let tid = entries[i].heap_tid;
    let t = tids_region(entries);
    let w = tid_bytes(tid);
    assert(w.len() == 6);
    assert(t[6 * i] == w[0] && t[6 * i + 1] == w[1] && t[6 * i + 2] == w[2] && t[6 * i + 3] == w[3]
        && t[6 * i + 4] == w[4] && t[6 * i + 5] == w[5]);
    bytes::lemma_u32_round_trip(t, 6 * i, tid.block_number);
    bytes::lemma_u16_round_trip(t, 6 * i + 4, tid.offset);
}

/// What is sealed can be parsed: it is a stream of as many entries, of their
/// shape.
pub proof fn law_sealed_entries_can_be_parsed(
    entries: Seq<IvfEntry>,
    scales: Seq<u32>,
    margin_factors: Seq<u32>,
)
    requires
        can_read_back(entries),
        scales.len() == entries.len(),
        margin_factors.len() == entries.len(),
    ensures
        is_stream(serialized(entries, scales, margin_factors)),
        header_entries(serialized(entries, scales, margin_factors)) == entries.len(),
        header_code_len(serialized(entries, scales, margin_factors)) == shape_of(entries).code_len,
        serialized(entries, scales, margin_factors)[10] == shape_of(entries).num_bits,
        bytes::u16_at(serialized(entries, scales, margin_factors), 11) == shape_of(entries).dim,
{
    lemma_regions_of_serialized(entries, scales, margin_factors);
}

/// The bits of a plane's byte are those of the two code bytes it was cut from.
proof fn lemma_plane_byte_bits(b0: u8, b1: u8, which: u8)
    by (bit_vector)
    requires
        which < 2,
    ensures
        bit(plane_byte(b0, b1, which), 0) == bit(b0, which),
        bit(plane_byte(b0, b1, which), 1) == bit(b0, (2 + which) as u8),
        bit(plane_byte(b0, b1, which), 2) == bit(b0, (4 + which) as u8),
        bit(plane_byte(b0, b1, which), 3) == bit(b0, (6 + which) as u8),
        bit(plane_byte(b0, b1, which), 4) == bit(b1, which),
        bit(plane_byte(b0, b1, which), 5) == bit(b1, (2 + which) as u8),
        bit(plane_byte(b0, b1, which), 6) == bit(b1, (4 + which) as u8),
        bit(plane_byte(b0, b1, which), 7) == bit(b1, (6 + which) as u8),
{
}

/// Plane `which` of 2-bit codes holds bit `which` of every dimension: bit `d` of
/// its row `i` is that bit of dimension `d` of entry `i`.
pub proof fn law_planes_hold_one_bit_of_each_dimension(
    entries: Seq<IvfEntry>,
    plane_len: int,
    which: u8,
    i: int,
    d: int,
)
    requires
        which < 2,
        0 <= i < entries.len(),
        0 <= d < 8 * plane_len,
    ensures
        bit(plane(entries, plane_len, which)[i * plane_len + d / 8], (d % 8) as u8) == bit(
            entries[i].code.packed_code@[d / 4],
            (2 * (d % 4) + which) as u8,
        ),
{
    let k = d / 8;
    math::lemma_place(i, plane_len, k);
    math::lemma_place_below(i, entries.len() as int, plane_len, k);
    let code = entries[i].code.packed_code@;
    lemma_plane_byte_bits(code[2 * k], code[2 * k + 1], which);
}

/// A batch of a plane of sealed 2-bit entries is that part of their transposed
/// plane.
pub proof fn law_plane_batches_are_transposed_planes(
    entries: Seq<IvfEntry>,
    scales: Seq<u32>,
    margin_factors: Seq<u32>,
    view: IvfEntrySlice,
    batch: int,
)
    requires
        can_read_back(entries),
        shape_of(entries).num_bits == 2,
        scales.len() == entries.len(),
        margin_factors.len() == entries.len(),
        view.shows(serialized(entries, scales, margin_factors)),
        0 <= batch < math::groups_of(entries.len() as int, 32),
    ensures
        ({
            let n = entries.len() as int;
            let half = view.code_len as int / 2;
            let batch_bytes = 32 * half;
            let plane_bytes = math::groups_of(n, 32) * batch_bytes;
            let start = batch * batch_bytes;
            let end = (batch + 1) * batch_bytes;
            &&& view.num_entries == n
            &&& view.num_bits == 2
            &&& view.code_len == shape_of(entries).code_len
            &&& 0 <= start <= end <= plane_bytes
            &&& view.codes@.subrange(start, end) == fastscan::transposed(
                plane(entries, half, 0),
                n,
                half,
            ).subrange(start, end)
            &&& view.codes@.subrange(plane_bytes + start, plane_bytes + end)
                == fastscan::transposed(plane(entries, half, 1), n, half).subrange(start, end)
        }),
{
    let n = entries.len() as int;
    lemma_regions_of_serialized(entries, scales, margin_factors);
    let half = view.code_len as int / 2;
    let g = math::groups_of(n, 32);
    let w = 32 * half;
    let p0 = fastscan::transposed(plane(entries, half, 0), n, half);
    let p1 = fastscan::transposed(plane(entries, half, 1), n, half);
    assert(view.codes@ == codes_region(entries));
    assert(view.codes@ == p0 + p1);
    math::lemma_groups_of(n, 32);
    assert(0 <= batch * w && (batch + 1) * w == batch * w + w && (batch + 1) * w <= g * w && g
        * half * 32 == g * w) by (nonlinear_arith)
        requires
            0 <= batch < g,
            w == 32 * half,
            0 <= half,
    ;
    assert(p0.len() == g * w && p1.len() == g * w);
    assert(view.codes@.subrange(batch * w, (batch + 1) * w) =~= p0.subrange(
        batch * w,
        (batch + 1) * w,
    ));
    assert(view.codes@.subrange(g * w + batch * w, g * w + (batch + 1) * w) =~= p1.subrange(
        batch * w,
        (batch + 1) * w,
    ));
}

/// Reading gives back what was sealed: every view of the stream of `entries`
/// shows their tids, codes and factors.
pub proof fn law_sealed_entries_read_back(
    entries: Seq<IvfEntry>,
    scales: Seq<u32>,
    margin_factors: Seq<u32>,
    view: IvfEntrySlice,
    i: int,
)
    requires
        can_read_back(entries),
        scales.len() == entries.len(),
        margin_factors.len() == entries.len(),
        0 <= i < entries.len(),
        view.shows(serialized(entries, scales, margin_factors)),
    ensures
        is_stream(serialized(entries, scales, margin_factors)),
        view.num_entries == entries.len(),
        view.num_bits == entries[i].code.num_bits,
        view.dim == entries[i].code.dim,
        bytes::u32_at(view.tids@, 6 * i) == entries[i].heap_tid.block_number,
        bytes::u16_at(view.tids@, 6 * i + 4) == entries[i].heap_tid.offset,
        code_at(view, i) == entries[i].code.packed_code@,
        bytes::u32_at(view.sums@, 4 * i) == entries[i].code.sum_of_x2,
        bytes::u32_at(view.scales@, 4 * i) == scales[i],
        bytes::u32_at(view.margin_factors@, 4 * i) == margin_factors[i],
{
    lemma_regions_of_serialized(entries, scales, margin_factors);
    lemma_code_reads_back(entries, view, i);
    lemma_tid_round_trip(entries, i);
    bytes::lemma_word_round_trip(sums_of(entries), i);
    bytes::lemma_word_round_trip(scales, i);
    bytes::lemma_word_round_trip(margin_factors, i);
}

} // verus!
