//! FastScan layout and lookups for 1-bit RaBitQ codes.
//!
//! The codes are stored transposed: batched by 32 rows, chunk-major, two rows
//! per byte, so that one 16-entry table lookup serves 16 rows at once.
use crate::util::math;
use vstd::prelude::*;

verus! {

/// Rows processed per transposed batch.
pub const BATCH_SIZE: usize = 32;

/// Maps a byte position (0..16) in a transposed chunk to the row index whose
/// code occupies that byte's low nibble (the +16 row is in the high nibble).
pub const PERM0: [usize; 16] = [0, 8, 1, 9, 2, 10, 3, 11, 4, 12, 5, 13, 6, 14, 7, 15];

/// The row (0..16) at byte position `j` (0..16) of a transposed chunk.
pub open spec fn row_at(j: int) -> int {
    (j % 2) * 8 + j / 2
}

/// The byte position (0..16) of row `r` (0..16) in a transposed chunk.
pub open spec fn place_of(r: int) -> int {
    (r % 8) * 2 + r / 8
}

/// The low (`half == 0`) or high (`half == 1`) nibble of a byte.
pub open spec fn nibble(b: u8, half: int) -> int {
    if half == 0 {
        b as int % 16
    } else {
        b as int / 16
    }
}

/// The byte with the two given nibbles.
pub open spec fn from_nibbles(lo: int, hi: int) -> u8 {
    (lo + 16 * hi) as u8
}

/// Byte `c` of row `row`; rows past the last are zero.
pub open spec fn row_byte(codes: Seq<u8>, n_rows: int, code_len: int, row: int, c: int) -> u8 {
    if row < n_rows {
        codes[row * code_len + c]
    } else {
        0
    }
}

/// Byte `t` (0..32) of the transposed chunk `c` of a batch: the low nibbles of
/// the rows' bytes come first (16 bytes), then their high nibbles.
pub open spec fn transposed_byte(
    codes: Seq<u8>,
    n_rows: int,
    code_len: int,
    batch: int,
    c: int,
    t: int,
) -> u8 {
    let row = batch * 32 + row_at(t % 16);
    from_nibbles(
        nibble(row_byte(codes, n_rows, code_len, row, c), t / 16),
        nibble(row_byte(codes, n_rows, code_len, row + 16, c), t / 16),
    )
}

/// The batched/transposed layout of row-major 1-bit codes.
pub open spec fn transposed(codes: Seq<u8>, n_rows: int, code_len: int) -> Seq<u8> {
    Seq::new(
        (math::groups_of(n_rows, 32) * code_len * 32) as nat,
        |p: int|
            transposed_byte(
                codes,
                n_rows,
                code_len,
                (p / 32) / code_len,
                (p / 32) % code_len,
                p % 32,
            ),
    )
}

/// Byte `c` of row `row`, read from the transposed layout.
pub open spec fn untransposed_byte(t: Seq<u8>, code_len: int, row: int, c: int) -> u8 {
    let base = ((row / 32) * code_len + c) * 32 + place_of((row % 32) % 16);
    let half = (row % 32) / 16;
    from_nibbles(nibble(t[base], half), nibble(t[base + 16], half))
}

/// The row-major codes that a transposed layout holds.
pub open spec fn untransposed(t: Seq<u8>, n_rows: int, code_len: int) -> Seq<u8> {
    Seq::new(
        (n_rows * code_len) as nat,
        |p: int| untransposed_byte(t, code_len, p / code_len, p % code_len),
    )
}

proof fn lemma_nibbles(b: u8, c: u8)
    ensures
        (b & 0x0F) as int == nibble(b, 0),
        (b >> 4) as int == nibble(b, 1),
        ((b & 0x0F) | ((c & 0x0F) << 4)) == from_nibbles(nibble(b, 0), nibble(c, 0)),
        ((b >> 4) | ((c >> 4) << 4)) == from_nibbles(nibble(b, 1), nibble(c, 1)),
        0 <= nibble(b, 0) < 16,
        0 <= nibble(b, 1) < 16,
{
    assert(b & 0x0F == b % 16) by (bit_vector);
    assert(b >> 4 == b / 16) by (bit_vector);
    assert(((b & 0x0F) | ((c & 0x0F) << 4)) == (b % 16) + 16 * (c % 16)) by (bit_vector);
    assert(((b >> 4) | ((c >> 4) << 4)) == (b / 16) + 16 * (c / 16)) by (bit_vector);
}

proof fn lemma_from_nibbles(lo: int, hi: int)
    requires
        0 <= lo < 16,
        0 <= hi < 16,
    ensures
        nibble(from_nibbles(lo, hi), 0) == lo,
        nibble(from_nibbles(lo, hi), 1) == hi,
{
}

proof fn lemma_same_nibbles(b: u8)
    ensures
        from_nibbles(nibble(b, 0), nibble(b, 1)) == b,
{
}

/// Transpose row-major 1-bit codes (`n_rows x code_len` bytes) into the
/// batched/transposed layout, zero-padding the final partial batch.
pub fn transpose_1bit(codes: &[u8], n_rows: usize, code_len: usize) -> (out: Vec<u8>)
    requires
        n_rows * code_len <= codes.len(),
        math::groups_of(n_rows as int, 32) * code_len * 32 <= usize::MAX,
    ensures
        out@ == transposed(codes@, n_rows as int, code_len as int),
{
    let n_batches: usize = math::div_ceil(n_rows, BATCH_SIZE);
    let mut out: Vec<u8> = Vec::new();
    let ghost want = transposed(codes@, n_rows as int, code_len as int);
    assert(out@ =~= want.take(0));
    let mut batch: usize = 0;
    while batch < n_batches
        invariant
            batch <= n_batches,
            n_batches == math::groups_of(n_rows as int, 32),
            n_batches <= n_rows,
            n_rows * code_len <= codes.len(),
            math::groups_of(n_rows as int, 32) * code_len * 32 <= usize::MAX,
            want == transposed(codes@, n_rows as int, code_len as int),
            out@ == want.take(batch * code_len * 32),
        decreases n_batches - batch,
    {
        let mut c: usize = 0;
        while c < code_len
            invariant
                batch < n_batches,
                c <= code_len,
                n_batches == math::groups_of(n_rows as int, 32),
                n_rows * code_len <= codes.len(),
                math::groups_of(n_rows as int, 32) * code_len * 32 <= usize::MAX,
                want == transposed(codes@, n_rows as int, code_len as int),
                out@ == want.take((batch * code_len + c) * 32),
            decreases code_len - c,
        {
            let mut t: usize = 0;
            while t < 32
                invariant
                    batch < n_batches,
                    c < code_len,
                    t <= 32,
                    n_batches == math::groups_of(n_rows as int, 32),
                    n_rows * code_len <= codes.len(),
                    math::groups_of(n_rows as int, 32) * code_len * 32 <= usize::MAX,
                    want == transposed(codes@, n_rows as int, code_len as int),
                    out@ == want.take((batch * code_len + c) * 32 + t),
                decreases 32 - t,
            {
                proof {
                    math::lemma_groups_of(n_rows as int, 32);
                    math::lemma_place_below(batch as int, n_batches as int, code_len as int, c as int);
                    math::lemma_place_below(
                        batch * code_len + c,
                        n_batches * code_len,
                        32,
                        t as int,
                    );
                    math::lemma_place(batch as int, code_len as int, c as int);
                    math::lemma_place(batch * code_len + c, 32, t as int);
                }
                let j: usize = t % 16;
                let lo_row: usize = batch * 32 + PERM0[j];
                let lo_byte: u8 = code_byte(codes, n_rows, code_len, lo_row, c);
                proof {
                    assert(n_batches * 32 <= n_batches * code_len * 32) by (nonlinear_arith)
                        requires
                            code_len >= 1,
                            n_batches >= 0,
                    ;
                }
                let hi_byte: u8 = code_byte(codes, n_rows, code_len, lo_row + 16, c);
                let b: u8 = if t < 16 {
                    (lo_byte & 0x0F) | ((hi_byte & 0x0F) << 4)
                } else {
                    (lo_byte >> 4) | ((hi_byte >> 4) << 4)
                };
                proof {
                    lemma_nibbles(lo_byte, hi_byte);
                    let p = (batch * code_len + c) * 32 + t;
                    assert(want[p] == b);
                    assert(want.take(p + 1) =~= want.take(p).push(b));
                }
                out.push(b);
                t = t + 1;
            }
            proof {
                assert((batch * code_len + c) * 32 + 32 == (batch * code_len + (c + 1)) * 32);
            }
            c = c + 1;
        }
        proof {
            math::lemma_place_below(batch as int, n_batches as int, 1, 0);
            assert((batch + 1) * code_len * 32 == (batch * code_len + code_len) * 32)
                by (nonlinear_arith);
            assert(batch * code_len * 32 == (batch * code_len + 0) * 32);
        }
        batch = batch + 1;
    }
    proof {
        assert(want.take(n_batches * code_len * 32) =~= want);
    }
    out
}

/// Byte `c` of row `row`, zero past the last row.
fn code_byte(codes: &[u8], n_rows: usize, code_len: usize, row: usize, c: usize) -> (b: u8)
    requires
        n_rows * code_len <= codes.len(),
        c < code_len,
    ensures
        b == row_byte(codes@, n_rows as int, code_len as int, row as int, c as int),
{
    if row < n_rows {
        proof {
            math::lemma_place_below(row as int, n_rows as int, code_len as int, c as int);
        }
        codes[row * code_len + c]
    } else {
        0
    }
}

/// Inverse of [`transpose_1bit`]: recover row-major codes from the transposed
/// layout.
pub fn untranspose_1bit(transposed: &[u8], n_rows: usize, code_len: usize) -> (out: Vec<u8>)
    requires
        math::groups_of(n_rows as int, 32) * code_len * 32 <= transposed.len(),
        n_rows * code_len <= usize::MAX,
    ensures
        out@ == untransposed(transposed@, n_rows as int, code_len as int),
{
    let mut out: Vec<u8> = Vec::new();
    let ghost want = untransposed(transposed@, n_rows as int, code_len as int);
    let ghost n_batches = math::groups_of(n_rows as int, 32);
    let mut row: usize = 0;
    while row < n_rows
        invariant
            row <= n_rows,
            n_batches == math::groups_of(n_rows as int, 32),
            n_batches * code_len * 32 <= transposed.len(),
            n_rows * code_len <= usize::MAX,
            want == untransposed(transposed@, n_rows as int, code_len as int),
            out@ == want.take(row * code_len),
        decreases n_rows - row,
    {
        let mut c: usize = 0;
        while c < code_len
            invariant
                row < n_rows,
                c <= code_len,
                n_batches == math::groups_of(n_rows as int, 32),
                n_batches * code_len * 32 <= transposed.len(),
                n_rows * code_len <= usize::MAX,
                want == untransposed(transposed@, n_rows as int, code_len as int),
                out@ == want.take(row * code_len + c),
            decreases code_len - c,
        {
            let batch: usize = row / 32;
            let r: usize = row % 32;
            let j: usize = (r % 8) * 2 + (r % 16) / 8;
            proof {
                math::lemma_groups_of(n_rows as int, 32);
                math::lemma_place_below(batch as int, n_batches, code_len as int, c as int);
                math::lemma_place_below(batch * code_len + c, n_batches * code_len, 32, j + 16);
                math::lemma_place_below(row as int, n_rows as int, code_len as int, c as int);
                math::lemma_place(row as int, code_len as int, c as int);
                assert(place_of((r as int % 32) % 16) == j);
            }
            let base: usize = (batch * code_len + c) * 32;
            let current: u8 = transposed[base + j];
            let next: u8 = transposed[base + 16 + j];
            let b: u8 = if r < 16 {
                (current & 0x0F) | ((next & 0x0F) << 4)
            } else {
                (current >> 4) | ((next >> 4) << 4)
            };
            proof {
                lemma_nibbles(current, next);
                let p = row * code_len + c;
                assert(want[p] == b);
                assert(want.take(p + 1) =~= want.take(p).push(b));
            }
            out.push(b);
            c = c + 1;
        }
        proof {
            math::lemma_place_below(row as int, n_rows as int, code_len as int + 1, 0);
            assert((row + 1) * code_len == row * code_len + code_len) by (nonlinear_arith);
        }
        row = row + 1;
    }
    proof {
        assert(want.take(n_rows * code_len) =~= want);
    }
    out
}

/// The row that the low (`half == 0`) or high (`half == 1`) nibble of byte `p` of
/// a transposed layout belongs to.
pub open spec fn row_of_nibble(code_len: int, p: int, half: int) -> int {
    (p / 32) / code_len * 32 + row_at((p % 32) % 16) + 16 * half
}

/// Whether two layouts agree on the nibbles of the first `n_rows` rows.
pub open spec fn agree_on_rows(t: Seq<u8>, u: Seq<u8>, n_rows: int, code_len: int) -> bool {
    forall|p: int, half: int|
        #![trigger nibble(t[p], half)]
        #![trigger nibble(u[p], half)]
        0 <= p < t.len() && 0 <= half < 2 && row_of_nibble(code_len, p, half) < n_rows ==> nibble(
            t[p],
            half,
        ) == nibble(u[p], half)
}

/// Whether the nibbles past the first `n_rows` rows are zero.
pub open spec fn is_zero_padded(t: Seq<u8>, n_rows: int, code_len: int) -> bool {
    forall|p: int, half: int|
        #![trigger nibble(t[p], half)]
        0 <= p < t.len() && 0 <= half < 2 && row_of_nibble(code_len, p, half) >= n_rows ==> nibble(
            t[p],
            half,
        ) == 0
}

/// Where a row's byte stands in a transposed layout.
proof fn lemma_row_place(n_rows: int, code_len: int, row: int, c: int)
    requires
        0 <= row < n_rows,
        0 <= c < code_len,
    ensures
        ({
            let base = ((row / 32) * code_len + c) * 32 + place_of((row % 32) % 16);
            let half = (row % 32) / 16;
            &&& 0 <= base
            &&& base + 16 < math::groups_of(n_rows, 32) * code_len * 32
            &&& 0 <= half < 2
            &&& row_of_nibble(code_len, base, half) == row
            &&& row_of_nibble(code_len, base + 16, half) == row
        }),
{
    let n_batches = math::groups_of(n_rows, 32);
    let batch = row / 32;
    let j = place_of((row % 32) % 16);
    math::lemma_groups_of(n_rows, 32);
    math::lemma_place_below(batch, n_batches, code_len, c);
    math::lemma_place_below(batch * code_len + c, n_batches * code_len, 32, j + 16);
    math::lemma_place(batch, code_len, c);
    math::lemma_place(batch * code_len + c, 32, j);
    math::lemma_place(batch * code_len + c, 32, j + 16);
}

/// Untransposing looks at the rows alone: layouts that agree on them give the
/// same codes, whatever the padding holds.
pub proof fn law_untranspose_ignores_padding(
    t: Seq<u8>,
    u: Seq<u8>,
    n_rows: int,
    code_len: int,
)
    requires
        0 <= n_rows,
        0 <= code_len,
        t.len() == math::groups_of(n_rows, 32) * code_len * 32,
        u.len() == t.len(),
        agree_on_rows(t, u, n_rows, code_len),
    ensures
        untransposed(t, n_rows, code_len) == untransposed(u, n_rows, code_len),
        untransposed(t, n_rows, code_len).len() == n_rows * code_len,
{
    let a = untransposed(t, n_rows, code_len);
    let b = untransposed(u, n_rows, code_len);
    assert(0 <= n_rows * code_len) by (nonlinear_arith)
        requires
            0 <= n_rows,
            0 <= code_len,
    ;
    assert forall|p: int| 0 <= p < n_rows * code_len implies a[p] == b[p] by {
        let row = p / code_len;
        let c = p % code_len;
        lemma_row_and_column(p, n_rows, code_len);
        lemma_row_place(n_rows, code_len, row, c);
        let base = ((row / 32) * code_len + c) * 32 + place_of((row % 32) % 16);
        let half = (row % 32) / 16;
        assert(nibble(t[base], half) == nibble(u[base], half));
        assert(nibble(t[base + 16], half) == nibble(u[base + 16], half));
    }
    assert(a =~= b);
}

/// The row and the column of a place in row-major codes.
proof fn lemma_row_and_column(p: int, n_rows: int, code_len: int)
    requires
        0 <= p < n_rows * code_len,
        0 <= code_len,
    ensures
        0 < code_len,
        0 <= p / code_len < n_rows,
        0 <= p % code_len < code_len,
        p == p / code_len * code_len + p % code_len,
{
    assert(code_len > 0) by (nonlinear_arith)
        requires
            0 <= p < n_rows * code_len,
            0 <= code_len,
    ;
    vstd::arithmetic::div_mod::lemma_fundamental_div_mod(p, code_len);
    vstd::arithmetic::div_mod::lemma_mod_bound(p, code_len);
    let q = p / code_len;
    let r = p % code_len;
    assert(0 <= q < n_rows && p == q * code_len + r) by (nonlinear_arith)
        requires
            p == code_len * q + r,
            0 <= r < code_len,
            0 <= p < n_rows * code_len,
    ;
}

/// Transposing undoes untransposing, where the padding is zero.
pub proof fn law_transpose_inverts_untranspose(t: Seq<u8>, n_rows: int, code_len: int)
    requires
        0 <= n_rows,
        0 <= code_len,
        t.len() == math::groups_of(n_rows, 32) * code_len * 32,
        is_zero_padded(t, n_rows, code_len),
    ensures
        transposed(untransposed(t, n_rows, code_len), n_rows, code_len) == t,
{
    let rows = untransposed(t, n_rows, code_len);
    let back = transposed(rows, n_rows, code_len);
    let n_batches = math::groups_of(n_rows, 32);
    assert forall|p: int| 0 <= p < t.len() implies back[p] == t[p] by {
        let w = p / 32;
        let tt = p % 32;
        assert(n_batches * code_len * 32 == (n_batches * code_len) * 32);
        lemma_row_and_column(w, n_batches, code_len);
        let batch = w / code_len;
        let c = w % code_len;
        let row = batch * 32 + row_at(tt % 16);
        lemma_padded_row(t, n_rows, code_len, p, 0);
        lemma_padded_row(t, n_rows, code_len, p, 1);
        assert(nibble(row_byte(rows, n_rows, code_len, row, c), tt / 16) == nibble(t[p], 0));
        assert(nibble(row_byte(rows, n_rows, code_len, row + 16, c), tt / 16) == nibble(t[p], 1));
        lemma_same_nibbles(t[p]);
    }
    assert(back =~= t);
}

/// A nibble of a zero-padded layout is that of the row that it belongs to.
proof fn lemma_padded_row(t: Seq<u8>, n_rows: int, code_len: int, p: int, half: int)
    requires
        0 <= n_rows,
        0 < code_len,
        t.len() == math::groups_of(n_rows, 32) * code_len * 32,
        is_zero_padded(t, n_rows, code_len),
        0 <= p < t.len(),
        0 <= half < 2,
    ensures
        nibble(
            row_byte(
                untransposed(t, n_rows, code_len),
                n_rows,
                code_len,
                (p / 32) / code_len * 32 + row_at((p % 32) % 16) + 16 * half,
                (p / 32) % code_len,
            ),
            (p % 32) / 16,
        ) == nibble(t[p], half),
{
    let n_batches = math::groups_of(n_rows, 32);
    let w = p / 32;
    let tt = p % 32;
    assert(n_batches * code_len * 32 == (n_batches * code_len) * 32);
    lemma_row_and_column(w, n_batches, code_len);
    let batch = w / code_len;
    let c = w % code_len;
    let row = row_of_nibble(code_len, p, half);
    if row < n_rows {
        lemma_row_place(n_rows, code_len, row, c);
        math::lemma_place_below(row, n_rows, code_len, c);
        math::lemma_place(row, code_len, c);
        assert(row / 32 == batch && row % 32 == row_at(tt % 16) + 16 * half);
        assert(place_of((row % 32) % 16) == tt % 16);
        let base = (batch * code_len + c) * 32 + tt % 16;
        let b = untransposed(t, n_rows, code_len)[row * code_len + c];
        assert(b == from_nibbles(nibble(t[base], half), nibble(t[base + 16], half)));
        lemma_from_nibbles(nibble(t[base], half), nibble(t[base + 16], half));
        if tt < 16 {
            assert(base == p);
        } else {
            assert(base + 16 == p);
        }
    }
}

/// Untransposing undoes transposing.
pub proof fn law_untranspose_inverts_transpose(codes: Seq<u8>, n_rows: int, code_len: int)
    requires
        n_rows >= 0,
        code_len >= 0,
        codes.len() == n_rows * code_len,
    ensures
        untransposed(transposed(codes, n_rows, code_len), n_rows, code_len) == codes,
{
    let t = transposed(codes, n_rows, code_len);
    let back = untransposed(t, n_rows, code_len);
    let n_batches = math::groups_of(n_rows, 32);
    math::lemma_groups_of(n_rows, 32);
    assert forall|p: int| 0 <= p < codes.len() implies back[p] == codes[p] by {
        if code_len == 0 {
            assert(n_rows * code_len == 0) by (nonlinear_arith)
                requires
                    code_len == 0,
            ;
        } else {
            let row = p / code_len;
            let c = p % code_len;
            vstd::arithmetic::div_mod::lemma_fundamental_div_mod(p, code_len);
            assert(row * code_len + c == p) by (nonlinear_arith)
                requires
                    p == code_len * row + c,
            ;
            vstd::arithmetic::div_mod::lemma_mod_bound(p, code_len);
            assert(0 <= row < n_rows) by (nonlinear_arith)
                requires
                    0 <= p < n_rows * code_len,
                    p == code_len * row + c,
                    0 <= c < code_len,
            ;
            lemma_transposed_row(codes, n_rows, code_len, row, c);
            lemma_same_nibbles(codes[p]);
        }
    }
    assert(back =~= codes);
}

/// Where the transposed layout keeps the two nibbles of byte `c` of a row.
proof fn lemma_transposed_row(codes: Seq<u8>, n_rows: int, code_len: int, row: int, c: int)
    requires
        0 <= row < n_rows,
        0 <= c < code_len,
        codes.len() >= n_rows * code_len,
    ensures
        ({
            let t = transposed(codes, n_rows, code_len);
            let base = ((row / 32) * code_len + c) * 32 + place_of((row % 32) % 16);
            let half = (row % 32) / 16;
            &&& 0 <= base
            &&& base + 16 < t.len()
            &&& nibble(t[base], half) == nibble(codes[row * code_len + c], 0)
            &&& nibble(t[base + 16], half) == nibble(codes[row * code_len + c], 1)
        }),
{
    let t = transposed(codes, n_rows, code_len);
    let n_batches = math::groups_of(n_rows, 32);
    math::lemma_groups_of(n_rows, 32);
    let batch = row / 32;
    let r = row % 32;
    let j = place_of(r % 16);
    let half = r / 16;
    assert(0 <= j < 16 && row_at(j) == r % 16);
    math::lemma_place_below(batch, n_batches, code_len, c);
    math::lemma_place(batch, code_len, c);
    let blk = batch * code_len + c;
    math::lemma_place_below(blk, n_batches * code_len, 32, j);
    math::lemma_place_below(blk, n_batches * code_len, 32, j + 16);
    math::lemma_place(blk, 32, j);
    math::lemma_place(blk, 32, j + 16);
    let lo_row = batch * 32 + row_at(j);
    let lo = row_byte(codes, n_rows, code_len, lo_row, c);
    let hi = row_byte(codes, n_rows, code_len, lo_row + 16, c);
    lemma_nibbles(lo, hi);
    lemma_nibbles(hi, lo);
    assert(t[blk * 32 + j] == from_nibbles(nibble(lo, 0), nibble(hi, 0)));
    assert(t[blk * 32 + (j + 16)] == from_nibbles(nibble(lo, 1), nibble(hi, 1)));
    lemma_from_nibbles(nibble(lo, 0), nibble(hi, 0));
    lemma_from_nibbles(nibble(lo, 1), nibble(hi, 1));
}

/// What chunk `c` of the table adds for a code byte with the given nibbles.
pub open spec fn chunk_value(table: Seq<u8>, c: int, lo: int, hi: int) -> int {
    table[c * 32 + lo] as int + table[c * 32 + 16 + hi] as int
}

/// The sum of the table entries that row `r` (0..32) of one transposed batch
/// selects in its first `n` chunks.
pub open spec fn batch_row_sum(codes: Seq<u8>, table: Seq<u8>, r: int, n: int) -> int
    decreases n,
{
    if n <= 0 {
        0
    } else {
        let j = (n - 1) * 32 + place_of(r % 16);
        batch_row_sum(codes, table, r, n - 1) + chunk_value(
            table,
            n - 1,
            nibble(codes[j], r / 16),
            nibble(codes[j + 16], r / 16),
        )
    }
}

/// The sum of the table entries that a row-major code selects in its first
/// `n` bytes.
pub open spec fn code_sum(code: Seq<u8>, table: Seq<u8>, n: int) -> int
    decreases n,
{
    if n <= 0 {
        0
    } else {
        code_sum(code, table, n - 1) + chunk_value(
            table,
            n - 1,
            nibble(code[n - 1], 0),
            nibble(code[n - 1], 1),
        )
    }
}

/// `v`, limited to what a `u16` can hold.
pub open spec fn saturated(v: int) -> int {
    if v <= u16::MAX {
        v
    } else {
        u16::MAX as int
    }
}

/// Sum the quantized table for one 32-row transposed batch, without SIMD.
///
/// `codes` is `code_len x 32` transposed bytes, `table` is the flat
/// `code_len x 32` quantized table, the first 32 places of `out` receive the
/// sums.
pub fn sum_batch_scalar(codes: &[u8], code_len: usize, table: &[u8], out: &mut [u16])
    requires
        code_len * 32 <= codes.len(),
        code_len * 32 <= table.len(),
        old(out).len() >= 32,
    ensures
        final(out)@.len() == old(out)@.len(),
        forall|r: int|
            0 <= r < 32 ==> #[trigger] final(out)@[r] == saturated(
                batch_row_sum(codes@, table@, r, code_len as int),
            ),
        forall|r: int| 32 <= r < old(out)@.len() ==> #[trigger] final(out)@[r] == old(out)@[r],
{
    let mut r: usize = 0;
    while r < 32
        invariant
            r <= 32,
            code_len * 32 <= codes.len(),
            code_len * 32 <= table.len(),
            out@.len() == old(out)@.len(),
            out@.len() >= 32,
            forall|k: int|
                0 <= k < r ==> #[trigger] out@[k] == saturated(
                    batch_row_sum(codes@, table@, k, code_len as int),
                ),
            forall|k: int| 32 <= k < old(out)@.len() ==> #[trigger] out@[k] == old(out)@[k],
        decreases 32 - r,
    {
        let place: usize = (r % 8) * 2 + (r % 16) / 8;
        assert(place == place_of(r as int % 16));
        let mut sum: u16 = 0;
        let mut c: usize = 0;
        while c < code_len
            invariant
                r < 32,
                c <= code_len,
                place == place_of(r as int % 16),
                code_len * 32 <= codes.len(),
                code_len * 32 <= table.len(),
                sum == saturated(batch_row_sum(codes@, table@, r as int, c as int)),
            decreases code_len - c,
        {
            let cur: u8 = codes[c * 32 + place];
            let next: u8 = codes[c * 32 + place + 16];
            proof {
                lemma_nibbles(cur, next);
                lemma_nibbles(next, cur);
            }
            let lo: u8 = if r < 16 {
                cur & 0x0F
            } else {
                cur >> 4
            };
            let hi: u8 = if r < 16 {
                next & 0x0F
            } else {
                next >> 4
            };
            let add: u16 = table[c * 32 + lo as usize] as u16 + table[c * 32 + 16
                + hi as usize] as u16;
            assert(batch_row_sum(codes@, table@, r as int, c + 1) == batch_row_sum(
                codes@,
                table@,
                r as int,
                c as int,
            ) + add);
            sum = sum.saturating_add(add);
            c = c + 1;
        }
        out[r] = sum;
        r = r + 1;
    }
}

/// Sum the quantized table for one 32-row transposed batch.
///
/// `codes` is `code_len x 32` transposed bytes, `table` is the flat
/// `code_len x 32` quantized table, the first 32 places of `out` receive the
/// sums.  Returns 32.
pub fn sum_batch(codes: &[u8], code_len: usize, table: &[u8], out: &mut [u16]) -> (n: usize)
    requires
        code_len * 32 == codes.len(),
        code_len * 32 == table.len(),
        old(out).len() >= 32,
    ensures
        n == 32,
        final(out)@.len() == old(out)@.len(),
        forall|r: int|
            0 <= r < 32 ==> #[trigger] final(out)@[r] == saturated(
                batch_row_sum(codes@, table@, r, code_len as int),
            ),
        forall|r: int| 32 <= r < old(out)@.len() ==> #[trigger] final(out)@[r] == old(out)@[r],
{
    sum_batch_scalar(codes, code_len, table, out);
    BATCH_SIZE
}

/// The sum that a batch gives for one of its rows is the sum over that row's
/// own code: transposing changes where a code is kept, not what it selects.
pub proof fn law_transposed_sum_is_row_sum(
    codes: Seq<u8>,
    n_rows: int,
    code_len: int,
    table: Seq<u8>,
    batch: int,
    r: int,
)
    requires
        0 <= r < 32,
        0 <= batch,
        0 <= code_len,
        batch * 32 + r < n_rows,
        codes.len() == n_rows * code_len,
    ensures
        ({
            let row = batch * 32 + r;
            let t = transposed(codes, n_rows, code_len).subrange(
                batch * code_len * 32,
                (batch + 1) * code_len * 32,
            );
            batch_row_sum(t, table, r, code_len) == code_sum(
                codes.subrange(row * code_len, (row + 1) * code_len),
                table,
                code_len,
            )
        }),
{
    let row = batch * 32 + r;
    let t = transposed(codes, n_rows, code_len);
    let n_batches = math::groups_of(n_rows, 32);
    math::lemma_groups_of(n_rows, 32);
    math::lemma_place_below(batch, n_batches, code_len + 1, 0);
    assert((batch + 1) * code_len * 32 <= n_batches * code_len * 32 && 0 <= batch * code_len * 32
        <= (batch + 1) * code_len * 32) by (nonlinear_arith)
        requires
            0 <= batch < n_batches,
            0 <= code_len,
    ;
    assert(0 <= row * code_len <= (row + 1) * code_len <= n_rows * code_len) by (nonlinear_arith)
        requires
            0 <= row < n_rows,
            0 <= code_len,
    ;
    lemma_batch_prefix_sum(codes, n_rows, code_len, table, batch, r, code_len);
}

proof fn lemma_batch_prefix_sum(
    codes: Seq<u8>,
    n_rows: int,
    code_len: int,
    table: Seq<u8>,
    batch: int,
    r: int,
    n: int,
)
    requires
        0 <= r < 32,
        0 <= batch,
        0 <= n <= code_len,
        batch * 32 + r < n_rows,
        codes.len() == n_rows * code_len,
    ensures
        ({
            let row = batch * 32 + r;
            let t = transposed(codes, n_rows, code_len).subrange(
                batch * code_len * 32,
                (batch + 1) * code_len * 32,
            );
            batch_row_sum(t, table, r, n) == code_sum(
                codes.subrange(row * code_len, (row + 1) * code_len),
                table,
                n,
            )
        }),
    decreases n,
{
    if n > 0 {
        lemma_batch_prefix_sum(codes, n_rows, code_len, table, batch, r, n - 1);
        let row = batch * 32 + r;
        let c = n - 1;
        let full = transposed(codes, n_rows, code_len);
        let lo = batch * code_len * 32;
        let hi = (batch + 1) * code_len * 32;
        let n_batches = math::groups_of(n_rows, 32);
        math::lemma_groups_of(n_rows, 32);
        lemma_transposed_row(codes, n_rows, code_len, row, c);
        assert(row / 32 == batch && row % 32 == r);
        let j = c * 32 + place_of(r % 16);
        assert(lo + j == (batch * code_len + c) * 32 + place_of(r % 16)) by (nonlinear_arith)
            requires
                lo == batch * code_len * 32,
                j == c * 32 + place_of(r % 16),
        ;
        assert(0 <= lo && hi == lo + code_len * 32 && hi <= n_batches * code_len * 32)
            by (nonlinear_arith)
            requires
                0 <= batch < n_batches,
                0 < code_len,
                lo == batch * code_len * 32,
                hi == (batch + 1) * code_len * 32,
        ;
        math::lemma_place_below(row, n_rows, code_len, c);
        let t = full.subrange(lo, hi);
        assert(t[j] == full[lo + j]);
        assert(t[j + 16] == full[lo + j + 16]);
        assert(codes.subrange(row * code_len, (row + 1) * code_len)[c] == codes[row * code_len
            + c]);
    }
}

} // verus!
