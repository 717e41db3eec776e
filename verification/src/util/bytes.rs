//! Little-endian integers in byte streams.
use vstd::prelude::*;

verus! {

/// The little-endian bytes of `v`.
pub open spec fn u16_bytes(v: u16) -> Seq<u8> {
    seq![(v as int % 256) as u8, (v as int / 256) as u8]
}

/// The little-endian bytes of `v`.
pub open spec fn u32_bytes(v: u32) -> Seq<u8> {
    seq![
        (v as int % 256) as u8,
        (v as int / 0x100 % 256) as u8,
        (v as int / 0x1_0000 % 256) as u8,
        (v as int / 0x100_0000) as u8,
    ]
}

/// The integer whose little-endian bytes stand in `s` from `at` on.
pub open spec fn u16_at(s: Seq<u8>, at: int) -> u16 {
    (s[at] + 0x100 * s[at + 1]) as u16
}

/// The integer whose little-endian bytes stand in `s` from `at` on.
pub open spec fn u32_at(s: Seq<u8>, at: int) -> u32 {
    (s[at] + 0x100 * s[at + 1] + 0x1_0000 * s[at + 2] + 0x100_0000 * s[at + 3]) as u32
}

/// Byte `p` of the stream of `words`, four bytes each.
pub open spec fn word_byte(words: Seq<u32>, p: int) -> u8 {
    u32_bytes(words[p / 4])[p % 4]
}

/// The stream of `words`, four bytes each.
pub open spec fn word_bytes(words: Seq<u32>) -> Seq<u8> {
    Seq::new(4 * words.len(), |p: int| word_byte(words, p))
}

/// Reading gives back what was written.
pub proof fn lemma_u16_round_trip(s: Seq<u8>, at: int, v: u16)
    requires
        0 <= at,
        at + 2 <= s.len(),
        s[at] == u16_bytes(v)[0],
        s[at + 1] == u16_bytes(v)[1],
    ensures
        u16_at(s, at) == v,
{
}

/// Reading gives back what was written.
pub proof fn lemma_u32_round_trip(s: Seq<u8>, at: int, v: u32)
    requires
        0 <= at,
        at + 4 <= s.len(),
        s[at] == u32_bytes(v)[0],
        s[at + 1] == u32_bytes(v)[1],
        s[at + 2] == u32_bytes(v)[2],
        s[at + 3] == u32_bytes(v)[3],
    ensures
        u32_at(s, at) == v,
{
    let x = v as int;
    assert(x == (x % 256) + 0x100 * (x / 0x100 % 256) + 0x1_0000 * (x / 0x1_0000 % 256) + 0x100_0000
        * (x / 0x100_0000));
}

/// Word `i` of a stream of words.
pub proof fn lemma_word_round_trip(words: Seq<u32>, i: int)
    requires
        0 <= i < words.len(),
    ensures
        u32_at(word_bytes(words), 4 * i) == words[i],
{
    let s = word_bytes(words);
    assert(s[4 * i] == u32_bytes(words[i])[0]);
    assert(s[4 * i + 1] == u32_bytes(words[i])[1]);
    assert(s[4 * i + 2] == u32_bytes(words[i])[2]);
    assert(s[4 * i + 3] == u32_bytes(words[i])[3]);
    lemma_u32_round_trip(s, 4 * i, words[i]);
}

/// Append the little-endian bytes of `v`.
pub fn push_u16(buf: &mut Vec<u8>, v: u16)
    ensures
        final(buf)@ == old(buf)@ + u16_bytes(v),
{
    buf.push((v % 256) as u8);
    buf.push((v / 256) as u8);
    assert(buf@ =~= old(buf)@ + u16_bytes(v));
}

/// Append the little-endian bytes of `v`.
pub fn push_u32(buf: &mut Vec<u8>, v: u32)
    ensures
        final(buf)@ == old(buf)@ + u32_bytes(v),
{
    buf.push((v % 256) as u8);
    buf.push((v / 0x100 % 256) as u8);
    buf.push((v / 0x1_0000 % 256) as u8);
    buf.push((v / 0x100_0000) as u8);
    assert(buf@ =~= old(buf)@ + u32_bytes(v));
}

/// Append `bytes`.
pub fn push_all(buf: &mut Vec<u8>, bytes: &[u8])
    ensures
        final(buf)@ == old(buf)@ + bytes@,
{
    buf.extend_from_slice(bytes);
    assert(buf@ =~= old(buf)@ + bytes@);
}

/// Append `words`, four little-endian bytes each.
pub fn push_words(buf: &mut Vec<u8>, words: &[u32])
    ensures
        final(buf)@ == old(buf)@ + word_bytes(words@),
{
    let mut i: usize = 0;
    assert(buf@ =~= old(buf)@ + word_bytes(words@).take(0));
    while i < words.len()
        invariant
            i <= words.len(),
            buf@ == old(buf)@ + word_bytes(words@).take(4 * i),
        decreases words.len() - i,
    {
        push_u32(buf, words[i]);
        assert(buf@ =~= old(buf)@ + word_bytes(words@).take(4 * (i + 1)));
        i = i + 1;
    }
    assert(word_bytes(words@).take(4 * words@.len() as int) =~= word_bytes(words@));
}

/// The integer whose little-endian bytes stand in `s` from `at` on.
pub fn read_u16(s: &[u8], at: usize) -> (v: u16)
    requires
        at + 2 <= s.len(),
    ensures
        v == u16_at(s@, at as int),
{
    s[at] as u16 + 0x100 * (s[at + 1] as u16)
}

/// The integer whose little-endian bytes stand in `s` from `at` on.
pub fn read_u32(s: &[u8], at: usize) -> (v: u32)
    requires
        at + 4 <= s.len(),
    ensures
        v == u32_at(s@, at as int),
{
    s[at] as u32 + 0x100 * (s[at + 1] as u32) + 0x1_0000 * (s[at + 2] as u32) + 0x100_0000 * (s[at
        + 3] as u32)
}

proof fn lemma_u32_shifts(v: u32)
    by (bit_vector)
    ensures
        v % 256 == v & 0xFF,
        v / 0x100 % 256 == (v >> 8u32) & 0xFF,
        v / 0x1_0000 % 256 == (v >> 16u32) & 0xFF,
        v / 0x100_0000 == (v >> 24u32) & 0xFF,
{
}

proof fn lemma_u16_shifts(v: u16)
    by (bit_vector)
    ensures
        v % 256 == v & 0xFF,
        v / 256 == (v >> 8u16) & 0xFF,
{
}

/// Integers are stored with their low bytes first.
pub proof fn law_low_bytes_come_first(v: u32, w: u16)
    ensures
        u32_bytes(v).len() == 4,
        u32_bytes(v)[0] == v & 0xFF,
        u32_bytes(v)[1] == (v >> 8u32) & 0xFF,
        u32_bytes(v)[2] == (v >> 16u32) & 0xFF,
        u32_bytes(v)[3] == (v >> 24u32) & 0xFF,
        u16_bytes(w).len() == 2,
        u16_bytes(w)[0] == w & 0xFF,
        u16_bytes(w)[1] == (w >> 8u16) & 0xFF,
{
    lemma_u32_shifts(v);
    lemma_u16_shifts(w);
}

/// An integer is read from where it stands, whatever comes before and after.
pub proof fn law_integers_are_read_where_they_stand(a: Seq<u8>, b: Seq<u8>, v: u32, w: u16)
    ensures
        u32_at(a + u32_bytes(v) + b, a.len() as int) == v,
        u16_at(a + u16_bytes(w) + b, a.len() as int) == w,
{
    let n = a.len() as int;
    let s = a + u32_bytes(v) + b;
    assert(s[n] == u32_bytes(v)[0] && s[n + 1] == u32_bytes(v)[1] && s[n + 2] == u32_bytes(v)[2]
        && s[n + 3] == u32_bytes(v)[3]);
    lemma_u32_round_trip(s, n, v);
    let t = a + u16_bytes(w) + b;
    assert(t[n] == u16_bytes(w)[0] && t[n + 1] == u16_bytes(w)[1]);
    lemma_u16_round_trip(t, n, w);
}

/// The stream of words is that of each of them, one after the other.
pub proof fn law_word_streams_are_concatenated(a: Seq<u32>, b: Seq<u32>)
    ensures
        word_bytes(a + b) == word_bytes(a) + word_bytes(b),
        a.len() == 1 ==> word_bytes(a) == u32_bytes(a[0]),
{
    let s = word_bytes(a + b);
    let t = word_bytes(a) + word_bytes(b);
    assert forall|p: int| 0 <= p < s.len() implies s[p] == t[p] by {
        if p < 4 * a.len() {
            assert((a + b)[p / 4] == a[p / 4]);
        } else {
            let q = p - 4 * a.len();
            assert(p / 4 == q / 4 + a.len() && p % 4 == q % 4);
            assert((a + b)[p / 4] == b[q / 4]);
        }
    }
    assert(s =~= t);
    if a.len() == 1 {
        assert(word_bytes(a) =~= u32_bytes(a[0]));
    }
}

} // verus!
