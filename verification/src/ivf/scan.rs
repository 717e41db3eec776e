//! Scans of an IVF index: the bounded set of best candidates, the sums over
//! stored codes that their estimates start from, and the cursor over results.
use crate::ivf::entry;
use crate::ivf::entry::IvfEntrySlice;
use crate::quantization::rabitq_fastscan as fastscan;
use crate::util::bytes;
use crate::util::item_pointer::ItemPointer;
use crate::util::math;
use vstd::prelude::*;

verus! {

/// A (distance, heap tid) candidate pair.  The distance is an order key.
#[derive(Clone, Copy, Debug, PartialEq, Eq, Structural)]
pub struct DistTid {
    pub dist: i32,
    pub tid: ItemPointer,
}

/// Candidates are ordered by distance; ties are broken by tid.
pub open spec fn le(a: DistTid, b: DistTid) -> bool {
    ||| a.dist < b.dist
    ||| a.dist == b.dist && a.tid.block_number < b.tid.block_number
    ||| a.dist == b.dist && a.tid.block_number == b.tid.block_number && a.tid.offset <= b.tid.offset
}

/// Candidates in order.
pub open spec fn sorted(s: Seq<DistTid>) -> bool {
    forall|i: int, j: int| #![trigger s[i], s[j]] 0 <= i <= j < s.len() ==> le(s[i], s[j])
}

/// `s` with `c` at its place in the order.
pub open spec fn insert_sorted(s: Seq<DistTid>, c: DistTid) -> Seq<DistTid>
    decreases s.len(),
{
    if s.len() == 0 || le(s.last(), c) {
        s.push(c)
    } else {
        insert_sorted(s.drop_last(), c).push(s.last())
    }
}

/// The best candidates after `c` was offered: it enters while there is room,
/// else it replaces the worst one where it is strictly nearer.
pub open spec fn offered(s: Seq<DistTid>, k: int, c: DistTid) -> Seq<DistTid> {
    if s.len() < k {
        insert_sorted(s, c)
    } else if s.len() > 0 && c.dist < s.last().dist {
        insert_sorted(s.drop_last(), c)
    } else {
        s
    }
}

/// The best candidates after all of `cands` were offered in turn.
pub open spec fn offered_all(s: Seq<DistTid>, k: int, cands: Seq<DistTid>) -> Seq<DistTid>
    decreases cands.len(),
{
    if cands.len() == 0 {
        s
    } else {
        offered(offered_all(s, k, cands.drop_last()), k, cands.last())
    }
}

proof fn lemma_insert_sorted(s: Seq<DistTid>, c: DistTid)
    requires
        sorted(s),
    ensures
        sorted(insert_sorted(s, c)),
        insert_sorted(s, c).len() == s.len() + 1,
        insert_sorted(s, c).to_multiset() == s.to_multiset().insert(c),
        insert_sorted(s, c).last() == c || (s.len() > 0 && insert_sorted(s, c).last() == s.last()),
    decreases s.len(),
{
    broadcast use vstd::seq_lib::group_to_multiset_ensures;

    if s.len() == 0 || le(s.last(), c) {
    } else {
        let init = s.drop_last();
        lemma_insert_sorted(init, c);
        let t = insert_sorted(init, c);
        assert(s =~= init.push(s.last()));
        assert(t.push(s.last()).to_multiset() =~= s.to_multiset().insert(c));
        assert(le(t.last(), s.last()));
    }
}

/// What is kept of a stream of candidates: as many of them as fit, in order,
/// and none that was turned away is strictly nearer than any that was kept.
pub proof fn law_best_candidates_are_kept(k: int, cands: Seq<DistTid>)
    requires
        k >= 1,
    ensures
        ({
            let s = offered_all(Seq::empty(), k, cands);
            &&& sorted(s)
            &&& s.len() == if cands.len() < k {
                cands.len() as int
            } else {
                k
            }
            &&& forall|c: DistTid|
                #![trigger s.to_multiset().count(c)]
                s.to_multiset().count(c) <= cands.to_multiset().count(c)
            &&& forall|c: DistTid|
                #![trigger cands.to_multiset().count(c)]
                s.to_multiset().count(c) < cands.to_multiset().count(c) ==> s.last().dist <= c.dist
        }),
    decreases cands.len(),
{
    broadcast use vstd::seq_lib::group_to_multiset_ensures;

    if cands.len() > 0 {
        let init = cands.drop_last();
        let c = cands.last();
        law_best_candidates_are_kept(k, init);
        let s = offered_all(Seq::empty(), k, init);
        let t = offered_all(Seq::empty(), k, cands);
        assert(cands =~= init.push(c));
        assert(cands.to_multiset() =~= init.to_multiset().insert(c));
        if s.len() < k {
            lemma_insert_sorted(s, c);
            assert forall|x: DistTid|
                #![trigger cands.to_multiset().count(x)]
                t.to_multiset().count(x) < cands.to_multiset().count(x) implies t.last().dist
                <= x.dist by {
                // Nothing was turned away yet.
                lemma_same_len(s, init);
                assert(s.to_multiset().count(x) == init.to_multiset().count(x));
            }
        } else if c.dist < s.last().dist {
            let r = s.drop_last();
            let w = s.last();
            lemma_insert_sorted(r, c);
            assert(s =~= r.push(w));
            assert(s.to_multiset() =~= r.to_multiset().insert(w));
            if r.len() > 0 {
                assert(le(s[r.len() - 1], s[s.len() - 1]));
            }
            assert(t.last().dist <= w.dist);
            assert forall|x: DistTid|
                #![trigger cands.to_multiset().count(x)]
                t.to_multiset().count(x) < cands.to_multiset().count(x) implies t.last().dist
                <= x.dist by {
                if x != w {
                    assert(s.to_multiset().count(x) < init.to_multiset().count(x));
                }
            }
        } else {
            assert forall|x: DistTid|
                #![trigger cands.to_multiset().count(x)]
                t.to_multiset().count(x) < cands.to_multiset().count(x) implies t.last().dist
                <= x.dist by {
                if x != c {
                    assert(s.to_multiset().count(x) < init.to_multiset().count(x));
                }
            }
        }
    } else {
        assert(cands =~= Seq::empty());
    }
}

/// A part of as many elements is the whole.
proof fn lemma_same_len(s: Seq<DistTid>, all: Seq<DistTid>)
    requires
        s.len() == all.len(),
        forall|c: DistTid|
            #![trigger s.to_multiset().count(c)]
            s.to_multiset().count(c) <= all.to_multiset().count(c),
    ensures
        s.to_multiset() == all.to_multiset(),
{
    broadcast use vstd::seq_lib::group_to_multiset_ensures;

    let a = s.to_multiset();
    let b = all.to_multiset();
    assert(a.subset_of(b));
    vstd::multiset::lemma_multiset_empty_len(b.sub(a));
    assert(b =~= a.add(b.sub(a)));
    assert(b.len() == a.len() + b.sub(a).len());
    assert(b.sub(a).len() == 0);
    assert(b.sub(a) =~= vstd::multiset::Multiset::empty());
}

/// Whether `a` comes no later than `b`.
fn comes_first(a: &DistTid, b: &DistTid) -> (r: bool)
    ensures
        r == le(*a, *b),
{
    a.dist < b.dist || (a.dist == b.dist && (a.tid.block_number < b.tid.block_number || (
    a.tid.block_number == b.tid.block_number && a.tid.offset <= b.tid.offset)))
}

/// The best candidates seen so far, at most `k` of them.
#[derive(Debug)]
pub struct TopK {
    pub k: usize,
    /// In order, nearest first.
    pub items: Vec<DistTid>,
}

impl TopK {
    /// At most `k` candidates, in order.
    pub open spec fn wf(&self) -> bool {
        self.k >= 1 && self.items@.len() <= self.k && sorted(self.items@)
    }

    /// No candidates yet; room for `top_k` of them (at least one).
    pub fn new(top_k: usize) -> (t: TopK)
        ensures
            t.wf(),
            t.items@.len() == 0,
            t.k == if top_k < 1 {
                1
            } else {
                top_k as int
            },
    {
        TopK {
            k: if top_k < 1 {
                1
            } else {
                top_k
            },
            items: Vec::new(),
        }
    }

    /// Offer one candidate.
    pub fn offer(&mut self, c: DistTid)
        requires
            old(self).wf(),
        ensures
            final(self).wf(),
            final(self).k == old(self).k,
            final(self).items@ == offered(old(self).items@, old(self).k as int, c),
    {
        let ghost before = self.items@;
        let n: usize = self.items.len();
        if n >= self.k {
            if c.dist < self.items[n - 1].dist {
                let _ = self.items.pop();
                assert(self.items@ =~= before.drop_last());
            } else {
                return;
            }
        }
        let ghost room = self.items@;
        let mut p: usize = self.items.len();
        proof {
            assert(room.take(p as int) =~= room);
            assert(room.skip(p as int) =~= Seq::empty());
            assert(insert_sorted(room, c) =~= insert_sorted(room.take(p as int), c) + room.skip(
                p as int,
            ));
        }
        while p > 0 && !comes_first(&self.items[p - 1], &c)
            invariant
                p <= room.len(),
                self.items@ == room,
                insert_sorted(room, c) == insert_sorted(room.take(p as int), c) + room.skip(
                    p as int,
                ),
            decreases p,
        {
            proof {
                let t = room.take(p as int);
                assert(t.drop_last() =~= room.take(p - 1));
                assert(room.skip(p - 1) =~= seq![room[p - 1]] + room.skip(p as int));
                assert(insert_sorted(t, c) == insert_sorted(room.take(p - 1), c).push(room[p - 1]));
                assert(insert_sorted(room, c) =~= insert_sorted(room.take(p - 1), c) + room.skip(
                    p - 1,
                ));
            }
            p = p - 1;
        }
        proof {
            lemma_insert_sorted(room, c);
            assert(insert_sorted(room.take(p as int), c) =~= room.take(p as int).push(c));
            assert(room.insert(p as int, c) =~= insert_sorted(room, c));
        }
        self.items.insert(p, c);
    }

    /// Offer every entry of a stream; `dists` holds their distances.
    pub fn offer_view(&mut self, view: &IvfEntrySlice, dists: &[i32])
        requires
            old(self).wf(),
            view.wf(),
            dists.len() == view.num_entries,
        ensures
            final(self).wf(),
            final(self).k == old(self).k,
            final(self).items@ == offered_all(
                old(self).items@,
                old(self).k as int,
                candidates(*view, dists@),
            ),
    {
        let ghost cands = candidates(*view, dists@);
        let mut i: usize = 0;
        assert(cands.take(0) =~= Seq::empty());
        while i < view.num_entries
            invariant
                i <= view.num_entries,
                self.wf(),
                self.k == old(self).k,
                view.wf(),
                dists.len() == view.num_entries,
                cands == candidates(*view, dists@),
                self.items@ == offered_all(old(self).items@, self.k as int, cands.take(i as int)),
            decreases view.num_entries - i,
        {
            let c: DistTid = DistTid { dist: dists[i], tid: view.tid(i) };
            proof {
                assert(c == cands[i as int]);
                assert(cands.take(i + 1).drop_last() =~= cands.take(i as int));
            }
            self.offer(c);
            i = i + 1;
        }
        assert(cands.take(cands.len() as int) =~= cands);
    }
}

/// The candidates of a stream whose entries lie at the given distances.
pub open spec fn candidates(view: IvfEntrySlice, dists: Seq<i32>) -> Seq<DistTid> {
    Seq::new(
        dists.len(),
        |i: int|
            DistTid {
                dist: dists[i],
                tid: ItemPointer {
                    block_number: bytes::u32_at(view.tids@, 6 * i),
                    offset: bytes::u16_at(view.tids@, 6 * i + 4),
                },
            },
    )
}

/// The sums that the rows of a transposed region select from `table`: row `i`
/// gets the sum over its own row-major code.
pub open spec fn are_row_sums(
    sums: Seq<u16>,
    region: Seq<u8>,
    n_rows: int,
    code_len: int,
    table: Seq<u8>,
) -> bool {
    &&& sums.len() == n_rows
    &&& forall|i: int|
        #![trigger sums[i]]
        0 <= i < n_rows ==> sums[i] == fastscan::saturated(
            fastscan::code_sum(
                fastscan::untransposed(region, n_rows, code_len).subrange(
                    i * code_len,
                    (i + 1) * code_len,
                ),
                table,
                code_len,
            ),
        )
}

/// The FastScan sums of all rows of a transposed region, batch by batch.
fn region_sums(region: &[u8], n_rows: usize, code_len: usize, table: &[u8]) -> (sums: Vec<u16>)
    requires
        math::groups_of(n_rows as int, 32) * code_len * 32 <= region.len(),
        code_len * 32 == table.len(),
        n_rows <= u32::MAX,
    ensures
        are_row_sums(sums@, region@, n_rows as int, code_len as int, table@),
{
    let mut sums: Vec<u16> = Vec::new();
    let mut batch: usize = 0;
    let n_batches: usize = math::div_ceil(n_rows, 32);
    let ghost rows = fastscan::untransposed(region@, n_rows as int, code_len as int);
    proof {
        math::lemma_groups_of(n_rows as int, 32);
    }
    while batch < n_batches
        invariant
            batch <= n_batches,
            n_batches == math::groups_of(n_rows as int, 32),
            n_batches * 32 <= n_rows + 31,
            n_batches * 32 >= n_rows,
            n_batches * code_len * 32 <= region.len(),
            code_len * 32 == table.len(),
            rows == fastscan::untransposed(region@, n_rows as int, code_len as int),
            sums@.len() == if batch * 32 < n_rows {
                batch * 32
            } else {
                n_rows as int
            },
            forall|i: int|
                #![trigger sums@[i]]
                0 <= i < sums@.len() ==> sums@[i] == fastscan::saturated(
                    fastscan::code_sum(
                        rows.subrange(i * code_len, (i + 1) * code_len),
                        table@,
                        code_len as int,
                    ),
                ),
        decreases n_batches - batch,
    {
        let width: usize = 32 * code_len;
        proof {
            assert(batch * width == batch * code_len * 32 && (batch + 1) * width == (batch + 1)
                * code_len * 32 && (batch + 1) * width == batch * width + width && 0 <= batch * width && (batch + 1) * width <= n_batches * code_len * 32)
                by (nonlinear_arith)
                requires
                    width == 32 * code_len,
                    0 <= batch < n_batches,
                    0 <= code_len,
            ;
        }
        let codes: &[u8] = vstd::slice::slice_subrange(region, batch * width, (batch + 1) * width);
        let mut out: Vec<u16> = Vec::new();
        let mut z: usize = 0;
        while z < 32
            invariant
                z <= 32,
                out@.len() == z,
            decreases 32 - z,
        {
            out.push(0);
            z = z + 1;
        }
        let _ = fastscan::sum_batch(codes, code_len, table, out.as_mut_slice());
        let base: usize = batch * 32;
        let count: usize = if n_rows - base < 32 {
            n_rows - base
        } else {
            32
        };
        let mut r: usize = 0;
        while r < count
            invariant
                r <= count,
                count <= 32,
                out@.len() == 32,
                base == batch * 32,
                base + count <= n_rows,
                batch < n_batches,
                n_batches == math::groups_of(n_rows as int, 32),
                n_batches * code_len * 32 <= region.len(),
                codes@ == region@.subrange(batch * code_len * 32, (batch + 1) * code_len * 32),
                rows == fastscan::untransposed(region@, n_rows as int, code_len as int),
                forall|k: int|
                    0 <= k < 32 ==> #[trigger] out@[k] == fastscan::saturated(
                        fastscan::batch_row_sum(codes@, table@, k, code_len as int),
                    ),
                sums@.len() == base + r,
                forall|i: int|
                    #![trigger sums@[i]]
                    0 <= i < sums@.len() ==> sums@[i] == fastscan::saturated(
                        fastscan::code_sum(
                            rows.subrange(i * code_len, (i + 1) * code_len),
                            table@,
                            code_len as int,
                        ),
                    ),
            decreases count - r,
        {
            proof {
                lemma_stored_sum(
                    region@,
                    n_rows as int,
                    code_len as int,
                    table@,
                    batch as int,
                    r as int,
                    code_len as int,
                );
            }
            sums.push(out[r]);
            r = r + 1;
        }
        batch = batch + 1;
    }
    sums
}

/// The sum of a batch's row is the sum over the row that the layout holds.
proof fn lemma_stored_sum(
    region: Seq<u8>,
    n_rows: int,
    code_len: int,
    table: Seq<u8>,
    batch: int,
    r: int,
    n: int,
)
    requires
        0 <= r < 32,
        0 <= batch,
        0 <= n <= code_len,
        batch * 32 + r < n_rows,
        math::groups_of(n_rows, 32) * code_len * 32 <= region.len(),
    ensures
        fastscan::batch_row_sum(
            region.subrange(batch * code_len * 32, (batch + 1) * code_len * 32),
            table,
            r,
            n,
        ) == fastscan::code_sum(
            fastscan::untransposed(region, n_rows, code_len).subrange(
                (batch * 32 + r) * code_len,
                (batch * 32 + r + 1) * code_len,
            ),
            table,
            n,
        ),
    decreases n,
{
    if n > 0 {
        lemma_stored_sum(region, n_rows, code_len, table, batch, r, n - 1);
        let row = batch * 32 + r;
        let c = n - 1;
        let lo = batch * code_len * 32;
        let hi = (batch + 1) * code_len * 32;
        let g = math::groups_of(n_rows, 32);
        math::lemma_groups_of(n_rows, 32);
        let j = c * 32 + fastscan::place_of(r % 16);
        assert(row / 32 == batch && row % 32 == r);
        assert(lo + j == (batch * code_len + c) * 32 + fastscan::place_of(r % 16))
            by (nonlinear_arith)
            requires
                lo == batch * code_len * 32,
                j == c * 32 + fastscan::place_of(r % 16),
        ;
        assert(0 <= lo && hi == lo + code_len * 32 && hi <= g * code_len * 32) by (nonlinear_arith)
            requires
                0 <= batch < g,
                0 < code_len,
                lo == batch * code_len * 32,
                hi == (batch + 1) * code_len * 32,
        ;
        math::lemma_place_below(row, n_rows, code_len, c);
        math::lemma_place(row, code_len, c);
        let t = region.subrange(lo, hi);
        assert(t[j] == region[lo + j]);
        assert(t[j + 16] == region[lo + j + 16]);
        let half = r / 16;
        let nib0 = fastscan::nibble(region[lo + j], half);
        let nib1 = fastscan::nibble(region[lo + j + 16], half);
        let rows = fastscan::untransposed(region, n_rows, code_len);
        let b = rows[row * code_len + c];
        assert(b == fastscan::from_nibbles(nib0, nib1));
        assert(fastscan::nibble(b, 0) == nib0 && fastscan::nibble(b, 1) == nib1);
        assert(rows.subrange(row * code_len, (row + 1) * code_len)[c] == b);
    }
}

/// The FastScan sums of all entries of a 1-bit stream.
pub fn one_bit_sums(view: &IvfEntrySlice, table: &[u8]) -> (sums: Vec<u16>)
    requires
        view.wf(),
        view.num_bits == 1,
        table.len() == view.code_len * 32,
    ensures
        are_row_sums(
            sums@,
            view.codes@,
            view.num_entries as int,
            view.code_len as int,
            table@,
        ),
{
    proof {
        let g = math::groups_of(view.num_entries as int, 32);
        assert(g * view.code_len * 32 == g * 32 * view.code_len) by (nonlinear_arith);
    }
    region_sums(view.codes, view.num_entries, view.code_len, table)
}

/// The FastScan sums of all entries of a 2-bit stream: one sum over the sign
/// plane and one over the ex plane of each.
pub fn two_bit_sums(view: &IvfEntrySlice, table: &[u8]) -> (sums: (Vec<u16>, Vec<u16>))
    requires
        view.wf(),
        view.num_bits == 2,
        table.len() == (view.code_len / 2) * 32,
    ensures
        ({
            let n = view.num_entries as int;
            let half = view.code_len as int / 2;
            let plane_bytes = math::groups_of(n, 32) * half * 32;
            &&& are_row_sums(sums.0@, view.codes@.subrange(0, plane_bytes), n, half, table@)
            &&& are_row_sums(
                sums.1@,
                view.codes@.subrange(plane_bytes, 2 * plane_bytes),
                n,
                half,
                table@,
            )
        }),
{
    let half: usize = view.code_len / 2;
    let ghost g = math::groups_of(view.num_entries as int, 32);
    proof {
        math::lemma_groups_of(view.num_entries as int, 32);
        assert(g * half * 32 == g * 32 * half && 2 * (g * half * 32) <= g * 32 * view.code_len && 0
            <= g * half * 32) by (nonlinear_arith)
            requires
                0 <= g,
                0 <= half,
                2 * half <= view.code_len,
        ;
    }
    let plane_bytes: usize = view.num_batches() * 32 * half;
    let signs: &[u8] = vstd::slice::slice_subrange(view.codes, 0, plane_bytes);
    let exs: &[u8] = vstd::slice::slice_subrange(view.codes, plane_bytes, plane_bytes * 2);
    (
        region_sums(signs, view.num_entries, half, table),
        region_sums(exs, view.num_entries, half, table),
    )
}

/// Scan state for IVF index scans.
#[derive(Debug)]
pub struct IvfScanState {
    /// Number of probes (lists to scan).
    pub probes: usize,
    /// Search results, nearest first.
    pub results: Vec<DistTid>,
    /// Current position in results.
    pub result_index: usize,
    /// Whether results have been computed.
    pub results_computed: bool,
}

impl IvfScanState {
    /// The cursor stands in the results or at their end.
    pub open spec fn wf(&self) -> bool {
        self.result_index <= self.results@.len()
    }

    /// What the scan has yet to return.
    pub open spec fn remaining(&self) -> Seq<DistTid> {
        self.results@.skip(self.result_index as int)
    }

    /// Create a new scan state.
    pub fn new() -> (s: IvfScanState)
        ensures
            s.wf(),
            s.probes == 10,
            s.results@.len() == 0,
            s.result_index == 0,
            !s.results_computed,
    {
        IvfScanState { probes: 10, results: Vec::new(), result_index: 0, results_computed: false }
    }

    /// Start over, probing `probes` lists.
    pub fn rescan(&mut self, probes: usize)
        ensures
            final(self).wf(),
            final(self).probes == probes,
            final(self).results@.len() == 0,
            final(self).result_index == 0,
            !final(self).results_computed,
    {
        self.results = Vec::new();
        self.result_index = 0;
        self.results_computed = false;
        self.probes = probes;
    }

    /// Take the best candidates as the results of the scan.
    pub fn set_results(&mut self, best: TopK)
        ensures
            final(self).wf(),
            final(self).probes == old(self).probes,
            final(self).results@ == best.items@,
            final(self).remaining() == best.items@,
            final(self).results_computed,
    {
        self.results = best.items;
        self.result_index = 0;
        self.results_computed = true;
        assert(self.remaining() =~= self.results@);
    }

    /// Return the next result, if any is left.
    pub fn next_result(&mut self) -> (r: Option<DistTid>)
        requires
            old(self).wf(),
        ensures
            final(self).wf(),
            final(self).probes == old(self).probes,
            final(self).results@ == old(self).results@,
            final(self).results_computed == old(self).results_computed,
            old(self).remaining().len() == 0 ==> r is None && final(self).remaining() == old(
                self,
            ).remaining(),
            old(self).remaining().len() > 0 ==> r == Some(old(self).remaining()[0])
                && final(self).remaining() == old(self).remaining().skip(1),
    {
        if self.result_index < self.results.len() {
            let c: DistTid = self.results[self.result_index];
            self.result_index = self.result_index + 1;
            assert(self.remaining() =~= old(self).remaining().skip(1));
            Some(c)
        } else {
            None
        }
    }
}

/// A row that a scan hands to the executor.
#[derive(Clone, Copy, Debug, PartialEq, Eq, Structural)]
pub struct ScanTuple {
    pub heap_tid: ItemPointer,
    /// Whether the executor has to test the row against the condition again.
    pub recheck: bool,
    /// Whether it has to order the row anew, by its exact distance.
    pub recheck_order_by: bool,
    /// The estimate of the distance, as an order key.
    pub distance: i32,
}

/// How a candidate is handed out: its distance is a lower bound of the exact
/// one, by which the executor orders it anew.
pub open spec fn scan_tuple(c: DistTid) -> ScanTuple {
    ScanTuple { heap_tid: c.tid, recheck: false, recheck_order_by: true, distance: c.dist }
}

/// What the next call of a scan hands out.
pub open spec fn next_of(remaining: Seq<DistTid>) -> Option<ScanTuple> {
    if remaining.len() == 0 {
        None
    } else {
        Some(scan_tuple(remaining[0]))
    }
}

/// What is left after it.
pub open spec fn rest_of(remaining: Seq<DistTid>) -> Seq<DistTid> {
    if remaining.len() == 0 {
        remaining
    } else {
        remaining.skip(1)
    }
}

/// What is left after `n` calls.
pub open spec fn left_after(remaining: Seq<DistTid>, n: nat) -> Seq<DistTid>
    decreases n,
{
    if n == 0 {
        remaining
    } else {
        rest_of(left_after(remaining, (n - 1) as nat))
    }
}

proof fn lemma_left_after(remaining: Seq<DistTid>, n: nat)
    ensures
        left_after(remaining, n) == if n < remaining.len() {
            remaining.skip(n as int)
        } else {
            Seq::empty()
        },
    decreases n,
{
    if n == 0 {
        assert(remaining.skip(0) =~= remaining);
        if remaining.len() == 0 {
            assert(remaining =~= Seq::empty());
        }
    } else {
        lemma_left_after(remaining, (n - 1) as nat);
        let before = left_after(remaining, (n - 1) as nat);
        if n < remaining.len() {
            assert(before.skip(1) =~= remaining.skip(n as int));
        } else if before.len() > 0 {
            assert(before.skip(1) =~= Seq::empty());
        } else {
            assert(before =~= Seq::empty());
        }
    }
}

/// A scan hands out the best of the candidates, in order: as many calls succeed
/// as there are candidates, or fit; call `n` hands out the result at place `n`,
/// to be ordered anew by its exact distance; and no later one is nearer.
pub proof fn law_scan_hands_out_the_best(k: int, cands: Seq<DistTid>, n: nat, later: nat)
    requires
        k >= 1,
        n <= later,
    ensures
        ({
            let best = offered_all(Seq::empty(), k, cands);
            let now = next_of(left_after(best, n));
            let after = next_of(left_after(best, later));
            &&& now is Some <==> n < k && n < cands.len()
            &&& now matches Some(t) ==> t == scan_tuple(best[n as int]) && t.recheck_order_by
                && !t.recheck
            &&& now is Some && after is Some ==> now->0.distance <= after->0.distance
        }),
{
    let best = offered_all(Seq::empty(), k, cands);
    law_best_candidates_are_kept(k, cands);
    lemma_left_after(best, n);
    lemma_left_after(best, later);
    if later < best.len() {
        assert(le(best[n as int], best[later as int]));
    }
}

/// Candidates in order have their distances in order, and equal distances by
/// their row addresses.
pub proof fn law_sorted_candidates_are_nearest_first(s: Seq<DistTid>, i: int, j: int)
    requires
        sorted(s),
        0 <= i < j < s.len(),
    ensures
        s[i].dist <= s[j].dist,
        s[i].dist == s[j].dist ==> s[i].tid.block_number <= s[j].tid.block_number,
        s[i].dist == s[j].dist && s[i].tid.block_number == s[j].tid.block_number
            ==> s[i].tid.offset <= s[j].tid.offset,
{
}

/// While there is room every candidate is kept. Once there is none, one that is
/// nearer than the last takes its place, and no other changes anything.
pub proof fn law_only_nearer_candidates_displace(s: Seq<DistTid>, k: int, c: DistTid)
    requires
        k >= 1,
        s.len() <= k,
    ensures
        s.len() < k ==> offered(s, k, c).to_multiset() == s.to_multiset().insert(c),
        s.len() == k && c.dist < s.last().dist ==> offered(s, k, c).to_multiset()
            == s.drop_last().to_multiset().insert(c),
        s.len() == k && c.dist >= s.last().dist ==> offered(s, k, c) == s,
{
    lemma_inserted_multiset(s, c);
    lemma_inserted_multiset(s.drop_last(), c);
}

proof fn lemma_inserted_multiset(s: Seq<DistTid>, c: DistTid)
    ensures
        insert_sorted(s, c).to_multiset() == s.to_multiset().insert(c),
    decreases s.len(),
{
    broadcast use vstd::seq_lib::group_to_multiset_ensures;

    if !(s.len() == 0 || le(s.last(), c)) {
        lemma_inserted_multiset(s.drop_last(), c);
        assert(s.drop_last().push(s.last()) =~= s);
        assert(insert_sorted(s, c).to_multiset() =~= s.to_multiset().insert(c));
    }
}

/// A scan hands out the rows of its candidates one by one, at their distances; all
/// of them are to be ordered again.
pub proof fn law_rows_are_handed_out_in_order(remaining: Seq<DistTid>)
    ensures
        remaining.len() == 0 ==> next_of(remaining) is None && rest_of(remaining) == remaining,
        remaining.len() > 0 ==> {
            &&& next_of(remaining) is Some
            &&& next_of(remaining)->0.heap_tid == remaining[0].tid
            &&& next_of(remaining)->0.distance == remaining[0].dist
            &&& next_of(remaining)->0.recheck_order_by
            &&& !next_of(remaining)->0.recheck
            &&& seq![remaining[0]] + rest_of(remaining) == remaining
        },
{
    if remaining.len() > 0 {
        assert(seq![remaining[0]] + rest_of(remaining) =~= remaining);
    }
}

} // verus!
