//! The free block list: ranges of blocks that were retired and can be reused.
use vstd::prelude::*;

verus! {

/// A contiguous block range made available for reuse by reclamation.
#[derive(Clone, Copy, Debug, PartialEq, Eq, Structural)]
pub struct IvfFreeRange {
    pub start_block: u32,
    pub num_blocks: u32,
}

impl IvfFreeRange {
    /// The first block past the range.
    pub open spec fn end(self) -> int {
        self.start_block + self.num_blocks
    }

    /// Whether block `b` lies in the range.
    pub open spec fn has(self, b: int) -> bool {
        self.start_block <= b < self.end()
    }
}

/// Ranges of block numbers.
pub open spec fn ranges_ok(ranges: Seq<IvfFreeRange>) -> bool {
    forall|i: int|
        #![trigger ranges[i]]
        0 <= i < ranges.len() ==> ranges[i].end() <= u32::MAX
}

/// The blocks of some range.
pub open spec fn blocks(ranges: Seq<IvfFreeRange>) -> Set<int> {
    Set::new(|b: int| exists|i: int| 0 <= i < ranges.len() && (#[trigger] ranges[i]).has(b))
}

/// No block lies in two ranges.
pub open spec fn disjoint(ranges: Seq<IvfFreeRange>) -> bool {
    forall|i: int, j: int, b: int|
        #![trigger ranges[i].has(b), ranges[j].has(b)]
        0 <= i < ranges.len() && 0 <= j < ranges.len() && ranges[i].has(b) && ranges[j].has(b)
            ==> i == j
}

/// Ranges in the order of their first blocks.
pub open spec fn sorted_by_start(ranges: Seq<IvfFreeRange>) -> bool {
    forall|i: int, j: int|
        #![trigger ranges[i], ranges[j]]
        0 <= i <= j < ranges.len() ==> ranges[i].start_block <= ranges[j].start_block
}

/// The ranges of `s`, taken in order, where a range that starts at the end of
/// the one before extends it.
pub open spec fn merged(s: Seq<IvfFreeRange>) -> Seq<IvfFreeRange>
    decreases s.len(),
{
    if s.len() == 0 {
        Seq::empty()
    } else {
        let m = merged(s.drop_last());
        let r = s.last();
        if m.len() > 0 && m.last().end() == r.start_block {
            m.update(
                m.len() - 1,
                IvfFreeRange {
                    start_block: m.last().start_block,
                    num_blocks: (m.last().num_blocks + r.num_blocks) as u32,
                },
            )
        } else {
            m.push(r)
        }
    }
}

/// Whether `out` is what coalescing `ranges` gives: the ranges, sorted by
/// their first block and merged where they adjoin.
pub open spec fn is_coalesced(ranges: Seq<IvfFreeRange>, out: Seq<IvfFreeRange>) -> bool {
    exists|s: Seq<IvfFreeRange>| #[trigger]
        sorted_by_start(s) && s.to_multiset() == ranges.to_multiset() && out == merged(s)
}

proof fn lemma_merged(s: Seq<IvfFreeRange>)
    requires
        sorted_by_start(s),
        ranges_ok(s),
    ensures
        ranges_ok(merged(s)),
        blocks(merged(s)) == blocks(s),
        sorted_by_start(merged(s)),
        merged(s).len() > 0 ==> s.len() > 0 && merged(s).last().start_block <= s.last().start_block,
        forall|i: int|
            #![trigger merged(s)[i]]
            0 < i < merged(s).len() ==> merged(s)[i - 1].end() != merged(s)[i].start_block,
        disjoint(s) ==> disjoint(merged(s)),
    decreases s.len(),
{
    if s.len() > 0 {
        let t = s.drop_last();
        let r = s.last();
        lemma_merged(t);
        let m = merged(t);
        let out = merged(s);
        assert(blocks(s) =~= blocks(t).union(blocks(seq![r]))) by {
            assert forall|b: int| blocks(s).contains(b) implies blocks(t).contains(b) || blocks(
                seq![r],
            ).contains(b) by {
                let i = choose|i: int| 0 <= i < s.len() && (#[trigger] s[i]).has(b);
                if i < t.len() {
                    assert(t[i].has(b));
                } else {
                    assert(seq![r][0].has(b));
                }
            }
            assert forall|b: int| blocks(t).contains(b) || blocks(seq![r]).contains(
                b,
            ) implies blocks(s).contains(b) by {
                if blocks(t).contains(b) {
                    let i = choose|i: int| 0 <= i < t.len() && (#[trigger] t[i]).has(b);
                    assert(s[i].has(b));
                } else {
                    assert(s[s.len() - 1].has(b));
                }
            }
        }
        if m.len() > 0 && m.last().end() == r.start_block {
            let last = m.last();
            let ext = IvfFreeRange {
                start_block: last.start_block,
                num_blocks: (last.num_blocks + r.num_blocks) as u32,
            };
            let k = m.len() - 1;
            assert(m[k].end() <= u32::MAX);
            assert(s[s.len() - 1].end() <= u32::MAX);
            assert(ext.end() == r.end());
            assert(out =~= m.update(k, ext));
            assert(blocks(out) =~= blocks(m).union(blocks(seq![r]))) by {
                assert forall|b: int| blocks(out).contains(b) implies blocks(m).contains(b)
                    || blocks(seq![r]).contains(b) by {
                    let i = choose|i: int| 0 <= i < out.len() && (#[trigger] out[i]).has(b);
                    if i < k {
                        assert(m[i].has(b));
                    } else if b < r.start_block {
                        assert(m[k].has(b));
                    } else {
                        assert(seq![r][0].has(b));
                    }
                }
                assert forall|b: int| blocks(m).contains(b) || blocks(seq![r]).contains(
                    b,
                ) implies blocks(out).contains(b) by {
                    if blocks(m).contains(b) {
                        let i = choose|i: int| 0 <= i < m.len() && (#[trigger] m[i]).has(b);
                        assert(out[i].has(b));
                    } else {
                        assert(seq![r][0].has(b));
                        assert(out[k].has(b));
                    }
                }
            }
            if disjoint(s) {
                lemma_disjoint_prefix(s);
                assert forall|i: int, j: int, b: int|
                    #![trigger out[i].has(b), out[j].has(b)]
                    0 <= i < out.len() && 0 <= j < out.len() && out[i].has(b) && out[j].has(
                        b,
                    ) implies i == j by {
                    if i != j {
                        let o = if i == k {
                            j
                        } else {
                            i
                        };
                        if i == k || j == k {
                            assert(m[o].has(b));
                            if m[k].has(b) {
                                assert(o == k);
                            } else {
                                lemma_last_is_apart(s, b);
                                assert(blocks(m).contains(b));
                                assert(r.has(b));
                            }
                        } else {
                            assert(m[i].has(b) && m[j].has(b));
                        }
                    }
                }
            }
        } else {
            assert(out =~= m.push(r));
            assert(blocks(out) =~= blocks(m).union(blocks(seq![r]))) by {
                assert forall|b: int| blocks(out).contains(b) implies blocks(m).contains(b)
                    || blocks(seq![r]).contains(b) by {
                    let i = choose|i: int| 0 <= i < out.len() && (#[trigger] out[i]).has(b);
                    if i < m.len() {
                        assert(m[i].has(b));
                    } else {
                        assert(seq![r][0].has(b));
                    }
                }
                assert forall|b: int| blocks(m).contains(b) || blocks(seq![r]).contains(
                    b,
                ) implies blocks(out).contains(b) by {
                    if blocks(m).contains(b) {
                        let i = choose|i: int| 0 <= i < m.len() && (#[trigger] m[i]).has(b);
                        assert(out[i].has(b));
                    } else {
                        assert(out[m.len() as int].has(b));
                    }
                }
            }
            assert(sorted_by_start(out)) by {
                if t.len() > 0 {
                    assert(s[t.len() - 1].start_block <= s[s.len() - 1].start_block);
                }
            }
            if disjoint(s) {
                lemma_disjoint_prefix(s);
                assert forall|i: int, j: int, b: int|
                    #![trigger out[i].has(b), out[j].has(b)]
                    0 <= i < out.len() && 0 <= j < out.len() && out[i].has(b) && out[j].has(
                        b,
                    ) implies i == j by {
                    let k = m.len() as int;
                    if i != j {
                        if i == k {
                            assert(m[j].has(b));
                            lemma_last_is_apart(s, b);
                            assert(blocks(m).contains(b));
                        } else if j == k {
                            assert(m[i].has(b));
                            lemma_last_is_apart(s, b);
                            assert(blocks(m).contains(b));
                        } else {
                            assert(m[i].has(b) && m[j].has(b));
                        }
                    }
                }
            }
        }
    }
}

proof fn lemma_disjoint_prefix(s: Seq<IvfFreeRange>)
    requires
        s.len() > 0,
        disjoint(s),
    ensures
        disjoint(s.drop_last()),
{
    let t = s.drop_last();
    assert forall|i: int, j: int, b: int|
        #![trigger t[i].has(b), t[j].has(b)]
        0 <= i < t.len() && 0 <= j < t.len() && t[i].has(b) && t[j].has(b) implies i == j by {
        assert(s[i].has(b) && s[j].has(b));
    }
}

proof fn lemma_last_is_apart(s: Seq<IvfFreeRange>, b: int)
    requires
        s.len() > 0,
        disjoint(s),
        s.last().has(b),
    ensures
        !blocks(s.drop_last()).contains(b),
{
    let t = s.drop_last();
    if blocks(t).contains(b) {
        let i = choose|i: int| 0 <= i < t.len() && (#[trigger] t[i]).has(b);
        assert(s[i].has(b) && s[s.len() - 1].has(b));
    }
}

/// The blocks of one range.
pub open spec fn blocks_of(r: IvfFreeRange) -> Set<int> {
    Set::new(|b: int| r.has(b))
}

proof fn lemma_remove(s: Seq<IvfFreeRange>, k: int)
    requires
        0 <= k < s.len(),
    ensures
        blocks(s) == blocks(s.remove(k)).union(blocks_of(s[k])),
        disjoint(s) <==> disjoint(s.remove(k)) && blocks(s.remove(k)).disjoint(blocks_of(s[k])),
{
    let t = s.remove(k);
    let x = s[k];
    assert(forall|i: int| 0 <= i < k ==> t[i] == s[i]);
    assert(forall|i: int| k <= i < t.len() ==> t[i] == s[i + 1]);
    assert(blocks(s) =~= blocks(t).union(blocks_of(x))) by {
        assert forall|b: int| blocks(s).contains(b) implies blocks(t).contains(b) || x.has(b) by {
            let i = choose|i: int| 0 <= i < s.len() && (#[trigger] s[i]).has(b);
            if i < k {
                assert(t[i].has(b));
            } else if i > k {
                assert(t[i - 1].has(b));
            }
        }
        assert forall|b: int| blocks(t).contains(b) || x.has(b) implies blocks(s).contains(b) by {
            if blocks(t).contains(b) {
                let i = choose|i: int| 0 <= i < t.len() && (#[trigger] t[i]).has(b);
                if i < k {
                    assert(s[i].has(b));
                } else {
                    assert(s[i + 1].has(b));
                }
            } else {
                assert(s[k].has(b));
            }
        }
    }
    if disjoint(s) {
        assert forall|i: int, j: int, b: int|
            #![trigger t[i].has(b), t[j].has(b)]
            0 <= i < t.len() && 0 <= j < t.len() && t[i].has(b) && t[j].has(b) implies i == j by {
            let i2 = if i < k {
                i
            } else {
                i + 1
            };
            let j2 = if j < k {
                j
            } else {
                j + 1
            };
            assert(s[i2].has(b) && s[j2].has(b));
        }
        assert forall|b: int| blocks(t).contains(b) implies !x.has(b) by {
            let i = choose|i: int| 0 <= i < t.len() && (#[trigger] t[i]).has(b);
            let i2 = if i < k {
                i
            } else {
                i + 1
            };
            assert(s[i2].has(b));
            if x.has(b) {
                assert(s[k].has(b));
            }
        }
        assert(blocks(t).disjoint(blocks_of(x)));
    }
    if disjoint(t) && blocks(t).disjoint(blocks_of(x)) {
        assert forall|i: int, j: int, b: int|
            #![trigger s[i].has(b), s[j].has(b)]
            0 <= i < s.len() && 0 <= j < s.len() && s[i].has(b) && s[j].has(b) implies i == j by {
            if i != j {
                let i2 = if i < k {
                    i
                } else {
                    i - 1
                };
                let j2 = if j < k {
                    j
                } else {
                    j - 1
                };
                if i == k {
                    assert(t[j2].has(b));
                    assert(blocks(t).contains(b));
                    assert(blocks_of(x).contains(b));
                } else if j == k {
                    assert(t[i2].has(b));
                    assert(blocks(t).contains(b));
                    assert(blocks_of(x).contains(b));
                } else {
                    assert(t[i2].has(b) && t[j2].has(b));
                }
            }
        }
    }
}

proof fn lemma_same_multiset(a: Seq<IvfFreeRange>, c: Seq<IvfFreeRange>)
    requires
        a.to_multiset() == c.to_multiset(),
    ensures
        blocks(a) == blocks(c),
        disjoint(a) <==> disjoint(c),
        ranges_ok(a) <==> ranges_ok(c),
    decreases a.len(),
{
    broadcast use vstd::seq_lib::group_to_multiset_ensures;

    assert(a.len() == a.to_multiset().len() && c.len() == c.to_multiset().len());
    if a.len() == 0 {
        assert(a =~= c);
    } else {
        let ka = a.len() - 1;
        let x = a[ka];
        assert(a.contains(x));
        assert(a.to_multiset().count(x) > 0);
        assert(c.contains(x));
        let kc = choose|k: int| 0 <= k < c.len() && c[k] == x;
        assert(a.remove(ka).to_multiset() == a.to_multiset().remove(x));
        assert(c.remove(kc).to_multiset() == c.to_multiset().remove(x));
        lemma_same_multiset(a.remove(ka), c.remove(kc));
        lemma_remove(a, ka);
        lemma_remove(c, kc);
        lemma_ok_remove(a, ka);
        lemma_ok_remove(c, kc);
    }
}

proof fn lemma_ok_remove(s: Seq<IvfFreeRange>, k: int)
    requires
        0 <= k < s.len(),
    ensures
        ranges_ok(s) <==> ranges_ok(s.remove(k)) && s[k].end() <= u32::MAX,
{
    let t = s.remove(k);
    assert(forall|i: int| 0 <= i < k ==> t[i] == s[i]);
    assert(forall|i: int| k <= i < t.len() ==> t[i] == s[i + 1]);
    if ranges_ok(s) {
        assert forall|i: int| #![trigger t[i]] 0 <= i < t.len() implies t[i].end() <= u32::MAX by {
            if i < k {
                assert(s[i].end() <= u32::MAX);
            } else {
                assert(s[i + 1].end() <= u32::MAX);
            }
        }
    }
    if ranges_ok(t) && s[k].end() <= u32::MAX {
        assert forall|i: int| #![trigger s[i]] 0 <= i < s.len() implies s[i].end() <= u32::MAX by {
            if i < k {
                assert(t[i].end() <= u32::MAX);
            } else if i > k {
                assert(t[i - 1].end() <= u32::MAX);
            }
        }
    }
}

/// Coalescing loses no block, makes up none, and keeps ranges apart; what it
/// gives is sorted, and no two neighbours adjoin.
pub proof fn law_coalescing_keeps_blocks(ranges: Seq<IvfFreeRange>, out: Seq<IvfFreeRange>)
    requires
        ranges_ok(ranges),
        is_coalesced(ranges, out),
    ensures
        ranges_ok(out),
        blocks(out) == blocks(ranges),
        disjoint(ranges) ==> disjoint(out),
        sorted_by_start(out),
        forall|i: int|
            #![trigger out[i]]
            0 < i < out.len() ==> out[i - 1].end() != out[i].start_block,
{
    let s = choose|s: Seq<IvfFreeRange>| #[trigger]
        sorted_by_start(s) && s.to_multiset() == ranges.to_multiset() && out == merged(s);
    lemma_same_multiset(s, ranges);
    lemma_merged(s);
}

/// The ranges, sorted by their first block.
fn sort_by_start(ranges: &Vec<IvfFreeRange>) -> (out: Vec<IvfFreeRange>)
    ensures
        sorted_by_start(out@),
        out@.to_multiset() == ranges@.to_multiset(),
{
    let mut out: Vec<IvfFreeRange> = Vec::new();
    let mut i: usize = 0;
    assert(ranges@.take(0) =~= out@);
    while i < ranges.len()
        invariant
            i <= ranges.len(),
            sorted_by_start(out@),
            out@.to_multiset() == ranges@.take(i as int).to_multiset(),
            out@.len() == i,
        decreases ranges.len() - i,
    {
        let r: IvfFreeRange = ranges[i];
        let mut k: usize = out.len();
        while k > 0 && out[k - 1].start_block > r.start_block
            invariant
                k <= out.len(),
                sorted_by_start(out@),
                forall|j: int|
                    #![trigger out@[j]]
                    k <= j < out@.len() ==> out@[j].start_block > r.start_block,
            decreases k,
        {
            k = k - 1;
        }
        proof {
            assert(k > 0 ==> out@[k - 1].start_block <= r.start_block);
            assert(ranges@.take(i + 1) =~= ranges@.take(i as int).push(r));
            let new = out@.insert(k as int, r);
            assert forall|a: int, b: int|
                #![trigger new[a], new[b]]
                0 <= a <= b < new.len() implies new[a].start_block <= new[b].start_block by {
                if a < k {
                    assert(out@[a].start_block <= out@[k - 1].start_block);
                }
                if b > k {
                    assert(out@[b - 1].start_block > r.start_block);
                }
            }
            vstd::seq_lib::to_multiset_insert(out@, k as int, r);
            vstd::seq_lib::to_multiset_build(ranges@.take(i as int), r);
        }
        out.insert(k, r);
        i = i + 1;
    }
    assert(ranges@.take(ranges@.len() as int) =~= ranges@);
    out
}

/// Sort the ranges by their first block, and merge ranges that adjoin, so that
/// the list does not fragment into runs too short to reserve.
pub fn coalesce(ranges: &Vec<IvfFreeRange>) -> (out: Vec<IvfFreeRange>)
    requires
        ranges_ok(ranges@),
    ensures
        is_coalesced(ranges@, out@),
        ranges_ok(out@),
        blocks(out@) == blocks(ranges@),
{
    let sorted: Vec<IvfFreeRange> = sort_by_start(ranges);
    proof {
        lemma_same_multiset(sorted@, ranges@);
    }
    let mut out: Vec<IvfFreeRange> = Vec::new();
    let mut i: usize = 0;
    assert(out@ =~= merged(sorted@.take(0)));
    while i < sorted.len()
        invariant
            i <= sorted.len(),
            sorted_by_start(sorted@),
            ranges_ok(sorted@),
            out@ == merged(sorted@.take(i as int)),
        decreases sorted.len() - i,
    {
        let r: IvfFreeRange = sorted[i];
        proof {
            let t = sorted@.take(i + 1);
            assert(t.drop_last() =~= sorted@.take(i as int));
            assert(t.last() == r);
            assert(sorted_by_start(sorted@.take(i as int)));
            assert(ranges_ok(sorted@.take(i as int)));
            lemma_merged(sorted@.take(i as int));
            assert(sorted@[i as int].end() <= u32::MAX);
        }
        let n: usize = out.len();
        if n > 0 && out[n - 1].start_block + out[n - 1].num_blocks == r.start_block {
            let last: IvfFreeRange = out[n - 1];
            assert(out@[n - 1].end() <= u32::MAX);
            out[n - 1] = IvfFreeRange {
                start_block: last.start_block,
                num_blocks: last.num_blocks + r.num_blocks,
            };
        } else {
            out.push(r);
        }
        i = i + 1;
    }
    proof {
        assert(sorted@.take(sorted@.len() as int) =~= sorted@);
        law_coalescing_keeps_blocks(ranges@, out@);
    }
    out
}

/// The free block list.  Writers push retired ranges; the allocator takes them
/// for reuse.
#[derive(Debug, PartialEq)]
pub struct IvfFreeList {
    pub ranges: Vec<IvfFreeRange>,
}

impl IvfFreeList {
    pub fn new() -> (l: IvfFreeList)
        ensures
            l.ranges@.len() == 0,
    {
        IvfFreeList { ranges: Vec::new() }
    }

    /// Append retired block ranges to the free list.  Returns whether the list
    /// has to be republished.
    pub fn extend(&mut self, ranges: &Vec<IvfFreeRange>) -> (changed: bool)
        requires
            ranges_ok(old(self).ranges@),
            ranges_ok(ranges@),
        ensures
            changed == (ranges@.len() > 0),
            ranges@.len() == 0 ==> final(self).ranges@ == old(self).ranges@,
            ranges@.len() > 0 ==> is_coalesced(old(self).ranges@ + ranges@, final(self).ranges@),
            ranges_ok(final(self).ranges@),
            blocks(final(self).ranges@) == blocks(old(self).ranges@).union(blocks(ranges@)),
    {
        if ranges.len() == 0 {
            assert(blocks(self.ranges@) =~= blocks(self.ranges@).union(blocks(ranges@)));
            return false;
        }
        let mut all: Vec<IvfFreeRange> = Vec::new();
        let mut i: usize = 0;
        while i < self.ranges.len()
            invariant
                i <= self.ranges.len(),
                all@ == self.ranges@.take(i as int),
            decreases self.ranges.len() - i,
        {
            all.push(self.ranges[i]);
            assert(all@ =~= self.ranges@.take(i + 1));
            i = i + 1;
        }
        let mut j: usize = 0;
        assert(all@ =~= self.ranges@ + ranges@.take(0));
        while j < ranges.len()
            invariant
                j <= ranges.len(),
                all@ == self.ranges@ + ranges@.take(j as int),
            decreases ranges.len() - j,
        {
            all.push(ranges[j]);
            assert(all@ =~= self.ranges@ + ranges@.take(j + 1));
            j = j + 1;
        }
        assert(all@ =~= self.ranges@ + ranges@);
        proof {
            lemma_blocks_of_sum(self.ranges@, ranges@);
        }
        self.ranges = coalesce(&all);
        true
    }

    /// Return an unused reserved range to the free list.  Returns whether the
    /// list has to be republished.
    pub fn give_back(&mut self, start_block: u32, num_blocks: u32) -> (changed: bool)
        requires
            ranges_ok(old(self).ranges@),
            start_block + num_blocks <= u32::MAX,
        ensures
            changed == (num_blocks > 0),
            num_blocks == 0 ==> final(self).ranges@ == old(self).ranges@,
            num_blocks > 0 ==> is_coalesced(
                old(self).ranges@.push(IvfFreeRange { start_block, num_blocks }),
                final(self).ranges@,
            ),
            ranges_ok(final(self).ranges@),
            blocks(final(self).ranges@) == blocks(old(self).ranges@).union(
                blocks_of(IvfFreeRange { start_block, num_blocks }),
            ),
    {
        let r: IvfFreeRange = IvfFreeRange { start_block, num_blocks };
        if num_blocks == 0 {
            assert(blocks(self.ranges@) =~= blocks(self.ranges@).union(blocks_of(r)));
            return false;
        }
        let mut all: Vec<IvfFreeRange> = Vec::new();
        let mut i: usize = 0;
        while i < self.ranges.len()
            invariant
                i <= self.ranges.len(),
                all@ == self.ranges@.take(i as int),
            decreases self.ranges.len() - i,
        {
            all.push(self.ranges[i]);
            assert(all@ =~= self.ranges@.take(i + 1));
            i = i + 1;
        }
        assert(all@ =~= self.ranges@);
        all.push(r);
        proof {
            lemma_remove(all@, all@.len() - 1);
            assert(all@.remove(all@.len() - 1) =~= self.ranges@);
        }
        self.ranges = coalesce(&all);
        true
    }

    /// Reserve a free range of `need` blocks for reuse, returning its start
    /// block (the range is split if larger than `need`).  Returns `None` if no
    /// range is large enough.
    pub fn take(&mut self, need: u32) -> (start: Option<u32>)
        requires
            ranges_ok(old(self).ranges@),
        ensures
            start is Some <==> need > 0 && exists|i: int|
                0 <= i < old(self).ranges@.len() && (#[trigger] old(self).ranges@[i]).num_blocks
                    >= need,
            start is None ==> final(self).ranges@ == old(self).ranges@,
            start is Some ==> exists|i: int|
                {
                    let range = #[trigger] old(self).ranges@[i];
                    &&& is_first_fit(old(self).ranges@, need, i)
                    &&& start->0 == range.start_block
                    &&& is_coalesced(
                        without_head(old(self).ranges@, i, need),
                        final(self).ranges@,
                    )
                },
            ranges_ok(final(self).ranges@),
    {
        if need == 0 {
            return None;
        }
        let mut pos: usize = 0;
        while pos < self.ranges.len() && self.ranges[pos].num_blocks < need
            invariant
                pos <= self.ranges.len(),
                forall|j: int|
                    #![trigger self.ranges@[j]]
                    0 <= j < pos ==> self.ranges@[j].num_blocks < need,
            decreases self.ranges.len() - pos,
        {
            pos = pos + 1;
        }
        if pos == self.ranges.len() {
            return None;
        }
        let ghost before = self.ranges@;
        let mut all: Vec<IvfFreeRange> = Vec::new();
        let mut i: usize = 0;
        while i < self.ranges.len()
            invariant
                i <= self.ranges.len(),
                pos < self.ranges.len(),
                all@ == if i <= pos {
                    self.ranges@.take(i as int)
                } else {
                    self.ranges@.take(i as int).remove(pos as int)
                },
            decreases self.ranges.len() - i,
        {
            if i != pos {
                all.push(self.ranges[i]);
            }
            proof {
                let t = self.ranges@.take(i + 1);
                if i < pos {
                    assert(all@ =~= t);
                } else {
                    assert(all@ =~= t.remove(pos as int));
                }
            }
            i = i + 1;
        }
        assert(self.ranges@.take(before.len() as int) =~= before);
        let range: IvfFreeRange = self.ranges[pos];
        assert(before[pos as int].end() <= u32::MAX);
        if range.num_blocks > need {
            all.push(
                IvfFreeRange {
                    start_block: range.start_block + need,
                    num_blocks: range.num_blocks - need,
                },
            );
        }
        assert(all@ =~= without_head(before, pos as int, need));
        proof {
            lemma_ok_remove(before, pos as int);
            assert(ranges_ok(all@));
            assert(is_first_fit(before, need, pos as int));
        }
        self.ranges = coalesce(&all);
        Some(range.start_block)
    }
}

/// Range `i` is the first one of at least `need` blocks.
pub open spec fn is_first_fit(ranges: Seq<IvfFreeRange>, need: u32, i: int) -> bool {
    &&& 0 <= i < ranges.len()
    &&& ranges[i].num_blocks >= need
    &&& forall|j: int| #![trigger ranges[j]] 0 <= j < i ==> ranges[j].num_blocks < need
}

/// The ranges without the first `need` blocks of range `i`; what is left of
/// that range goes to the end.
pub open spec fn without_head(ranges: Seq<IvfFreeRange>, i: int, need: u32) -> Seq<IvfFreeRange> {
    let range = ranges[i];
    if range.num_blocks > need {
        ranges.remove(i).push(
            IvfFreeRange {
                start_block: (range.start_block + need) as u32,
                num_blocks: (range.num_blocks - need) as u32,
            },
        )
    } else {
        ranges.remove(i)
    }
}

proof fn lemma_blocks_of_sum(a: Seq<IvfFreeRange>, c: Seq<IvfFreeRange>)
    ensures
        blocks(a + c) == blocks(a).union(blocks(c)),
        ranges_ok(a) && ranges_ok(c) ==> ranges_ok(a + c),
{
    let s = a + c;
    assert(blocks(s) =~= blocks(a).union(blocks(c))) by {
        assert forall|b: int| blocks(s).contains(b) implies blocks(a).contains(b) || blocks(
            c,
        ).contains(b) by {
            let i = choose|i: int| 0 <= i < s.len() && (#[trigger] s[i]).has(b);
            if i < a.len() {
                assert(a[i].has(b));
            } else {
                assert(c[i - a.len()].has(b));
            }
        }
        assert forall|b: int| blocks(a).contains(b) || blocks(c).contains(b) implies blocks(
            s,
        ).contains(b) by {
            if blocks(a).contains(b) {
                let i = choose|i: int| 0 <= i < a.len() && (#[trigger] a[i]).has(b);
                assert(s[i].has(b));
            } else {
                let i = choose|i: int| 0 <= i < c.len() && (#[trigger] c[i]).has(b);
                assert(s[a.len() + i].has(b));
            }
        }
    }
}

/// Reserving takes the reserved blocks off a list of disjoint ranges, and
/// nothing else: what was free is either reserved now or still free, never
/// both.
pub proof fn law_reserved_blocks_leave_the_list(
    ranges: Seq<IvfFreeRange>,
    need: u32,
    i: int,
    out: Seq<IvfFreeRange>,
)
    requires
        ranges_ok(ranges),
        disjoint(ranges),
        need > 0,
        is_first_fit(ranges, need, i),
        is_coalesced(without_head(ranges, i, need), out),
    ensures
        ({
            let taken = blocks_of(
                IvfFreeRange { start_block: ranges[i].start_block, num_blocks: need },
            );
            &&& taken.subset_of(blocks(ranges))
            &&& blocks(out) == blocks(ranges).difference(taken)
            &&& disjoint(out)
        }),
{
    let range = ranges[i];
    let head = IvfFreeRange { start_block: range.start_block, num_blocks: need };
    let rest = ranges.remove(i);
    let mid = without_head(ranges, i, need);
    assert(range.end() <= u32::MAX);
    lemma_remove(ranges, i);
    lemma_ok_remove(ranges, i);
    if range.num_blocks > need {
        let tail = IvfFreeRange {
            start_block: (range.start_block + need) as u32,
            num_blocks: (range.num_blocks - need) as u32,
        };
        lemma_remove(mid, mid.len() - 1);
        assert(mid.remove(mid.len() - 1) =~= rest);
        assert(blocks_of(range) =~= blocks_of(head).union(blocks_of(tail)));
        assert(ranges_ok(mid));
        assert forall|b: int| blocks(rest).contains(b) implies !tail.has(b) by {
            assert(!blocks_of(range).contains(b));
        }
        assert(blocks(rest).disjoint(blocks_of(tail)));
        law_coalescing_keeps_blocks(mid, out);
        assert(blocks(out) =~= blocks(ranges).difference(blocks_of(head))) by {
            assert forall|b: int| blocks(out).contains(b) implies blocks(ranges).contains(b)
                && !head.has(b) by {
                if blocks(rest).contains(b) {
                    assert(!blocks_of(range).contains(b));
                } else {
                    assert(tail.has(b));
                    assert(blocks_of(range).contains(b));
                }
            }
        }
        assert(blocks_of(head).subset_of(blocks(ranges)));
    } else {
        law_coalescing_keeps_blocks(mid, out);
        assert(blocks_of(range) =~= blocks_of(head));
        assert(blocks(out) =~= blocks(ranges).difference(blocks_of(head)));
    }
}

/// The blocks of a list are those of its ranges: from the first block of a range
/// on, as many as it has.
pub proof fn law_blocks_are_those_of_the_ranges(ranges: Seq<IvfFreeRange>, b: int)
    ensures
        blocks(ranges).contains(b) <==> exists|i: int|
            0 <= i < ranges.len() && (#[trigger] ranges[i]).start_block <= b
                < ranges[i].start_block + ranges[i].num_blocks,
{
    if exists|i: int|
        0 <= i < ranges.len() && (#[trigger] ranges[i]).start_block <= b < ranges[i].start_block
            + ranges[i].num_blocks {
        let i = choose|i: int|
            0 <= i < ranges.len() && (#[trigger] ranges[i]).start_block <= b < ranges[i].start_block
                + ranges[i].num_blocks;
        assert(ranges[i].has(b));
    }
}

/// The first range that is large enough is taken from.
pub proof fn law_first_fit_is_the_first_large_enough(ranges: Seq<IvfFreeRange>, need: u32, i: int)
    ensures
        is_first_fit(ranges, need, i) <==> 0 <= i < ranges.len() && ranges[i].num_blocks >= need
            && forall|j: int|
            #![trigger ranges[j]]
            0 <= j < i ==> ranges[j].num_blocks < need,
{
}

} // verus!
