//! Vacuum of an IVF index: the survivors of a list are sealed into one merged
//! segment, and what they were read from is retired.
use crate::ivf::entry::IvfEntry;
use crate::ivf::segment::{IvfListHeader, IvfSegment};
use crate::util::item_pointer;
use crate::util::item_pointer::ItemPointer;
use vstd::prelude::*;

verus! {

/// A block range that no published header refers to any more.
#[derive(Clone, Copy, Debug, PartialEq, Eq, Structural)]
pub struct IvfRetiredRange {
    pub start_block: u32,
    pub num_blocks: u32,
    pub retired_generation: u64,
}

/// Whether a segment has blocks to read.
pub open spec fn has_blocks(s: IvfSegment) -> bool {
    s.start_page != item_pointer::INVALID_BLOCK_NUMBER && s.num_blocks > 0
}

/// The segments that have blocks to read.
pub open spec fn readable(segments: Seq<IvfSegment>) -> Seq<IvfSegment>
    decreases segments.len(),
{
    if segments.len() == 0 {
        Seq::empty()
    } else if has_blocks(segments.last()) {
        readable(segments.drop_last()).push(segments.last())
    } else {
        readable(segments.drop_last())
    }
}

/// The segments that have blocks to read, in order.
pub fn readable_segments(segments: &Vec<IvfSegment>) -> (out: Vec<IvfSegment>)
    ensures
        out@ == readable(segments@),
        out@ == segments@.filter(
            |s: IvfSegment| s.start_page != 0xFFFF_FFFF && s.num_blocks > 0,
        ),
{
    proof {
        law_readable_segments_are_those_with_blocks(segments@);
    }
    let mut out: Vec<IvfSegment> = Vec::new();
    let mut i: usize = 0;
    assert(segments@.take(0) =~= Seq::empty());
    while i < segments.len()
        invariant
            i <= segments.len(),
            out@ == readable(segments@.take(i as int)),
        decreases segments.len() - i,
    {
        let s: IvfSegment = segments[i];
        assert(segments@.take(i + 1).drop_last() =~= segments@.take(i as int));
        if s.start_page != item_pointer::INVALID_BLOCK_NUMBER && s.num_blocks > 0 {
            out.push(s);
        }
        i = i + 1;
    }
    assert(segments@.take(segments@.len() as int) =~= segments@);
    out
}

/// The entries that are not dead, in order.
pub open spec fn live(entries: Seq<IvfEntry>, dead: Seq<bool>) -> Seq<IvfEntry>
    decreases entries.len(),
{
    if entries.len() == 0 {
        Seq::empty()
    } else if dead[entries.len() - 1] {
        live(entries.drop_last(), dead)
    } else {
        live(entries.drop_last(), dead).push(entries.last())
    }
}

/// How many of the first `n` are dead.
pub open spec fn dead_among(dead: Seq<bool>, n: int) -> int
    decreases n,
{
    if n <= 0 {
        0
    } else {
        dead_among(dead, n - 1) + if dead[n - 1] {
            1int
        } else {
            0
        }
    }
}

/// Drop the dead entries.  Returns the survivors and how many were dead.
pub fn live_entries(entries: Vec<IvfEntry>, dead: &[bool]) -> (r: (Vec<IvfEntry>, u64))
    requires
        dead.len() == entries.len(),
        entries.len() <= u64::MAX,
    ensures
        r.0@ == live(entries@, dead@),
        r.1 == dead_among(dead@, entries@.len() as int),
{
    let ghost all = entries@;
    let mut out: Vec<IvfEntry> = Vec::new();
    let mut died: u64 = 0;
    let mut i: usize = 0;
    proof {
        assert(all.take(0) =~= Seq::empty());
    }
    for e in it: entries
        invariant
            i == it.index(),
            it.seq() == all,
            all.len() <= u64::MAX,
            dead.len() == all.len(),
            out@ == live(all.take(i as int), dead@),
            died == dead_among(dead@, i as int),
            died <= i,
    {
        assert(all.take(i + 1).drop_last() =~= all.take(i as int));
        assert(all.take(i + 1).last() == e);
        if dead[i] {
            died = died + 1;
        } else {
            out.push(e);
        }
        i = i + 1;
    }
    assert(all.take(all.len() as int) =~= all);
    (out, died)
}

/// Of the entries of the segments that are read, vacuum drops the dead ones and
/// no others: every survivor is kept, and everything that is kept survived.
pub proof fn law_vacuum_keeps_the_live_entries(entries: Seq<IvfEntry>, dead: Seq<bool>)
    requires
        dead.len() >= entries.len(),
    ensures
        forall|i: int|
            #![trigger entries[i]]
            0 <= i < entries.len() && !dead[i] ==> live(entries, dead).contains(entries[i]),
        forall|k: int|
            #![trigger live(entries, dead)[k]]
            0 <= k < live(entries, dead).len() ==> exists|i: int|
                0 <= i < entries.len() && !dead[i] && #[trigger] entries[i] == live(
                    entries,
                    dead,
                )[k],
        live(entries, dead).len() + dead_among(dead, entries.len() as int) == entries.len(),
    decreases entries.len(),
{
    if entries.len() > 0 {
        let init = entries.drop_last();
        let n = entries.len() - 1;
        law_vacuum_keeps_the_live_entries(init, dead);
        let a = live(init, dead);
        let b = live(entries, dead);
        assert forall|i: int| #![trigger entries[i]] 0 <= i < entries.len() && !dead[i] implies
            b.contains(entries[i]) by {
            if i < n {
                assert(init[i] == entries[i]);
                let k = choose|k: int| 0 <= k < a.len() && a[k] == entries[i];
                assert(b[k] == entries[i]);
            } else {
                assert(b[a.len() as int] == entries[i]);
            }
        }
        assert forall|k: int| #![trigger b[k]] 0 <= k < b.len() implies exists|i: int|
            0 <= i < entries.len() && !dead[i] && #[trigger] entries[i] == b[k] by {
            if k < a.len() {
                assert(a[k] == b[k]);
                let i = choose|i: int|
                    0 <= i < init.len() && !dead[i] && #[trigger] init[i] == a[k];
                assert(entries[i] == b[k]);
            } else {
                assert(entries[n] == b[k]);
            }
        }
    }
}

/// How many entries the segments hold.
pub open spec fn entries_in(segments: Seq<IvfSegment>) -> int
    decreases segments.len(),
{
    if segments.len() == 0 {
        0
    } else {
        entries_in(segments.drop_last()) + segments.last().num_entries
    }
}

proof fn lemma_entries_in_prefix(segments: Seq<IvfSegment>, n: int)
    requires
        0 <= n <= segments.len(),
    ensures
        0 <= entries_in(segments.take(n)) <= entries_in(segments),
    decreases segments.len() - n,
{
    if n < segments.len() {
        lemma_entries_in_prefix(segments, n + 1);
        assert(segments.take(n + 1).drop_last() =~= segments.take(n));
    } else {
        assert(segments.take(n) =~= segments);
    }
    lemma_entries_in_is_natural(segments.take(n));
}

proof fn lemma_entries_in_is_natural(segments: Seq<IvfSegment>)
    ensures
        entries_in(segments) >= 0,
    decreases segments.len(),
{
    if segments.len() > 0 {
        lemma_entries_in_is_natural(segments.drop_last());
    }
}

/// How many entries the segments hold.
pub fn total_entries(segments: &Vec<IvfSegment>) -> (n: u64)
    requires
        entries_in(segments@) <= u64::MAX,
    ensures
        n == entries_in(segments@),
{
    let mut n: u64 = 0;
    let mut i: usize = 0;
    assert(segments@.take(0) =~= Seq::empty());
    while i < segments.len()
        invariant
            i <= segments.len(),
            entries_in(segments@) <= u64::MAX,
            n == entries_in(segments@.take(i as int)),
        decreases segments.len() - i,
    {
        proof {
            lemma_entries_in_prefix(segments@, i + 1);
            assert(segments@.take(i + 1).drop_last() =~= segments@.take(i as int));
        }
        n = n + segments[i].num_entries;
        i = i + 1;
    }
    assert(segments@.take(segments@.len() as int) =~= segments@);
    n
}

/// Whether a list is rewritten: something died, or there is something to merge
/// (a single segment is already as compact as it gets).
pub fn must_rewrite(died: u64, num_segments: usize) -> (r: bool)
    ensures
        r == (died > 0 || num_segments > 1),
{
    died > 0 || num_segments > 1
}

/// What a vacuum does about a list.
pub enum ListVacuum {
    /// The list stays as it is, with this many entries.
    Keep { num_entries: u64 },
    /// The survivors are sealed anew.
    Rewrite { survivors: Vec<IvfEntry> },
}

/// What a vacuum has counted.
#[derive(Clone, Copy, Debug, PartialEq, Eq, Structural)]
pub struct VacuumCounts {
    pub live: u64,
    pub dead: u64,
}

/// Decide about a list whose published segments hold `entries`, of which some
/// are dead, and count them.
pub fn vacuum_list(
    segments: &Vec<IvfSegment>,
    entries: Vec<IvfEntry>,
    dead: &[bool],
    counts: &mut VacuumCounts,
) -> (r: ListVacuum)
    requires
        dead.len() == entries.len(),
        entries_in(segments@) <= u64::MAX,
        old(counts).live + entries.len() <= u64::MAX,
        old(counts).dead + entries.len() <= u64::MAX,
    ensures
        final(counts).dead == old(counts).dead + dead_among(dead@, entries@.len() as int),
        final(counts).live == old(counts).live + live(entries@, dead@).len(),
        r is Keep <==> dead_among(dead@, entries@.len() as int) == 0 && segments@.len() <= 1,
        r matches ListVacuum::Keep { num_entries } ==> num_entries == entries_in(segments@),
        r matches ListVacuum::Rewrite { survivors } ==> survivors@ == live(entries@, dead@),
        r is Keep <==> segments@.len() <= 1 && forall|i: int|
            #![trigger dead@[i]]
            0 <= i < dead@.len() ==> !dead@[i],
        final(counts).dead - old(counts).dead == dead@.filter(|d: bool| d).len(),
        final(counts).live - old(counts).live == entries@.len() - dead@.filter(|d: bool| d).len(),
{
    proof {
        lemma_live_and_dead(entries@, dead@);
        law_dead_are_counted(dead@, entries@.len() as int);
        assert(dead@.take(entries@.len() as int) =~= dead@);
    }
    let (survivors, died) = live_entries(entries, dead);
    counts.dead = counts.dead + died;
    counts.live = counts.live + survivors.len() as u64;
    if must_rewrite(died, segments.len()) {
        ListVacuum::Rewrite { survivors }
    } else {
        ListVacuum::Keep { num_entries: total_entries(segments) }
    }
}

/// Every entry is live or dead.
proof fn lemma_live_and_dead(entries: Seq<IvfEntry>, dead: Seq<bool>)
    requires
        dead.len() >= entries.len(),
    ensures
        live(entries, dead).len() + dead_among(dead, entries.len() as int) == entries.len(),
        0 <= dead_among(dead, entries.len() as int),
    decreases entries.len(),
{
    if entries.len() > 0 {
        lemma_live_and_dead(entries.drop_last(), dead);
    }
}

/// The segments of a list whose survivors were sealed into `merged`.
pub fn merged_segments(merged: IvfSegment) -> (segments: Vec<IvfSegment>)
    ensures
        merged.num_entries == 0 ==> segments@ == Seq::<IvfSegment>::empty(),
        merged.num_entries > 0 ==> segments@ == seq![merged],
{
    let mut segments: Vec<IvfSegment> = Vec::new();
    if !merged.is_empty() {
        segments.push(merged);
        assert(segments@ =~= seq![merged]);
    }
    segments
}

/// The range of a segment, retired in generation `generation`.
pub open spec fn retired_segment(s: IvfSegment, generation: u64) -> IvfRetiredRange {
    IvfRetiredRange {
        start_block: s.start_page,
        num_blocks: s.num_blocks,
        retired_generation: generation,
    }
}

/// What a rewrite retires: the old segment-list item, and the old segments that
/// have blocks.
pub open spec fn retired_by_rewrite(
    header: IvfListHeader,
    segments: Seq<IvfSegment>,
) -> Seq<IvfRetiredRange> {
    let generation = (header.generation + 1) as u64;
    seq![
        IvfRetiredRange {
            start_block: header.segment_list.block_number,
            num_blocks: header.segment_list_blocks,
            retired_generation: generation,
        },
    ] + readable(segments).map(|i: int, s: IvfSegment| retired_segment(s, generation))
}

/// Publish a rewrite of the list: the header points to the new segment list, in
/// a new version and a new generation, and its append buffer is gone.  Returns
/// what is retired.
pub fn publish_rewrite(
    header: &mut IvfListHeader,
    segments: &Vec<IvfSegment>,
    pointer: ItemPointer,
    blocks: u32,
) -> (retired: Vec<IvfRetiredRange>)
    requires
        old(header).version < u64::MAX,
        old(header).generation < u64::MAX,
    ensures
        retired@ == retired_by_rewrite(*old(header), segments@),
        final(header).version == old(header).version + 1,
        final(header).generation == old(header).generation + 1,
        final(header).segment_list == pointer,
        final(header).segment_list_blocks == blocks,
        final(header).active is None,
{
    let generation: u64 = header.generation + 1;
    let mut retired: Vec<IvfRetiredRange> = Vec::new();
    retired.push(
        IvfRetiredRange {
            start_block: header.segment_list.block_number,
            num_blocks: header.segment_list_blocks,
            retired_generation: generation,
        },
    );
    let old_segments: Vec<IvfSegment> = readable_segments(segments);
    let ghost want = retired_by_rewrite(*old(header), segments@);
    let mut i: usize = 0;
    assert(retired@ =~= want.take(1));
    while i < old_segments.len()
        invariant
            i <= old_segments.len(),
            generation == old(header).generation + 1,
            old_segments@ == readable(segments@),
            want == retired_by_rewrite(*old(header), segments@),
            retired@ == want.take(i + 1),
        decreases old_segments.len() - i,
    {
        let s: IvfSegment = old_segments[i];
        retired.push(
            IvfRetiredRange {
                start_block: s.start_page,
                num_blocks: s.num_blocks,
                retired_generation: generation,
            },
        );
        assert(want[i + 1] == retired_segment(s, generation));
        assert(retired@ =~= want.take(i + 2));
        i = i + 1;
    }
    assert(want.take(want.len() as int) =~= want);
    header.version = header.version + 1;
    header.generation = generation;
    header.segment_list = pointer;
    header.segment_list_blocks = blocks;
    header.active = None;
    retired
}

/// Of the segments of a list, all that name a block and have any are readable,
/// each as often as it occurs and in the same order, and no others.
pub proof fn law_readable_segments_are_those_with_blocks(segments: Seq<IvfSegment>)
    ensures
        readable(segments) == segments.filter(
            |s: IvfSegment| s.start_page != 0xFFFF_FFFF && s.num_blocks > 0,
        ),
    decreases segments.len(),
{
    reveal(Seq::filter);
    if segments.len() > 0 {
        law_readable_segments_are_those_with_blocks(segments.drop_last());
    }
}

/// What is live of two runs of entries is what is live of each.
pub proof fn law_live_entries_of_two_runs(
    a: Seq<IvfEntry>,
    b: Seq<IvfEntry>,
    dead_a: Seq<bool>,
    dead_b: Seq<bool>,
)
    requires
        dead_a.len() == a.len(),
        dead_b.len() == b.len(),
    ensures
        live(a + b, dead_a + dead_b) == live(a, dead_a) + live(b, dead_b),
        a.len() == 1 ==> live(a, dead_a) == if dead_a[0] {
            Seq::empty()
        } else {
            a
        },
        dead_among(dead_a + dead_b, (a.len() + b.len()) as int) == dead_among(
            dead_a,
            a.len() as int,
        ) + dead_among(dead_b, b.len() as int),
        a.len() == 1 ==> dead_among(dead_a, 1) == if dead_a[0] {
            1int
        } else {
            0
        },
    decreases b.len(),
{
    if b.len() == 0 {
        assert(a + b =~= a);
        assert(dead_a + dead_b =~= dead_a);
        assert(live(a, dead_a) + live(b, dead_b) =~= live(a, dead_a));
    } else {
        let b0 = b.drop_last();
        let d0 = dead_b.drop_last();
        law_live_entries_of_two_runs(a, b0, dead_a, d0);
        assert((a + b).drop_last() =~= a + b0);
        lemma_live_goes_by_the_first(a + b0, dead_a + d0, dead_a + dead_b);
        lemma_live_goes_by_the_first(b0, d0, dead_b);
        assert(live(a + b, dead_a + dead_b) =~= live(a, dead_a) + live(b, dead_b));
    }
    if a.len() == 1 {
        assert(a.drop_last() =~= Seq::empty());
        reveal_with_fuel(live, 2);
        reveal_with_fuel(dead_among, 2);
        assert(live(a, dead_a) =~= if dead_a[0] {
            Seq::empty()
        } else {
            a
        });
    }
}

proof fn lemma_live_goes_by_the_first(entries: Seq<IvfEntry>, d1: Seq<bool>, d2: Seq<bool>)
    requires
        d1.len() >= entries.len(),
        d2.len() >= entries.len(),
        forall|i: int| #![trigger d1[i]] 0 <= i < entries.len() ==> d1[i] == d2[i],
    ensures
        live(entries, d1) == live(entries, d2),
        dead_among(d1, entries.len() as int) == dead_among(d2, entries.len() as int),
    decreases entries.len(),
{
    if entries.len() > 0 {
        lemma_live_goes_by_the_first(entries.drop_last(), d1, d2);
        assert(d1[entries.len() - 1] == d2[entries.len() - 1]);
    }
}

/// Two runs of segments have the entries of each, and a segment those that it
/// says.
pub proof fn law_entries_of_two_runs(a: Seq<IvfSegment>, b: Seq<IvfSegment>)
    ensures
        entries_in(a + b) == entries_in(a) + entries_in(b),
        a.len() == 1 ==> entries_in(a) == a[0].num_entries,
        a.len() == 0 ==> entries_in(a) == 0,
    decreases b.len(),
{
    if b.len() == 0 {
        assert(a + b =~= a);
    } else {
        law_entries_of_two_runs(a, b.drop_last());
        assert((a + b).drop_last() =~= a + b.drop_last());
    }
    reveal_with_fuel(entries_in, 2);
}

/// A rewrite retires the old segment list and the blocks of each of the old
/// segments that has any, in the next generation.
pub proof fn law_rewrite_retires_what_was_read(header: IvfListHeader, segments: Seq<IvfSegment>)
    requires
        header.generation < u64::MAX,
    ensures
        ({
            let out = retired_by_rewrite(header, segments);
            let old_segments = segments.filter(
                |s: IvfSegment| s.start_page != 0xFFFF_FFFF && s.num_blocks > 0,
            );
            &&& out.len() == old_segments.len() + 1
            &&& out[0].start_block == header.segment_list.block_number
            &&& out[0].num_blocks == header.segment_list_blocks
            &&& out[0].retired_generation == header.generation + 1
            &&& forall|i: int|
                #![trigger old_segments[i]]
                0 <= i < old_segments.len() ==> {
                    &&& out[i + 1].start_block == old_segments[i].start_page
                    &&& out[i + 1].num_blocks == old_segments[i].num_blocks
                    &&& out[i + 1].retired_generation == header.generation + 1
                }
        }),
{
    law_readable_segments_are_those_with_blocks(segments);
}

/// As many are dead among the first `n` as are marked so; none where none is.
pub proof fn law_dead_are_counted(dead: Seq<bool>, n: int)
    requires
        0 <= n <= dead.len(),
    ensures
        dead_among(dead, n) == dead.take(n).filter(|d: bool| d).len(),
        dead_among(dead, n) == 0 <==> forall|i: int| #![trigger dead[i]] 0 <= i < n ==> !dead[i],
        dead_among(dead, n) >= 0,
    decreases n,
{
    reveal(Seq::filter);
    if n > 0 {
        law_dead_are_counted(dead, n - 1);
        assert(dead.take(n).drop_last() =~= dead.take(n - 1));
        assert(dead.take(n).last() == dead[n - 1]);
    }
}

} // verus!
