//! The walk of a scan over the lists that it probes.
use crate::ivf::entry;
use crate::ivf::entry::IvfEntrySlice;
use crate::ivf::scan;
use crate::ivf::scan::{DistTid, IvfScanState, ScanTuple, TopK};
use crate::ivf::segment::IvfSegment;
use crate::ivf::simd::find_nearest_centroids;
use crate::ivf::vacuum;
use crate::ivf::vacuum::readable_segments;
use crate::util::bytes;
use crate::util::item_pointer::ItemPointer;
use crate::util::nearest;
use vstd::prelude::*;

verus! {

/// What was read of a segment: its byte stream, and the order keys of the
/// estimated distances of its entries.
#[derive(Debug)]
pub struct SegmentRead {
    pub stream: Vec<u8>,
    pub distances: Vec<i32>,
}

/// The stream of a segment is damaged, or there are not as many distances as
/// entries.
#[derive(Clone, Copy, Debug, PartialEq, Eq, Structural)]
pub struct DamagedSegment;

impl SegmentRead {
    /// The stream is empty, or can be parsed, with a distance for each entry.
    pub open spec fn is_sound(self) -> bool {
        self.stream@.len() == 0 || (entry::is_stream(self.stream@) && self.distances@.len()
            == entry::header_entries(self.stream@))
    }

    /// The candidates that the entries of the segment are.
    pub open spec fn candidates(self) -> Seq<DistTid> {
        if self.stream@.len() == 0 {
            Seq::empty()
        } else {
            Seq::new(
                entry::header_entries(self.stream@) as nat,
                |i: int|
                    DistTid {
                        dist: self.distances@[i],
                        tid: ItemPointer {
                            block_number: bytes::u32_at(
                                self.stream@,
                                entry::ENTRY_HEADER_SIZE + 6 * i,
                            ),
                            offset: bytes::u16_at(
                                self.stream@,
                                entry::ENTRY_HEADER_SIZE + 6 * i + 4,
                            ),
                        },
                    },
            )
        }
    }
}

/// The candidates of several segments, one after the other.
pub open spec fn candidates_in(reads: Seq<SegmentRead>) -> Seq<DistTid>
    decreases reads.len(),
{
    if reads.len() == 0 {
        Seq::empty()
    } else {
        candidates_in(reads.drop_last()) + reads.last().candidates()
    }
}

/// Offering candidates one after the other is offering them all.
proof fn lemma_offered_in_turn(s: Seq<DistTid>, k: int, a: Seq<DistTid>, b: Seq<DistTid>)
    ensures
        scan::offered_all(scan::offered_all(s, k, a), k, b) == scan::offered_all(s, k, a + b),
    decreases b.len(),
{
    if b.len() == 0 {
        assert(a + b =~= a);
    } else {
        lemma_offered_in_turn(s, k, a, b.drop_last());
        assert((a + b).drop_last() =~= a + b.drop_last());
        assert((a + b).last() == b.last());
    }
}

/// Offer all entries of a segment.
pub fn offer_segment(best: &mut TopK, r: &SegmentRead) -> (out: Result<(), DamagedSegment>)
    requires
        old(best).wf(),
    ensures
        final(best).wf(),
        final(best).k == old(best).k,
        out is Ok <==> r.is_sound(),
        final(best).items@ == if r.is_sound() {
            scan::offered_all(old(best).items@, old(best).k as int, r.candidates())
        } else {
            old(best).items@
        },
{
    if r.stream.len() == 0 {
        return Ok(());
    }
    if !IvfEntrySlice::can_parse(r.stream.as_slice()) {
        return Err(DamagedSegment);
    }
    let view: IvfEntrySlice = IvfEntrySlice::parse(r.stream.as_slice());
    if r.distances.len() != view.len() {
        return Err(DamagedSegment);
    }
    assert(scan::candidates(view, r.distances@) =~= r.candidates()) by {
        let b = r.stream@;
        let n = entry::header_entries(b) as int;
        assert forall|i: int| 0 <= i < n implies #[trigger] scan::candidates(
            view,
            r.distances@,
        )[i] == r.candidates()[i] by {
            let h = entry::ENTRY_HEADER_SIZE as int;
            assert(view.tids@ == b.subrange(h, h + n * 6));
            assert(view.tids@[6 * i + 0] == b[h + 6 * i + 0]);
            assert(view.tids@[6 * i + 1] == b[h + 6 * i + 1]);
            assert(view.tids@[6 * i + 2] == b[h + 6 * i + 2]);
            assert(view.tids@[6 * i + 3] == b[h + 6 * i + 3]);
            assert(view.tids@[6 * i + 4] == b[h + 6 * i + 4]);
            assert(view.tids@[6 * i + 5] == b[h + 6 * i + 5]);
        }
    }
    best.offer_view(&view, r.distances.as_slice());
    Ok(())
}

/// Whether `reads` is what reading the segments of a list gave, and nothing of
/// it is damaged.
pub open spec fn are_read<R: Fn(usize, IvfSegment) -> SegmentRead>(
    read: R,
    list: usize,
    segments: Seq<IvfSegment>,
    reads: Seq<SegmentRead>,
) -> bool {
    &&& reads.len() == segments.len()
    &&& forall|i: int|
        #![trigger reads[i]]
        0 <= i < reads.len() ==> call_ensures(read, (list, segments[i]), reads[i])
            && reads[i].is_sound()
}

/// Whether reading a segment gave something that is damaged.
pub open spec fn is_damaged<R: Fn(usize, IvfSegment) -> SegmentRead>(
    read: R,
    list: usize,
    segment: IvfSegment,
    r: SegmentRead,
) -> bool {
    call_ensures(read, (list, segment), r) && !r.is_sound()
}

/// Offer all entries of a list: those of each of its segments that has blocks,
/// in turn.
pub fn offer_list<R: Fn(usize, IvfSegment) -> SegmentRead>(
    best: &mut TopK,
    list: usize,
    segments: &Vec<IvfSegment>,
    read: &R,
) -> (out: Result<(), DamagedSegment>)
    requires
        old(best).wf(),
        forall|s: IvfSegment| #[trigger] call_requires(*read, (list, s)),
    ensures
        final(best).wf(),
        final(best).k == old(best).k,
        out is Ok ==> exists|reads: Seq<SegmentRead>| #[trigger]
            are_read(*read, list, vacuum::readable(segments@), reads)
                && scan::offered_all(old(best).items@, old(best).k as int, candidates_in(reads))
                == final(best).items@,
        out is Err ==> exists|s: IvfSegment, r: SegmentRead| #[trigger]
            is_damaged(*read, list, s, r),
{
    let readable: Vec<IvfSegment> = readable_segments(segments);
    let ghost mut reads: Seq<SegmentRead> = Seq::empty();
    let mut i: usize = 0;
    assert(are_read(*read, list, readable@.take(0), reads));
    while i < readable.len()
        invariant
            i <= readable@.len(),
            best.wf(),
            best.k == old(best).k,
            forall|s: IvfSegment| #[trigger] call_requires(*read, (list, s)),
            are_read(*read, list, readable@.take(i as int), reads),
            scan::offered_all(old(best).items@, old(best).k as int, candidates_in(reads))
                == best.items@,
        decreases readable@.len() - i,
    {
        let r: SegmentRead = read(list, readable[i]);
        match offer_segment(best, &r) {
            Ok(_) => {},
            Err(e) => {
                assert(is_damaged(*read, list, readable@[i as int], r));
                return Err(e);
            },
        }
        proof {
            let more = reads.push(r);
            assert(more.drop_last() =~= reads);
            lemma_offered_in_turn(
                old(best).items@,
                old(best).k as int,
                candidates_in(reads),
                r.candidates(),
            );
            assert forall|j: int| #![trigger more[j]] 0 <= j < more.len() implies call_ensures(
                *read,
                (list, readable@.take(i + 1)[j]),
                more[j],
            ) && more[j].is_sound() by {
                if j < reads.len() {
                    assert(more[j] == reads[j]);
                    assert(readable@.take(i as int)[j] == readable@.take(i + 1)[j]);
                }
            }
            reads = more;
        }
        i = i + 1;
    }
    assert(readable@.take(readable@.len() as int) =~= readable@);
    Ok(())
}

/// What was read of a list: its segments, where it has any published, and what
/// those that have blocks hold.
pub struct ListRead {
    pub list: usize,
    pub segments: Option<Vec<IvfSegment>>,
    pub reads: Seq<SegmentRead>,
}

/// Whether this is what was read of a list.
pub open spec fn is_list_read<
    O: Fn(usize) -> Option<Vec<IvfSegment>>,
    R: Fn(usize, IvfSegment) -> SegmentRead,
>(open: O, read: R, l: ListRead) -> bool {
    &&& call_ensures(open, (l.list,), l.segments)
    &&& match l.segments {
        Some(segments) => are_read(read, l.list, vacuum::readable(segments@), l.reads),
        None => l.reads.len() == 0,
    }
}

/// The lists that were read, in order.
pub open spec fn lists_of(lists: Seq<ListRead>) -> Seq<usize> {
    lists.map_values(|l: ListRead| l.list)
}

/// Whether `lists` is what was read of the `probes` lists whose centroids are
/// nearest.
pub open spec fn are_probed<
    O: Fn(usize) -> Option<Vec<IvfSegment>>,
    R: Fn(usize, IvfSegment) -> SegmentRead,
>(open: O, read: R, distances: Seq<i32>, probes: int, lists: Seq<ListRead>) -> bool {
    &&& nearest::is_nearest(distances, probes, lists_of(lists))
    &&& forall|i: int| #![trigger lists[i]] 0 <= i < lists.len() ==> is_list_read(open, read, lists[i])
}

/// The candidates of all lists, one after the other.
pub open spec fn all_candidates(lists: Seq<ListRead>) -> Seq<DistTid>
    decreases lists.len(),
{
    if lists.len() == 0 {
        Seq::empty()
    } else {
        all_candidates(lists.drop_last()) + candidates_in(lists.last().reads)
    }
}

/// How many candidates a scan keeps: at least one.
pub open spec fn kept(top_k: int) -> int {
    if top_k < 1 {
        1
    } else {
        top_k
    }
}

/// Whether this is what was read of a list, and its candidates were offered.
spec fn is_offered<
    O: Fn(usize) -> Option<Vec<IvfSegment>>,
    R: Fn(usize, IvfSegment) -> SegmentRead,
>(
    open: O,
    read: R,
    list: usize,
    l: ListRead,
    before: Seq<DistTid>,
    k: int,
    after: Seq<DistTid>,
) -> bool {
    &&& l.list == list
    &&& is_list_read(open, read, l)
    &&& after == scan::offered_all(before, k, candidates_in(l.reads))
}

/// Offer all entries of a list, where it has any published.
fn probe_list<
    O: Fn(usize) -> Option<Vec<IvfSegment>>,
    R: Fn(usize, IvfSegment) -> SegmentRead,
>(best: &mut TopK, list: usize, open: &O, read: &R) -> (out: Result<(), DamagedSegment>)
    requires
        old(best).wf(),
        call_requires(*open, (list,)),
        forall|s: IvfSegment| #[trigger] call_requires(*read, (list, s)),
    ensures
        final(best).wf(),
        final(best).k == old(best).k,
        out is Ok ==> exists|l: ListRead| #[trigger]
            is_offered(
                *open,
                *read,
                list,
                l,
                old(best).items@,
                old(best).k as int,
                final(best).items@,
            ),
        out is Err ==> exists|s: IvfSegment, r: SegmentRead| #[trigger]
            is_damaged(*read, list, s, r),
{
    let ghost before = best.items@;
    let ghost k = best.k as int;
    let segments: Option<Vec<IvfSegment>> = open(list);
    match &segments {
        Some(s) => {
            let out: Result<(), DamagedSegment> = offer_list(best, list, s, read);
            proof {
                if out is Ok {
                    let reads = choose|reads: Seq<SegmentRead>| #[trigger]
                        are_read(*read, list, vacuum::readable(s@), reads) && scan::offered_all(
                            before,
                            k,
                            candidates_in(reads),
                        ) == best.items@;
                    let l = ListRead { list, segments, reads };
                    assert(is_offered(*open, *read, list, l, before, k, best.items@));
                }
            }
            out
        },
        None => {
            proof {
                let l = ListRead { list, segments, reads: Seq::empty() };
                assert(is_offered(*open, *read, list, l, before, k, best.items@));
            }
            Ok(())
        },
    }
}

proof fn lemma_one_more_list<
    O: Fn(usize) -> Option<Vec<IvfSegment>>,
    R: Fn(usize, IvfSegment) -> SegmentRead,
>(open: O, read: R, near: Seq<usize>, i: int, lists: Seq<ListRead>, l: ListRead)
    requires
        0 <= i < near.len(),
        lists_of(lists) == near.take(i),
        forall|j: int|
            #![trigger lists[j]]
            0 <= j < lists.len() ==> is_list_read(open, read, lists[j]),
        l.list == near[i],
        is_list_read(open, read, l),
    ensures
        lists_of(lists.push(l)) == near.take(i + 1),
        forall|j: int|
            #![trigger lists.push(l)[j]]
            0 <= j < lists.len() + 1 ==> is_list_read(open, read, lists.push(l)[j]),
        all_candidates(lists.push(l)) == all_candidates(lists) + candidates_in(l.reads),
{
    let more = lists.push(l);
    assert(more.drop_last() =~= lists);
    assert(lists_of(lists).len() == i);
    assert forall|j: int| 0 <= j < more.len() implies #[trigger] lists_of(more)[j] == near.take(
        i + 1,
    )[j] by {
        if j < lists.len() {
            assert(lists_of(lists)[j] == near.take(i)[j]);
        }
    }
    assert(lists_of(more) =~= near.take(i + 1));
    assert forall|j: int| #![trigger more[j]] 0 <= j < more.len() implies is_list_read(
        open,
        read,
        more[j],
    ) by {
        if j < lists.len() {
            assert(more[j] == lists[j]);
        }
    }
}

/// Find the best entries of the `probes` lists whose centroids are nearest.
/// `distances` are those of the centroids; `open` gives the segments of a list,
/// where it has any published, and `read` what a segment holds.
pub fn compute_results<
    O: Fn(usize) -> Option<Vec<IvfSegment>>,
    R: Fn(usize, IvfSegment) -> SegmentRead,
>(distances: &[i32], probes: usize, top_k: usize, open: &O, read: &R) -> (out: Result<
    TopK,
    DamagedSegment,
>)
    requires
        forall|list: usize|
            #![trigger call_requires(*open, (list,))]
            list < distances.len() ==> call_requires(*open, (list,)),
        forall|list: usize, s: IvfSegment|
            #![trigger call_requires(*read, (list, s))]
            list < distances.len() ==> call_requires(*read, (list, s)),
    ensures
        out matches Ok(best) ==> {
            &&& best.wf()
            &&& best.k == kept(top_k as int)
            &&& exists|lists: Seq<ListRead>| #[trigger]
                are_probed(*open, *read, distances@, probes as int, lists) && best.items@
                    == scan::offered_all(Seq::empty(), best.k as int, all_candidates(lists))
        },
        out is Err ==> exists|list: usize, s: IvfSegment, r: SegmentRead| #[trigger]
            is_damaged(*read, list, s, r),
{
    let mut best: TopK = TopK::new(top_k);
    let near: Vec<usize> = find_nearest_centroids(distances, probes);
    let ghost mut lists: Seq<ListRead> = Seq::empty();
    let mut i: usize = 0;
    proof {
        assert(best.items@ =~= Seq::empty());
        assert(lists_of(lists) =~= near@.take(0));
    }
    while i < near.len()
        invariant
            i <= near@.len(),
            nearest::is_nearest(distances@, probes as int, near@),
            best.wf(),
            best.k == kept(top_k as int),
            forall|list: usize|
                #![trigger call_requires(*open, (list,))]
                list < distances.len() ==> call_requires(*open, (list,)),
            forall|list: usize, s: IvfSegment|
                #![trigger call_requires(*read, (list, s))]
                list < distances.len() ==> call_requires(*read, (list, s)),
            lists_of(lists) == near@.take(i as int),
            forall|j: int|
                #![trigger lists[j]]
                0 <= j < lists.len() ==> is_list_read(*open, *read, lists[j]),
            best.items@ == scan::offered_all(Seq::empty(), best.k as int, all_candidates(lists)),
        decreases near@.len() - i,
    {
        let list: usize = near[i];
        assert(near@[i as int] < distances@.len());
        let ghost before = best.items@;
        let ghost k = best.k as int;
        match probe_list(&mut best, list, open, read) {
            Ok(_) => {},
            Err(e) => {
                return Err(e);
            },
        }
        proof {
            let l = choose|l: ListRead| #[trigger]
                is_offered(*open, *read, list, l, before, k, best.items@);
            lemma_offered_in_turn(Seq::empty(), k, all_candidates(lists), candidates_in(l.reads));
            lemma_one_more_list(*open, *read, near@, i as int, lists, l);
            lists = lists.push(l);
        }
        i = i + 1;
    }
    proof {
        assert(near@.take(near@.len() as int) =~= near@);
        assert(are_probed(*open, *read, distances@, probes as int, lists));
    }
    Ok(best)
}

/// Whether `items` are the best entries of the lists that a scan probes.
pub open spec fn is_computed<
    D: Fn() -> Vec<i32>,
    O: Fn(usize) -> Option<Vec<IvfSegment>>,
    R: Fn(usize, IvfSegment) -> SegmentRead,
>(distances: D, open: O, read: R, probes: int, top_k: int, items: Seq<DistTid>) -> bool {
    exists|d: Vec<i32>, lists: Seq<ListRead>| #[trigger]
        call_ensures(distances, (), d) && #[trigger] are_probed(open, read, d@, probes, lists)
            && items == scan::offered_all(Seq::empty(), kept(top_k), all_candidates(lists))
}

/// Hand out the next row of a scan, if any is left.  The first call computes the
/// results: `distances` gives those of the centroids, `open` the segments of a
/// list, and `read` what a segment holds.
pub fn amgettuple<
    D: Fn() -> Vec<i32>,
    O: Fn(usize) -> Option<Vec<IvfSegment>>,
    R: Fn(usize, IvfSegment) -> SegmentRead,
>(state: &mut IvfScanState, top_k: usize, distances: &D, open: &O, read: &R) -> (r: Result<
    Option<ScanTuple>,
    DamagedSegment,
>)
    requires
        old(state).wf(),
        !old(state).results_computed ==> {
            &&& call_requires(*distances, ())
            &&& forall|d: Vec<i32>, list: usize|
                #![trigger call_ensures(*distances, (), d), call_requires(*open, (list,))]
                call_ensures(*distances, (), d) && list < d@.len() ==> call_requires(
                    *open,
                    (list,),
                )
            &&& forall|d: Vec<i32>, list: usize, s: IvfSegment|
                #![trigger call_ensures(*distances, (), d), call_requires(*read, (list, s))]
                call_ensures(*distances, (), d) && list < d@.len() ==> call_requires(
                    *read,
                    (list, s),
                )
        },
    ensures
        final(state).wf(),
        final(state).probes == old(state).probes,
        old(state).results_computed ==> r is Ok,
        r is Err ==> *final(state) == *old(state) && exists|
            list: usize,
            s: IvfSegment,
            got: SegmentRead,
        | #[trigger]
            is_damaged(*read, list, s, got),
        r is Ok ==> final(state).results_computed && exists|remaining: Seq<DistTid>|
            {
                &&& if old(state).results_computed {
                    remaining == old(state).remaining()
                } else {
                    is_computed(
                        *distances,
                        *open,
                        *read,
                        old(state).probes as int,
                        top_k as int,
                        remaining,
                    )
                }
                &&& r->Ok_0 == #[trigger] scan::next_of(remaining)
                &&& scan::rest_of(remaining) == final(state).remaining()
            },
{
    if !state.results_computed {
        let d: Vec<i32> = distances();
        match compute_results(d.as_slice(), state.probes, top_k, open, read) {
            Ok(best) => {
                assert(is_computed(
                    *distances,
                    *open,
                    *read,
                    state.probes as int,
                    top_k as int,
                    best.items@,
                ));
                state.set_results(best);
            },
            Err(e) => {
                return Err(e);
            },
        }
    }
    let ghost remaining = state.remaining();
    let next: Option<ScanTuple> = match state.next_result() {
        Some(c) => Some(
            ScanTuple {
                heap_tid: c.tid,
                recheck: false,
                recheck_order_by: true,
                distance: c.dist,
            },
        ),
        None => None,
    };
    assert(next == scan::next_of(remaining));
    Ok(next)
}

/// A scan hands out the best entries of all the lists that it probes: as many
/// calls succeed as there are entries, or are kept; what they hand out are
/// different entries, nearest first, to be ordered anew by the exact distance;
/// and no entry that is left out is nearer than one that is handed out.
pub proof fn law_scan_hands_out_the_best_entries<
    D: Fn() -> Vec<i32>,
    O: Fn(usize) -> Option<Vec<IvfSegment>>,
    R: Fn(usize, IvfSegment) -> SegmentRead,
>(
    distances: D,
    open: O,
    read: R,
    probes: int,
    top_k: int,
    items: Seq<DistTid>,
    n: nat,
    later: nat,
)
    requires
        is_computed(distances, open, read, probes, top_k, items),
        n <= later,
    ensures
        exists|d: Vec<i32>, lists: Seq<ListRead>|
            {
                let all = all_candidates(lists);
                let now = scan::next_of(scan::left_after(items, n));
                let after = scan::next_of(scan::left_after(items, later));
                &&& #[trigger] call_ensures(distances, (), d)
                &&& #[trigger] are_probed(open, read, d@, probes, lists)
                &&& now is Some <==> n < kept(top_k) && n < all.len()
                &&& now is Some ==> now->0 == scan::scan_tuple(items[n as int])
                    && now->0.recheck_order_by
                &&& now is Some && after is Some ==> now->0.distance <= after->0.distance
                &&& forall|c: DistTid|
                    #![trigger items.to_multiset().count(c)]
                    items.to_multiset().count(c) <= all.to_multiset().count(c)
                &&& forall|c: DistTid|
                    #![trigger all.to_multiset().count(c)]
                    items.to_multiset().count(c) < all.to_multiset().count(c)
                        ==> items.last().dist <= c.dist
            },
{
    let (d, lists) = choose|d: Vec<i32>, lists: Seq<ListRead>| #[trigger]
        call_ensures(distances, (), d) && #[trigger] are_probed(open, read, d@, probes, lists)
            && items == scan::offered_all(Seq::empty(), kept(top_k), all_candidates(lists));
    let all = all_candidates(lists);
    scan::law_best_candidates_are_kept(kept(top_k), all);
    scan::law_scan_hands_out_the_best(kept(top_k), all, n, later);
    assert(call_ensures(distances, (), d) && are_probed(open, read, d@, probes, lists));
}

/// The candidates of several segments are those of each, one after the other:
/// one for each entry, at its distance and with its row address.
pub proof fn law_candidates_are_the_entries(a: Seq<SegmentRead>, b: Seq<SegmentRead>)
    ensures
        candidates_in(a + b) == candidates_in(a) + candidates_in(b),
        a.len() == 0 ==> candidates_in(a).len() == 0,
        a.len() == 1 && a[0].stream@.len() == 0 ==> candidates_in(a).len() == 0,
        a.len() == 1 && a[0].stream@.len() > 0 ==> {
            let s = a[0].stream@;
            &&& candidates_in(a).len() == bytes::u32_at(s, 4)
            &&& forall|i: int|
                #![trigger candidates_in(a)[i]]
                0 <= i < candidates_in(a).len() ==> {
                    &&& candidates_in(a)[i].dist == a[0].distances@[i]
                    &&& candidates_in(a)[i].tid.block_number == bytes::u32_at(s, 16 + 6 * i)
                    &&& candidates_in(a)[i].tid.offset == bytes::u16_at(s, 16 + 6 * i + 4)
                }
        },
    decreases b.len(),
{
    if b.len() == 0 {
        assert(a + b =~= a);
        assert(candidates_in(a) + candidates_in(b) =~= candidates_in(a));
    } else {
        law_candidates_are_the_entries(a, b.drop_last());
        assert((a + b).drop_last() =~= a + b.drop_last());
        assert(candidates_in(a + b) =~= candidates_in(a) + candidates_in(b));
    }
    if a.len() == 1 {
        assert(a.drop_last() =~= Seq::empty());
        reveal_with_fuel(candidates_in, 2);
        assert(candidates_in(a) =~= a[0].candidates());
    }
}

/// The candidates of a scan are those of each list, one after the other.
pub proof fn law_candidates_of_all_lists(a: Seq<ListRead>, b: Seq<ListRead>)
    ensures
        all_candidates(a + b) == all_candidates(a) + all_candidates(b),
        a.len() == 0 ==> all_candidates(a).len() == 0,
        a.len() == 1 ==> all_candidates(a) == candidates_in(a[0].reads),
    decreases b.len(),
{
    if b.len() == 0 {
        assert(a + b =~= a);
        assert(all_candidates(a) + all_candidates(b) =~= all_candidates(a));
    } else {
        law_candidates_of_all_lists(a, b.drop_last());
        assert((a + b).drop_last() =~= a + b.drop_last());
        assert(all_candidates(a + b) =~= all_candidates(a) + all_candidates(b));
    }
    if a.len() == 1 {
        assert(a.drop_last() =~= Seq::empty());
        reveal_with_fuel(all_candidates, 2);
        assert(all_candidates(a) =~= candidates_in(a[0].reads));
    }
}

/// The candidates of a scan include every entry of every segment of every list
/// that it probes: of list `l`, of its segment `j` where that names a block and
/// has any, and of what was read of it, entry `e`.
pub proof fn law_scan_considers_every_entry<
    O: Fn(usize) -> Option<Vec<IvfSegment>>,
    R: Fn(usize, IvfSegment) -> SegmentRead,
>(
    open: O,
    read: R,
    distances: Seq<i32>,
    probes: int,
    lists: Seq<ListRead>,
    l: int,
    j: int,
)
    requires
        are_probed(open, read, distances, probes, lists),
        0 <= l < lists.len(),
        lists[l].segments is Some,
        0 <= j < lists[l].segments->0@.len(),
        lists[l].segments->0@[j].start_page != 0xFFFF_FFFF,
        lists[l].segments->0@[j].num_blocks > 0,
    ensures
        call_ensures(open, (lists[l].list,), lists[l].segments),
        exists|r: SegmentRead|
            {
                &&& #[trigger] call_ensures(
                    read,
                    (lists[l].list, lists[l].segments->0@[j]),
                    r,
                )
                &&& forall|e: int|
                    #![trigger r.distances@[e]]
                    r.stream@.len() > 0 && 0 <= e < bytes::u32_at(r.stream@, 4)
                        ==> all_candidates(lists).contains(
                        DistTid {
                            dist: r.distances@[e],
                            tid: ItemPointer {
                                block_number: bytes::u32_at(r.stream@, 16 + 6 * e),
                                offset: bytes::u16_at(r.stream@, 16 + 6 * e + 4),
                            },
                        },
                    )
            },
{
    let segments = lists[l].segments->0@;
    let reads = lists[l].reads;
    assert(is_list_read(open, read, lists[l]));
    vacuum::law_readable_segments_are_those_with_blocks(segments);
    let keep = |s: IvfSegment| s.start_page != 0xFFFF_FFFF && s.num_blocks > 0;
    let readable = vacuum::readable(segments);
    assert(readable == segments.filter(keep));
    segments.lemma_filter_contains(keep, j);
    let k = choose|k: int| 0 <= k < readable.len() && readable[k] == segments[j];
    let r = reads[k];
    assert(call_ensures(read, (lists[l].list, segments[j]), r));
    assert forall|e: int|
        #![trigger r.distances@[e]]
        r.stream@.len() > 0 && 0 <= e < bytes::u32_at(r.stream@, 4) implies all_candidates(
        lists,
    ).contains(
        DistTid {
            dist: r.distances@[e],
            tid: ItemPointer {
                block_number: bytes::u32_at(r.stream@, 16 + 6 * e),
                offset: bytes::u16_at(r.stream@, 16 + 6 * e + 4),
            },
        },
    ) by {
        lemma_has_candidate(reads, k, e);
        let here = candidates_in(reads);
        let x = choose|x: int| 0 <= x < here.len() && here[x] == r.candidates()[e];
        lemma_has_list(lists, l, x);
    }
}

proof fn lemma_has_candidate(reads: Seq<SegmentRead>, k: int, e: int)
    requires
        0 <= k < reads.len(),
        0 <= e < reads[k].candidates().len(),
    ensures
        candidates_in(reads).contains(reads[k].candidates()[e]),
    decreases reads.len(),
{
    let init = reads.drop_last();
    let c = reads[k].candidates()[e];
    if k < init.len() {
        lemma_has_candidate(init, k, e);
        let x = choose|x: int| 0 <= x < candidates_in(init).len() && candidates_in(init)[x] == c;
        assert(candidates_in(reads)[x] == c);
    } else {
        assert(candidates_in(reads)[candidates_in(init).len() + e] == c);
    }
}

proof fn lemma_has_list(lists: Seq<ListRead>, l: int, x: int)
    requires
        0 <= l < lists.len(),
        0 <= x < candidates_in(lists[l].reads).len(),
    ensures
        all_candidates(lists).contains(candidates_in(lists[l].reads)[x]),
    decreases lists.len(),
{
    let init = lists.drop_last();
    let c = candidates_in(lists[l].reads)[x];
    if l < init.len() {
        lemma_has_list(init, l, x);
        let y = choose|y: int| 0 <= y < all_candidates(init).len() && all_candidates(init)[y] == c;
        assert(all_candidates(lists)[y] == c);
    } else {
        assert(all_candidates(lists)[all_candidates(init).len() + x] == c);
    }
}

} // verus!
