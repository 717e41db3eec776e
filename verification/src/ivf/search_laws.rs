//! What clustering and searching lead to, told by distances and places.
use crate::ivf::centroid;
use crate::ivf::entry;
use crate::ivf::insert;
use crate::ivf::list_directory;
use crate::ivf::meta_page;
use crate::ivf::meta_page::{IvfBuildParameters, IvfMetaPage};
use crate::ivf::probe;
use crate::ivf::probe::SegmentRead;
use crate::ivf::scan;
use crate::ivf::segment::{IvfListHeader, IvfSegment};
use crate::ivf::simd;
use crate::ivf::simd::SearchResult;
use crate::quantization::rabitq_fastscan as fastscan;
use crate::util::bytes;
use crate::util::item_pointer::ItemPointer;
use crate::util::nearest;
use vstd::prelude::*;

verus! {

/// The distance of a vector to the centroids chosen is the smallest of those to
/// each of them.
pub proof fn law_min_distance_is_the_smallest(
    dist: spec_fn(usize, usize) -> i32,
    chosen: Seq<usize>,
    i: int,
)
    ensures
        forall|j: int|
            #![trigger chosen[j]]
            0 <= j < chosen.len() ==> centroid::min_distance(dist, chosen, i) <= dist(
                i as usize,
                chosen[j],
            ),
        centroid::min_distance(dist, chosen, i) == centroid::MAX_DISTANCE || exists|j: int|
            #![trigger chosen[j]]
            0 <= j < chosen.len() && centroid::min_distance(dist, chosen, i) == dist(
                i as usize,
                chosen[j],
            ),
        centroid::min_distance(dist, Seq::empty(), i) == centroid::MAX_DISTANCE,
    decreases chosen.len(),
{
    if chosen.len() > 0 {
        let init = chosen.drop_last();
        law_min_distance_is_the_smallest(dist, init, i);
        let before = centroid::min_distance(dist, init, i);
        let now = centroid::min_distance(dist, chosen, i);
        assert forall|j: int| #![trigger chosen[j]] 0 <= j < chosen.len() implies now <= dist(
            i as usize,
            chosen[j],
        ) by {
            if j < init.len() {
                assert(init[j] == chosen[j]);
            }
        }
        if now != before {
            assert(now == dist(i as usize, chosen[chosen.len() - 1]));
        } else if before != centroid::MAX_DISTANCE {
            let j = choose|j: int|
                #![trigger init[j]]
                0 <= j < init.len() && before == dist(i as usize, init[j]);
            assert(chosen[j] == init[j]);
        }
    }
}

/// A centroid with vectors of its own takes on the numbers of their mean; one
/// without stays as it is, and so does one that holds the same numbers already.
pub proof fn law_centroids_take_on_their_means(
    centroids: Seq<Vec<u32>>,
    means: Seq<Vec<u32>>,
    counts: Seq<usize>,
    c: int,
)
    ensures
        ({
            let now = centroid::moved(centroids, means, counts, c);
            &&& counts[c] == 0 ==> now == centroids[c]@ && !centroid::moves(
                centroids,
                means,
                counts,
                c,
            )
            &&& counts[c] > 0 ==> {
                &&& now.len() == means[c]@.len()
                &&& forall|j: int|
                    #![trigger now[j]]
                    0 <= j < now.len() ==> now[j] == means[c]@[j] || ((now[j] == 0 || now[j]
                        == 0x8000_0000) && (means[c]@[j] == 0 || means[c]@[j] == 0x8000_0000))
            }
            &&& !centroid::moves(centroids, means, counts, c) ==> now == centroids[c]@
        }),
{
    let now = centroid::moved(centroids, means, counts, c);
    if counts[c] > 0 && !centroid::moves(centroids, means, counts, c) {
        assert forall|j: int| #![trigger now[j]] 0 <= j < now.len() implies now[j] == means[c]@[j]
            || ((now[j] == 0 || now[j] == 0x8000_0000) && (means[c]@[j] == 0 || means[c]@[j]
            == 0x8000_0000)) by {
            assert(centroid::same_row(means[c]@, centroids[c]@));
            crate::util::float_bits::law_equal_numbers(means[c]@[j], now[j]);
        }
    }
}

/// Rounds go on as long as the mean of some centroid's vectors differs from it in
/// a number.
pub proof fn law_rounds_end_at_the_means(
    dist: spec_fn(int, Seq<u32>) -> i32,
    mean: spec_fn(Seq<usize>, int) -> Seq<u32>,
    n: int,
    rows: Seq<Seq<u32>>,
)
    requires
        rows.len() <= usize::MAX,
    ensures
        centroid::is_settled(dist, mean, n, rows) <==> forall|c: usize|
            #![trigger centroid::nearest_rows(dist, n, rows).contains(c)]
            c < rows.len() && centroid::nearest_rows(dist, n, rows).contains(c)
                ==> centroid::same_row(
                mean(centroid::nearest_rows(dist, n, rows), c as int),
                rows[c as int],
            ),
{
    let assigned = centroid::nearest_rows(dist, n, rows);
    assert forall|c: usize| centroid::cluster_size(assigned, c as int) > 0 <==> #[trigger]
        assigned.contains(c) by {
        centroid::law_cluster_size_counts_the_assigned(assigned, c);
        if centroid::cluster_size(assigned, c as int) > 0 {
            let i = choose|i: int| 0 <= i < assigned.len() && #[trigger] assigned[i] == c;
            assert(assigned.contains(c));
        }
        if assigned.contains(c) {
            let i = choose|i: int| 0 <= i < assigned.len() && assigned[i] == c;
            assert(assigned[i] == c);
        }
    }
    if centroid::is_settled(dist, mean, n, rows) {
        assert forall|c: usize|
            #![trigger assigned.contains(c)]
            c < rows.len() && assigned.contains(c) implies centroid::same_row(
            mean(assigned, c as int),
            rows[c as int],
        ) by {
            assert(!centroid::moves_in_round(dist, mean, n, rows, c as int));
        }
    }
    if forall|c: usize|
        #![trigger assigned.contains(c)]
        c < rows.len() && assigned.contains(c) ==> centroid::same_row(
            mean(assigned, c as int),
            rows[c as int],
        ) {
        assert forall|c: int| 0 <= c < rows.len() implies !#[trigger] centroid::moves_in_round(
            dist,
            mean,
            n,
            rows,
            c,
        ) by {
            let u = c as usize;
            assert(centroid::cluster_size(assigned, u as int) > 0 <==> assigned.contains(u));
        }
    }
}

/// A search finds the nearest entries of the lists that it probes: as many as asked
/// for or all, each once and at its distance, nearest first; and no entry of a
/// probed list that it leaves out is nearer than one that it finds.
pub proof fn law_search_finds_the_nearest_entries(
    lists: Seq<Vec<i32>>,
    probes: Seq<usize>,
    k: int,
    out: Seq<SearchResult>,
    p: int,
    e: int,
)
    requires
        simd::is_search_result(lists, probes, k, out),
        0 <= p < probes.len(),
        probes[p] < lists.len(),
        0 <= e < lists[probes[p] as int]@.len(),
    ensures
        (exists|i: int|
            0 <= i < out.len() && (#[trigger] out[i]).list_index == probes[p] && out[i].entry_index
                == e) || forall|i: int|
            #![trigger out[i]]
            0 <= i < out.len() ==> out[i].distance <= lists[probes[p] as int]@[e],
        forall|i: int|
            #![trigger out[i]]
            0 <= i < out.len() ==> probes.contains(out[i].list_index) && out[i].list_index
                < lists.len() && out[i].entry_index < lists[out[i].list_index as int]@.len()
                && out[i].distance == lists[out[i].list_index as int]@[out[i].entry_index as int],
        forall|i: int, j: int|
            #![trigger out[i], out[j]]
            0 <= i < j < out.len() ==> out[i].distance <= out[j].distance && (out[i].list_index
                != out[j].list_index || out[i].entry_index != out[j].entry_index),
        out.len() == k || (out.len() < k && out.len() == simd::probed_entries(lists, probes)),
{
    let li = probes[p] as int;
    assert(nearest::selects(probes, li)) by {
        assert(probes[p] == li);
    }
    assert(simd::is_probed_entry(lists, probes, li, e));
    if simd::names(out, li, e) {
        let i = choose|i: int|
            0 <= i < out.len() && (#[trigger] out[i]).list_index == li && out[i].entry_index == e;
        assert(out[i].list_index == probes[p]);
    } else {
        assert forall|i: int| #![trigger out[i]] 0 <= i < out.len() implies out[i].distance
            <= lists[li]@[e] by {
            if i < out.len() - 1 {
                assert(out[i].distance <= out[out.len() - 1].distance);
            }
        }
    }
    assert forall|i: int| #![trigger out[i]] 0 <= i < out.len() implies probes.contains(
        out[i].list_index,
    ) by {
        assert(nearest::selects(probes, out[i].list_index as int));
        let a = choose|a: int|
            0 <= a < probes.len() && (#[trigger] probes[a]) == out[i].list_index as int;
        assert(probes[a] == out[i].list_index);
    }
}

/// What a scan of one list finds: its nearest entries, each once, at its distance
/// and under the index of the list.
pub proof fn law_list_scan_finds_the_nearest_entries(
    distances: Seq<i32>,
    list_index: usize,
    k: int,
    out: Seq<SearchResult>,
    e: int,
)
    requires
        simd::is_list_result(distances, list_index, k, out),
        k >= 0,
        0 <= e < distances.len(),
    ensures
        out.len() == k || (out.len() < k && out.len() == distances.len()),
        (exists|i: int| 0 <= i < out.len() && (#[trigger] out[i]).entry_index == e) || forall|i: int|
            #![trigger out[i]]
            0 <= i < out.len() ==> out[i].distance <= distances[e],
        forall|i: int|
            #![trigger out[i]]
            0 <= i < out.len() ==> out[i].list_index == list_index && out[i].entry_index
                < distances.len() && out[i].distance == distances[out[i].entry_index as int],
        forall|i: int, j: int|
            #![trigger out[i], out[j]]
            0 <= i < j < out.len() ==> out[i].distance <= out[j].distance && out[i].entry_index
                != out[j].entry_index,
{
    let sel = simd::entries_of(out);
    nearest::law_nearest_are_the_smallest(distances, k, sel);
    assert forall|i: int| #![trigger out[i]] 0 <= i < out.len() implies out[i].entry_index
        == sel[i] && sel[i] < distances.len() by {}
    assert forall|i: int, j: int| #![trigger out[i], out[j]] 0 <= i < j
        < out.len() implies out[i].distance <= out[j].distance && out[i].entry_index
        != out[j].entry_index by {
        assert(sel[i] != sel[j]);
        assert(distances[sel[i] as int] <= distances[sel[j] as int]);
    }
    if !(exists|i: int| 0 <= i < out.len() && (#[trigger] out[i]).entry_index == e) {
        assert forall|i: int| #![trigger out[i]] 0 <= i < out.len() implies out[i].distance
            <= distances[e] by {
            if exists|a: int| 0 <= a < sel.len() && (#[trigger] sel[a]) == e {
                let a = choose|a: int| 0 <= a < sel.len() && (#[trigger] sel[a]) == e;
                assert(out[a].entry_index == e);
            }
            assert(distances[sel[i] as int] <= distances[e]);
        }
    }
}

/// A segment counts as damaged only if something was read of it and that is no
/// stream of entries, or one that does not have a distance for each of them.
pub proof fn law_only_damaged_segments_are_refused<R: Fn(usize, IvfSegment) -> SegmentRead>(
    read: R,
    list: usize,
    s: IvfSegment,
    r: SegmentRead,
)
    ensures
        probe::is_damaged(read, list, s, r) ==> {
            &&& call_ensures(read, (list, s), r)
            &&& r.stream@.len() > 0
            &&& r.stream@.len() < 16 || bytes::u32_at(r.stream@, 0) != entry::IVF_ENTRY_MAGIC
                || r.distances@.len() != bytes::u32_at(r.stream@, 4) || r.stream@.len()
                < entry::stream_len(
                bytes::u32_at(r.stream@, 4) as int,
                r.stream@[10],
                bytes::u16_at(r.stream@, 8) as int,
            )
        },
        r.stream@.len() == 0 ==> r.is_sound(),
{
}

/// A pointer that is kept on the meta page is there if it has a block and a place.
pub proof fn law_pointers_are_given_if_set(p: ItemPointer)
    ensures
        meta_page::pointer_if_valid(p) is Some <==> p.block_number != 0xFFFF_FFFF && p.offset != 0,
        meta_page::pointer_if_valid(p) is Some ==> meta_page::pointer_if_valid(p)->0 == p,
{
}

/// A new list has no header and no tuples.
pub proof fn law_new_lists_are_empty(centroid_offset: u32)
    ensures
        list_directory::new_list(centroid_offset).header.block_number == 0xFFFF_FFFF,
        list_directory::new_list(centroid_offset).num_tuples == 0,
        list_directory::new_list(centroid_offset).centroid_offset == centroid_offset,
{
}

/// Storing a new segment list retires exactly the blocks of the one before.
pub proof fn law_stored_list_retires_the_one_before(header: IvfListHeader)
    ensures
        header.segment_list_blocks == 0 ==> insert::retired_item(header).len() == 0,
        header.segment_list_blocks > 0 ==> {
            let r = insert::retired_item(header);
            &&& r.len() == 1
            &&& r[0].start_block == header.segment_list.block_number
            &&& r[0].num_blocks == header.segment_list_blocks
        },
{
}

/// A scan keeps as many candidates as were asked for, and at least one.
pub proof fn law_scan_keeps_as_many_as_asked_for(top_k: int)
    ensures
        top_k >= 1 ==> probe::kept(top_k) == top_k,
        top_k < 1 ==> probe::kept(top_k) == 1,
{
}

/// The next centroid is drawn by the distances of all vectors to the nearest one
/// chosen so far; a draw that names a vector decides.
pub proof fn law_centroids_are_drawn_by_distance<W: Fn(&Vec<i32>) -> Option<usize>>(
    draw: W,
    dist: spec_fn(usize, usize) -> i32,
    n: int,
    chosen: Seq<usize>,
    c: usize,
) -> (r: (Vec<i32>, Option<usize>))
    requires
        centroid::is_drawn(draw, dist, n, chosen, c),
        0 <= n,
    ensures
        call_ensures(draw, (&r.0,), r.1),
        r.1 is Some ==> r.1->0 == c,
        r.0@.len() == n,
        forall|i: int, j: int|
            #![trigger r.0@[i], chosen[j]]
            0 <= i < n && 0 <= j < chosen.len() ==> r.0@[i] <= dist(i as usize, chosen[j]),
        forall|i: int|
            #![trigger r.0@[i]]
            0 <= i < n ==> r.0@[i] == centroid::MAX_DISTANCE || exists|j: int|
                #![trigger chosen[j]]
                0 <= j < chosen.len() && r.0@[i] == dist(i as usize, chosen[j]),
{
    let (d, drawn) = choose|d: Vec<i32>, drawn: Option<usize>|
        d@ == centroid::min_distances(dist, n, chosen) && #[trigger] call_ensures(
            draw,
            (&d,),
            drawn,
        ) && (drawn is Some ==> drawn->0 == c);
    assert forall|i: int| #![trigger d@[i]] 0 <= i < n implies d@[i] == centroid::min_distance(
        dist,
        chosen,
        i,
    ) by {}
    assert forall|i: int, j: int|
        #![trigger d@[i], chosen[j]]
        0 <= i < n && 0 <= j < chosen.len() implies d@[i] <= dist(i as usize, chosen[j]) by {
        law_min_distance_is_the_smallest(dist, chosen, i);
    }
    assert forall|i: int| #![trigger d@[i]] 0 <= i < n implies d@[i] == centroid::MAX_DISTANCE
        || exists|j: int|
        #![trigger chosen[j]]
        0 <= j < chosen.len() && d@[i] == dist(i as usize, chosen[j]) by {
        law_min_distance_is_the_smallest(dist, chosen, i);
    }
    (d, drawn)
}

/// The distances and means that the rounds go by are those that the given functions
/// return.
pub proof fn law_rounds_go_by_what_is_given<
    D: Fn(usize, &Vec<u32>) -> i32,
    M: Fn(&Vec<usize>, usize) -> Vec<u32>,
>(dist: D, mean: M, n: int, k: int, i: usize, row: Vec<u32>, d: i32, a: Vec<usize>, c: usize, v: Vec<u32>)
    requires
        centroid::is_distance(dist, n),
        centroid::is_mean(mean, n, k),
    ensures
        call_ensures(dist, (i, &row), d) ==> centroid::distances_of(dist)(i as int, row@) == d,
        call_ensures(mean, (&a, c), v) ==> centroid::means_of(mean)(a@, c as int) == v@,
{
    if call_ensures(dist, (i, &row), d) {
        assert(centroid::gives_distance(dist, i, row@, d));
        let e = centroid::distance_from(dist, i, row@);
        assert(centroid::gives_distance(dist, i, row@, e));
    }
    if call_ensures(mean, (&a, c), v) {
        assert(centroid::gives_mean(mean, a@, c, v@));
        let w = centroid::mean_from(mean, a@, c);
        assert(centroid::gives_mean(mean, a@, c, w));
    }
}

/// The sums over transposed codes are those of the codes that were transposed, each
/// capped.
pub proof fn law_sums_are_those_of_the_rows(
    sums: Seq<u16>,
    codes: Seq<u8>,
    n_rows: int,
    code_len: int,
    table: Seq<u8>,
    i: int,
)
    requires
        0 <= code_len,
        codes.len() == n_rows * code_len,
        scan::are_row_sums(
            sums,
            fastscan::transposed(codes, n_rows, code_len),
            n_rows,
            code_len,
            table,
        ),
        0 <= i < n_rows,
    ensures
        sums.len() == n_rows,
        ({
            let sum = fastscan::code_sum(
                codes.subrange(i * code_len, (i + 1) * code_len),
                table,
                code_len,
            );
            sums[i] == if sum <= 65535 {
                sum
            } else {
                65535
            }
        }),
{
    fastscan::law_untranspose_inverts_transpose(codes, n_rows, code_len);
}

/// A new meta page is of this version, holds what it was made of, and points nowhere
/// yet.
pub proof fn law_new_meta_pages_point_nowhere(
    page: IvfMetaPage,
    version: Seq<char>,
    p: IvfBuildParameters,
)
    requires
        page.is_fresh(version, p),
    ensures
        page.magic_number == 0x4956_4600,
        page.version == 2,
        page.num_dimensions == p.num_dimensions,
        page.lists == p.lists,
        page.distance_type == p.distance_type,
        page.rotation_seed == p.rotation_seed,
        page.centroids_pointer.block_number == 0xFFFF_FFFF,
        page.list_directory_pointer.block_number == 0xFFFF_FFFF,
        page.quantizer_metadata.block_number == 0xFFFF_FFFF,
        page.free_list.block_number == 0xFFFF_FFFF,
        page.free_list_blocks == 0,
        page.generation == 0,
{
}

} // verus!
