use pgvectorscale::ivf::entry::{serialize_entries, IvfEntry, IvfEntrySlice};
use pgvectorscale::ivf::free_list::{coalesce, IvfFreeList, IvfFreeRange};
use pgvectorscale::ivf::insert::{
    blocks_to_reserve, count_active, finish_append, finish_seal, must_seal, seal_reserved,
    seal_target, seal_threshold, InsertPhase, InsertUpdate,
};
use pgvectorscale::ivf::list_directory::{IvfListDirectory, IvfListMetadata};
use pgvectorscale::ivf::meta_page::{
    advisory_keys, IvfBuildParameters, IvfMetaPage, IVF_MAGIC_NUMBER, IVF_VERSION,
};
use pgvectorscale::ivf::options::{
    iterative_scan_setting, lists_setting, max_probes_setting, probes_setting, top_k_setting,
    TSVIvfOptions,
};
use pgvectorscale::ivf::probe::{amgettuple, DamagedSegment, SegmentRead};
use pgvectorscale::ivf::scan::{one_bit_sums, two_bit_sums, DistTid, IvfScanState, TopK};
use pgvectorscale::ivf::sealing::{
    join_run, plan_reads, sealed_segment, split_run, IvfEntryWriter, ReadBurst, MAX_READ_BURST,
};
use pgvectorscale::ivf::segment::{
    append_active_entry_bytes, choose_append_target, AppendTarget, IvfActiveBuffer, IvfListHeader,
    IvfSegment, IvfSegmentList, StoredItem,
};
use pgvectorscale::ivf::vacuum::{
    live_entries, merged_segments, must_rewrite, publish_rewrite, readable_segments,
    total_entries, vacuum_list, IvfRetiredRange, ListVacuum, VacuumCounts,
};
use pgvectorscale::quantization::rabitq::RabitqVector;
use pgvectorscale::util::bytes::{push_u16, push_u32, read_u16, read_u32};
use pgvectorscale::util::item_pointer::{ItemPointer, INVALID_BLOCK_NUMBER};
use pgvectorscale::util::page::{
    get_aligned_free_space, get_free_space, tsv_fresh_page_capacity, PageType, TsvPageOpaqueData,
};

fn range(start_block: u32, num_blocks: u32) -> IvfFreeRange {
    IvfFreeRange { start_block, num_blocks }
}

fn header(blocks: u32, active: Option<IvfActiveBuffer>) -> IvfListHeader {
    let mut h = IvfListHeader::new(ItemPointer::new(40, 1), blocks);
    h.active = active;
    h
}

fn entry(block: u32, byte: u8, num_bits: u8) -> IvfEntry {
    let code_len = if num_bits == 1 { 2 } else { 4 };
    IvfEntry::new(
        ItemPointer::new(block, 1),
        RabitqVector {
            dim: 16,
            sum_of_x2: 1.0f32.to_bits(),
            l1_of_rotated: 2.0f32.to_bits(),
            packed_code: vec![byte; code_len],
            num_bits,
            cent_dot: 0,
        },
    )
}

#[test]
fn adjacent_ranges_are_coalesced() {
    let out = coalesce(&vec![range(10, 5), range(0, 3), range(3, 2), range(20, 1)]);
    assert_eq!(out, vec![range(0, 5), range(10, 5), range(20, 1)]);
    assert!(coalesce(&vec![]).is_empty());
}

#[test]
fn reserved_blocks_leave_the_free_list() {
    let mut l = IvfFreeList::new();
    assert!(!l.extend(&vec![]));
    assert!(l.extend(&vec![range(100, 2), range(10, 5)]));
    assert_eq!(l.ranges, vec![range(10, 5), range(100, 2)]);
    assert_eq!(l.take(0), None);
    assert_eq!(l.take(6), None);
    assert_eq!(l.take(3), Some(10));
    assert_eq!(l.ranges, vec![range(13, 2), range(100, 2)]);
    assert!(l.give_back(10, 3));
    assert_eq!(l.ranges, vec![range(10, 5), range(100, 2)]);
    assert!(!l.give_back(7, 0));
    assert_eq!(l.take(5), Some(10));
    assert_eq!(l.ranges, vec![range(100, 2)]);
}

#[test]
fn allocation_needs_a_published_list() {
    let mut meta = IvfMetaPage::create("1.2.3", parameters()).unwrap();
    let mut l = IvfFreeList::new();
    assert!(IvfMetaPage::reclaim_ranges(&mut l, &vec![range(5, 5)]));
    assert_eq!(meta.allocate_range(&mut l, 2), None);
    meta.republish_free_list(ItemPointer::new(9, 1), 1);
    assert_eq!(meta.get_free_list_pointer(), Some(ItemPointer::new(9, 1)));
    assert_eq!(meta.get_free_list_blocks(), 1);
    assert_eq!(meta.allocate_range(&mut l, 2), Some(5));
    assert!(IvfMetaPage::push_back_range(&mut l, 5, 2));
    assert_eq!(l.ranges, vec![range(5, 5)]);
}

fn parameters() -> IvfBuildParameters {
    IvfBuildParameters {
        num_dimensions: 768,
        distance_type: 1,
        lists: 100,
        storage_type: 3,
        bq_num_bits_per_dimension: 4,
        rotation_seed: 42,
    }
}

#[test]
fn meta_pages_need_a_semantic_version() {
    assert!(IvfMetaPage::create("one", parameters()).is_none());
    assert!(IvfMetaPage::create("1.2", parameters()).is_none());
    assert!(IvfMetaPage::create("01.2.3", parameters()).is_none());
    let meta = IvfMetaPage::create("0.8.0-beta.1+build5", parameters()).unwrap();
    assert_eq!(meta.extension_version_when_built, "0.8.0-beta.1+build5");
    assert!(meta.verify());
    assert_eq!(meta.magic_number, IVF_MAGIC_NUMBER);
    assert_eq!(meta.version, IVF_VERSION);
    assert_eq!(meta.get_num_dimensions(), 768);
    assert_eq!(meta.get_distance_type(), 1);
    assert_eq!(meta.get_storage_type(), 3);
    assert_eq!(meta.get_lists(), 100);
    assert_eq!(meta.get_bq_num_bits_per_dimension(), 4);
    assert_eq!(meta.get_rotation_seed(), 42);
    assert_eq!(meta.get_generation(), 0);
    assert_eq!(meta.get_centroids_pointer(), None);
}

#[test]
fn meta_pages_hold_pointers() {
    let mut meta = IvfMetaPage::with_version("1.0.0".to_string(), parameters());
    meta.set_centroids_pointer(ItemPointer::new(2, 1));
    meta.set_list_directory_pointer(ItemPointer::new(1, 1));
    meta.set_quantizer_metadata_pointer(ItemPointer::new(3, 1));
    assert_eq!(meta.get_centroids_pointer(), Some(ItemPointer::new(2, 1)));
    assert_eq!(meta.get_list_directory_pointer(), Some(ItemPointer::new(1, 1)));
    assert_eq!(meta.get_quantizer_metadata_pointer(), Some(ItemPointer::new(3, 1)));
    meta.magic_number = 7;
    assert!(!meta.verify());
    assert_eq!(advisory_keys(17), (0x4956_4630, 17));
}

#[test]
fn buffers_are_sealed_at_the_threshold() {
    assert_eq!(seal_threshold(0), 1);
    assert_eq!(seal_threshold(500), 500);
    let full = IvfActiveBuffer { pages: vec![7, 9], num_entries: 10 };
    assert_eq!(count_active(&Some(IvfActiveBuffer::new(3))), 1);
    assert_eq!(count_active(&None), 0);
    assert_eq!(blocks_to_reserve(9, 10, 8, 16), None);
    assert_eq!(blocks_to_reserve(10, 10, 8, 16), Some(1));
    let h = header(2, Some(full));
    assert!(must_seal(&h, 10));
    assert!(!must_seal(&h, 11));
    assert!(!must_seal(&header(2, None), 1));
}

#[test]
fn reservations_are_used_or_given_back() {
    let r = range(30, 4);
    assert_eq!(seal_target(Some(r), 10, 10), Some(30));
    assert_eq!(seal_target(Some(r), 11, 10), None);
    assert_eq!(seal_target(None, 10, 10), None);
    let (segment, tail) = seal_reserved(r, 3, 10);
    assert_eq!(segment, IvfSegment::new(30, 3, 10));
    assert_eq!(tail, Some(range(33, 1)));
    assert_eq!(seal_reserved(r, 4, 10).1, None);
}

#[test]
fn inserts_seal_a_full_buffer_first() {
    let full = || Some(IvfActiveBuffer { pages: vec![7, 9], num_entries: 10 });
    let item = StoredItem { pointer: ItemPointer::new(50, 1), blocks: 1 };
    let mut u = InsertUpdate::start(header(2, full()), 10, Some(range(30, 4)), 10);
    assert!(matches!(u.phase, InsertPhase::Reading));
    u.buffer_read(10);
    assert!(matches!(u.phase, InsertPhase::SealingAt { count: 10, .. }));
    u.sealed_at(3);
    assert_eq!(u.unused, Some(range(33, 1)));
    assert!(matches!(u.phase, InsertPhase::Loading { .. }));
    u.segments_loaded(vec![IvfSegment::new(1, 2, 5)]);
    match &u.phase {
        InsertPhase::Storing { segments } => {
            assert_eq!(segments, &vec![IvfSegment::new(1, 2, 5), IvfSegment::new(30, 3, 10)]);
        }
        other => panic!("{:?}", other),
    }
    u.segments_stored(item);
    assert_eq!(u.retired, vec![range(40, 2)]);
    assert_eq!(u.header.version, 1);
    assert!(u.header.active.is_none());
    assert!(matches!(u.phase, InsertPhase::Appending));
    u.appended(AppendTarget::Fresh, 77);
    assert!(matches!(u.phase, InsertPhase::Done));
    assert_eq!(u.header.active, Some(IvfActiveBuffer::new(77)));
    // All entries are still there, and the new one.
    let sealed: u64 = u.stored.unwrap().iter().map(|s| s.num_entries).sum();
    assert_eq!(sealed + 1, 5 + 10 + 1);
}

#[test]
fn inserts_fall_back_to_fresh_blocks() {
    let full = Some(IvfActiveBuffer { pages: vec![7, 9], num_entries: 11 });
    let mut u = InsertUpdate::start(header(2, full), 10, Some(range(30, 4)), 10);
    u.buffer_read(11);
    assert!(matches!(u.phase, InsertPhase::SealingFresh));
    assert_eq!(u.unused, Some(range(30, 4)));
    // A seal without entries leaves the segments as they are.
    u.sealed_fresh(sealed_segment(None, 0, 0));
    assert!(matches!(u.phase, InsertPhase::Appending));
    assert!(u.header.active.is_none() && u.stored.is_none() && u.header.version == 0);
    // A buffer below the threshold is appended to.
    let mut u = InsertUpdate::start(header(2, Some(IvfActiveBuffer::new(3))), 10, None, 1);
    assert!(matches!(u.phase, InsertPhase::Appending));
    u.appended(AppendTarget::Tail(3), 3);
    assert_eq!(u.header.active, Some(IvfActiveBuffer { pages: vec![3], num_entries: 2 }));
}

#[test]
fn stored_items_have_limits() {
    assert!(IvfSegmentList::fits_one_page(tsv_fresh_page_capacity() - 1));
    assert!(!IvfSegmentList::fits_one_page(tsv_fresh_page_capacity()));
    assert!(IvfListHeader::can_publish(4095));
    assert!(!IvfListHeader::can_publish(4096));
}

#[test]
fn seals_publish_a_new_segment_list() {
    let mut h = header(2, Some(IvfActiveBuffer::new(3)));
    let stored = StoredItem { pointer: ItemPointer::new(50, 1), blocks: 1 };
    assert_eq!(finish_seal(&mut h, Some(stored)), vec![range(40, 2)]);
    assert_eq!((h.version, h.generation, h.segment_list_blocks), (1, 0, 1));
    assert_eq!(h.segment_list, ItemPointer::new(50, 1));
    assert!(h.active.is_none());
    // The shared empty item is never retired.
    let mut h = header(0, None);
    assert!(finish_seal(&mut h, Some(stored)).is_empty());
    // An empty seal publishes nothing.
    let mut h = header(2, Some(IvfActiveBuffer::new(3)));
    assert!(finish_seal(&mut h, None).is_empty());
    assert_eq!(h.version, 0);
    assert!(h.active.is_none());
}

#[test]
fn appends_go_to_the_tail_while_it_has_room() {
    let active = Some(IvfActiveBuffer { pages: vec![3, 8], num_entries: 5 });
    assert_eq!(choose_append_target(&active, 100, 100, Some(20)), AppendTarget::Tail(8));
    assert_eq!(choose_append_target(&active, 99, 100, Some(20)), AppendTarget::Reserved(20));
    assert_eq!(choose_append_target(&active, 99, 100, None), AppendTarget::Fresh);
    assert_eq!(choose_append_target(&None, 8000, 100, None), AppendTarget::Fresh);
    let mut h = header(2, active);
    assert!(!finish_append(&mut h, AppendTarget::Tail(8), 8));
    assert!(finish_append(&mut h, AppendTarget::Reserved(20), 20));
    let a = h.active.unwrap();
    assert_eq!((a.pages, a.num_entries), (vec![3, 8, 20], 7));
    let (fresh, used) = append_active_entry_bytes(None, AppendTarget::Fresh, 6);
    assert_eq!((fresh, used), (IvfActiveBuffer::new(6), false));
}

#[test]
fn vacuum_keeps_the_live_entries() {
    let entries = vec![entry(1, 1, 1), entry(2, 2, 1), entry(3, 3, 1)];
    let (live, died) = live_entries(entries, &[false, true, false]);
    assert_eq!(died, 1);
    assert_eq!(live, vec![entry(1, 1, 1), entry(3, 3, 1)]);
}

#[test]
fn vacuum_rewrites_lists_that_changed() {
    let mut counts = VacuumCounts { live: 10, dead: 1 };
    let one = vec![IvfSegment::new(5, 1, 2)];
    let two = vec![IvfSegment::new(5, 1, 1), IvfSegment::new(9, 1, 1)];
    let entries = || vec![entry(1, 1, 1), entry(2, 2, 1)];
    match vacuum_list(&one, entries(), &[false, false], &mut counts) {
        ListVacuum::Keep { num_entries } => assert_eq!(num_entries, 2),
        ListVacuum::Rewrite { .. } => panic!("nothing to do"),
    }
    match vacuum_list(&one, entries(), &[true, false], &mut counts) {
        ListVacuum::Rewrite { survivors } => assert_eq!(survivors, vec![entry(2, 2, 1)]),
        ListVacuum::Keep { .. } => panic!("one is dead"),
    }
    match vacuum_list(&two, entries(), &[false, false], &mut counts) {
        ListVacuum::Rewrite { survivors } => assert_eq!(survivors.len(), 2),
        ListVacuum::Keep { .. } => panic!("two segments to merge"),
    }
    assert_eq!(counts, VacuumCounts { live: 15, dead: 2 });
    assert!(must_rewrite(1, 1) && must_rewrite(0, 2) && !must_rewrite(0, 1));
    assert_eq!(total_entries(&two), 2);
}

#[test]
fn a_rewrite_retires_what_it_replaces() {
    let segments = vec![
        IvfSegment::new(5, 2, 10),
        IvfSegment::new(INVALID_BLOCK_NUMBER, 3, 0),
        IvfSegment::new(9, 0, 0),
        IvfSegment::new(20, 1, 4),
    ];
    assert_eq!(readable_segments(&segments).len(), 2);
    let mut h = header(2, Some(IvfActiveBuffer::new(3)));
    h.generation = 6;
    let retired = publish_rewrite(&mut h, &segments, ItemPointer::new(60, 1), 1);
    let r = |start_block, num_blocks| IvfRetiredRange {
        start_block,
        num_blocks,
        retired_generation: 7,
    };
    assert_eq!(retired, vec![r(40, 2), r(5, 2), r(20, 1)]);
    assert_eq!((h.version, h.generation), (1, 7));
    assert_eq!(h.segment_list, ItemPointer::new(60, 1));
    assert!(h.active.is_none());
    assert_eq!(merged_segments(IvfSegment::new(1, 1, 5)), vec![IvfSegment::new(1, 1, 5)]);
    assert!(merged_segments(IvfSegment::new(1, 1, 0)).is_empty());
    assert_eq!(IvfSegmentList::new(segments).segments.len(), 4);
}

#[test]
fn runs_of_pages_hold_a_stream() {
    let stream: Vec<u8> = (0..25).collect();
    let items = split_run(&stream, 10);
    assert_eq!(items.iter().map(|i| i.len()).collect::<Vec<usize>>(), vec![10, 10, 5]);
    assert_eq!(join_run(&items), stream);
    assert!(split_run(&[], 10).is_empty());
    assert_eq!(
        plan_reads(2500, MAX_READ_BURST),
        vec![
            ReadBurst { first: 0, count: 1024 },
            ReadBurst { first: 1024, count: 1024 },
            ReadBurst { first: 2048, count: 452 },
        ]
    );
    assert!(plan_reads(0, 8).is_empty());
}

#[test]
fn writers_seal_their_entries() {
    let mut w = IvfEntryWriter::new(3);
    assert!(w.finish(&[], &[], 100).is_empty());
    w.add_entry(entry(1, 0xAA, 1));
    w.add_entry(entry(2, 0x55, 1));
    let items = w.finish(&[1, 2], &[3, 4], 50);
    let stream = join_run(&items);
    assert!(items.len() > 1);
    let view = IvfEntrySlice::parse(&stream);
    assert_eq!(view.len(), 2);
    assert_eq!(view.tid(1), ItemPointer::new(2, 1));
    assert_eq!((view.scale(0), view.margin_factor(1)), (1, 4));
    assert_eq!(view.dim(), 16);
    assert_eq!(sealed_segment(Some(4), 2, 2), IvfSegment::new(4, 2, 2));
    assert_eq!(sealed_segment(None, 0, 0).start_page, INVALID_BLOCK_NUMBER);
    assert!(sealed_segment(None, 0, 0).is_empty());
}

fn cand(dist: i32, block: u32) -> DistTid {
    DistTid { dist, tid: ItemPointer::new(block, 1) }
}

#[test]
fn the_best_candidates_are_kept() {
    let mut t = TopK::new(2);
    for c in [cand(5, 1), cand(3, 2), cand(9, 3), cand(5, 0), cand(4, 4)] {
        t.offer(c);
    }
    assert_eq!(t.items, vec![cand(3, 2), cand(4, 4)]);
    assert_eq!(TopK::new(0).k, 1);
}

#[test]
fn scans_return_their_results_in_order() {
    let mut s = IvfScanState::new();
    assert_eq!(s.probes, 10);
    s.rescan(3);
    assert_eq!((s.probes, s.results_computed), (3, false));
    let mut t = TopK::new(5);
    t.offer(cand(2, 2));
    t.offer(cand(1, 1));
    s.set_results(t);
    assert!(s.results_computed);
    assert_eq!(s.next_result(), Some(cand(1, 1)));
    assert_eq!(s.next_result(), Some(cand(2, 2)));
    assert_eq!(s.next_result(), None);
}

/// A segment of entries with the given rows, all at the given distances.
fn segment_read(rows: &[(u32, i32)]) -> SegmentRead {
    let entries: Vec<IvfEntry> = rows.iter().map(|&(row, _)| entry(row, 0xAA, 1)).collect();
    let factors = vec![0u32; rows.len()];
    SegmentRead {
        stream: serialize_entries(&entries, &factors, &factors),
        distances: rows.iter().map(|&(_, d)| d).collect(),
    }
}

#[test]
fn a_scan_hands_out_the_best_entries_of_the_probed_lists() {
    let calls = std::cell::RefCell::new(Vec::new());
    // The second list has no centroid near by, the third one nothing published.
    let distances = || vec![5, 90, 7, 6];
    let open = |list: usize| match list {
        0 => Some(vec![
            IvfSegment::new(10, 1, 2),
            IvfSegment::new(INVALID_BLOCK_NUMBER, 0, 0),
            IvfSegment::new(11, 1, 1),
        ]),
        1 => Some(vec![IvfSegment::new(20, 1, 1)]),
        2 => None,
        _ => Some(vec![IvfSegment::new(30, 1, 1)]),
    };
    let read = |list: usize, s: IvfSegment| {
        calls.borrow_mut().push((list, s.start_page));
        match s.start_page {
            10 => segment_read(&[(1, 40), (2, 10)]),
            11 => segment_read(&[(3, 30)]),
            20 => segment_read(&[(4, 0)]),
            _ => segment_read(&[(5, 20)]),
        }
    };
    let mut s = IvfScanState::new();
    s.rescan(3);
    let mut rows = Vec::new();
    while let Some(t) = amgettuple(&mut s, 3, &distances, &open, &read).unwrap() {
        assert!(t.recheck_order_by && !t.recheck);
        rows.push((t.heap_tid.block_number, t.distance));
    }
    assert_eq!(rows, vec![(2, 10), (5, 20), (3, 30)]);
    assert_eq!(amgettuple(&mut s, 3, &distances, &open, &read), Ok(None));
    // The lists were read once, the nearest first.
    assert_eq!(*calls.borrow(), vec![(0, 10), (0, 11), (3, 30)]);
    s.rescan(1);
    let first = amgettuple(&mut s, 0, &distances, &open, &read).unwrap().unwrap();
    assert_eq!(first.distance, 10);
    assert_eq!(amgettuple(&mut s, 0, &distances, &open, &read), Ok(None));
}

#[test]
fn a_damaged_segment_fails_the_scan() {
    let distances = || vec![1];
    let open = |_: usize| Some(vec![IvfSegment::new(10, 1, 1)]);
    let bad_stream = |_: usize, _: IvfSegment| SegmentRead { stream: vec![1, 2], distances: vec![] };
    let mut s = IvfScanState::new();
    assert_eq!(amgettuple(&mut s, 3, &distances, &open, &bad_stream), Err(DamagedSegment));
    assert!(!s.results_computed);
    let few = |_: usize, _: IvfSegment| SegmentRead {
        distances: vec![],
        ..segment_read(&[(1, 1)])
    };
    assert_eq!(amgettuple(&mut s, 3, &distances, &open, &few), Err(DamagedSegment));
    let empty = |_: usize, _: IvfSegment| SegmentRead { stream: vec![], distances: vec![] };
    assert_eq!(amgettuple(&mut s, 3, &distances, &open, &empty), Ok(None));
}

#[test]
fn views_are_offered_whole() {
    let mut w = IvfEntryWriter::new(0);
    w.add_entry(entry(8, 0xFF, 1));
    w.add_entry(entry(9, 0x01, 1));
    let stream = join_run(&w.finish(&[0, 0], &[0, 0], 1000));
    let view = IvfEntrySlice::parse(&stream);
    let mut t = TopK::new(1);
    t.offer_view(&view, &[7, 6]);
    assert_eq!(t.items, vec![cand(6, 9)]);
    // Every lookup counts one: 4 of them for two bytes of code.
    assert_eq!(one_bit_sums(&view, &[1u8; 64]), vec![4, 4]);
    let table: Vec<u8> = (0..64).map(|i| if i % 16 == 15 { 1 } else { 0 }).collect();
    assert_eq!(one_bit_sums(&view, &table), vec![4, 0]);
}

#[test]
fn two_bit_codes_have_two_sums() {
    let mut w = IvfEntryWriter::new(0);
    // All sign bits, no level bits.
    w.add_entry(entry(8, 0b0101_0101, 2));
    let stream = join_run(&w.finish(&[0], &[0], 1000));
    let view = IvfEntrySlice::parse(&stream);
    let table: Vec<u8> = (0..64).map(|i| if i % 16 == 15 { 1 } else { 0 }).collect();
    let (signs, levels) = two_bit_sums(&view, &table);
    assert_eq!((signs[0], levels[0]), (4, 0));
}

#[test]
fn list_directories_count_tuples() {
    let mut d = IvfListDirectory::new(3);
    assert_eq!(d.num_lists(), 3);
    assert_eq!(d.get_list(2).unwrap().centroid_offset, 2);
    assert!(d.get_list(3).is_none());
    d.get_list_mut(1).unwrap().num_tuples = 5;
    assert!(!d.get_list(1).unwrap().is_empty());
    assert!(IvfListMetadata::new(4).is_empty());
    assert!(!IvfListMetadata::new(4).header.is_valid());
}

#[test]
fn settings_have_bounds() {
    assert!(probes_setting().accepts(1) && !probes_setting().accepts(0));
    assert!(iterative_scan_setting().accepts(1) && !iterative_scan_setting().accepts(2));
    assert_eq!(max_probes_setting().default_value, 32768);
    assert!(!top_k_setting().accepts(1_000_001));
    assert_eq!(TSVIvfOptions::defaults().get_lists(), lists_setting().default_value);
}

#[test]
fn page_types_have_numbers() {
    for n in 0..24u8 {
        assert_eq!(PageType::from_u8(n).to_u8(), n);
    }
    assert!(PageType::IvfMeta.is_chained());
    assert!(!PageType::RabitqNode.is_chained());
    let mut d = TsvPageOpaqueData::new(PageType::IvfEntry);
    assert!(d.verify());
    d.page_type = 24;
    assert!(!d.verify());
    assert_eq!(get_free_space(24, 27), 0);
    assert_eq!(get_free_space(24, 1000), 972);
    assert_eq!(get_aligned_free_space(24, 1000), 968);
    assert_eq!(tsv_fresh_page_capacity(), 8152);
}

#[test]
fn numbers_are_little_endian() {
    let mut buf = vec![];
    push_u16(&mut buf, 0x0102);
    push_u32(&mut buf, 0x0304_0506);
    assert_eq!(buf, vec![2, 1, 6, 5, 4, 3]);
    assert_eq!(read_u16(&buf, 0), 0x0102);
    assert_eq!(read_u32(&buf, 2), 0x0304_0506);
}
