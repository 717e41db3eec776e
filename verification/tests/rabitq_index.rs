use pgvectorscale::hnswsq::types::{pack_tid, Visited};
use pgvectorscale::labels::LabelSet;
use pgvectorscale::quantization::rabitq::{RabitqQuantizer as CodeQuantizer, RabitqVector};
use pgvectorscale::rabitq::cache::{RabitqCodeCache, RabitqVectorCache};
use pgvectorscale::rabitq::codes::{code_l1, code_products, nibble_pair, CodeProducts};
use pgvectorscale::rabitq::node::{ArchivedRabitqNode, RabitqNode, ReadableRabitqNode};
use pgvectorscale::rabitq::quantize::{
    encode_ex_code, ex_code_packed_len, pack_ex_code, pack_sign_bits, unpack_ex_code,
    RabitqCode, RabitqQuantizer, BITS_STORE_TYPE_SIZE,
};
use pgvectorscale::rabitq::rotation::{
    fast_rotation_signs_len, flip_round_signs, load_rotation_input, random_fast_rotation_signs,
    round_window, window_len, RoundWindow, FAST_ROTATION_ROUNDS,
};
use pgvectorscale::rabitq::storage::RabitqSpeedupStorage;
use pgvectorscale::rabitq::RabitqQuantizerMetadata;
use pgvectorscale::util::item_pointer::{ItemPointer, INVALID_BLOCK_NUMBER};
use pgvectorscale::util::page::PageType;
use rand::rngs::SmallRng;
use rand::SeedableRng;

const L2: u16 = 1;

fn bits(v: &[f32]) -> Vec<u32> {
    v.iter().map(|x| x.to_bits()).collect()
}

fn tid(block: u32) -> ItemPointer {
    ItemPointer::new(block, 1)
}

/// The float half of a rotation; the library gives windows and signs.
fn apply_fast_rotation(input: &[f32], dim: usize, signs: &Vec<u8>) -> Vec<f32> {
    let mut values = load_rotation_input(&bits(input), dim);
    if dim == 0 {
        return vec![];
    }
    let mut out: Vec<f32> = vec![];
    for round in 0..FAST_ROTATION_ROUNDS {
        flip_round_signs(&mut values, signs, round);
        out = values.iter().map(|&b| f32::from_bits(b)).collect();
        let w = round_window(dim, round);
        let window = &mut out[w.start..w.start + w.len];
        let mut half = 1;
        while half < window.len() {
            for block in window.chunks_exact_mut(2 * half) {
                for i in 0..half {
                    let (x, y) = (block[i], block[i + half]);
                    block[i] = x + y;
                    block[i + half] = x - y;
                }
            }
            half *= 2;
        }
        let scale = 1.0 / (w.len as f32).sqrt();
        for x in window.iter_mut() {
            *x *= scale;
        }
        if w.mixes_halves {
            for i in 0..dim / 2 {
                let (x, y) = (out[i], out[i + dim / 2]);
                out[i] = x + y;
                out[i + dim / 2] = x - y;
            }
            if round + 1 == FAST_ROTATION_ROUNDS {
                for x in out.iter_mut() {
                    *x *= 0.25;
                }
            }
        }
        values = bits(&out);
    }
    out
}

fn node(labels: Option<Vec<u16>>, num_neighbors: u32) -> RabitqNode {
    RabitqNode::with_meta(
        ItemPointer::new(77, 3),
        num_neighbors,
        labels.is_some(),
        &vec![1, 2, 3],
        10,
        20,
        30,
        labels.map(|l| LabelSet { labels: l }),
    )
}

#[test]
fn test_fast_rotation_sign_bytes() {
    let mut rng = SmallRng::seed_from_u64(42);
    assert_eq!(random_fast_rotation_signs(128, &mut rng).len(), 64);
    assert_eq!(random_fast_rotation_signs(130, &mut rng).len(), 68);
}

#[test]
fn test_fast_rotation_preserves_shape() {
    let mut rng = SmallRng::seed_from_u64(7);
    let input = vec![1.0f32; 129];
    let signs = random_fast_rotation_signs(129, &mut rng);
    let output = apply_fast_rotation(&input, 129, &signs);
    assert_eq!(output.len(), 129);
}

#[test]
fn test_rotation_preserves_inner_product_power_of_two() {
    let mut rng = SmallRng::seed_from_u64(1);
    let dim = 1024;
    let signs = random_fast_rotation_signs(dim, &mut rng);
    let x: Vec<f32> = (0..dim).map(|i| (i as f32).sin()).collect();
    let y: Vec<f32> = (0..dim).map(|i| (i as f32).cos()).collect();
    let rx = apply_fast_rotation(&x, dim, &signs);
    let ry = apply_fast_rotation(&y, dim, &signs);
    let dot = |a: &[f32], b: &[f32]| a.iter().zip(b).map(|(a, b)| a * b).sum::<f32>();
    let (dx, dy) = (dot(&rx, &rx), dot(&ry, &ry));
    let (ox, oy) = (dot(&x, &x), dot(&y, &y));
    assert!((dx - ox).abs() / ox < 0.1);
    assert!((dy - oy).abs() / oy < 0.1);
}

#[test]
fn random_signs_are_random() {
    let mut rng = SmallRng::seed_from_u64(3);
    let a = random_fast_rotation_signs(256, &mut rng);
    let b = random_fast_rotation_signs(256, &mut rng);
    assert_ne!(a, b);
    assert!(a.iter().any(|&x| x != 0));
}

#[test]
fn windows_alternate_between_head_and_tail() {
    assert_eq!(window_len(1), 1);
    assert_eq!(window_len(128), 128);
    assert_eq!(window_len(130), 128);
    assert_eq!(round_window(130, 0), RoundWindow { start: 0, len: 128, mixes_halves: true });
    assert_eq!(round_window(130, 1), RoundWindow { start: 2, len: 128, mixes_halves: true });
    assert_eq!(round_window(64, 3), RoundWindow { start: 0, len: 64, mixes_halves: false });
    assert_eq!(fast_rotation_signs_len(0), 0);
}

#[test]
fn rounds_use_their_own_signs() {
    // Nine dimensions take two bytes of signs per round.
    let mut signs = vec![0u8; 8];
    signs[2] = 0b1;
    signs[3] = 0b1;
    let mut v = bits(&[1.0; 9]);
    flip_round_signs(&mut v, &signs, 0);
    assert_eq!(v, bits(&[1.0; 9]));
    flip_round_signs(&mut v, &signs, 1);
    assert_eq!(v, bits(&[-1.0, 1.0, 1.0, 1.0, 1.0, 1.0, 1.0, 1.0, -1.0]));
    assert_eq!(load_rotation_input(&bits(&[2.0, 3.0]), 3), bits(&[2.0, 3.0, 0.0]));
    assert_eq!(load_rotation_input(&bits(&[2.0, 3.0]), 1), bits(&[2.0]));
}

#[test]
fn test_pack_sign_bits_round_trip() {
    let rotated = vec![1.0f32, -1.0, 3.0, -4.0, 0.0, 2.0, -7.0, 8.0];
    let code = pack_sign_bits(&bits(&rotated));
    assert_eq!(code.len(), 1);
    assert_eq!(code[0] & 0b0000_0001, 1);
    assert_eq!(code[0] & 0b0000_0010, 0);
    assert_eq!(code[0] & 0b0000_0100, 4);
    assert_eq!(code[0] & 0b0000_1000, 0);
    assert_eq!(code[0] & 0b0001_0000, 16);
    assert_eq!(code[0] & 0b0010_0000, 32);
    assert_eq!(code[0] & 0b0100_0000, 0);
    assert_eq!(code[0] & 0b1000_0000, 128);
}

#[test]
fn signs_go_on_in_the_next_word() {
    let mut rotated = vec![-1.0f32; 66];
    rotated[64] = 1.0;
    let code = pack_sign_bits(&bits(&rotated));
    assert_eq!(code, vec![0, 1]);
    assert_eq!(BITS_STORE_TYPE_SIZE, 64);
    assert_eq!(pack_sign_bits(&bits(&[-0.0, f32::NAN])), vec![1]);
}

#[test]
fn test_binary_dot_matches_reference() {
    let q = vec![1.0f32, 2.0, 3.0, 4.0, 5.0, 6.0, 7.0, 8.0];
    let code = pack_sign_bits(&bits(&[1.0, -1.0, 1.0, -1.0, 1.0, 1.0, -1.0, 1.0]));
    let dot: f32 = (0..8).filter(|i| code[0] >> i & 1 == 1).map(|i| q[i]).sum();
    assert_eq!(dot, 23.0);
}

#[test]
fn test_ex_dot_byte_packed() {
    let q = vec![1.0f32, 2.0, 3.0, 4.0];
    let ex = pack_ex_code(&vec![2u8, 3, 5, 7], 7);
    let dot: f32 = (0..4).map(|i| unpack_ex_code(&ex, 7, i) as f32 * q[i]).sum();
    assert_eq!(dot, 51.0);
}

#[test]
fn nibble_packed_codes_unpack() {
    let ex = pack_ex_code(&vec![2u8, 3, 5], 3);
    assert_eq!(ex, vec![0x32, 0x05]);
    assert_eq!((0..3).map(|i| unpack_ex_code(&ex, 3, i)).collect::<Vec<u8>>(), vec![2, 3, 5]);
}

#[test]
fn levels_count_downwards_below_zero() {
    let rotated = bits(&[1.0, -1.0, -0.0, -2.0]);
    let packed = encode_ex_code(&rotated, &vec![3, 3, 3, 7], 3);
    let codes: Vec<u8> = (0..4).map(|i| unpack_ex_code(&packed, 3, i)).collect();
    assert_eq!(codes, vec![3, 4, 3, 0]);
    let packed = encode_ex_code(&rotated, &vec![3, 3, 3, 127], 7);
    assert_eq!(packed, vec![3, 124, 3, 0]);
}

#[test]
fn test_quantize_multibit_produces_ex_codes() {
    let dim = 64;
    let rotated: Vec<f32> = (0..dim).map(|i| (i as f32).cos()).collect();
    let levels: Vec<u8> = rotated.iter().map(|x| (x.abs() * 7.0) as u8).collect();
    let code4 = encode_ex_code(&bits(&rotated), &levels, 3);
    let code8 = encode_ex_code(&bits(&rotated), &levels, 7);
    assert_eq!(code4.len(), dim / 2);
    assert_eq!(code8.len(), dim);
    assert_eq!(ex_code_packed_len(dim, 3), dim / 2);
    assert_eq!(ex_code_packed_len(dim, 7), dim);
    assert_eq!(ex_code_packed_len(5, 3), 3);
}

#[test]
fn quantizers_train_and_load() {
    let mut q = RabitqQuantizer::new_with_distance_type(L2, 4);
    assert_eq!(q.get_ex_bits(), 3);
    q.start_training(3);
    assert!(q.training);
    assert_eq!(q.mean, vec![0, 0, 0]);
    q.add_sample(bits(&[1.0, 2.0, 3.0]));
    assert_eq!(q.count, 1);
    assert_eq!(q.mean, bits(&[1.0, 2.0, 3.0]));
    q.finish_training();
    assert!(!q.training);
    q.set_rotation_signs(vec![7]);
    assert_eq!(q.rotation_signs, vec![7]);
    q.load(5, vec![1], vec![2], 8);
    assert_eq!((q.count, q.get_ex_bits()), (5, 7));
    assert_eq!(q.distance_type, L2);
}

#[test]
fn code_l1_unpacks_nibbles() {
    // Low halves differ by one, high halves by one the other way.
    assert_eq!(code_l1(&vec![0x21], &vec![0x12], 4), 2);
    assert_eq!(code_l1(&vec![0x0F], &vec![0x01], 4), 2);
    assert_eq!(code_l1(&vec![0xFF], &vec![0x01], 8), 2);
    assert_eq!(code_l1(&vec![0x80, 5], &vec![0x7F, 5], 8), 255);
    assert_eq!(nibble_pair(0x8F), (-1, -8));
    assert_eq!(nibble_pair(0x71), (1, 7));
}

#[test]
fn code_products_are_those_of_the_factors() {
    // Factors -7.5 and 7.5 of the four-bit codes 0 and 15.
    let p = code_products(&vec![0xF0], &vec![0x0F], 4);
    assert_eq!(p, CodeProducts { dot: -450, norm_a: 450, norm_b: 450 });
    let p = code_products(&vec![128], &vec![130], 8);
    assert_eq!(p, CodeProducts { dot: 5, norm_a: 1, norm_b: 25 });
}

#[test]
fn new_nodes_have_room_for_their_neighbors() {
    let n = node(None, 3);
    let readable = n.read();
    let archived = readable.get_archived_node();
    assert_eq!(archived.num_neighbors(), 0);
    assert!(archived.get_labels().is_none());
    assert_eq!(archived.get_heap_item_pointer(), ItemPointer::new(77, 3));
    assert!(!archived.is_deleted());
    let data = archived.get_rabitq_data();
    assert_eq!(data.code, &vec![1, 2, 3]);
    assert_eq!((data.l1_of_rotated, data.sum_of_x2, data.cent_dot), (10, 20, 30));
    match &n {
        RabitqNode::Classic(c) => assert_eq!(c.get_index_pointer_to_neighbors().len(), 3),
        RabitqNode::Labeled(_) => panic!("no labels were asked for"),
    }
}

#[test]
fn labels_default_to_none() {
    let n = RabitqNode::with_meta(tid(1), 1, true, &vec![], 0, 0, 0, None);
    let readable = n.read();
    assert!(readable.get_archived_node().get_labels().unwrap().labels.is_empty());
    let n = node(Some(vec![4, 5]), 1);
    let readable = n.read();
    assert_eq!(readable.get_archived_node().get_labels().unwrap().labels, vec![4, 5]);
}

#[test]
fn written_neighbors_read_back() {
    for labels in [None, Some(vec![1])] {
        let mut w = node(labels, 4).modify();
        {
            let mut archived = w.get_archived_node();
            archived.set_neighbors(&vec![tid(1), tid(2), tid(3), tid(4)], 4);
            assert_eq!(archived.num_neighbors(), 4);
            archived.set_neighbors(&vec![tid(8), tid(9)], 4);
            assert_eq!(archived.iter_neighbors(), vec![tid(8), tid(9)]);
            assert_eq!(archived.get_index_pointer_to_neighbors().len(), 2);
            assert!(!archived.is_deleted());
        }
        let n = w.commit();
        let readable = n.read();
        let archived = readable.get_archived_node();
        assert_eq!(archived.iter_neighbors(), vec![tid(8), tid(9)]);
        assert_eq!(archived.get_index_pointer_to_neighbors(), vec![tid(8), tid(9)]);
    }
}

#[test]
fn deleted_nodes_point_to_no_row() {
    let mut n = node(None, 2);
    if let RabitqNode::Classic(c) = &mut n {
        assert!(!c.is_deleted());
        c.delete();
        assert!(c.is_deleted());
        assert_eq!(c.get_heap_item_pointer().block_number, INVALID_BLOCK_NUMBER);
        assert_eq!(c.code, vec![1, 2, 3]);
        assert!(ArchivedRabitqNode::Classic(c).is_deleted());
    }
    let mut n = node(Some(vec![]), 2);
    if let RabitqNode::Labeled(l) = &mut n {
        l.delete();
        assert!(l.is_deleted());
        assert!(ReadableRabitqNode::Labeled(l).get_archived_node().is_deleted());
    }
}

#[test]
fn storage_writes_neighbors() {
    let s = RabitqSpeedupStorage { num_bits: 1, has_labels: false, num_neighbors: 3 };
    assert_eq!(s.quantizer_num_bits(), 1);
    assert!(!s.get_has_labels());
    assert_eq!(RabitqSpeedupStorage::page_type(), PageType::RabitqNode);
    assert_eq!(RabitqSpeedupStorage::rabitq_vec_len(1500), 256);
    let qv = RabitqVector {
        dim: 8,
        sum_of_x2: 1,
        l1_of_rotated: 2,
        packed_code: vec![9],
        num_bits: 1,
        cent_dot: 3,
    };
    let n = s.create_node(&qv, None, tid(5));
    let n = s.set_neighbors_on_disk(n, &vec![tid(6)]);
    let readable = n.read();
    let archived = readable.get_archived_node();
    assert_eq!(archived.iter_neighbors(), vec![tid(6)]);
    assert_eq!(RabitqSpeedupStorage::return_lsn(&archived), tid(5));
    assert!(s.get_labels(&archived).is_none());
    let n = s.finalize_node_at_end_of_build(n, &vec![]);
    assert_eq!(n.read().get_archived_node().num_neighbors(), 0);
    assert_eq!(
        RabitqSpeedupStorage::preload_order(&vec![tid(1), tid(2)], tid(3)),
        vec![tid(1), tid(2), tid(3)]
    );
}

#[test]
fn nodes_are_visited_once() {
    let s = RabitqSpeedupStorage { num_bits: 1, has_labels: true, num_neighbors: 4 };
    let n = s.set_neighbors_on_disk(
        node(Some(vec![3]), 4),
        &vec![tid(1), tid(2), tid(1), tid(3)],
    );
    let readable = n.read();
    let archived = readable.get_archived_node();
    assert_eq!(s.get_labels(&archived).unwrap().labels, vec![3]);
    let mut met = Visited::new(4);
    assert!(RabitqSpeedupStorage::create_lsn_for_start_node(tid(2), &mut met));
    assert!(!RabitqSpeedupStorage::create_lsn_for_start_node(tid(2), &mut met));
    let unmet = RabitqSpeedupStorage::unmet_neighbors(&archived, &mut met);
    assert_eq!(unmet, vec![tid(1), tid(3)]);
    assert!(met.contains(pack_tid(tid(3))));
    assert!(RabitqSpeedupStorage::unmet_neighbors(&archived, &mut met).is_empty());
}

#[test]
fn searches_take_nodes_that_share_a_label() {
    let set = |l: Vec<u16>| Some(LabelSet { labels: l });
    let labels = vec![set(vec![1, 2]), set(vec![3]), set(vec![])];
    let query = set(vec![2, 3]);
    assert_eq!(RabitqSpeedupStorage::visit_lsn(&query, &labels, false), vec![0, 1]);
    assert_eq!(RabitqSpeedupStorage::visit_lsn(&set(vec![3]), &labels, false), vec![1]);
    assert_eq!(RabitqSpeedupStorage::visit_lsn(&query, &labels, true), vec![0, 1, 2]);
    assert_eq!(RabitqSpeedupStorage::visit_lsn(&None, &vec![None, None], false), vec![0, 1]);
}

#[test]
fn sign_agreement_counts_both_ways() {
    assert_eq!(RabitqSpeedupStorage::sign_agreement(&vec![0xFF], &vec![0x0F]), 0);
    assert_eq!(RabitqSpeedupStorage::sign_agreement(&vec![0xFF], &vec![0xFF]), 8);
    assert_eq!(RabitqSpeedupStorage::sign_agreement(&vec![0xFF], &vec![0x00]), -8);
}

#[test]
fn caches_drop_what_was_used_longest_ago() {
    let mut c = RabitqVectorCache::new(0, 3, 2);
    assert_eq!(c.cache.capacity, 2);
    let n = node(None, 1);
    let readable = n.read();
    let data = readable.get_archived_node().get_rabitq_data();
    assert!(c.is_missing(tid(1)));
    c.preload(tid(1), data);
    c.preload(tid(2), data);
    assert_eq!(c.get(tid(1)).code, vec![1, 2, 3]);
    c.preload(tid(3), data);
    assert!(c.is_missing(tid(2)));
    assert!(!c.is_missing(tid(1)));
    assert_eq!(c.get(tid(3)).sum_of_x2, 20);
    c.preload(tid(3), data);
    assert_eq!(c.cache.items.len(), 2);
}

#[test]
fn code_caches_read_what_is_missing() {
    let reads = std::cell::RefCell::new(Vec::new());
    let read = |p: ItemPointer| {
        reads.borrow_mut().push(p);
        RabitqCode {
            code: vec![p.block_number as u64],
            ex_code: vec![],
            f_add: 0,
            f_rescale: 0,
            f_add_ex: 0,
            f_rescale_ex: 0,
        }
    };
    let mut c = RabitqCodeCache::new(0, 1, 2);
    c.preload(&vec![tid(1), tid(2), tid(1)], &read);
    assert_eq!(*reads.borrow(), vec![tid(1), tid(2)]);
    assert_eq!(c.get(tid(1), &read).code, vec![tid(1).block_number as u64]);
    // The second one was used longest ago.
    assert_eq!(c.get(tid(3), &read).code, vec![tid(3).block_number as u64]);
    let _ = c.get(tid(1), &read);
    assert_eq!(*reads.borrow(), vec![tid(1), tid(2), tid(3)]);
    let _ = c.get(tid(2), &read);
    assert_eq!(*reads.borrow(), vec![tid(1), tid(2), tid(3), tid(2)]);
    assert_eq!(c.cache.items.len(), 2);
}

#[test]
fn cache_capacities() {
    assert_eq!(RabitqVectorCache::new(5600, 12, 10).cache.capacity, 100);
    assert_eq!(RabitqVectorCache::new(560, 12, 50).cache.capacity, 50);
    assert_eq!(RabitqCodeCache::entry_size(2), 104);
    assert_eq!(RabitqCodeCache::new(1040, 2, 3).cache.capacity, 10);
}

#[test]
fn quantizers_are_stored_and_loaded() {
    let q = CodeQuantizer::new(4, 99, 100).with_center(vec![5, 6]);
    let m = RabitqQuantizerMetadata::store(&q);
    assert_eq!(m.dim, 128);
    let back = m.load();
    assert_eq!(back.num_bits, 4);
    assert_eq!(back.rotation_seed(), 99);
    assert_eq!(back.dim(), 128);
    assert_eq!(back.center, vec![5, 6]);
}
