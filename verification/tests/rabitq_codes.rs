use pgvectorscale::quantization::rabitq::{
    code_hamming, encode, flip_rotation_signs, flip_signs, pack_code, padded_dim, rotation_signs,
    unpack_code, RabitqFastScan, RabitqQuantizer, RabitqVector,
};
use pgvectorscale::quantization::rabitq_fastscan::{
    sum_batch, transpose_1bit, untranspose_1bit, BATCH_SIZE,
};
use pgvectorscale::quantization::{
    InvalidQuantizerType, QuantizedVector, QuantizerMetadata, QuantizerType,
};
use rand::rngs::SmallRng;
use rand::{Rng, SeedableRng};

fn fwht(values: &mut [f32]) {
    let mut half = 1usize;
    while half < values.len() {
        let step = half * 2;
        for block in values.chunks_exact_mut(step) {
            let (left, right) = block.split_at_mut(half);
            for (x, y) in left.iter_mut().zip(right.iter_mut()) {
                let (a, b) = (*x, *y);
                *x = a + b;
                *y = a - b;
            }
        }
        half = step;
    }
}

/// Rotate a vector: the library gives the signs.
fn rotate(v: &[f32], seed: u64) -> Vec<f32> {
    let mut bits: Vec<u32> = v.iter().map(|x| x.to_bits()).collect();
    bits.resize(padded_dim(v.len()), 0);
    flip_rotation_signs(&mut bits, v.len(), seed);
    let mut values: Vec<f32> = bits.iter().map(|&b| f32::from_bits(b)).collect();
    fwht(&mut values);
    let scale = 1.0 / (values.len() as f32).sqrt();
    values.iter().map(|x| x * scale).collect()
}

fn top_level(num_bits: u8) -> u32 {
    match num_bits {
        2 | 4 | 8 => (1u32 << (num_bits - 1)) - 1,
        _ => 0,
    }
}

/// Quantize a vector; levels are spread evenly up to the largest value.
fn quantize(q: &RabitqQuantizer, v: &[f32]) -> RabitqVector {
    let rotated = rotate(v, q.rotation_seed());
    let sum_of_x2: f32 = v.iter().map(|x| x * x).sum();
    let top = top_level(q.num_bits);
    let max = rotated.iter().fold(1e-9f32, |m, x| m.max(x.abs()));
    let levels: Vec<u8> =
        rotated.iter().map(|x| (x.abs() / max * top as f32 + 0.5) as u8).collect();
    let bits: Vec<u32> = rotated.iter().map(|x| x.to_bits()).collect();
    let packed_code = pack_code(q.num_bits, &bits, &levels);
    let l1: f32 = if top == 0 {
        rotated.iter().map(|x| x.abs()).sum()
    } else {
        let bias = -(top as f32 + 0.5);
        (0..rotated.len())
            .map(|i| (unpack_code(q.num_bits, &packed_code, i) as f32 + bias) * rotated[i])
            .sum()
    };
    RabitqVector {
        dim: q.dim() as u32,
        sum_of_x2: sum_of_x2.to_bits(),
        l1_of_rotated: l1.to_bits(),
        packed_code,
        num_bits: q.num_bits,
        cent_dot: 0.0f32.to_bits(),
    }
}

fn approx(a: f32, b: f32, eps: f32) -> bool {
    (a - b).abs() <= eps
}

/// The dot product of a code with a rotated vector.
fn dot_with_rotated(num_bits: u8, code: &Vec<u8>, rot: &[f32]) -> f32 {
    let bias = if num_bits == 1 { -0.5 } else { -(top_level(num_bits) as f32 + 0.5) };
    let scale = if num_bits == 1 { 2.0 } else { 1.0 };
    (0..rot.len()).map(|i| scale * (unpack_code(num_bits, code, i) as f32 + bias) * rot[i]).sum()
}

fn estimate_l2(q: &RabitqQuantizer, qv: &RabitqVector, rot: &[f32], query_sum_of_x2: f32) -> f32 {
    let sum_of_x2 = f32::from_bits(qv.sum_of_x2);
    let res_dot = f32::from_bits(qv.l1_of_rotated).max(1e-9);
    let full_dot = dot_with_rotated(qv.num_bits, &qv.packed_code, rot);
    let est = full_dot * (-2.0 * sum_of_x2 / res_dot) + sum_of_x2 + query_sum_of_x2;
    let margin = 2.0 * sum_of_x2.sqrt() * query_sum_of_x2.sqrt() / (q.dim() as f32).sqrt();
    (est - margin).max(0.0)
}

fn quantize_table(table: &[f32]) -> (Vec<u8>, f32, f32) {
    let min = table.iter().copied().fold(f32::INFINITY, f32::min);
    let max = table.iter().copied().fold(f32::NEG_INFINITY, f32::max);
    let range = max - min;
    let factor = if range > 0.0 { 255.0 / range } else { 0.0 };
    let q = table.iter().map(|v| ((v - min) * factor).round() as u8).collect();
    (q, min, range / 255.0)
}

fn subset_sums(rot: &[f32]) -> Vec<f32> {
    rot.chunks_exact(4)
        .flat_map(|c| {
            (0..16usize)
                .map(|j| (0..4).filter(|k| j >> k & 1 == 1).map(|k| c[k]).sum())
                .collect::<Vec<f32>>()
        })
        .collect()
}

#[test]
fn rotation_preserves_norm() {
    let dim = 128;
    let v: Vec<f32> = (0..dim).map(|i| (i as f32) * 0.01 + 0.5).collect();
    let sx2: f32 = v.iter().map(|x| x * x).sum();
    let rot = rotate(&v, 42);
    let rot_sx2: f32 = rot.iter().map(|x| x * x).sum();
    assert!(approx(rot_sx2, sx2, sx2 * 1e-3), "{} vs {}", rot_sx2, sx2);
}

#[test]
fn rotation_is_deterministic() {
    let dim = 64;
    let v: Vec<f32> = (0..dim).map(|i| i as f32).collect();
    let a = rotate(&v, 7);
    let b = rotate(&v, 7);
    assert_eq!(a, b);
    assert_ne!(a, rotate(&v, 8));
}

#[test]
fn code_packing_roundtrip() {
    let q = RabitqQuantizer::new(1, 1, 16);
    let input =
        vec![1.0, -1.0, 1.0, 1.0, -1.0, 1.0, 1.0, 1.0, -1.0, -1.0, 1.0, 1.0, 1.0, 1.0, -1.0, 1.0];
    let v = quantize(&q, &input);
    let rot = rotate(&input, 1);
    for (i, &val) in rot.iter().enumerate() {
        let bit_set = v.packed_code[i / 8] & (1 << (i % 8)) != 0;
        assert_eq!(bit_set, val > 0.0, "bit {} mismatch (rot val {})", i, val);
    }
    assert_eq!(v.packed_code.len(), 2);
    assert!(approx(f32::from_bits(v.sum_of_x2), 16.0, 1e-5));
}

#[test]
fn quantized_size_matches_layout() {
    let q = RabitqQuantizer::new(1, 1, 128);
    let v = quantize(&q, &vec![0.5f32; 128]);
    assert_eq!(v.quantized_size_bytes(), 16 + 8);
    assert_eq!(v.dim, 128);
}

#[test]
fn fastscan_matches_estimate_l2_fields() {
    let q = RabitqQuantizer::new(1, 42, 128);
    let v: Vec<f32> = (0..128).map(|i| ((i % 7) as f32) - 3.0).collect();
    let qv = quantize(&q, &v);
    let rot = rotate(&v, 42);
    let sum_rot: f32 = rot.iter().sum();
    let (table_u8, qmin, range_scale) = quantize_table(&subset_sums(&rot));
    let num_chunks = table_u8.len() / 16;
    let fastscan = RabitqFastScan { num_bits: 1, dim: q.dim() as u32, table_u8 };

    let transposed = transpose_1bit(&qv.packed_code, 1, fastscan.code_len());
    let mut sums = [0u16; 32];
    fastscan.sum_batch(&transposed, &mut sums);
    let sum_set = sums[0] as f32 * range_scale + num_chunks as f32 * qmin;
    let expected_dot = dot_with_rotated(1, &qv.packed_code, &rot);
    let actual_dot = 2.0 * sum_set - sum_rot;
    assert!((actual_dot - expected_dot).abs() <= 0.5, "dot {} vs {}", actual_dot, expected_dot);
}

#[test]
fn multi_bit_dot_matches_unpacked_reference() {
    for num_bits in [4u8, 8u8] {
        let code_bias = -((1u32 << (num_bits - 1)) as f32 - 0.5);
        let dim = 128usize;
        let q = RabitqQuantizer::new(num_bits, 7, dim);
        let v: Vec<f32> = (0..dim).map(|i| ((i % 11) as f32) - 5.0).collect();
        let qv = quantize(&q, &v);
        let rot: Vec<f32> = (0..dim).map(|i| ((i % 9) as f32) - 4.0).collect();
        let full_dot = dot_with_rotated(num_bits, &qv.packed_code, &rot);
        let mut reference = 0.0f32;
        for (i, &b) in qv.packed_code.iter().enumerate() {
            if num_bits == 4 {
                let lo = (b & 0x0F) as f32;
                let hi = (b >> 4) as f32;
                reference += (lo + code_bias) * rot[i * 2];
                reference += (hi + code_bias) * rot[i * 2 + 1];
            } else {
                reference += (b as f32 + code_bias) * rot[i];
            }
        }
        assert!(
            (full_dot - reference).abs() <= 1e-3 * reference.abs().max(1.0),
            "num_bits={} dot {} vs {}",
            num_bits,
            full_dot,
            reference
        );
    }
}

#[test]
fn two_bit_dot_matches_unpacked_reference() {
    let dim = 128usize;
    let q = RabitqQuantizer::new(2, 7, dim);
    let v: Vec<f32> = (0..dim).map(|i| ((i % 11) as f32) - 5.0).collect();
    let qv = quantize(&q, &v);
    assert_eq!(qv.packed_code.len(), dim / 4, "2-bit packs 4 dims per byte");
    let rot: Vec<f32> = (0..dim).map(|i| ((i % 9) as f32) - 4.0).collect();
    let full_dot = dot_with_rotated(2, &qv.packed_code, &rot);
    let mut reference = 0.0f32;
    for (byte_idx, &b) in qv.packed_code.iter().enumerate() {
        for j in 0..4usize {
            let d = byte_idx * 4 + j;
            let sign = (b >> (2 * j)) & 1;
            let ex = (b >> (2 * j + 1)) & 1;
            let full_code = ((sign as u32) << 1) + ex as u32;
            reference += (full_code as f32 - 1.5) * rot[d];
        }
    }
    assert!(
        (full_dot - reference).abs() <= 1e-3 * reference.abs().max(1.0),
        "dot {} vs {}",
        full_dot,
        reference
    );
}

#[test]
fn identical_vectors_estimate_zero_l2() {
    let q = RabitqQuantizer::new(1, 3, 128);
    let v: Vec<f32> = (0..128).map(|i| ((i % 7) as f32) - 3.0).collect();
    let qv = quantize(&q, &v);
    let m12 = qv.code_agreement(&qv);
    assert_eq!(m12, 128);
    let cos = (std::f32::consts::FRAC_PI_2 * (m12 as f32 / 128.0)).sin().clamp(-1.0, 1.0);
    let sx2 = f32::from_bits(qv.sum_of_x2);
    let d = (sx2 + sx2 - 2.0 * sx2.sqrt() * sx2.sqrt() * cos).max(0.0);
    assert!(d < 1e-3, "self L2 distance should be ~0, got {}", d);
}

#[test]
fn eight_bit_identical_is_zero() {
    let q = RabitqQuantizer::new(8, 7, 128);
    let v: Vec<f32> = (0..128).map(|i| ((i % 7) as f32) - 3.0).collect();
    let qv = quantize(&q, &v);
    let rot = rotate(&v, 7);
    let cos = dot_with_rotated(8, &qv.packed_code, &rot).clamp(-1.0, 1.0);
    let (a, b) = (f32::from_bits(qv.sum_of_x2), v.iter().map(|x| x * x).sum::<f32>());
    let d = (a + b - 2.0 * a.sqrt() * b.sqrt() * cos).max(0.0);
    assert!(d < 1e-3, "8-bit self L2 should be ~0, got {}", d);
}

#[test]
fn estimates_of_a_vector_to_itself_are_small() {
    let q = RabitqQuantizer::new(8, 42, 128);
    let v: Vec<f32> = (0..128).map(|i| ((i % 11) as f32) - 5.0).collect();
    let qv = quantize(&q, &v);
    let sx2: f32 = v.iter().map(|x| x * x).sum();
    let est = estimate_l2(&q, &qv, &rotate(&v, 42), sx2);
    assert!(est < 0.05 * sx2, "self distance {} of norm {}", est, sx2);
}

#[test]
fn transpose_roundtrip_matches_row_major_sum() {
    let mut rng = SmallRng::seed_from_u64(42);
    let code_len = 16usize;
    let n_rows = 100usize;
    let table_f32: Vec<f32> = (0..code_len * 32).map(|_| rng.gen_range(-3.0..3.0)).collect();
    let (table_u8, qmin, range_scale) = quantize_table(&table_f32);
    let codes: Vec<u8> = (0..n_rows * code_len).map(|_| rng.gen::<u8>()).collect();
    let transposed = transpose_1bit(&codes, n_rows, code_len);

    let n_chunks = code_len * 2;
    let quantized_sum = |row: usize| -> u16 {
        (0..code_len)
            .map(|b| {
                let byte = codes[row * code_len + b];
                table_u8[b * 32 + (byte & 0x0F) as usize] as u16
                    + table_u8[b * 32 + 16 + (byte >> 4) as usize] as u16
            })
            .sum()
    };
    for row in 0..n_rows {
        let mut ref_sum = 0.0f32;
        for b in 0..code_len {
            let byte = codes[row * code_len + b];
            let lo = (byte & 0x0F) as usize;
            let hi = (byte >> 4) as usize;
            ref_sum += table_f32[b * 32 + lo] + table_f32[b * 32 + 16 + hi];
        }
        let deq = quantized_sum(row) as f32 * range_scale + n_chunks as f32 * qmin;
        assert!(
            (deq - ref_sum).abs() <= 0.1 * ref_sum.abs().max(1.0),
            "row {row}: deq {deq} vs {ref_sum}"
        );
    }

    let recovered = untranspose_1bit(&transposed, n_rows, code_len);
    assert_eq!(recovered, codes, "untranspose must invert transpose");

    let n_batches = n_rows.div_ceil(BATCH_SIZE);
    for batch in 0..n_batches {
        let mut out = [0u16; BATCH_SIZE];
        let cbatch = &transposed[batch * code_len * BATCH_SIZE..(batch + 1) * code_len * BATCH_SIZE];
        assert_eq!(sum_batch(cbatch, code_len, &table_u8, &mut out), BATCH_SIZE);
        for r in 0..BATCH_SIZE {
            let row = batch * BATCH_SIZE + r;
            if row >= n_rows {
                continue;
            }
            assert_eq!(out[r], quantized_sum(row), "batch {batch} row {r}");
        }
    }
}

#[test]
fn dimensions_are_padded_to_powers_of_two() {
    assert_eq!(padded_dim(0), 1);
    assert_eq!(padded_dim(1), 1);
    assert_eq!(padded_dim(3), 4);
    assert_eq!(padded_dim(64), 64);
    assert_eq!(padded_dim(65), 128);
    assert_eq!(RabitqQuantizer::new(1, 9, 100).dim(), 128);
    let q = RabitqQuantizer::new(1, 9, 100).with_center(vec![1, 2]);
    assert_eq!(q.center, vec![1, 2]);
    assert_eq!(q.rotation_seed(), 9);
}

#[test]
fn flipping_signs_twice_changes_nothing() {
    let values: Vec<u32> = [1.5f32, -2.0, 0.0, 7.0, -1.0, 3.0, 4.0, 5.0, 6.0]
        .iter()
        .map(|x| x.to_bits())
        .collect();
    let mut v = values.clone();
    flip_signs(&mut v, 9, &vec![0b0000_0011]);
    let flipped: Vec<f32> = v.iter().map(|&b| f32::from_bits(b)).collect();
    assert_eq!(flipped, vec![-1.5, 2.0, 0.0, 7.0, -1.0, 3.0, 4.0, 5.0, 6.0]);
    flip_signs(&mut v, 9, &vec![0b0000_0011]);
    assert_eq!(v, values);
    flip_signs(&mut v, 1, &vec![0b0000_0011]);
    assert_eq!(f32::from_bits(v[0]), -1.5);
    assert_eq!(f32::from_bits(v[1]), -2.0);
}

#[test]
fn rotation_signs_follow_from_the_seed() {
    let a = rotation_signs(130, 1);
    assert_eq!(a.len(), 17);
    assert_eq!(a, rotation_signs(130, 1));
    assert_ne!(a, rotation_signs(130, 2));
    assert!(a.iter().any(|&b| b != 0));
}

#[test]
fn hamming_counts_differing_bits() {
    assert_eq!(code_hamming(&vec![0b1010_0000, 0xFF], &vec![0b0010_0001, 0xFF]), 2);
    assert_eq!(code_hamming(&vec![0x00; 4], &vec![0xFF; 4]), 32);
    assert_eq!(code_hamming(&vec![1, 2, 3], &vec![1, 2, 3]), 0);
}

#[test]
fn codes_count_from_the_middle() {
    let minus = (-1.0f32).to_bits();
    let plus = 1.0f32.to_bits();
    assert_eq!(encode(4, plus, 0), 8);
    assert_eq!(encode(4, plus, 7), 15);
    assert_eq!(encode(4, minus, 0), 7);
    assert_eq!(encode(4, minus, 7), 0);
    assert_eq!(encode(8, minus, 1), 126);
    assert_eq!(encode(8, plus, 1), 129);
    assert_eq!(encode(2, minus, 1), 0);
    assert_eq!(encode(1, plus, 0), 1);
    assert_eq!(encode(1, 0.0f32.to_bits(), 0), 0);
    assert_eq!(encode(1, f32::NAN.to_bits(), 0), 0);
}

#[test]
fn packed_codes_unpack() {
    let rotated: Vec<u32> = [1.0f32, -1.0, 2.0, -2.0, 3.0].iter().map(|x| x.to_bits()).collect();
    for (num_bits, levels, len) in [
        (1u8, vec![0u8; 5], 1usize),
        (2, vec![0, 1, 1, 0, 0], 2),
        (4, vec![0, 7, 3, 2, 5], 3),
        (8, vec![0, 127, 64, 1, 99], 5),
    ] {
        let code = pack_code(num_bits, &rotated, &levels);
        assert_eq!(code.len(), len);
        for i in 0..5 {
            assert_eq!(unpack_code(num_bits, &code, i), encode(num_bits, rotated[i], levels[i]));
        }
    }
    // Sign in the low bit of a pair, level above it.
    assert_eq!(pack_code(2, &vec![rotated[0]], &vec![0]), vec![0b01]);
    assert_eq!(pack_code(2, &vec![rotated[0]], &vec![1]), vec![0b11]);
}

#[test]
fn quantizer_types_have_numbers() {
    assert_eq!(QuantizerType::from_u8(0), Ok(QuantizerType::Sbq));
    assert_eq!(QuantizerType::from_u8(1), Ok(QuantizerType::Rabitq));
    assert_eq!(QuantizerType::from_u8(2), Err(InvalidQuantizerType { value: 2 }));
    assert_eq!(QuantizerType::default(), QuantizerType::Sbq);
    assert_eq!(QuantizerMetadata::default().quantizer_type, QuantizerType::Sbq);
}

#[test]
fn quantized_vectors_know_their_size() {
    let sbq = QuantizedVector::Sbq(vec![1, 2, 3]);
    assert_eq!(sbq.quantized_size_bytes(), 24);
    assert_eq!(sbq.quantizer_type(), QuantizerType::Sbq);
    let q = RabitqQuantizer::new(8, 1, 16);
    let rabitq = QuantizedVector::Rabitq(quantize(&q, &[1.0; 16]));
    assert_eq!(rabitq.quantized_size_bytes(), 24);
    assert_eq!(rabitq.quantizer_type(), QuantizerType::Rabitq);
}

#[test]
fn untransposing_ignores_padding() {
    let (n_rows, code_len) = (5, 3);
    let codes: Vec<u8> = (0..15u8).map(|i| i.wrapping_mul(37) ^ 0x5A).collect();
    let t = transpose_1bit(&codes, n_rows, code_len);
    // Rows from 16 on are in the high nibbles: all of them are padding.
    let u: Vec<u8> = t.iter().map(|b| b | 0xF0).collect();
    assert_ne!(t, u);
    assert_eq!(untranspose_1bit(&u, n_rows, code_len), codes);
    // Transposing gives the zero-padded layout back.
    assert_eq!(transpose_1bit(&untranspose_1bit(&u, n_rows, code_len), n_rows, code_len), t);
}
