use pgvectorscale::ivf::insert::blocks_to_reserve;
use pgvectorscale::ivf::sealing::{join_run, split_run};
use pgvectorscale::util::page::tsv_fresh_page_capacity;
use pgvectorscale::ivf::entry::{
    read_entries, seal_blocks_needed, seal_bytes_len, serialize_entries, IvfEntry, IvfEntrySlice,
};
use pgvectorscale::quantization::rabitq::{
    flip_rotation_signs, pack_code, padded_dim, unpack_code, RabitqQuantizer, RabitqVector,
};
use pgvectorscale::quantization::rabitq_fastscan::{transpose_1bit, untranspose_1bit};
use pgvectorscale::util::item_pointer::ItemPointer;

const ENTRY_HEADER_SIZE: usize = 16;
const TID_SIZE: usize = 6;

fn fwht(values: &mut [f32]) {
    let mut half = 1usize;
    while half < values.len() {
        let step = half * 2;
        for block in values.chunks_exact_mut(step) {
            let (left, right) = block.split_at_mut(half);
            for (x, y) in left.iter_mut().zip(right.iter_mut()) {
                let (a, b) = (*x, *y);
                *x = a + b;
                *y = a - b;
            }
        }
        half = step;
    }
}

/// Rotate a vector: the library gives the signs.
fn rotate(v: &[f32], seed: u64) -> Vec<f32> {
    let mut bits: Vec<u32> = v.iter().map(|x| x.to_bits()).collect();
    bits.resize(padded_dim(v.len()), 0);
    flip_rotation_signs(&mut bits, v.len(), seed);
    let mut values: Vec<f32> = bits.iter().map(|&b| f32::from_bits(b)).collect();
    fwht(&mut values);
    let scale = 1.0 / (values.len() as f32).sqrt();
    values.iter().map(|x| x * scale).collect()
}

fn top_level(num_bits: u8) -> u32 {
    match num_bits {
        2 | 4 | 8 => (1u32 << (num_bits - 1)) - 1,
        _ => 0,
    }
}

/// Quantize a vector; levels are spread evenly up to the largest value.
fn quantize(q: &RabitqQuantizer, v: &[f32]) -> RabitqVector {
    let rotated = rotate(v, q.rotation_seed());
    let sum_of_x2: f32 = v.iter().map(|x| x * x).sum();
    let top = top_level(q.num_bits);
    let max = rotated.iter().fold(1e-9f32, |m, x| m.max(x.abs()));
    let levels: Vec<u8> =
        rotated.iter().map(|x| (x.abs() / max * top as f32 + 0.5) as u8).collect();
    let bits: Vec<u32> = rotated.iter().map(|x| x.to_bits()).collect();
    let packed_code = pack_code(q.num_bits, &bits, &levels);
    let l1: f32 = if top == 0 {
        rotated.iter().map(|x| x.abs()).sum()
    } else {
        let bias = -(top as f32 + 0.5);
        (0..rotated.len())
            .map(|i| (unpack_code(q.num_bits, &packed_code, i) as f32 + bias) * rotated[i])
            .sum()
    };
    RabitqVector {
        dim: q.dim() as u32,
        sum_of_x2: sum_of_x2.to_bits(),
        l1_of_rotated: l1.to_bits(),
        packed_code,
        num_bits: q.num_bits,
        cent_dot: 0.0f32.to_bits(),
    }
}

fn entries_of(num_bits: u8, n: usize, dim: usize) -> Vec<IvfEntry> {
    let q = RabitqQuantizer::new(num_bits, 5, dim);
    (0..n)
        .map(|i| {
            let v: Vec<f32> = (0..dim).map(|d| ((i * 13 + d * 7) % 23) as f32 - 11.0).collect();
            IvfEntry::new(ItemPointer::new(i as u32, 1), quantize(&q, &v))
        })
        .collect()
}

fn factors(entries: &[IvfEntry]) -> (Vec<u32>, Vec<u32>) {
    let scale = |e: &IvfEntry| {
        let l1 = f32::from_bits(e.code.l1_of_rotated).max(1e-9);
        (-2.0 * f32::from_bits(e.code.sum_of_x2) / l1).to_bits()
    };
    let margin = |e: &IvfEntry| {
        let norm = f32::from_bits(e.code.sum_of_x2).max(0.0).sqrt();
        (2.0 * norm / (e.code.dim as f32).sqrt().max(1.0)).to_bits()
    };
    (entries.iter().map(scale).collect(), entries.iter().map(margin).collect())
}

fn seal(entries: &[IvfEntry]) -> Vec<u8> {
    let (scales, margins) = factors(entries);
    serialize_entries(entries, &scales, &margins)
}

#[test]
fn two_bit_soa_roundtrip_and_sizing() {
    let dim = 128usize;
    let entries = entries_of(2, 40, dim);
    let bytes = seal(&entries);
    assert_eq!(
        bytes.len(),
        seal_bytes_len(entries.len(), 2, padded_dim(dim) as u32),
        "seal sizing must match the serialized length"
    );
    assert!(IvfEntrySlice::can_parse(&bytes));
    let view = IvfEntrySlice::parse(&bytes);
    assert_eq!(view.num_bits(), 2);
    assert_eq!(view.len(), 40);
    assert_eq!(view.num_batches(), 40usize.div_ceil(32));
    let parsed: Vec<ItemPointer> = (0..view.len()).map(|i| view.tid(i)).collect();
    assert_eq!(parsed.len(), 40);
    assert_eq!(parsed[7].block_number, 7);
}

#[test]
fn two_bit_plane_slices_match_manual_transpose() {
    let dim = 128usize;
    let n = 100usize;
    let entries = entries_of(2, n, dim);
    let mut sign_planes = vec![0u8; n * (dim / 8)];
    let mut ex_planes = vec![0u8; n * (dim / 8)];
    for (i, e) in entries.iter().enumerate() {
        let sp = &mut sign_planes[i * (dim / 8)..(i + 1) * (dim / 8)];
        let ep = &mut ex_planes[i * (dim / 8)..(i + 1) * (dim / 8)];
        for (byte_idx, &b) in e.code.packed_code.iter().enumerate() {
            for j in 0..4usize {
                let d = byte_idx * 4 + j;
                if b & (1 << (2 * j)) != 0 {
                    sp[d / 8] |= 1 << (d % 8);
                }
                if b & (1 << (2 * j + 1)) != 0 {
                    ep[d / 8] |= 1 << (d % 8);
                }
            }
        }
    }
    let bytes = seal(&entries);
    let view = IvfEntrySlice::parse(&bytes);
    let half = view.code_len() / 2;

    let p0 = transpose_1bit(&sign_planes, n, half);
    let p1 = transpose_1bit(&ex_planes, n, half);
    for batch in 0..view.num_batches() {
        assert_eq!(
            view.code_batch_plane0(batch),
            &p0[batch * 32 * half..(batch + 1) * 32 * half],
            "plane0 batch {} mismatch",
            batch
        );
        assert_eq!(
            view.code_batch_plane1(batch),
            &p1[batch * 32 * half..(batch + 1) * 32 * half],
            "plane1 batch {} mismatch",
            batch
        );
    }
    let row_major: Vec<u8> = {
        let plane_bytes = view.num_batches() * 32 * half;
        let p0 = untranspose_1bit(&view.codes()[..plane_bytes], n, half);
        let p1 = untranspose_1bit(&view.codes()[plane_bytes..plane_bytes * 2], n, half);
        let mut packed = vec![0u8; n * view.code_len()];
        for i in 0..n {
            for d in 0..half * 8 {
                let sign = (p0[i * half + d / 8] >> (d % 8)) & 1;
                let ex = (p1[i * half + d / 8] >> (d % 8)) & 1;
                packed[i * view.code_len() + d / 4] |=
                    (sign << (2 * (d % 4))) | (ex << (2 * (d % 4) + 1));
            }
        }
        packed
    };
    for i in 0..n {
        assert_eq!(
            &row_major[i * view.code_len()..(i + 1) * view.code_len()],
            &entries[i].code.packed_code[..],
            "entry {} code round-trip mismatch",
            i
        );
    }
}

#[test]
fn copy_accessors_match_scalar_for_misaligned_layouts() {
    for num_bits in [1u8, 2u8, 4u8, 8u8] {
        for n in [1usize, 3usize, 33usize, 100usize] {
            let dim = 128usize;
            let entries = entries_of(num_bits, n, dim);
            let bytes = seal(&entries);
            let view = IvfEntrySlice::parse(&bytes);
            assert_eq!(view.len(), n);

            let codes_len = if num_bits == 1 || num_bits == 2 {
                n.div_ceil(32) * 32 * view.code_len()
            } else {
                n * view.code_len()
            };
            let sums_off = ENTRY_HEADER_SIZE + n * TID_SIZE + codes_len;
            if num_bits == 1 {
                assert_eq!(sums_off % 4, if n % 2 == 0 { 0 } else { 2 });
            }

            for base in (0..n).step_by(7) {
                let count = (n - base).min(5);
                let mut scales = [0u32; 5];
                let mut sx2s = [0u32; 5];
                let mut mfs = [0u32; 5];
                view.copy_scales(base, &mut scales[..count]);
                view.copy_sums(base, &mut sx2s[..count]);
                view.copy_margin_factors(base, &mut mfs[..count]);
                for r in 0..count {
                    assert_eq!(scales[r], view.scale(base + r));
                    assert_eq!(sx2s[r], view.sum_of_x2(base + r));
                    assert_eq!(mfs[r], view.margin_factor(base + r));
                }
            }
        }
    }
}

#[test]
fn sealed_entries_read_back() {
    for num_bits in [1u8, 2u8, 4u8, 8u8] {
        let entries = entries_of(num_bits, 37, 64);
        let bytes = seal(&entries);
        assert_eq!(bytes.len(), seal_bytes_len(37, num_bits, 64));
        let l1: Vec<u32> = entries.iter().map(|e| e.code.l1_of_rotated).collect();
        assert_eq!(read_entries(&bytes, &l1), entries);
    }
}

#[test]
fn reservations_fit_their_seals() {
    for num_bits in [1u8, 2u8, 4u8, 8u8] {
        let entries = entries_of(num_bits, 150, 128);
        let items = split_run(&seal(&entries), tsv_fresh_page_capacity());
        assert_eq!(blocks_to_reserve(150, 100, num_bits, 128), Some(items.len() as u32));
        assert_eq!(join_run(&items), seal(&entries));
    }
}

#[test]
fn one_bit_batches_are_transposed() {
    let entries = entries_of(1, 37, 64);
    let bytes = seal(&entries);
    let view = IvfEntrySlice::parse(&bytes);
    let rows: Vec<u8> = entries.iter().flat_map(|e| e.code.packed_code.clone()).collect();
    let t = transpose_1bit(&rows, entries.len(), view.code_len());
    let batch_bytes = 32 * view.code_len();
    assert_eq!(view.num_batches(), 2);
    for batch in 0..2 {
        assert_eq!(view.code_batch(batch), &t[batch * batch_bytes..(batch + 1) * batch_bytes]);
    }
}

#[test]
fn an_empty_seal_is_a_header() {
    let bytes = seal(&[]);
    assert_eq!(bytes.len(), ENTRY_HEADER_SIZE);
    assert!(IvfEntrySlice::parse(&bytes).is_empty());
    assert_eq!(seal_bytes_len(0, 1, 128), ENTRY_HEADER_SIZE);
    assert!(!IvfEntrySlice::can_parse(&[1, 2, 3]));
}

#[test]
fn seal_lengths() {
    // 16 bytes of header, 6 per address, 16 per code, 12 of factors.
    assert_eq!(seal_bytes_len(1, 8, 16), 16 + 6 + 16 + 12);
    assert_eq!(seal_bytes_len(1, 1, 128), 16 + 6 + 32 * 16 + 12);
    assert_eq!(seal_blocks_needed(1, 8, 16), 1);
}
