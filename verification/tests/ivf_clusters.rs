use pgvectorscale::ivf::assign::{
    assign_vectors_to_lists, nearest_centroid, sample_vectors, vectors_of_list,
    DEFAULT_SAMPLE_SIZE, MAX_KMEANS_ITERATIONS,
};
use pgvectorscale::ivf::centroid;
use pgvectorscale::ivf::centroid::{
    centroid_count, cluster_counts, update_centroids, IvfCentroidPage,
};
use pgvectorscale::util::float_bits::{bits_of_key, numbers_equal, order_key};

type DistanceFn = fn(&[f32], &[f32]) -> f32;

fn l2(a: &[f32], b: &[f32]) -> f32 {
    a.iter().zip(b).map(|(x, y)| (x - y) * (x - y)).sum()
}

fn inner_product(a: &[f32], b: &[f32]) -> f32 {
    -a.iter().zip(b).map(|(x, y)| x * y).sum::<f32>()
}

fn cosine(a: &[f32], b: &[f32]) -> f32 {
    let na = a.iter().map(|x| x * x).sum::<f32>().sqrt();
    let nb = b.iter().map(|x| x * x).sum::<f32>().sqrt();
    1.0 + inner_product(a, b) / (na * nb)
}

fn key(d: f32) -> i32 {
    order_key((d + 0.0).to_bits())
}

fn distances(vectors: &[Vec<f32>], centroids: &[Vec<f32>], d: DistanceFn) -> Vec<Vec<i32>> {
    vectors.iter().map(|v| centroids.iter().map(|c| key(d(v, c))).collect()).collect()
}

fn bits(rows: &[Vec<f32>]) -> Vec<Vec<u32>> {
    rows.iter().map(|r| r.iter().map(|x| x.to_bits()).collect()).collect()
}

fn floats(rows: &[Vec<u32>]) -> Vec<Vec<f32>> {
    rows.iter().map(|r| r.iter().map(|&x| f32::from_bits(x)).collect()).collect()
}

/// Initial centroids; the draw always falls on the vector that lies furthest.
fn kmeans_plus_plus_init(vectors: &[Vec<f32>], k: usize, d: DistanceFn) -> Vec<Vec<f32>> {
    let distance = |i: usize, c: usize| -> i32 { key(d(&vectors[i], &vectors[c])) };
    let draw = |min: &Vec<i32>| -> Option<usize> {
        let far = (0..min.len()).max_by_key(|&i| min[i]).unwrap();
        if f32::from_bits(bits_of_key(min[far])) <= 0.0 {
            None
        } else {
            Some(far)
        }
    };
    let chosen = centroid::kmeans_plus_plus_init(vectors.len(), k, &distance, &draw);
    chosen.into_iter().map(|i| vectors[i].clone()).collect()
}

fn lloyds_algorithm(
    vectors: &[Vec<f32>],
    start: &[Vec<f32>],
    max_iterations: usize,
    d: DistanceFn,
) -> Vec<Vec<f32>> {
    let mut centroids = bits(start);
    let distance = |i: usize, c: &Vec<u32>| -> i32 {
        distances(&vectors[i..i + 1], &floats(&[c.clone()]), d)[0][0]
    };
    let mean = |assigned: &Vec<usize>, c: usize| -> Vec<u32> {
        let members: Vec<&Vec<f32>> =
            vectors.iter().zip(assigned).filter(|(_, &a)| a == c).map(|(v, _)| v).collect();
        let mut sum = vec![0.0f32; vectors[0].len()];
        for v in &members {
            for (s, x) in sum.iter_mut().zip(v.iter()) {
                *s += x;
            }
        }
        sum.iter().map(|s| (s / members.len() as f32).to_bits()).collect()
    };
    let out = centroid::lloyds_algorithm(vectors.len(), &mut centroids, max_iterations, &distance, &mean);
    assert_eq!(out, centroids);
    floats(&out)
}

#[test]
fn test_sample_vectors_small() {
    let samples = sample_vectors(10, 5);
    assert_eq!(samples.len(), 5);
}

#[test]
fn test_sample_vectors_large() {
    let samples = sample_vectors(1000, 100);
    assert_eq!(samples.len(), 100);
    let mut sorted = samples.clone();
    sorted.sort();
    sorted.dedup();
    assert_eq!(sorted.len(), 100);
    assert!(sorted.iter().all(|&i| i < 1000));
    // The draws reach beyond the first vectors.
    assert!(sorted.iter().any(|&i| i >= 100));
}

#[test]
fn test_sample_vectors_exact_size() {
    let samples = sample_vectors(100, 100);
    assert_eq!(samples.len(), 100);
    assert_eq!(samples, (0..100).collect::<Vec<usize>>());
}

#[test]
fn test_assign_vectors_to_lists_basic() {
    let vectors = vec![vec![0.0, 0.0], vec![0.1, 0.1], vec![10.0, 10.0], vec![10.1, 10.1]];
    let centroids = vec![vec![0.05, 0.05], vec![10.05, 10.05]];
    let assignments = assign_vectors_to_lists(&distances(&vectors, &centroids, l2));
    assert_eq!(assignments.len(), 4);
    assert_eq!(assignments[0], 0);
    assert_eq!(assignments[1], 0);
    assert_eq!(assignments[2], 1);
    assert_eq!(assignments[3], 1);
}

#[test]
fn test_assign_vectors_to_lists_single_centroid() {
    let vectors = vec![vec![1.0, 2.0], vec![3.0, 4.0], vec![5.0, 6.0]];
    let centroids = vec![vec![0.0, 0.0]];
    let assignments = assign_vectors_to_lists(&distances(&vectors, &centroids, l2));
    assert_eq!(assignments.len(), 3);
    assert!(assignments.iter().all(|&a| a == 0));
}

#[test]
fn test_assign_vectors_to_lists_cosine() {
    let vectors = vec![vec![1.0, 0.0], vec![0.99, 0.01], vec![0.0, 1.0], vec![0.01, 0.99]];
    let centroids = vec![vec![1.0, 0.0], vec![0.0, 1.0]];
    let assignments = assign_vectors_to_lists(&distances(&vectors, &centroids, cosine));
    assert_eq!(assignments.len(), 4);
    assert_eq!(assignments[0], 0);
    assert_eq!(assignments[1], 0);
    assert_eq!(assignments[2], 1);
    assert_eq!(assignments[3], 1);
}

#[test]
fn ties_go_to_the_first_centroid() {
    assert_eq!(nearest_centroid(&[3, 1, 1, 2]), 1);
}

#[test]
fn every_vector_stands_in_its_list() {
    let assigned = [2u16, 0, 2, 1, 2];
    assert_eq!(vectors_of_list(&assigned, 2), vec![0, 2, 4]);
    assert_eq!(vectors_of_list(&assigned, 1), vec![3]);
    assert_eq!(vectors_of_list(&assigned, 7), Vec::<usize>::new());
    assert_eq!(cluster_counts(&[2, 0, 2, 1, 2], 4), vec![1, 1, 3, 0]);
}

#[test]
fn build_constants() {
    assert_eq!(DEFAULT_SAMPLE_SIZE, 10000);
    assert_eq!(MAX_KMEANS_ITERATIONS, 100);
}

#[test]
fn test_kmeans_plus_plus_init_basic() {
    let vectors: Vec<Vec<f32>> = vec![
        vec![0.0, 0.0],
        vec![0.1, 0.1],
        vec![10.0, 10.0],
        vec![10.1, 10.1],
        vec![20.0, 0.0],
        vec![20.1, 0.1],
        vec![0.0, 20.0],
        vec![0.1, 20.1],
    ];
    let centroids = kmeans_plus_plus_init(&vectors, 4, l2);
    assert_eq!(centroids.len(), 4);
    for c in &centroids {
        assert!(vectors.contains(c));
    }
}

#[test]
fn test_kmeans_plus_plus_init_k_equals_1() {
    let vectors: Vec<Vec<f32>> = vec![vec![1.0, 2.0], vec![3.0, 4.0], vec![5.0, 6.0]];
    let centroids = kmeans_plus_plus_init(&vectors, 1, l2);
    assert_eq!(centroids.len(), 1);
    assert!(vectors.contains(&centroids[0]));
}

#[test]
fn test_kmeans_plus_plus_init_k_greater_than_n() {
    let vectors: Vec<Vec<f32>> = vec![vec![1.0, 2.0], vec![3.0, 4.0]];
    let centroids = kmeans_plus_plus_init(&vectors, 10, l2);
    assert_eq!(centroids.len(), 2);
    assert_eq!(centroid_count(2, 10), 2);
}

#[test]
fn test_kmeans_plus_plus_init_empty() {
    let vectors: Vec<Vec<f32>> = vec![];
    let centroids = kmeans_plus_plus_init(&vectors, 3, l2);
    assert!(centroids.is_empty());
}

#[test]
fn test_kmeans_plus_plus_init_k_zero() {
    let vectors: Vec<Vec<f32>> = vec![vec![1.0, 2.0]];
    let centroids = kmeans_plus_plus_init(&vectors, 0, l2);
    assert!(centroids.is_empty());
}

#[test]
fn test_kmeans_plus_plus_init_cosine() {
    let vectors: Vec<Vec<f32>> =
        vec![vec![1.0, 0.0], vec![0.0, 1.0], vec![-1.0, 0.0], vec![0.0, -1.0]];
    let centroids = kmeans_plus_plus_init(&vectors, 2, cosine);
    assert_eq!(centroids.len(), 2);
}

#[test]
fn equal_vectors_are_chosen_at_random() {
    let vectors: Vec<Vec<f32>> = vec![vec![1.0, 2.0]; 5];
    let centroids = kmeans_plus_plus_init(&vectors, 3, l2);
    assert_eq!(centroids, vec![vec![1.0, 2.0]; 3]);
}

#[test]
fn test_lloyds_algorithm_converges() {
    let vectors: Vec<Vec<f32>> = vec![
        vec![0.0, 0.0],
        vec![0.1, 0.1],
        vec![0.2, 0.0],
        vec![10.0, 10.0],
        vec![10.1, 10.1],
        vec![10.2, 10.0],
    ];
    let centroids = vec![vec![0.0, 0.0], vec![10.0, 10.0]];
    let result = lloyds_algorithm(&vectors, &centroids, 100, l2);
    assert_eq!(result.len(), 2);
    let c0 = &result[0];
    let c1 = &result[1];
    let near_origin = |c: &[f32]| c[0] < 5.0 && c[1] < 5.0;
    let near_ten = |c: &[f32]| c[0] > 5.0 && c[1] > 5.0;
    assert!(
        (near_origin(c0) && near_ten(c1)) || (near_ten(c0) && near_origin(c1)),
        "Centroids should converge to cluster centers: {:?}",
        result
    );
    let expected_c1 = vec![0.1, 0.033333334];
    let expected_c2 = vec![10.1, 10.033333];
    let (actual_c1, actual_c2) = if near_origin(c0) { (c0, c1) } else { (c1, c0) };
    for (a, e) in actual_c1.iter().zip(expected_c1.iter()) {
        assert!((a - e).abs() < 1e-4, "Expected ~{:?}, got {:?}", expected_c1, actual_c1);
    }
    for (a, e) in actual_c2.iter().zip(expected_c2.iter()) {
        assert!((a - e).abs() < 1e-4, "Expected ~{:?}, got {:?}", expected_c2, actual_c2);
    }
}

#[test]
fn test_lloyds_algorithm_k_equals_1() {
    let vectors: Vec<Vec<f32>> = vec![vec![1.0, 2.0], vec![3.0, 4.0], vec![5.0, 6.0]];
    let centroids = vec![vec![0.0, 0.0]];
    let result = lloyds_algorithm(&vectors, &centroids, 100, l2);
    assert_eq!(result.len(), 1);
    assert!((result[0][0] - 3.0).abs() < 1e-5);
    assert!((result[0][1] - 4.0).abs() < 1e-5);
}

#[test]
fn test_lloyds_algorithm_empty_vectors() {
    let vectors: Vec<Vec<f32>> = vec![];
    let centroids = vec![vec![1.0, 2.0]];
    let result = lloyds_algorithm(&vectors, &centroids, 100, l2);
    assert_eq!(result.len(), 1);
    assert_eq!(result[0], vec![1.0, 2.0]);
}

#[test]
fn test_lloyds_algorithm_empty_centroids() {
    let vectors: Vec<Vec<f32>> = vec![vec![1.0, 2.0]];
    let centroids: Vec<Vec<f32>> = vec![];
    let result = lloyds_algorithm(&vectors, &centroids, 100, l2);
    assert!(result.is_empty());
}

#[test]
fn test_lloyds_algorithm_max_iterations() {
    let vectors: Vec<Vec<f32>> = vec![vec![0.0, 0.0], vec![10.0, 10.0]];
    let centroids = vec![vec![0.0, 0.0], vec![10.0, 10.0]];
    let result = lloyds_algorithm(&vectors, &centroids, 1, l2);
    assert_eq!(result.len(), 2);
}

#[test]
fn test_lloyds_algorithm_cosine() {
    let vectors: Vec<Vec<f32>> =
        vec![vec![1.0, 0.0], vec![0.99, 0.01], vec![0.0, 1.0], vec![0.01, 0.99]];
    let centroids = vec![vec![1.0, 0.0], vec![0.0, 1.0]];
    let result = lloyds_algorithm(&vectors, &centroids, 100, cosine);
    assert_eq!(result.len(), 2);
}

#[test]
fn test_lloyds_algorithm_inner_product() {
    let vectors: Vec<Vec<f32>> =
        vec![vec![1.0, 0.0], vec![0.9, 0.1], vec![-1.0, 0.0], vec![-0.9, -0.1]];
    let centroids = vec![vec![1.0, 0.0], vec![-1.0, 0.0]];
    let result = lloyds_algorithm(&vectors, &centroids, 100, inner_product);
    assert_eq!(result.len(), 2);
}

#[test]
fn test_full_pipeline_init_then_lloyds() {
    let vectors: Vec<Vec<f32>> = vec![
        vec![0.0, 0.0],
        vec![0.1, 0.0],
        vec![0.0, 0.1],
        vec![100.0, 100.0],
        vec![100.1, 100.0],
        vec![100.0, 100.1],
    ];
    let centroids = kmeans_plus_plus_init(&vectors, 2, l2);
    assert_eq!(centroids.len(), 2);
    let result = lloyds_algorithm(&vectors, &centroids, 100, l2);
    assert_eq!(result.len(), 2);
    let mean1 = vec![0.033333334, 0.033333334];
    let mean2 = vec![100.03333, 100.03333];
    let matches = |c: &[f32], expected: &[f32]| {
        c.iter().zip(expected.iter()).all(|(a, e): (&f32, &f32)| (a - e).abs() < 0.1)
    };
    assert!(
        (matches(&result[0], &mean1) && matches(&result[1], &mean2))
            || (matches(&result[0], &mean2) && matches(&result[1], &mean1)),
        "Pipeline result should converge to cluster means: {:?}",
        result
    );
}

#[test]
fn empty_clusters_keep_their_centroids() {
    let mut centroids = bits(&[vec![1.0], vec![5.0], vec![0.0]]);
    let means = bits(&[vec![2.0], vec![0.0], vec![-0.0]]);
    assert!(update_centroids(&mut centroids, &means, &vec![3, 0, 1]));
    assert_eq!(floats(&centroids), vec![vec![2.0], vec![5.0], vec![0.0]]);
    assert!(!update_centroids(&mut centroids, &means, &vec![3, 0, 1]));
}

#[test]
fn draws_see_the_distances_to_the_nearest_centroid() {
    let values = [0i32, 10, 11, 30];
    let seen = std::cell::RefCell::new(Vec::new());
    let distance = |i: usize, c: usize| -> i32 { (values[i] - values[c]).abs() };
    let draw = |min: &Vec<i32>| -> Option<usize> {
        seen.borrow_mut().push(min.clone());
        if seen.borrow().len() == 1 { Some(3) } else { None }
    };
    let chosen = centroid::kmeans_plus_plus_init(4, 3, &distance, &draw);
    assert_eq!((chosen.len(), chosen[1]), (3, 3));
    assert!(chosen[2] < 4);
    let seen = seen.borrow();
    assert_eq!(seen.len(), 2);
    for i in 0..4 {
        let to_first = distance(i, chosen[0]);
        assert_eq!(seen[0][i], to_first);
        assert_eq!(seen[1][i], to_first.min(distance(i, 3)));
    }
}

#[test]
fn settled_centroids_stay() {
    let vectors = vec![vec![0.0f32], vec![2.0], vec![10.0], vec![14.0]];
    let start = vec![vec![0.0f32], vec![9.0], vec![100.0]];
    assert_eq!(lloyds_algorithm(&vectors, &start, 0, l2), start);
    let once = lloyds_algorithm(&vectors, &start, 1, l2);
    assert_eq!(once, vec![vec![1.0], vec![12.0], vec![100.0]]);
    // Another round moves nothing: the nearest vectors' means are where the
    // centroids are, and the empty cluster keeps its own.
    assert_eq!(lloyds_algorithm(&vectors, &once, 1, l2), once);
    assert_eq!(lloyds_algorithm(&vectors, &start, 50, l2), once);
}

#[test]
fn centroids_are_found_by_index() {
    let page = IvfCentroidPage::new(vec![vec![1, 2], vec![3, 4]]);
    assert_eq!(page.num_centroids(), 2);
    assert_eq!(page.get_centroid(1), Some(&vec![3, 4]));
    assert_eq!(page.get_centroid(2), None);
}

#[test]
fn order_keys_order_like_numbers() {
    let numbers = [f32::NEG_INFINITY, -2.5, -0.0, 0.0, 1e-30, 3.0, f32::INFINITY];
    for w in numbers.windows(2) {
        assert!(order_key(w[0].to_bits()) < order_key(w[1].to_bits()));
    }
    for x in numbers {
        assert_eq!(bits_of_key(order_key(x.to_bits())), x.to_bits());
    }
    assert!(numbers_equal(0.0f32.to_bits(), (-0.0f32).to_bits()));
    assert!(!numbers_equal(f32::NAN.to_bits(), f32::NAN.to_bits()));
}
