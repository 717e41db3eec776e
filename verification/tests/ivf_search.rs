use pgvectorscale::ivf::simd::{
    find_nearest_centroids, ivf_search, merge_search_results, scan_posting_list, SearchResult,
};
use pgvectorscale::util::float_bits::{bits_of_key, order_key};

type DistanceFn = fn(&[f32], &[f32]) -> f32;

fn scalar_l2(a: &[f32], b: &[f32]) -> f32 {
    a.iter().zip(b.iter()).map(|(x, y)| (x - y) * (x - y)).sum()
}

fn scalar_cosine(a: &[f32], b: &[f32]) -> f32 {
    let dot: f32 = a.iter().zip(b.iter()).map(|(x, y)| x * y).sum();
    (1.0 - dot).max(0.0)
}

fn scalar_ip(a: &[f32], b: &[f32]) -> f32 {
    -a.iter().zip(b.iter()).map(|(x, y)| x * y).sum::<f32>()
}

fn key(d: f32) -> i32 {
    order_key((d + 0.0).to_bits())
}

fn number(key: i32) -> f32 {
    f32::from_bits(bits_of_key(key))
}

fn keys(query: &[f32], vectors: &[Vec<f32>], d: DistanceFn) -> Vec<i32> {
    vectors.iter().map(|v| key(d(query, v))).collect()
}

fn list_keys(query: &[f32], lists: &[Vec<Vec<f32>>], d: DistanceFn) -> Vec<Vec<i32>> {
    lists.iter().map(|l| keys(query, l, d)).collect()
}

#[test]
fn test_find_nearest_centroids_basic() {
    let query = vec![0.0, 0.0];
    let centroids = vec![vec![1.0, 0.0], vec![10.0, 10.0], vec![0.5, 0.5], vec![2.0, 0.0]];
    let result = find_nearest_centroids(&keys(&query, &centroids, scalar_l2), 2);
    assert_eq!(result.len(), 2);
    assert_eq!(result[0], 2);
    assert_eq!(result[1], 0);
}

#[test]
fn test_find_nearest_centroids_n_probe_larger_than_centroids() {
    let query = vec![0.0, 0.0];
    let centroids = vec![vec![1.0, 0.0], vec![2.0, 0.0]];
    let result = find_nearest_centroids(&keys(&query, &centroids, scalar_l2), 10);
    assert_eq!(result.len(), 2);
}

#[test]
fn test_find_nearest_centroids_empty() {
    let query = vec![0.0, 0.0];
    let centroids: Vec<Vec<f32>> = vec![];
    let result = find_nearest_centroids(&keys(&query, &centroids, scalar_l2), 3);
    assert!(result.is_empty());
}

#[test]
fn test_find_nearest_centroids_n_probe_zero() {
    let query = vec![0.0, 0.0];
    let centroids = vec![vec![1.0, 0.0]];
    let result = find_nearest_centroids(&keys(&query, &centroids, scalar_l2), 0);
    assert!(result.is_empty());
}

#[test]
fn test_find_nearest_centroids_cosine() {
    let query = vec![1.0, 0.0];
    let centroids = vec![vec![1.0, 0.0], vec![0.0, 1.0], vec![-1.0, 0.0]];
    let result = find_nearest_centroids(&keys(&query, &centroids, scalar_cosine), 2);
    assert_eq!(result.len(), 2);
    assert_eq!(result[0], 0);
    assert_eq!(result[1], 1);
}

#[test]
fn test_scan_posting_list_basic() {
    let query = vec![0.0, 0.0];
    let vectors = vec![vec![1.0, 0.0], vec![0.1, 0.1], vec![10.0, 10.0], vec![0.5, 0.0]];
    let results = scan_posting_list(&keys(&query, &vectors, scalar_l2), 0, 2);
    assert_eq!(results.len(), 2);
    assert_eq!(results[0].entry_index, 1);
    assert_eq!(results[1].entry_index, 3);
    assert_eq!(results[0].list_index, 0);
}

#[test]
fn test_scan_posting_list_empty() {
    let query = vec![0.0, 0.0];
    let vectors: Vec<Vec<f32>> = vec![];
    let results = scan_posting_list(&keys(&query, &vectors, scalar_l2), 0, 5);
    assert!(results.is_empty());
}

#[test]
fn test_scan_posting_list_k_larger_than_list() {
    let query = vec![0.0, 0.0];
    let vectors = vec![vec![1.0, 0.0], vec![2.0, 0.0]];
    let results = scan_posting_list(&keys(&query, &vectors, scalar_l2), 0, 10);
    assert_eq!(results.len(), 2);
}

#[test]
fn test_scan_posting_list_inner_product() {
    let query = vec![1.0, 0.0];
    let vectors = vec![vec![1.0, 0.0], vec![0.0, 1.0], vec![-1.0, 0.0]];
    let results = scan_posting_list(&keys(&query, &vectors, scalar_ip), 0, 2);
    assert_eq!(results.len(), 2);
    assert_eq!(results[0].entry_index, 0);
    assert!(number(results[0].distance) < 0.0);
}

fn result(distance: f32, list_index: usize, entry_index: usize) -> SearchResult {
    SearchResult { distance: key(distance), list_index, entry_index }
}

#[test]
fn test_merge_search_results_basic() {
    let list1 = vec![result(1.0, 0, 0), result(3.0, 0, 1)];
    let list2 = vec![result(0.5, 1, 0), result(2.0, 1, 1)];
    let merged = merge_search_results(&vec![list1, list2], 3);
    assert_eq!(merged.len(), 3);
    assert_eq!(number(merged[0].distance), 0.5);
    assert_eq!(number(merged[1].distance), 1.0);
    assert_eq!(number(merged[2].distance), 2.0);
}

#[test]
fn test_merge_search_results_empty() {
    let merged = merge_search_results(&vec![], 5);
    assert!(merged.is_empty());
}

#[test]
fn test_merge_search_results_k_zero() {
    let merged = merge_search_results(&vec![vec![result(1.0, 0, 0)]], 0);
    assert!(merged.is_empty());
}

#[test]
fn test_ivf_search_basic() {
    let query = vec![0.0, 0.0];
    let centroids = vec![vec![0.1, 0.1], vec![100.0, 100.0]];
    let posting_lists = vec![
        vec![vec![0.1, 0.0], vec![0.0, 0.2], vec![0.3, 0.3]],
        vec![vec![99.0, 99.0], vec![101.0, 101.0]],
    ];
    let results = ivf_search(
        &keys(&query, &centroids, scalar_l2),
        &list_keys(&query, &posting_lists, scalar_l2),
        1,
        2,
    );
    assert_eq!(results.len(), 2);
    for r in &results {
        assert_eq!(r.list_index, 0);
    }
    assert!(results[0].distance <= results[1].distance);
}

#[test]
fn test_ivf_search_multiple_lists() {
    let query = vec![5.0, 5.0];
    let centroids = vec![vec![0.0, 0.0], vec![10.0, 10.0]];
    let posting_lists =
        vec![vec![vec![0.0, 0.0], vec![1.0, 1.0]], vec![vec![9.0, 9.0], vec![10.0, 10.0]]];
    let results = ivf_search(
        &keys(&query, &centroids, scalar_l2),
        &list_keys(&query, &posting_lists, scalar_l2),
        2,
        4,
    );
    assert_eq!(results.len(), 4);
    let has_list_0 = results.iter().any(|r| r.list_index == 0);
    let has_list_1 = results.iter().any(|r| r.list_index == 1);
    assert!(has_list_0 && has_list_1);
}

#[test]
fn test_ivf_search_empty_index() {
    let query = vec![0.0, 0.0];
    let centroids: Vec<Vec<f32>> = vec![];
    let posting_lists: Vec<Vec<Vec<f32>>> = vec![];
    let results = ivf_search(
        &keys(&query, &centroids, scalar_l2),
        &list_keys(&query, &posting_lists, scalar_l2),
        3,
        10,
    );
    assert!(results.is_empty());
}

#[test]
fn test_ivf_search_high_dimensional() {
    let dim = 128;
    let query: Vec<f32> = (0..dim).map(|i| (i as f32) * 0.01).collect();
    let centroids: Vec<Vec<f32>> = (0..4)
        .map(|c| (0..dim).map(|i| (i as f32 + c as f32 * 10.0) * 0.01).collect())
        .collect();
    let posting_lists: Vec<Vec<Vec<f32>>> = (0..4)
        .map(|c| {
            (0..10)
                .map(|j| {
                    (0..dim)
                        .map(|i| (i as f32 + c as f32 * 10.0 + j as f32 * 0.1) * 0.01)
                        .collect()
                })
                .collect()
        })
        .collect();
    let results = ivf_search(
        &keys(&query, &centroids, scalar_l2),
        &list_keys(&query, &posting_lists, scalar_l2),
        2,
        5,
    );
    assert_eq!(results.len(), 5);
    for w in results.windows(2) {
        assert!(w[0].distance <= w[1].distance);
    }
}
