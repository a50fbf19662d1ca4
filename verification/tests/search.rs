use fraud_knn::encode::write_index;
use fraud_knn::index::IvfIndex;
use fraud_knn::rank::nearest_first;
use fraud_knn::search::{manhattan_u8, manhattan_u8_scalar, quantize_query};
use fraud_knn::topk::{TopK5, TopK50, TopKN};

fn score(topk: &TopK5) -> f32 {
    topk.fraud_score() as f32 / 5.0
}

#[test]
fn test_topk5_basic() {
    let mut topk = TopK5::new();
    topk.push(0.5f32.to_bits(), 1);
    topk.push(0.1f32.to_bits(), 0);
    topk.push(0.9f32.to_bits(), 1);
    topk.push(0.3f32.to_bits(), 0);
    topk.push(0.7f32.to_bits(), 1);
    assert!((score(&topk) - 0.6).abs() < 1e-6);
}

#[test]
fn test_topk5_replaces_worst() {
    let mut topk = TopK5::new();
    topk.push(1.0f32.to_bits(), 1);
    topk.push(0.9f32.to_bits(), 1);
    topk.push(0.8f32.to_bits(), 1);
    topk.push(0.7f32.to_bits(), 1);
    topk.push(0.6f32.to_bits(), 1);
    topk.push(0.1f32.to_bits(), 0);
    assert!((score(&topk) - 0.8).abs() < 1e-6);
}

#[test]
fn test_manhattan_u8() {
    let a = [0u8; 16];
    let b = [1u8; 16];
    assert_eq!(manhattan_u8(&a, &b), 16);
    let c = [255u8; 16];
    assert_eq!(manhattan_u8(&a, &c), 255 * 16);
}

#[test]
fn test_topk50_fills_and_replaces() {
    let mut tk = TopK50::new();
    for i in 0..55u32 {
        tk.push(i * 10, i);
    }
    // only the 50 smallest stay (0..50, at distances 0..490)
    assert_eq!(tk.count, 50);
    let max = tk.dists[..50].iter().copied().max().unwrap();
    assert_eq!(max, 490);
}

#[test]
fn what_is_no_number_or_infinitely_far_is_no_neighbour() {
    let mut topk = TopK5::new();
    topk.push(f32::NAN.to_bits(), 1);
    topk.push(f32::INFINITY.to_bits(), 1);
    assert_eq!(topk.fraud_score(), 0);
    topk.push(3.0f32.to_bits(), 1);
    assert_eq!(topk.fraud_score(), 1);
}

#[test]
fn a_full_store_trades_its_farthest_for_a_nearer_one() {
    let mut tk = TopKN::<3>::new();
    tk.push(30, 0);
    tk.push(10, 1);
    tk.push(30, 2);
    tk.push(30, 3);
    assert_eq!(tk.kept(), vec![0, 1, 2]);
    tk.push(20, 4);
    assert_eq!(tk.kept(), vec![4, 1, 2]);
    tk.push(5, 5);
    assert_eq!(tk.kept(), vec![4, 1, 5]);
}

#[test]
fn a_full_store_ignores_what_is_no_nearer() {
    let mut tk = TopKN::<2>::new();
    tk.push(0, 4);
    tk.push(0, 5);
    let before = (tk.dists, tk.indices, tk.max_dist, tk.max_idx, tk.count);
    tk.push(0, 6);
    tk.push(9, 7);
    assert_eq!((tk.dists, tk.indices, tk.max_dist, tk.max_idx, tk.count), before);
}

#[test]
fn manhattan_distance_sums_unsigned_differences() {
    let mut a = [7u8; 16];
    let b = [7u8; 16];
    assert_eq!(manhattan_u8(&a, &b), 0);
    a[0] = 0;
    a[15] = 255;
    assert_eq!(manhattan_u8(&a, &b), 7 + 248);
    assert_eq!(manhattan_u8(&b, &a), 7 + 248);
    assert_eq!(manhattan_u8_scalar(&a, &b), 7 + 248);
}

#[test]
fn ranking_goes_by_distance_and_position() {
    let dists: Vec<u32> = [3.0f32, -0.0, 1.0, 0.0, f32::NAN, 1.0]
        .iter()
        .map(|d| d.to_bits())
        .collect();
    assert_eq!(nearest_first(&dists, 4), vec![1, 3, 2, 5]);
    assert_eq!(nearest_first(&dists, 9), vec![1, 3, 2, 5, 0, 4]);
    assert!(nearest_first(&dists, 0).is_empty());
    assert!(nearest_first(&[], 3).is_empty());
}

#[test]
fn queries_are_quantized_component_by_component() {
    let mut query = [0.0f32; 16];
    query[0] = -1.0;
    query[1] = 1.0;
    query[2] = 0.5;
    let q = quantize_query(&query.map(f32::to_bits));
    assert_eq!(q[..4], [0, 255, 191, 128]);
}

fn centroid_dist(query: &[u32; 16], centroid: &[u32; 14]) -> u32 {
    let mut sum = 0.0f32;
    for i in 0..14 {
        let d = f32::from_bits(query[i]) - f32::from_bits(centroid[i]);
        sum += d * d;
    }
    sum.to_bits()
}

fn vector_dist(query: &[u32; 16], vector: &[u16; 16]) -> u32 {
    let mut sum = 0.0f32;
    for i in 0..16 {
        let d = f32::from_bits(query[i]) - half::f16::from_bits(vector[i]).to_f32();
        sum += d * d;
    }
    sum.to_bits()
}

fn at(x: f32) -> [u16; 14] {
    [half::f16::from_f32(x).to_bits(); 14]
}

/// Two clusters round 0.25 and 0.75; frauds lie in the second.
fn two_clusters() -> IvfIndex {
    let centroids = [[0.25f32.to_bits(); 14], [0.75f32.to_bits(); 14]];
    let vectors = [
        at(0.25),
        at(0.26),
        at(0.24),
        at(0.27),
        at(0.23),
        at(0.75),
        at(0.76),
        at(0.74),
        at(0.77),
        at(0.73),
        at(0.60),
    ];
    let labels = [0, 0, 0, 0, 0, 1, 1, 1, 1, 0, 1];
    let bytes = write_index(2, 11, 1, &centroids, &vectors, &labels, &[0, 5], &[5, 6]);
    IvfIndex::load(&bytes).unwrap()
}

fn query(x: f32) -> [u32; 16] {
    let mut q = [x.to_bits(); 16];
    q[14] = 0;
    q[15] = 0;
    q
}

#[test]
fn a_search_counts_the_frauds_among_the_five_nearest() {
    let index = two_clusters();
    assert!(index.is_searchable());
    assert_eq!(index.search(&query(0.25), 1, 50, &centroid_dist, &vector_dist), 0);
    assert_eq!(index.search(&query(0.75), 1, 50, &centroid_dist, &vector_dist), 4);
    assert_eq!(index.search(&query(0.55), 1, 60, &centroid_dist, &vector_dist), 4);
    // between the clusters: 0.60, 0.27, 0.73, 0.26 and 0.74, of which two are frauds
    assert_eq!(index.search(&query(0.5), 2, 40, &centroid_dist, &vector_dist), 2);
}

#[test]
fn probing_more_clusters_than_there_are_looks_at_all() {
    let index = two_clusters();
    for topk in [40, 50, 60, 7] {
        let all = index.search(&query(0.5), 2, topk, &centroid_dist, &vector_dist);
        assert_eq!(index.search(&query(0.5), 99, topk, &centroid_dist, &vector_dist), all);
    }
}

#[test]
fn the_same_search_gives_the_same_score() {
    let index = two_clusters();
    for i in 0..50 {
        let q = query(i as f32 / 50.0);
        let first = index.search(&q, 1, 50, &centroid_dist, &vector_dist);
        assert_eq!(index.search(&q, 1, 50, &centroid_dist, &vector_dist), first);
        assert!(first <= 5);
    }
}

#[test]
fn with_few_candidates_all_of_them_are_kept() {
    let index = two_clusters();
    let q = quantize_query(&query(0.5));
    assert_eq!(index.scan(&q, &vec![1, 0], 50), vec![5, 6, 7, 8, 9, 10, 0, 1, 2, 3, 4]);
}

#[test]
fn with_many_candidates_the_nearest_are_kept() {
    let centroids = [[0u32; 14]];
    let vectors: Vec<[u16; 14]> = (0..100).map(|i| at(i as f32 / 100.0)).collect();
    let bytes = write_index(1, 100, 1, &centroids, &vectors, &[0; 100], &[0], &[100]);
    let index = IvfIndex::load(&bytes).unwrap();
    let mut found = index.scan(&quantize_query(&query(1.0)), &vec![0], 40);
    found.sort();
    assert_eq!(found, (60..100).collect::<Vec<u32>>());
    assert_eq!(index.scan(&quantize_query(&query(1.0)), &vec![0], 60).len(), 60);
    assert_eq!(index.scan(&quantize_query(&query(1.0)), &vec![0], 5).len(), 50);
}

#[test]
fn an_index_whose_clusters_leave_the_vectors_cannot_be_searched() {
    let centroids = [[0u32; 14]];
    let vectors = [at(0.5)];
    let bytes = write_index(1, 1, 1, &centroids, &vectors, &[0], &[0], &[2]);
    assert!(!IvfIndex::load(&bytes).unwrap().is_searchable());
    let bytes = write_index(1, 1, 1, &centroids, &vectors, &[0], &[1], &[1]);
    assert!(!IvfIndex::load(&bytes).unwrap().is_searchable());
    let bytes = write_index(1, 1, 1, &centroids, &vectors, &[0], &[1], &[0]);
    assert!(IvfIndex::load(&bytes).unwrap().is_searchable());
}

#[test]
fn ranking_candidates_uses_the_exact_distances() {
    let index = two_clusters();
    let candidates = vec![5, 6, 7, 8, 0, 1];
    let far = 9.0f32.to_bits();
    let near = 1.0f32.to_bits();
    let dists = vec![far, far, near, near, near, near];
    assert_eq!(index.rerank(&candidates, &dists).fraud_score(), 3);
}

#[test]
fn a_warm_up_searches_for_every_centroid_of_a_small_index() {
    let index = two_clusters();
    let queries = index.warmup_queries();
    assert_eq!(queries, vec![query(0.25), query(0.75)]);
    let scores = index.warmup(1, 50, &centroid_dist, &vector_dist);
    assert_eq!(scores, vec![0, 4]);
}

#[test]
fn a_warm_up_takes_steps_through_a_large_index() {
    let centroids: Vec<[u32; 14]> = (0..100u32).map(|i| [(i as f32).to_bits(); 14]).collect();
    let bytes = write_index(100, 0, 1, &centroids, &[], &[], &[0; 100], &[0; 100]);
    let index = IvfIndex::load(&bytes).unwrap();
    let queries = index.warmup_queries();
    assert_eq!(queries.len(), 34);
    assert_eq!(queries[0], query(0.0));
    assert_eq!(queries[1], query(3.0));
    assert_eq!(queries[33], query(99.0));
    assert_eq!(index.warmup(7, 60, &centroid_dist, &vector_dist), vec![0; 34]);
}

#[test]
fn touching_reads_one_component_of_every_page() {
    let mut bytes = vec![1u8; 8193];
    bytes[0] = 7;
    bytes[4096] = 50;
    bytes[8192] = 200;
    assert_eq!(fraud_knn::warmup::touch_bytes(&bytes), 257);
    assert_eq!(fraud_knn::warmup::touch_bytes(&vec![]), 0);
    let words = vec![65535u16; 4097];
    assert_eq!(fraud_knn::warmup::touch_words(&words), 131070);
}

#[test]
fn one_more_fraud_raises_a_score_by_one_at_most() {
    let index = two_clusters();
    for j in 0..11 {
        if index.labels[j] != 0 {
            continue;
        }
        let mut other = two_clusters();
        other.labels[j] = 1;
        for i in 0..=20 {
            let q = query(i as f32 / 20.0);
            for nprobe in [1, 2] {
                let a = index.search(&q, nprobe, 50, &centroid_dist, &vector_dist);
                let b = other.search(&q, nprobe, 50, &centroid_dist, &vector_dist);
                assert!(b == a || b == a + 1);
            }
        }
    }
    let mut other = two_clusters();
    other.labels[0] = 1;
    assert_eq!(other.search(&query(0.25), 1, 50, &centroid_dist, &vector_dist), 1);
}
