use fraud_knn::cluster::{organize, size_range};
use fraud_knn::encode::write_index;
use fraud_knn::index::IvfIndex;
use fraud_knn::kmeans::{count_changes, nearest_centroid, KMeans};
use fraud_knn::recall::{exhaustive_frauds, recall_is_low, same_decision, Corpus, LowRecall};
use fraud_knn::references::{load_references, ReferenceEntry, WrongDims};
use fraud_knn::seeding::{pick, relax, running_sums, Drawing};
use rand::rngs::SmallRng;
use rand::Rng;

type Vector = [u32; 14];

fn dist(a: &Vector, b: &Vector) -> u32 {
    let mut sum = 0.0f32;
    for i in 0..14 {
        let d = f32::from_bits(a[i]) - f32::from_bits(b[i]);
        sum += d * d;
    }
    sum.to_bits()
}

fn add_to(a: u64, v: u32) -> u64 {
    (f64::from_bits(a) + f32::from_bits(v) as f64).to_bits()
}

fn scale(a: u64, b: u64) -> u64 {
    (f64::from_bits(a) * f64::from_bits(b)).to_bits()
}

fn uniform(rng: &mut SmallRng) -> u64 {
    rng.gen::<f64>().to_bits()
}

fn mean(sum: u64, count: u64) -> u32 {
    ((f64::from_bits(sum) / count as f64) as f32).to_bits()
}

fn root(x: u32) -> u32 {
    f32::from_bits(x).sqrt().to_bits()
}

fn at(x: f32) -> Vector {
    [x.to_bits(); 14]
}

/// `n` vectors in tight groups round 0.1, 0.5 and 0.9.
fn groups(n: usize) -> Vec<Vector> {
    (0..n)
        .map(|i| at([0.1, 0.5, 0.9][i % 3] + (i / 3) as f32 * 1e-4))
        .collect()
}

fn entry(dims: usize, label: &str) -> ReferenceEntry {
    ReferenceEntry { vector: vec![7; dims], label: label.to_string() }
}

#[test]
fn references_are_labelled_by_name() {
    let entries = vec![entry(14, "fraud"), entry(14, "legit"), entry(14, "Fraud"), entry(14, "")];
    let refs = load_references(&entries).ok().unwrap();
    assert_eq!(refs.labels, vec![1, 0, 0, 0]);
    assert_eq!(refs.vectors, vec![[7u32; 14]; 4]);
    assert_eq!((refs.frauds, refs.percent), (1, 25));
}

#[test]
fn the_share_of_frauds_is_rounded_down() {
    let entries = vec![entry(14, "fraud"), entry(14, "fraud"), entry(14, "legit")];
    assert_eq!(load_references(&entries).ok().unwrap().percent, 66);
}

#[test]
fn the_first_reference_of_wrong_dimensions_is_reported() {
    let entries = vec![entry(14, "fraud"), entry(13, "legit"), entry(15, "legit")];
    assert_eq!(load_references(&entries).err(), Some(WrongDims { index: 1, dims: 13 }));
    let entries = vec![entry(0, "fraud")];
    assert_eq!(load_references(&entries).err(), Some(WrongDims { index: 0, dims: 0 }));
}

#[test]
fn the_first_of_the_nearest_centroids_is_taken() {
    let centroids = [at(0.9), at(0.1), at(0.5), at(0.1)];
    assert_eq!(nearest_centroid(&at(0.2), &centroids, &dist), 1);
    assert_eq!(nearest_centroid(&at(0.95), &centroids, &dist), 0);
    assert_eq!(nearest_centroid(&at(f32::NAN), &centroids, &dist), 0);
    assert_eq!(nearest_centroid(&at(0.2), &[], &dist), 0);
}

#[test]
fn a_distance_that_is_no_number_is_passed_over() {
    let centroids = [at(f32::NAN), at(f32::INFINITY), at(0.5), at(0.4)];
    assert_eq!(nearest_centroid(&at(0.0), &centroids, &dist), 3);
    assert_eq!(nearest_centroid(&at(0.0), &centroids[..2], &dist), 0);
}

#[test]
fn distances_only_fall() {
    let mut min_dists: Vec<u32> = [f32::INFINITY, 2.0, 2.0, 2.0].map(f32::to_bits).to_vec();
    let dists = [5.0, 1.0, 3.0, f32::NAN].map(f32::to_bits).to_vec();
    relax(&mut min_dists, &dists);
    assert_eq!(min_dists, [5.0, 1.0, 2.0, 2.0].map(f32::to_bits).to_vec());
}

#[test]
fn sums_run_from_zero() {
    let values = [1.5f32, 0.25, 2.0].map(f32::to_bits).to_vec();
    let sums = running_sums(&values, &add_to);
    assert_eq!(sums, [1.5f64, 1.75, 3.75].map(f64::to_bits).to_vec());
}

#[test]
fn the_first_sum_that_reaches_the_threshold_is_picked() {
    let sums = [1.0f64, 1.0, 3.0, 6.0].map(f64::to_bits).to_vec();
    assert_eq!(pick(&sums, 0.0f64.to_bits()), 0);
    assert_eq!(pick(&sums, 1.0f64.to_bits()), 0);
    assert_eq!(pick(&sums, 1.5f64.to_bits()), 2);
    assert_eq!(pick(&sums, 6.0f64.to_bits()), 3);
    assert_eq!(pick(&sums, 7.0f64.to_bits()), 3);
    assert_eq!(pick(&sums, f64::NAN.to_bits()), 3);
}

#[test]
fn seeds_are_vectors_of_the_input() {
    let vectors = groups(30);
    let drawing = Drawing { uniform, dist, add_to, scale };
    for seed in 0..200 {
        let centroids = drawing.kmeans_plus_plus(&vectors, 3, seed);
        assert_eq!(centroids.len(), 3);
        assert!(centroids.iter().all(|c| vectors.contains(c)));
    }
    assert_eq!(drawing.kmeans_plus_plus(&vectors, 0, 1).len(), 1);
    assert_eq!(drawing.kmeans_plus_plus(&vectors, 1, 1).len(), 1);
}

#[test]
fn different_seeds_draw_different_first_vectors() {
    let vectors = groups(30);
    let drawing = Drawing { uniform, dist, add_to, scale };
    let first = drawing.kmeans_plus_plus(&vectors, 1, 0);
    assert!((1..100).any(|seed| drawing.kmeans_plus_plus(&vectors, 1, seed) != first));
    assert_eq!(drawing.kmeans_plus_plus(&vectors, 1, 0), first);
}

#[test]
fn the_share_decides_the_next_seed() {
    let vectors = vec![at(0.0), at(1.0), at(2.0)];
    let none = Drawing { uniform: |_: &mut SmallRng| 0.0f64.to_bits(), dist, add_to, scale };
    let all = Drawing { uniform: |_: &mut SmallRng| 1.0f64.to_bits(), dist, add_to, scale };
    for seed in 0..20 {
        assert_eq!(none.kmeans_plus_plus(&vectors, 2, seed)[1], at(0.0));
        let drawn = all.kmeans_plus_plus(&vectors, 2, seed);
        let last = if drawn[0] == at(2.0) { at(1.0) } else { at(2.0) };
        assert_eq!(drawn[1], last);
    }
}

#[test]
fn a_share_of_the_total_chooses_a_seed() {
    let vectors = vec![at(0.0), at(1.0), at(2.0)];
    let drawing = Drawing { uniform, dist, add_to, scale };
    // squared distances from the first: 0, 14 and 56
    for (share, chosen) in [(0.0f64, 0), (0.1, 1), (0.2, 1), (0.25, 2), (1.0, 2)] {
        let mut min_dists = vec![f32::INFINITY.to_bits(); 3];
        let r = drawing.next_seed(&vectors, &at(0.0), &mut min_dists, share.to_bits());
        assert_eq!(r, chosen, "share {share}");
        assert_eq!(min_dists, [0.0f32, 14.0, 56.0].map(f32::to_bits).to_vec());
    }
}

fn kmeans() -> KMeans<
    fn(&mut SmallRng) -> u64,
    fn(&Vector, &Vector) -> u32,
    fn(u64, u32) -> u64,
    fn(u64, u64) -> u64,
    fn(u64, u64) -> u32,
    fn(u32) -> u32,
> {
    KMeans { drawing: Drawing { uniform, dist, add_to, scale }, mean, root }
}

#[test]
fn groups_are_found() {
    let vectors = groups(30);
    let clustering = kmeans().run_kmeans(&vectors, 3, 25);
    assert_eq!(clustering.centroids.len(), 3);
    assert_eq!(clustering.assignments.len(), 30);
    for i in 0..30 {
        assert_eq!(clustering.assignments[i], clustering.assignments[i % 3]);
    }
    let mut found: Vec<f32> = clustering.centroids.iter().map(|c| f32::from_bits(c[0])).collect();
    found.sort_by(f32::total_cmp);
    for (x, y) in found.iter().zip([0.10045, 0.50045, 0.90045]) {
        assert!((x - y).abs() < 1e-5, "{x} is not {y}");
    }
    let last = clustering.progress.last().unwrap();
    assert_eq!(last.changes, 0);
    assert!(f32::from_bits(last.max_delta) < 1e-5);
    for progress in &clustering.progress[..clustering.progress.len() - 1] {
        assert!(f32::from_bits(progress.max_delta) >= 1e-5);
    }
}

#[test]
fn iterations_are_limited() {
    let vectors = groups(30);
    let clustering = kmeans().run_kmeans(&vectors, 3, 0);
    assert!(clustering.progress.is_empty());
    assert_eq!(clustering.assignments, vec![0; 30]);
    assert!(clustering.centroids.iter().all(|c| vectors.contains(c)));
    let spread: Vec<Vector> = (0..50).map(|i| at((i * i) as f32)).collect();
    assert_eq!(kmeans().run_kmeans(&spread, 4, 1).progress.len(), 1);
}

#[test]
fn a_cluster_without_vectors_keeps_its_centroid() {
    let vectors = vec![at(0.5); 6];
    let clustering = kmeans().run_kmeans(&vectors, 2, 5);
    assert_eq!(clustering.centroids, vec![at(0.5), at(0.5)]);
    assert_eq!(clustering.assignments, vec![0; 6]);
    assert_eq!(clustering.progress.len(), 1);
    assert_eq!(clustering.progress[0].max_delta, 0);
}

#[test]
fn centroids_move_to_the_mean_of_their_vectors() {
    let vectors = vec![at(0.0), at(1.0), at(2.0), at(10.0), at(14.0)];
    let clustering = kmeans().iterate(&vectors, vec![at(3.0), at(9.0)], 1);
    assert_eq!(clustering.assignments, vec![0, 0, 0, 1, 1]);
    assert_eq!(clustering.centroids, vec![at(1.0), at(12.0)]);
    assert_eq!(clustering.progress[0].changes, 2);
    // the second centroid moved by 3 in each of 14 components
    assert_eq!(f32::from_bits(clustering.progress[0].max_delta), 126.0f32.sqrt());
    let settled = kmeans().iterate(&vectors, vec![at(3.0), at(9.0)], 9);
    assert_eq!(settled.progress.len(), 2);
    assert_eq!(settled.progress[1].changes, 0);
    assert_eq!(settled.progress[1].max_delta, 0);
    assert_eq!(settled.centroids, clustering.centroids);
}

#[test]
fn one_iteration_of_one_cluster_gives_the_mean() {
    let clustering = kmeans().run_kmeans(&[at(0.0), at(2.0)], 1, 1);
    assert_eq!(clustering.centroids, vec![at(1.0)]);
    assert_eq!(clustering.assignments, vec![0, 0]);
    assert_eq!(clustering.progress.len(), 1);
}

#[test]
fn changes_are_counted() {
    assert_eq!(count_changes(&vec![0, 1, 2], &vec![0, 2, 1]), 2);
    assert_eq!(count_changes(&vec![], &vec![]), 0);
}

#[test]
fn vectors_are_grouped_in_order() {
    let vectors: Vec<Vector> = (0..5).map(|i| at(i as f32)).collect();
    let clusters = organize(&vectors, &[0, 1, 0, 1, 1], &[2, 0, 2, 2, 0], 4);
    assert_eq!(clusters.offsets, vec![0, 2, 2, 5]);
    assert_eq!(clusters.sizes, vec![2, 0, 3, 0]);
    assert_eq!(clusters.vectors, vec![at(1.0), at(4.0), at(0.0), at(2.0), at(3.0)]);
    assert_eq!(clusters.labels, vec![1, 1, 0, 0, 1]);
    assert_eq!(size_range(&clusters.sizes), (0, 3));
    assert_eq!(size_range(&vec![]), (0, 0));
}

#[test]
fn grouping_loses_nothing() {
    let vectors: Vec<Vector> = (0..200).map(|i| at(i as f32)).collect();
    let labels: Vec<u8> = (0..200).map(|i| (i % 2) as u8).collect();
    let assignments: Vec<u32> = (0..200).map(|i| (i * 7919) % 13).collect();
    let clusters = organize(&vectors, &labels, &assignments, 13);
    let mut seen: Vec<u32> = clusters.vectors.iter().map(|v| f32::from_bits(v[0]) as u32).collect();
    for c in 0..13 {
        let start = clusters.offsets[c] as usize;
        for i in &seen[start..start + clusters.sizes[c] as usize] {
            assert_eq!(assignments[*i as usize], c as u32);
        }
    }
    seen.sort();
    assert_eq!(seen, (0..200).collect::<Vec<u32>>());
}

#[test]
fn five_neighbours_are_counted() {
    let dists: Vec<u32> = [0.0f32, 9.0, 1.0, 2.0, 3.0, 3.0, 8.0].map(f32::to_bits).to_vec();
    assert_eq!(exhaustive_frauds(&dists, &[1, 1, 1, 0, 0, 1, 1]), 3);
    assert_eq!(exhaustive_frauds(&dists[..5], &[1, 1, 0, 0, 0]), 2);
}

#[test]
fn decisions_agree_on_the_same_side_of_three() {
    assert!(same_decision(0, 2));
    assert!(same_decision(3, 5));
    assert!(!same_decision(2, 3));
}

#[test]
fn recall_below_99_in_100_is_low() {
    assert!(recall_is_low(960, 1000));
    assert!(recall_is_low(989, 1000));
    assert!(!recall_is_low(990, 1000));
    assert!(!recall_is_low(0, 0));
    assert!(recall_is_low(0, 1));
}

#[test]
fn an_index_is_built_written_loaded_and_searched() {
    let vectors = groups(60);
    let labels: Vec<u8> = (0..60).map(|i| if i % 3 == 2 { 1 } else { 0 }).collect();
    let clustering = kmeans().run_kmeans(&vectors, 3, 25);
    let clusters = organize(&vectors, &labels, &clustering.assignments, 3);
    let corpus = Corpus {
        vectors: &vectors,
        labels: &labels,
        centroids: &clustering.centroids,
        clusters: &clusters,
    };
    assert_eq!(corpus.validate_recall(&dist, 60, 1), Ok(60));
    assert_eq!(corpus.validate_recall(&dist, 10, 1), Ok(10));
    assert_eq!(corpus.validate_recall(&dist, 0, 1), Ok(0));
    // there are no 1000 vectors to sample
    assert_eq!(corpus.validate_recall(&dist, 1000, 1), Ok(60));
    assert_eq!(corpus.search_both(&dist, &vectors[2], 1), (5, 5));
    assert_eq!(corpus.search_both(&dist, &vectors[2], 0), (5, 0));
    let stored: Vec<[u16; 14]> = clusters
        .vectors
        .iter()
        .map(|v| v.map(|x| half::f16::from_f32(f32::from_bits(x)).to_bits()))
        .collect();
    let bytes = write_index(
        3,
        60,
        1,
        &clustering.centroids,
        &stored,
        &clusters.labels,
        &clusters.offsets,
        &clusters.sizes,
    );
    let index = IvfIndex::load(&bytes).unwrap();
    assert!(index.is_searchable());
    let centroid_dist = |q: &[u32; 16], c: &[u32; 14]| {
        let mut head = [0u32; 14];
        head.copy_from_slice(&q[..14]);
        dist(&head, c)
    };
    let vector_dist = |q: &[u32; 16], v: &[u16; 16]| {
        let mut sum = 0.0f32;
        for i in 0..16 {
            let d = f32::from_bits(q[i]) - half::f16::from_bits(v[i]).to_f32();
            sum += d * d;
        }
        sum.to_bits()
    };
    for (x, frauds) in [(0.1f32, 0), (0.5, 0), (0.9, 5)] {
        let mut q = [x.to_bits(); 16];
        q[14] = 0;
        q[15] = 0;
        assert_eq!(index.search(&q, 1, 60, &centroid_dist, &vector_dist), frauds);
    }
}

#[test]
fn matches_are_counted_over_the_sample() {
    // the vectors of the first cluster have lost their labels
    let vectors: Vec<Vector> = (0..10).map(|i| at(if i < 5 { 0.0 } else { 1.0 })).collect();
    let labels = [1u8; 10];
    let centroids = [at(0.0), at(1.0)];
    let assignments = [0, 0, 0, 0, 0, 1, 1, 1, 1, 1];
    let mut clusters = organize(&vectors, &labels, &assignments, 2);
    for i in 0..5 {
        clusters.labels[i] = 0;
    }
    let corpus = Corpus {
        vectors: &vectors,
        labels: &labels,
        centroids: &centroids,
        clusters: &clusters,
    };
    assert_eq!(corpus.count_matches(&dist, &vec![0, 1, 7, 8, 9], 1), 3);
    assert_eq!(corpus.validate_recall(&dist, 10, 1), Err(LowRecall { matches: 5 }));
    assert_eq!(corpus.validate_recall(&dist, 1000, 1), Err(LowRecall { matches: 5 }));
}
