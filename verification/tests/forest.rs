use fraud_knn::forest::{Forest, RawModel, RawTree};

fn bits(values: &[f32]) -> Vec<u32> {
    values.iter().map(|v| v.to_bits()).collect()
}

/// Splits on one feature; leaves of the given probabilities.
fn stump(feature: i16, threshold: f32, low: f32, high: f32) -> RawTree {
    RawTree {
        n_nodes: 3,
        features: vec![feature, -2, -2],
        thresholds: bits(&[threshold, 0.0, 0.0]),
        lefts: vec![1, -1, -1],
        rights: vec![2, -1, -1],
        probs: bits(&[-1.0, low, high]),
    }
}

fn leaf(prob: f32) -> RawTree {
    RawTree {
        n_nodes: 1,
        features: vec![-2],
        thresholds: bits(&[0.0]),
        lefts: vec![-1],
        rights: vec![-1],
        probs: bits(&[prob]),
    }
}

fn model(n_trees: usize, trees: Vec<RawTree>) -> RawModel {
    RawModel { n_trees, threshold: 0.5f32.to_bits(), trees }
}

fn add_to(a: u32, p: u32) -> u32 {
    (f32::from_bits(a) + f32::from_bits(p)).to_bits()
}

fn divide(a: u32, n: usize) -> u32 {
    (f32::from_bits(a) / n as f32).to_bits()
}

fn features(x: f32) -> [u32; 16] {
    [x.to_bits(); 16]
}

fn predict(forest: &Forest, x: f32) -> f32 {
    assert!(forest.is_decided(&features(x)));
    f32::from_bits(forest.predict(&features(x), &add_to, &divide).1)
}

#[test]
fn a_forest_averages_its_trees() {
    let raw = model(2, vec![stump(3, 0.25, 0.1, 0.9), stump(0, 0.75, 0.2, 0.4)]);
    assert!(raw.is_loadable());
    let forest = Forest::load(&raw);
    assert_eq!(predict(&forest, 0.0), (0.1 + 0.2) / 2.0);
    assert_eq!(predict(&forest, 0.5), (0.9 + 0.2) / 2.0);
    assert_eq!(predict(&forest, 1.0), (0.9 + 0.4) / 2.0);
    // a feature that equals the threshold goes left
    assert_eq!(predict(&forest, 0.25), (0.1 + 0.2) / 2.0);
}

#[test]
fn children_are_counted_over_all_trees() {
    let raw = model(3, vec![leaf(0.5), stump(1, 0.0, 0.25, 0.75), leaf(1.0)]);
    let forest = Forest::load(&raw);
    assert_eq!(forest.offsets, vec![0, 1, 4, 5]);
    assert_eq!(forest.nodes.left, vec![-1, 2, -1, -1, -1]);
    assert_eq!(forest.nodes.right, vec![-1, 3, -1, -1, -1]);
    assert_eq!(forest.nodes.feat, vec![-2, 1, -2, -2, -2]);
    assert_eq!(forest.nodes.thresh, vec![0; 5]);
    assert_eq!(forest.nodes.probs, bits(&[0.5, -1.0, 0.25, 0.75, 1.0]));
}

#[test]
fn no_more_trees_are_used_than_the_model_names_or_holds() {
    let forest = Forest::load(&model(1, vec![leaf(0.25), leaf(1.0)]));
    assert_eq!(forest.n_trees, 1);
    assert_eq!(predict(&forest, 0.0), 0.25);
    let forest = Forest::load(&model(9, vec![leaf(0.25), leaf(0.75)]));
    assert_eq!(forest.n_trees, 2);
    assert_eq!(predict(&forest, 0.0), 0.5);
}

#[test]
fn a_score_at_the_threshold_is_a_fraud() {
    let forest = Forest::load(&model(1, vec![stump(2, 0.5, 0.5, 0.49)]));
    assert_eq!(f32::from_bits(forest.threshold()), 0.5);
    assert!(forest.is_fraud(&features(0.0), &add_to, &divide));
    assert!(!forest.is_fraud(&features(1.0), &add_to, &divide));
    assert_eq!(forest.fraud_score(&features(1.0), &add_to, &divide), 0.49f32.to_bits());
}

#[test]
fn a_prediction_is_an_approval_and_a_score() {
    let forest = Forest::load(&model(1, vec![stump(2, 0.5, 0.5, 0.49)]));
    assert_eq!(forest.predict(&features(0.0), &add_to, &divide), (false, 0.5f32.to_bits()));
    assert_eq!(forest.predict(&features(1.0), &add_to, &divide), (true, 0.49f32.to_bits()));
}

#[test]
fn padding_is_ignored() {
    let raw = model(2, vec![stump(13, 0.25, 0.1, 0.9), stump(0, 0.75, 0.2, 0.4)]);
    let forest = Forest::load(&raw);
    for x in [0.0, 0.5, 1.0] {
        let a = features(x);
        let mut b = a;
        b[14] = (-3.0f32).to_bits();
        b[15] = f32::NAN.to_bits();
        assert_eq!(
            forest.predict(&a, &add_to, &divide),
            forest.predict(&b, &add_to, &divide)
        );
    }
}

#[test]
fn a_forest_of_no_trees_has_no_score() {
    let forest = Forest::load(&model(0, vec![leaf(1.0)]));
    assert!(predict(&forest, 0.0).is_nan());
    assert!(!forest.is_fraud(&features(0.0), &add_to, &divide));
}

#[test]
fn what_is_not_a_number_goes_right() {
    let forest = Forest::load(&model(1, vec![stump(2, 0.5, 0.125, 0.875)]));
    assert_eq!(predict(&forest, f32::NAN), 0.875);
}

#[test]
fn walks_that_reach_no_leaf_are_told_apart() {
    // the right child leads back to the root
    let mut tree = stump(2, 0.5, 0.25, 0.0);
    tree.rights[0] = 0;
    let forest = Forest::load(&model(1, vec![tree]));
    assert!(forest.is_decided(&features(0.0)));
    assert!(!forest.is_decided(&features(1.0)));
    // a child that is no node
    let mut tree = stump(2, 0.5, 0.25, 0.0);
    tree.rights[0] = 7;
    let forest = Forest::load(&model(1, vec![tree]));
    assert!(!forest.is_decided(&features(1.0)));
    // a feature that is none
    let forest = Forest::load(&model(1, vec![stump(16, 0.5, 0.25, 0.0)]));
    assert!(!forest.is_decided(&features(0.0)));
    let forest = Forest::load(&model(1, vec![stump(15, 0.5, 0.25, 0.0)]));
    assert!(forest.is_decided(&features(0.0)));
}

#[test]
fn a_walk_may_pass_through_every_node() {
    let n = 40;
    let mut tree = RawTree {
        n_nodes: n,
        features: vec![0; n],
        thresholds: bits(&vec![0.5; n]),
        lefts: (0..n as i32).map(|i| i + 1).collect(),
        rights: vec![0; n],
        probs: bits(&vec![0.0; n]),
    };
    tree.lefts[n - 1] = -1;
    tree.probs[n - 1] = 0.75f32.to_bits();
    let forest = Forest::load(&model(1, vec![tree]));
    assert_eq!(predict(&forest, 0.0), 0.75);
    assert_eq!(forest.nodes.find_leaf(&features(0.0), 0), Some(n - 1));
    assert_eq!(forest.nodes.find_leaf(&features(1.0), 0), None);
}

#[test]
fn models_that_lack_nodes_cannot_be_loaded() {
    let mut tree = leaf(0.5);
    tree.n_nodes = 2;
    assert!(!model(1, vec![tree]).is_loadable());
    let mut tree = leaf(0.5);
    tree.n_nodes = 2;
    assert!(model(1, vec![leaf(0.5), tree]).is_loadable());
    let mut tree = stump(0, 0.0, 0.0, 1.0);
    tree.lefts[0] = i32::MAX;
    assert!(model(1, vec![tree]).is_loadable());
    let mut tree = stump(0, 0.0, 0.0, 1.0);
    tree.lefts[0] = i32::MAX;
    assert!(!model(2, vec![leaf(0.5), tree]).is_loadable());
}
