use ternary_trees::{
    can_permute, reads_all, reads_node, count_labels, count_leaves_node, majority, permute_feature, predict_node, prune_node,
    simple_hash, split_candidates, split_counts, Confidence, RandomForest, Sample, SplitCandidate,
    Ternary, TernaryDecisionTree, TreeNode,
};

fn never_split(_parent: &[usize; 3], _cands: &[SplitCandidate]) -> Option<usize> {
    None
}

fn first_split(_parent: &[usize; 3], cands: &[SplitCandidate]) -> Option<usize> {
    if cands.is_empty() {
        None
    } else {
        Some(0)
    }
}

fn out_of_range_split(_parent: &[usize; 3], cands: &[SplitCandidate]) -> Option<usize> {
    Some(cands.len())
}

fn leaf(label: Ternary) -> TreeNode {
    TreeNode::Leaf { label, confidence: Confidence { num: 1, den: 1 }, count: 1 }
}

fn six_samples() -> Vec<Sample> {
    vec![
        (vec![-1, -1], Ternary::Neg),
        (vec![-1, 0], Ternary::Neg),
        (vec![1, 1], Ternary::Pos),
        (vec![1, 0], Ternary::Pos),
        (vec![0, 0], Ternary::Zero),
        (vec![0, 0], Ternary::Zero),
    ]
}

#[test]
fn from_i8_round_trips_every_value() {
    for t in Ternary::values() {
        assert_eq!(Ternary::from_i8(t.to_i8()), Some(t));
    }
    assert_eq!(Ternary::from_i8(0), Some(Ternary::Zero));
    assert_eq!(Ternary::from_i8(1), Some(Ternary::Pos));
    for v in [-128i8, -2, 2, 127] {
        assert_eq!(Ternary::from_i8(v), None);
    }
}

#[test]
fn count_labels_of_nothing_is_zero() {
    let samples: Vec<Sample> = vec![];
    assert_eq!(count_labels(&samples), [0, 0, 0]);
}

#[test]
fn label_counts_add_up_to_the_sample_count() {
    let samples = six_samples();
    let c = count_labels(&samples);
    assert_eq!(c, [2, 2, 2]);
    assert_eq!(c[0] + c[1] + c[2], samples.len());
}

#[test]
fn majority_breaks_ties_towards_neg_then_zero() {
    let empty: Vec<Sample> = vec![];
    assert_eq!(majority(&empty), Ternary::Neg);
    assert_eq!(majority(&six_samples()), Ternary::Neg);
    let zero_pos = vec![(vec![0], Ternary::Zero), (vec![0], Ternary::Pos)];
    assert_eq!(majority(&zero_pos), Ternary::Zero);
    let pos = vec![(vec![0], Ternary::Zero), (vec![0], Ternary::Pos), (vec![1], Ternary::Pos)];
    assert_eq!(majority(&pos), Ternary::Pos);
}

#[test]
fn split_counts_share_out_the_labels() {
    let c = split_counts(&six_samples(), 1, 0);
    assert_eq!(c.feature_idx, 1);
    assert_eq!(c.threshold, 0);
    assert_eq!(c.left_counts, [1, 0, 0]);
    assert_eq!(c.mid_counts, [1, 2, 1]);
    assert_eq!(c.right_counts, [0, 0, 1]);
}

#[test]
fn split_candidates_skip_splits_with_an_empty_branch() {
    let cands = split_candidates(&six_samples(), 2);
    assert_eq!(cands.len(), 2);
    assert_eq!((cands[0].feature_idx, cands[0].threshold), (0, 0));
    assert_eq!(cands[0].left_counts, [2, 0, 0]);
    assert_eq!(cands[0].mid_counts, [0, 2, 0]);
    assert_eq!(cands[0].right_counts, [0, 0, 2]);
    assert_eq!((cands[1].feature_idx, cands[1].threshold), (1, 0));
}

#[test]
fn declining_chooser_gives_the_majority_leaf() {
    let mut tree = TernaryDecisionTree::new(5, 1);
    tree.fit(&six_samples(), &never_split);
    assert_eq!(tree.count_leaves(), 1);
    assert_eq!(tree.predict(&[1, 1]), Some(Ternary::Neg));
}

#[test]
fn out_of_range_choice_gives_a_leaf() {
    let mut tree = TernaryDecisionTree::new(5, 1);
    tree.fit(&six_samples(), &out_of_range_split);
    assert_eq!(tree.count_leaves(), 1);
}

#[test]
fn chosen_split_is_followed() {
    let mut tree = TernaryDecisionTree::new(5, 1);
    tree.fit(&six_samples(), &first_split);
    assert_eq!(tree.count_leaves(), 3);
    assert_eq!(tree.predict(&[-1, 1]), Some(Ternary::Neg));
    assert_eq!(tree.predict(&[0, -1]), Some(Ternary::Zero));
    assert_eq!(tree.predict(&[1, -1]), Some(Ternary::Pos));
}

#[test]
fn depth_limit_zero_gives_a_single_leaf() {
    let mut tree = TernaryDecisionTree::new(0, 1);
    tree.fit(&six_samples(), &first_split);
    assert_eq!(tree.count_leaves(), 1);
}

#[test]
fn too_few_samples_give_a_single_leaf() {
    let mut tree = TernaryDecisionTree::new(5, 6);
    tree.fit(&six_samples(), &first_split);
    assert_eq!(tree.count_leaves(), 1);
}

#[test]
fn ninety_five_percent_purity_stops_growing() {
    // 19 of 20 samples agree: 20 * 19 >= 19 * 20, so no split is tried.
    let mut samples: Vec<Sample> = Vec::new();
    for _ in 0..19 {
        samples.push((vec![0], Ternary::Pos));
    }
    samples.push((vec![1], Ternary::Neg));
    let mut tree = TernaryDecisionTree::new(5, 1);
    tree.fit(&samples, &first_split);
    assert_eq!(tree.count_leaves(), 1);
    assert_eq!(tree.predict(&[1]), Some(Ternary::Pos));
}

#[test]
fn grown_tree_has_at_most_one_leaf_per_sample() {
    let samples = six_samples();
    let mut tree = TernaryDecisionTree::new(10, 0);
    tree.fit(&samples, &first_split);
    assert!(tree.count_leaves() <= samples.len());
}

#[test]
fn predict_node_follows_the_branches() {
    let node = TreeNode::Internal {
        feature_idx: 1,
        threshold: 0,
        left: Box::new(leaf(Ternary::Neg)),
        middle: Box::new(leaf(Ternary::Zero)),
        right: Box::new(leaf(Ternary::Pos)),
    };
    assert_eq!(predict_node(&node, &[5, -1]), Ternary::Neg);
    assert_eq!(predict_node(&node, &[5, 0]), Ternary::Zero);
    assert_eq!(predict_node(&node, &[5, 1]), Ternary::Pos);
    assert_eq!(count_leaves_node(&node), 3);
}

fn counterexample_tree() -> TreeNode {
    TreeNode::Internal {
        feature_idx: 0,
        threshold: 0,
        left: Box::new(TreeNode::Internal {
            feature_idx: 1,
            threshold: 0,
            left: Box::new(leaf(Ternary::Neg)),
            middle: Box::new(leaf(Ternary::Pos)),
            right: Box::new(leaf(Ternary::Neg)),
        }),
        middle: Box::new(leaf(Ternary::Neg)),
        right: Box::new(leaf(Ternary::Neg)),
    }
}

fn counterexample_validation() -> Vec<Sample> {
    vec![
        (vec![-1, 0], Ternary::Pos),
        (vec![0, 0], Ternary::Neg),
        (vec![0, 0], Ternary::Neg),
        (vec![1, 0], Ternary::Neg),
    ]
}

#[test]
fn pruning_judges_each_subtree_on_the_rows_that_reach_it() {
    let tree = counterexample_tree();
    let validation = counterexample_validation();
    let before = validation.iter().filter(|(f, l)| predict_node(&tree, f) == *l).count();
    assert_eq!(before, 4);
    let pruned = prune_node(tree, &validation);
    // The left subtree sees only the Pos row and becomes a Pos leaf; the root stays.
    assert_eq!(count_leaves_node(&pruned), 3);
    match &pruned {
        TreeNode::Internal { left, .. } => match &**left {
            TreeNode::Leaf { label, confidence, count } => {
                assert_eq!(*label, Ternary::Pos);
                assert_eq!(*confidence, Confidence { num: 1, den: 1 });
                assert_eq!(*count, 1);
            }
            TreeNode::Internal { .. } => panic!("expected a leaf on the left"),
        },
        TreeNode::Leaf { .. } => panic!("expected the root to stay"),
    }
    let after = validation.iter().filter(|(f, l)| predict_node(&pruned, f) == *l).count();
    assert_eq!(after, 4);
}

#[test]
fn pruning_with_no_validation_rows_leaves_the_empty_leaf() {
    let node = counterexample_tree();
    let empty: Vec<Sample> = vec![];
    let pruned = prune_node(node, &empty);
    match pruned {
        TreeNode::Leaf { label, confidence, count } => {
            assert_eq!(label, Ternary::Neg);
            assert_eq!(confidence, Confidence { num: 1, den: 1 });
            assert_eq!(count, 0);
        }
        TreeNode::Internal { .. } => panic!("expected a leaf"),
    }
}

#[test]
fn pruning_checks_report_short_rows() {
    let node = counterexample_tree();
    assert!(reads_all(&node, &counterexample_validation()));
    assert!(!reads_node(&node, &[-1]));
    assert!(reads_node(&node, &[0]));
    let mut tree = TernaryDecisionTree::new(5, 1);
    assert!(tree.can_predict(&[]));
    tree.fit(&six_samples(), &first_split);
    assert!(!tree.can_prune(&[(vec![], Ternary::Neg)]));
    assert!(tree.can_prune(&six_samples()));
    assert!(!can_permute(&[(vec![0], Ternary::Neg), (vec![], Ternary::Neg)], 0));
    assert!(can_permute(&[(vec![0], Ternary::Neg), (vec![], Ternary::Neg), (vec![1], Ternary::Pos)], 0));
}

#[test]
fn ragged_samples_that_never_split_still_fit() {
    // A single label stops growing before any feature is read.
    let single = vec![(vec![1], Ternary::Pos), (vec![], Ternary::Pos), (vec![0, 1, 1], Ternary::Pos)];
    let mut tree = TernaryDecisionTree::new(5, 1);
    tree.fit(&single, &first_split);
    assert_eq!(tree.count_leaves(), 1);
    assert_eq!(tree.predict(&[]), Some(Ternary::Pos));
    // A depth limit of zero stops growing too.
    let mixed = vec![(vec![1], Ternary::Pos), (vec![], Ternary::Neg), (vec![0, 1], Ternary::Neg)];
    let mut flat = TernaryDecisionTree::new(0, 1);
    flat.fit(&mixed, &first_split);
    assert_eq!(flat.predict(&[]), Some(Ternary::Neg));
}

#[test]
fn ragged_samples_with_the_narrowest_row_first_fit() {
    let samples = vec![
        (vec![-1], Ternary::Neg),
        (vec![0, 5], Ternary::Zero),
        (vec![1, 5, 5], Ternary::Pos),
    ];
    let mut tree = TernaryDecisionTree::new(5, 0);
    tree.fit(&samples, &first_split);
    assert_eq!(tree.count_leaves(), 3);
    assert_eq!(tree.predict(&[0]), Some(Ternary::Zero));
}

#[test]
fn pruning_twice_changes_nothing_more() {
    let samples = six_samples();
    let mut tree = TernaryDecisionTree::new(10, 0);
    tree.fit(&samples, &first_split);
    let validation = vec![(vec![-1, 0], Ternary::Neg), (vec![1, 0], Ternary::Neg)];
    tree.prune(&validation);
    let once = tree.count_leaves();
    let p_once: Vec<Option<Ternary>> = samples.iter().map(|(f, _)| tree.predict(f)).collect();
    tree.prune(&validation);
    assert_eq!(tree.count_leaves(), once);
    let p_twice: Vec<Option<Ternary>> = samples.iter().map(|(f, _)| tree.predict(f)).collect();
    assert_eq!(p_once, p_twice);
}

#[test]
fn pruning_keeps_an_internal_node_that_scores_better() {
    let node = TreeNode::Internal {
        feature_idx: 0,
        threshold: 0,
        left: Box::new(leaf(Ternary::Neg)),
        middle: Box::new(leaf(Ternary::Zero)),
        right: Box::new(leaf(Ternary::Pos)),
    };
    let validation = vec![
        (vec![-1], Ternary::Neg),
        (vec![0], Ternary::Zero),
        (vec![1], Ternary::Pos),
    ];
    let pruned = prune_node(node, &validation);
    assert_eq!(count_leaves_node(&pruned), 3);
}

#[test]
fn simple_hash_wraps() {
    assert_eq!(simple_hash(0), 12345);
    if usize::BITS == 64 {
        assert_eq!(simple_hash(8), 8828134305);
        assert_eq!(simple_hash(usize::MAX), 18446744072606048716);
    }
}

#[test]
fn fitted_forest_votes_for_the_repeated_bootstrap_sample() {
    let samples = vec![
        (vec![-1], Ternary::Neg),
        (vec![0], Ternary::Zero),
        (vec![1], Ternary::Pos),
        (vec![-1], Ternary::Neg),
        (vec![0], Ternary::Zero),
        (vec![1], Ternary::Pos),
    ];
    let mut rf = RandomForest::new(5, 5, 1, 1);
    rf.fit(&samples);
    assert_eq!(rf.trees.len(), 5);
    // simple_hash(6) % 6 == 3 on 64-bit targets: sample 3 is labelled Neg.
    if usize::BITS == 64 {
        assert_eq!(rf.predict(&[1]), Ternary::Neg);
        assert_eq!(rf.predict(&[0]), Ternary::Neg);
        assert_eq!(rf.count_correct(&samples), 2);
    }
    for t in &rf.trees {
        assert_eq!(t.count_leaves(), 1);
    }
}

#[test]
fn forest_without_samples_or_trees_says_neg() {
    let empty: Vec<Sample> = vec![];
    let mut rf = RandomForest::new(3, 5, 1, 1);
    rf.fit(&empty);
    assert_eq!(rf.predict(&[1]), Ternary::Neg);
    assert_eq!(rf.count_correct(&empty), 0);
    let none = RandomForest::new(0, 5, 1, 1);
    assert_eq!(none.predict(&[1]), Ternary::Neg);
}

#[test]
fn unfitted_trees_do_not_vote() {
    let rf = RandomForest::new(3, 5, 1, 1);
    assert_eq!(rf.predict(&[1]), Ternary::Neg);
    let pos = vec![(vec![1], Ternary::Pos)];
    assert_eq!(rf.count_correct(&pos), 0);
}

#[test]
fn permute_feature_reverses_one_feature() {
    let samples = vec![
        (vec![-1, 1], Ternary::Neg),
        (vec![0, 1], Ternary::Zero),
        (vec![1, 1], Ternary::Pos),
    ];
    let p = permute_feature(&samples, 0);
    assert_eq!(p[0], (vec![1, 1], Ternary::Neg));
    assert_eq!(p[1], (vec![0, 1], Ternary::Zero));
    assert_eq!(p[2], (vec![-1, 1], Ternary::Pos));
}

#[test]
fn permute_feature_leaves_the_middle_row_alone() {
    // The middle row is paired with itself and need not have the feature.
    let samples = vec![(vec![-1, 0], Ternary::Neg), (vec![], Ternary::Zero), (vec![1, 0], Ternary::Pos)];
    let p = permute_feature(&samples, 1);
    assert_eq!(p[1], (vec![], Ternary::Zero));
    assert_eq!(p[0], (vec![-1, 0], Ternary::Neg));
}

#[test]
fn feature_importance_counts_cover_each_feature() {
    let samples = vec![
        (vec![-1, 0], Ternary::Neg),
        (vec![1, 0], Ternary::Pos),
        (vec![0, -1], Ternary::Zero),
        (vec![-1, 0], Ternary::Neg),
        (vec![1, 0], Ternary::Pos),
        (vec![0, 1], Ternary::Zero),
    ];
    let mut rf = RandomForest::new(5, 5, 1, 2);
    rf.fit(&samples);
    let (baseline, permuted) = rf.feature_importance_counts(&samples, 2);
    assert_eq!(permuted.len(), 2);
    if usize::BITS == 64 {
        assert_eq!(baseline, 2);
        assert_eq!(permuted, vec![2, 2]);
    }
}

#[test]
fn clones_are_equal() {
    let node = counterexample_tree();
    let copy = node.clone();
    let validation = counterexample_validation();
    for (f, _) in &validation {
        assert_eq!(predict_node(&node, f), predict_node(&copy, f));
    }
    let mut tree = TernaryDecisionTree::new(5, 1);
    tree.fit(&six_samples(), &first_split);
    let t2 = tree.clone();
    assert_eq!(t2.count_leaves(), tree.count_leaves());
    let rf = RandomForest::new(2, 3, 1, 1);
    let rf2 = rf.clone();
    assert_eq!(rf2.trees.len(), 2);
    assert_eq!(rf2.n_features_per_split, 1);
}
