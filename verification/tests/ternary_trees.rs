use ternary_trees::{
    count_labels, majority, permute_feature, predict_node, prune_node, simple_hash, split_candidates,
    split_counts, Confidence, RandomForest, Sample, SplitCandidate, Ternary, TernaryDecisionTree,
    TreeNode,
};

/// Shannon entropy (base 2) of three label counts.
fn entropy(counts: [usize; 3]) -> f64 {
    let total = counts[0] + counts[1] + counts[2];
    if total == 0 {
        return 0.0;
    }
    let mut h = 0.0;
    for &c in &counts {
        if c > 0 {
            let p = c as f64 / total as f64;
            h -= p * p.log2();
        }
    }
    h
}

/// Picks the candidate of highest information gain (the first on ties), or
/// none when no candidate gains at least 1e-10 bits.
fn best_gain_split(parent: &[usize; 3], cands: &[SplitCandidate]) -> Option<usize> {
    let total = parent[0] + parent[1] + parent[2];
    let parent_entropy = entropy(*parent);
    let mut best_gain = 0.0f64;
    let mut best = None;
    for (i, c) in cands.iter().enumerate() {
        let lt: usize = c.left_counts.iter().sum();
        let eq: usize = c.mid_counts.iter().sum();
        let gt: usize = c.right_counts.iter().sum();
        let child_entropy = (lt as f64 * entropy(c.left_counts)
            + eq as f64 * entropy(c.mid_counts)
            + gt as f64 * entropy(c.right_counts))
            / total as f64;
        let gain = parent_entropy - child_entropy;
        if gain > best_gain {
            best_gain = gain;
            best = Some(i);
        }
    }
    if best_gain < 1e-10 {
        None
    } else {
        best
    }
}

fn leaf(label: Ternary) -> TreeNode {
    TreeNode::Leaf { label, confidence: Confidence { num: 1, den: 1 }, count: 1 }
}

#[test]
fn test_ternary_values() {
    assert_eq!(Ternary::Neg.to_i8(), -1);
    assert_eq!(Ternary::Zero.to_i8(), 0);
    assert_eq!(Ternary::Pos.to_i8(), 1);
}

#[test]
fn test_count_labels() {
    let samples = vec![
        (vec![0], Ternary::Neg),
        (vec![0], Ternary::Neg),
        (vec![0], Ternary::Pos),
    ];
    let counts = count_labels(&samples);
    assert_eq!(counts, [2, 0, 1]);
}

#[test]
fn test_majority() {
    let samples = vec![
        (vec![0], Ternary::Pos),
        (vec![0], Ternary::Pos),
        (vec![0], Ternary::Neg),
    ];
    assert_eq!(majority(&samples), Ternary::Pos);
}

#[test]
fn test_decision_tree_fit_predict() {
    let samples = vec![
        (vec![-1, -1], Ternary::Neg),
        (vec![-1, 0], Ternary::Neg),
        (vec![1, 1], Ternary::Pos),
        (vec![1, 0], Ternary::Pos),
        (vec![0, 0], Ternary::Zero),
        (vec![0, 0], Ternary::Zero),
    ];
    let mut tree = TernaryDecisionTree::new(5, 1);
    tree.fit(&samples, &best_gain_split);
    assert_eq!(tree.predict(&[-1, -1]), Some(Ternary::Neg));
    assert_eq!(tree.predict(&[1, 1]), Some(Ternary::Pos));
}

#[test]
fn test_decision_tree_single_class() {
    let samples = vec![
        (vec![1], Ternary::Pos),
        (vec![1], Ternary::Pos),
        (vec![1], Ternary::Pos),
    ];
    let mut tree = TernaryDecisionTree::new(5, 1);
    tree.fit(&samples, &best_gain_split);
    assert_eq!(tree.predict(&[1]), Some(Ternary::Pos));
}

#[test]
fn test_tree_leaves_count() {
    let samples = vec![
        (vec![-1], Ternary::Neg),
        (vec![0], Ternary::Zero),
        (vec![1], Ternary::Pos),
    ];
    let mut tree = TernaryDecisionTree::new(10, 1);
    tree.fit(&samples, &best_gain_split);
    assert!(tree.count_leaves() >= 1);
}

#[test]
fn test_random_forest() {
    let samples = vec![
        (vec![-1, -1], Ternary::Neg),
        (vec![-1, 0], Ternary::Neg),
        (vec![1, 1], Ternary::Pos),
        (vec![1, 0], Ternary::Pos),
        (vec![0, 0], Ternary::Zero),
        (vec![0, 0], Ternary::Zero),
        (vec![-1, -1], Ternary::Neg),
        (vec![1, 1], Ternary::Pos),
    ];
    let mut rf = RandomForest::new(5, 5, 1, 2);
    rf.fit(&samples);
    let pred = rf.predict(&[-1, -1]);
    assert!(pred == Ternary::Neg);
}

#[test]
fn test_tree_prune() {
    let samples = vec![
        (vec![-1], Ternary::Neg),
        (vec![0], Ternary::Zero),
        (vec![1], Ternary::Pos),
        (vec![-1], Ternary::Neg),
        (vec![0], Ternary::Zero),
        (vec![1], Ternary::Pos),
    ];
    let mut tree = TernaryDecisionTree::new(10, 1);
    tree.fit(&samples, &best_gain_split);
    let leaves_before = tree.count_leaves();
    tree.prune(&samples);
    // Pruning should not increase leaf count beyond reasonable bounds
    assert!(tree.count_leaves() <= leaves_before || leaves_before <= 3);
}

#[test]
fn test_predict_no_fit() {
    let tree = TernaryDecisionTree::new(5, 1);
    assert!(tree.predict(&[0]).is_none());
}

#[test]
fn test_from_i8() {
    assert_eq!(Ternary::from_i8(-1), Some(Ternary::Neg));
    assert_eq!(Ternary::from_i8(2), None);
}

#[test]
fn test_ternary_values_array() {
    let vals = Ternary::values();
    assert_eq!(vals.len(), 3);
    assert_eq!(vals[0], Ternary::Neg);
    assert_eq!(vals[1], Ternary::Zero);
    assert_eq!(vals[2], Ternary::Pos);
}

#[test]
fn test_decision_tree_zero_features() {
    let samples = vec![
        (vec![], Ternary::Neg),
        (vec![], Ternary::Pos),
    ];
    let mut tree = TernaryDecisionTree::new(5, 1);
    tree.fit(&samples, &best_gain_split);
    // Should still produce a prediction
    assert!(tree.predict(&[]).is_some());
}

fn accuracy_of(tree: &TernaryDecisionTree, rows: &[Sample]) -> usize {
    rows.iter().filter(|(f, l)| tree.predict(f) == Some(*l)).count()
}

#[test]
fn pruning_never_lowers_validation_accuracy() {
    let training = vec![
        (vec![-1, -1], Ternary::Neg),
        (vec![-1, 0], Ternary::Pos),
        (vec![-1, 1], Ternary::Neg),
        (vec![0, 0], Ternary::Neg),
        (vec![1, 0], Ternary::Neg),
    ];
    let validation = vec![
        (vec![-1, 0], Ternary::Pos),
        (vec![0, 0], Ternary::Neg),
        (vec![0, 0], Ternary::Neg),
        (vec![1, 0], Ternary::Neg),
    ];
    let mut tree = TernaryDecisionTree::new(5, 1);
    tree.fit(&training, &best_gain_split);
    let before = accuracy_of(&tree, &validation);
    tree.prune(&validation);
    assert!(accuracy_of(&tree, &validation) >= before);
    assert_eq!(accuracy_of(&tree, &validation), 4);
}

#[test]
fn pruning_keeps_what_the_grid_tree_gets_right() {
    let training = vec![
        (vec![-1, -1], Ternary::Neg),
        (vec![-1, 0], Ternary::Zero),
        (vec![-1, 1], Ternary::Pos),
        (vec![0, -1], Ternary::Zero),
        (vec![0, 0], Ternary::Zero),
        (vec![0, 1], Ternary::Zero),
        (vec![1, -1], Ternary::Pos),
        (vec![1, 0], Ternary::Pos),
        (vec![1, 1], Ternary::Pos),
    ];
    let validation = vec![(vec![-1, -1], Ternary::Neg), (vec![1, 0], Ternary::Pos), (vec![1, 0], Ternary::Pos)];
    let mut tree = TernaryDecisionTree::new(5, 1);
    tree.fit(&training, &best_gain_split);
    assert_eq!(accuracy_of(&tree, &validation), 3);
    tree.prune(&validation);
    assert_eq!(tree.predict(&[-1, -1]), Some(Ternary::Neg));
    assert_eq!(tree.predict(&[1, 0]), Some(Ternary::Pos));
}

#[test]
fn fitting_twice_gives_the_same_tree() {
    let samples = vec![
        (vec![-1, -1], Ternary::Neg),
        (vec![-1, 0], Ternary::Neg),
        (vec![1, 1], Ternary::Pos),
        (vec![1, 0], Ternary::Pos),
        (vec![0, 0], Ternary::Zero),
        (vec![0, 1], Ternary::Zero),
    ];
    let mut t1 = TernaryDecisionTree::new(5, 1);
    t1.fit(&[(vec![0, 0], Ternary::Pos)], &best_gain_split);
    t1.fit(&samples, &best_gain_split);
    let mut t2 = TernaryDecisionTree::new(5, 1);
    t2.fit(&samples, &best_gain_split);
    assert_eq!(t1.count_leaves(), t2.count_leaves());
    for a in -1..=1 {
        for b in -1..=1 {
            assert_eq!(t1.predict(&[a, b]), t2.predict(&[a, b]));
        }
    }
}
