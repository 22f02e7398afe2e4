//! Decision trees and forests for ternary classification on {-1, 0, +1}.
//!
//! Trees split three ways on a feature (`<`, `==`, `>` a threshold), forests
//! vote by ternary majority, and pruning replaces a subtree by a leaf when the
//! leaf scores at least as well on a validation set.
#![allow(unused_imports)]

pub mod ternary;
pub mod labels;
pub mod tree;
pub mod split;
pub mod decision_tree;
pub mod forest;

pub use ternary::Ternary;
pub use labels::{Feature, Sample, count_labels, majority};
pub use tree::{TreeNode, Confidence, predict_node, count_leaves_node, prune_node, reads_node, reads_all};
pub use split::{SplitCandidate, split_counts, split_candidates};
pub use decision_tree::TernaryDecisionTree;
pub use forest::{RandomForest, simple_hash, permute_feature, can_permute};
