# ternary_trees

Decision trees and random forests for ternary classification on {-1, 0, +1},
written in Verus: the counting, splitting, growing, prediction, pruning,
voting and bootstrap logic is verified against mathematical models.

- `src/ternary.rs`: the `Ternary` value and its integer conversions.
- `src/labels.rs`: samples, label counts and the majority vote.
- `src/tree.rs`: tree nodes, prediction, leaf counts and pruning.
- `src/split.rs`: three-way splits, their label counts and the candidate splits.
- `src/decision_tree.rs`: `TernaryDecisionTree`, what growing makes, and laws
  on grown and pruned trees.
- `src/forest.rs`: `RandomForest`, bootstrap sampling, voting, correct counts
  and permutation counts.
- `app/lib.rs`: the floating-point measures (entropy, Gini impurity,
  information gain, accuracy, importance) and the gain-based split chooser
  that tree growing is given.
