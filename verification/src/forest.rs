use vstd::prelude::*;
use crate::ternary::Ternary;
use crate::labels::{Feature, Sample, Row, row_of, rows_of, majority_of, label_count, majority_label};
use crate::tree::{TreeNode, Confidence, reads_within, node_predict};
use crate::split::{SplitCandidate, copy_sample, same_width, rows_have_width, width};
use crate::decision_tree::{TernaryDecisionTree, grown, lemma_single_label_grows_leaf, all_labelled,
    stops, leaf_for, lemma_stopped_is_leaf, lemma_single_label_stops,
    lemma_stopped_growable};

verus! {

/// The hash that picks the bootstrap sample: `n * 1103515245 + 12345`,
/// wrapped to the width of `usize`.
pub open spec fn hash_value(n: int) -> int {
    (n * 1103515245 + 12345) % (usize::MAX as int + 1)
}

/// Simple deterministic hash for bootstrap sampling.
pub fn simple_hash(n: usize) -> (h: usize)
    ensures
        h == hash_value(n as int),
{
    let m = n.wrapping_mul(1103515245);
    let h = m.wrapping_add(12345);
    proof {
        let r = usize::MAX as int + 1;
        vstd::arithmetic::div_mod::lemma_add_mod_noop(n * 1103515245, 12345, r);
        vstd::arithmetic::div_mod::lemma_small_mod(12345, r as nat);
        vstd::arithmetic::div_mod::lemma_mod_bound(n * 1103515245, r);
        if m + 12345 > usize::MAX {
            vstd::arithmetic::div_mod::lemma_fundamental_div_mod_converse(m + 12345, r, 1, m + 12345 - r);
        } else {
            vstd::arithmetic::div_mod::lemma_small_mod((m + 12345) as nat, r as nat);
        }
    }
    h
}

/// How many trees of `trees` give the label `t` to `features` (an unfitted
/// tree gives none).
pub open spec fn tree_votes(trees: Seq<TernaryDecisionTree>, features: Seq<Feature>, t: Ternary) -> nat
    decreases trees.len(),
{
    if trees.len() == 0 {
        0
    } else {
        tree_votes(trees.drop_last(), features, t) + match trees.last().root_node() {
            Some(node) => if node_predict(node, features) == t {
                1nat
            } else {
                0nat
            },
            None => 0nat,
        }
    }
}

/// The label a forest of `trees` gives to `features`: the majority of the
/// trees' votes, ties going to `Neg`, then to `Zero`.
pub open spec fn forest_label(trees: Seq<TernaryDecisionTree>, features: Seq<Feature>) -> Ternary {
    majority_of(
        tree_votes(trees, features, Ternary::Neg) as int,
        tree_votes(trees, features, Ternary::Zero) as int,
        tree_votes(trees, features, Ternary::Pos) as int,
    )
}

/// Every fitted tree of `trees` can label `features`.
pub open spec fn forest_reads(trees: Seq<TernaryDecisionTree>, features: Seq<Feature>) -> bool {
    forall|i: int|
        0 <= i < trees.len() ==> ((#[trigger] trees[i]).root_node() matches Some(node) ==> reads_within(
            node,
            features,
        ))
}

/// Every fitted tree of `trees` can label every row of `s`.
pub open spec fn forest_reads_rows(trees: Seq<TernaryDecisionTree>, s: Seq<Row>) -> bool {
    forall|k: int| 0 <= k < s.len() ==> forest_reads(trees, (#[trigger] s[k]).0)
}

/// How many rows of `s` the forest of `trees` labels correctly.
pub open spec fn forest_hits(trees: Seq<TernaryDecisionTree>, s: Seq<Row>) -> nat
    decreases s.len(),
{
    if s.len() == 0 {
        0
    } else {
        forest_hits(trees, s.drop_last()) + if forest_label(trees, s.last().0) == s.last().1 {
            1nat
        } else {
            0nat
        }
    }
}

/// The index of the sample that bootstrap sampling repeats, for `n > 0` samples.
pub open spec fn bootstrap_index(n: int) -> int {
    hash_value(n) % n
}

/// The bootstrap sample drawn from `s`: `s.len()` copies of the row at
/// `bootstrap_index(s.len())`.
pub open spec fn bootstrap_rows(s: Seq<Row>) -> Seq<Row> {
    Seq::new(s.len(), |i: int| s[bootstrap_index(s.len() as int)])
}

/// The tree that fitting on the bootstrap sample of `s` gives: a leaf with
/// the label of the repeated row and full confidence, or the empty leaf.
pub open spec fn bootstrap_leaf(s: Seq<Row>) -> TreeNode {
    if s.len() == 0 {
        TreeNode::Leaf { label: Ternary::Neg, confidence: Confidence { num: 0, den: 1 }, count: 0 }
    } else {
        TreeNode::Leaf {
            label: s[bootstrap_index(s.len() as int)].1,
            confidence: Confidence { num: s.len() as usize, den: s.len() as usize },
            count: s.len() as usize,
        }
    }
}

/// Draw the bootstrap sample of `samples`.
fn bootstrap_sample(samples: &[Sample]) -> (bootstrap: Vec<Sample>)
    ensures
        rows_of(bootstrap@) == bootstrap_rows(rows_of(samples@)),
{
    let ghost rs = rows_of(samples@);
    let n = samples.len();
    let mut bootstrap: Vec<Sample> = Vec::new();
    for k in 0..n
        invariant
            n == samples@.len(),
            rs == rows_of(samples@),
            bootstrap@.len() == k,
            forall|i: int| 0 <= i < k ==> #[trigger] rows_of(bootstrap@)[i] == rs[bootstrap_index(n as int)],
    {
        let idx = simple_hash(n) % n;
        let c = copy_sample(&samples[idx]);
        proof {
            assert(rs[idx as int] == row_of(samples@[idx as int]));
        }
        let ghost before = bootstrap@;
        bootstrap.push(c);
        proof {
            assert forall|i: int| 0 <= i < k + 1 implies #[trigger] rows_of(bootstrap@)[i] == rs[bootstrap_index(n as int)] by {
                assert(rows_of(bootstrap@)[i] == row_of(bootstrap@[i]));
                if i < k {
                    assert(bootstrap@[i] == before[i]);
                    assert(rows_of(before)[i] == row_of(before[i]));
                } else {
                    assert(bootstrap@[i] == c);
                }
            }
        }
    }
    assert(rows_of(bootstrap@) =~= bootstrap_rows(rs));
    bootstrap
}

/// Fit a fresh tree with the given limits on a bootstrap sample of `s`.
fn fit_leaf_tree(max_depth: usize, min_samples: usize, bootstrap: &Vec<Sample>, Ghost(s): Ghost<Seq<Row>>) -> (tree: TernaryDecisionTree)
    requires
        rows_of(bootstrap@) == bootstrap_rows(s),
    ensures
        tree.root_node() == Some(bootstrap_leaf(s)),
        tree.depth_limit() == max_depth,
        tree.min_split_samples() == min_samples,
{
    let ghost boot = rows_of(bootstrap@);
    let ghost n = s.len();
    let nb = bootstrap.len();
    assert(boot.len() == nb);
    proof {
        if n > 0 {
            assert(boot[0] == s[bootstrap_index(n as int)]);
            assert(all_labelled(boot, s[bootstrap_index(n as int)].1));
        }
    }
    // Every row of a bootstrap sample is the same row, so growing stops at
    // the root whatever the chooser says: no split is ever asked for.
    let never_split = |p: &[usize; 3], c: &[SplitCandidate]| -> Option<usize> { None };
    proof {
        if n > 0 {
            lemma_single_label_stops(boot, s[bootstrap_index(n as int)].1, 0, max_depth as int, min_samples as int);
        } else {
            assert(stops(boot, 0, max_depth as int, min_samples as int));
        }
        lemma_stopped_growable(never_split, boot, 0, max_depth as int, min_samples as int);
    }
    let mut tree = TernaryDecisionTree::new(max_depth, min_samples);
    tree.fit(bootstrap.as_slice(), &never_split);
    proof {
        let node = tree.root_node()->0;
        if n > 0 {
            let label = s[bootstrap_index(n as int)].1;
            assert(all_labelled(boot, label));
            lemma_single_label_grows_leaf(never_split, node, boot, label, 0, max_depth as int, min_samples as int);
            assert(boot.len() == n);
            assert(node == bootstrap_leaf(s));
        } else {
            assert(stops(boot, 0, max_depth as int, min_samples as int));
            lemma_stopped_is_leaf(never_split, node, boot, 0, max_depth as int, min_samples as int);
            assert(label_count(boot, Ternary::Neg) == 0);
            assert(node == bootstrap_leaf(s));
        }
    }
    tree
}

/// Every row of `s` but the middle one (paired with itself) has feature `fi`.
pub open spec fn swaps_feature(s: Seq<Row>, fi: int) -> bool {
    forall|k: int| 0 <= k < s.len() && k != s.len() - 1 - k ==> fi < (#[trigger] s[k]).0.len()
}

/// `s` with the values of feature `fi` in reverse order: row `k` takes the
/// value of row `len - 1 - k`, everything else stays.
pub open spec fn reverse_feature(s: Seq<Row>, fi: int) -> Seq<Row> {
    Seq::new(
        s.len(),
        |k: int|
            if k == s.len() - 1 - k {
                s[k]
            } else {
                (s[k].0.update(fi, s[s.len() - 1 - k].0[fi]), s[k].1)
            },
    )
}

/// Simple permutation: reverse the order of the values of feature `fi`.
pub fn permute_feature(samples: &[Sample], fi: usize) -> (permuted: Vec<Sample>)
    requires
        swaps_feature(rows_of(samples@), fi as int),
    ensures
        rows_of(permuted@) == reverse_feature(rows_of(samples@), fi as int),
{
    let ghost rs = rows_of(samples@);
    let n = samples.len();
    let mut permuted: Vec<Sample> = Vec::new();
    for k in 0..n
        invariant
            n == samples@.len(),
            rs == rows_of(samples@),
            swaps_feature(rs, fi as int),
            permuted@.len() == k,
            forall|i: int| 0 <= i < k ==> #[trigger] rows_of(permuted@)[i] == reverse_feature(rs, fi as int)[i],
    {
        let j = n - 1 - k;
        let (mut features, label) = copy_sample(&samples[k]);
        proof {
            assert(rs[k as int] == row_of(samples@[k as int]));
            assert(rs[j as int] == row_of(samples@[j as int]));
        }
        if k != j {
            let v = samples[j].0[fi];
            features.set(fi, v);
        }
        let ghost before = permuted@;
        permuted.push((features, label));
        proof {
            assert forall|i: int| 0 <= i < k + 1 implies #[trigger] rows_of(permuted@)[i] == reverse_feature(rs, fi as int)[i] by {
                assert(rows_of(permuted@)[i] == row_of(permuted@[i]));
                if i < k {
                    assert(permuted@[i] == before[i]);
                    assert(rows_of(before)[i] == row_of(before[i]));
                } else if k != j {
                    assert(row_of(permuted@[i]).0 =~= rs[k as int].0.update(fi as int, rs[j as int].0[fi as int]));
                }
            }
        }
    }
    assert(rows_of(permuted@) =~= reverse_feature(rs, fi as int));
    permuted
}

/// Whether every row of `samples` but the middle one has feature `fi`.
pub fn can_permute(samples: &[Sample], fi: usize) -> (ok: bool)
    ensures
        ok == swaps_feature(rows_of(samples@), fi as int),
{
    let ghost rs = rows_of(samples@);
    let n = samples.len();
    for k in 0..n
        invariant
            n == samples@.len(),
            rs == rows_of(samples@),
            forall|i: int| 0 <= i < k && i != n - 1 - i ==> fi < (#[trigger] rs[i]).0.len(),
    {
        proof {
            assert(rs[k as int] == row_of(samples@[k as int]));
        }
        if k != n - 1 - k && fi >= samples[k].0.len() {
            return false;
        }
    }
    true
}

/// Random forest for ternary classification.
#[derive(Debug)]
pub struct RandomForest {
    pub trees: Vec<TernaryDecisionTree>,
    pub n_features_per_split: usize,
}

impl RandomForest {
    pub fn new(n_trees: usize, max_depth: usize, min_samples: usize, n_features_per_split: usize) -> (forest: Self)
        ensures
            forest.trees@.len() == n_trees,
            forest.n_features_per_split == n_features_per_split,
            forall|i: int|
                0 <= i < n_trees ==> {
                    &&& (#[trigger] forest.trees@[i]).root_node() == None::<TreeNode>
                    &&& forest.trees@[i].depth_limit() == max_depth
                    &&& forest.trees@[i].min_split_samples() == min_samples
                },
    {
        let mut trees: Vec<TernaryDecisionTree> = Vec::new();
        for i in 0..n_trees
            invariant
                trees@.len() == i,
                forall|k: int|
                    0 <= k < i ==> {
                        &&& (#[trigger] trees@[k]).root_node() == None::<TreeNode>
                        &&& trees@[k].depth_limit() == max_depth
                        &&& trees@[k].min_split_samples() == min_samples
                    },
        {
            trees.push(TernaryDecisionTree::new(max_depth, min_samples));
        }
        RandomForest { trees, n_features_per_split }
    }

    /// Fit each tree on a bootstrap sample of `samples`: `n` copies of the
    /// sample at `simple_hash(n) % n`, so that every tree becomes one leaf.
    pub fn fit(&mut self, samples: &[Sample])
        ensures
            final(self).trees@.len() == old(self).trees@.len(),
            final(self).n_features_per_split == old(self).n_features_per_split,
            forall|i: int|
                0 <= i < final(self).trees@.len() ==> {
                    &&& (#[trigger] final(self).trees@[i]).root_node() == Some(bootstrap_leaf(rows_of(samples@)))
                    &&& final(self).trees@[i].depth_limit() == old(self).trees@[i].depth_limit()
                    &&& final(self).trees@[i].min_split_samples() == old(self).trees@[i].min_split_samples()
                },
    {
        let ghost rs = rows_of(samples@);
        let n = samples.len();
        let n_trees = self.trees.len();
        let mut fitted: Vec<TernaryDecisionTree> = Vec::new();
        for t in 0..n_trees
            invariant
                n == samples@.len(),
                rs == rows_of(samples@),
                n_trees == self.trees@.len(),
                fitted@.len() == t,
                forall|i: int|
                    0 <= i < t ==> {
                        &&& (#[trigger] fitted@[i]).root_node() == Some(bootstrap_leaf(rs))
                        &&& fitted@[i].depth_limit() == self.trees@[i].depth_limit()
                        &&& fitted@[i].min_split_samples() == self.trees@[i].min_split_samples()
                    },
        {
            let bootstrap = bootstrap_sample(samples);
            let tree = fit_leaf_tree(
                self.trees[t].depth_limit_value(),
                self.trees[t].min_split_samples_value(),
                &bootstrap,
                Ghost(rs),
            );
            fitted.push(tree);
        }
        self.trees = fitted;
    }

    /// The label the forest gives to `features`: the majority vote of its
    /// fitted trees.
    pub fn predict(&self, features: &[Feature]) -> (label: Ternary)
        requires
            forest_reads(self.trees@, features@),
        ensures
            label == forest_label(self.trees@, features@),
    {
        let mut c_neg: usize = 0;
        let mut c_zero: usize = 0;
        let mut c_pos: usize = 0;
        let n = self.trees.len();
        for i in 0..n
            invariant
                n == self.trees@.len(),
                forest_reads(self.trees@, features@),
                c_neg == tree_votes(self.trees@.take(i as int), features@, Ternary::Neg),
                c_zero == tree_votes(self.trees@.take(i as int), features@, Ternary::Zero),
                c_pos == tree_votes(self.trees@.take(i as int), features@, Ternary::Pos),
                c_neg + c_zero + c_pos <= i,
        {
            proof {
                assert(self.trees@.take(i + 1).drop_last() =~= self.trees@.take(i as int));
                assert(self.trees@.take(i + 1).last() == self.trees@[i as int]);
            }
            if let Some(label) = self.trees[i].predict(features) {
                match label {
                    Ternary::Neg => c_neg += 1,
                    Ternary::Zero => c_zero += 1,
                    Ternary::Pos => c_pos += 1,
                }
            }
        }
        assert(self.trees@.take(n as int) =~= self.trees@);
        if c_neg >= c_zero && c_neg >= c_pos {
            Ternary::Neg
        } else if c_zero >= c_pos {
            Ternary::Zero
        } else {
            Ternary::Pos
        }
    }

    /// Whether every fitted tree can label `features`.
    pub fn can_predict(&self, features: &[Feature]) -> (ok: bool)
        ensures
            ok == forest_reads(self.trees@, features@),
    {
        let n = self.trees.len();
        for i in 0..n
            invariant
                n == self.trees@.len(),
                forall|k: int|
                    0 <= k < i ==> ((#[trigger] self.trees@[k]).root_node() matches Some(node)
                        ==> reads_within(node, features@)),
        {
            if !self.trees[i].can_predict(features) {
                return false;
            }
        }
        true
    }

    /// Whether every fitted tree can label every one of `samples`.
    pub fn can_label_all(&self, samples: &[Sample]) -> (ok: bool)
        ensures
            ok == forest_reads_rows(self.trees@, rows_of(samples@)),
    {
        let ghost rs = rows_of(samples@);
        let n = samples.len();
        for k in 0..n
            invariant
                n == samples@.len(),
                rs == rows_of(samples@),
                forall|i: int| 0 <= i < k ==> forest_reads(self.trees@, (#[trigger] rs[i]).0),
        {
            proof {
                assert(rs[k as int] == row_of(samples@[k as int]));
            }
            if !self.can_predict(samples[k].0.as_slice()) {
                return false;
            }
        }
        true
    }

    /// How many of `samples` the forest labels correctly.
    pub fn count_correct(&self, samples: &[Sample]) -> (n: usize)
        requires
            forest_reads_rows(self.trees@, rows_of(samples@)),
        ensures
            n == forest_hits(self.trees@, rows_of(samples@)),
    {
        let ghost rs = rows_of(samples@);
        let len = samples.len();
        let mut n: usize = 0;
        for i in 0..len
            invariant
                len == samples@.len(),
                rs == rows_of(samples@),
                forest_reads_rows(self.trees@, rs),
                n == forest_hits(self.trees@, rs.take(i as int)),
                n <= i,
        {
            proof {
                assert(rs.take(i + 1).drop_last() =~= rs.take(i as int));
                assert(rs[i as int] == row_of(samples@[i as int]));
                assert(forest_reads(self.trees@, rs[i as int].0));
            }
            if self.predict(samples[i].0.as_slice()) == samples[i].1 {
                n = n + 1;
            }
        }
        assert(rs.take(len as int) =~= rs);
        n
    }

    /// Permutation importance, as counts: how many of `samples` the forest
    /// labels correctly, and for each of the first `n_features` features how
    /// many it labels correctly once that feature's values are reversed.
    pub fn feature_importance_counts(&self, samples: &[Sample], n_features: usize) -> (counts: (usize, Vec<usize>))
        requires
            forest_reads_rows(self.trees@, rows_of(samples@)),
            forall|fi: int|
                0 <= fi < n_features ==> #[trigger] swaps_feature(rows_of(samples@), fi)
                    && forest_reads_rows(self.trees@, reverse_feature(rows_of(samples@), fi)),
        ensures
            counts.0 == forest_hits(self.trees@, rows_of(samples@)),
            counts.1@.len() == n_features,
            forall|fi: int|
                0 <= fi < n_features ==> #[trigger] counts.1@[fi] == forest_hits(
                    self.trees@,
                    reverse_feature(rows_of(samples@), fi),
                ),
    {
        let baseline = self.count_correct(samples);
        let mut permuted_counts: Vec<usize> = Vec::new();
        for fi in 0..n_features
            invariant
                permuted_counts@.len() == fi,
                forall|f: int|
                    0 <= f < n_features ==> #[trigger] swaps_feature(rows_of(samples@), f)
                        && forest_reads_rows(self.trees@, reverse_feature(rows_of(samples@), f)),
                forall|f: int|
                    0 <= f < fi ==> #[trigger] permuted_counts@[f] == forest_hits(
                        self.trees@,
                        reverse_feature(rows_of(samples@), f),
                    ),
        {
            assert(swaps_feature(rows_of(samples@), fi as int));
            let permuted = permute_feature(samples, fi);
            let c = self.count_correct(permuted.as_slice());
            permuted_counts.push(c);
        }
        (baseline, permuted_counts)
    }
}

impl Clone for RandomForest {
    fn clone(&self) -> (copy: Self)
        ensures
            copy.trees@ == self.trees@,
            copy.n_features_per_split == self.n_features_per_split,
    {
        let mut trees: Vec<TernaryDecisionTree> = Vec::new();
        let n = self.trees.len();
        for i in 0..n
            invariant
                n == self.trees@.len(),
                trees@ == self.trees@.take(i as int),
        {
            trees.push(self.trees[i].clone());
            assert(trees@ =~= self.trees@.take(i + 1));
        }
        assert(self.trees@.take(n as int) =~= self.trees@);
        RandomForest { trees, n_features_per_split: self.n_features_per_split }
    }
}

/// A forest whose trees are all the same leaf votes that leaf's label once
/// per tree.
pub proof fn lemma_same_leaf_votes(trees: Seq<TernaryDecisionTree>, leaf: TreeNode, features: Seq<Feature>, t: Ternary)
    requires
        leaf is Leaf,
        forall|i: int| 0 <= i < trees.len() ==> (#[trigger] trees[i]).root_node() == Some(leaf),
    ensures
        tree_votes(trees, features, t) == if leaf->label == t {
            trees.len()
        } else {
            0
        },
    decreases trees.len(),
{
    if trees.len() > 0 {
        let init = trees.drop_last();
        assert forall|i: int| 0 <= i < init.len() implies (#[trigger] init[i]).root_node() == Some(leaf) by {
            assert(init[i] == trees[i]);
        }
        lemma_same_leaf_votes(init, leaf, features, t);
        assert(trees.last() == trees[trees.len() - 1]);
    }
}

/// A fitted forest labels every input alike: with at least one tree and at
/// least one training sample, by the label of the sample that bootstrap
/// sampling repeats; otherwise by `Neg`.
pub proof fn lemma_fitted_forest_label(trees: Seq<TernaryDecisionTree>, s: Seq<Row>, features: Seq<Feature>)
    requires
        forall|i: int| 0 <= i < trees.len() ==> (#[trigger] trees[i]).root_node() == Some(bootstrap_leaf(s)),
    ensures
        forest_reads(trees, features),
        forest_label(trees, features) == if trees.len() > 0 && s.len() > 0 {
            s[bootstrap_index(s.len() as int)].1
        } else {
            Ternary::Neg
        },
{
    let leaf = bootstrap_leaf(s);
    lemma_same_leaf_votes(trees, leaf, features, Ternary::Neg);
    lemma_same_leaf_votes(trees, leaf, features, Ternary::Zero);
    lemma_same_leaf_votes(trees, leaf, features, Ternary::Pos);
}

/// No trees give no votes; one more tree adds its own vote: one for the
/// label it gives to the features when it is fitted, none when it is not.
pub proof fn lemma_tree_votes_steps(trees: Seq<TernaryDecisionTree>, x: TernaryDecisionTree, features: Seq<Feature>, t: Ternary)
    ensures
        tree_votes(Seq::<TernaryDecisionTree>::empty(), features, t) == 0,
        tree_votes(trees.push(x), features, t) == tree_votes(trees, features, t) + match x.root_node() {
            Some(node) => if node_predict(node, features) == t {
                1int
            } else {
                0int
            },
            None => 0int,
        },
{
    assert(trees.push(x).drop_last() =~= trees);
}

/// Each tree votes at most once: the three labels' votes add up to the
/// number of fitted trees, at most the number of trees.
pub proof fn lemma_tree_votes_total(trees: Seq<TernaryDecisionTree>, features: Seq<Feature>)
    ensures
        tree_votes(trees, features, Ternary::Neg) + tree_votes(trees, features, Ternary::Zero) + tree_votes(
            trees,
            features,
            Ternary::Pos,
        ) <= trees.len(),
    decreases trees.len(),
{
    if trees.len() > 0 {
        lemma_tree_votes_total(trees.drop_last(), features);
    }
}

/// The forest's label has at least as many votes as any label; a tie goes to
/// `Neg`, then to `Zero`.
pub proof fn lemma_forest_label_wins(trees: Seq<TernaryDecisionTree>, features: Seq<Feature>)
    ensures
        forall|t: Ternary| tree_votes(trees, features, forest_label(trees, features)) >= #[trigger] tree_votes(trees, features, t),
        forest_label(trees, features) == Ternary::Zero ==> tree_votes(trees, features, Ternary::Neg) < tree_votes(
            trees,
            features,
            Ternary::Zero,
        ),
        forest_label(trees, features) == Ternary::Pos ==> tree_votes(trees, features, Ternary::Neg) < tree_votes(
            trees,
            features,
            Ternary::Pos,
        ) && tree_votes(trees, features, Ternary::Zero) < tree_votes(trees, features, Ternary::Pos),
{
    assert forall|t: Ternary| tree_votes(trees, features, forest_label(trees, features)) >= #[trigger] tree_votes(trees, features, t) by {
        match t {
            Ternary::Neg => {},
            Ternary::Zero => {},
            Ternary::Pos => {},
        }
    }
}

/// No rows give no correct labels; one more row adds one exactly when the
/// forest labels it correctly; and there are never more than rows.
pub proof fn lemma_forest_hits_steps(trees: Seq<TernaryDecisionTree>, s: Seq<Row>, x: Row)
    ensures
        forest_hits(trees, Seq::<Row>::empty()) == 0,
        forest_hits(trees, s.push(x)) == forest_hits(trees, s) + if forest_label(trees, x.0) == x.1 {
            1int
        } else {
            0int
        },
        forest_hits(trees, s) <= s.len(),
    decreases s.len(),
{
    assert(s.push(x).drop_last() =~= s);
    if s.len() > 0 {
        lemma_forest_hits_steps(trees, s.drop_last(), s.last());
    }
}

/// The bootstrap sample of `n > 0` rows is `n` copies of the row at
/// `((n * 1103515245 + 12345) mod 2^bits) mod n`, an index below `n`.
pub proof fn lemma_bootstrap_rows_formula(s: Seq<Row>)
    requires
        s.len() > 0,
    ensures
        bootstrap_index(s.len() as int) == ((s.len() as int * 1103515245 + 12345) % (usize::MAX as int + 1)) % (s.len() as int),
        0 <= bootstrap_index(s.len() as int) < s.len(),
        bootstrap_rows(s).len() == s.len(),
        forall|k: int| 0 <= k < s.len() ==> #[trigger] bootstrap_rows(s)[k] == s[bootstrap_index(s.len() as int)],
{
    vstd::arithmetic::div_mod::lemma_mod_bound(hash_value(s.len() as int), s.len() as int);
}

/// Reversing a feature keeps every label, every row length and every other
/// feature, and gives row `k` the value of row `len - 1 - k`.
pub proof fn lemma_reverse_feature_values(s: Seq<Row>, fi: int)
    requires
        swaps_feature(s, fi),
        0 <= fi,
    ensures
        reverse_feature(s, fi).len() == s.len(),
        forall|k: int|
            0 <= k < s.len() ==> {
                let r = #[trigger] reverse_feature(s, fi)[k];
                &&& r.1 == s[k].1
                &&& r.0.len() == s[k].0.len()
                &&& forall|f: int| 0 <= f < r.0.len() && f != fi ==> r.0[f] == s[k].0[f]
                &&& 0 <= fi < s[k].0.len() ==> r.0[fi] == s[s.len() - 1 - k].0[fi]
            },
{
    assert forall|k: int| 0 <= k < s.len() implies {
        let r = #[trigger] reverse_feature(s, fi)[k];
        &&& r.1 == s[k].1
        &&& r.0.len() == s[k].0.len()
        &&& forall|f: int| 0 <= f < r.0.len() && f != fi ==> r.0[f] == s[k].0[f]
        &&& 0 <= fi < s[k].0.len() ==> r.0[fi] == s[s.len() - 1 - k].0[fi]
    } by {
        let r = reverse_feature(s, fi)[k];
        if k != s.len() - 1 - k {
            assert(fi < s[k].0.len());
            assert(r.0 == s[k].0.update(fi, s[s.len() - 1 - k].0[fi]));
            assert forall|f: int| 0 <= f < r.0.len() && f != fi implies r.0[f] == s[k].0[f] by {}
        }
    }
}

/// Reversing a feature twice gives the rows back.
pub proof fn lemma_reverse_feature_twice(s: Seq<Row>, fi: int)
    requires
        swaps_feature(s, fi),
        0 <= fi,
    ensures
        reverse_feature(reverse_feature(s, fi), fi) == s,
{
    let r = reverse_feature(s, fi);
    let rr = reverse_feature(r, fi);
    assert forall|k: int| 0 <= k < s.len() implies #[trigger] rr[k] == s[k] by {
        let j = s.len() - 1 - k;
        if k != j {
            assert(r[k].0 =~= s[k].0.update(fi, s[j].0[fi]));
            assert(r[j].0 =~= s[j].0.update(fi, s[k].0[fi]));
            assert(rr[k].0 =~= s[k].0);
        }
    }
    assert(rr =~= s);
}

} // verus!
