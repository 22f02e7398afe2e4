use vstd::prelude::*;
use crate::ternary::Ternary;
use crate::labels::{lemma_majority_label_wins, Feature, Sample, Row, rows_of, row_of, label_count, majority_label,
    lemma_label_counts_sum, count_labels, majority};
use crate::tree::{TreeNode, Confidence, reads_within, node_predict, leaf_count, pruned, all_read_within, height, leaf_rows,
    with_pruned_children,
    predict_node, count_leaves_node, prune_node, reads_node, reads_all};
use crate::split::{SplitCandidate, rows_at_least, counts_are, branch_part, splits_three_ways, all_candidate_splits,
    candidate_splits, rows_have_width, width, same_width, describes, split_candidates,
    lemma_branch_parts_sum, lemma_branch_part_width, lemma_candidate_splits_valid, partition};

verus! {

/// The largest of the three label counts of `s`.
pub open spec fn max_count(s: Seq<Row>) -> int {
    let a = label_count(s, Ternary::Neg) as int;
    let b = label_count(s, Ternary::Zero) as int;
    let c = label_count(s, Ternary::Pos) as int;
    if a >= b && a >= c {
        a
    } else if b >= c {
        b
    } else {
        c
    }
}

/// The share of `s` that carries its most frequent label (`0 / 1` for no rows).
pub open spec fn confidence_of(s: Seq<Row>) -> Confidence {
    if s.len() > 0 {
        Confidence { num: max_count(s) as usize, den: s.len() as usize }
    } else {
        Confidence { num: 0, den: 1 }
    }
}

/// The leaf that a node holding `s` becomes.
pub open spec fn leaf_for(s: Seq<Row>) -> TreeNode {
    TreeNode::Leaf { label: majority_label(s), confidence: confidence_of(s), count: s.len() as usize }
}

/// Growing stops at a node holding `s` at `depth`: the depth limit is
/// reached, there are at most `min_samples` rows, or at least 95% of them
/// share one label.
pub open spec fn stops(s: Seq<Row>, depth: int, max_depth: int, min_samples: int) -> bool {
    ||| depth >= max_depth
    ||| s.len() <= min_samples
    ||| 20 * max_count(s) >= 19 * s.len()
}

/// `p` and `c` are what a node holding `s` hands to the split chooser: the
/// label counts of `s` and every split in `all_candidate_splits(s)`, in
/// order, with the label counts of its branches.
pub open spec fn offered(s: Seq<Row>, p: [usize; 3], c: Seq<SplitCandidate>) -> bool {
    &&& counts_are(p, s)
    &&& c.len() == all_candidate_splits(s).len()
    &&& forall|k: int|
        0 <= k < c.len() ==> describes(#[trigger] c[k], s, all_candidate_splits(s)[k].0,
            all_candidate_splits(s)[k].1)
}

/// The split chooser, handed `p` and `c`, may answer `r`.
pub open spec fn may_answer<F: Fn(&[usize; 3], &[SplitCandidate]) -> Option<usize>>(
    chooser: F,
    p: [usize; 3],
    c: &[SplitCandidate],
    r: Option<usize>,
) -> bool {
    chooser.ensures((&p, c), r)
}

/// The chooser, handed what a node holding `s` offers, answered with the
/// given split (feature, threshold), or, for `None`, declined to split:
/// it answered no index, or one past the candidates.
pub open spec fn chooser_answered<F: Fn(&[usize; 3], &[SplitCandidate]) -> Option<usize>>(
    chooser: F,
    s: Seq<Row>,
    split: Option<(int, int)>,
) -> bool {
    exists|p: [usize; 3], c: &[SplitCandidate], r: Option<usize>|
        #![trigger may_answer(chooser, p, c, r)]
        {
            &&& offered(s, p, c@)
            &&& may_answer(chooser, p, c, r)
            &&& match split {
                Some(pair) => r matches Some(i) && i < c@.len() && c@[i as int].feature_idx == pair.0
                    && c@[i as int].threshold == pair.1,
                None => !(r matches Some(i) && i < c@.len()),
            }
        }
}

/// `node` is the tree that growing makes from the rows `s` at `depth` with
/// `chooser`: where growing stops it is the leaf of `s`; elsewhere the node
/// hands the chooser its counts and candidate splits, becomes the leaf of `s`
/// when the chooser declines, and otherwise splits as the chooser picked,
/// with its three children grown from the three branches at `depth + 1`.
pub open spec fn grown<F: Fn(&[usize; 3], &[SplitCandidate]) -> Option<usize>>(
    chooser: F,
    node: TreeNode,
    s: Seq<Row>,
    depth: int,
    max_depth: int,
    min_samples: int,
) -> bool
    decreases s.len(),
{
    if stops(s, depth, max_depth, min_samples) {
        node == leaf_for(s)
    } else {
        match node {
            TreeNode::Leaf { .. } => node == leaf_for(s) && chooser_answered(chooser, s, None),
            TreeNode::Internal { feature_idx, threshold, left, middle, right } => {
                let fi = feature_idx as int;
                let thr = threshold as int;
                if chooser_answered(chooser, s, Some((fi, thr))) && splits_three_ways(s, fi, thr) {
                    proof {
                        lemma_branch_parts_sum(s, fi, thr);
                    }
                    &&& all_candidate_splits(s).contains((fi, thr))
                    &&& grown(chooser, *left, branch_part(s, fi, thr, 0), depth + 1, max_depth, min_samples)
                    &&& grown(chooser, *middle, branch_part(s, fi, thr, 1), depth + 1, max_depth, min_samples)
                    &&& grown(chooser, *right, branch_part(s, fi, thr, 2), depth + 1, max_depth, min_samples)
                } else {
                    false
                }
            },
        }
    }
}

/// Growing from the rows `s` at `depth` with `chooser` only reads features
/// that the rows have: where growing does not stop, every row has at least
/// as many features as the first, and for every split the chooser may pick
/// among what the node offers, growing each branch's rows is possible too.
pub open spec fn growable<F: Fn(&[usize; 3], &[SplitCandidate]) -> Option<usize>>(
    chooser: F,
    s: Seq<Row>,
    depth: int,
    max_depth: int,
    min_samples: int,
) -> bool
    decreases s.len(), 1int,
{
    if stops(s, depth, max_depth, min_samples) {
        true
    } else {
        &&& rows_at_least(s, width(s))
        &&& forall|p: [usize; 3], c: &[SplitCandidate], r: Option<usize>|
            #![trigger may_answer(chooser, p, c, r)]
            offered(s, p, c@) && may_answer(chooser, p, c, r) && r is Some && r->0 < c@.len()
                ==> branches_growable(
                chooser,
                s,
                c@[r->0 as int].feature_idx as int,
                c@[r->0 as int].threshold as int,
                depth,
                max_depth,
                min_samples,
            )
    }
}

/// Growing is possible from each of the three branches of splitting `s` on
/// feature `fi` at `thr`, one level deeper.
pub open spec fn branches_growable<F: Fn(&[usize; 3], &[SplitCandidate]) -> Option<usize>>(
    chooser: F,
    s: Seq<Row>,
    fi: int,
    thr: int,
    depth: int,
    max_depth: int,
    min_samples: int,
) -> bool
    decreases s.len(), 0int,
{
    if splits_three_ways(s, fi, thr) {
        proof {
            lemma_branch_parts_sum(s, fi, thr);
        }
        &&& growable(chooser, branch_part(s, fi, thr, 0), depth + 1, max_depth, min_samples)
        &&& growable(chooser, branch_part(s, fi, thr, 1), depth + 1, max_depth, min_samples)
        &&& growable(chooser, branch_part(s, fi, thr, 2), depth + 1, max_depth, min_samples)
    } else {
        true
    }
}

/// Ternary decision tree.
#[derive(Debug)]
pub struct TernaryDecisionTree {
    root: Option<TreeNode>,
    max_depth: usize,
    min_samples: usize,
}

impl TernaryDecisionTree {
    /// The tree's root, `None` before fitting.
    pub closed spec fn root_node(self) -> Option<TreeNode> {
        self.root
    }

    /// The depth at which growing stops.
    pub closed spec fn depth_limit(self) -> usize {
        self.max_depth
    }

    /// A node with at most this many samples becomes a leaf.
    pub closed spec fn min_split_samples(self) -> usize {
        self.min_samples
    }

    pub fn new(max_depth: usize, min_samples: usize) -> (tree: Self)
        ensures
            tree.root_node() == None::<TreeNode>,
            tree.depth_limit() == max_depth,
            tree.min_split_samples() == min_samples,
    {
        TernaryDecisionTree { root: None, max_depth, min_samples }
    }

    pub(crate) fn depth_limit_value(&self) -> (d: usize)
        ensures
            d == self.depth_limit(),
    {
        self.max_depth
    }

    pub(crate) fn min_split_samples_value(&self) -> (m: usize)
        ensures
            m == self.min_split_samples(),
    {
        self.min_samples
    }

    /// Grow the subtree for `samples` at `depth`. A node becomes a leaf when
    /// the depth limit is reached, it holds at most `min_samples` samples, or
    /// its most frequent label reaches a share of 0.95 (`20 * max >= 19 * total`);
    /// otherwise `chooser` gets its label counts and candidate splits.
    fn build_tree<F: Fn(&[usize; 3], &[SplitCandidate]) -> Option<usize>>(
        &self,
        samples: &[Sample],
        depth: usize,
        chooser: &F,
    ) -> (node: TreeNode)
        requires
            growable(*chooser, rows_of(samples@), depth as int, self.max_depth as int, self.min_samples as int),
            forall|p: &[usize; 3], c: &[SplitCandidate]| chooser.requires((p, c)),
        ensures
            grown(*chooser, node, rows_of(samples@), depth as int, self.max_depth as int, self.min_samples as int),
        decreases samples@.len(),
    {
        let ghost rs = rows_of(samples@);
        let n = samples.len();
        let counts = count_labels(samples);
        proof {
            lemma_label_counts_sum(rs);
            assert(rs.len() == n);
        }
        let total = counts[0] + counts[1] + counts[2];
        let majority_label = majority(samples);
        let max_c = if counts[0] >= counts[1] && counts[0] >= counts[2] {
            counts[0]
        } else if counts[1] >= counts[2] {
            counts[1]
        } else {
            counts[2]
        };
        let confidence = if total > 0 {
            Confidence { num: max_c, den: total }
        } else {
            Confidence { num: 0, den: 1 }
        };
        let leaf = TreeNode::Leaf { label: majority_label, confidence, count: total };
        assert(leaf == leaf_for(rs));
        if depth >= self.max_depth || total <= self.min_samples || (max_c as u128) * 20 >= (
        total as u128) * 19 {
            return leaf;
        }
        let n_features = samples[0].0.len();
        assert(rs[0] == row_of(samples@[0]));
        assert(n_features == width(rs));
        let cands = split_candidates(samples, n_features);
        let offer = cands.as_slice();
        let choice = chooser(&counts, offer);
        proof {
            lemma_candidate_splits_valid(rs, (2 * n_features) as nat);
            assert(offered(rs, counts, offer@));
            assert(may_answer(*chooser, counts, offer, choice));
        }
        match choice {
            Some(i) => {
                if i < cands.len() {
                    let fi = cands[i].feature_idx;
                    let thr = cands[i].threshold;
                    let ghost fi_i = fi as int;
                    let ghost thr_i = thr as int;
                    proof {
                        let cs = all_candidate_splits(rs);
                        assert(cs[i as int] == (fi_i, thr_i));
                        assert(cs.contains((fi_i, thr_i)));
                        lemma_branch_parts_sum(rs, fi_i, thr_i);
                        assert(branches_growable(*chooser, rs, fi_i, thr_i, depth as int, self.max_depth as int, self.min_samples as int));
                        assert forall|k: int| 0 <= k < samples@.len() implies fi < (
                        #[trigger] samples@[k]).0@.len() by {
                            assert(rs[k] == row_of(samples@[k]));
                        }
                    }
                    let (left_samples, mid_samples, right_samples) = partition(samples, fi, thr);
                    assert(rows_of(left_samples@).len() == left_samples@.len());
                    assert(rows_of(mid_samples@).len() == mid_samples@.len());
                    assert(rows_of(right_samples@).len() == right_samples@.len());
                    let left = self.build_tree(left_samples.as_slice(), depth + 1, chooser);
                    let middle = self.build_tree(mid_samples.as_slice(), depth + 1, chooser);
                    let right = self.build_tree(right_samples.as_slice(), depth + 1, chooser);
                    TreeNode::Internal {
                        feature_idx: fi,
                        threshold: thr,
                        left: Box::new(left),
                        middle: Box::new(middle),
                        right: Box::new(right),
                    }
                } else {
                    leaf
                }
            },
            None => leaf,
        }
    }

    /// Grow the tree from `samples`; `chooser` picks the split at each node
    /// that growing does not stop at, or declines to split it.
    pub fn fit<F: Fn(&[usize; 3], &[SplitCandidate]) -> Option<usize>>(
        &mut self,
        samples: &[Sample],
        chooser: &F,
    )
        requires
            growable(
                *chooser,
                rows_of(samples@),
                0,
                old(self).depth_limit() as int,
                old(self).min_split_samples() as int,
            ),
            forall|p: &[usize; 3], c: &[SplitCandidate]| chooser.requires((p, c)),
        ensures
            final(self).depth_limit() == old(self).depth_limit(),
            final(self).min_split_samples() == old(self).min_split_samples(),
            final(self).root_node() matches Some(node) && grown(
                *chooser,
                node,
                rows_of(samples@),
                0,
                old(self).depth_limit() as int,
                old(self).min_split_samples() as int,
            ),
    {
        let node = self.build_tree(samples, 0, chooser);
        self.root = Some(node);
    }

    /// The label the tree gives to `features`, `None` before fitting.
    pub fn predict(&self, features: &[Feature]) -> (label: Option<Ternary>)
        requires
            self.root_node() matches Some(node) ==> reads_within(node, features@),
        ensures
            label == match self.root_node() {
                Some(node) => Some(node_predict(node, features@)),
                None => None,
            },
    {
        match &self.root {
            Some(node) => Some(predict_node(node, features)),
            None => None,
        }
    }

    /// Whether the tree can label `features` (an unfitted tree always can).
    pub fn can_predict(&self, features: &[Feature]) -> (ok: bool)
        ensures
            ok == (self.root_node() matches Some(node) ==> reads_within(node, features@)),
    {
        match &self.root {
            Some(node) => reads_node(node, features),
            None => true,
        }
    }

    /// Whether the tree can be pruned against `validation`: it can label
    /// every validation sample.
    pub fn can_prune(&self, validation: &[Sample]) -> (ok: bool)
        ensures
            ok == (self.root_node() matches Some(node) ==> all_read_within(node, rows_of(validation@))),
    {
        match &self.root {
            Some(node) => reads_all(node, validation),
            None => true,
        }
    }

    /// Count the number of leaves.
    pub fn count_leaves(&self) -> (n: usize)
        requires
            self.root_node() matches Some(node) ==> leaf_count(node) <= usize::MAX,
        ensures
            n == match self.root_node() {
                Some(node) => leaf_count(node),
                None => 0,
            },
    {
        match &self.root {
            Some(node) => count_leaves_node(node),
            None => 0,
        }
    }

    /// Prune: convert internal nodes to leaves if it doesn't hurt accuracy.
    pub fn prune(&mut self, validation: &[Sample])
        requires
            old(self).root_node() matches Some(node) ==> all_read_within(node, rows_of(validation@)),
        ensures
            final(self).depth_limit() == old(self).depth_limit(),
            final(self).min_split_samples() == old(self).min_split_samples(),
            final(self).root_node() == match old(self).root_node() {
                Some(node) => Some(pruned(node, rows_of(validation@))),
                None => None,
            },
    {
        if let Some(root) = self.root.take() {
            self.root = Some(prune_node(root, validation));
        }
    }
}

impl Clone for TernaryDecisionTree {
    fn clone(&self) -> (copy: Self)
        ensures
            copy == *self,
    {
        let root = match &self.root {
            Some(node) => Some(node.clone()),
            None => None,
        };
        TernaryDecisionTree { root, max_depth: self.max_depth, min_samples: self.min_samples }
    }
}

/// Every internal node of `node` tests a feature below `w`.
pub open spec fn reads_below(node: TreeNode, w: int) -> bool
    decreases node,
{
    match node {
        TreeNode::Leaf { .. } => true,
        TreeNode::Internal { feature_idx, left, middle, right, .. } => {
            &&& feature_idx < w
            &&& reads_below(*left, w)
            &&& reads_below(*middle, w)
            &&& reads_below(*right, w)
        },
    }
}

/// A grown tree is no deeper than the depth limit allows: a tree grown at
/// `depth` has height at most `max_depth - depth`.
pub proof fn lemma_grown_height<F: Fn(&[usize; 3], &[SplitCandidate]) -> Option<usize>>(
    chooser: F,
    node: TreeNode,
    s: Seq<Row>,
    depth: int,
    max_depth: int,
    min_samples: int,
)
    requires
        grown(chooser, node, s, depth, max_depth, min_samples),
        depth <= max_depth,
    ensures
        height(node) <= max_depth - depth,
    decreases s.len(),
{
    if !stops(s, depth, max_depth, min_samples) {
        if let TreeNode::Internal { feature_idx, threshold, left, middle, right } = node {
            let fi = feature_idx as int;
            let thr = threshold as int;
            lemma_branch_parts_sum(s, fi, thr);
            lemma_grown_height(chooser, *left, branch_part(s, fi, thr, 0), depth + 1, max_depth, min_samples);
            lemma_grown_height(chooser, *middle, branch_part(s, fi, thr, 1), depth + 1, max_depth, min_samples);
            lemma_grown_height(chooser, *right, branch_part(s, fi, thr, 2), depth + 1, max_depth, min_samples);
        }
    }
}

/// A grown tree has at most one leaf per row it was grown from (and a single
/// leaf when it was grown from no rows).
pub proof fn lemma_grown_leaf_count<F: Fn(&[usize; 3], &[SplitCandidate]) -> Option<usize>>(
    chooser: F,
    node: TreeNode,
    s: Seq<Row>,
    depth: int,
    max_depth: int,
    min_samples: int,
)
    requires
        grown(chooser, node, s, depth, max_depth, min_samples),
        min_samples >= 0,
    ensures
        s.len() == 0 ==> leaf_count(node) == 1,
        s.len() > 0 ==> leaf_count(node) <= s.len(),
    decreases s.len(),
{
    if !stops(s, depth, max_depth, min_samples) {
        if let TreeNode::Internal { feature_idx, threshold, left, middle, right } = node {
            let fi = feature_idx as int;
            let thr = threshold as int;
            lemma_branch_parts_sum(s, fi, thr);
            lemma_grown_leaf_count(chooser, *left, branch_part(s, fi, thr, 0), depth + 1, max_depth, min_samples);
            lemma_grown_leaf_count(chooser, *middle, branch_part(s, fi, thr, 1), depth + 1, max_depth, min_samples);
            lemma_grown_leaf_count(chooser, *right, branch_part(s, fi, thr, 2), depth + 1, max_depth, min_samples);
        }
    }
}

/// A grown tree only tests features that every row it was grown from has.
pub proof fn lemma_grown_reads_below<F: Fn(&[usize; 3], &[SplitCandidate]) -> Option<usize>>(
    chooser: F,
    node: TreeNode,
    s: Seq<Row>,
    depth: int,
    max_depth: int,
    min_samples: int,
)
    requires
        grown(chooser, node, s, depth, max_depth, min_samples),
        same_width(s),
    ensures
        reads_below(node, width(s)),
    decreases s.len(),
{
    if !stops(s, depth, max_depth, min_samples) {
        if let TreeNode::Internal { feature_idx, threshold, left, middle, right } = node {
            let fi = feature_idx as int;
            let thr = threshold as int;
            let w = width(s);
            lemma_branch_parts_sum(s, fi, thr);
            lemma_candidate_splits_valid(s, (2 * w) as nat);
            let k = choose|k: int| 0 <= k < all_candidate_splits(s).len() && all_candidate_splits(s)[k] == (fi, thr);
            assert(all_candidate_splits(s)[k] == (fi, thr));
            assert((2 * w + 1) / 2 == w);
            let parts = seq![branch_part(s, fi, thr, 0), branch_part(s, fi, thr, 1), branch_part(s, fi, thr, 2)];
            assert forall|b: int| 0 <= b < 3 implies same_width(#[trigger] parts[b]) && width(parts[b]) == w by {
                lemma_branch_part_width(s, fi, thr, b, w);
                assert(parts[b][0] == parts[b][0]);
            }
            lemma_grown_reads_below(chooser, *left, parts[0], depth + 1, max_depth, min_samples);
            lemma_grown_reads_below(chooser, *middle, parts[1], depth + 1, max_depth, min_samples);
            lemma_grown_reads_below(chooser, *right, parts[2], depth + 1, max_depth, min_samples);
        }
    }
}

/// A tree that only tests features below `w` can label any row of at least
/// `w` features.
pub proof fn lemma_reads_below_reads_within(node: TreeNode, w: int, features: Seq<Feature>)
    requires
        reads_below(node, w),
        features.len() >= w,
    ensures
        reads_within(node, features),
    decreases node,
{
    if let TreeNode::Internal { left, middle, right, .. } = node {
        lemma_reads_below_reads_within(*left, w, features);
        lemma_reads_below_reads_within(*middle, w, features);
        lemma_reads_below_reads_within(*right, w, features);
    }
}

/// Pruning keeps a tree testing only features below `w`.
pub proof fn lemma_pruned_reads_below(node: TreeNode, vs: Seq<Row>, w: int)
    requires
        reads_below(node, w),
    ensures
        reads_below(pruned(node, vs), w),
    decreases node,
{
    if let TreeNode::Internal { feature_idx, threshold, left, middle, right } = node {
        let fi = feature_idx as int;
        let thr = threshold as int;
        lemma_pruned_reads_below(*left, branch_part(vs, fi, thr, 0), w);
        lemma_pruned_reads_below(*middle, branch_part(vs, fi, thr, 1), w);
        lemma_pruned_reads_below(*right, branch_part(vs, fi, thr, 2), w);
    }
}

/// A tree that only tests features below `w` can label, and so be pruned
/// against, any rows of at least `w` features.
pub proof fn lemma_reads_below_all_read(node: TreeNode, vs: Seq<Row>, w: int)
    requires
        reads_below(node, w),
        rows_at_least(vs, w),
    ensures
        all_read_within(node, vs),
{
    assert forall|i: int| 0 <= i < vs.len() implies reads_within(node, #[trigger] vs[i].0) by {
        lemma_reads_below_reads_within(node, w, vs[i].0);
    }
}

/// A tree grown from rows of one width can label any row at least that wide,
/// and can be pruned against any validation rows at least that wide.
pub proof fn lemma_grown_tree_accepts_wide_rows<F: Fn(&[usize; 3], &[SplitCandidate]) -> Option<usize>>(
    chooser: F,
    node: TreeNode,
    s: Seq<Row>,
    max_depth: int,
    min_samples: int,
    features: Seq<Feature>,
    vs: Seq<Row>,
)
    requires
        grown(chooser, node, s, 0, max_depth, min_samples),
        same_width(s),
    ensures
        features.len() >= width(s) ==> reads_within(node, features),
        rows_at_least(vs, width(s)) ==> all_read_within(node, vs),
{
    lemma_grown_reads_below(chooser, node, s, 0, max_depth, min_samples);
    if features.len() >= width(s) {
        lemma_reads_below_reads_within(node, width(s), features);
    }
    if rows_at_least(vs, width(s)) {
        lemma_reads_below_all_read(node, vs, width(s));
    }
}

/// Rows that all carry the label `t`.
pub open spec fn all_labelled(s: Seq<Row>, t: Ternary) -> bool {
    forall|i: int| 0 <= i < s.len() ==> (#[trigger] s[i]).1 == t
}

/// In rows that all carry `t`, every row counts for `t` and none for another label.
pub proof fn lemma_single_label_counts(s: Seq<Row>, t: Ternary, u: Ternary)
    requires
        all_labelled(s, t),
    ensures
        label_count(s, u) == if u == t {
            s.len()
        } else {
            0
        },
    decreases s.len(),
{
    if s.len() > 0 {
        assert(all_labelled(s.drop_last(), t)) by {
            assert forall|i: int| 0 <= i < s.drop_last().len() implies (#[trigger] s.drop_last()[i]).1 == t by {
                assert(s.drop_last()[i] == s[i]);
            }
        }
        lemma_single_label_counts(s.drop_last(), t, u);
        assert(s.last() == s[s.len() - 1]);
    }
}

/// Growing stops at once on rows that all carry one label.
pub proof fn lemma_single_label_stops(s: Seq<Row>, t: Ternary, depth: int, max_depth: int, min_samples: int)
    requires
        all_labelled(s, t),
        s.len() > 0,
    ensures
        stops(s, depth, max_depth, min_samples),
{
    lemma_single_label_counts(s, t, Ternary::Neg);
    lemma_single_label_counts(s, t, Ternary::Zero);
    lemma_single_label_counts(s, t, Ternary::Pos);
}

/// Growing is possible from rows where it stops at once.
pub proof fn lemma_stopped_growable<F: Fn(&[usize; 3], &[SplitCandidate]) -> Option<usize>>(
    chooser: F,
    s: Seq<Row>,
    depth: int,
    max_depth: int,
    min_samples: int,
)
    requires
        stops(s, depth, max_depth, min_samples),
    ensures
        growable(chooser, s, depth, max_depth, min_samples),
{
}

/// Growing is possible, whatever the chooser, from rows that all have the
/// same number of features.
pub proof fn lemma_same_width_growable<F: Fn(&[usize; 3], &[SplitCandidate]) -> Option<usize>>(
    chooser: F,
    s: Seq<Row>,
    depth: int,
    max_depth: int,
    min_samples: int,
)
    requires
        same_width(s),
    ensures
        growable(chooser, s, depth, max_depth, min_samples),
    decreases s.len(),
{
    if !stops(s, depth, max_depth, min_samples) {
        let w = width(s);
        let cs = all_candidate_splits(s);
        lemma_candidate_splits_valid(s, (2 * w) as nat);
        assert((2 * w + 1) / 2 == w);
        assert forall|p: [usize; 3], c: &[SplitCandidate], r: Option<usize>|
            #![trigger may_answer(chooser, p, c, r)]
            offered(s, p, c@) && may_answer(chooser, p, c, r) && r is Some && r->0 < c@.len()
            implies branches_growable(
                chooser,
                s,
                c@[r->0 as int].feature_idx as int,
                c@[r->0 as int].threshold as int,
                depth,
                max_depth,
                min_samples,
            ) by {
            let k = r->0 as int;
            let fi = c@[k].feature_idx as int;
            let thr = c@[k].threshold as int;
            assert(cs[k] == (fi, thr));
            assert(splits_three_ways(s, fi, thr));
            lemma_branch_parts_sum(s, fi, thr);
            let parts = seq![branch_part(s, fi, thr, 0), branch_part(s, fi, thr, 1), branch_part(s, fi, thr, 2)];
            assert forall|b: int| 0 <= b < 3 implies growable(chooser, #[trigger] parts[b], depth + 1, max_depth, min_samples) by {
                lemma_branch_part_width(s, fi, thr, b, w);
                assert(parts[b][0] == parts[b][0]);
                assert(same_width(parts[b]));
                lemma_same_width_growable(chooser, parts[b], depth + 1, max_depth, min_samples);
            }
            assert(growable(chooser, parts[0], depth + 1, max_depth, min_samples));
            assert(growable(chooser, parts[1], depth + 1, max_depth, min_samples));
            assert(growable(chooser, parts[2], depth + 1, max_depth, min_samples));
        }
    }
}

/// Rows that all carry one label grow into a single leaf with that label and
/// full confidence, whatever the chooser and the limits.
pub proof fn lemma_single_label_grows_leaf<F: Fn(&[usize; 3], &[SplitCandidate]) -> Option<usize>>(
    chooser: F,
    node: TreeNode,
    s: Seq<Row>,
    t: Ternary,
    depth: int,
    max_depth: int,
    min_samples: int,
)
    requires
        grown(chooser, node, s, depth, max_depth, min_samples),
        all_labelled(s, t),
        s.len() > 0,
        s.len() <= usize::MAX,
    ensures
        node == (TreeNode::Leaf {
            label: t,
            confidence: Confidence { num: s.len() as usize, den: s.len() as usize },
            count: s.len() as usize,
        }),
        forall|f: Seq<Feature>| node_predict(node, f) == t,
{
    lemma_single_label_counts(s, t, Ternary::Neg);
    lemma_single_label_counts(s, t, Ternary::Zero);
    lemma_single_label_counts(s, t, Ternary::Pos);
    assert(stops(s, depth, max_depth, min_samples));
}

/// Where growing stops, the grown tree is the leaf of the rows.
pub proof fn lemma_stopped_is_leaf<F: Fn(&[usize; 3], &[SplitCandidate]) -> Option<usize>>(
    chooser: F,
    node: TreeNode,
    s: Seq<Row>,
    depth: int,
    max_depth: int,
    min_samples: int,
)
    requires
        grown(chooser, node, s, depth, max_depth, min_samples),
        stops(s, depth, max_depth, min_samples),
    ensures
        node == leaf_for(s),
{
}

/// A split candidate as mathematical values: feature, threshold and the
/// label counts of its three branches.
pub open spec fn candidate_view(c: SplitCandidate) -> (usize, Feature, Seq<usize>, Seq<usize>, Seq<usize>) {
    (c.feature_idx, c.threshold, c.left_counts@, c.mid_counts@, c.right_counts@)
}

/// The chooser's answer is a function of the values it is handed.
pub open spec fn answers_by_values<F: Fn(&[usize; 3], &[SplitCandidate]) -> Option<usize>>(chooser: F) -> bool {
    forall|p1: [usize; 3], c1: &[SplitCandidate], r1: Option<usize>, p2: [usize; 3], c2: &[SplitCandidate], r2: Option<usize>|
        #![trigger may_answer(chooser, p1, c1, r1), may_answer(chooser, p2, c2, r2)]
        p1@ == p2@ && c1@.map_values(|c: SplitCandidate| candidate_view(c)) == c2@.map_values(
            |c: SplitCandidate| candidate_view(c),
        ) && may_answer(chooser, p1, c1, r1) && may_answer(chooser, p2, c2, r2) ==> r1 == r2
}

/// What a node offers the chooser is the same values, however often it is offered.
pub proof fn lemma_offered_values(s: Seq<Row>, p1: [usize; 3], c1: Seq<SplitCandidate>, p2: [usize; 3], c2: Seq<SplitCandidate>)
    requires
        offered(s, p1, c1),
        offered(s, p2, c2),
    ensures
        p1@ == p2@,
        c1.map_values(|c: SplitCandidate| candidate_view(c)) == c2.map_values(|c: SplitCandidate| candidate_view(c)),
{
    broadcast use vstd::array::array_len_matches_n;
    assert(p1@ =~= p2@);
    assert forall|k: int| 0 <= k < c1.len() implies #[trigger] candidate_view(c1[k]) == candidate_view(c2[k]) by {
        assert(describes(c1[k], s, all_candidate_splits(s)[k].0, all_candidate_splits(s)[k].1));
        assert(describes(c2[k], s, all_candidate_splits(s)[k].0, all_candidate_splits(s)[k].1));
        assert(c1[k].left_counts@ =~= c2[k].left_counts@);
        assert(c1[k].mid_counts@ =~= c2[k].mid_counts@);
        assert(c1[k].right_counts@ =~= c2[k].right_counts@);
    }
    assert(c1.map_values(|c: SplitCandidate| candidate_view(c)) =~= c2.map_values(|c: SplitCandidate| candidate_view(c)));
}

/// Growing is deterministic: with a chooser whose answer depends only on the
/// values it is handed, the same rows and limits grow the same tree.
pub proof fn lemma_grown_deterministic<F: Fn(&[usize; 3], &[SplitCandidate]) -> Option<usize>>(
    chooser: F,
    node1: TreeNode,
    node2: TreeNode,
    s: Seq<Row>,
    depth: int,
    max_depth: int,
    min_samples: int,
)
    requires
        answers_by_values(chooser),
        grown(chooser, node1, s, depth, max_depth, min_samples),
        grown(chooser, node2, s, depth, max_depth, min_samples),
    ensures
        node1 == node2,
    decreases s.len(),
{
    if !stops(s, depth, max_depth, min_samples) {
        let split1: Option<(int, int)> = match node1 {
            TreeNode::Leaf { .. } => None,
            TreeNode::Internal { feature_idx, threshold, .. } => Some((feature_idx as int, threshold as int)),
        };
        let split2: Option<(int, int)> = match node2 {
            TreeNode::Leaf { .. } => None,
            TreeNode::Internal { feature_idx, threshold, .. } => Some((feature_idx as int, threshold as int)),
        };
        assert(chooser_answered(chooser, s, split1));
        assert(chooser_answered(chooser, s, split2));
        let (p1, c1, r1) = choose|p: [usize; 3], c: &[SplitCandidate], r: Option<usize>|
            #![trigger may_answer(chooser, p, c, r)]
            {
                &&& offered(s, p, c@)
                &&& may_answer(chooser, p, c, r)
                &&& match split1 {
                    Some(pair) => r matches Some(i) && i < c@.len() && c@[i as int].feature_idx == pair.0
                        && c@[i as int].threshold == pair.1,
                    None => !(r matches Some(i) && i < c@.len()),
                }
            };
        let (p2, c2, r2) = choose|p: [usize; 3], c: &[SplitCandidate], r: Option<usize>|
            #![trigger may_answer(chooser, p, c, r)]
            {
                &&& offered(s, p, c@)
                &&& may_answer(chooser, p, c, r)
                &&& match split2 {
                    Some(pair) => r matches Some(i) && i < c@.len() && c@[i as int].feature_idx == pair.0
                        && c@[i as int].threshold == pair.1,
                    None => !(r matches Some(i) && i < c@.len()),
                }
            };
        lemma_offered_values(s, p1, c1@, p2, c2@);
        assert(r1 == r2);
        if let Some(i) = r1 {
            if i < c1@.len() {
                assert(candidate_view(c1@[i as int]) == candidate_view(c2@[i as int])) by {
                    assert(c1@.map_values(|c: SplitCandidate| candidate_view(c))[i as int] == candidate_view(c1@[i as int]));
                    assert(c2@.map_values(|c: SplitCandidate| candidate_view(c))[i as int] == candidate_view(c2@[i as int]));
                }
            }
        }
        if let TreeNode::Internal { feature_idx, threshold, left, middle, right } = node1 {
            if let TreeNode::Internal { left: l2, middle: m2, right: r2n, .. } = node2 {
                let fi = feature_idx as int;
                let thr = threshold as int;
                lemma_branch_parts_sum(s, fi, thr);
                lemma_grown_deterministic(chooser, *left, *l2, branch_part(s, fi, thr, 0), depth + 1, max_depth, min_samples);
                lemma_grown_deterministic(chooser, *middle, *m2, branch_part(s, fi, thr, 1), depth + 1, max_depth, min_samples);
                lemma_grown_deterministic(chooser, *right, *r2n, branch_part(s, fi, thr, 2), depth + 1, max_depth, min_samples);
            }
        }
    }
}

/// Growing stops exactly at the limits: at or beyond the depth limit, with
/// at most `min_samples` rows, or when one label holds at least 95% of the
/// rows, the node is a leaf; below all three limits it is a leaf only when
/// the chooser declined to split, and an internal node lies below all three.
pub proof fn lemma_growing_stops_exactly<F: Fn(&[usize; 3], &[SplitCandidate]) -> Option<usize>>(
    chooser: F,
    node: TreeNode,
    s: Seq<Row>,
    depth: int,
    max_depth: int,
    min_samples: int,
)
    requires
        grown(chooser, node, s, depth, max_depth, min_samples),
    ensures
        (depth >= max_depth || s.len() <= min_samples || exists|t: Ternary|
            20 * #[trigger] label_count(s, t) >= 19 * s.len()) ==> node is Leaf,
        (depth < max_depth && s.len() > min_samples && (forall|t: Ternary| 20 * #[trigger] label_count(s, t) < 19
            * s.len()) && node is Leaf) ==> chooser_answered(chooser, s, None),
        node is Internal ==> depth < max_depth && s.len() > min_samples && forall|t: Ternary|
            20 * #[trigger] label_count(s, t) < 19 * s.len(),
{
    let a = label_count(s, Ternary::Neg);
    let b = label_count(s, Ternary::Zero);
    let c = label_count(s, Ternary::Pos);
    assert(max_count(s) == a || max_count(s) == b || max_count(s) == c);
    assert(max_count(s) >= a && max_count(s) >= b && max_count(s) >= c);
    assert((exists|t: Ternary| 20 * #[trigger] label_count(s, t) >= 19 * s.len()) <==> 20 * max_count(s) >= 19 * s.len()) by {
        if 20 * max_count(s) >= 19 * s.len() {
            if max_count(s) == a {
                assert(20 * label_count(s, Ternary::Neg) >= 19 * s.len());
            } else if max_count(s) == b {
                assert(20 * label_count(s, Ternary::Zero) >= 19 * s.len());
            } else {
                assert(20 * label_count(s, Ternary::Pos) >= 19 * s.len());
            }
        }
        if exists|t: Ternary| 20 * #[trigger] label_count(s, t) >= 19 * s.len() {
            let t = choose|t: Ternary| 20 * #[trigger] label_count(s, t) >= 19 * s.len();
            match t {
                Ternary::Neg => {},
                Ternary::Zero => {},
                Ternary::Pos => {},
            }
        }
    }
    assert((forall|t: Ternary| 20 * #[trigger] label_count(s, t) < 19 * s.len()) <==> !(exists|t: Ternary|
        20 * #[trigger] label_count(s, t) >= 19 * s.len()));
}

/// A grown leaf carries a most frequent label of its rows (a tie going to
/// `Neg`, then to `Zero`), their number as count, and as confidence the
/// share of them that carry its label (`0 / 1` for no rows).
pub proof fn lemma_grown_leaf_contents<F: Fn(&[usize; 3], &[SplitCandidate]) -> Option<usize>>(
    chooser: F,
    node: TreeNode,
    s: Seq<Row>,
    depth: int,
    max_depth: int,
    min_samples: int,
)
    requires
        grown(chooser, node, s, depth, max_depth, min_samples),
        node is Leaf,
        s.len() <= usize::MAX,
    ensures
        forall|t: Ternary| label_count(s, node->label) >= #[trigger] label_count(s, t),
        node->label == Ternary::Zero ==> label_count(s, Ternary::Neg) < label_count(s, Ternary::Zero),
        node->label == Ternary::Pos ==> label_count(s, Ternary::Neg) < label_count(s, Ternary::Pos)
            && label_count(s, Ternary::Zero) < label_count(s, Ternary::Pos),
        node->count == s.len(),
        s.len() > 0 ==> node->confidence.num == label_count(s, node->label) && node->confidence.den
            == s.len(),
        s.len() == 0 ==> node->confidence.num == 0 && node->confidence.den == 1,
{
    assert(node == leaf_for(s));
    lemma_majority_label_wins(s);
    lemma_label_counts_sum(s);
}

/// Every row a tree is grown from ends up in exactly one leaf: the leaves'
/// sample counts add up to the number of rows.
pub proof fn lemma_grown_leaf_rows<F: Fn(&[usize; 3], &[SplitCandidate]) -> Option<usize>>(
    chooser: F,
    node: TreeNode,
    s: Seq<Row>,
    depth: int,
    max_depth: int,
    min_samples: int,
)
    requires
        grown(chooser, node, s, depth, max_depth, min_samples),
        s.len() <= usize::MAX,
    ensures
        leaf_rows(node) == s.len(),
    decreases s.len(),
{
    if !stops(s, depth, max_depth, min_samples) {
        if let TreeNode::Internal { feature_idx, threshold, left, middle, right } = node {
            let fi = feature_idx as int;
            let thr = threshold as int;
            lemma_branch_parts_sum(s, fi, thr);
            lemma_grown_leaf_rows(chooser, *left, branch_part(s, fi, thr, 0), depth + 1, max_depth, min_samples);
            lemma_grown_leaf_rows(chooser, *middle, branch_part(s, fi, thr, 1), depth + 1, max_depth, min_samples);
            lemma_grown_leaf_rows(chooser, *right, branch_part(s, fi, thr, 2), depth + 1, max_depth, min_samples);
        }
    }
}

} // verus!
