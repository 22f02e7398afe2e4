use vstd::prelude::*;
use crate::ternary::Ternary;
use crate::split::{branch_part, partition, lemma_branch_part_keeps};
use crate::labels::{row_of, Feature, Sample, Row, label_count, majority_label, rows_of, count_labels, majority};

verus! {

/// How sure a leaf is of its label: the exact fraction `num / den` of the
/// samples that reached the leaf and carry its label (`0 / 1` for a leaf that
/// saw no sample, `1 / 1` for a leaf made by pruning).
#[derive(Debug, Clone, Copy, PartialEq, Eq, Structural)]
pub struct Confidence {
    pub num: usize,
    pub den: usize,
}

/// A decision tree node.
#[derive(Debug)]
pub enum TreeNode {
    Leaf { label: Ternary, confidence: Confidence, count: usize },
    Internal {
        feature_idx: usize,
        threshold: Feature,
        left: Box<TreeNode>,  // value < threshold
        middle: Box<TreeNode>,  // value == threshold
        right: Box<TreeNode>,  // value > threshold
    },
}

/// The branch a value takes at a threshold: 0 for less, 1 for equal, 2 for greater.
pub open spec fn branch_of(value: int, threshold: int) -> int {
    if value < threshold {
        0
    } else if value == threshold {
        1
    } else {
        2
    }
}

/// Every node on the path that `features` takes through `node` reads a
/// feature that `features` has.
pub open spec fn reads_within(node: TreeNode, features: Seq<Feature>) -> bool
    decreases node,
{
    match node {
        TreeNode::Leaf { .. } => true,
        TreeNode::Internal { feature_idx, threshold, left, middle, right } => {
            &&& feature_idx < features.len()
            &&& if features[feature_idx as int] < threshold {
                reads_within(*left, features)
            } else if features[feature_idx as int] == threshold {
                reads_within(*middle, features)
            } else {
                reads_within(*right, features)
            }
        },
    }
}

/// The label that `node` gives to `features`: follow the branches down to a leaf.
pub open spec fn node_predict(node: TreeNode, features: Seq<Feature>) -> Ternary
    decreases node,
{
    match node {
        TreeNode::Leaf { label, .. } => label,
        TreeNode::Internal { feature_idx, threshold, left, middle, right } => {
            if features[feature_idx as int] < threshold {
                node_predict(*left, features)
            } else if features[feature_idx as int] == threshold {
                node_predict(*middle, features)
            } else {
                node_predict(*right, features)
            }
        },
    }
}

/// The number of leaves under `node`.
pub open spec fn leaf_count(node: TreeNode) -> nat
    decreases node,
{
    match node {
        TreeNode::Leaf { .. } => 1,
        TreeNode::Internal { left, middle, right, .. } => leaf_count(*left) + leaf_count(*middle)
            + leaf_count(*right),
    }
}

/// The number of edges on the longest path from `node` to a leaf.
pub open spec fn height(node: TreeNode) -> nat
    decreases node,
{
    match node {
        TreeNode::Leaf { .. } => 0,
        TreeNode::Internal { left, middle, right, .. } => {
            let hl = height(*left);
            let hm = height(*middle);
            let hr = height(*right);
            1 + if hl >= hm && hl >= hr {
                hl
            } else if hm >= hr {
                hm
            } else {
                hr
            }
        },
    }
}

/// Every sample of `vs` can be run through `node`.
pub open spec fn all_read_within(node: TreeNode, vs: Seq<Row>) -> bool {
    forall|i: int| 0 <= i < vs.len() ==> reads_within(node, #[trigger] vs[i].0)
}

/// How many samples of `vs` the tree `node` labels correctly.
pub open spec fn hits(node: TreeNode, vs: Seq<Row>) -> nat
    decreases vs.len(),
{
    if vs.len() == 0 {
        0
    } else {
        hits(node, vs.drop_last()) + if node_predict(node, vs.last().0) == vs.last().1 {
            1nat
        } else {
            0nat
        }
    }
}

/// The leaf that pruning against `vs` puts in place of a subtree.
pub open spec fn pruning_leaf(vs: Seq<Row>) -> TreeNode {
    TreeNode::Leaf {
        label: majority_label(vs),
        confidence: Confidence { num: 1, den: 1 },
        count: vs.len() as usize,
    }
}

/// Bottom-up pruning against the validation rows `vs` that reach `node`:
/// each child is pruned against the rows of `vs` that take its branch, then
/// the node becomes the majority leaf of `vs` when that leaf labels at least
/// as many rows of `vs` correctly as the node with its pruned children does.
pub open spec fn pruned(node: TreeNode, vs: Seq<Row>) -> TreeNode
    decreases node,
{
    match node {
        TreeNode::Leaf { .. } => node,
        TreeNode::Internal { feature_idx, threshold, left, middle, right } => {
            let fi = feature_idx as int;
            let thr = threshold as int;
            let inner = TreeNode::Internal {
                feature_idx,
                threshold,
                left: Box::new(pruned(*left, branch_part(vs, fi, thr, 0))),
                middle: Box::new(pruned(*middle, branch_part(vs, fi, thr, 1))),
                right: Box::new(pruned(*right, branch_part(vs, fi, thr, 2))),
            };
            if label_count(vs, majority_label(vs)) >= hits(inner, vs) {
                pruning_leaf(vs)
            } else {
                inner
            }
        },
    }
}

/// `node` with each child pruned against the rows of `vs` that take its branch.
pub open spec fn with_pruned_children(node: TreeNode, vs: Seq<Row>) -> TreeNode {
    match node {
        TreeNode::Leaf { .. } => node,
        TreeNode::Internal { feature_idx, threshold, left, middle, right } => {
            let fi = feature_idx as int;
            let thr = threshold as int;
            TreeNode::Internal {
                feature_idx,
                threshold,
                left: Box::new(pruned(*left, branch_part(vs, fi, thr, 0))),
                middle: Box::new(pruned(*middle, branch_part(vs, fi, thr, 1))),
                right: Box::new(pruned(*right, branch_part(vs, fi, thr, 2))),
            }
        },
    }
}

/// A leaf is one leaf; an internal node has the leaves of its three children.
pub proof fn lemma_leaf_count_by_children(node: TreeNode)
    ensures
        node is Leaf ==> leaf_count(node) == 1,
        node is Internal ==> leaf_count(node) == leaf_count(*node->left) + leaf_count(*node->middle)
            + leaf_count(*node->right),
{
}

/// A leaf gives its label; an internal node passes the features to its left,
/// middle or right child as the tested feature is below, at or above the
/// threshold, and reads that feature only.
pub proof fn lemma_predict_by_branch(node: TreeNode, features: Seq<Feature>)
    ensures
        node is Leaf ==> node_predict(node, features) == node->label && reads_within(node, features),
        node is Internal ==> {
            let v = features[node->feature_idx as int];
            let t = node->threshold;
            &&& v < t ==> node_predict(node, features) == node_predict(*node->left, features)
            &&& v == t ==> node_predict(node, features) == node_predict(*node->middle, features)
            &&& v > t ==> node_predict(node, features) == node_predict(*node->right, features)
            &&& reads_within(node, features) <==> node->feature_idx < features.len() && (if v < t {
                reads_within(*node->left, features)
            } else if v == t {
                reads_within(*node->middle, features)
            } else {
                reads_within(*node->right, features)
            })
        },
{
}

/// No rows give no hits; one more row adds one hit exactly when the tree
/// labels it correctly.
pub proof fn lemma_hits_steps(node: TreeNode, vs: Seq<Row>, x: Row)
    ensures
        hits(node, Seq::<Row>::empty()) == 0,
        hits(node, vs.push(x)) == hits(node, vs) + if node_predict(node, x.0) == x.1 {
            1int
        } else {
            0int
        },
        hits(node, vs) <= vs.len(),
    decreases vs.len(),
{
    assert(vs.push(x).drop_last() =~= vs);
    if vs.len() > 0 {
        lemma_hits_steps(node, vs.drop_last(), vs.last());
    }
}

/// Pruning leaves a leaf alone. At an internal node it gives either the node
/// with its children pruned (against the rows that take their branches), or
/// the majority leaf of the rows that reach it, with full confidence and
/// their number as count; the leaf exactly when it labels at least as many
/// of those rows correctly as the node with its pruned children does.
pub proof fn lemma_pruning_decision(node: TreeNode, vs: Seq<Row>)
    ensures
        node is Leaf ==> pruned(node, vs) == node,
        node is Internal ==> {
            let inner = with_pruned_children(node, vs);
            let maj = majority_label(vs);
            &&& label_count(vs, maj) >= hits(inner, vs) ==> pruned(node, vs) == (TreeNode::Leaf {
                label: maj,
                confidence: Confidence { num: 1, den: 1 },
                count: vs.len() as usize,
            })
            &&& label_count(vs, maj) < hits(inner, vs) ==> pruned(node, vs) == inner
            &&& hits(pruned(node, vs), vs) >= hits(inner, vs)
            &&& inner is Internal && inner->feature_idx == node->feature_idx && inner->threshold == node->threshold
            &&& *inner->left == pruned(*node->left, branch_part(vs, node->feature_idx as int, node->threshold as int, 0))
            &&& *inner->middle == pruned(*node->middle, branch_part(vs, node->feature_idx as int, node->threshold as int, 1))
            &&& *inner->right == pruned(*node->right, branch_part(vs, node->feature_idx as int, node->threshold as int, 2))
        },
{
    if node is Internal {
        lemma_leaf_hits(majority_label(vs), Confidence { num: 1, den: 1 }, vs.len() as usize, vs);
    }
}

/// A leaf has height 0; an internal node is one higher than its highest child.
pub proof fn lemma_height_by_children(node: TreeNode)
    ensures
        node is Leaf ==> height(node) == 0,
        node is Internal ==> {
            &&& height(node) >= 1 + height(*node->left)
            &&& height(node) >= 1 + height(*node->middle)
            &&& height(node) >= 1 + height(*node->right)
            &&& (height(node) == 1 + height(*node->left) || height(node) == 1 + height(*node->middle)
                || height(node) == 1 + height(*node->right))
        },
{
}

/// The sum of the sample counts that the leaves of `node` hold.
pub open spec fn leaf_rows(node: TreeNode) -> nat
    decreases node,
{
    match node {
        TreeNode::Leaf { count, .. } => count as nat,
        TreeNode::Internal { left, middle, right, .. } => leaf_rows(*left) + leaf_rows(*middle) + leaf_rows(*right),
    }
}

/// A tree has at least one leaf.
pub proof fn lemma_leaf_count_positive(node: TreeNode)
    ensures
        leaf_count(node) >= 1,
    decreases node,
{
    if let TreeNode::Internal { left, middle, right, .. } = node {
        lemma_leaf_count_positive(*left);
        lemma_leaf_count_positive(*middle);
        lemma_leaf_count_positive(*right);
    }
}

/// Pruning never adds leaves.
pub proof fn lemma_pruning_keeps_leaf_count(node: TreeNode, vs: Seq<Row>)
    ensures
        leaf_count(pruned(node, vs)) <= leaf_count(node),
    decreases node,
{
    if let TreeNode::Internal { feature_idx, threshold, left, middle, right } = node {
        let fi = feature_idx as int;
        let thr = threshold as int;
        lemma_leaf_count_positive(*left);
        lemma_pruning_keeps_leaf_count(*left, branch_part(vs, fi, thr, 0));
        lemma_pruning_keeps_leaf_count(*middle, branch_part(vs, fi, thr, 1));
        lemma_pruning_keeps_leaf_count(*right, branch_part(vs, fi, thr, 2));
    }
}

/// Pruning never makes a tree deeper.
pub proof fn lemma_pruning_keeps_height(node: TreeNode, vs: Seq<Row>)
    ensures
        height(pruned(node, vs)) <= height(node),
    decreases node,
{
    if let TreeNode::Internal { feature_idx, threshold, left, middle, right } = node {
        let fi = feature_idx as int;
        let thr = threshold as int;
        lemma_pruning_keeps_height(*left, branch_part(vs, fi, thr, 0));
        lemma_pruning_keeps_height(*middle, branch_part(vs, fi, thr, 1));
        lemma_pruning_keeps_height(*right, branch_part(vs, fi, thr, 2));
    }
}

/// A row that a tree can label, its pruned form (against any rows) can label
/// too; so a tree that can be pruned against some rows still can after pruning.
pub proof fn lemma_pruning_keeps_reads(node: TreeNode, vs: Seq<Row>, features: Seq<Feature>)
    requires
        reads_within(node, features),
    ensures
        reads_within(pruned(node, vs), features),
    decreases node,
{
    if let TreeNode::Internal { feature_idx, threshold, left, middle, right } = node {
        let fi = feature_idx as int;
        let thr = threshold as int;
        let v = features[feature_idx as int];
        if v < threshold {
            lemma_pruning_keeps_reads(*left, branch_part(vs, fi, thr, 0), features);
        } else if v == threshold {
            lemma_pruning_keeps_reads(*middle, branch_part(vs, fi, thr, 1), features);
        } else {
            lemma_pruning_keeps_reads(*right, branch_part(vs, fi, thr, 2), features);
        }
    }
}

/// Rows that a tree can label, its pruned form (against any rows) can label
/// too: a tree that could be pruned against `ws` still can after pruning.
pub proof fn lemma_pruning_keeps_all_read(node: TreeNode, vs: Seq<Row>, ws: Seq<Row>)
    requires
        all_read_within(node, ws),
    ensures
        all_read_within(pruned(node, vs), ws),
{
    assert forall|i: int| 0 <= i < ws.len() implies reads_within(pruned(node, vs), #[trigger] ws[i].0) by {
        lemma_pruning_keeps_reads(node, vs, ws[i].0);
    }
}

/// A leaf labels correctly exactly the rows that carry its label.
pub proof fn lemma_leaf_hits(label: Ternary, confidence: Confidence, count: usize, vs: Seq<Row>)
    ensures
        hits(TreeNode::Leaf { label, confidence, count }, vs) == label_count(vs, label),
    decreases vs.len(),
{
    if vs.len() > 0 {
        lemma_leaf_hits(label, confidence, count, vs.drop_last());
    }
}

/// An internal node labels correctly exactly the rows its children label
/// correctly among the rows that take their branches.
pub proof fn lemma_hits_by_branch(node: TreeNode, vs: Seq<Row>)
    requires
        node is Internal,
    ensures
        ({
            let fi = node->feature_idx as int;
            let thr = node->threshold as int;
            hits(node, vs) == hits(*node->left, branch_part(vs, fi, thr, 0)) + hits(
                *node->middle,
                branch_part(vs, fi, thr, 1),
            ) + hits(*node->right, branch_part(vs, fi, thr, 2))
        }),
    decreases vs.len(),
{
    if vs.len() > 0 {
        lemma_hits_by_branch(node, vs.drop_last());
        let fi = node->feature_idx as int;
        let thr = node->threshold as int;
        let x = vs.last();
        let i = vs.drop_last();
        assert(branch_part(vs, fi, thr, 0) == if branch_of(x.0[fi] as int, thr) == 0 {
            branch_part(i, fi, thr, 0).push(x)
        } else {
            branch_part(i, fi, thr, 0)
        });
        assert(branch_part(i, fi, thr, 0).push(x).drop_last() =~= branch_part(i, fi, thr, 0));
        assert(branch_part(i, fi, thr, 1).push(x).drop_last() =~= branch_part(i, fi, thr, 1));
        assert(branch_part(i, fi, thr, 2).push(x).drop_last() =~= branch_part(i, fi, thr, 2));
    }
}

/// Pruning never lowers accuracy: the pruned tree labels at least as many of
/// the validation rows correctly as the tree did.
pub proof fn lemma_pruning_keeps_hits(node: TreeNode, vs: Seq<Row>)
    ensures
        hits(pruned(node, vs), vs) >= hits(node, vs),
    decreases node,
{
    if let TreeNode::Internal { feature_idx, threshold, left, middle, right } = node {
        let fi = feature_idx as int;
        let thr = threshold as int;
        lemma_pruning_keeps_hits(*left, branch_part(vs, fi, thr, 0));
        lemma_pruning_keeps_hits(*middle, branch_part(vs, fi, thr, 1));
        lemma_pruning_keeps_hits(*right, branch_part(vs, fi, thr, 2));
        lemma_hits_by_branch(node, vs);
        lemma_hits_by_branch(with_pruned_children(node, vs), vs);
        lemma_leaf_hits(majority_label(vs), Confidence { num: 1, den: 1 }, vs.len() as usize, vs);
    }
}

/// Pruning twice against the same validation rows prunes nothing more.
pub proof fn lemma_pruning_idempotent(node: TreeNode, vs: Seq<Row>)
    ensures
        pruned(pruned(node, vs), vs) == pruned(node, vs),
    decreases node,
{
    if let TreeNode::Internal { feature_idx, threshold, left, middle, right } = node {
        let fi = feature_idx as int;
        let thr = threshold as int;
        lemma_pruning_idempotent(*left, branch_part(vs, fi, thr, 0));
        lemma_pruning_idempotent(*middle, branch_part(vs, fi, thr, 1));
        lemma_pruning_idempotent(*right, branch_part(vs, fi, thr, 2));
    }
}

/// The label `node` gives to `features`.
pub fn predict_node(node: &TreeNode, features: &[Feature]) -> (label: Ternary)
    requires
        reads_within(*node, features@),
    ensures
        label == node_predict(*node, features@),
    decreases node,
{
    match node {
        TreeNode::Leaf { label, .. } => *label,
        TreeNode::Internal { feature_idx, threshold, left, middle, right } => {
            let val = features[*feature_idx];
            if val < *threshold {
                predict_node(left, features)
            } else if val == *threshold {
                predict_node(middle, features)
            } else {
                predict_node(right, features)
            }
        },
    }
}

/// Whether `node` can label `features`: every node on their path reads a
/// feature that `features` has.
pub fn reads_node(node: &TreeNode, features: &[Feature]) -> (ok: bool)
    ensures
        ok == reads_within(*node, features@),
    decreases node,
{
    match node {
        TreeNode::Leaf { .. } => true,
        TreeNode::Internal { feature_idx, threshold, left, middle, right } => {
            if *feature_idx >= features.len() {
                false
            } else {
                let val = features[*feature_idx];
                if val < *threshold {
                    reads_node(left, features)
                } else if val == *threshold {
                    reads_node(middle, features)
                } else {
                    reads_node(right, features)
                }
            }
        },
    }
}

/// Whether `node` can label every one of `samples`.
pub fn reads_all(node: &TreeNode, samples: &[Sample]) -> (ok: bool)
    ensures
        ok == all_read_within(*node, rows_of(samples@)),
{
    let ghost rs = rows_of(samples@);
    let n = samples.len();
    for i in 0..n
        invariant
            n == samples@.len(),
            rs == rows_of(samples@),
            forall|k: int| 0 <= k < i ==> reads_within(*node, (#[trigger] rs[k]).0),
    {
        proof {
            assert(rs[i as int] == row_of(samples@[i as int]));
        }
        if !reads_node(node, samples[i].0.as_slice()) {
            assert(!reads_within(*node, rs[i as int].0));
            return false;
        }
    }
    true
}

/// The number of leaves under `node`.
pub fn count_leaves_node(node: &TreeNode) -> (n: usize)
    requires
        leaf_count(*node) <= usize::MAX,
    ensures
        n == leaf_count(*node),
    decreases node,
{
    match node {
        TreeNode::Leaf { .. } => 1,
        TreeNode::Internal { left, middle, right, .. } => {
            count_leaves_node(left) + count_leaves_node(middle) + count_leaves_node(right)
        },
    }
}

/// How many of the validation samples `node` labels correctly.
fn count_hits(node: &TreeNode, validation: &[Sample]) -> (n: usize)
    requires
        all_read_within(*node, rows_of(validation@)),
    ensures
        n == hits(*node, rows_of(validation@)),
{
    let ghost vs = rows_of(validation@);
    let len = validation.len();
    let mut n: usize = 0;
    for i in 0..len
        invariant
            len == validation@.len(),
            vs == rows_of(validation@),
            all_read_within(*node, vs),
            n == hits(*node, vs.take(i as int)),
            n <= i,
    {
        proof {
            assert(vs.take(i + 1).drop_last() =~= vs.take(i as int));
            assert(reads_within(*node, vs[i as int].0));
        }
        if predict_node(node, validation[i].0.as_slice()) == validation[i].1 {
            n = n + 1;
        }
    }
    assert(vs.take(len as int) =~= vs);
    n
}

/// Prune `node` bottom-up against the validation samples that reach it.
pub fn prune_node(node: TreeNode, validation: &[Sample]) -> (result: TreeNode)
    requires
        all_read_within(node, rows_of(validation@)),
    ensures
        result == pruned(node, rows_of(validation@)),
    decreases node,
{
    let ghost vs = rows_of(validation@);
    match node {
        TreeNode::Leaf { .. } => node,
        TreeNode::Internal { feature_idx, threshold, left, middle, right } => {
            let ghost fi = feature_idx as int;
            let ghost thr = threshold as int;
            proof {
                assert forall|i: int| 0 <= i < validation@.len() implies feature_idx < (
                #[trigger] validation@[i]).0@.len() by {
                    assert(vs[i] == row_of(validation@[i]));
                    assert(reads_within(node, vs[i].0));
                }
                lemma_branch_part_keeps(vs, fi, thr, 0, |r: Row| reads_within(*left, r.0));
                lemma_branch_part_keeps(vs, fi, thr, 1, |r: Row| reads_within(*middle, r.0));
                lemma_branch_part_keeps(vs, fi, thr, 2, |r: Row| reads_within(*right, r.0));
            }
            let (left_rows, mid_rows, right_rows) = partition(validation, feature_idx, threshold);
            let l = prune_node(*left, left_rows.as_slice());
            let m = prune_node(*middle, mid_rows.as_slice());
            let r = prune_node(*right, right_rows.as_slice());
            let internal_node = TreeNode::Internal {
                feature_idx,
                threshold,
                left: Box::new(l),
                middle: Box::new(m),
                right: Box::new(r),
            };
            proof {
                assert(internal_node == with_pruned_children(node, vs));
                assert forall|i: int| 0 <= i < vs.len() implies reads_within(internal_node, #[trigger] vs[i].0) by {
                    let f = vs[i].0;
                    assert(reads_within(node, f));
                    if f[fi] < thr {
                        lemma_pruning_keeps_reads(*left, branch_part(vs, fi, thr, 0), f);
                    } else if f[fi] == thr {
                        lemma_pruning_keeps_reads(*middle, branch_part(vs, fi, thr, 1), f);
                    } else {
                        lemma_pruning_keeps_reads(*right, branch_part(vs, fi, thr, 2), f);
                    }
                }
            }
            // Compute accuracy with internal node
            let internal_acc = count_hits(&internal_node, validation);
            // Try converting to leaf
            let leaf_label = majority(validation);
            let counts = count_labels(validation);
            let leaf_acc = match leaf_label {
                Ternary::Neg => counts[0],
                Ternary::Zero => counts[1],
                Ternary::Pos => counts[2],
            };
            if leaf_acc >= internal_acc {
                TreeNode::Leaf {
                    label: leaf_label,
                    confidence: Confidence { num: 1, den: 1 },
                    count: validation.len(),
                }
            } else {
                internal_node
            }
        },
    }
}

impl Clone for TreeNode {
    fn clone(&self) -> (copy: Self)
        ensures
            copy == *self,
        decreases self,
    {
        match self {
            TreeNode::Leaf { label, confidence, count } => TreeNode::Leaf {
                label: *label,
                confidence: *confidence,
                count: *count,
            },
            TreeNode::Internal { feature_idx, threshold, left, middle, right } => {
                let l = (**left).clone();
                let m = (**middle).clone();
                let r = (**right).clone();
                TreeNode::Internal {
                    feature_idx: *feature_idx,
                    threshold: *threshold,
                    left: Box::new(l),
                    middle: Box::new(m),
                    right: Box::new(r),
                }
            },
        }
    }
}

} // verus!
