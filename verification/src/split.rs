use vstd::prelude::*;
use crate::ternary::Ternary;
use crate::labels::{Feature, Sample, Row, row_of, rows_of, label_count, lemma_label_count_push,
    lemma_label_counts_sum};
use crate::tree::branch_of;

verus! {

/// The rows of `s` whose feature `fi` takes branch `b` at threshold `thr`,
/// in their order in `s`.
pub open spec fn branch_part(s: Seq<Row>, fi: int, thr: int, b: int) -> Seq<Row>
    decreases s.len(),
{
    if s.len() == 0 {
        seq![]
    } else {
        let p = branch_part(s.drop_last(), fi, thr, b);
        if branch_of(s.last().0[fi] as int, thr) == b {
            p.push(s.last())
        } else {
            p
        }
    }
}

/// Every row of `s` has exactly `w` features.
pub open spec fn rows_have_width(s: Seq<Row>, w: int) -> bool {
    forall|i: int| 0 <= i < s.len() ==> (#[trigger] s[i]).0.len() == w
}

/// Every row of `s` has at least `w` features.
pub open spec fn rows_at_least(s: Seq<Row>, w: int) -> bool {
    forall|i: int| 0 <= i < s.len() ==> (#[trigger] s[i]).0.len() >= w
}

/// The number of features of the first row (0 for no rows).
pub open spec fn width(s: Seq<Row>) -> int {
    if s.len() == 0 {
        0
    } else {
        s[0].0.len() as int
    }
}

/// All rows have as many features as the first.
pub open spec fn same_width(s: Seq<Row>) -> bool {
    rows_have_width(s, width(s))
}

/// Splitting on feature `fi` at `thr` leaves no branch empty.
pub open spec fn splits_three_ways(s: Seq<Row>, fi: int, thr: int) -> bool {
    &&& branch_part(s, fi, thr, 0).len() > 0
    &&& branch_part(s, fi, thr, 1).len() > 0
    &&& branch_part(s, fi, thr, 2).len() > 0
}

/// The feature that the `j`-th (feature, threshold) pair tests.
pub open spec fn pair_feature(j: int) -> int {
    j / 2
}

/// The threshold of the `j`-th (feature, threshold) pair: -1, then 0, for
/// each feature in turn.
pub open spec fn pair_threshold(j: int) -> int {
    if j % 2 == 0 {
        -1
    } else {
        0
    }
}

/// Among the first `j` (feature, threshold) pairs, those that split `s`
/// three ways, in order.
pub open spec fn candidate_splits(s: Seq<Row>, j: nat) -> Seq<(int, int)>
    decreases j,
{
    if j == 0 {
        seq![]
    } else {
        let p = candidate_splits(s, (j - 1) as nat);
        let fi = pair_feature(j - 1);
        let thr = pair_threshold(j - 1);
        if splits_three_ways(s, fi, thr) {
            p.push((fi, thr))
        } else {
            p
        }
    }
}

/// The splits that can be chosen at a node holding `s`: every feature at
/// threshold -1 and 0 that leaves no branch empty.
pub open spec fn all_candidate_splits(s: Seq<Row>) -> Seq<(int, int)> {
    candidate_splits(s, (2 * width(s)) as nat)
}

/// The label counts of one branch of a split.
pub open spec fn counts_are(c: [usize; 3], s: Seq<Row>) -> bool {
    &&& c@[0] == label_count(s, Ternary::Neg)
    &&& c@[1] == label_count(s, Ternary::Zero)
    &&& c@[2] == label_count(s, Ternary::Pos)
}

/// A split of the rows at a node, with the label counts of its three branches.
pub struct SplitCandidate {
    pub feature_idx: usize,
    pub threshold: Feature,
    pub left_counts: [usize; 3],
    pub mid_counts: [usize; 3],
    pub right_counts: [usize; 3],
}

/// `c` describes splitting `s` on feature `fi` at `thr`.
pub open spec fn describes(c: SplitCandidate, s: Seq<Row>, fi: int, thr: int) -> bool {
    &&& c.feature_idx == fi
    &&& c.threshold == thr
    &&& counts_are(c.left_counts, branch_part(s, fi, thr, 0))
    &&& counts_are(c.mid_counts, branch_part(s, fi, thr, 1))
    &&& counts_are(c.right_counts, branch_part(s, fi, thr, 2))
}

/// The three branches of a split share out the rows.
pub proof fn lemma_branch_parts_sum(s: Seq<Row>, fi: int, thr: int)
    ensures
        branch_part(s, fi, thr, 0).len() + branch_part(s, fi, thr, 1).len() + branch_part(
            s,
            fi,
            thr,
            2,
        ).len() == s.len(),
    decreases s.len(),
{
    if s.len() > 0 {
        lemma_branch_parts_sum(s.drop_last(), fi, thr);
    }
}

/// Each branch of a split holds rows of the node only, so it keeps the width.
pub proof fn lemma_branch_part_width(s: Seq<Row>, fi: int, thr: int, b: int, w: int)
    requires
        rows_have_width(s, w),
    ensures
        rows_have_width(branch_part(s, fi, thr, b), w),
    decreases s.len(),
{
    if s.len() > 0 {
        assert(rows_have_width(s.drop_last(), w)) by {
            assert forall|i: int| 0 <= i < s.drop_last().len() implies (#[trigger] s.drop_last()[i]).0.len()
                == w by {
                assert(s.drop_last()[i] == s[i]);
            }
        }
        lemma_branch_part_width(s.drop_last(), fi, thr, b, w);
        assert(s.last() == s[s.len() - 1]);
    }
}

/// A property that every row taking branch `b` has, every row of that
/// branch's part has.
pub proof fn lemma_branch_part_keeps(s: Seq<Row>, fi: int, thr: int, b: int, p: spec_fn(Row) -> bool)
    requires
        forall|i: int| 0 <= i < s.len() && branch_of(s[i].0[fi] as int, thr) == b ==> p(#[trigger] s[i]),
    ensures
        forall|k: int| 0 <= k < branch_part(s, fi, thr, b).len() ==> p(#[trigger] branch_part(s, fi, thr, b)[k]),
    decreases s.len(),
{
    if s.len() > 0 {
        let init = s.drop_last();
        assert forall|i: int| 0 <= i < init.len() && branch_of(init[i].0[fi] as int, thr) == b implies p(#[trigger] init[i]) by {
            assert(init[i] == s[i]);
        }
        lemma_branch_part_keeps(init, fi, thr, b, p);
        assert(s.last() == s[s.len() - 1]);
        let q = branch_part(init, fi, thr, b);
        if branch_of(s.last().0[fi] as int, thr) == b {
            assert(p(s.last()));
            assert forall|k: int| 0 <= k < q.push(s.last()).len() implies p(#[trigger] q.push(s.last())[k]) by {
                if k < q.len() {
                    assert(q.push(s.last())[k] == q[k]);
                }
            }
        }
    }
}

/// A value below the threshold goes left (0), equal goes middle (1), above
/// goes right (2).
pub proof fn lemma_branch_of_cases(value: int, threshold: int)
    ensures
        value < threshold <==> branch_of(value, threshold) == 0,
        value == threshold <==> branch_of(value, threshold) == 1,
        value > threshold <==> branch_of(value, threshold) == 2,
{
}

/// A branch of no rows is empty; one more row joins the branch it takes, at
/// its end, and no other.
pub proof fn lemma_branch_part_steps(s: Seq<Row>, x: Row, fi: int, thr: int, b: int)
    ensures
        branch_part(Seq::<Row>::empty(), fi, thr, b) == Seq::<Row>::empty(),
        branch_of(x.0[fi] as int, thr) == b ==> branch_part(s.push(x), fi, thr, b) == branch_part(s, fi, thr, b).push(x),
        branch_of(x.0[fi] as int, thr) != b ==> branch_part(s.push(x), fi, thr, b) == branch_part(s, fi, thr, b),
{
    assert(s.push(x).drop_last() =~= s);
    assert(branch_part(Seq::<Row>::empty(), fi, thr, b) =~= Seq::<Row>::empty());
}

/// A description of a split holds its feature, its threshold and the label
/// counts of the rows below, at and above the threshold.
pub proof fn lemma_describes_counts(c: SplitCandidate, s: Seq<Row>, fi: int, thr: int)
    requires
        describes(c, s, fi, thr),
    ensures
        c.feature_idx == fi && c.threshold == thr,
        c.left_counts@[0] == label_count(branch_part(s, fi, thr, 0), Ternary::Neg),
        c.left_counts@[1] == label_count(branch_part(s, fi, thr, 0), Ternary::Zero),
        c.left_counts@[2] == label_count(branch_part(s, fi, thr, 0), Ternary::Pos),
        c.mid_counts@[0] == label_count(branch_part(s, fi, thr, 1), Ternary::Neg),
        c.mid_counts@[1] == label_count(branch_part(s, fi, thr, 1), Ternary::Zero),
        c.mid_counts@[2] == label_count(branch_part(s, fi, thr, 1), Ternary::Pos),
        c.right_counts@[0] == label_count(branch_part(s, fi, thr, 2), Ternary::Neg),
        c.right_counts@[1] == label_count(branch_part(s, fi, thr, 2), Ternary::Zero),
        c.right_counts@[2] == label_count(branch_part(s, fi, thr, 2), Ternary::Pos),
{
}

/// The candidate splits are exactly the splits of a feature below `w` at
/// threshold -1 or 0 that leave no branch empty, each once, ordered by
/// feature and then by threshold.
pub proof fn lemma_candidate_splits_exact(s: Seq<Row>, w: nat)
    ensures
        forall|fi: int, thr: int|
            0 <= fi < w && (thr == -1 || thr == 0) && splits_three_ways(s, fi, thr)
                ==> #[trigger] candidate_splits(s, 2 * w).contains((fi, thr)),
        forall|k: int|
            0 <= k < candidate_splits(s, 2 * w).len() ==> {
                let p = #[trigger] candidate_splits(s, 2 * w)[k];
                &&& 0 <= p.0 < w
                &&& (p.1 == -1 || p.1 == 0)
                &&& splits_three_ways(s, p.0, p.1)
            },
        forall|k1: int, k2: int|
            0 <= k1 < k2 < candidate_splits(s, 2 * w).len() ==> {
                let p1 = #[trigger] candidate_splits(s, 2 * w)[k1];
                let p2 = #[trigger] candidate_splits(s, 2 * w)[k2];
                p1.0 < p2.0 || (p1.0 == p2.0 && p1.1 < p2.1)
            },
{
    lemma_candidate_splits_valid(s, 2 * w);
    assert((2 * w + 1) / 2 == w);
    lemma_candidate_splits_complete(s, 2 * w);
    lemma_candidate_splits_ordered(s, 2 * w);
    assert forall|fi: int, thr: int|
        0 <= fi < w && (thr == -1 || thr == 0) && splits_three_ways(s, fi, thr)
        implies #[trigger] candidate_splits(s, 2 * w).contains((fi, thr)) by {
        let q = if thr == -1 { 2 * fi } else { 2 * fi + 1 };
        assert(pair_feature(q) == fi && pair_threshold(q) == thr);
    }
}

proof fn lemma_candidate_splits_complete(s: Seq<Row>, j: nat)
    ensures
        forall|q: int|
            0 <= q < j && splits_three_ways(s, pair_feature(q), pair_threshold(q)) ==> candidate_splits(s, j).contains(
                (#[trigger] pair_feature(q), pair_threshold(q)),
            ),
    decreases j,
{
    if j > 0 {
        lemma_candidate_splits_complete(s, (j - 1) as nat);
        let prev = candidate_splits(s, (j - 1) as nat);
        assert forall|q: int|
            0 <= q < j && splits_three_ways(s, pair_feature(q), pair_threshold(q)) implies candidate_splits(s, j).contains(
                (#[trigger] pair_feature(q), pair_threshold(q)),
            ) by {
            if q < j - 1 {
                let k = choose|k: int| 0 <= k < prev.len() && prev[k] == (pair_feature(q), pair_threshold(q));
                assert(candidate_splits(s, j)[k] == prev[k]);
            } else {
                assert(candidate_splits(s, j)[prev.len() as int] == (pair_feature(q), pair_threshold(q)));
            }
        }
    }
}

proof fn lemma_candidate_splits_ordered(s: Seq<Row>, j: nat)
    ensures
        forall|k: int|
            0 <= k < candidate_splits(s, j).len() ==> exists|q: int|
                0 <= q < j && #[trigger] candidate_splits(s, j)[k] == (pair_feature(q), pair_threshold(q)),
        forall|k1: int, k2: int|
            0 <= k1 < k2 < candidate_splits(s, j).len() ==> {
                let p1 = #[trigger] candidate_splits(s, j)[k1];
                let p2 = #[trigger] candidate_splits(s, j)[k2];
                p1.0 < p2.0 || (p1.0 == p2.0 && p1.1 < p2.1)
            },
    decreases j,
{
    if j > 0 {
        lemma_candidate_splits_ordered(s, (j - 1) as nat);
        let prev = candidate_splits(s, (j - 1) as nat);
        let cur = candidate_splits(s, j);
        let last = (pair_feature(j - 1), pair_threshold(j - 1));
        assert forall|k: int| 0 <= k < prev.len() implies #[trigger] cur[k] == prev[k] by {}
        assert forall|k: int| 0 <= k < prev.len() implies (prev[k].0 < last.0 || (prev[k].0 == last.0 && prev[k].1 < last.1)) by {
            let q = choose|q: int| 0 <= q < j - 1 && #[trigger] prev[k] == (pair_feature(q), pair_threshold(q));
            assert(q < j - 1);
        }
        assert forall|k: int| 0 <= k < cur.len() implies exists|q: int|
            0 <= q < j && #[trigger] cur[k] == (pair_feature(q), pair_threshold(q)) by {
            if k < prev.len() {
                let q = choose|q: int| 0 <= q < j - 1 && #[trigger] prev[k] == (pair_feature(q), pair_threshold(q));
                assert(cur[k] == (pair_feature(q), pair_threshold(q)));
            } else {
                assert(cur[k] == (pair_feature(j - 1), pair_threshold(j - 1)));
            }
        }
    }
}

/// Count the labels of the three branches of splitting on `fi` at `thr`.
pub fn split_counts(samples: &[Sample], fi: usize, thr: Feature) -> (c: SplitCandidate)
    requires
        forall|i: int| 0 <= i < samples@.len() ==> fi < (#[trigger] samples@[i]).0@.len(),
    ensures
        describes(c, rows_of(samples@), fi as int, thr as int),
{
    let ghost rs = rows_of(samples@);
    let mut left: [usize; 3] = [0, 0, 0];
    let mut mid: [usize; 3] = [0, 0, 0];
    let mut right: [usize; 3] = [0, 0, 0];
    let n = samples.len();
    for i in 0..n
        invariant
            n == samples@.len(),
            rs == rows_of(samples@),
            forall|k: int| 0 <= k < samples@.len() ==> fi < (#[trigger] samples@[k]).0@.len(),
            counts_are(left, branch_part(rs.take(i as int), fi as int, thr as int, 0)),
            counts_are(mid, branch_part(rs.take(i as int), fi as int, thr as int, 1)),
            counts_are(right, branch_part(rs.take(i as int), fi as int, thr as int, 2)),
            left@[0] + left@[1] + left@[2] + mid@[0] + mid@[1] + mid@[2] + right@[0] + right@[1]
                + right@[2] == i,
    {
        let ghost t = rs.take(i as int);
        let ghost x = rs[i as int];
        proof {
            assert(rs.take(i + 1) =~= t.push(x));
            assert(t.push(x).drop_last() =~= t);
            assert(x == row_of(samples@[i as int]));
            lemma_label_count_push(branch_part(t, fi as int, thr as int, 0), x, Ternary::Neg);
            lemma_label_count_push(branch_part(t, fi as int, thr as int, 0), x, Ternary::Zero);
            lemma_label_count_push(branch_part(t, fi as int, thr as int, 0), x, Ternary::Pos);
            lemma_label_count_push(branch_part(t, fi as int, thr as int, 1), x, Ternary::Neg);
            lemma_label_count_push(branch_part(t, fi as int, thr as int, 1), x, Ternary::Zero);
            lemma_label_count_push(branch_part(t, fi as int, thr as int, 1), x, Ternary::Pos);
            lemma_label_count_push(branch_part(t, fi as int, thr as int, 2), x, Ternary::Neg);
            lemma_label_count_push(branch_part(t, fi as int, thr as int, 2), x, Ternary::Zero);
            lemma_label_count_push(branch_part(t, fi as int, thr as int, 2), x, Ternary::Pos);
        }
        let val = samples[i].0[fi];
        let idx: usize = match samples[i].1 {
            Ternary::Neg => 0,
            Ternary::Zero => 1,
            Ternary::Pos => 2,
        };
        if val < thr {
            left[idx] = left[idx] + 1;
        } else if val == thr {
            mid[idx] = mid[idx] + 1;
        } else {
            right[idx] = right[idx] + 1;
        }
    }
    assert(rs.take(n as int) =~= rs);
    SplitCandidate { feature_idx: fi, threshold: thr, left_counts: left, mid_counts: mid, right_counts: right }
}

/// Every split that `candidate_splits` offers tests a feature below `j / 2`
/// at -1 or 0 and leaves no branch empty.
pub proof fn lemma_candidate_splits_valid(s: Seq<Row>, j: nat)
    ensures
        forall|k: int|
            0 <= k < candidate_splits(s, j).len() ==> {
                let p = #[trigger] candidate_splits(s, j)[k];
                &&& 0 <= p.0 < (j + 1) / 2
                &&& (p.1 == -1 || p.1 == 0)
                &&& splits_three_ways(s, p.0, p.1)
            },
    decreases j,
{
    if j > 0 {
        let prev = candidate_splits(s, (j - 1) as nat);
        lemma_candidate_splits_valid(s, (j - 1) as nat);
        assert((j - 1) / 2 < (j + 1) / 2);
        assert(j / 2 <= (j + 1) / 2);
        assert(pair_threshold(j - 1) == -1 || pair_threshold(j - 1) == 0);
        assert forall|k: int| 0 <= k < prev.len() implies (#[trigger] candidate_splits(s, j)[k])
            == prev[k] by {}
    }
}

/// A copy of a sample.
pub(crate) fn copy_sample(s: &Sample) -> (c: Sample)
    ensures
        row_of(c) == row_of(*s),
{
    let f = s.0.clone();
    assert(f@ =~= s.0@);
    (f, s.1)
}

/// Share out the samples among the three branches of splitting on feature
/// `fi` at `thr`, keeping their order.
pub(crate) fn partition(samples: &[Sample], fi: usize, thr: Feature) -> (parts: (
    Vec<Sample>,
    Vec<Sample>,
    Vec<Sample>,
))
    requires
        forall|i: int| 0 <= i < samples@.len() ==> fi < (#[trigger] samples@[i]).0@.len(),
    ensures
        rows_of(parts.0@) == branch_part(rows_of(samples@), fi as int, thr as int, 0),
        rows_of(parts.1@) == branch_part(rows_of(samples@), fi as int, thr as int, 1),
        rows_of(parts.2@) == branch_part(rows_of(samples@), fi as int, thr as int, 2),
{
    let ghost rs = rows_of(samples@);
    let mut left: Vec<Sample> = Vec::new();
    let mut mid: Vec<Sample> = Vec::new();
    let mut right: Vec<Sample> = Vec::new();
    let n = samples.len();
    for i in 0..n
        invariant
            n == samples@.len(),
            rs == rows_of(samples@),
            forall|k: int| 0 <= k < samples@.len() ==> fi < (#[trigger] samples@[k]).0@.len(),
            rows_of(left@) == branch_part(rs.take(i as int), fi as int, thr as int, 0),
            rows_of(mid@) == branch_part(rs.take(i as int), fi as int, thr as int, 1),
            rows_of(right@) == branch_part(rs.take(i as int), fi as int, thr as int, 2),
    {
        let ghost t = rs.take(i as int);
        let ghost x = rs[i as int];
        proof {
            assert(rs.take(i + 1) =~= t.push(x));
            assert(t.push(x).drop_last() =~= t);
            assert(x == row_of(samples@[i as int]));
        }
        let c = copy_sample(&samples[i]);
        let val = samples[i].0[fi];
        if val < thr {
            let ghost before = left@;
            left.push(c);
            assert(rows_of(left@) =~= rows_of(before).push(x));
        } else if val == thr {
            let ghost before = mid@;
            mid.push(c);
            assert(rows_of(mid@) =~= rows_of(before).push(x));
        } else {
            let ghost before = right@;
            right.push(c);
            assert(rows_of(right@) =~= rows_of(before).push(x));
        }
    }
    assert(rs.take(n as int) =~= rs);
    (left, mid, right)
}

/// The number of rows that a branch with counts `c` holds.
fn branch_total(c: &[usize; 3], Ghost(part): Ghost<Seq<Row>>) -> (n: usize)
    requires
        counts_are(*c, part),
        part.len() <= usize::MAX,
    ensures
        n == part.len(),
{
    proof {
        lemma_label_counts_sum(part);
    }
    c[0] + c[1] + c[2]
}

/// Every split at threshold -1 and 0 of each of the first `n_features`
/// features that leaves no branch empty, in order, with its counts.
pub fn split_candidates(samples: &[Sample], n_features: usize) -> (cands: Vec<SplitCandidate>)
    requires
        rows_at_least(rows_of(samples@), n_features as int),
    ensures
        cands@.len() == candidate_splits(rows_of(samples@), (2 * n_features) as nat).len(),
        forall|k: int|
            0 <= k < cands@.len() ==> {
                let p = candidate_splits(rows_of(samples@), (2 * n_features) as nat)[k];
                describes(#[trigger] cands@[k], rows_of(samples@), p.0, p.1)
            },
{
    let ghost rs = rows_of(samples@);
    let n = samples.len();
    let mut cands: Vec<SplitCandidate> = Vec::new();
    assert forall|i: int| 0 <= i < samples@.len() implies n_features <= (
    #[trigger] samples@[i]).0@.len() by {
        assert(rs[i] == row_of(samples@[i]));
    }
    for fi in 0..n_features
        invariant
            rs == rows_of(samples@),
            rs.len() == n,
            forall|i: int| 0 <= i < samples@.len() ==> n_features <= (#[trigger] samples@[i]).0@.len(),
            cands@.len() == candidate_splits(rs, (2 * fi) as nat).len(),
            forall|k: int|
                0 <= k < cands@.len() ==> {
                    let p = candidate_splits(rs, (2 * fi) as nat)[k];
                    describes(#[trigger] cands@[k], rs, p.0, p.1)
                },
    {
        let ghost before = cands@;
        let ghost j = (2 * fi) as nat;
        assert(pair_feature(j as int) == fi && pair_threshold(j as int) == -1);
        assert(pair_feature(j + 1int) == fi && pair_threshold(j + 1int) == 0);
        for t in 0..2usize
            invariant
                rs == rows_of(samples@),
                rs.len() == n,
                fi < n_features,
                forall|i: int| 0 <= i < samples@.len() ==> n_features <= (#[trigger] samples@[i]).0@.len(),
                cands@.len() == candidate_splits(rs, (j + t) as nat).len(),
                forall|k: int|
                    0 <= k < cands@.len() ==> {
                        let p = candidate_splits(rs, (j + t) as nat)[k];
                        describes(#[trigger] cands@[k], rs, p.0, p.1)
                    },
                pair_feature(j as int) == fi && pair_threshold(j as int) == -1,
                pair_feature(j + 1int) == fi && pair_threshold(j + 1int) == 0,
        {
            let thr: Feature = if t == 0 {
                -1
            } else {
                0
            };
            let c = split_counts(samples, fi, thr);
            let ghost fi_i = fi as int;
            let ghost thr_i = thr as int;
            proof {
                lemma_branch_parts_sum(rs, fi_i, thr_i);
            }
            let lt = branch_total(&c.left_counts, Ghost(branch_part(rs, fi_i, thr_i, 0)));
            let eq = branch_total(&c.mid_counts, Ghost(branch_part(rs, fi_i, thr_i, 1)));
            let gt = branch_total(&c.right_counts, Ghost(branch_part(rs, fi_i, thr_i, 2)));
            let ghost prev = candidate_splits(rs, (j + t) as nat);
            assert(candidate_splits(rs, (j + t + 1) as nat) == if splits_three_ways(rs, fi_i, thr_i) {
                prev.push((fi_i, thr_i))
            } else {
                prev
            });
            if lt != 0 && eq != 0 && gt != 0 {
                cands.push(c);
            }
        }
    }
    cands
}

} // verus!
