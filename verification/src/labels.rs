use vstd::prelude::*;
use crate::ternary::Ternary;

verus! {

/// Feature value type for ternary features.
pub type Feature = i8;

/// A training sample: features + label.
pub type Sample = (Vec<Feature>, Ternary);

/// What a sample holds, as mathematical values: its features and its label.
pub type Row = (Seq<Feature>, Ternary);

/// The row that a sample holds.
pub open spec fn row_of(s: Sample) -> Row {
    (s.0@, s.1)
}

/// The rows that a sequence of samples holds, in order.
pub open spec fn rows_of(s: Seq<Sample>) -> Seq<Row> {
    s.map_values(|x: Sample| row_of(x))
}

/// How many samples of `s` carry the label `t`.
pub open spec fn label_count(s: Seq<Row>, t: Ternary) -> nat
    decreases s.len(),
{
    if s.len() == 0 {
        0
    } else {
        label_count(s.drop_last(), t) + if s.last().1 == t {
            1nat
        } else {
            0nat
        }
    }
}

/// The label counts of `s`, in the order `Neg`, `Zero`, `Pos`.
pub open spec fn label_counts(s: Seq<Row>) -> Seq<int> {
    seq![
        label_count(s, Ternary::Neg) as int,
        label_count(s, Ternary::Zero) as int,
        label_count(s, Ternary::Pos) as int,
    ]
}

/// The label that wins a vote with the given counts; ties go to `Neg`, then
/// to `Zero`.
pub open spec fn majority_of(c_neg: int, c_zero: int, c_pos: int) -> Ternary {
    if c_neg >= c_zero && c_neg >= c_pos {
        Ternary::Neg
    } else if c_zero >= c_pos {
        Ternary::Zero
    } else {
        Ternary::Pos
    }
}

/// The majority label of a sequence of samples.
pub open spec fn majority_label(s: Seq<Row>) -> Ternary {
    majority_of(
        label_count(s, Ternary::Neg) as int,
        label_count(s, Ternary::Zero) as int,
        label_count(s, Ternary::Pos) as int,
    )
}

/// The three label counts of a sequence add up to its length.
pub proof fn lemma_label_counts_sum(s: Seq<Row>)
    ensures
        label_count(s, Ternary::Neg) + label_count(s, Ternary::Zero) + label_count(s, Ternary::Pos)
            == s.len(),
    decreases s.len(),
{
    if s.len() > 0 {
        lemma_label_counts_sum(s.drop_last());
    }
}

/// Counting over a sequence extended by one sample adds that sample's label.
pub proof fn lemma_label_count_push(s: Seq<Row>, x: Row, t: Ternary)
    ensures
        label_count(s.push(x), t) == label_count(s, t) + if x.1 == t {
            1nat
        } else {
            0nat
        },
{
    assert(s.push(x).drop_last() =~= s);
}

/// The vote winner for given counts has a largest count; a tie goes to
/// `Neg`, then to `Zero`.
pub proof fn lemma_majority_of_wins(c_neg: int, c_zero: int, c_pos: int)
    ensures
        ({
            let w = majority_of(c_neg, c_zero, c_pos);
            let cw = if w == Ternary::Neg {
                c_neg
            } else if w == Ternary::Zero {
                c_zero
            } else {
                c_pos
            };
            &&& cw >= c_neg && cw >= c_zero && cw >= c_pos
            &&& w == Ternary::Zero ==> c_neg < c_zero
            &&& w == Ternary::Pos ==> c_neg < c_pos && c_zero < c_pos
        }),
{
}

/// The majority label of a sequence is a most frequent label; a tie goes to
/// `Neg`, then to `Zero`.
pub proof fn lemma_majority_label_wins(s: Seq<Row>)
    ensures
        forall|t: Ternary| label_count(s, majority_label(s)) >= #[trigger] label_count(s, t),
        majority_label(s) == Ternary::Zero ==> label_count(s, Ternary::Neg) < label_count(s, Ternary::Zero),
        majority_label(s) == Ternary::Pos ==> label_count(s, Ternary::Neg) < label_count(s, Ternary::Pos)
            && label_count(s, Ternary::Zero) < label_count(s, Ternary::Pos),
{
    assert forall|t: Ternary| label_count(s, majority_label(s)) >= #[trigger] label_count(s, t) by {
        match t {
            Ternary::Neg => {},
            Ternary::Zero => {},
            Ternary::Pos => {},
        }
    }
}

/// No rows count for any label; one more row counts for its own label only.
pub proof fn lemma_label_count_steps(s: Seq<Row>, x: Row, t: Ternary)
    ensures
        label_count(Seq::<Row>::empty(), t) == 0,
        x.1 == t ==> label_count(s.push(x), t) == label_count(s, t) + 1,
        x.1 != t ==> label_count(s.push(x), t) == label_count(s, t),
{
    lemma_label_count_push(s, x, t);
}

/// The majority label has a count at least as large as any other label.
pub proof fn lemma_majority_is_maximal(s: Seq<Row>, t: Ternary)
    ensures
        label_count(s, majority_label(s)) >= label_count(s, t),
{
}

/// Count ternary labels in a slice.
pub fn count_labels(samples: &[Sample]) -> (counts: [usize; 3])
    ensures
        counts@.len() == 3,
        counts@[0] == label_count(rows_of(samples@), Ternary::Neg),
        counts@[1] == label_count(rows_of(samples@), Ternary::Zero),
        counts@[2] == label_count(rows_of(samples@), Ternary::Pos),
{
    let mut c_neg: usize = 0;
    let mut c_zero: usize = 0;
    let mut c_pos: usize = 0;
    let n = samples.len();
    let ghost rs = rows_of(samples@);
    for i in 0..n
        invariant
            n == samples@.len(),
            rs == rows_of(samples@),
            c_neg == label_count(rs.take(i as int), Ternary::Neg),
            c_zero == label_count(rs.take(i as int), Ternary::Zero),
            c_pos == label_count(rs.take(i as int), Ternary::Pos),
            c_neg + c_zero + c_pos == i,
    {
        proof {
            let t = rs.take(i as int);
            assert(rs.take(i + 1) =~= t.push(rs[i as int]));
            lemma_label_count_push(t, rs[i as int], Ternary::Neg);
            lemma_label_count_push(t, rs[i as int], Ternary::Zero);
            lemma_label_count_push(t, rs[i as int], Ternary::Pos);
        }
        match samples[i].1 {
            Ternary::Neg => c_neg += 1,
            Ternary::Zero => c_zero += 1,
            Ternary::Pos => c_pos += 1,
        }
    }
    assert(rs.take(n as int) =~= rs);
    [c_neg, c_zero, c_pos]
}

/// Majority vote label.
pub fn majority(samples: &[Sample]) -> (label: Ternary)
    ensures
        label == majority_label(rows_of(samples@)),
{
    let counts = count_labels(samples);
    if counts[0] >= counts[1] && counts[0] >= counts[2] {
        Ternary::Neg
    } else if counts[1] >= counts[2] {
        Ternary::Zero
    } else {
        Ternary::Pos
    }
}

} // verus!
