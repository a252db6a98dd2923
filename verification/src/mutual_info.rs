//! The counts behind the mutual information of two label sequences.
//!
//! The score of two aligned sequences of length `n` is the sum, over the
//! pairs `(l, t)` that occur, of `P(l,t) * ln(P(l,t) / (P(l) * P(t)))`,
//! with `P(l,t)`, `P(l)` and `P(t)` the share of the positions that hold
//! the pair, the label and the truth. This module counts: it gives one
//! cell for each pair that occurs, with the three counts that its term is
//! made of. The logarithms and their sum are left to the caller.

use crate::counting::{
    count_of, count_of_all, count_value, distinct, lemma_count_of, lemma_counts_add_up,
    lemma_distinct,
};
use crate::error::ShapeError;
use vstd::prelude::*;

verus! {

/// One pair of a label and a truth that occurs, with its counts.
#[derive(Debug, Clone, Copy, PartialEq, Eq, Structural)]
pub struct JointCell {
    /// The value in the first sequence.
    pub label: isize,
    /// The value in the second sequence.
    pub truth: isize,
    /// The positions that hold both.
    pub joint: usize,
    /// The positions of the first sequence that hold `label`.
    pub label_total: usize,
    /// The positions of the second sequence that hold `truth`.
    pub truth_total: usize,
}

impl JointCell {
    /// The cell with the two sequences in each other's place.
    pub open spec fn transposed(self) -> JointCell {
        JointCell {
            label: self.truth,
            truth: self.label,
            joint: self.joint,
            label_total: self.truth_total,
            truth_total: self.label_total,
        }
    }
}

/// The contingency table of two aligned sequences.
#[derive(Debug, PartialEq, Eq)]
pub struct ContingencyTable {
    /// The length of the sequences.
    pub total: usize,
    /// One cell for each pair that occurs, in the order of first
    /// occurrence.
    pub cells: Vec<JointCell>,
}

/// The two sequences position by position.
pub open spec fn pairs(labels: Seq<isize>, truth: Seq<isize>) -> Seq<(isize, isize)> {
    Seq::new(labels.len(), |i: int| (labels[i], truth[i]))
}

/// The cell of one pair.
pub open spec fn cell_of(labels: Seq<isize>, truth: Seq<isize>, key: (isize, isize)) -> JointCell {
    JointCell {
        label: key.0,
        truth: key.1,
        joint: count_of(pairs(labels, truth), key) as usize,
        label_total: count_of(labels, key.0) as usize,
        truth_total: count_of(truth, key.1) as usize,
    }
}

/// The cells of the table: the pairs that occur, each once, in the order
/// of first occurrence.
pub open spec fn table_cells(labels: Seq<isize>, truth: Seq<isize>) -> Seq<JointCell> {
    let keys = distinct(pairs(labels, truth));
    Seq::new(keys.len(), |k: int| cell_of(labels, truth, keys[k]))
}

/// Counts the pairs of two aligned sequences. Sequences of different
/// lengths are not aligned, and are refused.
pub fn contingency(labels: &Vec<isize>, truth: &Vec<isize>) -> (r: Result<
    ContingencyTable,
    ShapeError,
>)
    ensures
        match r {
            Ok(table) => {
                &&& labels@.len() == truth@.len()
                &&& table.total == labels@.len()
                &&& table.cells@ == table_cells(labels@, truth@)
            },
            Err(e) => e == ShapeError::LengthMismatch && labels@.len() != truth@.len(),
        },
{
    let n: usize = labels.len();
    if truth.len() != n {
        return Err(ShapeError::LengthMismatch);
    }
    let ghost all = pairs(labels@, truth@);
    let mut cells: Vec<JointCell> = Vec::new();
    let mut i: usize = 0;
    while i < n
        invariant
            i <= n,
            n == labels@.len(),
            n == truth@.len(),
            all == pairs(labels@, truth@),
            cells@.len() == distinct(all.take(i as int)).len(),
            forall|k: int|
                0 <= k < cells@.len() ==> {
                    let key = distinct(all.take(i as int))[k];
                    &&& (#[trigger] cells@[k]).label == key.0
                    &&& cells@[k].truth == key.1
                    &&& cells@[k].joint == count_of(all.take(i as int), key)
                    &&& cells@[k].label_total == 0
                    &&& cells@[k].truth_total == 0
                },
        decreases n - i,
    {
        let l: isize = labels[i];
        let t: isize = truth[i];
        let ghost prefix = all.take(i as int);
        let ghost keys = distinct(prefix);
        let ghost next = all.take(i + 1);
        let m: usize = cells.len();
        let mut k: usize = 0;
        while k < m && !(cells[k].label == l && cells[k].truth == t)
            invariant
                k <= m,
                m == cells@.len(),
                m == keys.len(),
                forall|j: int|
                    0 <= j < m ==> (#[trigger] cells@[j]).label == keys[j].0 && cells@[j].truth
                        == keys[j].1,
                forall|j: int| 0 <= j < k ==> #[trigger] keys[j] != (l, t),
            decreases m - k,
        {
            k += 1;
        }
        proof {
            assert(next.drop_last() =~= prefix);
            assert(next.last() == (l, t));
            lemma_distinct(prefix);
            lemma_count_of(prefix, (l, t));
        }
        if k < m {
            let cell = cells[k];
            proof {
                assert(keys[k as int] == (l, t));
                assert(keys.contains((l, t)));
                assert(distinct(next) == keys);
            }
            cells.set(
                k,
                JointCell {
                    label: cell.label,
                    truth: cell.truth,
                    joint: cell.joint + 1,
                    label_total: 0,
                    truth_total: 0,
                },
            );
        } else {
            proof {
                assert(!keys.contains((l, t)));
                assert(distinct(next) == keys.push((l, t)));
            }
            cells.push(JointCell { label: l, truth: t, joint: 1, label_total: 0, truth_total: 0 });
        }
        i += 1;
    }
    proof {
        assert(all.take(n as int) =~= all);
    }
    let ghost keys = distinct(all);
    let m: usize = cells.len();
    let mut k: usize = 0;
    while k < m
        invariant
            k <= m,
            m == cells@.len(),
            m == keys.len(),
            keys == distinct(pairs(labels@, truth@)),
            all == pairs(labels@, truth@),
            forall|j: int| 0 <= j < k ==> #[trigger] cells@[j] == cell_of(labels@, truth@, keys[j]),
            forall|j: int|
                k <= j < m ==> {
                    &&& (#[trigger] cells@[j]).label == keys[j].0
                    &&& cells@[j].truth == keys[j].1
                    &&& cells@[j].joint == count_of(all, keys[j])
                },
        decreases m - k,
    {
        let cell = cells[k];
        let label_total = count_value(labels, cell.label);
        let truth_total = count_value(truth, cell.truth);
        cells.set(
            k,
            JointCell {
                label: cell.label,
                truth: cell.truth,
                joint: cell.joint,
                label_total,
                truth_total,
            },
        );
        k += 1;
    }
    proof {
        assert(cells@ =~= table_cells(labels@, truth@));
    }
    Ok(ContingencyTable { total: n, cells })
}

/// A pair occurs in the two sequences as often as the swapped pair occurs
/// in the sequences swapped.
pub proof fn lemma_swapped_count(a: Seq<isize>, b: Seq<isize>, l: isize, t: isize)
    requires
        a.len() == b.len(),
    ensures
        count_of(pairs(b, a), (t, l)) == count_of(pairs(a, b), (l, t)),
    decreases a.len(),
{
    if a.len() > 0 {
        assert(pairs(a, b).drop_last() =~= pairs(a.drop_last(), b.drop_last()));
        assert(pairs(b, a).drop_last() =~= pairs(b.drop_last(), a.drop_last()));
        lemma_swapped_count(a.drop_last(), b.drop_last(), l, t);
    }
}

/// The pairs that occur in the sequences swapped are the swapped pairs
/// that occur in the sequences, in the same order.
pub proof fn lemma_swapped_distinct(a: Seq<isize>, b: Seq<isize>)
    requires
        a.len() == b.len(),
    ensures
        distinct(pairs(b, a)).len() == distinct(pairs(a, b)).len(),
        forall|k: int|
            0 <= k < distinct(pairs(a, b)).len() ==> #[trigger] distinct(pairs(b, a))[k] == (
                distinct(pairs(a, b))[k].1,
                distinct(pairs(a, b))[k].0,
            ),
    decreases a.len(),
{
    if a.len() > 0 {
        let fa = a.drop_last();
        let fb = b.drop_last();
        assert(pairs(a, b).drop_last() =~= pairs(fa, fb));
        assert(pairs(b, a).drop_last() =~= pairs(fb, fa));
        lemma_swapped_distinct(fa, fb);
        let d = distinct(pairs(fa, fb));
        let e = distinct(pairs(fb, fa));
        let p = pairs(a, b).last();
        let q = pairs(b, a).last();
        assert(q == (p.1, p.0));
        if d.contains(p) {
            let k = choose|k: int| 0 <= k < d.len() && d[k] == p;
            assert(e[k] == q);
        }
        if e.contains(q) {
            let k = choose|k: int| 0 <= k < e.len() && e[k] == q;
            assert(d[k] == p);
        }
    }
}

/// Mutual information is symmetric: the table of the sequences swapped
/// holds, cell by cell and in the same order, the cells of the table
/// transposed. Its terms are then the same numbers in the same order.
pub proof fn lemma_table_symmetric(labels: Seq<isize>, truth: Seq<isize>)
    requires
        labels.len() == truth.len(),
    ensures
        table_cells(truth, labels).len() == table_cells(labels, truth).len(),
        forall|k: int|
            0 <= k < table_cells(labels, truth).len() ==> #[trigger] table_cells(truth, labels)[k]
                == table_cells(labels, truth)[k].transposed(),
{
    lemma_swapped_distinct(labels, truth);
    let keys = distinct(pairs(labels, truth));
    assert forall|k: int| 0 <= k < keys.len() implies #[trigger] table_cells(truth, labels)[k]
        == table_cells(labels, truth)[k].transposed() by {
        lemma_swapped_count(labels, truth, keys[k].0, keys[k].1);
    }
}

/// Every cell of a table stands for a pair that occurs: its joint count is
/// at least one, at most either of its two totals, and these are at most
/// the length of the sequences.
pub proof fn lemma_cell_counts(labels: Seq<isize>, truth: Seq<isize>, k: int)
    requires
        labels.len() == truth.len(),
        labels.len() <= usize::MAX,
        0 <= k < table_cells(labels, truth).len(),
    ensures
        ({
            let cell = table_cells(labels, truth)[k];
            &&& 1 <= cell.joint <= cell.label_total <= labels.len()
            &&& cell.joint <= cell.truth_total <= labels.len()
            &&& cell.joint == count_of(pairs(labels, truth), (cell.label, cell.truth))
            &&& cell.label_total == count_of(labels, cell.label)
            &&& cell.truth_total == count_of(truth, cell.truth)
        }),
{
    let all = pairs(labels, truth);
    let key = distinct(all)[k];
    lemma_distinct(all);
    assert(distinct(all).contains(key));
    lemma_count_of(all, key);
    lemma_count_of(labels, key.0);
    lemma_count_of(truth, key.1);
    lemma_joint_at_most_marginals(labels, truth, key.0, key.1);
}

/// The joint counts of some cells together.
pub open spec fn joint_total(cells: Seq<JointCell>) -> nat
    decreases cells.len(),
{
    if cells.len() == 0 {
        0
    } else {
        joint_total(cells.drop_last()) + cells.last().joint as nat
    }
}

/// The joint counts of the first `m` cells of a table are the occurrences
/// of their pairs.
proof fn lemma_joint_total_of_prefix(labels: Seq<isize>, truth: Seq<isize>, m: int)
    requires
        labels.len() == truth.len(),
        labels.len() <= usize::MAX,
        0 <= m <= table_cells(labels, truth).len(),
    ensures
        joint_total(table_cells(labels, truth).take(m)) == count_of_all(
            pairs(labels, truth),
            distinct(pairs(labels, truth)).take(m),
        ),
    decreases m,
{
    if m > 0 {
        let all = pairs(labels, truth);
        let cells = table_cells(labels, truth);
        let keys = distinct(all);
        lemma_joint_total_of_prefix(labels, truth, m - 1);
        assert(cells.take(m).drop_last() =~= cells.take(m - 1));
        assert(keys.take(m).drop_last() =~= keys.take(m - 1));
        lemma_count_of(all, keys[m - 1]);
    }
}

/// The shares of the pairs add up to one: the joint counts of the cells of
/// a table add up to the length of the sequences.
pub proof fn lemma_joint_counts_add_up(labels: Seq<isize>, truth: Seq<isize>)
    requires
        labels.len() == truth.len(),
        labels.len() <= usize::MAX,
    ensures
        joint_total(table_cells(labels, truth)) == labels.len(),
{
    let all = pairs(labels, truth);
    let cells = table_cells(labels, truth);
    lemma_joint_total_of_prefix(labels, truth, cells.len() as int);
    assert(cells.take(cells.len() as int) =~= cells);
    assert(distinct(all).take(cells.len() as int) =~= distinct(all));
    lemma_counts_add_up(all);
}

/// A pair occurs at most as often as either of its two values.
pub proof fn lemma_joint_at_most_marginals(a: Seq<isize>, b: Seq<isize>, l: isize, t: isize)
    requires
        a.len() == b.len(),
    ensures
        count_of(pairs(a, b), (l, t)) <= count_of(a, l),
        count_of(pairs(a, b), (l, t)) <= count_of(b, t),
    decreases a.len(),
{
    if a.len() > 0 {
        assert(pairs(a, b).drop_last() =~= pairs(a.drop_last(), b.drop_last()));
        lemma_joint_at_most_marginals(a.drop_last(), b.drop_last(), l, t);
    }
}

/// A value occurs in a sequence as often as its double occurs in the
/// sequence paired with itself; no other pair occurs there.
pub proof fn lemma_self_count(a: Seq<isize>, l: isize, t: isize)
    ensures
        count_of(pairs(a, a), (l, t)) == if l == t {
            count_of(a, l)
        } else {
            0
        },
    decreases a.len(),
{
    if a.len() > 0 {
        assert(pairs(a, a).drop_last() =~= pairs(a.drop_last(), a.drop_last()));
        lemma_self_count(a.drop_last(), l, t);
    }
}

/// A sequence against itself: the table is diagonal. Each cell pairs a
/// value with itself, and its joint count and both totals are the number
/// of times that the value occurs. The ratio under the logarithm of its
/// term is then `n / joint`, which is at least one.
pub proof fn lemma_table_against_itself(labels: Seq<isize>, k: int)
    requires
        labels.len() <= usize::MAX,
        0 <= k < table_cells(labels, labels).len(),
    ensures
        ({
            let cell = table_cells(labels, labels)[k];
            &&& cell.label == cell.truth
            &&& cell.joint == count_of(labels, cell.label)
            &&& cell.label_total == cell.joint
            &&& cell.truth_total == cell.joint
            &&& 1 <= cell.joint <= labels.len()
        }),
{
    let cell = table_cells(labels, labels)[k];
    lemma_cell_counts(labels, labels, k);
    lemma_self_count(labels, cell.label, cell.truth);
}

/// The two sequences part the positions in the same way: two positions
/// hold the same label exactly if they hold the same truth. The labels are
/// then the truth under other names.
pub open spec fn same_partition(labels: Seq<isize>, truth: Seq<isize>) -> bool {
    &&& labels.len() == truth.len()
    &&& forall|i: int, j: int|
        #![trigger labels[i], labels[j]]
        0 <= i < labels.len() && 0 <= j < labels.len() ==> ((labels[i] == labels[j]) <==> (truth[i]
            == truth[j]))
}

/// Where a label and a truth go together at every position, the pair
/// occurs as often as either.
pub proof fn lemma_tied_count(a: Seq<isize>, b: Seq<isize>, l: isize, t: isize)
    requires
        a.len() == b.len(),
        forall|i: int| 0 <= i < a.len() ==> ((#[trigger] a[i] == l) <==> (b[i] == t)),
    ensures
        count_of(pairs(a, b), (l, t)) == count_of(a, l),
        count_of(pairs(a, b), (l, t)) == count_of(b, t),
    decreases a.len(),
{
    if a.len() > 0 {
        let fa = a.drop_last();
        let fb = b.drop_last();
        assert(pairs(a, b).drop_last() =~= pairs(fa, fb));
        assert forall|i: int| 0 <= i < fa.len() implies ((#[trigger] fa[i] == l) <==> (fb[i]
            == t)) by {
            assert(fa[i] == a[i]);
        }
        lemma_tied_count(fa, fb, l, t);
        assert((a[a.len() - 1] == l) <==> (b[a.len() - 1] == t));
    }
}

/// Full agreement: where the labels part the positions as the truth does,
/// every cell's joint count is both of its totals. The ratio under the
/// logarithm of its term is then `n / joint`, as in the table of the truth
/// against itself.
pub proof fn lemma_table_of_same_partition(labels: Seq<isize>, truth: Seq<isize>, k: int)
    requires
        same_partition(labels, truth),
        labels.len() <= usize::MAX,
        0 <= k < table_cells(labels, truth).len(),
    ensures
        ({
            let cell = table_cells(labels, truth)[k];
            &&& cell.label_total == cell.joint
            &&& cell.truth_total == cell.joint
            &&& 1 <= cell.joint <= labels.len()
        }),
{
    let all = pairs(labels, truth);
    let key = distinct(all)[k];
    lemma_distinct(all);
    assert(distinct(all).contains(key));
    let p = choose|p: int| 0 <= p < all.len() && all[p] == key;
    assert(labels[p] == key.0 && truth[p] == key.1);
    assert forall|i: int| 0 <= i < labels.len() implies ((#[trigger] labels[i] == key.0) <==> (
    truth[i] == key.1)) by {
        assert((labels[i] == labels[p]) <==> (truth[i] == truth[p]));
    }
    lemma_tied_count(labels, truth, key.0, key.1);
    lemma_cell_counts(labels, truth, k);
}

} // verus!
