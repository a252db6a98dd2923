//! The permutation test: null data sets made by shuffling the values of
//! each row, and the tally that turns the outcomes of the trials into a
//! p-value.
//!
//! A trial shuffles the data, fits a clustering on the shuffled copy and
//! compares its inertia with the observed one. The fit and the comparison
//! work on real numbers and are the caller's; the caller reports each
//! trial's outcome here and is told what to do next.
//!
//! A trial on which no clustering can be fitted ends the test: the test
//! then gives the error and no p-value, instead of counting the trial as
//! if it had reached some inertia.

use crate::counting::{count_of, lemma_count_of, lemma_count_of_multiset};
use crate::error::ClusteringError;
use crate::matrix::{cells_of, copy_row, is_table, FeatureMatrix};
use rand::rngs::StdRng;
use rand::seq::SliceRandom;
use vstd::prelude::*;

verus! {

/// The random source of the shuffles, `rand::rngs::StdRng`. The caller
/// seeds it, so a run can be repeated.
#[verifier::external_type_specification]
#[verifier::external_body]
pub struct ExStdRng(StdRng);

/// Calls rand's `SliceRandom::shuffle` on the values. The shuffle only
/// swaps elements, so whatever the generator yields the values are the
/// same ones, each as often as before; nothing is claimed of their order.
#[verifier::external_body]
fn shuffle_values<T>(values: &mut Vec<T>, rng: &mut StdRng)
    ensures
        final(values)@.to_multiset() == old(values)@.to_multiset(),
{
    values.shuffle(rng);
}

/// Row for row, `after` holds the values of `before`, each as often as
/// there, in some order.
pub open spec fn rows_rearranged<T>(before: Seq<Seq<T>>, after: Seq<Seq<T>>) -> bool {
    &&& after.len() == before.len()
    &&& forall|i: int|
        0 <= i < before.len() ==> (#[trigger] after[i]).to_multiset() == before[i].to_multiset()
}

/// A shuffled copy of one row.
pub fn permute_row<T: Copy>(row: &Vec<T>, rng: &mut StdRng) -> (shuffled: Vec<T>)
    ensures
        shuffled@.to_multiset() == row@.to_multiset(),
        shuffled@.len() == row@.len(),
{
    let mut shuffled = copy_row(row);
    shuffle_values(&mut shuffled, rng);
    proof {
        shuffled@.to_multiset_ensures();
        row@.to_multiset_ensures();
    }
    shuffled
}

/// A null data set: a copy of `data` in which the values of each row are
/// shuffled within that row, and no value moves to another row.
pub fn permute_dataset<T: Copy>(data: &FeatureMatrix<T>, rng: &mut StdRng) -> (permuted:
    FeatureMatrix<T>)
    ensures
        rows_rearranged(data@, permuted@),
        permuted.width() == data.width(),
{
    let n: usize = data.n_rows();
    let mut rows: Vec<Vec<T>> = Vec::new();
    let mut i: usize = 0;
    while i < n
        invariant
            i <= n,
            n == data@.len(),
            is_table(data@),
            rows@.len() == i,
            forall|k: int|
                0 <= k < i ==> (#[trigger] rows@[k])@.to_multiset() == data@[k].to_multiset(),
            forall|k: int| 0 <= k < i ==> (#[trigger] rows@[k])@.len() == data@[0].len(),
        decreases n - i,
    {
        let shuffled = permute_row(data.row(i), rng);
        rows.push(shuffled);
        i += 1;
    }
    proof {
        assert forall|k: int| 0 <= k < n implies (#[trigger] cells_of(rows@)[k]).len() == cells_of(
            rows@,
        )[0].len() by {
            assert(cells_of(rows@)[k] == rows@[k]@);
        }
    }
    let permuted = FeatureMatrix::from_table(rows);
    proof {
        assert forall|k: int| 0 <= k < n implies (#[trigger] permuted@[k]).to_multiset()
            == data@[k].to_multiset() by {
            assert(permuted@[k] == rows@[k]@);
        }
    }
    permuted
}

/// How one trial ended: the inertia that the clustering reached on the
/// shuffled data, held against the observed inertia.
#[derive(Debug, Clone, Copy, PartialEq, Eq, Structural)]
pub enum TrialOutcome {
    /// The shuffled data clustered at least as well as the real data.
    AtMostObserved,
    /// The shuffled data clustered worse than the real data.
    AboveObserved,
    /// No clustering could be fitted on the shuffled data.
    FitFailed,
}

/// A p-value as an exact fraction: the trials that did at least as well as
/// the observed clustering, and the observed clustering itself, out of all
/// trials and the observed one.
#[derive(Debug, Clone, Copy, PartialEq, Eq, Structural)]
pub struct PValue {
    /// The trials whose inertia was at most the observed one.
    pub at_most_observed: usize,
    /// All trials.
    pub permutations: usize,
}

impl PValue {
    /// One more than the trials that did at least as well.
    pub open spec fn numerator(&self) -> int {
        self.at_most_observed + 1
    }

    /// One more than the number of trials.
    pub open spec fn denominator(&self) -> int {
        self.permutations + 1
    }
}

/// What the caller of a running test does next.
#[derive(Debug, Clone, Copy, PartialEq, Eq, Structural)]
pub enum NextStep {
    /// Shuffle the data, fit, compare, and report the outcome.
    RunTrial,
    /// All trials are in: this is the p-value.
    Report(PValue),
    /// A trial could not be fitted: the test ends without a p-value.
    Abort(ClusteringError),
}

/// The number of outcomes that are `AtMostObserved`.
pub open spec fn at_most_count(outcomes: Seq<TrialOutcome>) -> nat {
    count_of(outcomes, TrialOutcome::AtMostObserved)
}

/// Whether some outcome is a failed fit.
pub open spec fn any_failed(outcomes: Seq<TrialOutcome>) -> bool {
    exists|i: int| 0 <= i < outcomes.len() && #[trigger] outcomes[i] == TrialOutcome::FitFailed
}

/// Where a test stands: the trials planned, the trials reported so far,
/// those among them that did at least as well as the observed clustering,
/// and whether a fit has failed.
pub struct Progress {
    pub planned: nat,
    pub completed: nat,
    pub at_most_observed: nat,
    pub failed: bool,
}

impl Progress {
    /// A test of `planned` trials before the first one.
    pub open spec fn initial(planned: nat) -> Progress {
        Progress { planned, completed: 0, at_most_observed: 0, failed: false }
    }

    /// The test still waits for an outcome.
    pub open spec fn running(self) -> bool {
        !self.failed && self.completed < self.planned
    }

    /// The test after one more outcome. A test that has ended, with a
    /// p-value or by a failed fit, takes no further outcome.
    pub open spec fn after(self, outcome: TrialOutcome) -> Progress {
        if !self.running() {
            self
        } else {
            match outcome {
                TrialOutcome::AtMostObserved => Progress {
                    completed: self.completed + 1,
                    at_most_observed: self.at_most_observed + 1,
                    ..self
                },
                TrialOutcome::AboveObserved => Progress { completed: self.completed + 1, ..self },
                TrialOutcome::FitFailed => Progress { failed: true, ..self },
            }
        }
    }

    /// The test after a sequence of outcomes, in their order.
    pub open spec fn after_all(self, outcomes: Seq<TrialOutcome>) -> Progress
        decreases outcomes.len(),
    {
        if outcomes.len() == 0 {
            self
        } else {
            self.after_all(outcomes.drop_last()).after(outcomes.last())
        }
    }

    /// What is to be done at this point of the test.
    pub open spec fn next_step(self) -> NextStep {
        if self.failed {
            NextStep::Abort(ClusteringError::FitFailed)
        } else if self.completed < self.planned {
            NextStep::RunTrial
        } else {
            NextStep::Report(
                PValue {
                    at_most_observed: self.at_most_observed as usize,
                    permutations: self.planned as usize,
                },
            )
        }
    }
}

/// A permutation test in progress.
#[derive(Debug)]
pub struct PermutationTest {
    planned: usize,
    completed: usize,
    at_most_observed: usize,
    failed: bool,
}

impl View for PermutationTest {
    type V = Progress;

    closed spec fn view(&self) -> Progress {
        Progress {
            planned: self.planned as nat,
            completed: self.completed as nat,
            at_most_observed: self.at_most_observed as nat,
            failed: self.failed,
        }
    }
}

impl PermutationTest {
    /// No more trials are reported than planned, and no more of them count
    /// than were reported.
    #[verifier::type_invariant]
    pub open spec fn is_consistent(&self) -> bool {
        self@.at_most_observed <= self@.completed <= self@.planned <= usize::MAX
    }

    /// Starts a test of `n_permutations` trials.
    pub fn start(n_permutations: usize) -> (test: Self)
        ensures
            test@ == Progress::initial(n_permutations as nat),
    {
        PermutationTest {
            planned: n_permutations,
            completed: 0,
            at_most_observed: 0,
            failed: false,
        }
    }

    /// What the caller does next.
    pub fn next_step(&self) -> (step: NextStep)
        ensures
            step == self@.next_step(),
            step matches NextStep::Report(p) ==> 1 <= p.numerator() <= p.denominator()
                && p.denominator() == self@.planned + 1,
    {
        proof {
            use_type_invariant(self);
        }
        if self.failed {
            NextStep::Abort(ClusteringError::FitFailed)
        } else if self.completed < self.planned {
            NextStep::RunTrial
        } else {
            NextStep::Report(
                PValue { at_most_observed: self.at_most_observed, permutations: self.planned },
            )
        }
    }

    /// Takes the outcome of one trial and says what the caller does next.
    pub fn record(&mut self, outcome: TrialOutcome) -> (step: NextStep)
        ensures
            final(self)@ == old(self)@.after(outcome),
            step == final(self)@.next_step(),
    {
        proof {
            use_type_invariant(&*self);
        }
        if !self.failed && self.completed < self.planned {
            match outcome {
                TrialOutcome::AtMostObserved => {
                    self.completed = self.completed + 1;
                    self.at_most_observed = self.at_most_observed + 1;
                },
                TrialOutcome::AboveObserved => {
                    self.completed = self.completed + 1;
                },
                TrialOutcome::FitFailed => {
                    self.failed = true;
                },
            }
        }
        self.next_step()
    }
}

/// A test that is fed no more outcomes than it planned has failed exactly
/// if one of them is a failed fit; if none is, it has counted all of them,
/// and those that did at least as well among them.
pub proof fn lemma_progress_after_all(planned: nat, outcomes: Seq<TrialOutcome>)
    requires
        outcomes.len() <= planned,
    ensures
        ({
            let end = Progress::initial(planned).after_all(outcomes);
            &&& end.planned == planned
            &&& end.failed == any_failed(outcomes)
            &&& end.at_most_observed <= end.completed <= outcomes.len()
            &&& !end.failed ==> end.completed == outcomes.len() && end.at_most_observed
                == at_most_count(outcomes)
        }),
    decreases outcomes.len(),
{
    if outcomes.len() > 0 {
        let front = outcomes.drop_last();
        lemma_progress_after_all(planned, front);
        if any_failed(front) {
            let i = choose|i: int|
                0 <= i < front.len() && #[trigger] front[i] == TrialOutcome::FitFailed;
            assert(outcomes[i] == TrialOutcome::FitFailed);
        } else if outcomes.last() == TrialOutcome::FitFailed {
            assert(outcomes[outcomes.len() - 1] == TrialOutcome::FitFailed);
        } else {
            assert forall|i: int| 0 <= i < outcomes.len() implies #[trigger] outcomes[i]
                != TrialOutcome::FitFailed by {
                if i < front.len() {
                    assert(front[i] == outcomes[i]);
                }
            }
        }
    }
}

/// The p-value of a test of `N` trials, none of which failed: the test
/// reports `(c + 1) / (N + 1)`, where `c` is the number of trials that did
/// at least as well as the observed clustering. So the p-value is one of
/// `1 / (N + 1)`, `2 / (N + 1)`, up to `(N + 1) / (N + 1)`: above zero,
/// and at most one.
pub proof fn lemma_p_value_of_test(outcomes: Seq<TrialOutcome>)
    requires
        outcomes.len() <= usize::MAX,
        !any_failed(outcomes),
    ensures
        Progress::initial(outcomes.len()).after_all(outcomes).next_step() == NextStep::Report(
            PValue {
                at_most_observed: at_most_count(outcomes) as usize,
                permutations: outcomes.len() as usize,
            },
        ),
        1 <= at_most_count(outcomes) + 1 <= outcomes.len() + 1,
{
    lemma_progress_after_all(outcomes.len(), outcomes);
}

/// A test with a failed fit among its trials reports no p-value.
pub proof fn lemma_failed_fit_aborts(outcomes: Seq<TrialOutcome>)
    requires
        any_failed(outcomes),
    ensures
        Progress::initial(outcomes.len()).after_all(outcomes).next_step() == NextStep::Abort(
            ClusteringError::FitFailed,
        ),
{
    lemma_progress_after_all(outcomes.len(), outcomes);
}

/// The order in which the outcomes of the trials are gathered does not
/// count: two batches with the same outcomes, each as often, have the same
/// length, the same count, and a failed fit in one exactly if in the other.
pub proof fn lemma_order_does_not_count(a: Seq<TrialOutcome>, b: Seq<TrialOutcome>)
    requires
        a.to_multiset() == b.to_multiset(),
    ensures
        a.len() == b.len(),
        at_most_count(a) == at_most_count(b),
        any_failed(a) == any_failed(b),
{
    a.to_multiset_ensures();
    b.to_multiset_ensures();
    lemma_count_of_multiset(a, TrialOutcome::AtMostObserved);
    lemma_count_of_multiset(b, TrialOutcome::AtMostObserved);
    lemma_count_of_multiset(a, TrialOutcome::FitFailed);
    lemma_count_of_multiset(b, TrialOutcome::FitFailed);
    lemma_count_of(a, TrialOutcome::FitFailed);
    lemma_count_of(b, TrialOutcome::FitFailed);
    if any_failed(a) {
        let i = choose|i: int| 0 <= i < a.len() && #[trigger] a[i] == TrialOutcome::FitFailed;
        assert(a.contains(TrialOutcome::FitFailed));
        let j = choose|j: int| 0 <= j < b.len() && b[j] == TrialOutcome::FitFailed;
        assert(b[j] == TrialOutcome::FitFailed);
    }
    if any_failed(b) {
        let i = choose|i: int| 0 <= i < b.len() && #[trigger] b[i] == TrialOutcome::FitFailed;
        assert(b.contains(TrialOutcome::FitFailed));
        let j = choose|j: int| 0 <= j < a.len() && a[j] == TrialOutcome::FitFailed;
        assert(a[j] == TrialOutcome::FitFailed);
    }
}

/// The p-value of a finished batch of trials, whose outcomes may have been
/// gathered in any order: `(c + 1) / (N + 1)` for `N` outcomes of which `c`
/// did at least as well as the observed clustering. A failed fit among
/// them is an error.
pub fn p_value(outcomes: &Vec<TrialOutcome>) -> (r: Result<PValue, ClusteringError>)
    ensures
        match r {
            Ok(p) => {
                &&& !any_failed(outcomes@)
                &&& p.at_most_observed == at_most_count(outcomes@)
                &&& p.permutations == outcomes@.len()
                &&& 1 <= p.numerator() <= p.denominator()
            },
            Err(e) => any_failed(outcomes@) && e == ClusteringError::FitFailed,
        },
{
    let n: usize = outcomes.len();
    let mut test = PermutationTest::start(n);
    let mut i: usize = 0;
    while i < n
        invariant
            i <= n,
            n == outcomes@.len(),
            test@ == Progress::initial(n as nat).after_all(outcomes@.take(i as int)),
        decreases n - i,
    {
        test.record(outcomes[i]);
        proof {
            assert(outcomes@.take(i + 1).drop_last() =~= outcomes@.take(i as int));
        }
        i += 1;
    }
    proof {
        assert(outcomes@.take(n as int) =~= outcomes@);
        lemma_progress_after_all(n as nat, outcomes@);
    }
    match test.next_step() {
        NextStep::Report(p) => Ok(p),
        NextStep::Abort(e) => Err(e),
        // Not reached: every planned trial is in.
        NextStep::RunTrial => Err(ClusteringError::FitFailed),
    }
}

} // verus!
