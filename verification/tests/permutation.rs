use cluster_validation::error::ClusteringError;
use cluster_validation::matrix::FeatureMatrix;
use cluster_validation::permutation::{
    p_value, permute_dataset, permute_row, NextStep, PValue, PermutationTest, TrialOutcome,
};
use rand::rngs::StdRng;
use rand::SeedableRng;

fn sorted(mut values: Vec<i32>) -> Vec<i32> {
    values.sort();
    values
}

fn outcomes(at_most: usize, above: usize) -> Vec<TrialOutcome> {
    let mut all = vec![TrialOutcome::AtMostObserved; at_most];
    all.extend(vec![TrialOutcome::AboveObserved; above]);
    all
}

#[test]
fn shuffled_row_holds_the_same_values() {
    let mut rng = StdRng::seed_from_u64(7);
    let row: Vec<i32> = vec![5, 1, 1, 3, 9, 9, 9, 0];
    for _ in 0..50 {
        let shuffled = permute_row(&row, &mut rng);
        assert_eq!(shuffled.len(), row.len());
        assert_eq!(sorted(shuffled), sorted(row.clone()));
    }
}

#[test]
fn shuffled_row_is_in_another_order() {
    let mut rng = StdRng::seed_from_u64(11);
    let row: Vec<i32> = (0..40).collect();
    let shuffled = permute_row(&row, &mut rng);
    assert_ne!(shuffled, row);
    assert_eq!(sorted(shuffled), row);
    // The row that was handed in is left as it was.
    assert_eq!(row, (0..40).collect::<Vec<i32>>());
}

#[test]
fn shuffle_of_a_short_row_is_the_row() {
    let mut rng = StdRng::seed_from_u64(3);
    assert_eq!(permute_row(&Vec::<i32>::new(), &mut rng), Vec::<i32>::new());
    assert_eq!(permute_row(&vec![4], &mut rng), vec![4]);
}

#[test]
fn shuffle_reaches_every_order_of_three() {
    let mut rng = StdRng::seed_from_u64(5);
    let mut seen = std::collections::BTreeSet::new();
    for _ in 0..200 {
        seen.insert(permute_row(&vec![1, 2, 3], &mut rng));
    }
    assert_eq!(seen.len(), 6);
}

#[test]
fn permuted_dataset_keeps_each_row_to_itself() {
    let mut rng = StdRng::seed_from_u64(42);
    let rows: Vec<Vec<i32>> = (0..6).map(|i| (0..12).map(|j| 100 * i + j).collect()).collect();
    let data = FeatureMatrix::from_rows(rows.clone()).unwrap();
    let permuted = permute_dataset(&data, &mut rng);
    assert_eq!(permuted.n_rows(), 6);
    assert_eq!(permuted.n_cols(), 12);
    let mut moved = false;
    for i in 0..6 {
        assert_eq!(sorted(permuted.row(i).clone()), rows[i]);
        moved = moved || permuted.row(i) != &rows[i];
    }
    assert!(moved);
    // The data that was handed in is left as it was.
    assert_eq!(data, FeatureMatrix::from_rows(rows).unwrap());
}

#[test]
fn permuted_dataset_of_real_values_keeps_each_row_to_itself() {
    let mut rng = StdRng::seed_from_u64(1);
    let rows = vec![vec![0.5f64, -1.25, 3.0, 7.5], vec![2.0, 2.0, -2.0, 0.0]];
    let data = FeatureMatrix::from_rows(rows.clone()).unwrap();
    let permuted = permute_dataset(&data, &mut rng);
    for i in 0..2 {
        let mut got = permuted.row(i).clone();
        let mut want = rows[i].clone();
        got.sort_by(|a, b| a.partial_cmp(b).unwrap());
        want.sort_by(|a, b| a.partial_cmp(b).unwrap());
        assert_eq!(got, want);
    }
}

#[test]
fn same_seed_gives_the_same_permutation() {
    let rows: Vec<Vec<i32>> = (0..4).map(|i| (0..16).map(|j| i * j).collect()).collect();
    let data = FeatureMatrix::from_rows(rows).unwrap();
    let first = permute_dataset(&data, &mut StdRng::seed_from_u64(2024));
    let second = permute_dataset(&data, &mut StdRng::seed_from_u64(2024));
    let other = permute_dataset(&data, &mut StdRng::seed_from_u64(2025));
    assert_eq!(first, second);
    assert_ne!(first, other);
}

#[test]
fn p_value_is_count_plus_one_over_trials_plus_one() {
    let p = p_value(&outcomes(1, 3)).unwrap();
    assert_eq!(p, PValue { at_most_observed: 1, permutations: 4 });
    assert_eq!((p.at_most_observed + 1, p.permutations + 1), (2, 5));
    let value = (p.at_most_observed as f64 + 1.0) / (p.permutations as f64 + 1.0);
    assert_eq!(value, 0.4);
}

#[test]
fn p_value_of_no_trial_is_one() {
    assert_eq!(p_value(&Vec::new()), Ok(PValue { at_most_observed: 0, permutations: 0 }));
}

#[test]
fn p_value_lies_above_zero_and_at_most_one() {
    let n = 200;
    for at_most in 0..=n {
        let p = p_value(&outcomes(at_most, n - at_most)).unwrap();
        assert_eq!(p.permutations + 1, n + 1);
        assert_eq!(p.at_most_observed + 1, at_most + 1);
        assert!(1 <= p.at_most_observed + 1 && p.at_most_observed + 1 <= n + 1);
        let value = (p.at_most_observed as f64 + 1.0) / (p.permutations as f64 + 1.0);
        assert!(0.0 < value && value <= 1.0);
    }
}

#[test]
fn p_value_does_not_depend_on_the_order_of_the_trials() {
    let yes = TrialOutcome::AtMostObserved;
    let no = TrialOutcome::AboveObserved;
    let a = vec![yes, no, no, yes, no];
    let b = vec![no, no, no, yes, yes];
    let c = vec![yes, yes, no, no, no];
    assert_eq!(p_value(&a), Ok(PValue { at_most_observed: 2, permutations: 5 }));
    assert_eq!(p_value(&b), p_value(&a));
    assert_eq!(p_value(&c), p_value(&a));
}

#[test]
fn p_value_is_refused_after_a_failed_fit() {
    assert_eq!(p_value(&vec![TrialOutcome::FitFailed]), Err(ClusteringError::FitFailed));
    assert_eq!(
        p_value(&vec![
            TrialOutcome::AtMostObserved,
            TrialOutcome::AboveObserved,
            TrialOutcome::FitFailed,
            TrialOutcome::AtMostObserved,
        ]),
        Err(ClusteringError::FitFailed)
    );
}

#[test]
fn test_asks_for_each_trial_and_then_reports() {
    let mut test = PermutationTest::start(3);
    assert_eq!(test.next_step(), NextStep::RunTrial);
    assert_eq!(test.record(TrialOutcome::AboveObserved), NextStep::RunTrial);
    assert_eq!(test.next_step(), NextStep::RunTrial);
    assert_eq!(test.record(TrialOutcome::AtMostObserved), NextStep::RunTrial);
    let report = NextStep::Report(PValue { at_most_observed: 2, permutations: 3 });
    assert_eq!(test.record(TrialOutcome::AtMostObserved), report);
    assert_eq!(test.next_step(), report);
}

#[test]
fn test_of_no_trial_reports_at_once() {
    let mut test = PermutationTest::start(0);
    let report = NextStep::Report(PValue { at_most_observed: 0, permutations: 0 });
    assert_eq!(test.next_step(), report);
    assert_eq!(test.record(TrialOutcome::AtMostObserved), report);
}

#[test]
fn finished_test_takes_no_further_outcome() {
    let mut test = PermutationTest::start(1);
    let report = NextStep::Report(PValue { at_most_observed: 0, permutations: 1 });
    assert_eq!(test.record(TrialOutcome::AboveObserved), report);
    assert_eq!(test.record(TrialOutcome::AtMostObserved), report);
    assert_eq!(test.record(TrialOutcome::FitFailed), report);
    assert_eq!(test.next_step(), report);
}

#[test]
fn failed_fit_ends_the_test() {
    let mut test = PermutationTest::start(4);
    assert_eq!(test.record(TrialOutcome::AtMostObserved), NextStep::RunTrial);
    let abort = NextStep::Abort(ClusteringError::FitFailed);
    assert_eq!(test.record(TrialOutcome::FitFailed), abort);
    assert_eq!(test.next_step(), abort);
    assert_eq!(test.record(TrialOutcome::AtMostObserved), abort);
    assert_eq!(test.record(TrialOutcome::AboveObserved), abort);
}

#[test]
fn test_driven_over_shuffled_data_reports_a_p_value() {
    let mut rng = StdRng::seed_from_u64(9);
    let data = FeatureMatrix::from_rows(vec![vec![1i8, -1, 0, 1], vec![-1, -1, 1, 0]]).unwrap();
    let mut test = PermutationTest::start(25);
    let mut step = test.next_step();
    let mut trials = 0;
    while step == NextStep::RunTrial {
        let shuffled = permute_dataset(&data, &mut rng);
        // A stand-in statistic: the shuffle counts where it leaves the first value in place.
        let outcome = if shuffled.get(0, 0) == data.get(0, 0) {
            TrialOutcome::AtMostObserved
        } else {
            TrialOutcome::AboveObserved
        };
        step = test.record(outcome);
        trials += 1;
    }
    assert_eq!(trials, 25);
    match step {
        NextStep::Report(p) => {
            assert_eq!(p.permutations, 25);
            assert!(p.at_most_observed <= 25);
            assert!(p.at_most_observed >= 1);
        }
        other => panic!("no report: {:?}", other),
    }
}
