use cluster_validation::error::ShapeError;
use cluster_validation::mutual_info::{contingency, ContingencyTable, JointCell};

fn cell(
    label: isize,
    truth: isize,
    joint: usize,
    label_total: usize,
    truth_total: usize,
) -> JointCell {
    JointCell { label, truth, joint, label_total, truth_total }
}

fn score(table: &ContingencyTable) -> f64 {
    let n = table.total as f64;
    let mut mi = 0.0;
    for c in &table.cells {
        let p_lt = c.joint as f64 / n;
        let p_l = c.label_total as f64 / n;
        let p_t = c.truth_total as f64 / n;
        mi += p_lt * (p_lt / (p_l * p_t)).ln();
    }
    mi
}

fn entropy(labels: &Vec<isize>) -> f64 {
    let n = labels.len() as f64;
    let mut values = labels.clone();
    values.sort();
    values.dedup();
    let mut h = 0.0;
    for v in values {
        let p = labels.iter().filter(|&&x| x == v).count() as f64 / n;
        h -= p * p.ln();
    }
    h
}

#[test]
fn table_counts_each_pair_once() {
    let labels = vec![1, 1, -1, -1, 1, -1];
    let truth = vec![1, -1, -1, -1, 1, 1];
    let table = contingency(&labels, &truth).unwrap();
    assert_eq!(table.total, 6);
    assert_eq!(
        table.cells,
        vec![cell(1, 1, 2, 3, 3), cell(1, -1, 1, 3, 3), cell(-1, -1, 2, 3, 3), cell(-1, 1, 1, 3, 3)]
    );
}

#[test]
fn table_lists_the_pairs_in_the_order_of_first_occurrence() {
    let labels = vec![0, 7, 0, 7, 7, 3];
    let truth = vec![2, 2, 2, 5, 2, 5];
    let table = contingency(&labels, &truth).unwrap();
    assert_eq!(
        table.cells,
        vec![cell(0, 2, 2, 2, 4), cell(7, 2, 2, 3, 4), cell(7, 5, 1, 3, 2), cell(3, 5, 1, 1, 2)]
    );
    let joint: usize = table.cells.iter().map(|c| c.joint).sum();
    assert_eq!(joint, table.total);
}

#[test]
fn table_of_nothing_is_empty() {
    let table = contingency(&Vec::new(), &Vec::new()).unwrap();
    assert_eq!(table, ContingencyTable { total: 0, cells: Vec::new() });
    assert_eq!(score(&table), 0.0);
}

#[test]
fn sequences_of_different_length_are_refused() {
    assert_eq!(contingency(&vec![1, -1], &vec![1]), Err(ShapeError::LengthMismatch));
    assert_eq!(contingency(&vec![], &vec![1]), Err(ShapeError::LengthMismatch));
}

#[test]
fn score_of_two_balanced_groups_in_full_agreement_is_ln_two() {
    let labels = vec![1, 1, -1, -1];
    let table = contingency(&labels, &labels).unwrap();
    assert_eq!(table.cells, vec![cell(1, 1, 2, 2, 2), cell(-1, -1, 2, 2, 2)]);
    assert!((score(&table) - std::f64::consts::LN_2).abs() < 1e-12);
}

#[test]
fn score_of_independent_groups_is_zero() {
    let labels = vec![1, 1, -1, -1];
    let truth = vec![1, -1, 1, -1];
    let table = contingency(&labels, &truth).unwrap();
    assert_eq!(
        table.cells,
        vec![cell(1, 1, 1, 2, 2), cell(1, -1, 1, 2, 2), cell(-1, 1, 1, 2, 2), cell(-1, -1, 1, 2, 2)]
    );
    assert_eq!(score(&table), 0.0);
}

#[test]
fn score_has_the_exact_value_of_its_formula() {
    let labels = vec![1, 1, 1, -1];
    let truth = vec![1, 1, -1, -1];
    let table = contingency(&labels, &truth).unwrap();
    assert_eq!(
        table.cells,
        vec![cell(1, 1, 2, 3, 2), cell(1, -1, 1, 3, 2), cell(-1, -1, 1, 1, 2)]
    );
    let expected = 0.5 * (0.5f64 / (0.75 * 0.5)).ln()
        + 0.25 * (0.25f64 / (0.75 * 0.5)).ln()
        + 0.25 * (0.25f64 / (0.25 * 0.5)).ln();
    assert!((score(&table) - expected).abs() < 1e-15);
    assert!((score(&table) - 0.215_761_554_338_835_65).abs() < 1e-12);
}

#[test]
fn score_against_itself_is_the_entropy() {
    for labels in [
        vec![1, -1, 1, 1, -1, 1, 1],
        vec![0, 0, 0, 0],
        vec![-1, 0, 1, 1, 0, -1, 1, 1, 1],
        vec![5],
    ] {
        let table = contingency(&labels, &labels).unwrap();
        for c in &table.cells {
            assert_eq!(c.label, c.truth);
            assert_eq!(c.label_total, c.joint);
            assert_eq!(c.truth_total, c.joint);
            assert!(c.joint >= 1);
            assert_eq!(c.joint, labels.iter().filter(|&&x| x == c.label).count());
        }
        let mi = score(&table);
        assert!(mi >= 0.0);
        assert!((mi - entropy(&labels)).abs() < 1e-12);
    }
}

#[test]
fn score_is_symmetric() {
    let a = vec![1, -1, 1, 1, -1, 0, 0, 1, -1, -1];
    let b = vec![1, 1, -1, 1, -1, 0, 1, 1, 0, -1];
    let ab = contingency(&a, &b).unwrap();
    let ba = contingency(&b, &a).unwrap();
    assert_eq!(ab.total, ba.total);
    assert_eq!(ab.cells.len(), ba.cells.len());
    for (x, y) in ab.cells.iter().zip(ba.cells.iter()) {
        assert_eq!(*y, cell(x.truth, x.label, x.joint, x.truth_total, x.label_total));
    }
    assert_eq!(score(&ab), score(&ba));
}

#[test]
fn score_of_renamed_groups_is_the_entropy() {
    let truth = vec![1, 1, 1, -1, -1, 1, -1, -1, -1, -1];
    let labels: Vec<isize> = truth.iter().map(|t| -t).collect();
    let table = contingency(&labels, &truth).unwrap();
    assert_eq!(table.cells, vec![cell(-1, 1, 4, 4, 4), cell(1, -1, 6, 6, 6)]);
    assert!((score(&table) - entropy(&truth)).abs() < 1e-12);
}

#[test]
fn score_is_at_most_the_score_against_itself() {
    let truth = vec![1, 1, 1, -1, -1, 1, -1, -1];
    let labels = vec![1, 1, -1, -1, -1, 1, 1, -1];
    let mixed = score(&contingency(&labels, &truth).unwrap());
    let own = score(&contingency(&truth, &truth).unwrap());
    assert!(0.0 <= mixed && mixed < own);
}
