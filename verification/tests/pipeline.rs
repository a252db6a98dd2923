use cluster_validation::error::{ClusteringError, ReductionError};
use cluster_validation::pipeline::{
    check_clustering, check_partition, check_reduction, group_labels, marker_colour, signed_label,
    signed_labels, MarkerColour, CLUSTERS, COMPONENTS, MAX_ITERATIONS, PERMUTATIONS,
};

#[test]
fn pipeline_sizes_are_fixed() {
    assert_eq!(COMPONENTS, 3);
    assert_eq!(CLUSTERS, 2);
    assert_eq!(MAX_ITERATIONS, 200);
    assert_eq!(PERMUTATIONS, 200);
}

#[test]
fn reduction_is_admitted_up_to_the_size_of_the_table() {
    assert_eq!(check_reduction(435, 16, 3), Ok(()));
    assert_eq!(check_reduction(10, 5, 5), Ok(()));
    assert_eq!(check_reduction(5, 5, 5), Ok(()));
    assert_eq!(check_reduction(1, 1, 1), Ok(()));
}

#[test]
fn reduction_to_no_component_is_refused() {
    assert_eq!(check_reduction(10, 5, 0), Err(ReductionError::NoComponents));
    assert_eq!(check_reduction(0, 0, 0), Err(ReductionError::NoComponents));
}

#[test]
fn reduction_to_more_components_than_columns_is_refused() {
    assert_eq!(check_reduction(10, 5, 6), Err(ReductionError::TooManyComponents));
    assert_eq!(check_reduction(10, 2, 3), Err(ReductionError::TooManyComponents));
    assert_eq!(check_reduction(1, 0, 1), Err(ReductionError::TooManyComponents));
    assert_eq!(check_reduction(2, 2, 3), Err(ReductionError::TooManyComponents));
}

#[test]
fn reduction_to_more_components_than_rows_is_refused() {
    assert_eq!(check_reduction(2, 5, 3), Err(ReductionError::TooFewRows));
    assert_eq!(check_reduction(0, 5, 1), Err(ReductionError::TooFewRows));
}

#[test]
fn clustering_is_admitted_up_to_one_cluster_a_row() {
    assert_eq!(check_clustering(10, 2), Ok(()));
    assert_eq!(check_clustering(2, 2), Ok(()));
    assert_eq!(check_clustering(1, 1), Ok(()));
}

#[test]
fn clustering_into_no_cluster_is_refused() {
    assert_eq!(check_clustering(10, 0), Err(ClusteringError::NoClusters));
    assert_eq!(check_clustering(0, 0), Err(ClusteringError::NoClusters));
}

#[test]
fn clustering_into_more_clusters_than_rows_is_refused() {
    assert_eq!(check_clustering(1, 2), Err(ClusteringError::TooManyClusters));
    assert_eq!(check_clustering(0, 1), Err(ClusteringError::TooManyClusters));
    assert_eq!(check_clustering(10, 11), Err(ClusteringError::TooManyClusters));
}

#[test]
fn partition_gives_every_cluster_a_row() {
    assert_eq!(check_partition(&vec![0, 1, 1, 0], 4, 2), Ok(()));
    assert_eq!(check_partition(&vec![2, 0, 1], 3, 3), Ok(()));
    assert_eq!(check_partition(&vec![0, 0, 0], 3, 1), Ok(()));
    assert_eq!(check_partition(&vec![], 0, 0), Ok(()));
}

#[test]
fn partition_with_an_empty_cluster_is_refused() {
    assert_eq!(check_partition(&vec![0, 0, 0], 3, 2), Err(ClusteringError::EmptyCluster));
    assert_eq!(check_partition(&vec![1, 1], 2, 2), Err(ClusteringError::EmptyCluster));
    assert_eq!(check_partition(&vec![0, 2, 0], 3, 3), Err(ClusteringError::EmptyCluster));
    assert_eq!(check_partition(&vec![], 0, 1), Err(ClusteringError::EmptyCluster));
    assert_eq!(check_partition(&vec![0], 1, usize::MAX), Err(ClusteringError::EmptyCluster));
}

#[test]
fn partition_of_the_wrong_shape_is_a_failed_fit() {
    assert_eq!(check_partition(&vec![0, 1], 3, 2), Err(ClusteringError::FitFailed));
    assert_eq!(check_partition(&vec![0, 1, 0], 2, 2), Err(ClusteringError::FitFailed));
    assert_eq!(check_partition(&vec![0, 1, 2], 3, 2), Err(ClusteringError::FitFailed));
    assert_eq!(check_partition(&vec![0], 1, 0), Err(ClusteringError::FitFailed));
}

#[test]
fn cluster_index_becomes_a_signed_label() {
    assert_eq!(signed_label(0), -1);
    assert_eq!(signed_label(1), 1);
    assert_eq!(signed_label(2), 0);
    assert_eq!(signed_label(usize::MAX), 0);
    assert_eq!(signed_labels(&vec![0, 1, 1, 0, 2]), vec![-1, 1, 1, -1, 0]);
    assert_eq!(signed_labels(&Vec::new()), Vec::<isize>::new());
}

#[test]
fn codes_become_group_labels() {
    assert_eq!(group_labels(&vec![1, -1, 0, 1]), vec![1isize, -1, 0, 1]);
    assert_eq!(group_labels(&vec![i8::MIN, i8::MAX]), vec![-128isize, 127]);
    assert_eq!(group_labels(&Vec::new()), Vec::<isize>::new());
}

#[test]
fn groups_have_their_colours() {
    assert_eq!(marker_colour(1), MarkerColour::Red);
    assert_eq!(marker_colour(-1), MarkerColour::Blue);
    assert_eq!(marker_colour(0), MarkerColour::Black);
    assert_eq!(marker_colour(2), MarkerColour::Black);
    assert_eq!(marker_colour(isize::MIN), MarkerColour::Black);
}
