//! The errors that the library reports. Each is a value: no function
//! answers a request it cannot serve with a made-up number.

use vstd::prelude::*;

verus! {

/// The input has the wrong shape for what was asked of it.
#[derive(Debug, Clone, Copy, PartialEq, Eq, Structural)]
pub enum ShapeError {
    /// The table has no rows.
    EmptyTable,
    /// Some row is not as long as the first one.
    RaggedTable,
    /// The table has no column to take the labels from.
    NoLabelColumn,
    /// Two sequences that must line up index by index differ in length.
    LengthMismatch,
}

/// A dimensionality reduction that cannot be fitted.
#[derive(Debug, Clone, Copy, PartialEq, Eq, Structural)]
pub enum ReductionError {
    /// No component was asked for.
    NoComponents,
    /// More components were asked for than the table has columns.
    TooManyComponents,
    /// The table has fewer rows than components were asked for.
    TooFewRows,
}

/// A clustering that cannot be fitted.
#[derive(Debug, Clone, Copy, PartialEq, Eq, Structural)]
pub enum ClusteringError {
    /// No cluster was asked for.
    NoClusters,
    /// More clusters were asked for than the table has rows.
    TooManyClusters,
    /// A fit left a cluster without any row.
    EmptyCluster,
    /// A fit was attempted and gave no assignment of the rows to the
    /// clusters.
    FitFailed,
}

} // verus!
