//! What the pipeline fixes around the numeric fits: the sizes it asks for,
//! the requests it refuses before a fit is tried, and the conventions that
//! turn cluster indices and codes into signed group labels.

use crate::error::{ClusteringError, ReductionError};
use vstd::prelude::*;

verus! {

/// The principal components that the pipeline keeps.
pub const COMPONENTS: usize = 3;

/// The clusters that the pipeline looks for: one for each group.
pub const CLUSTERS: usize = 2;

/// The iterations after which a clustering fit stops at the latest.
pub const MAX_ITERATIONS: u64 = 200;

/// The trials of a permutation test.
pub const PERMUTATIONS: usize = 200;

/// Whether a reduction to `n_components` components can be fitted on a
/// table of `rows` rows and `cols` columns, and if not, why.
pub fn check_reduction(rows: usize, cols: usize, n_components: usize) -> (r: Result<
    (),
    ReductionError,
>)
    ensures
        match r {
            Ok(_) => 1 <= n_components <= cols && n_components <= rows,
            Err(ReductionError::NoComponents) => n_components == 0,
            Err(ReductionError::TooManyComponents) => n_components > cols,
            Err(ReductionError::TooFewRows) => 1 <= n_components <= cols && rows < n_components,
        },
{
    if n_components == 0 {
        Err(ReductionError::NoComponents)
    } else if n_components > cols {
        Err(ReductionError::TooManyComponents)
    } else if rows < n_components {
        Err(ReductionError::TooFewRows)
    } else {
        Ok(())
    }
}

/// Whether `rows` rows can be parted into `k` clusters, and if not, why.
/// This refuses a request before any fit: it never answers `FitFailed`.
pub fn check_clustering(rows: usize, k: usize) -> (r: Result<(), ClusteringError>)
    ensures
        match r {
            Ok(_) => 1 <= k <= rows,
            Err(ClusteringError::NoClusters) => k == 0,
            Err(ClusteringError::TooManyClusters) => k > rows,
            Err(_) => false,
        },
{
    if k == 0 {
        Err(ClusteringError::NoClusters)
    } else if k > rows {
        Err(ClusteringError::TooManyClusters)
    } else {
        Ok(())
    }
}

/// An assignment of `rows` rows to `k` clusters: one index below `k` for
/// each row, and no cluster without a row.
pub open spec fn is_partition(assignment: Seq<usize>, rows: usize, k: usize) -> bool {
    &&& assignment.len() == rows
    &&& forall|i: int| 0 <= i < assignment.len() ==> #[trigger] assignment[i] < k
    &&& forall|c: usize| c < k ==> #[trigger] assignment.contains(c)
}

/// Whether what a fit assigned is a partition of the rows into `k`
/// clusters. An assignment of the wrong length, or with an index that is
/// no cluster, is a failed fit; a cluster that was left empty is reported
/// as such, not passed on.
pub fn check_partition(assignment: &Vec<usize>, rows: usize, k: usize) -> (r: Result<
    (),
    ClusteringError,
>)
    ensures
        match r {
            Ok(_) => is_partition(assignment@, rows, k),
            Err(ClusteringError::FitFailed) => assignment@.len() != rows || exists|i: int|
                0 <= i < assignment@.len() && #[trigger] assignment@[i] >= k,
            Err(ClusteringError::EmptyCluster) => {
                &&& assignment@.len() == rows
                &&& forall|i: int| 0 <= i < assignment@.len() ==> #[trigger] assignment@[i] < k
                &&& exists|c: usize| c < k && !(#[trigger] assignment@.contains(c))
            },
            Err(_) => false,
        },
{
    let n: usize = assignment.len();
    if n != rows {
        return Err(ClusteringError::FitFailed);
    }
    let mut i: usize = 0;
    while i < n
        invariant
            i <= n,
            n == assignment@.len(),
            forall|j: int| 0 <= j < i ==> #[trigger] assignment@[j] < k,
        decreases n - i,
    {
        if assignment[i] >= k {
            return Err(ClusteringError::FitFailed);
        }
        i += 1;
    }
    let mut c: usize = 0;
    while c < k
        invariant
            c <= k,
            n == assignment@.len(),
            n == rows,
            forall|j: int| 0 <= j < n ==> #[trigger] assignment@[j] < k,
            forall|d: usize| d < c ==> #[trigger] assignment@.contains(d),
        decreases k - c,
    {
        let mut j: usize = 0;
        while j < n && assignment[j] != c
            invariant
                j <= n,
                n == assignment@.len(),
                forall|m: int| 0 <= m < j ==> #[trigger] assignment@[m] != c,
            decreases n - j,
        {
            j += 1;
        }
        if j == n {
            assert(!assignment@.contains(c));
            return Err(ClusteringError::EmptyCluster);
        }
        assert(assignment@[j as int] == c);
        c += 1;
    }
    Ok(())
}

/// The signed label of a cluster index: the first cluster is the group
/// `-1`, the second the group `+1`; any further cluster belongs to neither.
pub open spec fn signed_label_of(cluster: usize) -> int {
    if cluster == 0 {
        -1
    } else if cluster == 1 {
        1
    } else {
        0
    }
}

/// The signed label of a cluster index.
pub fn signed_label(cluster: usize) -> (label: isize)
    ensures
        label == signed_label_of(cluster),
{
    if cluster == 0 {
        -1
    } else if cluster == 1 {
        1
    } else {
        0
    }
}

/// The signed labels of a cluster assignment, row by row.
pub fn signed_labels(assignment: &Vec<usize>) -> (labels: Vec<isize>)
    ensures
        labels@.len() == assignment@.len(),
        forall|i: int|
            0 <= i < assignment@.len() ==> #[trigger] labels@[i] == signed_label_of(assignment@[i]),
{
    let n: usize = assignment.len();
    let mut labels: Vec<isize> = Vec::new();
    let mut i: usize = 0;
    while i < n
        invariant
            i <= n,
            n == assignment@.len(),
            labels@.len() == i,
            forall|j: int| 0 <= j < i ==> #[trigger] labels@[j] == signed_label_of(assignment@[j]),
        decreases n - i,
    {
        labels.push(signed_label(assignment[i]));
        i += 1;
    }
    labels
}

/// The group labels that a column of codes stands for, row by row: each
/// code as it is.
pub fn group_labels(codes: &Vec<i8>) -> (labels: Vec<isize>)
    ensures
        labels@ == Seq::new(codes@.len(), |i: int| codes@[i] as isize),
{
    let n: usize = codes.len();
    let ghost want = Seq::new(codes@.len(), |i: int| codes@[i] as isize);
    let mut labels: Vec<isize> = Vec::new();
    let mut i: usize = 0;
    while i < n
        invariant
            i <= n,
            n == codes@.len(),
            want == Seq::new(codes@.len(), |i: int| codes@[i] as isize),
            labels@ == want.take(i as int),
        decreases n - i,
    {
        labels.push(codes[i] as isize);
        proof {
            assert(want.take(i + 1) =~= want.take(i as int).push(want[i as int]));
        }
        i += 1;
    }
    proof {
        assert(want.take(n as int) =~= want);
    }
    labels
}

/// The colour in which a row of a scatter plot is drawn.
#[derive(Debug, Clone, Copy, PartialEq, Eq, Structural)]
pub enum MarkerColour {
    Red,
    Blue,
    Black,
}

/// The colour of a group: red for `+1`, blue for `-1`, black for a row
/// that belongs to neither.
pub fn marker_colour(label: isize) -> (colour: MarkerColour)
    ensures
        colour == (if label == 1 {
            MarkerColour::Red
        } else if label == -1 {
            MarkerColour::Blue
        } else {
            MarkerColour::Black
        }),
{
    if label == 1 {
        MarkerColour::Red
    } else if label == -1 {
        MarkerColour::Blue
    } else {
        MarkerColour::Black
    }
}

} // verus!
