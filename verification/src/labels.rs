//! Cluster labels and the shape checks that guard dimensionality reduction.
//!
//! The cluster oracle assigns each reduced vector either a non-negative
//! cluster id or a negative value meaning noise. An oracle failure is not
//! fatal: the pipeline degrades to an all-noise labeling of the right length.

use vstd::prelude::*;

verus! {

/// Why a reduction failed: no rows at all, rows of unequal width, fewer
/// features than the requested number of components, or numerically
/// degenerate data that the decomposition rejected.
#[derive(Clone, Copy, Debug, PartialEq, Eq, Structural)]
pub enum ReductionFault {
    EmptyInput,
    RaggedRows,
    TooFewFeatures,
    DegenerateData,
}

/// The error kinds the pipeline distinguishes: an unreadable input file, a
/// failed embedding run, a degenerate reduction input, a cluster-oracle
/// failure (recovered by degrading to all noise), and a failed artifact write.
#[derive(Clone, Copy, Debug, PartialEq, Eq, Structural)]
pub enum PipelineError {
    InputRead,
    Embedding,
    Reduction(ReductionFault),
    Clustering,
    ExportWrite,
}

/// The label a raw oracle value stands for: non-negative values are cluster
/// ids, negative values are noise.
pub open spec fn label_from_raw(l: i32) -> Option<usize> {
    if l >= 0 {
        Some(l as usize)
    } else {
        None
    }
}

/// Checks that a batch of embedding rows, given by their widths, is fit for
/// reduction to `k` components: at least one row, all rows equally wide, and
/// at least `k` features. Returns the shared width, or the precondition that
/// failed.
pub fn check_reduction_shapes(row_lens: &Vec<usize>, k: usize) -> (r: Result<
    usize,
    ReductionFault,
>)
    ensures
        r == Ok::<usize, ReductionFault>(row_lens@[0]) <==> (row_lens@.len() >= 1 && (forall|
            j: int,
        |
            0 <= j < row_lens@.len() ==> #[trigger] row_lens@[j] == row_lens@[0]) && row_lens@[0] >= k),
        r == Err::<usize, ReductionFault>(ReductionFault::EmptyInput) <==> row_lens@.len() == 0,
        r == Err::<usize, ReductionFault>(ReductionFault::RaggedRows) <==> (row_lens@.len() >= 1
            && exists|j: int| 0 <= j < row_lens@.len() && #[trigger] row_lens@[j] != row_lens@[0]),
        r == Err::<usize, ReductionFault>(ReductionFault::TooFewFeatures) <==> (row_lens@.len()
            >= 1 && (forall|j: int| 0 <= j < row_lens@.len() ==> #[trigger] row_lens@[j] == row_lens@[0])
            && row_lens@[0] < k),
        r is Ok ==> r->Ok_0 == row_lens@[0],
{
    if row_lens.len() == 0 {
        return Err(ReductionFault::EmptyInput);
    }
    let d = row_lens[0];
    let mut j: usize = 1;
    while j < row_lens.len()
        invariant
            1 <= j <= row_lens@.len(),
            d == row_lens@[0],
            forall|m: int| 0 <= m < j ==> row_lens@[m] == d,
        decreases row_lens@.len() - j,
    {
        if row_lens[j] != d {
            return Err(ReductionFault::RaggedRows);
        }
        j = j + 1;
    }
    if d < k {
        return Err(ReductionFault::TooFewFeatures);
    }
    Ok(d)
}

/// Turns the cluster oracle's outcome into one label per line. A successful
/// run maps each raw value through `label_from_raw`; a failed run (`None`)
/// degrades to all noise, never aborting the pipeline.
pub fn labels_from_oracle(outcome: Option<Vec<i32>>, n: usize) -> (labels: Vec<Option<usize>>)
    requires
        outcome is Some ==> outcome->0@.len() == n,
    ensures
        labels@.len() == n,
        match outcome {
            Some(raw) => forall|j: int| 0 <= j < n ==> labels@[j] == label_from_raw(raw@[j]),
            None => forall|j: int| 0 <= j < n ==> labels@[j] is None,
        },
{
    let mut labels: Vec<Option<usize>> = Vec::new();
    match outcome {
        Some(raw) => {
            let mut j: usize = 0;
            while j < raw.len()
                invariant
                    j <= raw@.len(),
                    labels@.len() == j,
                    forall|m: int| 0 <= m < j ==> labels@[m] == label_from_raw(raw@[m]),
                decreases raw@.len() - j,
            {
                let raw_label = raw[j];
                if raw_label >= 0 {
                    labels.push(Some(raw_label as usize));
                } else {
                    labels.push(None);
                }
                j = j + 1;
            }
            labels
        },
        None => {
            let mut j: usize = 0;
            while j < n
                invariant
                    j <= n,
                    labels@.len() == j,
                    forall|m: int| 0 <= m < j ==> labels@[m] is None,
                decreases n - j,
            {
                labels.push(None);
                j = j + 1;
            }
            labels
        },
    }
}

/// Pairs each line with the label at its position, in input order.
pub fn pair_lines_with_labels(lines: Vec<String>, labels: Vec<Option<usize>>) -> (pairs: Vec<
    (String, Option<usize>),
>)
    requires
        lines@.len() == labels@.len(),
    ensures
        pairs@.len() == lines@.len(),
        forall|j: int|
            0 <= j < pairs@.len() ==> #[trigger] pairs@[j] == (lines@[j], labels@[j]),
{
    let mut pairs: Vec<(String, Option<usize>)> = Vec::new();
    let mut j: usize = 0;
    while j < lines.len()
        invariant
            j <= lines@.len(),
            lines@.len() == labels@.len(),
            pairs@.len() == j,
            forall|m: int| 0 <= m < j ==> #[trigger] pairs@[m] == (lines@[m], labels@[m]),
        decreases lines@.len() - j,
    {
        pairs.push((lines[j].clone(), labels[j]));
        j = j + 1;
    }
    pairs
}

} // verus!
