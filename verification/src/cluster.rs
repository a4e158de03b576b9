use crate::data::ClusterSummary;
use crate::dendrogram::Dendrogram;
use vstd::prelude::*;

verus! {

/// The state of one row's cluster during a run.
pub struct Cluster<S> {
    /// What the cluster says about its rows.
    pub summary: S,
    /// The cluster that this one was folded into, if it was.
    pub merged_into: Option<usize>,
    /// The tree over the rows of this cluster, as long as the cluster has not
    /// been folded into another.
    pub dendrogram: Option<Dendrogram>,
}

/// A candidate merge of two clusters.
#[derive(Clone, Copy)]
pub struct Link {
    pub cluster1_index: usize,
    pub cluster2_index: usize,
    /// The size of the first cluster's summary when the distance was taken.
    pub cluster1_summary_size: usize,
    /// The size of the second cluster's summary when the distance was taken.
    pub cluster2_summary_size: usize,
    pub distance: i64,
}

impl<S: ClusterSummary> Cluster<S> {
    /// The cluster of one row alone.
    pub fn new(summary: S, row_index: usize) -> (cluster: Self)
        ensures
            cluster.summary == summary,
            cluster.merged_into is None,
            cluster.dendrogram == Some(Dendrogram::Leaf(row_index)),
    {
        Cluster { summary, merged_into: None, dendrogram: Some(Dendrogram::Leaf(row_index)) }
    }

    /// The size of the summary of the cluster.
    pub fn summary_size(&self) -> (n: usize)
        ensures
            n == self.summary.size_spec(),
    {
        self.summary.summary_size()
    }

    /// The distance between the summaries of two clusters.
    pub fn distance(&self, other: &Cluster<S>) -> (d: i64)
        ensures
            d == self.summary.distance_spec(&other.summary),
    {
        self.summary.distance(&other.summary)
    }
}

} // verus!
