use vstd::prelude::*;

verus! {

/// The summary of a cluster: what the clustering needs to know about the rows
/// that were folded into it.
///
/// The model functions give the executable methods their meaning in
/// contracts. A verified implementor overrides them; left as they are, they
/// say nothing about the values that the methods return.
pub trait ClusterSummary: Sized {
    /// The size of the summary structure (not of the cluster).
    open spec fn size_spec(&self) -> nat {
        arbitrary()
    }

    /// The distance from this summary to `other`.
    open spec fn distance_spec(&self, other: &Self) -> int {
        arbitrary()
    }

    /// Whether this summary covers everything that `other` covers.
    open spec fn includes(&self, other: &Self) -> bool {
        arbitrary()
    }

    /// Whether this summary is what `before` becomes when `other` is merged
    /// into it.
    open spec fn extended_from(&self, before: &Self, other: &Self) -> bool {
        arbitrary()
    }

    /// Whether the summary has released what it held.
    open spec fn cleared(&self) -> bool {
        arbitrary()
    }

    /// The size of the summary structure. It grows when new categories are
    /// added to the cluster and never shrinks.
    fn summary_size(&self) -> (n: usize)
        ensures
            n == self.size_spec(),
    ;

    /// The distance between two clusters. It need not be a metric, and it may
    /// be negative, but it must not shrink when a cluster absorbs another: see
    /// [`monotone_union`].
    fn distance(&self, other: &Self) -> (d: i64)
        ensures
            d == self.distance_spec(other),
    ;

    /// Merges `other` into this summary.
    fn extend(&mut self, other: &Self)
        ensures
            final(self).extended_from(old(self), other),
            final(self).includes(old(self)),
            final(self).includes(other),
            final(self).size_spec() >= old(self).size_spec(),
    ;

    /// Releases the memory that the summary holds. The summary is not
    /// consulted again afterwards.
    fn clear(&mut self)
        ensures
            final(self).cleared(),
    ;
}

/// Distances never shrink when either side absorbs another summary.
///
/// The clustering asks this of the summaries that it works with. It takes
/// the distance of a pair of clusters anew only when the pair comes up, and
/// what makes this sound is that the distance that was taken earlier is not
/// larger than the one that the clusters have by then.
#[verifier::opaque]
pub open spec fn monotone_union<S: ClusterSummary>() -> bool {
    &&& forall|a: S, b: S, c: S|
        #![trigger a.includes(&b), b.distance_spec(&c)]
        a.includes(&b) ==> b.distance_spec(&c) <= a.distance_spec(&c)
    &&& forall|a: S, b: S, c: S|
        #![trigger a.includes(&b), c.distance_spec(&b)]
        a.includes(&b) ==> c.distance_spec(&b) <= c.distance_spec(&a)
}

/// The size of a summary tells whether it has changed: a summary that has
/// absorbed another without growing is at the same distances as before.
///
/// The clustering takes a link for up to date when its clusters have the
/// sizes that it recorded. For summaries that have this property, the
/// distance of such a link is the distance that its clusters have.
#[verifier::opaque]
pub open spec fn size_tells<S: ClusterSummary>() -> bool {
    &&& forall|a: S, b: S, c: S|
        #![trigger a.includes(&b), b.distance_spec(&c)]
        a.includes(&b) && a.size_spec() == b.size_spec() ==> b.distance_spec(&c)
            == a.distance_spec(&c)
    &&& forall|a: S, b: S, c: S|
        #![trigger a.includes(&b), c.distance_spec(&b)]
        a.includes(&b) && a.size_spec() == b.size_spec() ==> c.distance_spec(&b)
            == c.distance_spec(&a)
}

/// Row and column access to the data that is clustered.
///
/// As in [`ClusterSummary`], the model functions are there for verified
/// implementors to override.
pub trait IndexableData {
    /// The summaries that this data makes for its rows.
    type Summary: ClusterSummary;

    /// The number of rows.
    open spec fn rows_spec(&self) -> nat {
        arbitrary()
    }

    /// The number of columns.
    open spec fn columns_spec(&self) -> nat {
        arbitrary()
    }

    /// The value at a row and a column.
    open spec fn value_spec(&self, row: int, column: int) -> int {
        arbitrary()
    }

    /// Whether `summary` is the summary of the cluster that holds the row
    /// alone.
    open spec fn makes(&self, row: int, summary: &Self::Summary) -> bool {
        arbitrary()
    }

    /// The value at a row and a column. Rows are ordered by these values when
    /// candidate neighbors are sought.
    fn get_value(&self, row_index: usize, column_index: usize) -> (v: i64)
        requires
            row_index < self.rows_spec(),
            column_index < self.columns_spec(),
        ensures
            v == self.value_spec(row_index as int, column_index as int),
    ;

    fn get_num_columns(&self) -> (n: usize)
        ensures
            n == self.columns_spec(),
    ;

    fn get_num_rows(&self) -> (n: usize)
        ensures
            n == self.rows_spec(),
    ;

    /// The summary of the cluster that holds one row alone.
    fn create_cluster_summary(&self, row_index: usize) -> (s: Self::Summary)
        requires
            row_index < self.rows_spec(),
        ensures
            self.makes(row_index as int, &s),
    ;
}

} // verus!
