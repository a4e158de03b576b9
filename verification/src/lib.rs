//! Hierarchical agglomerative clustering for categorical features, with an
//! approximated complete linkage.
//!
//! [`create_dendrogram`] seeks pairs of rows that are likely to be close to
//! each other, by sorting the rows in several orders of their columns, and
//! then merges clusters along these pairs, closest first. Distances are taken
//! between the summaries of clusters, which the caller provides through
//! [`ClusterSummary`] and [`IndexableData`]; [`Matrix`] and [`SimpleMatrix`]
//! are such data and such a summary for rows of categories, and
//! [`cluster_rows`] clusters them.
//! [`find_clusters`] cuts the dendrogram into clusters of a given size at
//! most.

pub mod algorithm;
pub mod cluster;
pub mod cut;
pub mod data;
pub mod dendrogram;
pub mod forest;
pub mod heap;
pub mod lineage;
pub mod linkage;
pub mod matrix;
pub mod neighbors;
pub mod order;
pub mod rows;

pub use algorithm::clustering_main_loop;
pub use algorithm::create_dendrogram;
pub use algorithm::find_umerged_cluster;
pub use cut::assign_rows_to_clusters;
pub use cut::find_clusters;
pub use data::ClusterSummary;
pub use data::IndexableData;
pub use dendrogram::Dendrogram;
pub use matrix::cluster_rows;
pub use matrix::Matrix;
pub use matrix::SimpleMatrix;
