use crate::cluster::{Cluster, Link};
use crate::data::{ClusterSummary, IndexableData};
use crate::dendrogram::Dendrogram;
use crate::data::size_tells;
use crate::linkage::{
    all_sound, all_true, ends_with, follows, is_closest, is_fresh, is_run, is_sound,
    is_true_link, link_in_range, links_true, step_of, took, RunState, Step,
};
use vstd::prelude::*;

verus! {

/// `summary` is the summary of the rows of the tree: for a leaf, what the
/// data makes for its row, and for a node, what the summary of the left
/// subtree becomes when that of the right subtree is merged into it.
pub open spec fn summarises<D: IndexableData>(
    data: &D,
    tree: Dendrogram,
    summary: D::Summary,
) -> bool
    decreases tree,
{
    match tree {
        Dendrogram::Leaf(row) => data.makes(row as int, &summary),
        Dendrogram::Node(left, right, _, _) => exists|l: D::Summary, r: D::Summary|
            #![trigger summary.extended_from(&l, &r)]
            summarises(data, *left, l) && summarises(data, *right, r) && summary.extended_from(
                &l,
                &r,
            ),
    }
}

/// Every node of the tree records the distance between the summaries of the
/// rows of its two subtrees, taken from the one to the other or the other
/// way round.
pub open spec fn merged_at_distances<D: IndexableData>(data: &D, tree: Dendrogram) -> bool
    decreases tree,
{
    match tree {
        Dendrogram::Leaf(_) => true,
        Dendrogram::Node(left, right, distance, _) => {
            &&& merged_at_distances(data, *left)
            &&& merged_at_distances(data, *right)
            &&& exists|l: D::Summary, r: D::Summary|
                #![trigger summarises(data, *left, l), summarises(data, *right, r)]
                summarises(data, *left, l) && summarises(data, *right, r) && (distance
                    == l.distance_spec(&r) || distance == r.distance_spec(&l))
        },
    }
}

/// Every cluster that holds a tree has the summary of the rows of its tree,
/// and its tree records the distances between such summaries.
pub open spec fn clusters_tell<D: IndexableData>(
    data: &D,
    clusters: Seq<Cluster<D::Summary>>,
) -> bool {
    forall|c: int|
        0 <= c < clusters.len() && (#[trigger] clusters[c]).dendrogram is Some ==> {
            &&& summarises(data, clusters[c].dendrogram.unwrap(), clusters[c].summary)
            &&& merged_at_distances(data, clusters[c].dendrogram.unwrap())
        }
}

/// Where the links are true, the clusters still tell of their rows when a
/// link was taken from the queue and dealt with.
pub proof fn lemma_step_tells<D: IndexableData>(
    data: &D,
    before: RunState<D::Summary>,
    after: RunState<D::Summary>,
)
    requires
        follows(before, after),
        is_sound(before),
        links_true(before.0, before.1),
        clusters_tell(data, before.0),
    ensures
        clusters_tell(data, after.0),
{
    reveal(links_true);
    let link = choose|link: Link| #[trigger]
        before.1.count(link) > 0 && is_closest(link, before.1) && took(
            before,
            after,
            link,
        );
    assert(link_in_range(link, before.0.len()));
    assert(is_true_link(before.0, link));
    match step_of(before.0, link) {
        Step::Merge { src, dest } => {
            let first = before.0[link.cluster1_index as int];
            let second = before.0[link.cluster2_index as int];
            assert(is_fresh(before.0, link));
            assert(link.distance == first.summary.distance_spec(&second.summary));
            assert(before.0[src as int].dendrogram is Some);
            assert(before.0[dest as int].dendrogram is Some);
            let left = before.0[dest as int].dendrogram.unwrap();
            let right = before.0[src as int].dendrogram.unwrap();
            let l = before.0[dest as int].summary;
            let r = before.0[src as int].summary;
            assert(summarises(data, left, l));
            assert(summarises(data, right, r));
            assert forall|c: int|
                0 <= c < after.0.len() && (#[trigger] after.0[c]).dendrogram is Some implies ({
                &&& summarises(data, after.0[c].dendrogram.unwrap(), after.0[c].summary)
                &&& merged_at_distances(data, after.0[c].dendrogram.unwrap())
            }) by {
                if c == dest {
                    let tree = after.0[c].dendrogram.unwrap();
                    assert(tree.left() == left && tree.right() == right);
                    assert(after.0[c].summary.extended_from(&l, &r));
                    assert(link.distance == l.distance_spec(&r) || link.distance
                        == r.distance_spec(&l));
                    match tree {
                        Dendrogram::Node(left_box, right_box, distance, _) => {
                            assert(*left_box == left && *right_box == right);
                            assert(summarises(data, *left_box, l));
                            assert(summarises(data, *right_box, r));
                            assert(distance == link.distance);
                            assert(merged_at_distances(data, *left_box));
                            assert(merged_at_distances(data, *right_box));
                        },
                        Dendrogram::Leaf(_) => {},
                    }
                    assert(summarises(data, tree, after.0[c].summary));
                    assert(merged_at_distances(data, tree));
                } else {
                    assert(c != src);
                    assert(after.0[c] == before.0[c]);
                }
            }
        },
        Step::Refresh(fresh) => {},
        Step::Discard => {},
    }
}

/// Where the links are true throughout a run, the clusters tell of their
/// rows in every state of it if they do in the first.
pub proof fn lemma_run_tells<D: IndexableData>(
    data: &D,
    states: Seq<RunState<D::Summary>>,
    upto: int,
)
    requires
        is_run(states),
        all_sound(states),
        all_true(states),
        0 <= upto < states.len(),
        clusters_tell(data, states[0].0),
    ensures
        clusters_tell(data, states[upto].0),
    decreases upto,
{
    if upto > 0 {
        lemma_run_tells(data, states, upto - 1);
        assert(follows(states[upto - 1], states[upto - 1 + 1]));
        assert(is_sound(states[upto - 1]));
        assert(links_true(states[upto - 1].0, states[upto - 1].1));
        lemma_step_tells(data, states[upto - 1], states[upto]);
    }
}

/// The tree that a run ends with records the distances between the summaries
/// of the rows of its subtrees, if the run started from clusters that tell of
/// their rows and from true links, and if the size of a summary tells whether
/// it has changed.
pub proof fn lemma_tree_tells<D: IndexableData>(
    data: &D,
    states: Seq<RunState<D::Summary>>,
    tree: Dendrogram,
)
    requires
        ends_with(states, tree),
        size_tells::<D::Summary>(),
        links_true(states[0].0, states[0].1),
        clusters_tell(data, states[0].0),
    ensures
        merged_at_distances(data, tree),
{
    lemma_run_tells(data, states, states.len() - 1);
}

} // verus!
