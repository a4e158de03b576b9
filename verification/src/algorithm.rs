use crate::cluster::{Cluster, Link};
use crate::data::{monotone_union, size_tells, ClusterSummary, IndexableData};
use crate::dendrogram::Dendrogram;
use crate::forest::{
    is_forest, lemma_all_roots, lemma_root_is_root, parents, root_count, root_of, some_rank,
};
use crate::heap::LinkHeap;
use crate::lineage::{clusters_tell, lemma_tree_tells, merged_at_distances, summarises};
use crate::linkage::{
    all_sound, all_true, consistent, ends_with, folded, follows, fresh_between, is_cautious,
    is_component, is_fresh, is_run, is_sound, is_true_link, lemma_links_stay_true,
    lemma_run_ends, lemma_run_is_sound, lemma_run_link, lemma_run_starts, lemma_run_step,
    lemma_sizes_fit, link_in_range, links_connect, links_in_range, links_true,
    one_cluster_per_row, respects, run_holds, stale_count, step_of, took, underestimates,
    RunState, Step,
};
use crate::neighbors::{
    covers_focus, find_neighbors, is_neighbor_pair, pairs_connect, pairs_in_range, respects_pairs,
};
use crate::rows::{all_rows, constant_on};
use rand::RngCore;
use vstd::multiset::lemma_multiset_empty_len;
use vstd::multiset::Multiset;
use vstd::prelude::*;

verus! {

/// Follows `merged_into` from the cluster at `index` to the cluster that it
/// has ended up in.
pub fn find_umerged_cluster<S: ClusterSummary>(clusters: &Vec<Cluster<S>>, index: usize) -> (root:
    usize)
    requires
        is_forest(parents(clusters@)),
        index < clusters.len(),
    ensures
        root == root_of(parents(clusters@), index as int),
        root < clusters.len(),
        clusters[root as int].merged_into is None,
{
    let mut current: usize = index;
    let ghost links = parents(clusters@);
    loop
        invariant
            links == parents(clusters@),
            is_forest(links),
            current < clusters.len(),
            root_of(links, current as int) == root_of(links, index as int),
        ensures
            clusters[current as int].merged_into is None,
        decreases some_rank(links)[current as int],
    {
        match clusters[current].merged_into {
            None => {
                break ;
            },
            Some(other) => {
                assert(links[current as int] == Some(other));
                current = other;
            },
        }
    }
    current
}

/// The link between two clusters as they are now.
fn fresh_link<S: ClusterSummary>(clusters: &Vec<Cluster<S>>, first: usize, second: usize) -> (link:
    Link)
    requires
        first < clusters.len(),
        second < clusters.len(),
    ensures
        link.cluster1_index == first,
        link.cluster2_index == second,
        link.cluster1_summary_size == clusters[first as int].summary.size_spec(),
        link.cluster2_summary_size == clusters[second as int].summary.size_spec(),
        link.distance == clusters[first as int].summary.distance_spec(
            &clusters[second as int].summary,
        ),
{
    let c1 = &clusters[first];
    let c2 = &clusters[second];
    Link {
        distance: c1.distance(c2),
        cluster1_index: first,
        cluster2_index: second,
        cluster1_summary_size: c1.summary_size(),
        cluster2_summary_size: c2.summary_size(),
    }
}

/// Joins the trees of two clusters under a new node in `dest`, merges the
/// summary of `src` into that of `dest`, and marks `src` as folded.
fn fold_into<S: ClusterSummary>(
    src: &mut Cluster<S>,
    dest: &mut Cluster<S>,
    dest_index: usize,
    distance: i64,
)
    requires
        old(src).dendrogram is Some,
        old(dest).dendrogram is Some,
        old(dest).dendrogram.unwrap().size_spec() + old(src).dendrogram.unwrap().size_spec()
            <= usize::MAX,
    ensures
        final(src).merged_into == Some(dest_index),
        final(src).dendrogram is None,
        final(src).summary.cleared(),
        final(dest).merged_into == old(dest).merged_into,
        final(dest).dendrogram == Some(
            Dendrogram::Node(
                Box::new(old(dest).dendrogram.unwrap()),
                Box::new(old(src).dendrogram.unwrap()),
                distance,
                (old(dest).dendrogram.unwrap().size_spec()
                    + old(src).dendrogram.unwrap().size_spec()) as usize,
            ),
        ),
        final(dest).summary.extended_from(&old(dest).summary, &old(src).summary),
        final(dest).summary.includes(&old(dest).summary),
        final(dest).summary.includes(&old(src).summary),
        final(dest).summary.size_spec() >= old(dest).summary.size_spec(),
{
    let dendro1 = dest.dendrogram.take().unwrap();
    let dendro2 = src.dendrogram.take().unwrap();
    let new_size = dendro1.size() + dendro2.size();
    dest.dendrogram = Some(
        Dendrogram::Node(Box::new(dendro1), Box::new(dendro2), distance, new_size),
    );
    dest.summary.extend(&src.summary);
    src.summary.clear();
    src.merged_into = Some(dest_index);
}

/// Folds the cluster at `src` into the cluster at `dest`.
fn merge_clusters<S: ClusterSummary>(
    clusters: &mut Vec<Cluster<S>>,
    src: usize,
    dest: usize,
    distance: i64,
)
    requires
        src < old(clusters).len(),
        dest < old(clusters).len(),
        src != dest,
        old(clusters)[src as int].dendrogram is Some,
        old(clusters)[dest as int].dendrogram is Some,
        old(clusters)[dest as int].dendrogram.unwrap().size_spec() + old(
            clusters,
        )[src as int].dendrogram.unwrap().size_spec() <= usize::MAX,
    ensures
        folded(old(clusters)@, final(clusters)@, src, dest, distance),
{
    if src < dest {
        let (left, right) = clusters.as_mut_slice().split_at_mut(dest);
        fold_into(&mut left[src], &mut right[0], dest, distance);
    } else {
        let (left, right) = clusters.as_mut_slice().split_at_mut(src);
        fold_into(&mut right[0], &mut left[dest], dest, distance);
    }
}

/// Does with a link that was taken from the queue what [`step_of`] says, and
/// returns what that was: the two clusters are merged, or a fresh link is put
/// into the queue, or nothing happens.
///
/// The link must not claim a larger distance than its clusters have. The
/// distance of a fresh link that takes its place is then no smaller than its
/// own.
pub fn process_link<S: ClusterSummary>(
    clusters: &mut Vec<Cluster<S>>,
    heap: &mut LinkHeap,
    link: Link,
) -> (step: Step)
    requires
        consistent(old(clusters)@),
        link_in_range(link, old(clusters).len() as nat),
        is_cautious(old(clusters)@, link),
    ensures
        step == step_of(old(clusters)@, link),
        match step {
            Step::Merge { src, dest } => {
                &&& folded(old(clusters)@, final(clusters)@, src, dest, link.distance)
                &&& final(heap)@ == old(heap)@
            },
            Step::Refresh(fresh) => {
                &&& final(clusters)@ == old(clusters)@
                &&& final(heap)@ == old(heap)@.insert(fresh)
                &&& is_fresh(old(clusters)@, fresh)
                &&& fresh.distance == old(
                    clusters,
                )[fresh.cluster1_index as int].summary.distance_spec(
                    &old(clusters)[fresh.cluster2_index as int].summary,
                )
                &&& link.distance <= fresh.distance
            },
            Step::Discard => {
                &&& final(clusters)@ == old(clusters)@
                &&& final(heap)@ == old(heap)@
            },
        },
{
    let first = link.cluster1_index;
    let second = link.cluster2_index;
    assert(parents(clusters@)[first as int] == clusters[first as int].merged_into);
    assert(parents(clusters@)[second as int] == clusters[second as int].merged_into);
    proof {
        lemma_root_is_root(parents(clusters@), first as int);
        lemma_root_is_root(parents(clusters@), second as int);
    }
    match clusters[first].merged_into {
        None => {
            match clusters[second].merged_into {
                None => {
                    let c1_len = clusters[first].summary_size();
                    let c2_len = clusters[second].summary_size();
                    if c1_len != link.cluster1_summary_size || c2_len
                        != link.cluster2_summary_size {
                        // one of the two clusters has changed: the distance is taken anew
                        let fresh = fresh_link(clusters, first, second);
                        heap.push(fresh);
                        Step::Refresh(fresh)
                    } else {
                        // the two clusters are merged into the one with the larger summary,
                        // which is the more likely to stay as it is
                        let (src, dest) = if c1_len > c2_len {
                            (second, first)
                        } else {
                            (first, second)
                        };
                        proof {
                            lemma_sizes_fit(clusters@, dest as int, src as int);
                        }
                        merge_clusters(clusters, src, dest, link.distance);
                        Step::Merge { src, dest }
                    }
                },
                Some(c2_parent_index) => {
                    let unmerged_idx = find_umerged_cluster(clusters, c2_parent_index);
                    if unmerged_idx != first {
                        let fresh = fresh_link(clusters, first, unmerged_idx);
                        heap.push(fresh);
                        Step::Refresh(fresh)
                    } else {
                        Step::Discard
                    }
                },
            }
        },
        Some(c1_parent_index) => match clusters[second].merged_into {
            None => {
                let unmerged_idx = find_umerged_cluster(clusters, c1_parent_index);
                if unmerged_idx != second {
                    let fresh = fresh_link(clusters, unmerged_idx, second);
                    heap.push(fresh);
                    Step::Refresh(fresh)
                } else {
                    Step::Discard
                }
            },
            Some(c2_parent_index) => {
                let unmerged1_idx = find_umerged_cluster(clusters, c1_parent_index);
                let unmerged2_idx = find_umerged_cluster(clusters, c2_parent_index);
                if unmerged1_idx != unmerged2_idx {
                    let fresh = fresh_link(clusters, unmerged1_idx, unmerged2_idx);
                    heap.push(fresh);
                    Step::Refresh(fresh)
                } else {
                    Step::Discard
                }
            },
        },
    }
}

/// Merges clusters along the links, closest first, until no link is left, and
/// returns the tree of the cluster that took part in the last merge, or that
/// of the first row if there was no merge.
///
/// A link that was made before one of its clusters changed is not acted
/// upon: it is replaced by a fresh link between the clusters that its ends
/// have ended up in, or dropped where those are one cluster.
///
/// The distances between the summaries must never shrink when a summary
/// absorbs another, and no link may claim a larger distance than its two
/// clusters have. Merge distances then never grow on the way from the root
/// of the tree to a leaf.
///
/// The tree is what a run of such steps ends with, each step made with a
/// link that is a closest one in the queue. For summaries whose size tells
/// whether they have changed, and links that are true in the sense of
/// [`links_true`], the links are true in every state of the run, so that
/// every two clusters are merged at the distance that they have. Which run it is where several
/// links are closest is left open. The tree of every such run holds one
/// connected component of the links, and therefore every row where the links
/// connect them all.
pub fn clustering_main_loop<S: ClusterSummary>(clusters: Vec<Cluster<S>>, heap: LinkHeap) -> (tree:
    Dendrogram)
    requires
        monotone_union::<S>(),
        clusters.len() >= 1,
        one_cluster_per_row(clusters@),
        links_in_range(heap@, clusters.len() as nat),
        underestimates(clusters@, heap@),
    ensures
        tree.well_formed(),
        forall|row: usize| tree.leaves().contains(row) ==> row < clusters.len(),
        is_component(tree.leaves(), heap@),
        links_connect(heap@, clusters.len() as nat) ==> tree.spans_rows() && tree.size_spec()
            == clusters.len(),
        tree.distances_descend(),
        heap@.len() == 0 ==> tree == Dendrogram::Leaf(0),
        exists|states: Seq<RunState<S>>| #[trigger]
            ends_with(states, tree) && states[0] == (clusters@, heap@, 0usize),
{
    let ghost origin = heap@;
    let ghost n = clusters.len();
    let ghost start = clusters@;
    let mut clusters = clusters;
    let mut heap = heap;
    let mut last_cluster_idx: usize = 0;
    let ghost states: Seq<RunState<S>> = seq![(clusters@, heap@, 0usize)];
    let ghost exact = size_tells::<S>() && links_true(clusters@, heap@);
    proof {
        lemma_run_starts(clusters@, heap@);
        lemma_run_is_sound(clusters@, heap@, origin);
    }
    loop
        invariant
            all_sound(states),
            exact ==> size_tells::<S>() && all_true(states),
            monotone_union::<S>(),
            is_run(states),
            states.len() >= 1,
            states[0] == (start, origin, 0usize),
            states.last() == (clusters@, heap@, last_cluster_idx),
            clusters.len() == n,
            run_holds(clusters@, heap@, origin),
            last_cluster_idx < n,
            clusters[last_cluster_idx as int].merged_into is None,
            origin.len() == 0 ==> heap@ == origin && last_cluster_idx == 0
                && clusters[0].dendrogram == Some(Dendrogram::Leaf(0)),
        ensures
            heap@.len() == 0,
        decreases root_count(parents(clusters@)), stale_count(clusters@, heap@),
    {
        let ghost pending = heap@;
        let ghost before = clusters@;
        let link = match heap.pop() {
            None => {
                break ;
            },
            Some(link) => link,
        };
        proof {
            lemma_multiset_empty_len(pending);
            lemma_run_link(before, pending, origin, link);
        }
        let step = process_link(&mut clusters, &mut heap, link);
        proof {
            lemma_run_is_sound(before, pending, origin);
            lemma_run_step(before, clusters@, pending, origin, link, step);
            lemma_run_is_sound(clusters@, heap@, origin);
            if exact {
                assert(links_true(states.last().0, states.last().1));
                lemma_links_stay_true(before, clusters@, pending, link, step);
            }
        }
        match step {
            Step::Merge { src, dest } => {
                last_cluster_idx = dest;
            },
            _ => {},
        }
        proof {
            let earlier: RunState<S> = (before, pending, states.last().2);
            let later: RunState<S> = (clusters@, heap@, last_cluster_idx);
            assert(took(earlier, later, link));
            assert(follows(earlier, later));
            let longer = states.push(later);
            assert forall|i: int| 0 <= i < longer.len() - 1 implies follows(
                #[trigger] longer[i],
                longer[i + 1],
            ) by {
                if i < states.len() - 1 {
                    assert(follows(states[i], states[i + 1]));
                }
            }
            assert forall|i: int| 0 <= i < longer.len() implies is_sound(#[trigger] longer[i]) by {
                if i < states.len() {
                    assert(is_sound(states[i]));
                }
            }
            if exact {
                assert forall|i: int| 0 <= i < longer.len() implies links_true(
                    (#[trigger] longer[i]).0,
                    longer[i].1,
                ) by {
                    if i < states.len() {
                        assert(links_true(states[i].0, states[i].1));
                    }
                }
            }
            states = longer;
        }
    }
    proof {
        lemma_run_ends(clusters@, heap@, origin, last_cluster_idx as int);
    }
    let ghost last_state = states.last();
    let top_cluster = clusters.remove(last_cluster_idx);
    let tree = top_cluster.dendrogram.unwrap();
    proof {
        assert(last_state.0[last_state.2 as int].dendrogram == Some(tree));
        assert(exact ==> all_true(states));
        assert(ends_with(states, tree));
    }
    tree
}

/// The queue holds a link between the two rows.
pub open spec fn holds_link_between(links: Multiset<Link>, a: usize, b: usize) -> bool
{
    exists|link: Link| #[trigger]
        links.count(link) > 0 && link.cluster1_index == a && link.cluster2_index == b
}

/// Links that hold one link for every pair connect what the pairs connect.
proof fn lemma_links_connect(
    links: Multiset<Link>,
    pairs: Seq<(usize, usize)>,
    n: nat,
)
    requires
        pairs_connect(pairs, n),
        forall|k: int|
            0 <= k < pairs.len() ==> holds_link_between(
                links,
                (#[trigger] pairs[k]).0,
                pairs[k].1,
            ),
    ensures
        links_connect(links, n),
{
    assert forall|label: spec_fn(int) -> int| #[trigger] respects(label, links) implies constant_on(
        label,
        all_rows(n),
    ) by {
        assert forall|k: int| 0 <= k < pairs.len() implies label(
            (#[trigger] pairs[k]).0 as int,
        ) == label(pairs[k].1 as int) by {
            assert(holds_link_between(links, pairs[k].0, pairs[k].1));
            let link = choose|link: Link| #[trigger]
                links.count(link) > 0 && link.cluster1_index == pairs[k].0 && link.cluster2_index
                    == pairs[k].1;
            assert(label(link.cluster1_index as int) == label(link.cluster2_index as int));
        }
        assert(respects_pairs(label, pairs));
    }
}

/// One fresh link for every pair.
pub open spec fn links_for<S: ClusterSummary>(
    clusters: Seq<Cluster<S>>,
    pairs: Seq<(usize, usize)>,
) -> Multiset<Link> {
    pairs.map_values(|pair: (usize, usize)| fresh_between(clusters, pair.0, pair.1)).to_multiset()
}

/// The pairs are such as the search for neighbors gives for the data: none
/// occurs twice, every pair is of two rows that are neighbors in some order
/// of the columns, and for every column the neighbors in an order in which
/// it is the last are all among them.
pub open spec fn is_seeding<D: IndexableData>(data: &D, pairs: Seq<(usize, usize)>) -> bool {
    &&& pairs.no_duplicates()
    &&& forall|k: int| 0 <= k < pairs.len() ==> is_neighbor_pair(data, #[trigger] pairs[k])
    &&& forall|focus: usize| focus < data.columns_spec() ==> covers_focus(data, pairs, focus)
}

/// A run for the data starts from this state: every row is a cluster of its
/// own, with the summary that the data makes for the row, and the queue holds
/// one fresh link for every pair of a seeding.
pub open spec fn is_seeded<D: IndexableData>(data: &D, state: RunState<D::Summary>) -> bool {
    &&& state.0.len() == data.rows_spec()
    &&& one_cluster_per_row(state.0)
    &&& forall|row: int|
        0 <= row < state.0.len() ==> data.makes(row, &(#[trigger] state.0[row]).summary)
    &&& state.2 == 0
    &&& exists|pairs: Seq<(usize, usize)>| #[trigger]
        is_seeding(data, pairs) && state.1 == links_for(state.0, pairs)
}

/// One cluster for every row of the data, with the summary that the data
/// makes for the row.
fn first_clusters<D: IndexableData>(data: &D) -> (clusters: Vec<Cluster<D::Summary>>)
    ensures
        clusters.len() == data.rows_spec(),
        one_cluster_per_row(clusters@),
        forall|row: int|
            0 <= row < clusters.len() ==> data.makes(row, &(#[trigger] clusters@[row]).summary),
{
    let num_rows = data.get_num_rows();
    let mut clusters: Vec<Cluster<D::Summary>> = Vec::new();
    let mut r: usize = 0;
    while r < num_rows
        invariant
            num_rows == data.rows_spec(),
            0 <= r <= num_rows,
            clusters.len() == r,
            one_cluster_per_row(clusters@),
            forall|row: int|
                0 <= row < r ==> data.makes(row, &(#[trigger] clusters@[row]).summary),
        decreases num_rows - r,
    {
        clusters.push(Cluster::new(data.create_cluster_summary(r), r));
        r += 1;
    }
    clusters
}

/// Clusters of one row each, with the summaries that the data makes for the
/// rows, tell of their rows.
proof fn lemma_first_clusters_tell<D: IndexableData>(data: &D, clusters: Seq<Cluster<D::Summary>>)
    requires
        clusters.len() <= usize::MAX,
        one_cluster_per_row(clusters),
        forall|row: int|
            0 <= row < clusters.len() ==> data.makes(row, &(#[trigger] clusters[row]).summary),
    ensures
        clusters_tell(data, clusters),
{
    assert forall|c: int|
        0 <= c < clusters.len() && (#[trigger] clusters[c]).dendrogram is Some implies ({
        &&& summarises(data, clusters[c].dendrogram.unwrap(), clusters[c].summary)
        &&& merged_at_distances(data, clusters[c].dendrogram.unwrap())
    }) by {
        assert(clusters[c].dendrogram == Some(Dendrogram::Leaf(c as usize)));
        assert(data.makes(c, &clusters[c].summary));
    }
}

/// A queue with one fresh link for every pair.
fn first_links<S: ClusterSummary>(clusters: &Vec<Cluster<S>>, pairs: &Vec<(usize, usize)>) -> (heap:
    LinkHeap)
    requires
        one_cluster_per_row(clusters@),
        pairs_in_range(pairs@, clusters.len() as nat),
    ensures
        heap@ == links_for(clusters@, pairs@),
        links_in_range(heap@, clusters.len() as nat),
        underestimates(clusters@, heap@),
        links_true(clusters@, heap@),
        forall|j: int|
            0 <= j < pairs.len() ==> holds_link_between(
                heap@,
                (#[trigger] pairs@[j]).0,
                pairs@[j].1,
            ),
{
    let ghost num_rows = clusters.len();
    let mut heap = LinkHeap::new();
    proof {
        lemma_all_roots(parents(clusters@));
        assert(pairs@.take(0).map_values(
            |pair: (usize, usize)| fresh_between(clusters@, pair.0, pair.1),
        ) =~= Seq::<Link>::empty());
        assert(Seq::<Link>::empty().to_multiset() =~= Multiset::<Link>::empty()) by {
            broadcast use vstd::seq_lib::group_to_multiset_ensures;

        }
    }
    let mut k: usize = 0;
    while k < pairs.len()
        invariant
            heap@ == links_for(clusters@, pairs@.take(k as int)),
            0 <= k <= pairs.len(),
            clusters.len() == num_rows,
            one_cluster_per_row(clusters@),
            is_forest(parents(clusters@)),
            forall|i: int| 0 <= i < num_rows ==> root_of(parents(clusters@), i) == i,
            pairs_in_range(pairs@, num_rows as nat),
            links_in_range(heap@, num_rows as nat),
            underestimates(clusters@, heap@),
            forall|link: Link| #[trigger] heap@.count(link) > 0 ==> is_true_link(clusters@, link),
            forall|j: int|
                0 <= j < k ==> holds_link_between(heap@, (#[trigger] pairs@[j]).0, pairs@[j].1),
        decreases pairs.len() - k,
    {
        broadcast use vstd::multiset::group_multiset_axioms;

        let ghost pending = heap@;
        let (row_idx1, row_idx2) = pairs[k];
        assert(pairs@[k as int].0 < pairs@[k as int].1 < num_rows);
        let link = fresh_link(clusters, row_idx1, row_idx2);
        heap.push(link);
        proof {
            let make = |pair: (usize, usize)| fresh_between(clusters@, pair.0, pair.1);
            assert(link == make(pairs@[k as int]));
            assert(pairs@.take(k + 1).map_values(make) =~= pairs@.take(k as int).map_values(
                make,
            ).push(link));
            vstd::seq_lib::to_multiset_build(pairs@.take(k as int).map_values(make), link);
            assert(heap@.count(link) > 0);
            assert forall|other: Link| #[trigger] heap@.count(other) > 0 implies other == link
                || pending.count(other) > 0 by {}
            assert forall|j: int| 0 <= j < k + 1 implies holds_link_between(
                heap@,
                (#[trigger] pairs@[j]).0,
                pairs@[j].1,
            ) by {
                if j < k {
                    assert(holds_link_between(pending, pairs@[j].0, pairs@[j].1));
                    let held = choose|held: Link| #[trigger]
                        pending.count(held) > 0 && held.cluster1_index == pairs@[j].0
                            && held.cluster2_index == pairs@[j].1;
                    assert(heap@.count(held) > 0);
                }
            }
        }
        k += 1;
    }
    proof {
        assert(pairs@.take(k as int) == pairs@);
        assert(links_true(clusters@, heap@)) by {
            reveal(links_true);
        }
    }
    heap
}

/// Groups the rows of the data into clusters and returns the dendrogram of
/// the merges.
///
/// `init_iterations` is the number of rounds in which candidate neighbors
/// are sought before the merging starts; without it, or where it is less
/// than one, one round is made. `rng` is used in those rounds alone.
///
/// The distances between the summaries must never shrink when a summary
/// absorbs another: see [`monotone_union`].
///
/// Each level of the dendrogram holds the dendrograms of the two clusters
/// that were merged, the distance between them, and the size of the cluster
/// that came of them. Its leaves are the rows of the data, each of them once,
/// and merge distances never grow on the way from the root to a leaf.
///
/// The dendrogram is what a run of [`clustering_main_loop`] ends with that
/// starts from the summaries that the data makes for its rows, with a link
/// for every pair of neighbors found. Which pairs are found depends on `rng`.
/// For summaries whose size tells whether they have changed, see
/// [`size_tells`], every two clusters are merged at the distance that they
/// have: every node records the distance between the summaries of the rows
/// of its two subtrees.
pub fn create_dendrogram<D: IndexableData, R: RngCore>(
    data: &D,
    init_iterations: Option<i32>,
    rng: &mut R,
) -> (tree: Dendrogram)
    requires
        monotone_union::<D::Summary>(),
        data.rows_spec() >= 1,
        data.columns_spec() >= 1,
    ensures
        tree.spans_rows(),
        tree.size_spec() == data.rows_spec(),
        tree.distances_descend(),
        exists|states: Seq<RunState<D::Summary>>| #[trigger]
            ends_with(states, tree) && is_seeded(data, states[0]),
        size_tells::<D::Summary>() ==> merged_at_distances(data, tree),
{
    let clusters = first_clusters(data);
    let neighbors = find_neighbors(data, init_iterations, rng);
    let heap = first_links(&clusters, neighbors.pairs());
    let ghost start: RunState<D::Summary> = (clusters@, heap@, 0usize);
    proof {
        lemma_links_connect(heap@, neighbors@, clusters.len() as nat);
        assert(is_seeding(data, neighbors@));
        assert(is_seeded(data, start));
    }
    let tree = clustering_main_loop(clusters, heap);
    proof {
        let states = choose|states: Seq<RunState<D::Summary>>| #[trigger]
            ends_with(states, tree) && states[0] == start;
        if size_tells::<D::Summary>() {
            lemma_first_clusters_tell(data, start.0);
            lemma_tree_tells(data, states, tree);
        }
    }
    tree
}

} // verus!
