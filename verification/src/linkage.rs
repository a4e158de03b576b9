use crate::cluster::{Cluster, Link};
use crate::data::{monotone_union, size_tells, ClusterSummary};
use crate::dendrogram::Dendrogram;
use crate::forest::{
    is_forest, lemma_all_roots, lemma_fold, lemma_fold_root_count, lemma_root_is_root, parents,
    root_count, root_of,
};
use crate::rows::{all_rows, constant_on, lemma_count_rows};
use vstd::multiset::Multiset;
use vstd::prelude::*;

verus! {

/// The link joins two different clusters out of `n`.
pub open spec fn link_in_range(link: Link, n: nat) -> bool {
    &&& link.cluster1_index < n
    &&& link.cluster2_index < n
    &&& link.cluster1_index != link.cluster2_index
}

/// Every link joins two different clusters out of `n`.
pub open spec fn links_in_range(links: Multiset<Link>, n: nat) -> bool {
    forall|link: Link| #[trigger] links.count(link) > 0 ==> link_in_range(link, n)
}

/// Every cluster holds one row, its own, and none was folded into another.
pub open spec fn one_cluster_per_row<S>(clusters: Seq<Cluster<S>>) -> bool {
    forall|i: int|
        0 <= i < clusters.len() ==> {
            &&& (#[trigger] clusters[i]).merged_into is None
            &&& clusters[i].dendrogram == Some(Dendrogram::Leaf(i as usize))
        }
}

/// The labelling gives both ends of every link the same label.
pub open spec fn respects(label: spec_fn(int) -> int, links: Multiset<Link>) -> bool {
    forall|link: Link| #[trigger]
        links.count(link) > 0 ==> label(link.cluster1_index as int) == label(
            link.cluster2_index as int,
        )
}

/// The labelling gives every cluster the label of the cluster that it has
/// ended up in.
pub open spec fn follows_roots(label: spec_fn(int) -> int, parents: Seq<Option<usize>>) -> bool {
    forall|i: int| 0 <= i < parents.len() ==> label(i) == label(#[trigger] root_of(parents, i))
}

/// The links connect all of the rows `0..n`: a labelling that respects
/// the links gives every row the same label.
pub open spec fn links_connect(links: Multiset<Link>, n: nat) -> bool {
    forall|label: spec_fn(int) -> int| #[trigger]
        respects(label, links) ==> constant_on(label, all_rows(n))
}

/// The rows are one connected component of the links: they are connected
/// with each other, and no link leads out of them.
pub open spec fn is_component(rows: Seq<usize>, links: Multiset<Link>) -> bool {
    &&& forall|label: spec_fn(int) -> int| #[trigger]
        respects(label, links) ==> constant_on(label, rows)
    &&& forall|link: Link| #[trigger]
        links.count(link) > 0 ==> (rows.contains(link.cluster1_index) <==> rows.contains(
            link.cluster2_index,
        ))
}

/// The link claims no larger distance than there is between the clusters
/// that its two ends have ended up in, if those are two clusters.
pub open spec fn is_cautious<S: ClusterSummary>(clusters: Seq<Cluster<S>>, link: Link) -> bool {
    let first = root_of(parents(clusters), link.cluster1_index as int);
    let second = root_of(parents(clusters), link.cluster2_index as int);
    first != second ==> link.distance <= clusters[first].summary.distance_spec(
        &clusters[second].summary,
    )
}

/// No link claims a larger distance than the clusters at its two ends have.
pub open spec fn underestimates<S: ClusterSummary>(
    clusters: Seq<Cluster<S>>,
    links: Multiset<Link>,
) -> bool {
    forall|link: Link| #[trigger] links.count(link) > 0 ==> is_cautious(clusters, link)
}

/// The link was made for its two clusters as they are now: neither was
/// folded into another, and their summaries have the sizes that it recorded.
pub open spec fn is_fresh<S: ClusterSummary>(clusters: Seq<Cluster<S>>, link: Link) -> bool {
    let first = clusters[link.cluster1_index as int];
    let second = clusters[link.cluster2_index as int];
    &&& first.merged_into is None
    &&& second.merged_into is None
    &&& link.cluster1_summary_size == first.summary.size_spec()
    &&& link.cluster2_summary_size == second.summary.size_spec()
}

/// The link between two clusters as they are now.
pub open spec fn fresh_between<S: ClusterSummary>(
    clusters: Seq<Cluster<S>>,
    first: usize,
    second: usize,
) -> Link {
    Link {
        cluster1_index: first,
        cluster2_index: second,
        cluster1_summary_size: clusters[first as int].summary.size_spec() as usize,
        cluster2_summary_size: clusters[second as int].summary.size_spec() as usize,
        distance: clusters[first as int].summary.distance_spec(
            &clusters[second as int].summary,
        ) as i64,
    }
}

/// What becomes of a link that was taken from the queue.
pub enum Step {
    /// Its two clusters are merged: `src` is folded into `dest`.
    Merge { src: usize, dest: usize },
    /// A fresh link takes its place.
    Refresh(Link),
    /// It is dropped.
    Discard,
}

/// What becomes of `link` with the clusters as they are.
///
/// Where neither of its clusters was folded into another, and the link is
/// fresh, the two are merged: the one with the smaller summary is folded
/// into the other, and the first into the second where the summaries are of
/// one size. Where the link is not fresh, a fresh link between the same two
/// clusters takes its place.
///
/// Where one of its clusters was folded into another, a fresh link between
/// the clusters that the two have ended up in takes its place, unless those
/// are one cluster: then the link is dropped.
pub open spec fn step_of<S: ClusterSummary>(clusters: Seq<Cluster<S>>, link: Link) -> Step {
    let first = link.cluster1_index;
    let second = link.cluster2_index;
    if clusters[first as int].merged_into is None && clusters[second as int].merged_into is None {
        if !is_fresh(clusters, link) {
            Step::Refresh(fresh_between(clusters, first, second))
        } else if link.cluster1_summary_size > link.cluster2_summary_size {
            Step::Merge { src: second, dest: first }
        } else {
            Step::Merge { src: first, dest: second }
        }
    } else {
        let root1 = root_of(parents(clusters), first as int) as usize;
        let root2 = root_of(parents(clusters), second as int) as usize;
        if root1 != root2 {
            Step::Refresh(fresh_between(clusters, root1, root2))
        } else {
            Step::Discard
        }
    }
}

/// No link is closer than `link`.
pub open spec fn is_closest(link: Link, links: Multiset<Link>) -> bool {
    forall|other: Link| #[trigger] links.count(other) > 0 ==> link.distance <= other.distance
}

/// The state of a run: the clusters, the links in the queue, and the cluster
/// that took part in the last merge, or the first cluster before any merge.
pub type RunState<S> = (Seq<Cluster<S>>, Multiset<Link>, usize);

/// `after` is `before` with `link` taken from the queue and dealt with as
/// [`step_of`] says.
pub open spec fn took<S: ClusterSummary>(
    before: RunState<S>,
    after: RunState<S>,
    link: Link,
) -> bool {
    match step_of(before.0, link) {
        Step::Merge { src, dest } => {
            &&& folded(before.0, after.0, src, dest, link.distance)
            &&& after.1 == before.1.remove(link)
            &&& after.2 == dest
        },
        Step::Refresh(fresh) => {
            &&& after.0 == before.0
            &&& after.1 == before.1.remove(link).insert(fresh)
            &&& after.2 == before.2
        },
        Step::Discard => {
            &&& after.0 == before.0
            &&& after.1 == before.1.remove(link)
            &&& after.2 == before.2
        },
    }
}

/// `after` is `before` with a closest link taken from the queue and dealt
/// with.
pub open spec fn follows<S: ClusterSummary>(before: RunState<S>, after: RunState<S>) -> bool {
    exists|link: Link| #[trigger]
        before.1.count(link) > 0 && is_closest(link, before.1) && took(before, after, link)
}

/// The links are true in every state.
pub open spec fn all_true<S: ClusterSummary>(states: Seq<RunState<S>>) -> bool {
    forall|i: int| 0 <= i < states.len() ==> links_true((#[trigger] states[i]).0, states[i].1)
}

/// The clusters of the state are consistent, and its links join clusters of
/// the state.
pub open spec fn is_sound<S: ClusterSummary>(state: RunState<S>) -> bool {
    consistent(state.0) && links_in_range(state.1, state.0.len())
}

/// Every state is sound.
pub open spec fn all_sound<S: ClusterSummary>(states: Seq<RunState<S>>) -> bool {
    forall|i: int| 0 <= i < states.len() ==> is_sound(#[trigger] states[i])
}

/// Every state but the first follows the state before it.
pub open spec fn is_run<S: ClusterSummary>(states: Seq<RunState<S>>) -> bool {
    forall|i: int| 0 <= i < states.len() - 1 ==> follows(#[trigger] states[i], states[i + 1])
}

/// The states are a run that ends with an empty queue and with `tree` as
/// the tree of the cluster that took part in the last merge. Every state of
/// it is sound, and if the links are true in the first state and the size
/// of a summary tells whether it has changed, they are true in every state.
pub open spec fn ends_with<S: ClusterSummary>(states: Seq<RunState<S>>, tree: Dendrogram) -> bool {
    &&& is_run(states)
    &&& states.len() >= 1
    &&& states.last().1.len() == 0
    &&& states.last().2 < states.last().0.len()
    &&& states.last().0[states.last().2 as int].dendrogram == Some(tree)
    &&& all_sound(states)
    &&& size_tells::<S>() && links_true(states[0].0, states[0].1) ==> all_true(states)
}

/// The number of links that are not fresh.
pub open spec fn stale_count<S: ClusterSummary>(
    clusters: Seq<Cluster<S>>,
    links: Multiset<Link>,
) -> nat {
    links.filter(|link: Link| !is_fresh(clusters, link)).len()
}

/// The tree of root `c` holds exactly the rows that have ended up in `c`.
pub open spec fn holds_its_rows<S>(clusters: Seq<Cluster<S>>, c: int) -> bool {
    let tree = clusters[c].dendrogram.unwrap();
    &&& tree.well_formed()
    &&& forall|row: usize| #[trigger]
        tree.leaves().contains(row) <==> (row < clusters.len() && root_of(
            parents(clusters),
            row as int,
        ) == c)
}

/// The clusters are a forest in which the roots, and only they, hold a tree,
/// each over its own rows.
pub open spec fn consistent<S>(clusters: Seq<Cluster<S>>) -> bool {
    &&& clusters.len() <= usize::MAX
    &&& is_forest(parents(clusters))
    &&& forall|c: int|
        0 <= c < clusters.len() ==> ((#[trigger] clusters[c]).merged_into is None
            <==> clusters[c].dendrogram is Some)
    &&& forall|c: int|
        0 <= c < clusters.len() && (#[trigger] clusters[c]).merged_into is None
            ==> holds_its_rows(clusters, c)
}

/// What a labelling has to do to fit the state of a run.
pub open spec fn fits(
    label: spec_fn(int) -> int,
    parents: Seq<Option<usize>>,
    links: Multiset<Link>,
) -> bool {
    follows_roots(label, parents) && respects(label, links)
}

/// The clusters and the pending links together connect what the links of
/// `origin` connect, no more and no less.
pub open spec fn same_components(
    parents: Seq<Option<usize>>,
    links: Multiset<Link>,
    origin: Multiset<Link>,
) -> bool {
    forall|label: spec_fn(int) -> int| #[trigger]
        respects(label, origin) <==> fits(label, parents, links)
}

/// Every tree was merged within the distance of every pending link, and
/// merge distances descend in every tree.
#[verifier::opaque]
pub open spec fn merges_ordered<S: ClusterSummary>(
    clusters: Seq<Cluster<S>>,
    links: Multiset<Link>,
) -> bool {
    &&& underestimates(clusters, links)
    &&& forall|c: int, link: Link|
        0 <= c < clusters.len() && (#[trigger] clusters[c]).dendrogram is Some
            && #[trigger] links.count(link) > 0 ==> clusters[c].dendrogram.unwrap().merged_within(
            link.distance as int,
        )
    &&& forall|c: int|
        0 <= c < clusters.len() && (#[trigger] clusters[c]).dendrogram is Some
            ==> clusters[c].dendrogram.unwrap().distances_descend()
}

/// `after` is `before` with the root `src` folded into the root `dest` at
/// `distance`.
pub open spec fn folded<S: ClusterSummary>(
    before: Seq<Cluster<S>>,
    after: Seq<Cluster<S>>,
    src: usize,
    dest: usize,
    distance: i64,
) -> bool {
    &&& after.len() == before.len()
    &&& forall|k: int|
        0 <= k < before.len() && k != src && k != dest ==> #[trigger] after[k] == before[k]
    &&& after[src as int].merged_into == Some(dest)
    &&& after[src as int].dendrogram is None
    &&& after[src as int].summary.cleared()
    &&& after[dest as int].merged_into == before[dest as int].merged_into
    &&& after[dest as int].dendrogram == Some(
        Dendrogram::Node(
            Box::new(before[dest as int].dendrogram.unwrap()),
            Box::new(before[src as int].dendrogram.unwrap()),
            distance,
            (before[dest as int].dendrogram.unwrap().size_spec()
                + before[src as int].dendrogram.unwrap().size_spec()) as usize,
        ),
    )
    &&& after[dest as int].summary.extended_from(
        &before[dest as int].summary,
        &before[src as int].summary,
    )
    &&& after[dest as int].summary.includes(&before[dest as int].summary)
    &&& after[dest as int].summary.includes(&before[src as int].summary)
    &&& after[dest as int].summary.size_spec() >= before[dest as int].summary.size_spec()
}


proof fn lemma_filter_insert(links: Multiset<Link>, keep: spec_fn(Link) -> bool, link: Link)
    ensures
        links.insert(link).filter(keep).len() == links.filter(keep).len() + if keep(link) {
            1nat
        } else {
            0nat
        },
{
    broadcast use vstd::multiset::group_multiset_axioms;

    if keep(link) {
        assert(links.insert(link).filter(keep) =~= links.filter(keep).insert(link));
    } else {
        assert(links.insert(link).filter(keep) =~= links.filter(keep));
    }
}

proof fn lemma_filter_remove(links: Multiset<Link>, keep: spec_fn(Link) -> bool, link: Link)
    requires
        links.count(link) > 0,
    ensures
        links.remove(link).filter(keep).len() + if keep(link) {
            1nat
        } else {
            0nat
        } == links.filter(keep).len(),
{
    broadcast use vstd::multiset::group_multiset_axioms;

    if keep(link) {
        assert(links.remove(link).filter(keep) =~= links.filter(keep).remove(link));
        assert(links.filter(keep).count(link) > 0);
        assert(links.filter(keep) =~= links.filter(keep).remove(link).insert(link));
    } else {
        assert(links.remove(link).filter(keep) =~= links.filter(keep));
    }
}

/// A link whose two ends have ended up in the same cluster can be dropped.
pub proof fn lemma_drop_link<S: ClusterSummary>(
    clusters: Seq<Cluster<S>>,
    links: Multiset<Link>,
    origin: Multiset<Link>,
    link: Link,
)
    requires
        consistent(clusters),
        links_in_range(links, clusters.len()),
        links.count(link) > 0,
        root_of(parents(clusters), link.cluster1_index as int) == root_of(
            parents(clusters),
            link.cluster2_index as int,
        ),
    ensures
        links_in_range(links.remove(link), clusters.len()),
        same_components(parents(clusters), links, origin) ==> same_components(
            parents(clusters),
            links.remove(link),
            origin,
        ),
        merges_ordered(clusters, links) ==> merges_ordered(clusters, links.remove(link)),
        !is_fresh(clusters, link) ==> stale_count(clusters, links.remove(link)) + 1 == stale_count(
            clusters,
            links,
        ),
{
    broadcast use vstd::multiset::group_multiset_axioms;

    reveal(merges_ordered);

    let rest = links.remove(link);
    let ps = parents(clusters);
    assert forall|other: Link| #[trigger] rest.count(other) > 0 implies links.count(other)
        > 0 by {}
    if same_components(ps, links, origin) {
        assert forall|label: spec_fn(int) -> int| #[trigger]
            respects(label, origin) <==> fits(label, ps, rest) by {
            assert(respects(label, origin) <==> fits(label, ps, links));
            if fits(label, ps, rest) {
                assert forall|other: Link| #[trigger] links.count(other) > 0 implies label(
                    other.cluster1_index as int,
                ) == label(other.cluster2_index as int) by {
                    if other == link {
                        assert(label(link.cluster1_index as int) == label(
                            root_of(ps, link.cluster1_index as int),
                        ));
                        assert(label(link.cluster2_index as int) == label(
                            root_of(ps, link.cluster2_index as int),
                        ));
                    } else {
                        assert(rest.count(other) > 0);
                    }
                }
            }
        }
    }
    lemma_filter_remove(links, |l: Link| !is_fresh(clusters, l), link);
}

/// A link can be replaced by a fresh link between the clusters that its two
/// ends have ended up in.
pub proof fn lemma_replace_link<S: ClusterSummary>(
    clusters: Seq<Cluster<S>>,
    links: Multiset<Link>,
    origin: Multiset<Link>,
    link: Link,
    fresh: Link,
)
    requires
        consistent(clusters),
        links_in_range(links, clusters.len()),
        links.count(link) > 0,
        fresh.cluster1_index == root_of(parents(clusters), link.cluster1_index as int),
        fresh.cluster2_index == root_of(parents(clusters), link.cluster2_index as int),
        fresh.cluster1_index != fresh.cluster2_index,
        is_fresh(clusters, fresh),
        fresh.distance == clusters[fresh.cluster1_index as int].summary.distance_spec(
            &clusters[fresh.cluster2_index as int].summary,
        ),
    ensures
        links_in_range(links.remove(link).insert(fresh), clusters.len()),
        same_components(parents(clusters), links, origin) ==> same_components(
            parents(clusters),
            links.remove(link).insert(fresh),
            origin,
        ),
        merges_ordered(clusters, links) && is_closest(link, links) ==> merges_ordered(
            clusters,
            links.remove(link).insert(fresh),
        ),
        !is_fresh(clusters, link) ==> stale_count(clusters, links.remove(link).insert(fresh)) + 1
            == stale_count(clusters, links),
{
    broadcast use vstd::multiset::group_multiset_axioms;

    reveal(merges_ordered);

    let rest = links.remove(link);
    let next = rest.insert(fresh);
    let ps = parents(clusters);
    let n = clusters.len();
    assert(link_in_range(link, n));
    lemma_root_is_root(ps, link.cluster1_index as int);
    lemma_root_is_root(ps, link.cluster2_index as int);
    assert forall|other: Link| #[trigger] next.count(other) > 0 implies other == fresh
        || links.count(other) > 0 by {}
    assert(links_in_range(next, n));
    if same_components(ps, links, origin) {
        assert forall|label: spec_fn(int) -> int| #[trigger]
            respects(label, origin) <==> fits(label, ps, next) by {
            assert(respects(label, origin) <==> fits(label, ps, links));
            if fits(label, ps, next) {
                assert(next.count(fresh) > 0);
                assert forall|other: Link| #[trigger] links.count(other) > 0 implies label(
                    other.cluster1_index as int,
                ) == label(other.cluster2_index as int) by {
                    if other == link {
                        assert(label(link.cluster1_index as int) == label(
                            root_of(ps, link.cluster1_index as int),
                        ));
                        assert(label(link.cluster2_index as int) == label(
                            root_of(ps, link.cluster2_index as int),
                        ));
                    } else {
                        assert(next.count(other) > 0);
                    }
                }
            }
            if fits(label, ps, links) {
                assert(label(link.cluster1_index as int) == label(
                    root_of(ps, link.cluster1_index as int),
                ));
                assert(label(link.cluster2_index as int) == label(
                    root_of(ps, link.cluster2_index as int),
                ));
            }
        }
    }
    if merges_ordered(clusters, links) && is_closest(link, links) {
        assert(root_of(ps, fresh.cluster1_index as int) == fresh.cluster1_index);
        assert(root_of(ps, fresh.cluster2_index as int) == fresh.cluster2_index);
        assert(link.distance <= fresh.distance);
        assert(underestimates(clusters, next));
        assert forall|c: int, other: Link|
            0 <= c < clusters.len() && (#[trigger] clusters[c]).dendrogram is Some
                && #[trigger] next.count(other)
                > 0 implies clusters[c].dendrogram.unwrap().merged_within(other.distance as int) by {
            assert(clusters[c].dendrogram.unwrap().merged_within(link.distance as int));
            if other != fresh {
                assert(links.count(other) > 0);
            }
        }
    }
    lemma_filter_remove(links, |l: Link| !is_fresh(clusters, l), link);
    lemma_filter_insert(rest, |l: Link| !is_fresh(clusters, l), fresh);
}

/// At the start of a run the clusters are consistent, and the links connect
/// what they connect.
pub proof fn lemma_start<S: ClusterSummary>(clusters: Seq<Cluster<S>>, links: Multiset<Link>)
    requires
        one_cluster_per_row(clusters),
        clusters.len() <= usize::MAX,
    ensures
        consistent(clusters),
        same_components(parents(clusters), links, links),
        underestimates(clusters, links) ==> merges_ordered(clusters, links),
{
    reveal(merges_ordered);
    let ps = parents(clusters);
    lemma_all_roots(ps);
    assert forall|c: int|
        0 <= c < clusters.len() && (#[trigger] clusters[c]).merged_into is None implies holds_its_rows(
        clusters,
        c,
    ) by {
        let tree = clusters[c].dendrogram.unwrap();
        assert(tree.leaves() =~= seq![c as usize]);
        assert forall|row: usize| #[trigger]
            tree.leaves().contains(row) <==> (row < clusters.len() && root_of(ps, row as int)
                == c) by {
            if row == c as usize {
                assert(tree.leaves()[0] == row);
            }
        }
    }
}

/// The trees of two roots hold no more rows than there are.
pub proof fn lemma_sizes_fit<S: ClusterSummary>(clusters: Seq<Cluster<S>>, a: int, b: int)
    requires
        consistent(clusters),
        0 <= a < clusters.len(),
        0 <= b < clusters.len(),
        a != b,
        clusters[a].merged_into is None,
        clusters[b].merged_into is None,
    ensures
        clusters[a].dendrogram is Some,
        clusters[b].dendrogram is Some,
        clusters[a].dendrogram.unwrap().size_spec() + clusters[b].dendrogram.unwrap().size_spec()
            <= clusters.len(),
        (clusters[a].dendrogram.unwrap().leaves()
            + clusters[b].dendrogram.unwrap().leaves()).no_duplicates(),
{
    let first = clusters[a].dendrogram.unwrap();
    let second = clusters[b].dendrogram.unwrap();
    assert(holds_its_rows(clusters, a));
    assert(holds_its_rows(clusters, b));
    first.lemma_size_is_leaf_count();
    second.lemma_size_is_leaf_count();
    let rows = first.leaves() + second.leaves();
    assert forall|i: int, j: int|
        0 <= i < first.leaves().len() && 0 <= j < second.leaves().len() implies first.leaves()[i]
        != second.leaves()[j] by {
        assert(first.leaves().contains(first.leaves()[i]));
        assert(second.leaves().contains(second.leaves()[j]));
    }
    vstd::seq_lib::lemma_no_dup_in_concat(first.leaves(), second.leaves());
    assert forall|i: int| 0 <= i < rows.len() implies rows[i] < clusters.len() by {
        if i < first.leaves().len() {
            assert(first.leaves().contains(first.leaves()[i]));
        } else {
            assert(second.leaves().contains(second.leaves()[i - first.leaves().len()]));
        }
    }
    lemma_count_rows(rows, clusters.len());
}

/// Where a root went when `src` was folded into `dest`.
pub open spec fn redirected(root: int, src: usize, dest: usize) -> int {
    if root == src {
        dest as int
    } else {
        root
    }
}

/// Folding one root into another keeps the clusters consistent.
pub proof fn lemma_merge_consistent<S: ClusterSummary>(
    before: Seq<Cluster<S>>,
    after: Seq<Cluster<S>>,
    src: usize,
    dest: usize,
    distance: i64,
)
    requires
        consistent(before),
        src < before.len(),
        dest < before.len(),
        src != dest,
        before[src as int].merged_into is None,
        before[dest as int].merged_into is None,
        folded(before, after, src, dest, distance),
    ensures
        consistent(after),
        parents(after) == parents(before).update(src as int, Some(dest)),
        root_count(parents(after)) + 1 == root_count(parents(before)),
        forall|i: int|
            0 <= i < before.len() ==> #[trigger] root_of(parents(after), i) == redirected(
                root_of(parents(before), i),
                src,
                dest,
            ),
{
    let ps = parents(before);
    let qs = parents(after);
    assert(qs =~= ps.update(src as int, Some(dest)));
    lemma_fold(ps, src, dest);
    lemma_fold_root_count(ps, src, dest);
    lemma_sizes_fit(before, dest as int, src as int);
    let first = before[dest as int].dendrogram.unwrap();
    let second = before[src as int].dendrogram.unwrap();
    assert(holds_its_rows(before, dest as int));
    assert(holds_its_rows(before, src as int));
    assert forall|c: int|
        0 <= c < after.len() && (#[trigger] after[c]).merged_into is None implies holds_its_rows(
        after,
        c,
    ) by {
        let tree = after[c].dendrogram.unwrap();
        if c == dest {
            assert(tree.leaves() == first.leaves() + second.leaves());
            assert(tree.sizes_add_up());
            assert(tree.well_formed());
            assert forall|row: usize| #[trigger]
                tree.leaves().contains(row) <==> (row < after.len() && root_of(qs, row as int)
                    == c) by {
                if tree.leaves().contains(row) {
                    let k = choose|k: int| 0 <= k < tree.leaves().len() && tree.leaves()[k] == row;
                    if k < first.leaves().len() {
                        assert(first.leaves().contains(first.leaves()[k]));
                    } else {
                        assert(second.leaves().contains(second.leaves()[k - first.leaves().len()]));
                    }
                }
                if row < after.len() && root_of(qs, row as int) == c {
                    if root_of(ps, row as int) == src {
                        assert(second.leaves().contains(row));
                        let k = choose|k: int|
                            0 <= k < second.leaves().len() && second.leaves()[k] == row;
                        assert(tree.leaves()[first.leaves().len() + k] == row);
                    } else {
                        assert(first.leaves().contains(row));
                        let k = choose|k: int|
                            0 <= k < first.leaves().len() && first.leaves()[k] == row;
                        assert(tree.leaves()[k] == row);
                    }
                }
            }
        } else {
            assert(c != src);
            assert(after[c] == before[c]);
            assert(holds_its_rows(before, c));
            assert(tree.well_formed());
            assert forall|row: usize| #[trigger]
                tree.leaves().contains(row) <==> (row < after.len() && root_of(qs, row as int)
                    == c) by {
                if row < after.len() {
                    lemma_root_is_root(ps, row as int);
                }
            }
        }
    }
    assert forall|c: int| 0 <= c < after.len() implies ((#[trigger] after[c]).merged_into is None
        <==> after[c].dendrogram is Some) by {
        if c != src && c != dest {
            assert(after[c] == before[c]);
        }
    }
}

/// Folding the two ends of a pending link into one cluster and dropping the
/// link keeps what is connected.
pub proof fn lemma_merge_components<S: ClusterSummary>(
    before: Seq<Cluster<S>>,
    after: Seq<Cluster<S>>,
    src: usize,
    dest: usize,
    links: Multiset<Link>,
    origin: Multiset<Link>,
    link: Link,
)
    requires
        consistent(before),
        consistent(after),
        after.len() == before.len(),
        src < before.len(),
        dest < before.len(),
        src != dest,
        before[src as int].merged_into is None,
        before[dest as int].merged_into is None,
        forall|i: int|
            0 <= i < before.len() ==> #[trigger] root_of(parents(after), i) == redirected(
                root_of(parents(before), i),
                src,
                dest,
            ),
        links_in_range(links, before.len()),
        links.count(link) > 0,
        (link.cluster1_index == src && link.cluster2_index == dest) || (link.cluster1_index == dest
            && link.cluster2_index == src),
        same_components(parents(before), links, origin),
    ensures
        links_in_range(links.remove(link), after.len()),
        same_components(parents(after), links.remove(link), origin),
{
    broadcast use vstd::multiset::group_multiset_axioms;

    let ps = parents(before);
    let qs = parents(after);
    let rest = links.remove(link);
    assert forall|other: Link| #[trigger] rest.count(other) > 0 implies links.count(other)
        > 0 by {}
    assert(root_of(ps, src as int) == src);
    assert(root_of(ps, dest as int) == dest);
    assert(root_of(qs, src as int) == dest);
    assert(root_of(qs, dest as int) == dest);
    assert forall|label: spec_fn(int) -> int| #[trigger]
        respects(label, origin) <==> fits(label, qs, rest) by {
        assert(respects(label, origin) <==> fits(label, ps, links));
        if fits(label, ps, links) {
            assert(label(src as int) == label(dest as int));
            assert forall|i: int| 0 <= i < qs.len() implies label(i) == label(
                #[trigger] root_of(qs, i),
            ) by {
                assert(label(i) == label(root_of(ps, i)));
            }
        }
        if fits(label, qs, rest) {
            assert(label(src as int) == label(root_of(qs, src as int)));
            assert forall|i: int| 0 <= i < ps.len() implies label(i) == label(
                #[trigger] root_of(ps, i),
            ) by {
                assert(label(i) == label(root_of(qs, i)));
            }
            assert forall|other: Link| #[trigger] links.count(other) > 0 implies label(
                other.cluster1_index as int,
            ) == label(other.cluster2_index as int) by {
                if other != link {
                    assert(rest.count(other) > 0);
                }
            }
        }
    }
}

/// Folding the two ends of a closest link at its distance keeps the merges
/// ordered, for summaries whose distances never shrink under union.
pub proof fn lemma_merge_ordered<S: ClusterSummary>(
    before: Seq<Cluster<S>>,
    after: Seq<Cluster<S>>,
    src: usize,
    dest: usize,
    links: Multiset<Link>,
    link: Link,
)
    requires
        monotone_union::<S>(),
        consistent(before),
        consistent(after),
        src < before.len(),
        dest < before.len(),
        src != dest,
        before[src as int].merged_into is None,
        before[dest as int].merged_into is None,
        folded(before, after, src, dest, link.distance),
        forall|i: int|
            0 <= i < before.len() ==> #[trigger] root_of(parents(after), i) == redirected(
                root_of(parents(before), i),
                src,
                dest,
            ),
        links_in_range(links, before.len()),
        links.count(link) > 0,
        is_closest(link, links),
        merges_ordered(before, links),
    ensures
        merges_ordered(after, links.remove(link)),
{
    broadcast use vstd::multiset::group_multiset_axioms;

    reveal(merges_ordered);

    reveal(monotone_union);

    let ps = parents(before);
    let qs = parents(after);
    let rest = links.remove(link);
    assert forall|other: Link| #[trigger] rest.count(other) > 0 implies links.count(other)
        > 0 by {}
    let grown = after[dest as int].summary;
    assert forall|other: Link| #[trigger] rest.count(other) > 0 implies ({
        let first = root_of(qs, other.cluster1_index as int);
        let second = root_of(qs, other.cluster2_index as int);
        first != second ==> other.distance <= after[first].summary.distance_spec(
            &after[second].summary,
        )
    }) by {
        assert(links.count(other) > 0);
        assert(link_in_range(other, before.len()));
        let old_first = root_of(ps, other.cluster1_index as int);
        let old_second = root_of(ps, other.cluster2_index as int);
        let first = root_of(qs, other.cluster1_index as int);
        let second = root_of(qs, other.cluster2_index as int);
        lemma_root_is_root(ps, other.cluster1_index as int);
        lemma_root_is_root(ps, other.cluster2_index as int);
        assert(first == redirected(old_first, src, dest));
        assert(second == redirected(old_second, src, dest));
        if first != second {
            assert(old_first != old_second);
            let a = before[old_first].summary;
            let b = before[old_second].summary;
            assert(other.distance <= a.distance_spec(&b));
            if first == dest {
                assert(after[second] == before[old_second]);
                assert(grown.includes(&a));
                assert(a.distance_spec(&b) <= grown.distance_spec(&b));
            } else if second == dest {
                assert(after[first] == before[old_first]);
                assert(grown.includes(&b));
                assert(a.distance_spec(&b) <= a.distance_spec(&grown));
            } else {
                assert(after[first] == before[old_first]);
                assert(after[second] == before[old_second]);
            }
        }
    }
    assert forall|c: int, other: Link|
        0 <= c < after.len() && (#[trigger] after[c]).dendrogram is Some
            && #[trigger] rest.count(other) > 0 implies after[c].dendrogram.unwrap().merged_within(
        other.distance as int,
    ) by {
        if c != dest {
            assert(after[c] == before[c]);
            assert(before[c].dendrogram is Some);
            assert(links.count(other) > 0);
        }
    }
    assert forall|c: int|
        0 <= c < after.len() && (#[trigger] after[c]).dendrogram
            is Some implies after[c].dendrogram.unwrap().distances_descend() by {
        if c != dest {
            assert(after[c] == before[c]);
            assert(before[c].dendrogram is Some);
        } else {
            assert(before[dest as int].dendrogram is Some);
            assert(before[src as int].dendrogram is Some);
            assert(before[dest as int].dendrogram.unwrap().merged_within(link.distance as int));
            assert(before[src as int].dendrogram.unwrap().merged_within(link.distance as int));
        }
    }
}

/// The labelling of every cluster with the cluster that it has ended up in.
pub open spec fn root_label(parents: Seq<Option<usize>>) -> spec_fn(int) -> int {
    |i: int| root_of(parents, i)
}

/// When no link is pending, the tree of a root holds one connected component
/// of the links that the run started with, and every row if those links
/// connect them all.
pub proof fn lemma_finish<S: ClusterSummary>(
    clusters: Seq<Cluster<S>>,
    origin: Multiset<Link>,
    last: int,
)
    requires
        consistent(clusters),
        0 <= last < clusters.len(),
        clusters[last].merged_into is None,
        links_in_range(origin, clusters.len()),
        same_components(parents(clusters), Multiset::empty(), origin),
    ensures
        clusters[last].dendrogram is Some,
        clusters[last].dendrogram.unwrap().well_formed(),
        forall|row: usize|
            clusters[last].dendrogram.unwrap().leaves().contains(row) ==> row < clusters.len(),
        is_component(clusters[last].dendrogram.unwrap().leaves(), origin),
        links_connect(origin, clusters.len()) ==> clusters[last].dendrogram.unwrap().spans_rows()
            && clusters[last].dendrogram.unwrap().size_spec() == clusters.len(),
{
    broadcast use vstd::multiset::group_multiset_axioms;

    let ps = parents(clusters);
    let n = clusters.len();
    let tree = clusters[last].dendrogram.unwrap();
    let rows = tree.leaves();
    let none = Multiset::<Link>::empty();
    assert(holds_its_rows(clusters, last));
    assert forall|label: spec_fn(int) -> int| #[trigger]
        respects(label, origin) implies constant_on(label, rows) by {
        assert(fits(label, ps, none));
        assert forall|i: int, j: int| 0 <= i < rows.len() && 0 <= j < rows.len() implies label(
            rows[i] as int,
        ) == label(rows[j] as int) by {
            assert(rows.contains(rows[i]));
            assert(rows.contains(rows[j]));
            assert(label(rows[i] as int) == label(root_of(ps, rows[i] as int)));
            assert(label(rows[j] as int) == label(root_of(ps, rows[j] as int)));
        }
    }
    let roots = root_label(ps);
    assert(fits(roots, ps, none)) by {
        assert forall|i: int| 0 <= i < ps.len() implies roots(i) == roots(
            #[trigger] root_of(ps, i),
        ) by {
            lemma_root_is_root(ps, i);
        }
    }
    assert(respects(roots, origin));
    assert forall|link: Link| #[trigger] origin.count(link) > 0 implies (rows.contains(
        link.cluster1_index,
    ) <==> rows.contains(link.cluster2_index)) by {
        assert(link_in_range(link, n));
        assert(roots(link.cluster1_index as int) == roots(link.cluster2_index as int));
    }
    if links_connect(origin, n) {
        assert(constant_on(roots, all_rows(n)));
        assert forall|row: usize| row < n implies rows.contains(row) by {
            assert(all_rows(n)[row as int] == row);
            assert(all_rows(n)[last] == last);
            assert(roots(row as int) == roots(last));
        }
        assert forall|i: int| 0 <= i < rows.len() implies rows[i] < n by {
            assert(rows.contains(rows[i]));
        }
        lemma_count_rows(rows, n);
        tree.lemma_size_is_leaf_count();
    }
}

/// Where the merges are ordered, no pending link claims a larger distance
/// than its clusters have, and merge distances descend in the tree of every
/// root.
pub proof fn lemma_merges_ordered<S: ClusterSummary>(
    clusters: Seq<Cluster<S>>,
    links: Multiset<Link>,
)
    requires
        merges_ordered(clusters, links),
    ensures
        underestimates(clusters, links),
        forall|c: int|
            0 <= c < clusters.len() && (#[trigger] clusters[c]).dendrogram is Some
                ==> clusters[c].dendrogram.unwrap().distances_descend(),
{
    reveal(merges_ordered);
}

/// The links in the queue once `link` was taken from it and dealt with.
pub open spec fn links_after(links: Multiset<Link>, link: Link, step: Step) -> Multiset<Link> {
    match step {
        Step::Refresh(fresh) => links.remove(link).insert(fresh),
        _ => links.remove(link),
    }
}

/// What holds of the clusters and the queue throughout a run that started
/// with the links of `origin`.
#[verifier::opaque]
pub open spec fn run_holds<S: ClusterSummary>(
    clusters: Seq<Cluster<S>>,
    links: Multiset<Link>,
    origin: Multiset<Link>,
) -> bool {
    &&& consistent(clusters)
    &&& links_in_range(links, clusters.len())
    &&& same_components(parents(clusters), links, origin)
    &&& merges_ordered(clusters, links)
}

/// What holds throughout a run holds at its start.
pub proof fn lemma_run_starts<S: ClusterSummary>(clusters: Seq<Cluster<S>>, links: Multiset<Link>)
    requires
        one_cluster_per_row(clusters),
        clusters.len() <= usize::MAX,
        links_in_range(links, clusters.len()),
        underestimates(clusters, links),
    ensures
        run_holds(clusters, links, links),
{
    reveal(run_holds);
    lemma_start(clusters, links);
}

/// A link in the queue of a run can be dealt with.
pub proof fn lemma_run_link<S: ClusterSummary>(
    clusters: Seq<Cluster<S>>,
    links: Multiset<Link>,
    origin: Multiset<Link>,
    link: Link,
)
    requires
        run_holds(clusters, links, origin),
        links.count(link) > 0,
    ensures
        consistent(clusters),
        link_in_range(link, clusters.len()),
        is_cautious(clusters, link),
{
    reveal(run_holds);
    lemma_merges_ordered(clusters, links);
}

/// What holds throughout a run still holds when a closest link was taken
/// from the queue and dealt with; and then there is one root fewer, or the
/// roots are the same and one link fewer that is not fresh.
pub proof fn lemma_run_step<S: ClusterSummary>(
    before: Seq<Cluster<S>>,
    after: Seq<Cluster<S>>,
    links: Multiset<Link>,
    origin: Multiset<Link>,
    link: Link,
    step: Step,
)
    requires
        monotone_union::<S>(),
        run_holds(before, links, origin),
        links.count(link) > 0,
        is_closest(link, links),
        step == step_of(before, link),
        match step {
            Step::Merge { src, dest } => folded(before, after, src, dest, link.distance),
            Step::Refresh(fresh) => {
                &&& after == before
                &&& is_fresh(before, fresh)
                &&& fresh.distance == before[fresh.cluster1_index as int].summary.distance_spec(
                    &before[fresh.cluster2_index as int].summary,
                )
            },
            Step::Discard => after == before,
        },
    ensures
        run_holds(after, links_after(links, link, step), origin),
        after.len() == before.len(),
        match step {
            Step::Merge { src, dest } => {
                &&& dest < after.len()
                &&& after[dest as int].merged_into is None
                &&& root_count(parents(after)) + 1 == root_count(parents(before))
            },
            _ => {
                &&& root_count(parents(after)) == root_count(parents(before))
                &&& stale_count(after, links_after(links, link, step)) + 1 == stale_count(
                    before,
                    links,
                )
            },
        },
{
    reveal(run_holds);
    let ps = parents(before);
    let first = link.cluster1_index as int;
    let second = link.cluster2_index as int;
    assert(link_in_range(link, before.len()));
    assert(ps[first] == before[first].merged_into);
    assert(ps[second] == before[second].merged_into);
    lemma_root_is_root(ps, first);
    lemma_root_is_root(ps, second);
    match step {
        Step::Merge { src, dest } => {
            lemma_merge_consistent(before, after, src, dest, link.distance);
            lemma_merge_components(before, after, src, dest, links, origin, link);
            lemma_merge_ordered(before, after, src, dest, links, link);
        },
        Step::Refresh(fresh) => {
            lemma_replace_link(before, links, origin, link, fresh);
        },
        Step::Discard => {
            lemma_drop_link(before, links, origin, link);
        },
    }
}

/// When no link is pending in a run, the tree of a root holds one connected
/// component of the links that the run started with, and every row if those
/// links connect them all; and merge distances descend in it.
pub proof fn lemma_run_ends<S: ClusterSummary>(
    clusters: Seq<Cluster<S>>,
    links: Multiset<Link>,
    origin: Multiset<Link>,
    last: int,
)
    requires
        run_holds(clusters, links, origin),
        links.len() == 0,
        links_in_range(origin, clusters.len()),
        0 <= last < clusters.len(),
        clusters[last].merged_into is None,
    ensures
        clusters[last].dendrogram is Some,
        clusters[last].dendrogram.unwrap().well_formed(),
        forall|row: usize|
            clusters[last].dendrogram.unwrap().leaves().contains(row) ==> row < clusters.len(),
        is_component(clusters[last].dendrogram.unwrap().leaves(), origin),
        links_connect(origin, clusters.len()) ==> clusters[last].dendrogram.unwrap().spans_rows()
            && clusters[last].dendrogram.unwrap().size_spec() == clusters.len(),
        clusters[last].dendrogram.unwrap().distances_descend(),
{
    reveal(run_holds);
    vstd::multiset::lemma_multiset_empty_len(links);
    assert(links =~= Multiset::<Link>::empty());
    lemma_finish(clusters, origin, last);
    lemma_merges_ordered(clusters, links);
}

/// The link has recorded no larger sizes than its clusters have, as far as
/// they were not folded into others, and if it is fresh, its distance is the
/// distance that its clusters have.
pub open spec fn is_true_link<S: ClusterSummary>(clusters: Seq<Cluster<S>>, link: Link) -> bool {
    let first = clusters[link.cluster1_index as int];
    let second = clusters[link.cluster2_index as int];
    &&& first.merged_into is None ==> link.cluster1_summary_size <= first.summary.size_spec()
    &&& second.merged_into is None ==> link.cluster2_summary_size <= second.summary.size_spec()
    &&& is_fresh(clusters, link) ==> link.distance == first.summary.distance_spec(&second.summary)
}

/// Every link in the queue is true in this sense.
#[verifier::opaque]
pub open spec fn links_true<S: ClusterSummary>(
    clusters: Seq<Cluster<S>>,
    links: Multiset<Link>,
) -> bool {
    forall|link: Link| #[trigger] links.count(link) > 0 ==> is_true_link(clusters, link)
}

/// Where the links are true, two clusters are merged at the distance that
/// they have.
pub proof fn lemma_merged_at_their_distance<S: ClusterSummary>(
    clusters: Seq<Cluster<S>>,
    links: Multiset<Link>,
    link: Link,
)
    requires
        links_true(clusters, links),
        links.count(link) > 0,
        step_of(clusters, link) is Merge,
    ensures
        link.distance == clusters[link.cluster1_index as int].summary.distance_spec(
            &clusters[link.cluster2_index as int].summary,
        ),
{
    reveal(links_true);
    assert(is_true_link(clusters, link));
}

/// For summaries whose size tells whether they have changed, the links stay
/// true when one of them is taken from the queue and dealt with.
pub proof fn lemma_links_stay_true<S: ClusterSummary>(
    before: Seq<Cluster<S>>,
    after: Seq<Cluster<S>>,
    links: Multiset<Link>,
    link: Link,
    step: Step,
)
    requires
        size_tells::<S>(),
        links_true(before, links),
        links_in_range(links, before.len()),
        links.count(link) > 0,
        step == step_of(before, link),
        match step {
            Step::Merge { src, dest } => folded(before, after, src, dest, link.distance),
            Step::Refresh(fresh) => {
                &&& after == before
                &&& is_fresh(before, fresh)
                &&& fresh.distance == before[fresh.cluster1_index as int].summary.distance_spec(
                    &before[fresh.cluster2_index as int].summary,
                )
            },
            Step::Discard => after == before,
        },
    ensures
        links_true(after, links_after(links, link, step)),
{
    broadcast use vstd::multiset::group_multiset_axioms;

    reveal(links_true);
    reveal(size_tells);
    let next = links_after(links, link, step);
    assert(link_in_range(link, before.len()));
    match step {
        Step::Merge { src, dest } => {
            let grown = after[dest as int].summary;
            let held = before[dest as int].summary;
            assert(grown.includes(&held));
            assert forall|other: Link| #[trigger] next.count(other) > 0 implies is_true_link(
                after,
                other,
            ) by {
                assert(links.count(other) > 0);
                assert(link_in_range(other, before.len()));
                assert(is_true_link(before, other));
                let a = other.cluster1_index as int;
                let b = other.cluster2_index as int;
                if a != src && a != dest {
                    assert(after[a] == before[a]);
                }
                if b != src && b != dest {
                    assert(after[b] == before[b]);
                }
                if is_fresh(after, other) {
                    assert(a != src && b != src);
                    if a == dest {
                        assert(is_fresh(before, other));
                        assert(other.distance == held.distance_spec(&before[b].summary));
                    } else if b == dest {
                        assert(is_fresh(before, other));
                        assert(other.distance == before[a].summary.distance_spec(&held));
                    }
                }
            }
        },
        Step::Refresh(fresh) => {
            assert forall|other: Link| #[trigger] next.count(other) > 0 implies is_true_link(
                after,
                other,
            ) by {
                if other != fresh {
                    assert(links.count(other) > 0);
                }
            }
        },
        Step::Discard => {
            assert forall|other: Link| #[trigger] next.count(other) > 0 implies is_true_link(
                after,
                other,
            ) by {
                assert(links.count(other) > 0);
            }
        },
    }
}

/// What holds throughout a run makes its states sound.
pub proof fn lemma_run_is_sound<S: ClusterSummary>(
    clusters: Seq<Cluster<S>>,
    links: Multiset<Link>,
    origin: Multiset<Link>,
)
    requires
        run_holds(clusters, links, origin),
    ensures
        consistent(clusters),
        links_in_range(links, clusters.len()),
{
    reveal(run_holds);
}

} // verus!
