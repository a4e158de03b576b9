use crate::cluster::Cluster;
use vstd::prelude::*;

verus! {

/// For each cluster, the cluster that it was folded into, if it was.
pub open spec fn parents<S>(clusters: Seq<Cluster<S>>) -> Seq<Option<usize>> {
    Seq::new(clusters.len(), |i: int| clusters[i].merged_into)
}

/// `rank` gives every cluster a larger number than the cluster that it was
/// folded into.
pub open spec fn ranked(parents: Seq<Option<usize>>, rank: Seq<nat>) -> bool {
    &&& rank.len() == parents.len()
    &&& forall|i: int|
        0 <= i < parents.len() ==> match #[trigger] parents[i] {
            None => true,
            Some(p) => p < parents.len() && rank[p as int] < rank[i],
        }
}

/// Following `merged_into` from any cluster stays within the clusters and
/// comes to an end.
pub open spec fn is_forest(parents: Seq<Option<usize>>) -> bool {
    exists|rank: Seq<nat>| ranked(parents, rank)
}

/// One such ranking, where there is one.
pub open spec fn some_rank(parents: Seq<Option<usize>>) -> Seq<nat> {
    choose|rank: Seq<nat>| ranked(parents, rank)
}

/// The cluster that `i` has ended up in: the one reached from `i` by
/// following `merged_into` until a cluster that was not folded into another.
pub open spec fn root_of(parents: Seq<Option<usize>>, i: int) -> int
    decreases some_rank(parents)[i],
    when is_forest(parents) && 0 <= i < parents.len()
{
    match parents[i] {
        None => i,
        Some(p) => root_of(parents, p as int),
    }
}

/// The number of clusters that were not folded into another.
pub open spec fn root_count(parents: Seq<Option<usize>>) -> nat
    decreases parents.len(),
{
    if parents.len() == 0 {
        0
    } else {
        root_count(parents.drop_last()) + if parents.last() is None {
            1nat
        } else {
            0nat
        }
    }
}

/// Where no cluster was folded into another, every cluster is its own root.
pub proof fn lemma_all_roots(parents: Seq<Option<usize>>)
    requires
        forall|i: int| 0 <= i < parents.len() ==> parents[i] is None,
    ensures
        is_forest(parents),
        forall|i: int| 0 <= i < parents.len() ==> root_of(parents, i) == i,
{
    let rank = Seq::new(parents.len(), |i: int| 0nat);
    assert(ranked(parents, rank));
}

/// The root of a cluster is a cluster that was not folded into another.
pub proof fn lemma_root_is_root(parents: Seq<Option<usize>>, i: int)
    requires
        is_forest(parents),
        0 <= i < parents.len(),
    ensures
        0 <= root_of(parents, i) < parents.len(),
        parents[root_of(parents, i)] is None,
        root_of(parents, root_of(parents, i)) == root_of(parents, i),
    decreases some_rank(parents)[i],
{
    match parents[i] {
        None => {},
        Some(p) => {
            lemma_root_is_root(parents, p as int);
        },
    }
}

/// Folding one root into another keeps the forest, and sends to `dest`
/// exactly the clusters whose root was `src`.
pub proof fn lemma_fold(parents: Seq<Option<usize>>, src: usize, dest: usize)
    requires
        is_forest(parents),
        0 <= src < parents.len(),
        0 <= dest < parents.len(),
        src != dest,
        parents[src as int] is None,
        parents[dest as int] is None,
    ensures
        is_forest(parents.update(src as int, Some(dest))),
        forall|i: int|
            0 <= i < parents.len() ==> #[trigger] root_of(
                parents.update(src as int, Some(dest)),
                i,
            ) == if root_of(parents, i) == src {
                dest as int
            } else {
                root_of(parents, i)
            },
{
    let folded = parents.update(src as int, Some(dest));
    let rank = some_rank(parents);
    let shifted = Seq::new(
        parents.len(),
        |i: int|
            if i == dest {
                rank[i]
            } else {
                (rank[i] + rank[dest as int] + 1) as nat
            },
    );
    assert(ranked(folded, shifted)) by {
        assert forall|i: int| 0 <= i < folded.len() implies match #[trigger] folded[i] {
            None => true,
            Some(p) => p < folded.len() && shifted[p as int] < shifted[i],
        } by {
            if i != src {
                assert(folded[i] == parents[i]);
            }
        }
    }
    assert forall|i: int| 0 <= i < parents.len() implies #[trigger] root_of(folded, i)
        == if root_of(parents, i) == src {
        dest as int
    } else {
        root_of(parents, i)
    } by {
        lemma_fold_root(parents, src, dest, i);
    }
}

proof fn lemma_fold_root(parents: Seq<Option<usize>>, src: usize, dest: usize, i: int)
    requires
        is_forest(parents),
        is_forest(parents.update(src as int, Some(dest))),
        0 <= src < parents.len(),
        0 <= dest < parents.len(),
        src != dest,
        parents[src as int] is None,
        parents[dest as int] is None,
        0 <= i < parents.len(),
    ensures
        root_of(parents.update(src as int, Some(dest)), i) == if root_of(parents, i) == src {
            dest as int
        } else {
            root_of(parents, i)
        },
    decreases some_rank(parents)[i],
{
    let folded = parents.update(src as int, Some(dest));
    match parents[i] {
        None => {
            if i == src {
                assert(folded[dest as int] is None);
                assert(root_of(folded, dest as int) == dest);
                assert(root_of(folded, src as int) == root_of(folded, dest as int));
            } else {
                assert(folded[i] is None);
            }
        },
        Some(p) => {
            assert(folded[i] == parents[i]);
            lemma_fold_root(parents, src, dest, p as int);
        },
    }
}

proof fn lemma_root_count_update(parents: Seq<Option<usize>>, i: int, p: usize)
    requires
        0 <= i < parents.len(),
        parents[i] is None,
    ensures
        root_count(parents.update(i, Some(p))) + 1 == root_count(parents),
    decreases parents.len(),
{
    let updated = parents.update(i, Some(p));
    if i == parents.len() - 1 {
        assert(updated.drop_last() =~= parents.drop_last());
    } else {
        assert(updated.drop_last() =~= parents.drop_last().update(i, Some(p)));
        lemma_root_count_update(parents.drop_last(), i, p);
    }
}

/// Folding a root into another cluster leaves one root fewer.
pub proof fn lemma_fold_root_count(parents: Seq<Option<usize>>, src: usize, dest: usize)
    requires
        src < parents.len(),
        parents[src as int] is None,
    ensures
        root_count(parents.update(src as int, Some(dest))) + 1 == root_count(parents),
{
    lemma_root_count_update(parents, src as int, dest);
}

} // verus!
