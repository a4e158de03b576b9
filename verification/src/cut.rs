use crate::dendrogram::Dendrogram;
use crate::rows::all_rows;
use vstd::prelude::*;

verus! {

impl Dendrogram {
    /// The clusters into which the tree falls when no cluster may hold more
    /// than `max_cluster_size` rows: every subtree that is small enough, and
    /// not part of another that is, gives one cluster, and so does every leaf
    /// that is left. The clusters stand in the order in which they are
    /// numbered, those of a right subtree before those of the left.
    pub open spec fn cut(self, max_cluster_size: usize) -> Seq<Seq<usize>>
        decreases self,
    {
        match self {
            Dendrogram::Leaf(row) => seq![seq![row]],
            Dendrogram::Node(left, right, _, size) => if size > max_cluster_size {
                right.cut(max_cluster_size) + left.cut(max_cluster_size)
            } else {
                seq![self.leaves()]
            },
        }
    }
}

/// The number of nodes in all the trees on a stack.
pub open spec fn stack_nodes(stack: Seq<&Dendrogram>) -> nat
    decreases stack.len(),
{
    if stack.len() == 0 {
        0
    } else {
        stack.last().node_count() + stack_nodes(stack.drop_last())
    }
}

/// One of the trees on the stack has the row at a leaf.
pub open spec fn on_stack(stack: Seq<&Dendrogram>, row: usize) -> bool {
    exists|k: int| 0 <= k < stack.len() && (#[trigger] stack[k]).leaves().contains(row)
}

/// The clusters that the trees on a stack will give, the top of the stack
/// first.
pub open spec fn pending_cut(stack: Seq<&Dendrogram>, max_cluster_size: usize) -> Seq<Seq<usize>>
    decreases stack.len(),
{
    if stack.len() == 0 {
        seq![]
    } else {
        stack.last().cut(max_cluster_size) + pending_cut(stack.drop_last(), max_cluster_size)
    }
}

proof fn lemma_stack_push(stack: Seq<&Dendrogram>, tree: &Dendrogram, max_cluster_size: usize)
    ensures
        stack_nodes(stack.push(tree)) == stack_nodes(stack) + tree.node_count(),
        pending_cut(stack.push(tree), max_cluster_size) == tree.cut(max_cluster_size) + pending_cut(
            stack,
            max_cluster_size,
        ),
{
    assert(stack.push(tree).drop_last() == stack);
}

/// Gives every row of the tree the number `cluster_n`. `stack` is a buffer
/// for the walk; it is emptied first and left empty.
pub fn assign_rows_to<'a>(
    cluster_n: usize,
    dendrogram: &'a Dendrogram,
    assigments: &mut Vec<usize>,
    stack: &mut Vec<&'a Dendrogram>,
)
    requires
        forall|row: usize| dendrogram.leaves().contains(row) ==> row < old(assigments).len(),
    ensures
        final(assigments).len() == old(assigments).len(),
        forall|i: int|
            0 <= i < old(assigments).len() ==> #[trigger] final(assigments)[i]
                == if dendrogram.leaves().contains(i as usize) {
                cluster_n
            } else {
                old(assigments)[i]
            },
        final(stack)@.len() == 0,
{
    stack.clear();
    stack.push(dendrogram);
    proof {
        assert(stack@[0] == dendrogram);
        assert forall|row: usize| dendrogram.leaves().contains(row) implies on_stack(
            stack@,
            row,
        ) by {
            assert(stack@[0].leaves().contains(row));
        }
    }
    while stack.len() > 0
        invariant
            assigments.len() == old(assigments).len(),
            forall|row: usize| dendrogram.leaves().contains(row) ==> row < assigments.len(),
            forall|k: int, row: usize|
                0 <= k < stack@.len() && (#[trigger] stack@[k]).leaves().contains(row)
                    ==> #[trigger] dendrogram.leaves().contains(row),
            forall|i: int|
                0 <= i < assigments.len() && !dendrogram.leaves().contains(i as usize)
                    ==> #[trigger] assigments[i] == old(assigments)[i],
            forall|row: usize| #[trigger]
                dendrogram.leaves().contains(row) ==> assigments[row as int] == cluster_n
                    || on_stack(stack@, row),
        decreases stack_nodes(stack@),
    {
        let ghost below = stack@.drop_last();
        let ghost walked = stack@;
        let current = stack.pop().unwrap();
        assert(stack@ == below);
        assert(walked[walked.len() - 1] == current);
        match current {
            Dendrogram::Leaf(row_index) => {
                assert(current.leaves() =~= seq![*row_index]);
                assert(current.leaves()[0] == *row_index);
                assert(dendrogram.leaves().contains(*row_index));
                assigments[*row_index] = cluster_n;
                proof {
                    assert forall|row: usize| #[trigger]
                        dendrogram.leaves().contains(row) implies assigments[row as int]
                        == cluster_n || on_stack(stack@, row) by {
                        if row != *row_index && on_stack(walked, row) {
                            let k = choose|k: int|
                                0 <= k < walked.len() && (#[trigger] walked[k]).leaves().contains(
                                    row,
                                );
                            assert(k < below.len());
                            assert(below[k] == walked[k]);
                        }
                    }
                    assert forall|k: int, row: usize|
                        0 <= k < stack@.len() && (#[trigger] stack@[k]).leaves().contains(
                            row,
                        ) implies #[trigger] dendrogram.leaves().contains(row) by {
                        assert(walked[k] == stack@[k]);
                    }
                }
            },
            Dendrogram::Node(cluster1, cluster2, _, _) => {
                proof {
                    lemma_stack_push(below, &**cluster1, 0);
                    lemma_stack_push(below.push(&**cluster1), &**cluster2, 0);
                }
                stack.push(cluster1);
                stack.push(cluster2);
                proof {
                    let grown = stack@;
                    assert(current.leaves() == cluster1.leaves() + cluster2.leaves());
                    assert forall|k: int, row: usize|
                        0 <= k < grown.len() && (#[trigger] grown[k]).leaves().contains(
                            row,
                        ) implies #[trigger] dendrogram.leaves().contains(row) by {
                        if k < below.len() {
                            assert(walked[k] == grown[k]);
                        } else {
                            let j = choose|j: int|
                                0 <= j < grown[k].leaves().len() && grown[k].leaves()[j] == row;
                            if k == below.len() {
                                assert(current.leaves()[j] == row);
                            } else {
                                assert(current.leaves()[cluster1.leaves().len() + j] == row);
                            }
                            assert(walked[walked.len() - 1].leaves().contains(row));
                        }
                    }
                    assert forall|row: usize| #[trigger]
                        dendrogram.leaves().contains(row) implies assigments[row as int]
                        == cluster_n || on_stack(grown, row) by {
                        if on_stack(walked, row) {
                            let k = choose|k: int|
                                0 <= k < walked.len() && (#[trigger] walked[k]).leaves().contains(
                                    row,
                                );
                            if k < below.len() {
                                assert(grown[k] == walked[k]);
                            } else {
                                let j = choose|j: int|
                                    0 <= j < current.leaves().len() && current.leaves()[j] == row;
                                if j < cluster1.leaves().len() {
                                    assert(cluster1.leaves()[j] == row);
                                    assert(grown[below.len() as int].leaves().contains(row));
                                } else {
                                    assert(cluster2.leaves()[j - cluster1.leaves().len()] == row);
                                    assert(grown[below.len() as int + 1].leaves().contains(row));
                                }
                            }
                        }
                    }
                }
            },
        }
    }
    proof {
        assert forall|i: int| 0 <= i < old(assigments).len() implies #[trigger] assigments[i]
            == if dendrogram.leaves().contains(i as usize) {
            cluster_n
        } else {
            old(assigments)[i]
        } by {
            if dendrogram.leaves().contains(i as usize) {
                assert(!on_stack(stack@, i as usize));
            }
        }
    }
}

/// The number of rows in all the clusters.
pub open spec fn total_rows(clusters: Seq<Seq<usize>>) -> nat
    decreases clusters.len(),
{
    if clusters.len() == 0 {
        0
    } else {
        total_rows(clusters.drop_last()) + clusters.last().len()
    }
}

proof fn lemma_total_rows_add(first: Seq<Seq<usize>>, second: Seq<Seq<usize>>)
    ensures
        total_rows(first + second) == total_rows(first) + total_rows(second),
    decreases second.len(),
{
    if second.len() == 0 {
        assert(first + second =~= first);
    } else {
        assert((first + second).drop_last() =~= first + second.drop_last());
        assert((first + second).last() == second.last());
        lemma_total_rows_add(first, second.drop_last());
    }
}

proof fn lemma_total_rows_one(cluster: Seq<usize>)
    ensures
        total_rows(seq![cluster]) == cluster.len(),
{
    let one = seq![cluster];
    assert(one.drop_last() =~= Seq::<Seq<usize>>::empty());
    assert(total_rows(one.drop_last()) == 0);
    assert(one.last() == cluster);
}

/// One of the first `upto` clusters holds the row.
pub open spec fn numbered(clusters: Seq<Seq<usize>>, upto: int, row: usize) -> bool {
    exists|k: int| 0 <= k < upto && k < clusters.len() && (#[trigger] clusters[k]).contains(row)
}

/// The clusters of a cut hold the rows of the tree and no others, none of
/// them is empty, and together they hold as many rows as the tree has
/// leaves.
pub proof fn lemma_cut_covers(tree: Dendrogram, max_cluster_size: usize)
    ensures
        tree.cut(max_cluster_size).len() >= 1,
        forall|k: int|
            0 <= k < tree.cut(max_cluster_size).len() ==> (#[trigger] tree.cut(
                max_cluster_size,
            )[k]).len() >= 1,
        forall|row: usize|
            #![trigger tree.leaves().contains(row)]
            #![trigger numbered(
                tree.cut(max_cluster_size),
                tree.cut(max_cluster_size).len() as int,
                row,
            )]
            tree.leaves().contains(row) <==> numbered(
                tree.cut(max_cluster_size),
                tree.cut(max_cluster_size).len() as int,
                row,
            ),
        total_rows(tree.cut(max_cluster_size)) == tree.leaves().len(),
        tree.cut(max_cluster_size).len() <= tree.leaves().len(),
    decreases tree,
{
    let parts = tree.cut(max_cluster_size);
    match tree {
        Dendrogram::Leaf(row) => {
            assert(parts[0] == tree.leaves());
            lemma_total_rows_one(tree.leaves());
            assert forall|row: usize|
                #![trigger tree.leaves().contains(row)]
                #![trigger numbered(parts, parts.len() as int, row)]
                tree.leaves().contains(row) <==> numbered(parts, parts.len() as int, row) by {
                if tree.leaves().contains(row) {
                    assert(parts[0].contains(row));
                }
            }
        },
        Dendrogram::Node(left, right, _, size) => {
            if size > max_cluster_size {
                let first = right.cut(max_cluster_size);
                let second = left.cut(max_cluster_size);
                lemma_cut_covers(*left, max_cluster_size);
                lemma_cut_covers(*right, max_cluster_size);
                lemma_total_rows_add(first, second);
                assert forall|k: int| 0 <= k < parts.len() implies (#[trigger] parts[k]).len()
                    >= 1 by {
                    if k < first.len() {
                        assert(parts[k] == first[k]);
                    } else {
                        assert(parts[k] == second[k - first.len()]);
                    }
                }
                assert forall|row: usize|
                    #![trigger tree.leaves().contains(row)]
                    #![trigger numbered(parts, parts.len() as int, row)]
                    tree.leaves().contains(row) <==> numbered(parts, parts.len() as int, row) by {
                    if tree.leaves().contains(row) {
                        let j = choose|j: int|
                            0 <= j < tree.leaves().len() && tree.leaves()[j] == row;
                        if j < left.leaves().len() {
                            assert(left.leaves()[j] == row);
                            assert(left.leaves().contains(row));
                            let k = choose|k: int|
                                0 <= k < second.len() && k < second.len() && (
                                #[trigger] second[k]).contains(row);
                            assert(parts[first.len() + k] == second[k]);
                        } else {
                            assert(right.leaves()[j - left.leaves().len()] == row);
                            assert(right.leaves().contains(row));
                            let k = choose|k: int|
                                0 <= k < first.len() && k < first.len() && (
                                #[trigger] first[k]).contains(row);
                            assert(parts[k] == first[k]);
                        }
                    }
                    if numbered(parts, parts.len() as int, row) {
                        let k = choose|k: int|
                            0 <= k < parts.len() && k < parts.len() && (
                            #[trigger] parts[k]).contains(row);
                        if k < first.len() {
                            assert(parts[k] == first[k]);
                            assert(numbered(first, first.len() as int, row));
                            let j = choose|j: int|
                                0 <= j < right.leaves().len() && right.leaves()[j] == row;
                            assert(tree.leaves()[left.leaves().len() + j] == row);
                        } else {
                            assert(parts[k] == second[k - first.len()]);
                            assert(numbered(second, second.len() as int, row));
                            let j = choose|j: int|
                                0 <= j < left.leaves().len() && left.leaves()[j] == row;
                            assert(tree.leaves()[j] == row);
                        }
                    }
                }
            } else {
                assert(parts[0] == tree.leaves());
                lemma_total_rows_one(tree.leaves());
                assert(left.leaves().len() >= 1) by {
                    lemma_cut_covers(*left, max_cluster_size);
                }
                assert forall|row: usize|
                    #![trigger tree.leaves().contains(row)]
                    #![trigger numbered(parts, parts.len() as int, row)]
                    tree.leaves().contains(row) <==> numbered(parts, parts.len() as int, row) by {
                    if tree.leaves().contains(row) {
                        assert(parts[0].contains(row));
                    }
                }
            }
        },
    }
}

/// In the cut of a tree in which no row occurs twice, no cluster holds a row
/// twice and no two clusters share a row.
pub proof fn lemma_cut_disjoint(tree: Dendrogram, max_cluster_size: usize)
    requires
        tree.leaves().no_duplicates(),
    ensures
        forall|k: int|
            0 <= k < tree.cut(max_cluster_size).len() ==> (#[trigger] tree.cut(
                max_cluster_size,
            )[k]).no_duplicates(),
        forall|k: int, j: int, row: usize|
            0 <= k < tree.cut(max_cluster_size).len() && 0 <= j < tree.cut(max_cluster_size).len()
                && #[trigger] tree.cut(max_cluster_size)[k].contains(row) && #[trigger] tree.cut(
                max_cluster_size,
            )[j].contains(row) ==> k == j,
    decreases tree,
{
    let parts = tree.cut(max_cluster_size);
    match tree {
        Dendrogram::Leaf(row) => {},
        Dendrogram::Node(left, right, _, size) => {
            if size > max_cluster_size {
                let first = right.cut(max_cluster_size);
                let second = left.cut(max_cluster_size);
                let all = tree.leaves();
                let offset = left.leaves().len() as int;
                assert forall|i: int, j: int|
                    0 <= i < left.leaves().len() && 0 <= j < left.leaves().len() && i
                        != j implies left.leaves()[i] != left.leaves()[j] by {
                    assert(all[i] == left.leaves()[i] && all[j] == left.leaves()[j]);
                }
                assert forall|i: int, j: int|
                    0 <= i < right.leaves().len() && 0 <= j < right.leaves().len() && i
                        != j implies right.leaves()[i] != right.leaves()[j] by {
                    assert(all[offset + i] == right.leaves()[i] && all[offset + j]
                        == right.leaves()[j]);
                }
                lemma_cut_disjoint(*left, max_cluster_size);
                lemma_cut_disjoint(*right, max_cluster_size);
                lemma_cut_covers(*left, max_cluster_size);
                lemma_cut_covers(*right, max_cluster_size);
                assert forall|k: int| 0 <= k < parts.len() implies (
                #[trigger] parts[k]).no_duplicates() by {
                    if k < first.len() {
                        assert(parts[k] == first[k]);
                    } else {
                        assert(parts[k] == second[k - first.len()]);
                    }
                }
                assert forall|k: int, j: int, row: usize|
                    0 <= k < parts.len() && 0 <= j < parts.len() && #[trigger] parts[k].contains(
                        row,
                    ) && #[trigger] parts[j].contains(row) implies k == j by {
                    if k < first.len() {
                        assert(parts[k] == first[k]);
                        assert(numbered(first, first.len() as int, row));
                    } else {
                        assert(parts[k] == second[k - first.len()]);
                        assert(numbered(second, second.len() as int, row));
                    }
                    if j < first.len() {
                        assert(parts[j] == first[j]);
                        assert(numbered(first, first.len() as int, row));
                    } else {
                        assert(parts[j] == second[j - first.len()]);
                        assert(numbered(second, second.len() as int, row));
                    }
                    if left.leaves().contains(row) && right.leaves().contains(row) {
                        let x = choose|x: int|
                            0 <= x < left.leaves().len() && left.leaves()[x] == row;
                        let y = choose|y: int|
                            0 <= y < right.leaves().len() && right.leaves()[y] == row;
                        assert(all[x] == row && all[offset + y] == row);
                    }
                }
            } else {
                assert(parts[0] == tree.leaves());
            }
        },
    }
}

/// Where the sizes of a tree add up, no cluster of a cut holds more rows
/// than allowed, but for the single rows that are left where none at all
/// are allowed.
pub proof fn lemma_cut_sizes(tree: Dendrogram, max_cluster_size: usize)
    requires
        tree.sizes_add_up(),
    ensures
        forall|k: int|
            0 <= k < tree.cut(max_cluster_size).len() ==> (#[trigger] tree.cut(
                max_cluster_size,
            )[k]).len() <= max_cluster_size || tree.cut(max_cluster_size)[k].len() == 1,
    decreases tree,
{
    let parts = tree.cut(max_cluster_size);
    match tree {
        Dendrogram::Leaf(row) => {},
        Dendrogram::Node(left, right, _, size) => {
            if size > max_cluster_size {
                let first = right.cut(max_cluster_size);
                let second = left.cut(max_cluster_size);
                lemma_cut_sizes(*left, max_cluster_size);
                lemma_cut_sizes(*right, max_cluster_size);
                assert forall|k: int| 0 <= k < parts.len() implies (#[trigger] parts[k]).len()
                    <= max_cluster_size || parts[k].len() == 1 by {
                    if k < first.len() {
                        assert(parts[k] == first[k]);
                    } else {
                        assert(parts[k] == second[k - first.len()]);
                    }
                }
            } else {
                tree.lemma_size_is_leaf_count();
            }
        },
    }
}

/// The buffer as a cut starts from it: what the caller handed in, made as
/// long as the tree is large with entries that stand for no cluster.
pub open spec fn padded(given: Seq<usize>, size: nat) -> Seq<usize> {
    Seq::new(
        if given.len() < size {
            size
        } else {
            given.len()
        },
        |i: int|
            if i < given.len() {
                given[i]
            } else {
                usize::MAX
            },
    )
}

/// Gives every row a cluster number, such that no cluster holds more than
/// `max_cluster_size` rows, and returns the number of clusters.
///
/// The number of the cluster of row `r` is written to `assignments[r]`. The
/// vector is passed in so that it can be used again across calls; it is made
/// longer if it is shorter than the tree is large. Entries that belong to no
/// row of the tree stay as they are.
pub fn assign_rows_to_clusters(
    dendrogram: &Dendrogram,
    assignments: &mut Vec<usize>,
    max_cluster_size: usize,
) -> (count: usize)
    requires
        dendrogram.well_formed(),
        forall|row: usize|
            dendrogram.leaves().contains(row) ==> row < old(assignments).len() || row
                < dendrogram.size_spec(),
    ensures
        count == dendrogram.cut(max_cluster_size).len(),
        final(assignments)@.len() == padded(old(assignments)@, dendrogram.size_spec()).len(),
        forall|k: int, row: usize|
            0 <= k < dendrogram.cut(max_cluster_size).len() && #[trigger] dendrogram.cut(
                max_cluster_size,
            )[k].contains(row) ==> row < final(assignments).len()
                && final(assignments)[row as int] == k,
        forall|i: int|
            0 <= i < final(assignments).len() && !dendrogram.leaves().contains(i as usize)
                ==> #[trigger] final(assignments)[i] == padded(
                old(assignments)@,
                dendrogram.size_spec(),
            )[i],
{
    if dendrogram.size() > assignments.len() {
        assignments.resize(dendrogram.size(), usize::MAX);
    }
    let ghost base = padded(old(assignments)@, dendrogram.size_spec());
    let ghost parts = dendrogram.cut(max_cluster_size);
    assert(assignments@ =~= base) by {
        if dendrogram.size_spec() > old(assignments).len() {
            assert forall|i: int| 0 <= i < base.len() implies assignments@[i] == base[i] by {
                if i < old(assignments).len() {
                    assert(assignments@.subrange(0, old(assignments).len() as int)[i] == old(
                        assignments,
                    )@[i]);
                }
            }
        }
    }
    let mut cluster_n: usize = 0;
    let mut stack: Vec<&Dendrogram> = Vec::new();
    let mut same_cluster_stack: Vec<&Dendrogram> = Vec::new();
    stack.push(dendrogram);
    proof {
        lemma_cut_covers(*dendrogram, max_cluster_size);
        lemma_cut_disjoint(*dendrogram, max_cluster_size);
        dendrogram.lemma_size_is_leaf_count();
        lemma_stack_push(Seq::empty(), dendrogram, max_cluster_size);
        assert(Seq::<&Dendrogram>::empty().push(dendrogram) == stack@);
        assert(parts.subrange(0, parts.len() as int) =~= parts);
        assert(parts + Seq::<Seq<usize>>::empty() =~= parts);
    }
    while stack.len() > 0
        invariant
            parts == dendrogram.cut(max_cluster_size),
            parts.len() <= dendrogram.leaves().len() == dendrogram.size_spec() <= usize::MAX,
            forall|row: usize|
                #![trigger dendrogram.leaves().contains(row)]
                #![trigger numbered(parts, parts.len() as int, row)]
                dendrogram.leaves().contains(row) <==> numbered(parts, parts.len() as int, row),
            forall|k: int, j: int, row: usize|
                0 <= k < parts.len() && 0 <= j < parts.len() && #[trigger] parts[k].contains(row)
                    && #[trigger] parts[j].contains(row) ==> k == j,
            forall|row: usize| dendrogram.leaves().contains(row) ==> row < assignments.len(),
            assignments.len() == base.len(),
            0 <= cluster_n <= parts.len(),
            parts.subrange(cluster_n as int, parts.len() as int) == pending_cut(
                stack@,
                max_cluster_size,
            ),
            forall|k: int, row: usize|
                0 <= k < cluster_n && #[trigger] parts[k].contains(row) ==> row < assignments.len()
                    && assignments[row as int] == k,
            forall|i: int|
                0 <= i < assignments.len() && !numbered(parts, cluster_n as int, i as usize)
                    ==> #[trigger] assignments[i] == base[i],
        decreases stack_nodes(stack@),
    {
        let ghost below = stack@.drop_last();
        let ghost walked = stack@;
        let ghost before = assignments@;
        let ghost rest = parts.subrange(cluster_n as int, parts.len() as int);
        let current = stack.pop().unwrap();
        assert(stack@ == below);
        assert(walked.last() == current);
        assert(rest == current.cut(max_cluster_size) + pending_cut(below, max_cluster_size));
        proof {
            lemma_cut_covers(*current, max_cluster_size);
            assert(rest.len() >= 1);
            assert(rest[0] == parts[cluster_n as int]);
        }
        let ghost number = cluster_n;
        match current {
            Dendrogram::Leaf(row_index) => {
                proof {
                    assert(current.cut(max_cluster_size)[0] == seq![*row_index]);
                    assert(rest[0] == seq![*row_index]);
                    assert(parts[cluster_n as int] == seq![*row_index]);
                    assert(seq![*row_index][0] == *row_index);
                    assert(parts[cluster_n as int].contains(*row_index));
                    assert(numbered(parts, parts.len() as int, *row_index));
                    assert(dendrogram.leaves().contains(*row_index));
                }
                assignments[*row_index] = cluster_n;
                cluster_n += 1;
                proof {
                    assert(parts.subrange(cluster_n as int, parts.len() as int) =~= rest.subrange(
                        1,
                        rest.len() as int,
                    ));
                    assert(rest.subrange(1, rest.len() as int) =~= pending_cut(
                        below,
                        max_cluster_size,
                    ));
                    lemma_numbered_next(parts, cluster_n - 1);
                    assert forall|k: int, row: usize|
                        0 <= k < cluster_n && #[trigger] parts[k].contains(
                            row,
                        ) implies row < assignments.len() && assignments[row as int] == k by {
                        assert(numbered(parts, parts.len() as int, row));
                        if k == number {
                            let j = choose|j: int|
                                0 <= j < parts[k].len() && parts[k][j] == row;
                            assert(row == *row_index);
                        } else {
                            assert(row != *row_index);
                        }
                    }
                }
            },
            Dendrogram::Node(cluster1, cluster2, _, size) => {
                if *size > max_cluster_size {
                    // dive deeper
                    proof {
                        lemma_stack_push(below, &**cluster1, max_cluster_size);
                        lemma_stack_push(below.push(&**cluster1), &**cluster2, max_cluster_size);
                        assert(cluster2.cut(max_cluster_size) + (cluster1.cut(max_cluster_size)
                            + pending_cut(below, max_cluster_size)) =~= rest);
                    }
                    stack.push(cluster1);
                    stack.push(cluster2);
                } else {
                    proof {
                        assert(current.cut(max_cluster_size)[0] == current.leaves());
                        assert(rest[0] == current.leaves());
                        assert(parts[cluster_n as int] == current.leaves());
                        assert forall|row: usize|
                            current.leaves().contains(row) implies row < assignments.len() by {
                            assert(parts[cluster_n as int].contains(row));
                            assert(numbered(parts, parts.len() as int, row));
                            assert(dendrogram.leaves().contains(row));
                        }
                    }
                    assign_rows_to(cluster_n, current, assignments, &mut same_cluster_stack);
                    cluster_n += 1;
                    proof {
                        assert(parts.subrange(cluster_n as int, parts.len() as int)
                            =~= rest.subrange(1, rest.len() as int));
                        assert(rest.subrange(1, rest.len() as int) =~= pending_cut(
                            below,
                            max_cluster_size,
                        ));
                        lemma_numbered_next(parts, cluster_n - 1);
                        assert forall|k: int, row: usize|
                            0 <= k < cluster_n && #[trigger] parts[k].contains(
                                row,
                            ) implies row < assignments.len() && assignments[row as int] == k by {
                            assert(numbered(parts, parts.len() as int, row));
                            if k != number {
                                assert(!parts[number as int].contains(row));
                            }
                        }
                    }
                }
            },
        }
    }
    proof {
        assert(pending_cut(stack@, max_cluster_size).len() == 0);
        assert(parts.subrange(cluster_n as int, parts.len() as int).len() == 0);
    }
    cluster_n
}

/// A row is in one of the first `upto + 1` clusters if it is in one of the
/// first `upto` or in the one that follows them.
proof fn lemma_numbered_next(clusters: Seq<Seq<usize>>, upto: int)
    requires
        0 <= upto < clusters.len(),
    ensures
        forall|row: usize| #[trigger]
            numbered(clusters, upto + 1, row) <==> numbered(clusters, upto, row)
                || clusters[upto].contains(row),
{
    assert forall|row: usize| #[trigger]
        numbered(clusters, upto + 1, row) <==> numbered(clusters, upto, row)
            || clusters[upto].contains(row) by {
        if numbered(clusters, upto, row) {
            let k = choose|k: int|
                0 <= k < upto && k < clusters.len() && (#[trigger] clusters[k]).contains(row);
            assert(clusters[k].contains(row));
        }
        if clusters[upto].contains(row) {
            assert(numbered(clusters, upto + 1, row));
        }
    }
}

/// Every row is smaller than the rows after it.
pub open spec fn is_ascending(rows: Seq<usize>) -> bool {
    forall|i: int, j: int| 0 <= i < j < rows.len() ==> rows[i] < rows[j]
}

/// `listing` holds the rows of `cluster`, each once, in ascending order.
pub open spec fn is_listing(listing: Seq<usize>, cluster: Seq<usize>) -> bool {
    &&& is_ascending(listing)
    &&& forall|row: usize| listing.contains(row) <==> cluster.contains(row)
}

/// `clusters` are the clusters of the cut of the tree, in their order, each
/// with its rows in ascending order.
pub open spec fn lists_cut(
    tree: Dendrogram,
    max_cluster_size: usize,
    clusters: Seq<Seq<usize>>,
) -> bool {
    &&& clusters.len() == tree.cut(max_cluster_size).len()
    &&& forall|k: int|
        0 <= k < clusters.len() ==> is_listing(
            #[trigger] clusters[k],
            tree.cut(max_cluster_size)[k],
        )
}

/// The rows that each of the vectors holds.
pub open spec fn row_lists(clusters: Seq<Vec<usize>>) -> Seq<Seq<usize>> {
    Seq::new(clusters.len(), |k: int| clusters[k]@)
}

/// Cuts the tree into clusters of at most `max_cluster_size` rows, and
/// returns the rows of each cluster, in ascending order.
pub fn find_clusters(dendrogram: &Dendrogram, max_cluster_size: usize) -> (clusters: Vec<
    Vec<usize>,
>)
    requires
        dendrogram.spans_rows(),
    ensures
        lists_cut(*dendrogram, max_cluster_size, row_lists(clusters@)),
        is_partition(row_lists(clusters@), dendrogram.size_spec(), max_cluster_size),
        max_cluster_size >= dendrogram.size_spec() ==> row_lists(clusters@) == seq![
            all_rows(dendrogram.size_spec()),
        ],
{
    let n_rows = dendrogram.size();
    let mut assignments = vec![usize::MAX; n_rows];
    let num_clusters = assign_rows_to_clusters(dendrogram, &mut assignments, max_cluster_size);
    let ghost parts = dendrogram.cut(max_cluster_size);
    let mut clusters: Vec<Vec<usize>> = Vec::new();
    let mut k: usize = 0;
    while k < num_clusters
        invariant
            0 <= k <= num_clusters,
            clusters.len() == k,
            forall|j: int| 0 <= j < k ==> (#[trigger] clusters[j])@.len() == 0,
        decreases num_clusters - k,
    {
        clusters.push(Vec::new());
        k += 1;
    }
    proof {
        lemma_cut_covers(*dendrogram, max_cluster_size);
        lemma_cut_disjoint(*dendrogram, max_cluster_size);
    }
    let mut row_idx: usize = 0;
    while row_idx < n_rows
        invariant
            parts == dendrogram.cut(max_cluster_size),
            dendrogram.spans_rows(),
            n_rows == dendrogram.size_spec(),
            assignments.len() == n_rows,
            0 <= row_idx <= n_rows,
            clusters.len() == num_clusters == parts.len(),
            forall|row: usize|
                #![trigger dendrogram.leaves().contains(row)]
                #![trigger numbered(parts, parts.len() as int, row)]
                dendrogram.leaves().contains(row) <==> numbered(parts, parts.len() as int, row),
            forall|j: int, row: usize|
                0 <= j < parts.len() && #[trigger] parts[j].contains(row) ==> row
                    < assignments.len() && assignments[row as int] == j,
            forall|j: int| 0 <= j < clusters.len() ==> is_ascending((#[trigger] clusters[j])@),
            forall|j: int, row: usize|
                0 <= j < clusters.len() ==> (#[trigger] clusters[j]@.contains(row) <==> row
                    < row_idx && parts[j].contains(row)),
        decreases n_rows - row_idx,
    {
        let assignment = assignments[row_idx];
        proof {
            assert(dendrogram.leaves().contains(row_idx));
            assert(numbered(parts, parts.len() as int, row_idx));
            let j = choose|j: int|
                0 <= j < parts.len() && j < parts.len() && (#[trigger] parts[j]).contains(
                    row_idx,
                );
            assert(parts[j].contains(row_idx));
            assert(assignment == j);
        }
        let ghost filled = clusters@;
        let cluster = &mut clusters[assignment];
        cluster.push(row_idx);
        proof {
            let grown = clusters@;
            assert forall|j: int| 0 <= j < grown.len() implies is_ascending(
                (#[trigger] grown[j])@,
            ) by {
                if j == assignment {
                    let before = filled[j]@;
                    assert(grown[j]@ == before.push(row_idx));
                    assert forall|a: int, b: int| 0 <= a < b < grown[j]@.len() implies grown[j]@[a]
                        < grown[j]@[b] by {
                        assert(before.contains(before[a]));
                        if b < before.len() {
                            assert(before.contains(before[b]));
                        }
                    }
                } else {
                    assert(grown[j] == filled[j]);
                }
            }
            assert forall|j: int, row: usize| 0 <= j < grown.len() implies (
            #[trigger] grown[j]@.contains(row) <==> row < row_idx + 1 && parts[j].contains(
                row,
            )) by {
                if j == assignment {
                    let before = filled[j]@;
                    assert(grown[j]@ == before.push(row_idx));
                    assert(grown[j]@[before.len() as int] == row_idx);
                    if before.contains(row) {
                        let a = choose|a: int| 0 <= a < before.len() && before[a] == row;
                        assert(grown[j]@[a] == row);
                    }
                    if grown[j]@.contains(row) && row != row_idx {
                        let a = choose|a: int| 0 <= a < grown[j]@.len() && grown[j]@[a] == row;
                        assert(before[a] == row);
                    }
                } else {
                    assert(grown[j] == filled[j]);
                    if row == row_idx {
                        assert(!parts[j].contains(row));
                    }
                }
            }
        }
        row_idx += 1;
    }
    proof {
        let lists = row_lists(clusters@);
        assert forall|j: int| 0 <= j < lists.len() implies is_listing(
            #[trigger] lists[j],
            parts[j],
        ) by {
            assert(lists[j] == clusters[j]@);
            assert forall|row: usize| lists[j].contains(row) <==> parts[j].contains(row) by {
                if parts[j].contains(row) {
                    assert(numbered(parts, parts.len() as int, row));
                    assert(dendrogram.leaves().contains(row));
                }
            }
        }
        lemma_cut_is_partition(*dendrogram, max_cluster_size, lists);
        if max_cluster_size >= dendrogram.size_spec() {
            lemma_cut_at_full_size(*dendrogram, max_cluster_size, lists);
        }
    }
    return clusters;
}

/// Two ascending sequences that hold the same rows are the same sequence.
pub proof fn lemma_ascending_unique(first: Seq<usize>, second: Seq<usize>)
    requires
        is_ascending(first),
        is_ascending(second),
        forall|row: usize| first.contains(row) <==> second.contains(row),
    ensures
        first == second,
    decreases first.len(),
{
    if first.len() == 0 {
        if second.len() > 0 {
            assert(second.contains(second[0]));
        }
        assert(first =~= second);
    } else {
        let top = first.last();
        assert(first.contains(top));
        assert(second.contains(top));
        let at = choose|at: int| 0 <= at < second.len() && second[at] == top;
        assert(second.contains(second.last()));
        assert(first.contains(second.last()));
        let back = choose|back: int| 0 <= back < first.len() && first[back] == second.last();
        assert(second.last() == top);
        let shorter = first.drop_last();
        let other = second.drop_last();
        assert forall|row: usize| shorter.contains(row) <==> other.contains(row) by {
            if shorter.contains(row) {
                let i = choose|i: int| 0 <= i < shorter.len() && shorter[i] == row;
                assert(first[i] == row);
                assert(first.contains(row));
                let j = choose|j: int| 0 <= j < second.len() && second[j] == row;
                assert(other[j] == row);
            }
            if other.contains(row) {
                let j = choose|j: int| 0 <= j < other.len() && other[j] == row;
                assert(second[j] == row);
                assert(second.contains(row));
                let i = choose|i: int| 0 <= i < first.len() && first[i] == row;
                assert(shorter[i] == row);
            }
        }
        lemma_ascending_unique(shorter, other);
        assert(first =~= shorter.push(top));
        assert(second =~= other.push(top));
    }
}

/// Cutting is a function of the tree and the size: two listings of the cut of
/// one tree at one size are the same, cluster by cluster and row by row.
pub proof fn lemma_cut_is_determined(
    tree: Dendrogram,
    max_cluster_size: usize,
    first: Seq<Seq<usize>>,
    second: Seq<Seq<usize>>,
)
    requires
        lists_cut(tree, max_cluster_size, first),
        lists_cut(tree, max_cluster_size, second),
    ensures
        first == second,
{
    assert forall|k: int| 0 <= k < first.len() implies first[k] == second[k] by {
        assert(is_listing(first[k], tree.cut(max_cluster_size)[k]));
        assert(is_listing(second[k], tree.cut(max_cluster_size)[k]));
        lemma_ascending_unique(first[k], second[k]);
    }
    assert(first =~= second);
}

/// Two sequences without duplicates that hold the same rows have the same
/// length.
proof fn lemma_same_rows_same_len(first: Seq<usize>, second: Seq<usize>)
    requires
        first.no_duplicates(),
        second.no_duplicates(),
        forall|row: usize| first.contains(row) <==> second.contains(row),
    ensures
        first.len() == second.len(),
{
    first.unique_seq_to_set();
    second.unique_seq_to_set();
    assert(first.to_set() =~= second.to_set());
}

proof fn lemma_total_rows_same_lens(first: Seq<Seq<usize>>, second: Seq<Seq<usize>>)
    requires
        first.len() == second.len(),
        forall|k: int| 0 <= k < first.len() ==> first[k].len() == second[k].len(),
    ensures
        total_rows(first) == total_rows(second),
    decreases first.len(),
{
    if first.len() > 0 {
        lemma_total_rows_same_lens(first.drop_last(), second.drop_last());
    }
}

/// The clusters are a partition of the rows `0..n`: together they hold `n`
/// rows, every row is in one of them and in no other, and none is empty or
/// holds more rows than allowed, but for the single rows that are left where
/// none at all are allowed.
pub open spec fn is_partition(clusters: Seq<Seq<usize>>, n: nat, max_cluster_size: usize) -> bool {
    &&& total_rows(clusters) == n
    &&& forall|row: usize| row < n ==> numbered(clusters, clusters.len() as int, row)
    &&& forall|k: int, j: int, row: usize|
        0 <= k < clusters.len() && 0 <= j < clusters.len() && #[trigger] clusters[k].contains(row)
            && #[trigger] clusters[j].contains(row) ==> k == j
    &&& forall|k: int|
        0 <= k < clusters.len() ==> 1 <= (#[trigger] clusters[k]).len() && (clusters[k].len()
            <= max_cluster_size || clusters[k].len() == 1)
}

/// The clusters that a cut gives are a partition of the rows.
pub proof fn lemma_cut_is_partition(
    tree: Dendrogram,
    max_cluster_size: usize,
    clusters: Seq<Seq<usize>>,
)
    requires
        tree.spans_rows(),
        lists_cut(tree, max_cluster_size, clusters),
    ensures
        is_partition(clusters, tree.size_spec(), max_cluster_size),
{
    let parts = tree.cut(max_cluster_size);
    lemma_cut_covers(tree, max_cluster_size);
    lemma_cut_disjoint(tree, max_cluster_size);
    lemma_cut_sizes(tree, max_cluster_size);
    tree.lemma_size_is_leaf_count();
    assert forall|k: int| 0 <= k < clusters.len() implies clusters[k].len() == parts[k].len() by {
        assert(is_listing(clusters[k], parts[k]));
        lemma_same_rows_same_len(clusters[k], parts[k]);
    }
    lemma_total_rows_same_lens(clusters, parts);
    assert forall|row: usize| row < tree.size_spec() implies numbered(
        clusters,
        clusters.len() as int,
        row,
    ) by {
        assert(tree.leaves().contains(row));
        assert(numbered(parts, parts.len() as int, row));
        let k = choose|k: int|
            0 <= k < parts.len() && k < parts.len() && (#[trigger] parts[k]).contains(row);
        assert(is_listing(clusters[k], parts[k]));
        assert(clusters[k].contains(row));
    }
    assert forall|k: int, j: int, row: usize|
        0 <= k < clusters.len() && 0 <= j < clusters.len() && #[trigger] clusters[k].contains(row)
            && #[trigger] clusters[j].contains(row) implies k == j by {
        assert(is_listing(clusters[k], parts[k]));
        assert(is_listing(clusters[j], parts[j]));
        assert(parts[k].contains(row));
        assert(parts[j].contains(row));
    }
}

/// A cut that allows clusters as large as the tree gives one cluster, which
/// holds all of the rows.
pub proof fn lemma_cut_at_full_size(
    tree: Dendrogram,
    max_cluster_size: usize,
    clusters: Seq<Seq<usize>>,
)
    requires
        tree.spans_rows(),
        max_cluster_size >= tree.size_spec(),
        lists_cut(tree, max_cluster_size, clusters),
    ensures
        clusters == seq![all_rows(tree.size_spec())],
{
    let parts = tree.cut(max_cluster_size);
    assert(parts == seq![tree.leaves()]);
    assert(parts[0] == tree.leaves());
    let rows = all_rows(tree.size_spec());
    assert(is_listing(clusters[0], parts[0]));
    assert forall|row: usize| rows.contains(row) <==> clusters[0].contains(row) by {
        if rows.contains(row) {
            let i = choose|i: int| 0 <= i < rows.len() && rows[i] == row;
            assert(row < tree.size_spec());
        }
        if clusters[0].contains(row) {
            assert(tree.leaves().contains(row));
            assert(rows[row as int] == row);
        }
    }
    lemma_ascending_unique(clusters[0], rows);
    assert(clusters =~= seq![rows]);
}

} // verus!
