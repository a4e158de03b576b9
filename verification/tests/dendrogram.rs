use catclustering::dendrogram::dismantle;
use catclustering::{assign_rows_to_clusters, find_clusters, Dendrogram};

fn leaf(row: usize) -> Box<Dendrogram> {
    Box::new(Dendrogram::Leaf(row))
}

fn node(left: Box<Dendrogram>, right: Box<Dendrogram>, distance: i64) -> Box<Dendrogram> {
    let size = left.size() + right.size();
    Box::new(Dendrogram::Node(left, right, distance, size))
}

/// A full tree of the given depth over the rows from `next` on.
fn full(depth: usize, next: &mut usize) -> Box<Dendrogram> {
    if depth == 0 {
        *next += 1;
        leaf(*next - 1)
    } else {
        let left = full(depth - 1, next);
        let right = full(depth - 1, next);
        node(left, right, depth as i64)
    }
}

/// ((0 1) ((2 3) 4)) with 5 and 6 hanging off the root chain.
fn sample() -> Dendrogram {
    let a = node(leaf(0), leaf(1), 1);
    let b = node(leaf(2), leaf(3), 2);
    let c = node(b, leaf(4), 3);
    let d = node(a, c, 5);
    let e = node(d, leaf(5), 8);
    *node(e, leaf(6), 9)
}

#[test]
fn size_of_leaf_and_node() {
    assert_eq!(Dendrogram::Leaf(12).size(), 1);
    assert_eq!(sample().size(), 7);
    assert_eq!(Dendrogram::Node(leaf(0), leaf(1), -4, 2).size(), 2);
}

#[test]
fn dropping_a_deep_right_skewed_tree_does_not_overflow() {
    let depth = 100_000;
    let mut tree = Dendrogram::Leaf(0);
    for row in 1..=depth {
        let size = tree.size() + 1;
        tree = Dendrogram::Node(leaf(row), Box::new(tree), row as i64, size);
    }
    assert_eq!(tree.size(), depth + 1);
    drop(tree);
}

#[test]
fn dropping_a_deep_left_skewed_tree_does_not_overflow() {
    let depth = 100_000;
    let mut tree = Dendrogram::Leaf(0);
    for row in 1..=depth {
        let size = tree.size() + 1;
        tree = Dendrogram::Node(Box::new(tree), leaf(row), row as i64, size);
    }
    drop(tree);
}

#[test]
fn dismantle_leaves_at_most_one_node() {
    let mut tree = sample();
    dismantle(&mut tree);
    match &tree {
        Dendrogram::Leaf(_) => {}
        Dendrogram::Node(left, right, _, _) => {
            assert!(matches!(**left, Dendrogram::Leaf(_)));
            assert!(matches!(**right, Dendrogram::Leaf(_)));
        }
    }
    let mut shallow = *node(leaf(3), leaf(4), 6);
    dismantle(&mut shallow);
    assert!(matches!(&shallow, Dendrogram::Node(l, r, 6, 2)
        if matches!(**l, Dendrogram::Leaf(3)) && matches!(**r, Dendrogram::Leaf(4))));
    let mut single = Dendrogram::Leaf(9);
    dismantle(&mut single);
    assert!(matches!(single, Dendrogram::Leaf(9)));
}

#[test]
fn dismantle_rotates_and_moves_to_the_right() {
    // ((0 1) 2): the left node moves to the right, which gives (0 (1 2)), and the right
    // subtree (1 2) is what is left
    let mut tree = *node(node(leaf(0), leaf(1), 1), leaf(2), 5);
    dismantle(&mut tree);
    assert!(matches!(&tree, Dendrogram::Node(l, r, 1, 2)
        if matches!(**l, Dendrogram::Leaf(1)) && matches!(**r, Dendrogram::Leaf(2))));
    // (0 (1 2)): the right subtree is what is left
    let mut tree = *node(leaf(0), node(leaf(1), leaf(2), 4), 7);
    dismantle(&mut tree);
    assert!(matches!(&tree, Dendrogram::Node(l, r, 4, 2)
        if matches!(**l, Dendrogram::Leaf(1)) && matches!(**r, Dendrogram::Leaf(2))));
    // ((0 1) (2 3)) becomes (0 (1 (2 3))), then (1 (2 3)), then (2 3)
    let mut tree = *node(node(leaf(0), leaf(1), 1), node(leaf(2), leaf(3), 2), 9);
    dismantle(&mut tree);
    assert!(matches!(&tree, Dendrogram::Node(l, r, 2, 2)
        if matches!(**l, Dendrogram::Leaf(2)) && matches!(**r, Dendrogram::Leaf(3))));
    // (((0 1) 2) 3) becomes ((0 1) (2 3)), and then goes the same way
    let mut tree = *node(node(node(leaf(0), leaf(1), 1), leaf(2), 2), leaf(3), 3);
    dismantle(&mut tree);
    assert!(matches!(&tree, Dendrogram::Node(l, r, 2, 3)
        if matches!(**l, Dendrogram::Leaf(2)) && matches!(**r, Dendrogram::Leaf(3))));
}

#[test]
fn dropping_a_deep_zigzag_tree_does_not_overflow() {
    let depth = 100_000;
    let mut tree = Dendrogram::Leaf(0);
    for row in 1..=depth {
        let size = tree.size() + 1;
        tree = if row % 2 == 0 {
            Dendrogram::Node(Box::new(tree), leaf(row), row as i64, size)
        } else {
            Dendrogram::Node(leaf(row), Box::new(tree), row as i64, size)
        };
    }
    drop(tree);
}

#[test]
fn dropping_a_wide_tree_releases_it() {
    // a full tree of depth 16, dropped many times over
    for _ in 0..4 {
        let mut next = 0;
        let tree = full(16, &mut next);
        assert_eq!(tree.size(), 1 << 16);
        drop(tree);
    }
}

#[test]
fn clusters_are_numbered_right_subtree_first() {
    let tree = sample();
    let mut assignments = Vec::new();
    // size 2: {6}, {5}, then under d the right part c, which gives {4} before {2, 3},
    // and at last a = {0, 1}
    let count = assign_rows_to_clusters(&tree, &mut assignments, 2);
    assert_eq!(count, 5);
    assert_eq!(assignments, vec![4, 4, 3, 3, 2, 1, 0]);
    assert_eq!(
        find_clusters(&tree, 2),
        vec![vec![6], vec![5], vec![4], vec![2, 3], vec![0, 1]]
    );
}

#[test]
fn cut_sizes_on_the_sample_tree() {
    let tree = sample();
    assert_eq!(
        find_clusters(&tree, 1),
        vec![vec![6], vec![5], vec![4], vec![3], vec![2], vec![1], vec![0]]
    );
    assert_eq!(
        find_clusters(&tree, 0),
        vec![vec![6], vec![5], vec![4], vec![3], vec![2], vec![1], vec![0]]
    );
    assert_eq!(find_clusters(&tree, 3), vec![vec![6], vec![5], vec![2, 3, 4], vec![0, 1]]);
    assert_eq!(find_clusters(&tree, 5), vec![vec![6], vec![5], vec![0, 1, 2, 3, 4]]);
    assert_eq!(find_clusters(&tree, 6), vec![vec![6], vec![0, 1, 2, 3, 4, 5]]);
    assert_eq!(find_clusters(&tree, 7), vec![vec![0, 1, 2, 3, 4, 5, 6]]);
    assert_eq!(find_clusters(&tree, usize::MAX), vec![vec![0, 1, 2, 3, 4, 5, 6]]);
}

#[test]
fn short_buffer_is_resized_and_long_buffer_keeps_its_tail() {
    let tree = sample();
    let mut short = vec![77, 78];
    assert_eq!(assign_rows_to_clusters(&tree, &mut short, 7), 1);
    assert_eq!(short, vec![0; 7]);

    let mut long = vec![50; 10];
    assert_eq!(assign_rows_to_clusters(&tree, &mut long, 3), 4);
    assert_eq!(long, vec![3, 3, 2, 2, 2, 1, 0, 50, 50, 50]);

    // the same buffer again, for another cut
    assert_eq!(assign_rows_to_clusters(&tree, &mut long, 6), 2);
    assert_eq!(long, vec![1, 1, 1, 1, 1, 1, 0, 50, 50, 50]);
}

#[test]
fn rows_outside_the_tree_keep_their_entries() {
    // a tree over the rows 1 and 3 alone, with a buffer that is long enough
    let tree = *node(leaf(3), leaf(1), 2);
    let mut assignments = vec![9, 9, 9, 9];
    assert_eq!(assign_rows_to_clusters(&tree, &mut assignments, 1), 2);
    assert_eq!(assignments, vec![9, 0, 9, 1]);
    let mut empty_start = vec![usize::MAX; 4];
    assert_eq!(assign_rows_to_clusters(&tree, &mut empty_start, 2), 1);
    assert_eq!(empty_start, vec![usize::MAX, 0, usize::MAX, 0]);
}

#[test]
fn single_leaf_is_one_cluster() {
    let tree = Dendrogram::Leaf(0);
    assert_eq!(find_clusters(&tree, 1), vec![vec![0]]);
    assert_eq!(find_clusters(&tree, 0), vec![vec![0]]);
    let mut assignments = Vec::new();
    assert_eq!(assign_rows_to_clusters(&tree, &mut assignments, 5), 1);
    assert_eq!(assignments, vec![0]);
}
