use catclustering::{create_dendrogram, find_clusters, Dendrogram, Matrix};
use rand::rngs::StdRng;
use rand::{Rng, SeedableRng};

fn matrix_of(rows: Vec<Vec<i32>>) -> Matrix {
    Matrix::new(rows).expect("the rows are rectangular")
}

fn create_random_matrix(rows: usize, cols: usize, range: std::ops::Range<i32>) -> Vec<Vec<i32>> {
    let mut rng = rand::thread_rng();
    let mut matrix = Vec::with_capacity(rows);

    for _ in 0..rows {
        let row: Vec<i32> = (0..cols).map(|_| rng.gen_range(range.clone())).collect();
        matrix.push(row);
    }

    matrix
}

/// The rows at the leaves, from left to right, without recursion.
fn leaves_of(tree: &Dendrogram) -> Vec<usize> {
    let mut rows = Vec::new();
    let mut stack = vec![tree];
    while let Some(current) = stack.pop() {
        match current {
            Dendrogram::Leaf(row) => rows.push(*row),
            Dendrogram::Node(left, right, _, _) => {
                stack.push(right);
                stack.push(left);
            }
        }
    }
    rows
}

/// Every internal node, without recursion.
fn nodes_of(tree: &Dendrogram) -> Vec<&Dendrogram> {
    let mut nodes = Vec::new();
    let mut stack = vec![tree];
    while let Some(current) = stack.pop() {
        if let Dendrogram::Node(left, right, _, _) = current {
            nodes.push(current);
            stack.push(right);
            stack.push(left);
        }
    }
    nodes
}

fn same_tree(a: &Dendrogram, b: &Dendrogram) -> bool {
    let mut stack = vec![(a, b)];
    while let Some(pair) = stack.pop() {
        match pair {
            (Dendrogram::Leaf(x), Dendrogram::Leaf(y)) => {
                if x != y {
                    return false;
                }
            }
            (Dendrogram::Node(l1, r1, d1, s1), Dendrogram::Node(l2, r2, d2, s2)) => {
                if d1 != d2 || s1 != s2 {
                    return false;
                }
                stack.push((l1, l2));
                stack.push((r1, r2));
            }
            _ => return false,
        }
    }
    true
}

#[test]
fn test_clear_boundaries() {
    let mut rng = rand::thread_rng();
    for iteration in 1..10 {
        let n_clusters = 10 * iteration;
        let n_rows = n_clusters * 12;

        let mut matrix = create_random_matrix(n_rows, 3, 0..1);

        // initialize matrix with only n_clusters different values that should be clustered together
        for i in 0..matrix.len() {
            let v = i % n_clusters;
            for c in 0..matrix[0].len() {
                matrix[i][c] = v as i32;
            }
        }
        let matrix = matrix_of(matrix);

        let dendro = create_dendrogram(&matrix, None, &mut rng);
        let clusters = find_clusters(&dendro, n_rows / n_clusters);

        let clustered_rows = clusters.iter().map(|v| v.len()).sum();
        assert!(n_rows == clustered_rows);

        assert!(clusters.len() == n_clusters);
        for row_indices in &clusters {
            assert!(row_indices.len() == n_rows / n_clusters);
            let t = row_indices[0] % n_clusters;
            for i in row_indices {
                assert!(i % n_clusters == t);
            }
        }
    }
}

#[test]
fn test_two_clusters() {
    let cluster_size = 100;
    let matrix1 = create_random_matrix(cluster_size, 3, 0..4);
    let matrix2 = create_random_matrix(cluster_size, 3, 5..10);

    let mut matrix = Vec::new();
    matrix.extend(matrix1);
    matrix.extend(matrix2);
    let matrix = matrix_of(matrix);

    let mut rng = rand::thread_rng();
    let dendro = create_dendrogram(&matrix, None, &mut rng);
    let clusters = find_clusters(&dendro, cluster_size);

    assert!(clusters.len() == 2);
    assert!(clusters[0].len() == cluster_size);
    assert!(clusters[1].len() == cluster_size);

    let (m1, m2) = if clusters[0] < clusters[1] {
        (&clusters[0], &clusters[1])
    } else {
        (&clusters[1], &clusters[0])
    };

    assert!(*m1.iter().min().unwrap() == 0);
    assert!(*m1.iter().max().unwrap() == cluster_size - 1);
    assert!(*m2.iter().min().unwrap() == cluster_size);
    assert!(*m2.iter().max().unwrap() == 2 * cluster_size - 1);
}

#[test]
fn single_row_gives_a_leaf() {
    let matrix = matrix_of(vec![vec![7, 8, 9]]);
    let mut rng = StdRng::seed_from_u64(1);
    let dendro = create_dendrogram(&matrix, None, &mut rng);
    assert!(matches!(dendro, Dendrogram::Leaf(0)));
    assert_eq!(dendro.size(), 1);
    assert_eq!(find_clusters(&dendro, 1), vec![vec![0]]);
}

#[test]
fn identical_rows_give_one_cluster() {
    let matrix = matrix_of(vec![vec![4, 4, 4]; 500]);
    let mut rng = StdRng::seed_from_u64(2);
    let dendro = create_dendrogram(&matrix, None, &mut rng);
    assert_eq!(dendro.size(), 500);
    let mut rows = leaves_of(&dendro);
    rows.sort();
    assert_eq!(rows, (0..500).collect::<Vec<usize>>());
    // two summaries of the same three values are three apart
    for node in nodes_of(&dendro) {
        match node {
            Dendrogram::Node(_, _, distance, _) => assert_eq!(*distance, 3),
            Dendrogram::Leaf(_) => unreachable!(),
        }
    }
    let clusters = find_clusters(&dendro, 500);
    assert_eq!(clusters, vec![(0..500).collect::<Vec<usize>>()]);
}

#[test]
fn cut_at_full_size_gives_one_cluster() {
    let matrix = matrix_of(create_random_matrix(60, 4, 0..6));
    let mut rng = StdRng::seed_from_u64(3);
    let dendro = create_dendrogram(&matrix, None, &mut rng);
    assert_eq!(find_clusters(&dendro, 60), vec![(0..60).collect::<Vec<usize>>()]);
    assert_eq!(find_clusters(&dendro, 1000), vec![(0..60).collect::<Vec<usize>>()]);
}

#[test]
fn same_seed_gives_the_same_dendrogram() {
    let mut source = StdRng::seed_from_u64(11);
    let rows: Vec<Vec<i32>> =
        (0..200).map(|_| (0..5).map(|_| source.gen_range(0..4)).collect()).collect();
    let matrix = matrix_of(rows);
    let first = create_dendrogram(&matrix, Some(3), &mut StdRng::seed_from_u64(99));
    let second = create_dendrogram(&matrix, Some(3), &mut StdRng::seed_from_u64(99));
    assert!(same_tree(&first, &second));
    assert_eq!(find_clusters(&first, 10), find_clusters(&second, 10));
}

#[test]
fn leaves_are_the_rows_each_once() {
    for seed in 0..5 {
        let mut source = StdRng::seed_from_u64(seed);
        let n = 150;
        let rows: Vec<Vec<i32>> =
            (0..n).map(|_| (0..4).map(|_| source.gen_range(0..9)).collect()).collect();
        let dendro = create_dendrogram(&matrix_of(rows), Some(2), &mut source);
        assert_eq!(dendro.size(), n);
        let mut leaves = leaves_of(&dendro);
        assert_eq!(leaves.len(), n);
        leaves.sort();
        assert_eq!(leaves, (0..n).collect::<Vec<usize>>());
    }
}

#[test]
fn sizes_add_up_at_every_node() {
    let mut source = StdRng::seed_from_u64(21);
    let rows: Vec<Vec<i32>> =
        (0..120).map(|_| (0..3).map(|_| source.gen_range(0..5)).collect()).collect();
    let dendro = create_dendrogram(&matrix_of(rows), None, &mut source);
    let nodes = nodes_of(&dendro);
    assert_eq!(nodes.len(), 119);
    for node in nodes {
        match node {
            Dendrogram::Node(left, right, _, size) => {
                assert_eq!(*size, left.size() + right.size());
                assert_eq!(*size, leaves_of(node).len());
            }
            Dendrogram::Leaf(_) => unreachable!(),
        }
    }
}

#[test]
fn merge_distances_descend_from_the_root() {
    let mut source = StdRng::seed_from_u64(31);
    let rows: Vec<Vec<i32>> =
        (0..300).map(|_| (0..4).map(|_| source.gen_range(0..6)).collect()).collect();
    let dendro = create_dendrogram(&matrix_of(rows), Some(2), &mut source);
    for node in nodes_of(&dendro) {
        if let Dendrogram::Node(left, right, distance, _) = node {
            for child in [left, right] {
                if let Dendrogram::Node(_, _, below, _) = &**child {
                    assert!(below <= distance);
                }
            }
        }
    }
}

#[test]
fn cut_is_a_partition_of_the_rows() {
    let mut source = StdRng::seed_from_u64(41);
    let n = 180;
    let rows: Vec<Vec<i32>> =
        (0..n).map(|_| (0..3).map(|_| source.gen_range(0..7)).collect()).collect();
    let dendro = create_dendrogram(&matrix_of(rows), None, &mut source);
    for max_cluster_size in [0, 1, 2, 5, 17, 90, 179, 180, 181] {
        let clusters = find_clusters(&dendro, max_cluster_size);
        let total: usize = clusters.iter().map(|c| c.len()).sum();
        assert_eq!(total, n);
        let mut seen = vec![0; n];
        for cluster in &clusters {
            assert!(!cluster.is_empty());
            assert!(cluster.len() <= max_cluster_size.max(1));
            assert!(cluster.windows(2).all(|w| w[0] < w[1]));
            for row in cluster {
                seen[*row] += 1;
            }
        }
        assert!(seen.iter().all(|count| *count == 1));
    }
}

#[test]
fn cutting_twice_gives_the_same_clusters() {
    let mut source = StdRng::seed_from_u64(51);
    let rows: Vec<Vec<i32>> =
        (0..100).map(|_| (0..3).map(|_| source.gen_range(0..4)).collect()).collect();
    let dendro = create_dendrogram(&matrix_of(rows), None, &mut source);
    for max_cluster_size in [1, 3, 10, 50] {
        assert_eq!(find_clusters(&dendro, max_cluster_size), find_clusters(&dendro, max_cluster_size));
    }
}

#[test]
fn small_iteration_counts_mean_one_round() {
    let rows = vec![vec![3], vec![1], vec![2], vec![0]];
    for init_iterations in [None, Some(1), Some(0), Some(-5)] {
        let mut rng = StdRng::seed_from_u64(61);
        let dendro = create_dendrogram(&matrix_of(rows.clone()), init_iterations, &mut rng);
        assert_eq!(dendro.size(), 4);
        let mut leaves = leaves_of(&dendro);
        leaves.sort();
        assert_eq!(leaves, vec![0, 1, 2, 3]);
    }
}

#[test]
fn four_rows_give_the_tree_of_their_distances() {
    // rows 0 and 1 are three categories apart, and so are rows 2 and 3; the two pairs
    // are six apart. Whatever the order of the columns, the rows sort as 1, 0, 2, 3.
    for seed in 0..6 {
        let matrix = matrix_of(vec![vec![1, 0], vec![0, 0], vec![2, 1], vec![3, 1]]);
        let mut rng = StdRng::seed_from_u64(seed);
        let dendro = create_dendrogram(&matrix, None, &mut rng);
        match &dendro {
            Dendrogram::Node(left, right, distance, size) => {
                assert_eq!((*distance, *size), (6, 4));
                assert!(matches!(&**left, Dendrogram::Node(l, r, 3, 2)
                    if matches!(**l, Dendrogram::Leaf(3)) && matches!(**r, Dendrogram::Leaf(2))));
                assert!(matches!(&**right, Dendrogram::Node(l, r, 3, 2)
                    if matches!(**l, Dendrogram::Leaf(1)) && matches!(**r, Dendrogram::Leaf(0))));
            }
            Dendrogram::Leaf(_) => panic!("a leaf came back"),
        }
    }
}
