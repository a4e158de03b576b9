use catclustering::matrix::MAX_COLUMNS;
use catclustering::{
    cluster_rows, find_clusters, ClusterSummary, Dendrogram, IndexableData, Matrix, SimpleMatrix,
};
use rand::rngs::StdRng;
use rand::SeedableRng;

#[test]
fn matrix_takes_rectangular_rows_only() {
    assert!(Matrix::new(vec![vec![1, 2], vec![3, 4], vec![5, 6]]).is_some());
    assert!(Matrix::new(vec![vec![1]]).is_some());
    assert!(Matrix::new(Vec::new()).is_none());
    assert!(Matrix::new(vec![Vec::new()]).is_none());
    assert!(Matrix::new(vec![Vec::new(), Vec::new()]).is_none());
    assert!(Matrix::new(vec![vec![1, 2], vec![3]]).is_none());
    assert!(Matrix::new(vec![vec![1], vec![2, 3]]).is_none());
    assert!(Matrix::new(vec![vec![1, 2], vec![3, 4], vec![5, 6, 7]]).is_none());
}

#[test]
fn matrix_takes_no_more_columns_than_a_summary_holds() {
    assert_eq!(MAX_COLUMNS, 65535);
    assert!(Matrix::new(vec![vec![0; MAX_COLUMNS]]).is_some());
    assert!(Matrix::new(vec![vec![0; MAX_COLUMNS + 1]]).is_none());
}

#[test]
fn matrix_reads_rows_and_columns() {
    let matrix = Matrix::new(vec![vec![1, -2, 3], vec![40, 50, 60]]).unwrap();
    assert_eq!(matrix.get_num_rows(), 2);
    assert_eq!(matrix.get_num_columns(), 3);
    assert_eq!(matrix.get_value(0, 1), -2);
    assert_eq!(matrix.get_value(1, 2), 60);
    assert_eq!(matrix.get_value(1, 0), 40);
    assert_eq!(matrix.rows(), &vec![vec![1, -2, 3], vec![40, 50, 60]]);
}

#[test]
fn summary_of_a_row_has_one_category_in_every_column() {
    let summary = SimpleMatrix::of_row(&vec![3, 3, 9]);
    assert_eq!(summary.num_columns(), 3);
    assert_eq!(summary.summary_size(), 3);
    assert!(summary.has_category(0, 3));
    assert!(summary.has_category(1, 3));
    assert!(summary.has_category(2, 9));
    assert!(!summary.has_category(0, 9));
    assert!(!summary.has_category(2, 3));
    assert!(!summary.has_category(3, 3));
    let matrix = Matrix::new(vec![vec![1, 2], vec![7, 8]]).unwrap();
    let second = matrix.create_cluster_summary(1);
    assert_eq!(second.num_columns(), 2);
    assert!(second.has_category(0, 7) && second.has_category(1, 8));
    assert!(!second.has_category(0, 1));
}

#[test]
fn categories_are_told_apart_by_their_low_bits() {
    let summary = SimpleMatrix::of_row(&vec![-1, 65536 + 5, 70000]);
    assert!(summary.has_category(0, 65535));
    assert!(summary.has_category(1, 5));
    assert!(summary.has_category(2, 4464));
}

#[test]
fn distance_counts_the_categories_of_both() {
    let a = SimpleMatrix::of_row(&vec![1, 2, 3]);
    let b = SimpleMatrix::of_row(&vec![1, 5, 3]);
    let c = SimpleMatrix::of_row(&vec![7, 8, 9]);
    // two columns agree, one differs
    assert_eq!(a.distance(&b), 4);
    assert_eq!(b.distance(&a), 4);
    assert_eq!(a.distance(&a), 3);
    assert_eq!(a.distance(&c), 6);
    // columns that only one of the two has count as they are
    let narrow = SimpleMatrix::of_row(&vec![1]);
    assert_eq!(narrow.distance(&a), 3);
    assert_eq!(a.distance(&narrow), 3);
    assert_eq!(narrow.distance(&c), 4);
    let empty = SimpleMatrix::of_row(&Vec::new());
    assert_eq!(empty.distance(&a), 3);
    assert_eq!(empty.distance(&empty), 0);
}

#[test]
fn extend_is_the_union_column_by_column() {
    let mut a = SimpleMatrix::of_row(&vec![1, 2, 3]);
    let b = SimpleMatrix::of_row(&vec![1, 5, 3]);
    let c = SimpleMatrix::of_row(&vec![7, 2, 9]);
    a.extend(&b);
    assert_eq!(a.summary_size(), 4);
    assert!(a.has_category(1, 2) && a.has_category(1, 5));
    assert_eq!(a.distance(&b), 4);
    assert_eq!(a.distance(&c), 6);
    a.extend(&c);
    assert_eq!(a.summary_size(), 6);
    assert!(a.has_category(0, 1) && a.has_category(0, 7));
    assert!(a.has_category(2, 3) && a.has_category(2, 9));
    // the same again changes nothing
    a.extend(&c);
    a.extend(&b);
    assert_eq!(a.summary_size(), 6);
    assert_eq!(a.num_columns(), 3);
    assert_eq!(a.distance(&b), 6);
}

#[test]
fn extend_takes_over_columns_that_were_missing() {
    let mut narrow = SimpleMatrix::of_row(&vec![4]);
    let wide = SimpleMatrix::of_row(&vec![5, 6, 7]);
    narrow.extend(&wide);
    assert_eq!(narrow.num_columns(), 3);
    assert_eq!(narrow.summary_size(), 4);
    assert!(narrow.has_category(0, 4) && narrow.has_category(0, 5));
    assert!(narrow.has_category(1, 6) && narrow.has_category(2, 7));
    let mut other = SimpleMatrix::of_row(&vec![1, 2, 3]);
    other.extend(&SimpleMatrix::of_row(&vec![9]));
    assert_eq!(other.num_columns(), 3);
    assert_eq!(other.summary_size(), 4);
}

#[test]
fn distances_never_shrink_under_union() {
    let rows = vec![vec![1, 2, 3], vec![1, 5, 3], vec![7, 2, 9], vec![1, 2, 9], vec![0, 0, 0]];
    for a in &rows {
        for b in &rows {
            for c in &rows {
                let mut grown = SimpleMatrix::of_row(a);
                let a = SimpleMatrix::of_row(a);
                let b = SimpleMatrix::of_row(b);
                let c = SimpleMatrix::of_row(c);
                grown.extend(&b);
                assert!(grown.distance(&c) >= a.distance(&c));
                assert!(grown.distance(&c) >= b.distance(&c));
                assert!(c.distance(&grown) >= c.distance(&a));
                assert!(c.distance(&grown) >= c.distance(&b));
                assert!(grown.summary_size() >= a.summary_size());
            }
        }
    }
}

#[test]
fn clear_empties_the_summary() {
    let mut a = SimpleMatrix::of_row(&vec![1, 2, 3]);
    a.clear();
    assert_eq!(a.summary_size(), 0);
    assert_eq!(a.num_columns(), 0);
    assert!(!a.has_category(0, 1));
}

#[test]
fn cluster_rows_merges_identical_rows_at_the_number_of_columns() {
    let matrix = Matrix::new(vec![vec![9, 9, 2, 7]; 60]).unwrap();
    let tree = cluster_rows(&matrix, Some(2), &mut StdRng::seed_from_u64(3));
    assert_eq!(tree.size(), 60);
    let mut stack = vec![&tree];
    let mut nodes = 0;
    while let Some(current) = stack.pop() {
        if let Dendrogram::Node(left, right, distance, _) = current {
            assert_eq!(*distance, 4);
            nodes += 1;
            stack.push(left);
            stack.push(right);
        }
    }
    assert_eq!(nodes, 59);
    assert_eq!(find_clusters(&tree, 60), vec![(0..60).collect::<Vec<usize>>()]);
}
