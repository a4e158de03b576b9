use catclustering::neighbors::{add_adjacent_rows, find_neighbors, move_to_last, NeighborSet};
use catclustering::order::{compare_rows, row_precedence, Precedence};
use catclustering::rows::first_indices;
use catclustering::{ClusterSummary, IndexableData};
use rand::rngs::StdRng;
use rand::SeedableRng;
use std::cmp::Ordering;

struct Count(usize);

impl ClusterSummary for Count {
    fn summary_size(&self) -> usize {
        self.0
    }

    fn distance(&self, other: &Self) -> i64 {
        (self.0 + other.0) as i64
    }

    fn extend(&mut self, other: &Self) {
        self.0 += other.0;
    }

    fn clear(&mut self) {
        self.0 = 0;
    }
}

struct Table(Vec<Vec<i64>>);

impl IndexableData for Table {
    type Summary = Count;

    fn get_value(&self, row_index: usize, column_index: usize) -> i64 {
        self.0[row_index][column_index]
    }

    fn get_num_columns(&self) -> usize {
        self.0[0].len()
    }

    fn get_num_rows(&self) -> usize {
        self.0.len()
    }

    fn create_cluster_summary(&self, _row_index: usize) -> Count {
        Count(1)
    }
}

/// What the seeding would find if the columns were never shuffled.
fn pairs_without_shuffle(table: &Table, rounds: usize) -> Vec<(usize, usize)> {
    let num_rows = table.0.len();
    let num_columns = table.0[0].len();
    let mut found = NeighborSet::new();
    let mut rows = first_indices(num_rows);
    let mut columns = first_indices(num_columns);
    for _ in 0..rounds {
        for c in 0..num_columns {
            move_to_last(&mut columns, c);
            rows.sort_by(|a, b| compare_rows(table, &columns, *a, *b));
            add_adjacent_rows(&mut found, &rows);
        }
    }
    let mut pairs = found.pairs().clone();
    pairs.sort();
    pairs
}

fn connects_all(pairs: &[(usize, usize)], n: usize) -> bool {
    let mut label: Vec<usize> = (0..n).collect();
    let mut changed = true;
    while changed {
        changed = false;
        for (a, b) in pairs {
            let low = label[*a].min(label[*b]);
            if label[*a] != low || label[*b] != low {
                label[*a] = low;
                label[*b] = low;
                changed = true;
            }
        }
    }
    label.iter().all(|l| *l == 0)
}

#[test]
fn first_rows_counts_from_zero() {
    assert_eq!(first_indices(0), Vec::<usize>::new());
    assert_eq!(first_indices(1), vec![0]);
    assert_eq!(first_indices(5), vec![0, 1, 2, 3, 4]);
}

#[test]
fn rows_compare_by_their_first_difference() {
    let table = Table(vec![vec![1, 5, 9], vec![1, 5, 9], vec![1, 6, 0], vec![0, 9, 9], vec![1, 5, -9]]);
    let columns = vec![0, 1, 2];
    assert!(matches!(row_precedence(&table, &columns, 0, 1), Precedence::Same));
    assert!(matches!(row_precedence(&table, &columns, 0, 2), Precedence::Before));
    assert!(matches!(row_precedence(&table, &columns, 2, 0), Precedence::After));
    assert!(matches!(row_precedence(&table, &columns, 3, 0), Precedence::Before));
    assert!(matches!(row_precedence(&table, &columns, 0, 4), Precedence::After));
    assert_eq!(compare_rows(&table, &columns, 0, 1), Ordering::Equal);
    assert_eq!(compare_rows(&table, &columns, 0, 2), Ordering::Less);
    assert_eq!(compare_rows(&table, &columns, 2, 0), Ordering::Greater);
    // a later column decides only where the earlier ones agree
    let reversed = vec![2, 1, 0];
    assert_eq!(compare_rows(&table, &reversed, 0, 2), Ordering::Greater);
    assert_eq!(compare_rows(&table, &reversed, 0, 3), Ordering::Less);
    assert_eq!(compare_rows(&table, &reversed, 4, 2), Ordering::Less);
    // with no column to look at, all rows are the same
    assert_eq!(compare_rows(&table, &Vec::new(), 0, 3), Ordering::Equal);
    // a column may be named twice
    assert_eq!(compare_rows(&table, &vec![0, 0, 2], 0, 4), Ordering::Greater);
}

#[test]
fn focus_column_is_swapped_with_the_last() {
    let mut columns = vec![3, 0, 2, 1];
    move_to_last(&mut columns, 0);
    assert_eq!(columns, vec![3, 1, 2, 0]);
    move_to_last(&mut columns, 0);
    assert_eq!(columns, vec![3, 1, 2, 0]);
    move_to_last(&mut columns, 3);
    assert_eq!(columns, vec![0, 1, 2, 3]);
    let mut single = vec![0];
    move_to_last(&mut single, 0);
    assert_eq!(single, vec![0]);
    // the first of two equal columns is the one that moves
    let mut twice = vec![5, 7, 5, 9];
    move_to_last(&mut twice, 5);
    assert_eq!(twice, vec![9, 7, 5, 5]);
}

#[test]
fn neighbor_set_holds_each_pair_once() {
    let mut set = NeighborSet::new();
    assert_eq!(set.len(), 0);
    assert!(set.insert(4, 2));
    assert!(!set.insert(2, 4));
    assert!(set.insert(0, 9));
    assert!(!set.insert(4, 2));
    assert!(set.insert(2, 9));
    assert_eq!(set.len(), 3);
    assert_eq!(set.pairs(), &vec![(2, 4), (0, 9), (2, 9)]);
}

#[test]
fn neighbor_set_tells_large_rows_apart() {
    let mut set = NeighborSet::new();
    let big = usize::MAX;
    assert!(set.insert(big, big - 1));
    assert!(set.insert(0, big));
    assert!(set.insert(1, big - 1));
    assert!(set.insert(0, 1));
    assert!(!set.insert(big - 1, big));
    assert_eq!(set.pairs(), &vec![(big - 1, big), (0, big), (1, big - 1), (0, 1)]);
}

#[test]
fn adjacent_rows_become_pairs() {
    let mut set = NeighborSet::new();
    add_adjacent_rows(&mut set, &vec![3, 1, 2, 0]);
    assert_eq!(set.pairs(), &vec![(1, 3), (1, 2), (0, 2)]);
    add_adjacent_rows(&mut set, &vec![0, 2, 3, 1]);
    assert_eq!(set.pairs(), &vec![(1, 3), (1, 2), (0, 2), (2, 3)]);
    add_adjacent_rows(&mut set, &vec![5]);
    add_adjacent_rows(&mut set, &Vec::new());
    assert_eq!(set.len(), 4);
}

#[test]
fn one_column_is_sorted_and_paired() {
    // with one column there is nothing to shuffle: the rows are sorted by their value,
    // which gives the order 3, 1, 2, 0
    let table = Table(vec![vec![30], vec![10], vec![20], vec![0]]);
    let mut rng = StdRng::seed_from_u64(5);
    let found = find_neighbors(&table, None, &mut rng);
    assert_eq!(found.pairs(), &vec![(1, 3), (1, 2), (0, 2)]);
    let again = find_neighbors(&table, Some(4), &mut rng);
    assert_eq!(again.pairs(), &vec![(1, 3), (1, 2), (0, 2)]);
}

#[test]
fn fewer_than_two_rows_give_no_pairs() {
    let mut rng = StdRng::seed_from_u64(6);
    let one = Table(vec![vec![1, 2, 3]]);
    assert_eq!(find_neighbors(&one, Some(3), &mut rng).len(), 0);
}

#[test]
fn pairs_are_ordered_in_range_and_connect_the_rows() {
    for seed in 0..6 {
        let mut source = StdRng::seed_from_u64(seed);
        let n = 80;
        let rows: Vec<Vec<i64>> = (0..n)
            .map(|_| (0..4).map(|_| rand::Rng::gen_range(&mut source, 0..5)).collect())
            .collect();
        let table = Table(rows);
        let found = find_neighbors(&table, Some(2), &mut source);
        let pairs = found.pairs();
        assert!(pairs.len() >= n - 1);
        assert!(pairs.len() <= 2 * 4 * (n - 1));
        for (a, b) in pairs {
            assert!(a < b && *b < n);
        }
        let mut sorted = pairs.clone();
        sorted.sort();
        sorted.dedup();
        assert_eq!(sorted.len(), pairs.len());
        assert!(connects_all(pairs, n));
    }
}

#[test]
fn columns_are_shuffled() {
    // the rows differ in every column, in another order each time, so that the pairs
    // tell in which order the columns were compared
    let n = 40usize;
    let rows: Vec<Vec<i64>> = (0..n)
        .map(|i| (0..6).map(|c| ((i * (2 * c + 3) + c * c) % 41) as i64).collect())
        .collect();
    let table = Table(rows);
    let unshuffled = pairs_without_shuffle(&table, 1);
    let mut differs = 0;
    for seed in 0..8 {
        let mut rng = StdRng::seed_from_u64(seed);
        let mut pairs = find_neighbors(&table, None, &mut rng).pairs().clone();
        pairs.sort();
        if pairs != unshuffled {
            differs += 1;
        }
    }
    assert!(differs >= 1);
}

/// All orders of the columns `0..n`.
fn orders_of(n: usize) -> Vec<Vec<usize>> {
    let mut orders = vec![Vec::new()];
    for _ in 0..n {
        let mut longer = Vec::new();
        for order in &orders {
            for c in 0..n {
                if !order.contains(&c) {
                    let mut next = order.clone();
                    next.push(c);
                    longer.push(next);
                }
            }
        }
        orders = longer;
    }
    orders
}

fn key_of(table: &Table, order: &[usize], row: usize) -> Vec<i64> {
    order.iter().map(|c| table.0[row][*c]).collect()
}

#[test]
fn every_pair_is_of_neighbors_in_some_order_of_the_columns() {
    let mut source = StdRng::seed_from_u64(77);
    let n = 30;
    let rows: Vec<Vec<i64>> = (0..n)
        .map(|_| (0..3).map(|_| rand::Rng::gen_range(&mut source, 0..4)).collect())
        .collect();
    let table = Table(rows);
    let found = find_neighbors(&table, Some(2), &mut source);
    let orders = orders_of(3);
    for (a, b) in found.pairs() {
        let is_neighbor = orders.iter().any(|order| {
            let (low, high) = if key_of(&table, order, *a) <= key_of(&table, order, *b) {
                (key_of(&table, order, *a), key_of(&table, order, *b))
            } else {
                (key_of(&table, order, *b), key_of(&table, order, *a))
            };
            (0..n).all(|r| {
                let key = key_of(&table, order, r);
                !(low < key && key < high)
            })
        });
        assert!(is_neighbor, "rows {} and {} are not neighbors in any order", a, b);
    }
}

#[test]
fn every_column_is_the_last_in_some_order_that_was_taken() {
    // no two rows are the same, so that every order of the columns sorts the rows in
    // one way only
    let n = 25usize;
    let rows: Vec<Vec<i64>> = (0..n)
        .map(|i| vec![((i * 7) % 5) as i64, ((i * 3) % 4) as i64, i as i64 / 3, (i % 2) as i64])
        .collect();
    let table = Table(rows);
    let mut rng = StdRng::seed_from_u64(78);
    let found = find_neighbors(&table, None, &mut rng);
    let pairs = found.pairs();
    for focus in 0..4 {
        let taken = orders_of(4).iter().filter(|order| order[3] == focus).any(|order| {
            let mut sorted: Vec<usize> = (0..n).collect();
            sorted.sort_by_key(|row| key_of(&table, order, *row));
            sorted.windows(2).all(|w| pairs.contains(&(w[0].min(w[1]), w[0].max(w[1]))))
        });
        assert!(taken, "no order with column {} last was taken", focus);
    }
}

#[test]
fn pairs_are_no_fewer_than_connect_the_rows_and_no_more_than_there_are() {
    for (n, columns, rounds) in [(2usize, 1usize, 1i32), (4, 3, 10), (9, 2, 3), (40, 4, 1)] {
        let mut source = StdRng::seed_from_u64(n as u64);
        let rows: Vec<Vec<i64>> = (0..n)
            .map(|_| (0..columns).map(|_| rand::Rng::gen_range(&mut source, 0..3)).collect())
            .collect();
        let found = find_neighbors(&Table(rows), Some(rounds), &mut source);
        assert!(found.len() >= n - 1);
        assert!(found.len() <= rounds as usize * columns * (n - 1));
        assert!(found.len() <= n * (n - 1) / 2);
    }
    // two rows give their one pair, however many rounds are made
    let mut rng = StdRng::seed_from_u64(9);
    let found = find_neighbors(&Table(vec![vec![5, 1], vec![2, 7]]), Some(25), &mut rng);
    assert_eq!(found.pairs(), &vec![(0, 1)]);
}
