use crate::data::IndexableData;
use crate::order::{sort_rows, sorted_rows};
use crate::rows::{
    all_rows, constant_on, first_indices, gaps, is_arrangement, lemma_arrangement,
    lemma_count_numbers, lemma_pair_count, lemma_pair_count_grows, lemma_swap_keeps_items,
    pair_count,
};
use rand::seq::SliceRandom;
use rand::RngCore;
use std::collections::HashSet;
use vstd::prelude::*;

verus! {

/// The number that stands for a pair of rows in the hash set.
spec fn pair_key(pair: (usize, usize)) -> int {
    pair.0 * 0x1_0000_0000_0000_0000 + pair.1
}

/// The pair of two different rows with the smaller one first.
pub open spec fn ordered_pair(a: usize, b: usize) -> (usize, usize) {
    if a < b {
        (a, b)
    } else {
        (b, a)
    }
}

/// Every pair is of two rows out of `n`, the smaller one first.
pub open spec fn pairs_in_range(pairs: Seq<(usize, usize)>, n: nat) -> bool {
    forall|k: int| 0 <= k < pairs.len() ==> (#[trigger] pairs[k]).0 < pairs[k].1 < n
}

/// No pair occurs twice, every pair has its smaller row first, and `seen`
/// holds the numbers that stand for the pairs, and no others.
spec fn tracks(pairs: Seq<(usize, usize)>, seen: Set<u128>) -> bool {
    &&& pairs.no_duplicates()
    &&& forall|k: int| 0 <= k < pairs.len() ==> (#[trigger] pairs[k]).0 < pairs[k].1
    &&& forall|key: u128|
        seen.contains(key) <==> exists|k: int|
            0 <= k < pairs.len() && pair_key(#[trigger] pairs[k]) == key
}

proof fn lemma_tracks_insert(pairs: Seq<(usize, usize)>, seen: Set<u128>, pair: (usize, usize))
    requires
        tracks(pairs, seen),
        pair.0 < pair.1,
    ensures
        seen.contains(pair_key(pair) as u128) <==> pairs.contains(pair),
        !pairs.contains(pair) ==> tracks(pairs.push(pair), seen.insert(pair_key(pair) as u128)),
{
    let key = pair_key(pair) as u128;
    if seen.contains(key) {
        let k = choose|k: int| 0 <= k < pairs.len() && pair_key(#[trigger] pairs[k]) == key;
        assert(pairs[k] == pair);
    }
    if pairs.contains(pair) {
        let k = choose|k: int| 0 <= k < pairs.len() && pairs[k] == pair;
        assert(pair_key(pairs[k]) == key);
    }
    if !pairs.contains(pair) {
        let after = pairs.push(pair);
        let grown = seen.insert(key);
        assert forall|i: int, j: int|
            0 <= i < after.len() && 0 <= j < after.len() && i != j implies after[i]
            != after[j] by {
            if i < pairs.len() {
                assert(pairs.contains(pairs[i]));
            }
            if j < pairs.len() {
                assert(pairs.contains(pairs[j]));
            }
        }
        assert forall|k: int| 0 <= k < after.len() implies (#[trigger] after[k]).0
            < after[k].1 by {
            if k < pairs.len() {
                assert(after[k] == pairs[k]);
            }
        }
        assert forall|other: u128|
            grown.contains(other) <==> exists|k: int|
                0 <= k < after.len() && pair_key(#[trigger] after[k]) == other by {
            if grown.contains(other) {
                if other == key {
                    assert(pair_key(after[pairs.len() as int]) == other);
                } else {
                    assert(seen.contains(other));
                    let k = choose|k: int|
                        0 <= k < pairs.len() && pair_key(#[trigger] pairs[k]) == other;
                    assert(after[k] == pairs[k]);
                    assert(pair_key(after[k]) == other);
                }
            }
            if exists|k: int| 0 <= k < after.len() && pair_key(#[trigger] after[k]) == other {
                let k = choose|k: int|
                    0 <= k < after.len() && pair_key(#[trigger] after[k]) == other;
                if k < pairs.len() {
                    assert(after[k] == pairs[k]);
                    assert(pair_key(pairs[k]) == other);
                    assert(seen.contains(other));
                }
            }
        }
    }
}

/// A set of pairs of rows that are candidates for a merge. It keeps the
/// pairs in the order in which they were first inserted.
pub struct NeighborSet {
    pairs: Vec<(usize, usize)>,
    seen: HashSet<u128>,
}

impl View for NeighborSet {
    type V = Seq<(usize, usize)>;

    closed spec fn view(&self) -> Seq<(usize, usize)> {
        self.pairs@
    }
}

impl NeighborSet {
    #[verifier::type_invariant]
    spec fn sound(self) -> bool {
        tracks(self.pairs@, self.seen@)
    }

    /// The empty set.
    pub fn new() -> (set: Self)
        ensures
            set@.len() == 0,
    {
        NeighborSet { pairs: Vec::new(), seen: HashSet::new() }
    }

    /// The number of pairs.
    pub fn len(&self) -> (n: usize)
        ensures
            n == self@.len(),
    {
        self.pairs.len()
    }

    /// The pairs, in the order in which they were first inserted.
    pub fn pairs(&self) -> (pairs: &Vec<(usize, usize)>)
        ensures
            pairs@ == self@,
            pairs@.no_duplicates(),
            forall|k: int| 0 <= k < pairs@.len() ==> (#[trigger] pairs@[k]).0 < pairs@[k].1,
    {
        proof {
            use_type_invariant(self);
        }
        &self.pairs
    }

    /// Inserts the pair of two different rows, the smaller one first, and
    /// says whether the set did not hold it before.
    pub fn insert(&mut self, row1: usize, row2: usize) -> (added: bool)
        requires
            row1 != row2,
        ensures
            added == !old(self)@.contains(ordered_pair(row1, row2)),
            final(self)@ == if added {
                old(self)@.push(ordered_pair(row1, row2))
            } else {
                old(self)@
            },
    {
        broadcast use vstd::std_specs::hash::group_hash_axioms;

        proof {
            use_type_invariant(&*self);
        }
        let pair = if row1 < row2 {
            (row1, row2)
        } else {
            (row2, row1)
        };
        let key: u128 = (pair.0 as u128) * 0x1_0000_0000_0000_0000u128 + (pair.1 as u128);
        assert(key == pair_key(pair));
        let ghost before = self.pairs@;
        let ghost keys = self.seen@;
        proof {
            lemma_tracks_insert(before, keys, pair);
        }
        let mut taken = NeighborSet::new();
        std::mem::swap(self, &mut taken);
        let NeighborSet { mut pairs, mut seen } = taken;
        let added = seen.insert(key);
        if added {
            pairs.push(pair);
        } else {
            assert(seen@ =~= keys);
        }
        assert(tracks(pairs@, seen@));
        *self = NeighborSet { pairs, seen };
        added
    }
}

/// The labelling gives both rows of every pair the same label.
pub open spec fn respects_pairs(label: spec_fn(int) -> int, pairs: Seq<(usize, usize)>) -> bool {
    forall|k: int|
        0 <= k < pairs.len() ==> label((#[trigger] pairs[k]).0 as int) == label(pairs[k].1 as int)
}

/// The pairs connect all of the rows `0..n`: a labelling that respects the
/// pairs gives every row the same label.
pub open spec fn pairs_connect(pairs: Seq<(usize, usize)>, n: nat) -> bool {
    forall|label: spec_fn(int) -> int| #[trigger]
        respects_pairs(label, pairs) ==> constant_on(label, all_rows(n))
}

/// The pair is of two rows that stand next to each other in the sequence.
pub open spec fn is_adjacent(rows: Seq<usize>, pair: (usize, usize)) -> bool {
    exists|i: int| 0 <= i < rows.len() - 1 && pair == ordered_pair(rows[i], #[trigger] rows[i + 1])
}

/// Pairs that hold every two neighbors of an arrangement of the rows connect
/// all of the rows.
pub proof fn lemma_neighbors_connect(pairs: Seq<(usize, usize)>, rows: Seq<usize>, n: nat)
    requires
        is_arrangement(rows, n),
        n <= usize::MAX,
        forall|pair: (usize, usize)| is_adjacent(rows, pair) ==> pairs.contains(pair),
    ensures
        pairs_connect(pairs, n),
{
    lemma_arrangement(rows, n);
    assert forall|label: spec_fn(int) -> int| #[trigger]
        respects_pairs(label, pairs) implies constant_on(label, all_rows(n)) by {
        assert forall|i: int| 0 <= i < rows.len() implies label((#[trigger] rows[i]) as int)
            == label(rows[0] as int) by {
            lemma_same_label_along(label, pairs, rows, i);
        }
        assert forall|i: int, j: int| 0 <= i < n && 0 <= j < n implies label(
            all_rows(n)[i] as int,
        ) == label(all_rows(n)[j] as int) by {
            let a = i as usize;
            let b = j as usize;
            assert(rows.contains(a));
            assert(rows.contains(b));
            let x = choose|x: int| 0 <= x < rows.len() && rows[x] == a;
            let y = choose|y: int| 0 <= y < rows.len() && rows[y] == b;
            assert(label(rows[x] as int) == label(rows[0] as int));
            assert(label(rows[y] as int) == label(rows[0] as int));
        }
    }
}

proof fn lemma_same_label_along(
    label: spec_fn(int) -> int,
    pairs: Seq<(usize, usize)>,
    rows: Seq<usize>,
    i: int,
)
    requires
        respects_pairs(label, pairs),
        forall|pair: (usize, usize)| is_adjacent(rows, pair) ==> pairs.contains(pair),
        0 <= i < rows.len(),
    ensures
        label(rows[i] as int) == label(rows[0] as int),
    decreases i,
{
    if i > 0 {
        lemma_same_label_along(label, pairs, rows, i - 1);
        let pair = ordered_pair(rows[i - 1], rows[i - 1 + 1]);
        assert(is_adjacent(rows, pair));
        assert(pairs.contains(pair));
        let k = choose|k: int| 0 <= k < pairs.len() && pairs[k] == pair;
        assert(label(pairs[k].0 as int) == label(pairs[k].1 as int));
    }
}

/// Pairs that hold every two neighbors of an arrangement of the rows, and
/// none twice, are at least one fewer than the rows.
pub proof fn lemma_neighbors_count(pairs: Seq<(usize, usize)>, rows: Seq<usize>, n: nat)
    requires
        is_arrangement(rows, n),
        n <= usize::MAX,
        pairs.no_duplicates(),
        forall|pair: (usize, usize)| is_adjacent(rows, pair) ==> pairs.contains(pair),
    ensures
        gaps(n) <= pairs.len(),
{
    broadcast use vstd::seq_lib::seq_to_set_is_finite;

    lemma_arrangement(rows, n);
    if n >= 2 {
        let adjacent = Seq::new(
            (n - 1) as nat,
            |i: int| ordered_pair(rows[i], rows[i + 1]),
        );
        assert forall|i: int, j: int|
            0 <= i < adjacent.len() && 0 <= j < adjacent.len() && i != j implies adjacent[i]
            != adjacent[j] by {
            assert(rows[i] != rows[j]);
            assert(rows[i + 1] != rows[j + 1]);
            assert(rows[i] != rows[i + 1]);
            assert(rows[j] != rows[j + 1]);
            if adjacent[i] == adjacent[j] {
                assert(rows[i] == rows[j + 1] && rows[i + 1] == rows[j]);
                assert(i == j + 1 && i + 1 == j);
            }
        }
        assert(adjacent.to_set().subset_of(pairs.to_set())) by {
            assert forall|pair: (usize, usize)|
                adjacent.to_set().contains(pair) implies pairs.to_set().contains(pair) by {
                let i = choose|i: int| 0 <= i < adjacent.len() && adjacent[i] == pair;
                assert(pair == ordered_pair(rows[i], rows[i + 1]));
                assert(is_adjacent(rows, pair));
            }
        }
        adjacent.unique_seq_to_set();
        pairs.unique_seq_to_set();
        vstd::set_lib::lemma_len_subset(adjacent.to_set(), pairs.to_set());
    }
}

/// The place of a pair among the pairs of rows, those with the smaller
/// larger row first.
spec fn pair_place(pair: (usize, usize)) -> int {
    pair_count(pair.1 as nat) + pair.0
}

/// Pairs of rows out of `n` of which none occurs twice are no more than there
/// are pairs of rows.
pub proof fn lemma_pairs_bounded(pairs: Seq<(usize, usize)>, n: nat)
    requires
        pairs.no_duplicates(),
        pairs_in_range(pairs, n),
    ensures
        pairs.len() <= pair_count(n),
        2 * pairs.len() <= n * (n - 1),
{
    let places = pairs.map_values(|pair: (usize, usize)| pair_place(pair));
    assert forall|i: int| 0 <= i < places.len() implies 0 <= #[trigger] places[i] < pair_count(
        n,
    ) by {
        let pair = pairs[i];
        assert(pair.0 < pair.1 < n);
        lemma_pair_count_grows((pair.1 + 1) as nat, n);
        assert(pair_count((pair.1 + 1) as nat) == pair_count(pair.1 as nat) + pair.1);
    }
    assert forall|i: int, j: int|
        0 <= i < places.len() && 0 <= j < places.len() && i != j implies places[i]
        != places[j] by {
        let p = pairs[i];
        let q = pairs[j];
        assert(p != q);
        assert(p.0 < p.1 && q.0 < q.1);
        if p.1 < q.1 {
            lemma_pair_count_grows((p.1 + 1) as nat, q.1 as nat);
            assert(pair_count((p.1 + 1) as nat) == pair_count(p.1 as nat) + p.1);
        } else if q.1 < p.1 {
            lemma_pair_count_grows((q.1 + 1) as nat, p.1 as nat);
            assert(pair_count((q.1 + 1) as nat) == pair_count(q.1 as nat) + q.1);
        }
    }
    lemma_count_numbers(places, pair_count(n));
    lemma_pair_count(n);
}

/// Shuffles the columns with `SliceRandom::shuffle` of the `rand` crate.
/// Stated here without proof: the shuffle swaps items, so that afterwards the
/// same columns are there, in an order that depends on the generator.
#[verifier::external_body]
fn shuffle_columns<R: RngCore>(columns: &mut Vec<usize>, rng: &mut R)
    ensures
        final(columns)@.to_multiset() == old(columns)@.to_multiset(),
{
    columns.shuffle(rng);
}

/// The first position at which the column stands.
pub open spec fn first_position(columns: Seq<usize>, focus: usize, p: int) -> bool {
    &&& 0 <= p < columns.len()
    &&& columns[p] == focus
    &&& forall|j: int| 0 <= j < p ==> columns[j] != focus
}

/// Swaps the column `focus` with the last column, so that it is the last by
/// which rows are compared.
pub fn move_to_last(columns: &mut Vec<usize>, focus: usize)
    requires
        old(columns)@.contains(focus),
    ensures
        final(columns)@.last() == focus,
        final(columns)@.to_multiset() == old(columns)@.to_multiset(),
        exists|p: int|
            first_position(old(columns)@, focus, p) && final(columns)@ == old(columns)@.update(
                p,
                old(columns)@.last(),
            ).update(old(columns)@.len() - 1, focus),
{
    let n: usize = columns.len();
    let mut p: usize = 0;
    while p < n && columns[p] != focus
        invariant
            n == columns.len(),
            columns@ == old(columns)@,
            0 <= p <= n,
            forall|j: int| 0 <= j < p ==> columns[j] != focus,
        decreases n - p,
    {
        p += 1;
    }
    assert(p < n) by {
        let k = choose|k: int| 0 <= k < columns.len() && columns[k] == focus;
        assert(k >= p);
    }
    let last = columns[n - 1];
    columns[p] = last;
    columns[n - 1] = focus;
    proof {
        assert(first_position(old(columns)@, focus, p as int));
        lemma_swap_keeps_items(old(columns)@, p as int, n - 1);
    }
}

/// Inserts the pair of every two rows that stand next to each other.
pub fn add_adjacent_rows(neighbors: &mut NeighborSet, rows: &Vec<usize>)
    requires
        rows@.no_duplicates(),
    ensures
        forall|pair: (usize, usize)| #[trigger]
            final(neighbors)@.contains(pair) <==> old(neighbors)@.contains(pair) || is_adjacent(
                rows@,
                pair,
            ),
        old(neighbors)@.len() <= final(neighbors)@.len() <= old(neighbors)@.len() + gaps(
            rows@.len(),
        ),
        final(neighbors)@.subrange(0, old(neighbors)@.len() as int) == old(neighbors)@,
{
    if rows.len() < 2 {
        assert(final(neighbors)@.subrange(0, old(neighbors)@.len() as int) == old(neighbors)@);
        return ;
    }
    let mut i: usize = 0;
    while i < rows.len() - 1
        invariant
            rows.len() >= 2,
            rows@.no_duplicates(),
            0 <= i <= rows.len() - 1,
            forall|pair: (usize, usize)| #[trigger]
                neighbors@.contains(pair) <==> old(neighbors)@.contains(pair) || is_adjacent(
                    rows@.subrange(0, i + 1),
                    pair,
                ),
            old(neighbors)@.len() <= neighbors@.len() <= old(neighbors)@.len() + i,
            neighbors@.subrange(0, old(neighbors)@.len() as int) == old(neighbors)@,
        decreases rows.len() - i,
    {
        let ghost held = neighbors@;
        let row1 = rows[i];
        let row2 = rows[i + 1];
        neighbors.insert(row1, row2);
        proof {
            let added = ordered_pair(row1, row2);
            let shorter = rows@.subrange(0, i + 1);
            let longer = rows@.subrange(0, i + 2);
            assert(longer[i as int] == row1 && longer[i + 1] == row2);
            assert forall|pair: (usize, usize)|
                is_adjacent(longer, pair) <==> is_adjacent(shorter, pair) || pair == added by {
                if is_adjacent(shorter, pair) {
                    let k = choose|k: int|
                        0 <= k < shorter.len() - 1 && pair == ordered_pair(
                            shorter[k],
                            #[trigger] shorter[k + 1],
                        );
                    assert(pair == ordered_pair(longer[k], longer[k + 1]));
                }
                if is_adjacent(longer, pair) {
                    let k = choose|k: int|
                        0 <= k < longer.len() - 1 && pair == ordered_pair(
                            longer[k],
                            #[trigger] longer[k + 1],
                        );
                    if k < i {
                        assert(pair == ordered_pair(shorter[k], shorter[k + 1]));
                    }
                }
                if pair == added {
                    assert(pair == ordered_pair(longer[i as int], longer[i + 1]));
                }
            }
            assert forall|pair: (usize, usize)| #[trigger]
                neighbors@.contains(pair) <==> old(neighbors)@.contains(pair) || is_adjacent(
                    longer,
                    pair,
                ) by {
                assert(held.contains(pair) <==> old(neighbors)@.contains(pair) || is_adjacent(
                    shorter,
                    pair,
                ));
                assert(is_adjacent(longer, pair) <==> is_adjacent(shorter, pair) || pair == added);
                if neighbors@ == held.push(added) {
                    assert(neighbors@[held.len() as int] == added);
                    if held.contains(pair) {
                        let k = choose|k: int| 0 <= k < held.len() && held[k] == pair;
                        assert(neighbors@[k] == pair);
                    }
                }
            }
            assert(neighbors@.subrange(0, old(neighbors)@.len() as int) =~= held.subrange(
                0,
                old(neighbors)@.len() as int,
            ));
        }
        i += 1;
    }
    assert(rows@.subrange(0, i + 1) == rows@);
}

/// The number of rounds that are made: `init_iterations`, and one where that is
/// absent or less than one.
pub open spec fn rounds_of(init_iterations: Option<i32>) -> int {
    match init_iterations {
        Some(n) => if n < 1 {
            1
        } else {
            n as int
        },
        None => 1,
    }
}

/// The rows are all of the rows of the data, sorted by their values in the
/// columns, which are all of the columns in some order.
pub open spec fn is_sorted_pass<D: IndexableData>(
    data: &D,
    columns: Seq<usize>,
    rows: Seq<usize>,
) -> bool {
    &&& is_arrangement(columns, data.columns_spec())
    &&& is_arrangement(rows, data.rows_spec())
    &&& sorted_rows(data, columns, rows)
}

/// The two rows of the pair stand next to each other when the rows are
/// sorted by their values, the columns taken in some order.
pub open spec fn is_neighbor_pair<D: IndexableData>(data: &D, pair: (usize, usize)) -> bool {
    exists|columns: Seq<usize>, rows: Seq<usize>| #[trigger]
        is_sorted_pass(data, columns, rows) && is_adjacent(rows, pair)
}

/// The pairs hold every two rows that stand next to each other when the
/// rows are sorted by their values, the columns taken in some order in which
/// `focus` is the last.
pub open spec fn covers_focus<D: IndexableData>(
    data: &D,
    pairs: Seq<(usize, usize)>,
    focus: usize,
) -> bool {
    exists|columns: Seq<usize>, rows: Seq<usize>| #[trigger]
        is_sorted_pass(data, columns, rows) && columns.last() == focus && forall|
            pair: (usize, usize),
        |
            is_adjacent(rows, pair) ==> pairs.contains(pair)
}

/// Seeks pairs of rows that are likely to be close to each other.
///
/// In every round each column takes its turn as the focus. The columns are
/// shuffled, the focus column is moved to the last place, the rows are
/// sorted by their values in the columns in that order, and every two rows
/// that then stand next to each other become a pair. `init_iterations` is the
/// number of rounds; without it, or where it is less than one, one round is
/// made.
///
/// In which orders the columns are taken depends on the generator, and so
/// does which pairs are found. Whatever it gives, every pair is of two rows
/// that are neighbors in one such order, and for every column the neighbors
/// in an order in which it is the last are all found. The pairs therefore
/// connect all of the rows. There are at least as many pairs as it takes to
/// connect the rows, one fewer than rows, at most that many for every turn
/// of a column, and never more than there are pairs of rows.
pub fn find_neighbors<D: IndexableData, R: RngCore>(
    data: &D,
    init_iterations: Option<i32>,
    rng: &mut R,
) -> (neighbors: NeighborSet)
    requires
        data.columns_spec() >= 1,
    ensures
        forall|k: int|
            0 <= k < neighbors@.len() ==> is_neighbor_pair(data, #[trigger] neighbors@[k]),
        forall|focus: usize|
            focus < data.columns_spec() ==> covers_focus(data, neighbors@, focus),
        pairs_in_range(neighbors@, data.rows_spec()),
        neighbors@.no_duplicates(),
        pairs_connect(neighbors@, data.rows_spec()),
        gaps(data.rows_spec()) <= neighbors@.len() <= rounds_of(init_iterations)
            * data.columns_spec() * gaps(data.rows_spec()),
        2 * neighbors@.len() <= data.rows_spec() * (data.rows_spec() - 1),
{
    let init_ite: i32 = match init_iterations {
        Some(n) => if n < 1 {
            1
        } else {
            n
        },
        None => 1,
    };
    let num_rows = data.get_num_rows();
    let num_columns = data.get_num_columns();
    let mut neighbors = NeighborSet::new();
    let mut row_indices = first_indices(num_rows);
    let mut col_indices = first_indices(num_columns);
    let mut round: i32 = 0;
    let ghost turns: int = 0;
    while round < init_ite
        invariant
            turns == round * num_columns,
            neighbors@.len() <= turns * gaps(num_rows as nat),
            num_rows == data.rows_spec(),
            num_columns == data.columns_spec(),
            num_columns >= 1,
            init_ite >= 1,
            0 <= round <= init_ite,
            is_arrangement(row_indices@, num_rows as nat),
            is_arrangement(col_indices@, num_columns as nat),
            pairs_in_range(neighbors@, num_rows as nat),
            round >= 1 ==> pairs_connect(neighbors@, num_rows as nat),
            forall|k: int|
                0 <= k < neighbors@.len() ==> is_neighbor_pair(data, #[trigger] neighbors@[k]),
            forall|focus: usize|
                round >= 1 && focus < num_columns ==> covers_focus(data, neighbors@, focus),
        decreases init_ite - round,
    {
        let mut c: usize = 0;
        while c < num_columns
            invariant
                turns == round * num_columns + c,
                neighbors@.len() <= turns * gaps(num_rows as nat),
                num_rows == data.rows_spec(),
                num_columns == data.columns_spec(),
                0 <= c <= num_columns,
                is_arrangement(row_indices@, num_rows as nat),
                is_arrangement(col_indices@, num_columns as nat),
                pairs_in_range(neighbors@, num_rows as nat),
                round >= 1 || c >= 1 ==> pairs_connect(neighbors@, num_rows as nat),
                forall|k: int|
                    0 <= k < neighbors@.len() ==> is_neighbor_pair(data, #[trigger] neighbors@[k]),
                forall|focus: usize|
                    (round >= 1 || focus < c) && focus < num_columns ==> covers_focus(
                        data,
                        neighbors@,
                        focus,
                    ),
            decreases num_columns - c,
        {
            shuffle_columns(&mut col_indices, rng);
            proof {
                lemma_arrangement(col_indices@, num_columns as nat);
            }
            // the column at hand becomes the last one by which rows are compared, so that
            // every column is the last one once, whatever the shuffle gives
            move_to_last(&mut col_indices, c);
            proof {
                lemma_arrangement(col_indices@, num_columns as nat);
                lemma_arrangement(row_indices@, num_rows as nat);
            }
            sort_rows(&mut row_indices, data, &col_indices);
            proof {
                lemma_arrangement(row_indices@, num_rows as nat);
            }
            let ghost held = neighbors@;
            add_adjacent_rows(&mut neighbors, &row_indices);
            proof {
                lemma_neighbors_connect(neighbors@, row_indices@, num_rows as nat);
                assert forall|k: int| 0 <= k < neighbors@.len() implies (
                #[trigger] neighbors@[k]).0 < neighbors@[k].1 < num_rows by {
                    let pair = neighbors@[k];
                    assert(neighbors@.contains(pair));
                    assert(held.contains(pair) || is_adjacent(row_indices@, pair));
                    if held.contains(pair) {
                        let j = choose|j: int| 0 <= j < held.len() && held[j] == pair;
                        assert(held[j].0 < held[j].1 < num_rows);
                    } else {
                        let i = choose|i: int|
                            0 <= i < row_indices@.len() - 1 && pair == ordered_pair(
                                row_indices@[i],
                                #[trigger] row_indices@[i + 1],
                            );
                        assert(row_indices@[i] != row_indices@[i + 1]);
                    }
                }
            }
            proof {
                assert(is_sorted_pass(data, col_indices@, row_indices@));
                assert forall|k: int| 0 <= k < neighbors@.len() implies is_neighbor_pair(
                    data,
                    #[trigger] neighbors@[k],
                ) by {
                    let pair = neighbors@[k];
                    assert(neighbors@.contains(pair));
                    assert(held.contains(pair) || is_adjacent(row_indices@, pair));
                    if held.contains(pair) {
                        let j = choose|j: int| 0 <= j < held.len() && held[j] == pair;
                        assert(is_neighbor_pair(data, held[j]));
                    }
                }
                assert forall|focus: usize|
                    (round >= 1 || focus < c + 1) && focus < num_columns implies covers_focus(
                    data,
                    neighbors@,
                    focus,
                ) by {
                    if round >= 1 || focus < c {
                        assert(covers_focus(data, held, focus));
                        let (columns, rows) = choose|columns: Seq<usize>, rows: Seq<usize>| #[trigger]
                            is_sorted_pass(data, columns, rows) && columns.last() == focus
                                && forall|pair: (usize, usize)|
                                is_adjacent(rows, pair) ==> held.contains(pair);
                        assert forall|pair: (usize, usize)|
                            is_adjacent(rows, pair) implies neighbors@.contains(pair) by {
                            assert(held.contains(pair));
                        }
                        assert(is_sorted_pass(data, columns, rows));
                    } else {
                        assert(col_indices@.last() == focus);
                    }
                }
                let most = gaps(num_rows as nat);
                assert(turns * most + most == (turns + 1) * most) by (nonlinear_arith);
                turns = turns + 1;
            }
            c += 1;
        }
        proof {
            assert(round * num_columns + num_columns == (round + 1) * num_columns)
                by (nonlinear_arith);
        }
        round += 1;
    }
    assert(init_ite == rounds_of(init_iterations));
    proof {
        use_type_invariant(&neighbors);
        assert(covers_focus(data, neighbors@, 0));
        let (columns, rows) = choose|columns: Seq<usize>, rows: Seq<usize>| #[trigger]
            is_sorted_pass(data, columns, rows) && columns.last() == 0 && forall|
                pair: (usize, usize),
            |
                is_adjacent(rows, pair) ==> neighbors@.contains(pair);
        lemma_neighbors_count(neighbors@, rows, num_rows as nat);
        lemma_pairs_bounded(neighbors@, num_rows as nat);
    }
    neighbors
}

} // verus!
