use vstd::prelude::*;

verus! {

/// The rows `0..n`, in order.
pub open spec fn all_rows(n: nat) -> Seq<usize> {
    Seq::new(n, |i: int| i as usize)
}

/// The sequence holds each of the rows `0..n` once, in any order.
pub open spec fn is_arrangement(items: Seq<usize>, n: nat) -> bool {
    items.to_multiset() == all_rows(n).to_multiset()
}

/// The labelling gives all of the rows the same label.
pub open spec fn constant_on(label: spec_fn(int) -> int, rows: Seq<usize>) -> bool {
    forall|i: int, j: int|
        0 <= i < rows.len() && 0 <= j < rows.len() ==> label(rows[i] as int) == label(
            rows[j] as int,
        )
}

/// Rows below `n` of which none occurs twice are at most `n`, and exactly `n`
/// where every row below `n` is among them.
pub proof fn lemma_count_rows(rows: Seq<usize>, n: nat)
    requires
        rows.no_duplicates(),
        forall|i: int| 0 <= i < rows.len() ==> rows[i] < n,
        n <= usize::MAX,
    ensures
        rows.len() <= n,
        (forall|row: usize| row < n ==> rows.contains(row)) ==> rows.len() == n,
{
    let ints = rows.map_values(|row: usize| row as int);
    assert(ints.no_duplicates());
    ints.unique_seq_to_set();
    vstd::set_lib::lemma_int_range(0, n as int);
    let range = vstd::set_lib::set_int_range(0, n as int);
    assert(ints.to_set().subset_of(range)) by {
        assert forall|v: int| ints.to_set().contains(v) implies range.contains(v) by {
            let k = choose|k: int| 0 <= k < ints.len() && ints[k] == v;
            assert(ints[k] == rows[k] as int);
        }
    }
    vstd::set_lib::lemma_len_subset(ints.to_set(), range);
    if forall|row: usize| row < n ==> rows.contains(row) {
        assert(ints.to_set() =~= range) by {
            assert forall|v: int| range.contains(v) implies ints.to_set().contains(v) by {
                let row = v as usize;
                assert(rows.contains(row));
                let k = choose|k: int| 0 <= k < rows.len() && rows[k] == row;
                assert(ints[k] == v);
            }
        }
    }
}

/// Numbers from zero up to `n`, the last left out, of which none occurs
/// twice are at most `n`.
pub proof fn lemma_count_numbers(items: Seq<int>, n: nat)
    requires
        items.no_duplicates(),
        forall|i: int| 0 <= i < items.len() ==> 0 <= #[trigger] items[i] < n,
    ensures
        items.len() <= n,
{
    items.unique_seq_to_set();
    vstd::set_lib::lemma_int_range(0, n as int);
    let range = vstd::set_lib::set_int_range(0, n as int);
    assert(items.to_set().subset_of(range)) by {
        assert forall|v: int| items.to_set().contains(v) implies range.contains(v) by {
            let k = choose|k: int| 0 <= k < items.len() && items[k] == v;
        }
    }
    vstd::set_lib::lemma_len_subset(items.to_set(), range);
}

/// The number of places between `n` items that stand in a row.
pub open spec fn gaps(n: nat) -> nat {
    if n == 0 {
        0
    } else {
        (n - 1) as nat
    }
}

/// The number of pairs of two different items out of `n`.
pub open spec fn pair_count(n: nat) -> nat
    decreases n,
{
    if n == 0 {
        0
    } else {
        pair_count((n - 1) as nat) + (n - 1) as nat
    }
}

/// There are `n * (n - 1) / 2` pairs of two different items out of `n`.
pub proof fn lemma_pair_count(n: nat)
    ensures
        2 * pair_count(n) == n * (n - 1),
    decreases n,
{
    if n > 0 {
        let m = (n - 1) as nat;
        lemma_pair_count(m);
        assert(2 * pair_count(n) == 2 * pair_count(m) + 2 * m);
        assert(m * (m - 1) + 2 * m == (m + 1) * m) by (nonlinear_arith);
        assert(n * (n - 1) == (m + 1) * m);
    } else {
        assert(n * (n - 1) == 0) by (nonlinear_arith)
            requires
                n == 0,
        ;
    }
}

/// More items make no fewer pairs.
pub proof fn lemma_pair_count_grows(fewer: nat, more: nat)
    requires
        fewer <= more,
    ensures
        pair_count(fewer) <= pair_count(more),
    decreases more,
{
    if fewer < more {
        lemma_pair_count_grows(fewer, (more - 1) as nat);
    }
}

/// An arrangement of the rows `0..n` has `n` items, all below `n` and no two
/// the same, and every row below `n` is among them.
pub proof fn lemma_arrangement(items: Seq<usize>, n: nat)
    requires
        is_arrangement(items, n),
        n <= usize::MAX,
    ensures
        items.len() == n,
        items.no_duplicates(),
        forall|i: int| 0 <= i < items.len() ==> items[i] < n,
        forall|row: usize| row < n <==> items.contains(row),
{
    broadcast use vstd::seq_lib::group_to_multiset_ensures;

    let rows = all_rows(n);
    items.to_multiset_ensures();
    rows.to_multiset_ensures();
    assert(rows.no_duplicates());
    rows.lemma_multiset_has_no_duplicates();
    items.lemma_multiset_has_no_duplicates_conv();
    assert forall|row: usize| row < n <==> items.contains(row) by {
        assert(items.to_multiset().count(row) == rows.to_multiset().count(row));
        if row < n {
            assert(rows[row as int] == row);
            assert(rows.contains(row));
        }
        if items.contains(row) {
            assert(rows.contains(row));
            let k = choose|k: int| 0 <= k < rows.len() && rows[k] == row;
        }
    }
    assert forall|i: int| 0 <= i < items.len() implies items[i] < n by {
        assert(items.contains(items[i]));
    }
}

/// The indices `0..n`, in order.
pub fn first_indices(n: usize) -> (rows: Vec<usize>)
    ensures
        rows@ == all_rows(n as nat),
{
    let mut rows: Vec<usize> = Vec::new();
    let mut i: usize = 0;
    while i < n
        invariant
            0 <= i <= n,
            rows@ == all_rows(i as nat),
        decreases n - i,
    {
        rows.push(i);
        assert(rows@ =~= all_rows((i + 1) as nat));
        i += 1;
    }
    rows
}

/// A sequence with one item replaced holds what it held, but for the item
/// that went and the one that came.
pub proof fn lemma_update_keeps_rest<A>(items: Seq<A>, i: int, item: A)
    requires
        0 <= i < items.len(),
    ensures
        items.update(i, item).to_multiset() == items.to_multiset().remove(items[i]).insert(item),
{
    broadcast use vstd::seq_lib::group_to_multiset_ensures;

    assert(items.update(i, item) =~= items.remove(i).insert(i, item));
    vstd::seq_lib::to_multiset_remove(items, i);
    vstd::seq_lib::to_multiset_insert(items.remove(i), i, item);
}

/// A sequence in which two items have changed places holds what it held.
pub proof fn lemma_swap_keeps_items<A>(items: Seq<A>, i: int, j: int)
    requires
        0 <= i < items.len(),
        0 <= j < items.len(),
    ensures
        items.update(i, items[j]).update(j, items[i]).to_multiset() == items.to_multiset(),
{
    broadcast use vstd::seq_lib::group_to_multiset_ensures;

    let a = items[i];
    let b = items[j];
    items.to_multiset_ensures();
    assert(items.contains(a));
    assert(items.contains(b));
    if i == j {
        assert(items.update(i, items[j]).update(j, items[i]) =~= items);
    } else {
        lemma_update_keeps_rest(items, i, b);
        lemma_update_keeps_rest(items.update(i, b), j, a);
        assert(items.to_multiset().remove(a).insert(b).remove(b).insert(a)
            =~= items.to_multiset());
    }
}

} // verus!
