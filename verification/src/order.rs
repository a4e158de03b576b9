use crate::data::IndexableData;
use std::cmp::Ordering;
use vstd::prelude::*;

verus! {

/// How one row stands to another.
pub enum Precedence {
    Before,
    Same,
    After,
}

/// The value of a row in the `k`-th of the columns.
pub open spec fn value_at<D: IndexableData>(
    data: &D,
    columns: Seq<usize>,
    row: usize,
    k: int,
) -> int {
    data.value_spec(row as int, columns[k] as int)
}

/// The two rows have the same values in the first `k` columns.
pub open spec fn agree_before<D: IndexableData>(
    data: &D,
    columns: Seq<usize>,
    a: usize,
    b: usize,
    k: int,
) -> bool {
    forall|j: int| 0 <= j < k ==> value_at(data, columns, a, j) == value_at(data, columns, b, j)
}

/// Row `a` comes before row `b` in the lexicographic order of their values,
/// the columns taken in the order given: in the first column in which they
/// differ, `a` has the smaller value.
pub open spec fn precedes<D: IndexableData>(
    data: &D,
    columns: Seq<usize>,
    a: usize,
    b: usize,
) -> bool {
    exists|k: int|
        0 <= k < columns.len() && agree_before(data, columns, a, b, k) && value_at(
            data,
            columns,
            a,
            k,
        ) < value_at(data, columns, b, k)
}

/// Every row is a row of the data.
pub open spec fn rows_in_range<D: IndexableData>(data: &D, rows: Seq<usize>) -> bool {
    forall|i: int| 0 <= i < rows.len() ==> rows[i] < data.rows_spec()
}

/// Every column is a column of the data.
pub open spec fn columns_in_range<D: IndexableData>(data: &D, columns: Seq<usize>) -> bool {
    forall|i: int| 0 <= i < columns.len() ==> columns[i] < data.columns_spec()
}

/// No row comes before a row that stands earlier in the sequence.
pub open spec fn sorted_rows<D: IndexableData>(
    data: &D,
    columns: Seq<usize>,
    rows: Seq<usize>,
) -> bool {
    forall|i: int, j: int| 0 <= i < j < rows.len() ==> !precedes(data, columns, rows[j], rows[i])
}

/// Compares two rows by their values, the columns taken in the order given.
pub fn row_precedence<D: IndexableData>(data: &D, columns: &Vec<usize>, a: usize, b: usize) -> (p:
    Precedence)
    requires
        a < data.rows_spec(),
        b < data.rows_spec(),
        columns_in_range(data, columns@),
    ensures
        p is Before <==> precedes(data, columns@, a, b),
        p is After <==> precedes(data, columns@, b, a),
{
    let mut k: usize = 0;
    while k < columns.len()
        invariant
            0 <= k <= columns.len(),
            a < data.rows_spec(),
            b < data.rows_spec(),
            columns_in_range(data, columns@),
            agree_before(data, columns@, a, b, k as int),
        decreases columns.len() - k,
    {
        let v1 = data.get_value(a, columns[k]);
        let v2 = data.get_value(b, columns[k]);
        if v1 < v2 {
            proof {
                lemma_first_difference(data, columns@, a, b, k as int);
            }
            return Precedence::Before;
        } else if v1 > v2 {
            proof {
                assert(agree_before(data, columns@, b, a, k as int));
                lemma_first_difference(data, columns@, b, a, k as int);
            }
            return Precedence::After;
        }
        k += 1;
    }
    proof {
        assert forall|j: int| 0 <= j < columns.len() implies value_at(data, columns@, a, j)
            == value_at(data, columns@, b, j) by {}
    }
    Precedence::Same
}

/// Where two rows differ first, the one with the smaller value comes before
/// the other, and the other does not come before it.
proof fn lemma_first_difference<D: IndexableData>(
    data: &D,
    columns: Seq<usize>,
    a: usize,
    b: usize,
    k: int,
)
    requires
        0 <= k < columns.len(),
        agree_before(data, columns, a, b, k),
        value_at(data, columns, a, k) < value_at(data, columns, b, k),
    ensures
        precedes(data, columns, a, b),
        !precedes(data, columns, b, a),
{
    if precedes(data, columns, b, a) {
        let j = choose|j: int|
            0 <= j < columns.len() && agree_before(data, columns, b, a, j) && value_at(
                data,
                columns,
                b,
                j,
            ) < value_at(data, columns, a, j);
        if j < k {
            assert(value_at(data, columns, a, j) == value_at(data, columns, b, j));
        } else if j > k {
            assert(value_at(data, columns, b, k) == value_at(data, columns, a, k));
        }
    }
}

/// The order of two rows as an `Ordering`.
pub fn compare_rows<D: IndexableData>(data: &D, columns: &Vec<usize>, a: usize, b: usize) -> (o:
    Ordering)
    requires
        a < data.rows_spec(),
        b < data.rows_spec(),
        columns_in_range(data, columns@),
    ensures
        o is Less <==> precedes(data, columns@, a, b),
        o is Greater <==> precedes(data, columns@, b, a),
{
    match row_precedence(data, columns, a, b) {
        Precedence::Before => Ordering::Less,
        Precedence::Same => Ordering::Equal,
        Precedence::After => Ordering::Greater,
    }
}

/// Sorts the rows with `sort_unstable_by` of the standard library, which
/// compares them with [`compare_rows`], a total order as that function asks
/// for. Stated here without proof, as the documentation of that function has
/// it: the rows are rearranged, none is added or lost, and afterwards no row
/// comes before one that stands earlier. Rows that compare as equal may end
/// up in any order.
#[verifier::external_body]
pub(crate) fn sort_rows<D: IndexableData>(rows: &mut Vec<usize>, data: &D, columns: &Vec<usize>)
    requires
        rows_in_range(data, old(rows)@),
        columns_in_range(data, columns@),
    ensures
        final(rows)@.to_multiset() == old(rows)@.to_multiset(),
        sorted_rows(data, columns@, final(rows)@),
{
    rows.sort_unstable_by(|a, b| compare_rows(data, columns, *a, *b));
}

} // verus!
