use crate::data::{monotone_union, size_tells, ClusterSummary, IndexableData};
use crate::algorithm::create_dendrogram;
use crate::dendrogram::Dendrogram;
use crate::lineage::{merged_at_distances, summarises};
use rand::RngCore;
use std::collections::HashSet;
use vstd::prelude::*;
use vstd::std_specs::iter::IteratorSpec;

verus! {

/// A set of categories is finite and holds at most as many as there are.
pub proof fn lemma_categories_bounded(categories: Set<u16>)
    ensures
        categories.finite(),
        categories.len() <= 0x1_0000,
{
    broadcast use vstd::set::group_set_axioms;

    let all = Set::<u16>::full();
    let most = Set::<u16>::range(0, 0xffff);
    vstd::set_lib::range_set_properties::<u16>(0, 0xffff);
    assert(all =~= most.insert(0xffff));
    assert(all.len() == 0x1_0000);
    assert(categories.subset_of(all));
    vstd::set_lib::lemma_len_subset(categories, all);
}

/// The categories of a set, each once, in the order in which the set hands
/// them out.
fn categories_of(set: &HashSet<u16>) -> (categories: Vec<u16>)
    ensures
        categories@.no_duplicates(),
        categories@.to_set() == set@,
        categories@.len() == set@.len(),
{
    broadcast use vstd::std_specs::hash::group_hash_axioms;

    let mut categories: Vec<u16> = Vec::new();
    let ghost keys = set.iter().remaining().unref();
    let ghost done: int = 0;
    for x in it: set.iter()
        invariant
            it.seq().unref() == keys,
            done == it.index(),
            categories@ == keys.take(done),
    {
        categories.push(*x);
        proof {
            assert(keys.take(done + 1) =~= keys.take(done).push(*x));
            done = done + 1;
        }
    }
    assert(categories@ =~= keys);
    categories
}

proof fn lemma_take_next(items: Seq<u16>, i: int)
    requires
        0 <= i < items.len(),
    ensures
        items.take(i + 1).to_set() == items.take(i).to_set().insert(items[i]),
{
    let shorter = items.take(i);
    let longer = items.take(i + 1);
    assert(longer =~= shorter.push(items[i]));
    assert forall|y: u16| longer.contains(y) <==> shorter.contains(y) || y == items[i] by {
        if longer.contains(y) {
            let k = choose|k: int| 0 <= k < longer.len() && longer[k] == y;
            if k < i {
                assert(shorter[k] == y);
            }
        }
        if shorter.contains(y) {
            let k = choose|k: int| 0 <= k < shorter.len() && shorter[k] == y;
            assert(longer[k] == y);
        }
        if y == items[i] {
            assert(longer[i] == y);
        }
    }
    assert(longer.to_set() =~= shorter.to_set().insert(items[i]));
}

/// The number of categories that are in both sets.
fn count_common(first: &HashSet<u16>, second: &HashSet<u16>) -> (n: usize)
    ensures
        n == first@.intersect(second@).len(),
        n <= first@.len(),
{
    broadcast use vstd::std_specs::hash::group_hash_axioms;
    broadcast use vstd::set::group_set_axioms;

    let categories = categories_of(first);
    let mut n: usize = 0;
    let mut i: usize = 0;
    proof {
        assert(categories@.take(0).to_set() =~= Set::<u16>::empty());
        assert(Set::<u16>::empty().intersect(second@) =~= Set::<u16>::empty());
    }
    while i < categories.len()
        invariant
            0 <= i <= categories.len(),
            categories@.no_duplicates(),
            n <= i,
            n == categories@.take(i as int).to_set().intersect(second@).len(),
        decreases categories.len() - i,
    {
        let x = categories[i];
        proof {
            let seen = categories@.take(i as int).to_set();
            let next = categories@.take(i + 1).to_set();
            lemma_take_next(categories@, i as int);
            assert(!seen.contains(x)) by {
                if seen.contains(x) {
                    let k = choose|k: int| 0 <= k < i && categories@.take(i as int)[k] == x;
                    assert(categories@[k] == categories@[i as int]);
                }
            }
            lemma_categories_bounded(seen.intersect(second@));
            if second@.contains(x) {
                assert(next.intersect(second@) =~= seen.intersect(second@).insert(x));
            } else {
                assert(next.intersect(second@) =~= seen.intersect(second@));
            }
        }
        if second.contains(&x) {
            n += 1;
        }
        i += 1;
    }
    assert(categories@.take(i as int) =~= categories@);
    n
}

/// Adds the categories of `src` to `dest`.
fn union_into(dest: &mut HashSet<u16>, src: &HashSet<u16>)
    ensures
        final(dest)@ == old(dest)@.union(src@),
{
    broadcast use vstd::std_specs::hash::group_hash_axioms;
    broadcast use vstd::set::group_set_axioms;

    let categories = categories_of(src);
    let mut i: usize = 0;
    proof {
        assert(categories@.take(0).to_set() =~= Set::<u16>::empty());
        assert(dest@ =~= old(dest)@.union(Set::<u16>::empty()));
    }
    while i < categories.len()
        invariant
            0 <= i <= categories.len(),
            dest@ == old(dest)@.union(categories@.take(i as int).to_set()),
        decreases categories.len() - i,
    {
        let x = categories[i];
        dest.insert(x);
        proof {
            let seen = categories@.take(i as int).to_set();
            let next = categories@.take(i + 1).to_set();
            lemma_take_next(categories@, i as int);
            assert(dest@ =~= old(dest)@.union(next));
        }
        i += 1;
    }
    assert(categories@.take(i as int) =~= categories@);
}

/// The largest number of columns that a summary holds.
pub const MAX_COLUMNS: usize = 0xffff;

/// The categories of column `i`, which are none where there is no such
/// column.
pub open spec fn column(columns: Seq<Set<u16>>, i: int) -> Set<u16> {
    if 0 <= i < columns.len() {
        columns[i]
    } else {
        Set::empty()
    }
}

/// The number of categories in the first `k` columns, each column counted
/// for itself.
pub open spec fn size_upto(columns: Seq<Set<u16>>, k: nat) -> nat
    decreases k,
{
    if k == 0 {
        0
    } else {
        size_upto(columns, (k - 1) as nat) + column(columns, k - 1).len()
    }
}

/// The number of categories that either of the two has in the first `k`
/// columns, each column counted for itself.
pub open spec fn union_upto(first: Seq<Set<u16>>, second: Seq<Set<u16>>, k: nat) -> nat
    decreases k,
{
    if k == 0 {
        0
    } else {
        union_upto(first, second, (k - 1) as nat) + column(first, k - 1).union(
            column(second, k - 1),
        ).len()
    }
}

/// The number of categories that both have in the first `k` columns, each
/// column counted for itself.
pub open spec fn common_upto(first: Seq<Set<u16>>, second: Seq<Set<u16>>, k: nat) -> nat
    decreases k,
{
    if k == 0 {
        0
    } else {
        common_upto(first, second, (k - 1) as nat) + column(first, k - 1).intersect(
            column(second, k - 1),
        ).len()
    }
}

/// The number of columns of the wider of the two.
pub open spec fn width(first: Seq<Set<u16>>, second: Seq<Set<u16>>) -> nat {
    if first.len() < second.len() {
        second.len()
    } else {
        first.len()
    }
}

/// `first` has every column of `second`, with at least its categories.
pub open spec fn covers(first: Seq<Set<u16>>, second: Seq<Set<u16>>) -> bool {
    &&& second.len() <= first.len()
    &&& forall|i: int| 0 <= i < second.len() ==> (#[trigger] second[i]).subset_of(first[i])
}

proof fn lemma_size_bounded(columns: Seq<Set<u16>>, k: nat)
    ensures
        size_upto(columns, k) <= 0x1_0000 * k,
    decreases k,
{
    if k > 0 {
        lemma_size_bounded(columns, (k - 1) as nat);
        lemma_categories_bounded(column(columns, k - 1));
    }
}

proof fn lemma_size_past_end(columns: Seq<Set<u16>>, k: nat)
    requires
        columns.len() <= k,
    ensures
        size_upto(columns, k) == size_upto(columns, columns.len()),
    decreases k,
{
    broadcast use vstd::set::group_set_axioms;

    if k > columns.len() {
        lemma_size_past_end(columns, (k - 1) as nat);
    }
}

proof fn lemma_common_past_end(first: Seq<Set<u16>>, second: Seq<Set<u16>>, m: nat, k: nat)
    requires
        m <= k,
        first.len() <= m || second.len() <= m,
    ensures
        common_upto(first, second, k) == common_upto(first, second, m),
    decreases k,
{
    broadcast use vstd::set::group_set_axioms;

    if k > m {
        lemma_common_past_end(first, second, m, (k - 1) as nat);
        assert(column(first, k - 1).intersect(column(second, k - 1)) =~= Set::<u16>::empty());
    }
}

proof fn lemma_union_and_common(first: Seq<Set<u16>>, second: Seq<Set<u16>>, k: nat)
    ensures
        union_upto(first, second, k) + common_upto(first, second, k) == size_upto(first, k)
            + size_upto(second, k),
    decreases k,
{
    if k > 0 {
        lemma_union_and_common(first, second, (k - 1) as nat);
        let a = column(first, k - 1);
        let b = column(second, k - 1);
        lemma_categories_bounded(a);
        lemma_categories_bounded(b);
        vstd::set_lib::lemma_set_intersect_union_lens(a, b);
    }
}

proof fn lemma_size_grows(fewer: Seq<Set<u16>>, more: Seq<Set<u16>>, k: nat)
    requires
        covers(more, fewer),
    ensures
        size_upto(fewer, k) <= size_upto(more, k),
    decreases k,
{
    if k > 0 {
        lemma_size_grows(fewer, more, (k - 1) as nat);
        let a = column(fewer, k - 1);
        let b = column(more, k - 1);
        lemma_categories_bounded(b);
        assert(a.subset_of(b));
        vstd::set_lib::lemma_len_subset(a, b);
    }
}

proof fn lemma_union_grows(
    fewer: Seq<Set<u16>>,
    more: Seq<Set<u16>>,
    other: Seq<Set<u16>>,
    k: nat,
    wider: nat,
)
    requires
        covers(more, fewer),
        k <= wider,
    ensures
        union_upto(fewer, other, k) <= union_upto(more, other, wider),
        union_upto(other, fewer, k) <= union_upto(other, more, wider),
    decreases wider,
{
    if wider > 0 {
        if k == wider {
            lemma_union_grows(fewer, more, other, (k - 1) as nat, (wider - 1) as nat);
            let a = column(fewer, k - 1);
            let b = column(more, k - 1);
            let c = column(other, k - 1);
            lemma_categories_bounded(b.union(c));
            lemma_categories_bounded(c.union(b));
            assert(a.subset_of(b));
            assert(a.union(c).subset_of(b.union(c)));
            assert(c.union(a).subset_of(c.union(b)));
            vstd::set_lib::lemma_len_subset(a.union(c), b.union(c));
            vstd::set_lib::lemma_len_subset(c.union(a), c.union(b));
        } else {
            lemma_union_grows(fewer, more, other, k, (wider - 1) as nat);
        }
    }
}

/// The summary of one row: in every column, the category of the row, which
/// is what its lowest sixteen bits say.
pub open spec fn row_summary(row: Seq<i32>) -> Seq<Set<u16>> {
    Seq::new(row.len(), |i: int| set![row[i] as u16])
}

/// The sets that the vector holds.
pub open spec fn sets_of(sets: Seq<HashSet<u16>>) -> Seq<Set<u16>> {
    Seq::new(sets.len(), |i: int| sets[i]@)
}

/// A cluster summary for rows of categories: for every column, the set of
/// the categories that the rows of the cluster have in it.
///
/// The size of the summary is the number of categories in all its columns.
/// The distance between two summaries is the number of categories that
/// either of them has, counted column by column: what the size of the
/// summary would be if the two clusters were merged.
pub struct SimpleMatrix {
    sets: Vec<HashSet<u16>>,
}

impl View for SimpleMatrix {
    type V = Seq<Set<u16>>;

    closed spec fn view(&self) -> Seq<Set<u16>> {
        sets_of(self.sets@)
    }
}

impl SimpleMatrix {
    #[verifier::type_invariant]
    spec fn narrow_enough(self) -> bool {
        self.sets@.len() <= MAX_COLUMNS
    }

    /// The summary of one row: in every column, the category of the row.
    /// Categories are told apart by their lowest sixteen bits.
    pub fn of_row(row: &Vec<i32>) -> (summary: Self)
        requires
            row.len() <= MAX_COLUMNS,
        ensures
            summary@ == row_summary(row@),
    {
        broadcast use vstd::std_specs::hash::group_hash_axioms;

        let mut sets: Vec<HashSet<u16>> = Vec::new();
        let mut i: usize = 0;
        while i < row.len()
            invariant
                0 <= i <= row.len(),
                sets@.len() == i,
                forall|j: int| 0 <= j < i ==> (#[trigger] sets@[j])@ == set![row[j] as u16],
            decreases row.len() - i,
        {
            let mut set: HashSet<u16> = HashSet::new();
            set.insert(#[verifier::truncate] (row[i] as u16));
            assert(set@ =~= set![row[i as int] as u16]);
            sets.push(set);
            i += 1;
        }
        SimpleMatrix { sets }
    }

    /// The number of columns.
    pub fn num_columns(&self) -> (n: usize)
        ensures
            n == self@.len(),
            n <= MAX_COLUMNS,
    {
        proof {
            use_type_invariant(self);
        }
        self.sets.len()
    }

    /// Whether the summary has the category in the column.
    pub fn has_category(&self, column_index: usize, category: u16) -> (b: bool)
        ensures
            b == column(self@, column_index as int).contains(category),
    {
        broadcast use vstd::std_specs::hash::group_hash_axioms;

        if column_index < self.sets.len() {
            self.sets[column_index].contains(&category)
        } else {
            false
        }
    }
}

impl ClusterSummary for SimpleMatrix {
    open spec fn size_spec(&self) -> nat {
        size_upto(self@, self@.len())
    }

    open spec fn distance_spec(&self, other: &Self) -> int {
        union_upto(self@, other@, width(self@, other@)) as int
    }

    open spec fn includes(&self, other: &Self) -> bool {
        covers(self@, other@)
    }

    open spec fn extended_from(&self, before: &Self, other: &Self) -> bool {
        &&& self@.len() == width(before@, other@)
        &&& forall|i: int|
            0 <= i < self@.len() ==> #[trigger] self@[i] == column(before@, i).union(
                column(other@, i),
            )
    }

    open spec fn cleared(&self) -> bool {
        self@.len() == 0
    }

    fn summary_size(&self) -> (n: usize) {
        broadcast use vstd::std_specs::hash::group_hash_axioms;

        proof {
            use_type_invariant(self);
        }
        let mut n: usize = 0;
        let mut i: usize = 0;
        while i < self.sets.len()
            invariant
                0 <= i <= self.sets.len() <= MAX_COLUMNS,
                n == size_upto(self@, i as nat),
                n <= 0x1_0000 * i,
            decreases self.sets.len() - i,
        {
            proof {
                lemma_categories_bounded(self.sets[i as int]@);
                assert(column(self@, i as int) == self.sets[i as int]@);
            }
            n += self.sets[i].len();
            i += 1;
        }
        n
    }

    fn distance(&self, other: &Self) -> (d: i64) {
        proof {
            use_type_invariant(self);
            use_type_invariant(other);
            lemma_size_bounded(self@, self@.len());
            lemma_size_bounded(other@, other@.len());
        }
        let mut common: u64 = 0;
        let shared: usize = if self.sets.len() < other.sets.len() {
            self.sets.len()
        } else {
            other.sets.len()
        };
        let mut i: usize = 0;
        while i < shared
            invariant
                0 <= i <= shared <= MAX_COLUMNS,
                shared <= self.sets.len(),
                shared <= other.sets.len(),
                common == common_upto(self@, other@, i as nat),
                common <= size_upto(self@, i as nat) <= 0x1_0000 * i,
            decreases shared - i,
        {
            proof {
                lemma_categories_bounded(self.sets[i as int]@);
                assert(column(self@, i as int) == self.sets[i as int]@);
                assert(column(other@, i as int) == other.sets[i as int]@);
            }
            common += count_common(&self.sets[i], &other.sets[i]) as u64;
            i += 1;
        }
        proof {
            let w = width(self@, other@);
            lemma_union_and_common(self@, other@, w);
            lemma_size_past_end(self@, w);
            lemma_size_past_end(other@, w);
            lemma_common_past_end(self@, other@, shared as nat, w);
            lemma_size_bounded(self@, shared as nat);
        }
        let d: u64 = self.summary_size() as u64 + other.summary_size() as u64 - common;
        d as i64
    }

    fn extend(&mut self, other: &Self) {
        broadcast use vstd::set::group_set_axioms;

        proof {
            use_type_invariant(&*self);
            use_type_invariant(other);
        }
        let ghost before = self@;
        let mut taken = SimpleMatrix { sets: Vec::new() };
        std::mem::swap(self, &mut taken);
        let SimpleMatrix { mut sets } = taken;
        let mut i: usize = 0;
        while i < other.sets.len()
            invariant
                0 <= i <= other.sets.len() <= MAX_COLUMNS,
                before.len() <= MAX_COLUMNS,
                sets@.len() == if i < before.len() {
                    before.len()
                } else {
                    i as nat
                },
                forall|j: int|
                    0 <= j < i ==> (#[trigger] sets@[j])@ == column(before, j).union(other@[j]),
                forall|j: int| i <= j < before.len() ==> (#[trigger] sets@[j])@ == before[j],
            decreases other.sets.len() - i,
        {
            assert(other@[i as int] == other.sets[i as int]@);
            if i < sets.len() {
                let ghost held = sets@;
                let set = &mut sets[i];
                union_into(set, &other.sets[i]);
                proof {
                    assert forall|j: int| 0 <= j < i + 1 implies (#[trigger] sets@[j])@ == column(
                        before,
                        j,
                    ).union(other@[j]) by {
                        if j < i {
                            assert(sets@[j] == held[j]);
                        }
                    }
                    assert forall|j: int| i + 1 <= j < before.len() implies (
                    #[trigger] sets@[j])@ == before[j] by {
                        assert(sets@[j] == held[j]);
                    }
                }
            } else {
                let mut set: HashSet<u16> = HashSet::new();
                union_into(&mut set, &other.sets[i]);
                assert(set@ =~= column(before, i as int).union(other@[i as int]));
                sets.push(set);
            }
            i += 1;
        }
        proof {
            let after = sets_of(sets@);
            assert(covers(after, before)) by {
                assert forall|j: int| 0 <= j < before.len() implies (#[trigger] before[j]).subset_of(
                    after[j],
                ) by {
                    if j < other.sets.len() {
                        assert(sets@[j]@ == column(before, j).union(other@[j]));
                    } else {
                        assert(sets@[j]@ == before[j]);
                    }
                }
            }
            assert(covers(after, other@)) by {
                assert forall|j: int| 0 <= j < other@.len() implies (
                #[trigger] other@[j]).subset_of(after[j]) by {
                    assert(sets@[j]@ == column(before, j).union(other@[j]));
                }
            }
            lemma_size_grows(before, after, after.len());
            lemma_size_past_end(before, after.len());
            assert forall|j: int| 0 <= j < after.len() implies #[trigger] after[j] == column(
                before,
                j,
            ).union(column(other@, j)) by {
                if j < other.sets.len() {
                    assert(sets@[j]@ == column(before, j).union(other@[j]));
                } else {
                    assert(sets@[j]@ == before[j]);
                    assert(before[j].union(Set::<u16>::empty()) =~= before[j]);
                }
            }
        }
        *self = SimpleMatrix { sets };
    }

    fn clear(&mut self) {
        *self = SimpleMatrix { sets: Vec::new() };
    }
}

proof fn lemma_same_size_same_columns(fewer: Seq<Set<u16>>, more: Seq<Set<u16>>, k: nat)
    requires
        covers(more, fewer),
        size_upto(fewer, k) == size_upto(more, k),
    ensures
        forall|i: int| 0 <= i < k ==> column(fewer, i) == column(more, i),
    decreases k,
{
    if k > 0 {
        let a = column(fewer, k - 1);
        let b = column(more, k - 1);
        lemma_size_grows(fewer, more, (k - 1) as nat);
        lemma_categories_bounded(a);
        lemma_categories_bounded(b);
        assert(a.subset_of(b));
        vstd::set_lib::lemma_len_subset(a, b);
        vstd::set_lib::lemma_subset_equality(a, b);
        lemma_same_size_same_columns(fewer, more, (k - 1) as nat);
    }
}

proof fn lemma_union_of_same_columns(
    first: Seq<Set<u16>>,
    second: Seq<Set<u16>>,
    other: Seq<Set<u16>>,
    k: nat,
)
    requires
        forall|i: int| 0 <= i < k ==> column(first, i) == column(second, i),
    ensures
        union_upto(first, other, k) == union_upto(second, other, k),
        union_upto(other, first, k) == union_upto(other, second, k),
    decreases k,
{
    if k > 0 {
        lemma_union_of_same_columns(first, second, other, (k - 1) as nat);
    }
}

proof fn lemma_union_past_end(first: Seq<Set<u16>>, second: Seq<Set<u16>>, k: nat)
    requires
        width(first, second) <= k,
    ensures
        union_upto(first, second, k) == union_upto(first, second, width(first, second)),
    decreases k,
{
    broadcast use vstd::set::group_set_axioms;

    if k > width(first, second) {
        lemma_union_past_end(first, second, (k - 1) as nat);
        assert(column(first, k - 1).union(column(second, k - 1)) =~= Set::<u16>::empty());
    }
}

proof fn lemma_same_size_same_distance(
    fewer: Seq<Set<u16>>,
    more: Seq<Set<u16>>,
    other: Seq<Set<u16>>,
)
    requires
        covers(more, fewer),
        size_upto(fewer, fewer.len()) == size_upto(more, more.len()),
    ensures
        union_upto(fewer, other, width(fewer, other)) == union_upto(
            more,
            other,
            width(more, other),
        ),
        union_upto(other, fewer, width(other, fewer)) == union_upto(
            other,
            more,
            width(other, more),
        ),
{
    let wide = width(more, other);
    lemma_size_past_end(fewer, more.len());
    lemma_same_size_same_columns(fewer, more, more.len());
    assert forall|i: int| 0 <= i < wide implies column(fewer, i) == column(more, i) by {}
    lemma_union_of_same_columns(fewer, more, other, wide);
    lemma_union_past_end(fewer, other, wide);
    lemma_union_past_end(other, fewer, wide);
}

/// For these summaries, distances never shrink when either side absorbs
/// another summary.
pub proof fn lemma_simple_matrix_is_monotone()
    ensures
        monotone_union::<SimpleMatrix>(),
{
    reveal(monotone_union);
    assert forall|a: SimpleMatrix, b: SimpleMatrix, c: SimpleMatrix|
        #![trigger a.includes(&b), b.distance_spec(&c)]
        a.includes(&b) implies b.distance_spec(&c) <= a.distance_spec(&c) by {
        lemma_union_grows(b@, a@, c@, width(b@, c@), width(a@, c@));
    }
    assert forall|a: SimpleMatrix, b: SimpleMatrix, c: SimpleMatrix|
        #![trigger a.includes(&b), c.distance_spec(&b)]
        a.includes(&b) implies c.distance_spec(&b) <= c.distance_spec(&a) by {
        lemma_union_grows(b@, a@, c@, width(c@, b@), width(c@, a@));
    }
}

/// The rows that the vectors hold.
pub open spec fn rows_of(rows: Seq<Vec<i32>>) -> Seq<Seq<i32>> {
    Seq::new(rows.len(), |i: int| rows[i]@)
}

/// There is at least one row, the rows have at least one and at most
/// `MAX_COLUMNS` columns, and all rows have the same number of columns.
pub open spec fn is_rectangular(rows: Seq<Seq<i32>>) -> bool {
    &&& rows.len() >= 1
    &&& 1 <= rows[0].len() <= MAX_COLUMNS
    &&& forall|i: int| 0 <= i < rows.len() ==> (#[trigger] rows[i]).len() == rows[0].len()
}

/// Rows of categories as data for the clustering. The summary of a cluster
/// is a [`SimpleMatrix`].
pub struct Matrix {
    rows: Vec<Vec<i32>>,
}

impl View for Matrix {
    type V = Seq<Seq<i32>>;

    closed spec fn view(&self) -> Seq<Seq<i32>> {
        rows_of(self.rows@)
    }
}

impl Matrix {
    #[verifier::type_invariant]
    spec fn rectangular(self) -> bool {
        is_rectangular(rows_of(self.rows@))
    }

    /// The matrix of the rows, if they are rectangular.
    pub fn new(rows: Vec<Vec<i32>>) -> (matrix: Option<Self>)
        ensures
            matrix is Some <==> is_rectangular(rows_of(rows@)),
            matrix matches Some(m) ==> m@ == rows_of(rows@),
    {
        if rows.len() == 0 {
            return None;
        }
        let num_columns = rows[0].len();
        assert(rows_of(rows@)[0] == rows@[0]@);
        if num_columns == 0 || num_columns > MAX_COLUMNS {
            return None;
        }
        let mut i: usize = 0;
        while i < rows.len()
            invariant
                0 <= i <= rows.len(),
                num_columns == rows@[0]@.len(),
                forall|j: int| 0 <= j < i ==> (#[trigger] rows@[j])@.len() == num_columns,
            decreases rows.len() - i,
        {
            if rows[i].len() != num_columns {
                assert(rows_of(rows@)[i as int] == rows@[i as int]@);
                return None;
            }
            i += 1;
        }
        assert forall|j: int| 0 <= j < rows_of(rows@).len() implies (#[trigger] rows_of(
            rows@,
        )[j]).len() == rows_of(rows@)[0].len() by {
            assert(rows@[j]@.len() == num_columns);
        }
        Some(Matrix { rows })
    }

    /// The rows of the matrix.
    pub fn rows(&self) -> (rows: &Vec<Vec<i32>>)
        ensures
            rows_of(rows@) == self@,
            is_rectangular(self@),
    {
        proof {
            use_type_invariant(self);
        }
        &self.rows
    }
}

impl IndexableData for Matrix {
    type Summary = SimpleMatrix;

    open spec fn rows_spec(&self) -> nat {
        self@.len()
    }

    open spec fn columns_spec(&self) -> nat {
        self@[0].len()
    }

    open spec fn value_spec(&self, row: int, column: int) -> int {
        self@[row][column] as int
    }

    open spec fn makes(&self, row: int, summary: &SimpleMatrix) -> bool {
        summary@ == row_summary(self@[row])
    }

    fn get_value(&self, row_index: usize, column_index: usize) -> (v: i64) {
        proof {
            use_type_invariant(self);
            assert(rows_of(self.rows@)[row_index as int] == self.rows@[row_index as int]@);
        }
        self.rows[row_index][column_index] as i64
    }

    fn get_num_columns(&self) -> (n: usize) {
        proof {
            use_type_invariant(self);
            assert(rows_of(self.rows@)[0] == self.rows@[0]@);
        }
        self.rows[0].len()
    }

    fn get_num_rows(&self) -> (n: usize) {
        self.rows.len()
    }

    fn create_cluster_summary(&self, row_index: usize) -> (s: SimpleMatrix) {
        proof {
            use_type_invariant(self);
            assert(rows_of(self.rows@)[row_index as int] == self.rows@[row_index as int]@);
        }
        SimpleMatrix::of_row(&self.rows[row_index])
    }
}

/// For these summaries, the size tells whether a summary has changed: one
/// that has absorbed another without growing holds what it held.
pub proof fn lemma_simple_matrix_size_tells()
    ensures
        size_tells::<SimpleMatrix>(),
{
    reveal(size_tells);
    assert forall|a: SimpleMatrix, b: SimpleMatrix, c: SimpleMatrix|
        #![trigger a.includes(&b), b.distance_spec(&c)]
        a.includes(&b) && a.size_spec() == b.size_spec() implies b.distance_spec(&c)
        == a.distance_spec(&c) by {
        lemma_same_size_same_distance(b@, a@, c@);
    }
    assert forall|a: SimpleMatrix, b: SimpleMatrix, c: SimpleMatrix|
        #![trigger a.includes(&b), c.distance_spec(&b)]
        a.includes(&b) && a.size_spec() == b.size_spec() implies c.distance_spec(&b)
        == c.distance_spec(&a) by {
        lemma_same_size_same_distance(b@, a@, c@);
    }
}

/// All rows of the matrix are the same.
pub open spec fn rows_are_identical(rows: Seq<Seq<i32>>) -> bool {
    forall|i: int| 0 <= i < rows.len() ==> #[trigger] rows[i] == rows[0]
}

proof fn lemma_row_to_itself(row: Seq<i32>, k: nat)
    requires
        k <= row.len(),
    ensures
        union_upto(row_summary(row), row_summary(row), k) == k,
    decreases k,
{
    broadcast use vstd::set::group_set_axioms;

    if k > 0 {
        lemma_row_to_itself(row, (k - 1) as nat);
        let one = column(row_summary(row), k - 1);
        assert(one == set![row[k - 1] as u16]);
        assert(one.union(one) =~= one);
        assert(one =~= Set::<u16>::empty().insert(row[k - 1] as u16));
        assert(one.len() == 1);
    }
}

proof fn lemma_identical_rows_summary(data: &Matrix, tree: Dendrogram, summary: SimpleMatrix)
    requires
        rows_are_identical(data@),
        forall|i: int| 0 <= i < tree.leaves().len() ==> tree.leaves()[i] < data@.len(),
        summarises(data, tree, summary),
    ensures
        summary@ == row_summary(data@[0]),
    decreases tree,
{
    match tree {
        Dendrogram::Leaf(row) => {
            assert(tree.leaves()[0] == row);
        },
        Dendrogram::Node(left, right, _, _) => {
            let (l, r) = choose|l: SimpleMatrix, r: SimpleMatrix|
                #![trigger summary.extended_from(&l, &r)]
                summarises(data, *left, l) && summarises(data, *right, r)
                    && summary.extended_from(&l, &r);
            lemma_leaves_of_subtrees(tree, data@.len());
            lemma_identical_rows_summary(data, *left, l);
            lemma_identical_rows_summary(data, *right, r);
            let one = row_summary(data@[0]);
            assert forall|i: int| 0 <= i < summary@.len() implies summary@[i] == one[i] by {
                assert(summary@[i] == column(l@, i).union(column(r@, i)));
                assert(one[i].union(one[i]) =~= one[i]);
            }
            assert(summary@ =~= one);
        },
    }
}

proof fn lemma_leaves_of_subtrees(tree: Dendrogram, n: nat)
    requires
        tree is Node,
        forall|i: int| 0 <= i < tree.leaves().len() ==> tree.leaves()[i] < n,
    ensures
        forall|i: int| 0 <= i < tree.left().leaves().len() ==> tree.left().leaves()[i] < n,
        forall|i: int| 0 <= i < tree.right().leaves().len() ==> tree.right().leaves()[i] < n,
{
    let left = tree.left().leaves();
    let right = tree.right().leaves();
    assert(tree.leaves() == left + right);
    assert forall|i: int| 0 <= i < left.len() implies left[i] < n by {
        assert(tree.leaves()[i] == left[i]);
    }
    assert forall|i: int| 0 <= i < right.len() implies right[i] < n by {
        assert(tree.leaves()[left.len() + i] == right[i]);
    }
}

/// Where all rows of the matrix are the same, every merge is made at the
/// distance of a row to itself, which is the number of columns.
pub proof fn lemma_identical_rows(data: &Matrix, tree: Dendrogram)
    requires
        rows_are_identical(data@),
        data@.len() >= 1,
        forall|i: int| 0 <= i < tree.leaves().len() ==> tree.leaves()[i] < data@.len(),
        merged_at_distances(data, tree),
    ensures
        tree.all_merged_at(data@[0].len() as int),
    decreases tree,
{
    match tree {
        Dendrogram::Leaf(_) => {},
        Dendrogram::Node(left, right, distance, _) => {
            let (l, r) = choose|l: SimpleMatrix, r: SimpleMatrix|
                #![trigger summarises(data, *left, l), summarises(data, *right, r)]
                summarises(data, *left, l) && summarises(data, *right, r) && (distance
                    == l.distance_spec(&r) || distance == r.distance_spec(&l));
            lemma_leaves_of_subtrees(tree, data@.len());
            lemma_identical_rows_summary(data, *left, l);
            lemma_identical_rows_summary(data, *right, r);
            lemma_row_to_itself(data@[0], data@[0].len());
            lemma_identical_rows(data, *left);
            lemma_identical_rows(data, *right);
        },
    }
}

/// Clusters the rows of the matrix: [`create_dendrogram`] for these data,
/// whose summaries have what it asks for.
///
/// Every node of the dendrogram records the distance between the summaries
/// of the rows of its two subtrees. Where all rows are the same, that is the
/// number of columns throughout.
pub fn cluster_rows<R: RngCore>(matrix: &Matrix, init_iterations: Option<i32>, rng: &mut R) -> (tree:
    Dendrogram)
    ensures
        tree.spans_rows(),
        tree.size_spec() == matrix@.len(),
        tree.distances_descend(),
        merged_at_distances(matrix, tree),
        rows_are_identical(matrix@) ==> tree.all_merged_at(matrix@[0].len() as int),
{
    proof {
        lemma_simple_matrix_is_monotone();
        lemma_simple_matrix_size_tells();
    }
    let rows = matrix.rows();
    let tree = create_dendrogram(matrix, init_iterations, rng);
    proof {
        if rows_are_identical(matrix@) {
            assert forall|i: int| 0 <= i < tree.leaves().len() implies tree.leaves()[i]
                < matrix@.len() by {
                assert(tree.leaves().contains(tree.leaves()[i]));
            }
            lemma_identical_rows(matrix, tree);
        }
    }
    tree
}

} // verus!
