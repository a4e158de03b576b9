use crate::cluster::Link;
use crate::rows::lemma_swap_keeps_items;
use vstd::multiset::Multiset;
use vstd::prelude::*;

verus! {

/// Every link but the first is at least as far as the link at its parent
/// position.
pub open spec fn heap_ordered(items: Seq<Link>) -> bool {
    forall|i: int|
        0 < i < items.len() ==> items[(i - 1) / 2].distance <= #[trigger] items[i].distance
}

/// The order holds wherever the parent position is not `hole`, and the
/// children of `hole` are at least as far as its parent.
spec fn ordered_below(items: Seq<Link>, hole: int) -> bool {
    &&& forall|i: int|
        0 < i < items.len() && (i - 1) / 2 != hole ==> items[(i - 1) / 2].distance
            <= #[trigger] items[i].distance
    &&& forall|i: int|
        0 < i < items.len() && (i - 1) / 2 == hole && hole > 0 ==> items[(hole - 1) / 2].distance
            <= #[trigger] items[i].distance
}

/// The order holds wherever the child position is not `hole`, and the
/// children of `hole` are at least as far as its parent.
spec fn ordered_above(items: Seq<Link>, hole: int) -> bool {
    &&& forall|i: int|
        0 < i < items.len() && i != hole ==> items[(i - 1) / 2].distance
            <= #[trigger] items[i].distance
    &&& forall|i: int|
        0 < i < items.len() && (i - 1) / 2 == hole && hole > 0 ==> items[(hole - 1) / 2].distance
            <= #[trigger] items[i].distance
}

proof fn lemma_first_is_closest(items: Seq<Link>, i: int)
    requires
        heap_ordered(items),
        0 <= i < items.len(),
    ensures
        items[0].distance <= items[i].distance,
    decreases i,
{
    if i > 0 {
        lemma_first_is_closest(items, (i - 1) / 2);
    }
}

fn swap_links(items: &mut Vec<Link>, i: usize, j: usize)
    requires
        i < old(items).len(),
        j < old(items).len(),
    ensures
        final(items)@ == old(items)@.update(i as int, old(items)[j as int]).update(
            j as int,
            old(items)[i as int],
        ),
        final(items)@.to_multiset() == old(items)@.to_multiset(),
{
    let a = items[i];
    let b = items[j];
    items[i] = b;
    items[j] = a;
    proof {
        lemma_swap_keeps_items(old(items)@, i as int, j as int);
    }
}

/// A priority queue of links that hands out a closest link first.
pub struct LinkHeap {
    items: Vec<Link>,
}

impl View for LinkHeap {
    type V = Multiset<Link>;

    closed spec fn view(&self) -> Multiset<Link> {
        self.items@.to_multiset()
    }
}

impl LinkHeap {
    #[verifier::type_invariant]
    spec fn ordered(self) -> bool {
        heap_ordered(self.items@)
    }

    /// The empty queue.
    pub fn new() -> (heap: Self)
        ensures
            heap@ == Multiset::<Link>::empty(),
    {
        broadcast use vstd::seq_lib::group_to_multiset_ensures;

        let heap = LinkHeap { items: Vec::new() };
        assert(heap.items@.to_multiset() =~= Multiset::<Link>::empty());
        heap
    }

    /// The number of links in the queue.
    pub fn len(&self) -> (n: usize)
        ensures
            n == self@.len(),
    {
        broadcast use vstd::seq_lib::group_to_multiset_ensures;

        self.items.len()
    }

    /// Whether the queue holds no link.
    pub fn is_empty(&self) -> (b: bool)
        ensures
            b == (self@.len() == 0),
    {
        broadcast use vstd::seq_lib::group_to_multiset_ensures;

        self.items.len() == 0
    }

    /// Adds a link.
    pub fn push(&mut self, link: Link)
        ensures
            final(self)@ == old(self)@.insert(link),
    {
        broadcast use vstd::seq_lib::group_to_multiset_ensures;

        proof {
            use_type_invariant(&*self);
        }
        let mut items: Vec<Link> = Vec::new();
        std::mem::swap(&mut self.items, &mut items);
        items.push(link);
        let mut i: usize = items.len() - 1;
        while i > 0 && items[(i - 1) / 2].distance > items[i].distance
            invariant
                0 <= i < items.len(),
                ordered_above(items@, i as int),
                items@.to_multiset() == old(self)@.insert(link),
            decreases i,
        {
            let parent: usize = (i - 1) / 2;
            swap_links(&mut items, i, parent);
            i = parent;
        }
        self.items = items;
    }

    /// Takes a closest link out of the queue: one that no other link in the
    /// queue is closer than.
    pub fn pop(&mut self) -> (popped: Option<Link>)
        ensures
            match popped {
                None => old(self)@.len() == 0 && final(self)@ == old(self)@,
                Some(link) => {
                    &&& old(self)@.count(link) > 0
                    &&& final(self)@ == old(self)@.remove(link)
                    &&& forall|other: Link| #[trigger]
                        old(self)@.count(other) > 0 ==> link.distance <= other.distance
                },
            },
    {
        broadcast use vstd::seq_lib::group_to_multiset_ensures;

        proof {
            use_type_invariant(&*self);
        }
        if self.items.len() == 0 {
            return None;
        }
        let mut items: Vec<Link> = Vec::new();
        std::mem::swap(&mut self.items, &mut items);
        let ghost before = items@;
        let last: usize = items.len() - 1;
        swap_links(&mut items, 0, last);
        let closest = items.pop().unwrap();
        proof {
            assert(closest == before[0]);
            assert forall|other: Link| #[trigger]
                before.to_multiset().count(other) > 0 implies closest.distance
                <= other.distance by {
                assert(before.contains(other));
                let k = choose|k: int| 0 <= k < before.len() && before[k] == other;
                lemma_first_is_closest(before, k);
            }
            let swapped = before.update(0, before[last as int]).update(last as int, before[0]);
            assert(items@ =~= swapped.remove(last as int));
            vstd::seq_lib::to_multiset_remove(swapped, last as int);
        }
        let n: usize = items.len();
        let mut i: usize = 0;
        loop
            invariant
                n == items.len(),
                0 <= i,
                i < n || n == 0,
                ordered_below(items@, i as int),
                items@.to_multiset() == before.to_multiset().remove(closest),
            ensures
                heap_ordered(items@),
            decreases n - i,
        {
            if n < 2 || i > (n - 2) / 2 {
                break ;
            }
            let left: usize = 2 * i + 1;
            let right: usize = left + 1;
            let mut least: usize = i;
            if items[left].distance < items[least].distance {
                least = left;
            }
            if right < n && items[right].distance < items[least].distance {
                least = right;
            }
            if least == i {
                break ;
            }
            swap_links(&mut items, i, least);
            i = least;
        }
        self.items = items;
        Some(closest)
    }
}

} // verus!
