use catclustering::algorithm::process_link;
use catclustering::cluster::{Cluster, Link};
use catclustering::heap::LinkHeap;
use catclustering::linkage::Step;
use catclustering::{clustering_main_loop, find_umerged_cluster, ClusterSummary, Dendrogram};

/// A summary that is a set of small numbers, held as bits.
struct Bits(u64);

impl ClusterSummary for Bits {
    fn summary_size(&self) -> usize {
        self.0.count_ones() as usize
    }

    fn distance(&self, other: &Self) -> i64 {
        (self.0 | other.0).count_ones() as i64
    }

    fn extend(&mut self, other: &Self) {
        self.0 |= other.0;
    }

    fn clear(&mut self) {
        self.0 = 0;
    }
}

fn link(a: usize, b: usize, distance: i64) -> Link {
    Link {
        cluster1_index: a,
        cluster2_index: b,
        cluster1_summary_size: 1,
        cluster2_summary_size: 1,
        distance,
    }
}

fn singletons(bits: &[u64]) -> Vec<Cluster<Bits>> {
    bits.iter().enumerate().map(|(row, b)| Cluster::new(Bits(*b), row)).collect()
}

fn leaves_of(tree: &Dendrogram) -> Vec<usize> {
    let mut rows = Vec::new();
    let mut stack = vec![tree];
    while let Some(current) = stack.pop() {
        match current {
            Dendrogram::Leaf(row) => rows.push(*row),
            Dendrogram::Node(left, right, _, _) => {
                stack.push(right);
                stack.push(left);
            }
        }
    }
    rows
}

#[test]
fn heap_hands_out_closest_first() {
    let mut heap = LinkHeap::new();
    assert!(heap.is_empty());
    assert!(heap.pop().is_none());
    for (i, d) in [5, -3, 9, 0, 7, -3, 2, 100, -50].iter().enumerate() {
        heap.push(link(i, i + 1, *d));
    }
    assert_eq!(heap.len(), 9);
    let mut popped = Vec::new();
    while let Some(l) = heap.pop() {
        popped.push(l.distance);
    }
    assert_eq!(popped, vec![-50, -3, -3, 0, 2, 5, 7, 9, 100]);
    assert!(heap.is_empty());
    assert_eq!(heap.len(), 0);
}

#[test]
fn heap_keeps_every_link() {
    let mut heap = LinkHeap::new();
    for i in 0..200usize {
        heap.push(link(i, i + 1, ((i * 37) % 101) as i64));
    }
    let mut seen = vec![false; 200];
    let mut last = i64::MIN;
    while let Some(l) = heap.pop() {
        assert!(l.distance >= last);
        last = l.distance;
        assert_eq!(l.cluster2_index, l.cluster1_index + 1);
        assert_eq!(l.distance, ((l.cluster1_index * 37) % 101) as i64);
        assert!(!seen[l.cluster1_index]);
        seen[l.cluster1_index] = true;
    }
    assert!(seen.iter().all(|s| *s));
}

#[test]
fn new_cluster_is_an_unmerged_leaf() {
    let cluster = Cluster::new(Bits(0b101), 4);
    assert!(cluster.merged_into.is_none());
    assert!(matches!(cluster.dendrogram, Some(Dendrogram::Leaf(4))));
    assert_eq!(cluster.summary_size(), 2);
    assert_eq!(cluster.distance(&Cluster::new(Bits(0b110), 5)), 3);
}

#[test]
fn unmerged_cluster_is_found_along_the_chain() {
    let mut clusters = singletons(&[1, 2, 4, 8, 16]);
    // 0 -> 3 -> 1, 4 -> 1, and 2 stands alone
    clusters[0].merged_into = Some(3);
    clusters[3].merged_into = Some(1);
    clusters[4].merged_into = Some(1);
    assert_eq!(find_umerged_cluster(&clusters, 0), 1);
    assert_eq!(find_umerged_cluster(&clusters, 3), 1);
    assert_eq!(find_umerged_cluster(&clusters, 4), 1);
    assert_eq!(find_umerged_cluster(&clusters, 1), 1);
    assert_eq!(find_umerged_cluster(&clusters, 2), 2);
}

#[test]
fn main_loop_without_links_returns_the_first_row() {
    let tree = clustering_main_loop(singletons(&[1, 2, 4]), LinkHeap::new());
    assert!(matches!(tree, Dendrogram::Leaf(0)));
}

#[test]
fn main_loop_merges_a_chain_closest_first() {
    // rows 0 and 1 share their bit, row 2 is one bit away, row 3 two bits
    let clusters = singletons(&[0b0001, 0b0001, 0b0010, 0b1100]);
    let mut heap = LinkHeap::new();
    heap.push(link(2, 3, 3));
    heap.push(link(0, 1, 1));
    heap.push(link(1, 2, 2));
    let tree = clustering_main_loop(clusters, heap);
    assert_eq!(tree.size(), 4);
    let mut leaves = leaves_of(&tree);
    leaves.sort();
    assert_eq!(leaves, vec![0, 1, 2, 3]);
    // the first merge is at distance 1, the last joins everything at distance 4
    match &tree {
        Dendrogram::Node(_, _, distance, size) => {
            assert_eq!(*distance, 4);
            assert_eq!(*size, 4);
        }
        Dendrogram::Leaf(_) => panic!("a leaf came back"),
    }
}

#[test]
fn main_loop_merges_into_the_second_cluster_on_equal_sizes() {
    let clusters = singletons(&[0b01, 0b10]);
    let mut heap = LinkHeap::new();
    heap.push(link(0, 1, 2));
    let tree = clustering_main_loop(clusters, heap);
    // equal summary sizes: the second cluster takes the first one in, and its tree is the
    // left child
    match &tree {
        Dendrogram::Node(left, right, distance, size) => {
            assert!(matches!(**left, Dendrogram::Leaf(1)));
            assert!(matches!(**right, Dendrogram::Leaf(0)));
            assert_eq!(*distance, 2);
            assert_eq!(*size, 2);
        }
        Dendrogram::Leaf(_) => panic!("a leaf came back"),
    }
}

#[test]
fn main_loop_merges_into_the_larger_summary() {
    let clusters = singletons(&[0b0111, 0b1000]);
    let mut heap = LinkHeap::new();
    heap.push(Link {
        cluster1_index: 0,
        cluster2_index: 1,
        cluster1_summary_size: 3,
        cluster2_summary_size: 1,
        distance: 4,
    });
    let tree = clustering_main_loop(clusters, heap);
    match &tree {
        Dendrogram::Node(left, right, distance, _) => {
            assert!(matches!(**left, Dendrogram::Leaf(0)));
            assert!(matches!(**right, Dendrogram::Leaf(1)));
            assert_eq!(*distance, 4);
        }
        Dendrogram::Leaf(_) => panic!("a leaf came back"),
    }
}

#[test]
fn main_loop_takes_a_stale_distance_anew() {
    // the link records sizes that the summaries do not have, so its distance of 0 is
    // not acted upon: the merge happens at the distance taken anew
    let clusters = singletons(&[0b0011, 0b1100]);
    let mut heap = LinkHeap::new();
    heap.push(Link {
        cluster1_index: 0,
        cluster2_index: 1,
        cluster1_summary_size: 1,
        cluster2_summary_size: 1,
        distance: 0,
    });
    let tree = clustering_main_loop(clusters, heap);
    match &tree {
        Dendrogram::Node(_, _, distance, size) => {
            assert_eq!(*distance, 4);
            assert_eq!(*size, 2);
        }
        Dendrogram::Leaf(_) => panic!("a leaf came back"),
    }
}

#[test]
fn main_loop_returns_one_component_of_unconnected_links() {
    let clusters = singletons(&[0b1, 0b10, 0b100, 0b111000, 0b11000000]);
    let mut heap = LinkHeap::new();
    heap.push(link(0, 1, 2));
    heap.push(Link {
        cluster1_index: 3,
        cluster2_index: 4,
        cluster1_summary_size: 3,
        cluster2_summary_size: 2,
        distance: 5,
    });
    let tree = clustering_main_loop(clusters, heap);
    // the last merge was that of 3 and 4, which are further apart than 0 and 1
    let mut leaves = leaves_of(&tree);
    leaves.sort();
    assert_eq!(leaves, vec![3, 4]);
    assert_eq!(tree.size(), 2);
}

#[test]
fn main_loop_follows_links_to_merged_clusters() {
    // every link is between single rows; after the first merges the later links lead to
    // clusters that were folded into others and have to be followed
    let clusters = singletons(&[0b000001, 0b000010, 0b000100, 0b001000, 0b010000, 0b100000]);
    let mut heap = LinkHeap::new();
    heap.push(link(0, 1, 2));
    heap.push(link(2, 3, 2));
    heap.push(link(1, 2, 2));
    heap.push(link(0, 3, 2));
    heap.push(link(4, 5, 2));
    heap.push(link(5, 0, 2));
    heap.push(link(1, 0, 2));
    let tree = clustering_main_loop(clusters, heap);
    assert_eq!(tree.size(), 6);
    let mut leaves = leaves_of(&tree);
    leaves.sort();
    assert_eq!(leaves, vec![0, 1, 2, 3, 4, 5]);
    match &tree {
        Dendrogram::Node(_, _, distance, _) => assert_eq!(*distance, 6),
        Dendrogram::Leaf(_) => panic!("a leaf came back"),
    }
}

#[test]
fn stale_link_gives_way_to_a_fresh_one() {
    let mut clusters = singletons(&[0b0011, 0b0100]);
    let mut heap = LinkHeap::new();
    // the link says that the first summary has one bit, but it has two
    let step = process_link(&mut clusters, &mut heap, link(0, 1, 1));
    match step {
        Step::Refresh(fresh) => {
            assert_eq!(fresh.cluster1_index, 0);
            assert_eq!(fresh.cluster2_index, 1);
            assert_eq!(fresh.cluster1_summary_size, 2);
            assert_eq!(fresh.cluster2_summary_size, 1);
            assert_eq!(fresh.distance, 3);
        }
        _ => panic!("the link was not refreshed"),
    }
    assert_eq!(heap.len(), 1);
    let queued = heap.pop().unwrap();
    assert_eq!((queued.cluster1_index, queued.cluster2_index, queued.distance), (0, 1, 3));
    assert!(clusters[0].merged_into.is_none() && clusters[1].merged_into.is_none());
    assert!(matches!(clusters[0].dendrogram, Some(Dendrogram::Leaf(0))));
}

#[test]
fn fresh_link_merges_the_smaller_summary_into_the_larger() {
    let mut clusters = singletons(&[0b0001, 0b0110, 0b1000]);
    let mut heap = LinkHeap::new();
    let fresh = Link {
        cluster1_index: 1,
        cluster2_index: 0,
        cluster1_summary_size: 2,
        cluster2_summary_size: 1,
        distance: 3,
    };
    let step = process_link(&mut clusters, &mut heap, fresh);
    assert!(matches!(step, Step::Merge { src: 0, dest: 1 }));
    assert!(heap.is_empty());
    assert_eq!(clusters[0].merged_into, Some(1));
    assert!(clusters[0].dendrogram.is_none());
    assert!(clusters[1].merged_into.is_none());
    // the summary of the cluster that was folded is cleared, the other holds both
    assert_eq!(clusters[0].summary_size(), 0);
    assert_eq!(clusters[1].summary_size(), 3);
    match &clusters[1].dendrogram {
        Some(Dendrogram::Node(left, right, distance, size)) => {
            assert!(matches!(**left, Dendrogram::Leaf(1)));
            assert!(matches!(**right, Dendrogram::Leaf(0)));
            assert_eq!(*distance, 3);
            assert_eq!(*size, 2);
        }
        _ => panic!("the clusters were not merged"),
    }
    assert!(matches!(clusters[2].dendrogram, Some(Dendrogram::Leaf(2))));
}

#[test]
fn equal_summaries_merge_the_first_into_the_second() {
    let mut clusters = singletons(&[0b01, 0b10]);
    let mut heap = LinkHeap::new();
    let step = process_link(&mut clusters, &mut heap, link(0, 1, 2));
    assert!(matches!(step, Step::Merge { src: 0, dest: 1 }));
    let mut clusters = singletons(&[0b01, 0b10]);
    let step = process_link(&mut clusters, &mut heap, link(1, 0, 2));
    assert!(matches!(step, Step::Merge { src: 1, dest: 0 }));
}

#[test]
fn link_to_a_folded_cluster_is_led_to_where_it_went() {
    let mut clusters = singletons(&[0b0001, 0b0010, 0b0100, 0b1000]);
    let mut heap = LinkHeap::new();
    assert!(matches!(
        process_link(&mut clusters, &mut heap, link(0, 1, 2)),
        Step::Merge { src: 0, dest: 1 }
    ));
    assert!(matches!(
        process_link(&mut clusters, &mut heap, link(2, 3, 2)),
        Step::Merge { src: 2, dest: 3 }
    ));
    // 0 went into 1: the link from 2, which went into 3, to 0 becomes one from 3 to 1
    match process_link(&mut clusters, &mut heap, link(2, 0, 2)) {
        Step::Refresh(fresh) => {
            assert_eq!((fresh.cluster1_index, fresh.cluster2_index), (3, 1));
            assert_eq!((fresh.cluster1_summary_size, fresh.cluster2_summary_size), (2, 2));
            assert_eq!(fresh.distance, 4);
        }
        _ => panic!("the link was not refreshed"),
    }
    // one end folded, the other not
    match process_link(&mut clusters, &mut heap, link(1, 2, 2)) {
        Step::Refresh(fresh) => {
            assert_eq!((fresh.cluster1_index, fresh.cluster2_index), (1, 3));
        }
        _ => panic!("the link was not refreshed"),
    }
    match process_link(&mut clusters, &mut heap, link(0, 3, 2)) {
        Step::Refresh(fresh) => {
            assert_eq!((fresh.cluster1_index, fresh.cluster2_index), (1, 3));
        }
        _ => panic!("the link was not refreshed"),
    }
    assert_eq!(heap.len(), 3);
    // both ends in one cluster: nothing to do
    assert!(matches!(process_link(&mut clusters, &mut heap, link(0, 1, 2)), Step::Discard));
    assert!(matches!(process_link(&mut clusters, &mut heap, link(1, 0, 2)), Step::Discard));
    assert!(matches!(process_link(&mut clusters, &mut heap, link(3, 2, 2)), Step::Discard));
    assert_eq!(heap.len(), 3);
}
