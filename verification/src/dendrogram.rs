use vstd::prelude::*;

verus! {

/// A binary tree of merges. A leaf is one row; a node joins two clusters and
/// records the distance at which they were merged and the number of rows
/// below it.
pub enum Dendrogram {
    /// A row, by its index.
    Leaf(usize),
    /// The two merged clusters, the distance between them, and the size of
    /// the resulting cluster.
    Node(Box<Dendrogram>, Box<Dendrogram>, i64, usize),
}

impl Dendrogram {
    /// The number of rows that the tree claims to hold.
    pub open spec fn size_spec(self) -> nat {
        match self {
            Dendrogram::Leaf(_) => 1,
            Dendrogram::Node(_, _, _, s) => s as nat,
        }
    }

    /// The rows at the leaves, from left to right.
    pub open spec fn leaves(self) -> Seq<usize>
        decreases self,
    {
        match self {
            Dendrogram::Leaf(row) => seq![row],
            Dendrogram::Node(left, right, _, _) => left.leaves() + right.leaves(),
        }
    }

    /// Every node records the sum of the sizes of its two children.
    pub open spec fn sizes_add_up(self) -> bool
        decreases self,
    {
        match self {
            Dendrogram::Leaf(_) => true,
            Dendrogram::Node(left, right, _, s) => {
                &&& s == left.size_spec() + right.size_spec()
                &&& left.sizes_add_up()
                &&& right.sizes_add_up()
            },
        }
    }

    /// The sizes add up and no row occurs at two leaves.
    pub open spec fn well_formed(self) -> bool {
        self.sizes_add_up() && self.leaves().no_duplicates()
    }

    /// The tree is well formed and its leaves are the rows `0..size`.
    pub open spec fn spans_rows(self) -> bool {
        &&& self.well_formed()
        &&& forall|row: usize| self.leaves().contains(row) <==> row < self.size_spec()
    }

    /// The tree is a leaf, or it was merged at `distance` or closer.
    pub open spec fn merged_within(self, distance: int) -> bool {
        match self {
            Dendrogram::Leaf(_) => true,
            Dendrogram::Node(_, _, d, _) => d <= distance,
        }
    }

    /// Merge distances never grow on the way from the root to a leaf.
    pub open spec fn distances_descend(self) -> bool
        decreases self,
    {
        match self {
            Dendrogram::Leaf(_) => true,
            Dendrogram::Node(left, right, d, _) => {
                &&& left.merged_within(d as int)
                &&& right.merged_within(d as int)
                &&& left.distances_descend()
                &&& right.distances_descend()
            },
        }
    }

    /// Every node of the tree was merged at `distance`.
    pub open spec fn all_merged_at(self, distance: int) -> bool
        decreases self,
    {
        match self {
            Dendrogram::Leaf(_) => true,
            Dendrogram::Node(left, right, d, _) => {
                &&& d == distance
                &&& left.all_merged_at(distance)
                &&& right.all_merged_at(distance)
            },
        }
    }

    /// The number of nodes, leaves included.
    pub open spec fn node_count(self) -> nat
        decreases self,
    {
        match self {
            Dendrogram::Leaf(_) => 1,
            Dendrogram::Node(left, right, _, _) => 1 + left.node_count() + right.node_count(),
        }
    }

    /// The tree is a leaf, or a node over two leaves.
    pub open spec fn shallow(self) -> bool {
        match self {
            Dendrogram::Leaf(_) => true,
            Dendrogram::Node(left, right, _, _) => *left is Leaf && *right is Leaf,
        }
    }

    /// The number of nodes in the left subtree.
    pub open spec fn left_count(self) -> nat {
        match self {
            Dendrogram::Leaf(_) => 0,
            Dendrogram::Node(left, _, _, _) => left.node_count(),
        }
    }

    /// The left subtree of a node.
    pub open spec fn left(self) -> Dendrogram {
        match self {
            Dendrogram::Leaf(_) => self,
            Dendrogram::Node(left, _, _, _) => *left,
        }
    }

    /// The right subtree of a node.
    pub open spec fn right(self) -> Dendrogram {
        match self {
            Dendrogram::Leaf(_) => self,
            Dendrogram::Node(_, right, _, _) => *right,
        }
    }

    /// A node over a left node, with the left node moved to the right: the
    /// tree `((x y) c)` as `(x (y c))`. The left subtree has become smaller,
    /// and the subtrees that were set aside wait along the right branch.
    pub open spec fn rotated(self) -> Dendrogram {
        match self {
            Dendrogram::Node(left, right, distance, size) => match *left {
                Dendrogram::Node(x, y, inner_distance, inner_size) => Dendrogram::Node(
                    x,
                    Box::new(Dendrogram::Node(y, right, inner_distance, inner_size)),
                    distance,
                    size,
                ),
                Dendrogram::Leaf(_) => self,
            },
            Dendrogram::Leaf(_) => self,
        }
    }

    /// What is left of a tree that is taken apart. A shallow tree stays as
    /// it is. Of a node over a left leaf, the right subtree is taken apart.
    /// A node over a left node is rotated first.
    pub open spec fn remains(self) -> Dendrogram
        decreases self.node_count(), self.left_count(),
        via Self::remains_decreases
    {
        if self.shallow() {
            self
        } else if self.left() is Leaf {
            self.right().remains()
        } else {
            self.rotated().remains()
        }
    }

    #[via_fn]
    proof fn remains_decreases(self) {
        reveal_with_fuel(Dendrogram::node_count, 3);
    }

    /// What is left of a tree that is taken apart is shallow.
    pub proof fn lemma_remains_is_shallow(self)
        ensures
            self.remains().shallow(),
        decreases self.node_count(), self.left_count(),
    {
        reveal_with_fuel(Dendrogram::node_count, 3);
        if self.shallow() {
        } else if self.left() is Leaf {
            self.right().lemma_remains_is_shallow();
        } else {
            self.rotated().lemma_remains_is_shallow();
        }
    }

    /// The number of rows in the cluster.
    pub fn size(&self) -> (n: usize)
        ensures
            n == self.size_spec(),
    {
        match self {
            Dendrogram::Leaf(_) => 1,
            Dendrogram::Node(_, _, _, s) => *s,
        }
    }

    /// Where the sizes add up, the size of a tree is the number of its leaves.
    pub proof fn lemma_size_is_leaf_count(self)
        requires
            self.sizes_add_up(),
        ensures
            self.size_spec() == self.leaves().len(),
        decreases self,
    {
        match self {
            Dendrogram::Leaf(_) => {},
            Dendrogram::Node(left, right, _, _) => {
                left.lemma_size_is_leaf_count();
                right.lemma_size_is_leaf_count();
            },
        }
    }

    fn is_leaf(&self) -> (b: bool)
        ensures
            b == (*self is Leaf),
        opens_invariants none
        no_unwind
    {
        match self {
            Dendrogram::Leaf(_) => true,
            Dendrogram::Node(_, _, _, _) => false,
        }
    }

    fn is_shallow(&self) -> (b: bool)
        ensures
            b == self.shallow(),
        opens_invariants none
        no_unwind
    {
        match self {
            Dendrogram::Leaf(_) => true,
            Dendrogram::Node(left, right, _, _) => left.is_leaf() && right.is_leaf(),
        }
    }
}

/// Moves the left node of a node to the right.
fn rotate(tree: &mut Dendrogram)
    requires
        *old(tree) is Node,
        old(tree).left() is Node,
    ensures
        *final(tree) == old(tree).rotated(),
    opens_invariants none
    no_unwind
{
    match tree {
        Dendrogram::Leaf(_) => {},
        Dendrogram::Node(left, right, _, _) => {
            match &mut **left {
                Dendrogram::Leaf(_) => {},
                Dendrogram::Node(inner_left, inner_right, _, _) => {
                    std::mem::swap(inner_right, right);
                    std::mem::swap(inner_left, right);
                },
            }
            std::mem::swap(left, right);
        },
    }
}

/// Puts the right subtree of a node over a left leaf in the place of the
/// node. What is released is the node over its left leaf and a placeholder
/// leaf.
fn advance(tree: &mut Dendrogram)
    requires
        *old(tree) is Node,
        old(tree).left() is Leaf,
    ensures
        *final(tree) == old(tree).right(),
    opens_invariants none
    no_unwind
{
    let mut rest = Dendrogram::Leaf(0);
    match tree {
        Dendrogram::Leaf(_) => {},
        Dendrogram::Node(_, right, _, _) => {
            std::mem::swap(&mut **right, &mut rest);
        },
    }
    *tree = rest;
}

/// Takes a tree apart without recursion and without memory of its own:
/// the subtrees that wait are kept along the right branch of the tree
/// itself. What is left of the tree, and every piece that is released on the
/// way, is at most one node deep.
pub fn dismantle(tree: &mut Dendrogram)
    ensures
        *final(tree) == old(tree).remains(),
        final(tree).shallow(),
    opens_invariants none
    no_unwind
{
    while !tree.is_shallow()
        invariant
            tree.remains() == old(tree).remains(),
        decreases tree.node_count(), tree.left_count(),
    {
        proof {
            reveal_with_fuel(Dendrogram::node_count, 3);
        }
        let at_leaf = match tree {
            Dendrogram::Leaf(_) => true,
            Dendrogram::Node(left, _, _, _) => left.is_leaf(),
        };
        if at_leaf {
            advance(tree);
        } else {
            rotate(tree);
        }
    }
}

impl Drop for Dendrogram {
    /// Takes the tree apart with [`dismantle`], so that what is left to be
    /// released when the tree goes is at most one node deep, and dropping a
    /// deep tree does not recurse once per level.
    fn drop(&mut self)
        ensures
            *final(self) == old(self).remains(),
            final(self).shallow(),
        opens_invariants none
        no_unwind
    {
        dismantle(self);
    }
}

} // verus!
