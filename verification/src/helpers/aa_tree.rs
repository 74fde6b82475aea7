//! The weighted AA tree of `outils`, fixed to `usize` keys, `usize` values and
//! unit weights, together with the contracts this crate relies on.
//!
//! Nothing in this file is proved: the tree's balancing, linking and weight
//! bookkeeping are the work of `outils`. The model below names what the tree's
//! own accessors report, and [`tree_wf`] collects the facts that every tree built
//! through this module satisfies. Everything else in the crate is verified
//! against these contracts.

use outils::tree::bst::waatree::WeightedAaTree;
use outils::tree::bst::{BinarySearchTree, OrderedTree};
use outils::tree::traversal::Traversable;
use outils::tree::WeightedTree;
use outils::types::{Keys, Values};
use vstd::prelude::*;

verus! {

/// A stable reference to one node of a tree. It stays valid until that node is
/// removed.
#[derive(Clone, Copy, Debug, PartialEq, Eq, Structural)]
pub struct NodeIndex(pub usize);

/// What one node holds, as the accessors of the tree report it. Links are node
/// indices; a missing link is `None`.
pub struct TreeNode {
    pub key: usize,
    pub value: usize,
    pub parent: Option<usize>,
    pub left: Option<usize>,
    pub right: Option<usize>,
    pub subweight: usize,
}

/// A `WeightedAaTree<usize, usize, usize>` in which every node has weight one.
#[verifier::external_body]
pub struct AaTree {
    inner: WeightedAaTree<usize, usize, usize>,
}

/// The indices of the tree's nodes in ascending key order.
pub uninterp spec fn order_of(tree: AaTree) -> Seq<usize>;

/// The tree's nodes by index.
pub uninterp spec fn nodes_of(tree: AaTree) -> Map<usize, TreeNode>;

/// The index of the root node, if the tree is not empty.
pub uninterp spec fn root_of(tree: AaTree) -> Option<usize>;

/// The index that the next new node of the tree gets: the arena of the tree
/// hands out the index that was given back last.
pub uninterp spec fn vacant_of(tree: AaTree) -> usize;

/// Whether `node` is a node of `tree`.
pub open spec fn has_node(tree: AaTree, node: usize) -> bool {
    nodes_of(tree).dom().contains(node)
}

/// Whether some node of `tree` holds `key`.
pub open spec fn has_key(tree: AaTree, key: usize) -> bool {
    exists|node: usize| #[trigger] has_node(tree, node) && nodes_of(tree)[node].key == key
}

/// The rank of `node` in key order, counted from zero.
pub open spec fn position(tree: AaTree, node: usize) -> int {
    order_of(tree).index_of(node)
}

/// The number of nodes in the subtree hanging at `child`; zero where there is
/// none.
pub open spec fn weight_below(tree: AaTree, child: Option<usize>) -> int {
    match child {
        Some(c) => nodes_of(tree)[c].subweight as int,
        None => 0,
    }
}

/// Lifts a link of the model to a handle.
pub open spec fn as_handle(link: Option<usize>) -> Option<NodeIndex> {
    match link {
        Some(n) => Some(NodeIndex(n)),
        None => None,
    }
}

/// The facts that tie one node to its neighbours: its subweight counts itself
/// and both subtrees, its subtree fits into the order around it, each child
/// points back to it and sits at the rank that the weights give, and its parent
/// lists it as a child.
#[verifier::opaque]
pub open spec fn node_wf(tree: AaTree, node: usize) -> bool {
    let nodes = nodes_of(tree);
    let rec = nodes[node];
    let at = position(tree, node);
    let lw = weight_below(tree, rec.left);
    let rw = weight_below(tree, rec.right);
    &&& rec.subweight == 1 + lw + rw
    &&& lw <= at
    &&& at + rw < order_of(tree).len()
    &&& match rec.left {
        Some(l) => {
            &&& has_node(tree, l)
            &&& l != node
            &&& nodes[l].parent == Some(node)
            &&& position(tree, l) + weight_below(tree, nodes[l].right) + 1 == at
        },
        None => true,
    }
    &&& match rec.right {
        Some(r) => {
            &&& has_node(tree, r)
            &&& r != node
            &&& nodes[r].parent == Some(node)
            &&& position(tree, r) == at + 1 + weight_below(tree, nodes[r].left)
        },
        None => true,
    }
    &&& match rec.parent {
        Some(p) => {
            &&& has_node(tree, p)
            &&& (nodes[p].left == Some(node) || nodes[p].right == Some(node))
        },
        None => root_of(tree) == Some(node),
    }
}

/// The tree is a binary search tree over its order, and every subweight is the
/// size of its subtree.
#[verifier::opaque]
pub open spec fn tree_wf(tree: AaTree) -> bool {
    let order = order_of(tree);
    let nodes = nodes_of(tree);
    &&& order.no_duplicates()
    &&& forall|node: usize| #[trigger] has_node(tree, node) <==> order.contains(node)
    &&& forall|i: int, j: int|
        0 <= i < j < order.len() ==> #[trigger] nodes[order[i]].key < #[trigger] nodes[order[j]].key
    &&& match root_of(tree) {
        Some(r) => {
            &&& has_node(tree, r)
            &&& nodes[r].parent is None
            &&& nodes[r].subweight == order.len()
        },
        None => order.len() == 0,
    }
    &&& forall|node: usize| #[trigger] has_node(tree, node) ==> node_wf(tree, node)
}

/// What `insert_weighted` does to the model. With a new key one fresh node enters
/// the order and every other node keeps its key and value; with a key that is
/// already held, only that node's value changes.
pub open spec fn inserted(
    before: AaTree,
    after: AaTree,
    key: usize,
    value: usize,
    replaced: Option<usize>,
) -> bool {
    match replaced {
        None => {
            &&& !has_key(before, key)
            &&& exists|node: usize, at: int|
                {
                    &&& !has_node(before, node)
                    &&& 0 <= at <= order_of(before).len()
                    &&& #[trigger] order_of(before).insert(at, node) == order_of(after)
                    &&& nodes_of(after)[node].key == key
                    &&& nodes_of(after)[node].value == value
                }
            &&& forall|other: usize| #[trigger]
                has_node(before, other) ==> {
                    &&& nodes_of(after)[other].key == nodes_of(before)[other].key
                    &&& nodes_of(after)[other].value == nodes_of(before)[other].value
                }
        },
        Some(previous) => {
            &&& order_of(after) == order_of(before)
            &&& root_of(after) == root_of(before)
            &&& exists|node: usize|
                {
                    &&& #[trigger] has_node(before, node)
                    &&& nodes_of(before)[node].key == key
                    &&& nodes_of(before)[node].value == previous
                    &&& nodes_of(after) == nodes_of(before).insert(
                        node,
                        (TreeNode { value: value, ..nodes_of(before)[node] }),
                    )
                }
        },
    }
}

/// What `remove` does to the model. The node that held the key leaves the
/// order and every other node keeps its index, key and value; with a key that
/// is not held, nothing changes.
pub open spec fn removed(before: AaTree, after: AaTree, key: usize, taken: Option<usize>) -> bool {
    match taken {
        Some(value) => {
            &&& exists|at: int|
                {
                    &&& 0 <= at < order_of(before).len()
                    &&& nodes_of(before)[order_of(before)[at]].key == key
                    &&& nodes_of(before)[order_of(before)[at]].value == value
                    &&& #[trigger] order_of(before).remove(at) == order_of(after)
                }
            &&& forall|other: usize| #[trigger]
                has_node(after, other) ==> {
                    &&& nodes_of(after)[other].key == nodes_of(before)[other].key
                    &&& nodes_of(after)[other].value == nodes_of(before)[other].value
                }
        },
        None => {
            &&& !has_key(before, key)
            &&& order_of(after) == order_of(before)
            &&& nodes_of(after) == nodes_of(before)
            &&& root_of(after) == root_of(before)
        },
    }
}

/// The node that follows `node` in key order, if any.
pub open spec fn next_in_order(tree: AaTree, node: usize) -> Option<usize> {
    if has_node(tree, node) && position(tree, node) + 1 < order_of(tree).len() {
        Some(order_of(tree)[position(tree, node) + 1])
    } else {
        None
    }
}

/// The node that precedes `node` in key order, if any.
pub open spec fn previous_in_order(tree: AaTree, node: usize) -> Option<usize> {
    if has_node(tree, node) && position(tree, node) > 0 {
        Some(order_of(tree)[position(tree, node) - 1])
    } else {
        None
    }
}

impl AaTree {
    /// `WeightedAaTree::new`: a tree without nodes.
    #[verifier::external_body]
    pub(crate) fn new(capacity: usize) -> (tree: AaTree)
        requires
            capacity == 0,
        ensures
            order_of(tree) == Seq::<usize>::empty(),
            nodes_of(tree).dom() == Set::<usize>::empty(),
            root_of(tree) == None::<usize>,
    {
        AaTree { inner: WeightedAaTree::new(capacity) }
    }

    /// `WeightedAaTree::insert_weighted`: stores `value` under `key` with weight
    /// one and returns the value that the key held before, if any. The tree stays
    /// well formed; the nodes that were there keep their indices, keys and values.
    /// A new node gets the index that the arena of the tree has vacant.
    #[verifier::external_body]
    pub(crate) fn insert_weighted(&mut self, key: usize, value: usize, weight: usize) -> (replaced:
        Option<usize>)
        requires
            tree_wf(*old(self)),
            weight == 1,
        ensures
            tree_wf(*final(self)),
            inserted(*old(self), *final(self), key, value, replaced),
            replaced is None ==> has_node(*final(self), vacant_of(*old(self))) && !has_node(
                *old(self),
                vacant_of(*old(self)),
            ),
    {
        self.inner.insert_weighted(key, value, weight)
    }

    /// `BinarySearchTree::remove`: takes the node with `key` out of the tree and
    /// returns its value, or returns `None` and changes nothing where no node
    /// holds the key. The tree stays well formed; the remaining nodes keep their
    /// indices, keys and values, and the index of the node that left is the one
    /// that the arena of the tree has vacant.
    #[verifier::external_body]
    pub(crate) fn remove(&mut self, key: usize) -> (taken: Option<usize>)
        requires
            tree_wf(*old(self)),
        ensures
            tree_wf(*final(self)),
            removed(*old(self), *final(self), key, taken),
            taken is Some ==> has_node(*old(self), vacant_of(*final(self))) && !has_node(
                *final(self),
                vacant_of(*final(self)),
            ),
    {
        self.inner.remove(key)
    }

    /// `BinarySearchTree::key`: the key of `node`, or `None` where the tree has no
    /// such node.
    #[verifier::external_body]
    pub(crate) fn key(&self, node: NodeIndex) -> (key: Option<usize>)
        ensures
            key == (if has_node(*self, node.0) {
                Some(nodes_of(*self)[node.0].key)
            } else {
                None
            }),
    {
        self.inner.key(outils::types::NodeIndex(node.0)).copied()
    }

    /// `Traversable::value`: the value of `node`, or `None` where the tree has no
    /// such node.
    #[verifier::external_body]
    pub(crate) fn value(&self, node: NodeIndex) -> (value: Option<usize>)
        ensures
            value == (if has_node(*self, node.0) {
                Some(nodes_of(*self)[node.0].value)
            } else {
                None
            }),
    {
        self.inner.value(outils::types::NodeIndex(node.0)).copied()
    }

    /// `Traversable::root`: the root node, or `None` for an empty tree.
    #[verifier::external_body]
    pub(crate) fn root(&self) -> (root: Option<NodeIndex>)
        ensures
            root == as_handle(root_of(*self)),
    {
        self.inner.root(outils::types::NodeIndex(0)).map(|n| NodeIndex(n.index()))
    }

    /// `Traversable::parent`: the parent of `node`; `None` for the root and for an
    /// index that is not in the tree.
    #[verifier::external_body]
    pub(crate) fn parent(&self, node: NodeIndex) -> (parent: Option<NodeIndex>)
        ensures
            parent == (if has_node(*self, node.0) {
                as_handle(nodes_of(*self)[node.0].parent)
            } else {
                None
            }),
    {
        self.inner.parent(outils::types::NodeIndex(node.0)).map(|n| NodeIndex(n.index()))
    }

    /// `Traversable::child`: the left (`pos == 0`) or right (`pos == 1`) child of
    /// `node`; `None` where that child is missing, for any other `pos`, and for
    /// an index that is not in the tree.
    #[verifier::external_body]
    pub(crate) fn child(&self, node: NodeIndex, pos: usize) -> (child: Option<NodeIndex>)
        ensures
            child == (if has_node(*self, node.0) && pos == 0 {
                as_handle(nodes_of(*self)[node.0].left)
            } else if has_node(*self, node.0) && pos == 1 {
                as_handle(nodes_of(*self)[node.0].right)
            } else {
                None
            }),
    {
        self.inner.child(outils::types::NodeIndex(node.0), pos).map(|n| NodeIndex(n.index()))
    }

    /// `WeightedTree::subweight`: the summed weight of the subtree of `node`, or
    /// `None` where the tree has no such node.
    #[verifier::external_body]
    pub(crate) fn subweight(&self, node: NodeIndex) -> (subweight: Option<usize>)
        ensures
            subweight == (if has_node(*self, node.0) {
                Some(nodes_of(*self)[node.0].subweight)
            } else {
                None
            }),
    {
        self.inner.subweight(outils::types::NodeIndex(node.0)).copied()
    }

    /// `OrderedTree::successor`: the node with the smallest key above that of
    /// `node`; `None` for the last node and for an index that is not in the tree.
    #[verifier::external_body]
    pub(crate) fn successor(&self, node: NodeIndex) -> (next: Option<NodeIndex>)
        requires
            tree_wf(*self),
        ensures
            next == as_handle(next_in_order(*self, node.0)),
    {
        self.inner.successor(outils::types::NodeIndex(node.0)).map(|n| NodeIndex(n.index()))
    }

    /// `OrderedTree::predecessor`: the node with the greatest key below that of
    /// `node`; `None` for the first node and for an index that is not in the tree.
    #[verifier::external_body]
    pub(crate) fn predecessor(&self, node: NodeIndex) -> (previous: Option<NodeIndex>)
        requires
            tree_wf(*self),
        ensures
            previous == as_handle(previous_in_order(*self, node.0)),
    {
        self.inner.predecessor(outils::types::NodeIndex(node.0)).map(|n| NodeIndex(n.index()))
    }

    /// `OrderedTree::first`, asked of the root: the node with the smallest key of
    /// the whole tree.
    #[verifier::external_body]
    pub(crate) fn first(&self, node: NodeIndex) -> (first: Option<NodeIndex>)
        requires
            tree_wf(*self),
            root_of(*self) == Some(node.0),
        ensures
            first == Some(NodeIndex(order_of(*self)[0])),
    {
        self.inner.first(outils::types::NodeIndex(node.0)).map(|n| NodeIndex(n.index()))
    }

    /// `OrderedTree::last`, asked of the root: the node with the greatest key of
    /// the whole tree.
    #[verifier::external_body]
    pub(crate) fn last(&self, node: NodeIndex) -> (last: Option<NodeIndex>)
        requires
            tree_wf(*self),
            root_of(*self) == Some(node.0),
        ensures
            last == Some(NodeIndex(order_of(*self)[order_of(*self).len() - 1])),
    {
        self.inner.last(outils::types::NodeIndex(node.0)).map(|n| NodeIndex(n.index()))
    }

    /// `Keys::keys`: the indices of all nodes in ascending key order.
    #[verifier::external_body]
    pub(crate) fn node_indexes(&self) -> (handles: Vec<NodeIndex>)
        requires
            tree_wf(*self),
        ensures
            handles@.len() == order_of(*self).len(),
            forall|i: int| 0 <= i < handles@.len() ==> (#[trigger] handles@[i]).0 == order_of(*self)[i],
    {
        self.inner.keys().map(|(n, _)| NodeIndex(n.index())).collect()
    }

    /// `Values::values`: the values of all nodes in ascending key order.
    #[verifier::external_body]
    pub(crate) fn ordered_values(&self) -> (values: Vec<usize>)
        requires
            tree_wf(*self),
        ensures
            values@.len() == order_of(*self).len(),
            forall|i: int|
                0 <= i < values@.len() ==> #[trigger] values@[i] == nodes_of(*self)[order_of(
                    *self,
                )[i]].value,
    {
        self.inner.values().map(|(_, v)| *v).collect()
    }
}

} // verus!
