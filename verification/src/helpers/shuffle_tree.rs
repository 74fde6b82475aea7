//! A circular sequence that can move an element any number of positions forward
//! or backward, and find the element at a rank, in logarithmic time.
//!
//! The elements hang in a weighted balanced tree, ordered by sparse keys. A
//! move takes one node out, walks from its former successor along the subtree
//! weights to the destination, and puts the element back under a key between
//! the destination and its predecessor. No other key changes.

use crate::helpers::aa_tree::{
    as_handle, has_node, nodes_of, order_of, position, tree_wf, vacant_of, weight_below,
};
use crate::helpers::aa_tree::{AaTree, NodeIndex};
use crate::helpers::circular::{
    circular_move, landing_rank, lemma_landing_in_range, lemma_wrapped_rank_periodic,
    rank_after_move, successor_after_removal, wrapped_rank,
};
use crate::helpers::key_space::{
    append_key, gap_of, initial_key, initial_key_of, interleaving_gap, key_at_landing,
    key_between, lemma_initial_keys_ascend, prepend_key, room_at_landing,
};
use crate::helpers::tree_facts::{in_span, truncated, walk_measure, walk_target};
use crate::helpers::tree_facts::{
    lemma_climb, lemma_descend_left, lemma_descend_right, lemma_inserted_at, lemma_keys_ascend,
    lemma_node, lemma_parentless, lemma_position_is, lemma_removed_at, lemma_root,
    lemma_span_start,
    lemma_truncated, lemma_truncated_rank, lemma_turn, lemma_walk_ends_at_node,
    lemma_walk_nowhere, lemma_weights,
};
use vstd::arithmetic::div_mod::lemma_small_mod;
use vstd::arithmetic::power2::lemma_pow2_pos;
use vstd::prelude::*;

verus! {

/// Why an operation on a [`ShuffleTree`] cannot be carried out.
#[derive(Clone, Copy, Debug, PartialEq, Eq, Structural)]
pub enum ShuffleError {
    /// No key is left where the element would have to go. The keys would have to
    /// be spread out anew, which this container does not do.
    KeySpaceExhausted,
    /// The handle does not refer to an element of the container.
    InvalidHandle,
    /// The container holds too few elements for the operation.
    TooFewElements,
}

/// A circular sequence of values with logarithmic moves and rank queries.
///
/// `INTERLEAVING_BITS` is the number of key bits left free between two elements
/// that are loaded side by side.
pub struct ShuffleTree<T, const INTERLEAVING_BITS: usize> {
    tree: AaTree,
    payloads: Vec<T>,
    gap: usize,
}

/// Whether `count` elements can be loaded together with `bits` interleaving
/// bits: the gap and the key of the last element fit into the key space, and
/// the count leaves room for signed offsets.
pub open spec fn can_hold(count: nat, bits: nat) -> bool {
    &&& gap_of(bits) <= usize::MAX
    &&& count * gap_of(bits) <= usize::MAX
    &&& count <= isize::MAX / 2
}

impl<T, const INTERLEAVING_BITS: usize> View for ShuffleTree<T, INTERLEAVING_BITS> {
    type V = Seq<T>;

    /// The values in sequence order.
    closed spec fn view(&self) -> Seq<T> {
        Seq::new(order_of(self.tree).len(), |i: int| self.payloads@[self.slots()[i] as int])
    }
}

impl<T, const INTERLEAVING_BITS: usize> ShuffleTree<T, INTERLEAVING_BITS> {
    /// For each rank, where the value of the element at that rank is stored.
    pub closed spec fn slots(&self) -> Seq<usize> {
        Seq::new(
            order_of(self.tree).len(),
            |i: int| nodes_of(self.tree)[order_of(self.tree)[i]].value,
        )
    }

    /// Every element has a stored value, and no two elements share one.
    pub closed spec fn slots_valid(&self) -> bool {
        &&& self.gap == gap_of(INTERLEAVING_BITS as nat)
        &&& forall|i: int|
            0 <= i < self.slots().len() ==> #[trigger] self.slots()[i] < self.payloads@.len()
        &&& forall|i: int, j: int|
            0 <= i < j < self.slots().len() ==> #[trigger] self.slots()[i]
                != #[trigger] self.slots()[j]
    }

    /// Every stored value belongs to exactly one element.
    pub closed spec fn owns_payloads(&self) -> bool {
        &&& self.slots_valid()
        &&& self.payloads@.len() == order_of(self.tree).len()
    }

    /// The invariant of the container: a well-formed tree ordered by key, whose
    /// nodes own one value each.
    pub open spec fn wf(&self) -> bool {
        self.well_ordered() && self.owns_payloads()
    }

    /// The tree orders its nodes by key, its subtree weights count nodes, and the
    /// number of elements leaves room for signed offsets.
    pub closed spec fn well_ordered(&self) -> bool {
        &&& tree_wf(self.tree)
        &&& order_of(self.tree).len() <= isize::MAX / 2
    }

    /// The handles of the elements, in sequence order.
    pub closed spec fn handles(&self) -> Seq<NodeIndex> {
        Seq::new(order_of(self.tree).len(), |i: int| NodeIndex(order_of(self.tree)[i]))
    }

    /// The sort keys of the elements, in sequence order.
    pub closed spec fn keys(&self) -> Seq<usize> {
        Seq::new(
            order_of(self.tree).len(),
            |i: int| nodes_of(self.tree)[order_of(self.tree)[i]].key,
        )
    }

    /// Whether `node` refers to an element of the container.
    pub closed spec fn contains(&self, node: NodeIndex) -> bool {
        has_node(self.tree, node.0)
    }

    /// The rank of the element that `node` refers to.
    pub closed spec fn rank_of(&self, node: NodeIndex) -> int {
        position(self.tree, node.0)
    }

    /// The handle that the next element to enter the sequence gets.
    pub closed spec fn next_handle(&self) -> NodeIndex {
        NodeIndex(vacant_of(self.tree))
    }

    /// The handle found `by` positions after `from`, wrapping around.
    pub open spec fn handle_after(&self, from: NodeIndex, by: int) -> NodeIndex {
        self.handles()[wrapped_rank(self.handles().len() as int, self.rank_of(from) + by)]
    }

    /// A bound on the steps that a walk of `by` positions from `from` still has
    /// to make.
    pub closed spec fn remaining_walk(&self, from: NodeIndex, by: int) -> int {
        walk_measure(self.tree, from.0, truncated(by, order_of(self.tree).len() as int))
    }

    /// A handle refers to an element exactly if the sequence of handles holds it,
    /// and then at the rank of that element.
    pub proof fn lemma_contains(&self, node: NodeIndex)
        requires
            self.well_ordered(),
        ensures
            self.contains(node) <==> self.handles().contains(node),
            self.contains(node) ==> 0 <= self.rank_of(node) < self.handles().len()
                && self.handles()[self.rank_of(node)] == node,
    {
        let handles = self.handles();
        let order = order_of(self.tree);
        if self.contains(node) {
            lemma_node(self.tree, node.0);
            assert(handles[position(self.tree, node.0)] == node);
        }
        if handles.contains(node) {
            let i = handles.index_of(node);
            assert(handles[i] == node);
            lemma_position_is(self.tree, i);
        }
    }

    /// Every rank of the sequence holds a handle of the container, and that
    /// handle has this rank: no handle stands at two ranks.
    pub proof fn lemma_rank(&self, rank: int)
        requires
            self.well_ordered(),
            0 <= rank < self.handles().len(),
        ensures
            self.contains(self.handles()[rank]),
            self.rank_of(self.handles()[rank]) == rank,
    {
        lemma_position_is(self.tree, rank);
    }

    /// The number of elements.
    pub fn total_weight(&self) -> (total: usize)
        requires
            self.well_ordered(),
        ensures
            total == self.handles().len(),
            total <= isize::MAX / 2,
    {
        proof {
            lemma_root(self.tree);
        }
        match self.tree.root() {
            Some(root) => {
                match self.tree.subweight(root) {
                    Some(weight) => weight,
                    None => 0,
                }
            },
            None => 0,
        }
    }

    /// Walks `by` positions from `from`, forward for a positive and backward for
    /// a negative offset, wrapping around at either end, and returns the handle
    /// found there.
    pub fn traverse_by_wrapping(&self, from: NodeIndex, by: isize) -> (to: NodeIndex)
        requires
            self.well_ordered(),
            self.contains(from),
        ensures
            self.contains(to),
            to == self.handle_after(from, by as int),
        decreases self.remaining_walk(from, by as int), 2int,
    {
        let ghost len = order_of(self.tree).len() as int;
        proof {
            lemma_node(self.tree, from.0);
            lemma_truncated(by as int, len);
            lemma_truncated_rank(position(self.tree, from.0), by as int, len);
            lemma_walk_ends_at_node(self.tree, from.0, by as int);
            lemma_walk_nowhere(self.tree, from.0);
        }
        let total = self.total_weight();
        let by_wrapped = by % (total as isize);
        if by_wrapped > 0 {
            self.traverse_forward_wrapping(from, by_wrapped as usize)
        } else if by_wrapped < 0 {
            self.traverse_backward_wrapping(from, (-by_wrapped) as usize)
        } else {
            from
        }
    }

    /// Walks `by` positions forward from `from`: down into the right subtree where
    /// it is large enough to hold the destination, else up.
    fn traverse_forward_wrapping(&self, from: NodeIndex, by: usize) -> (to: NodeIndex)
        requires
            self.well_ordered(),
            self.contains(from),
            0 < by < order_of(self.tree).len(),
        ensures
            to.0 == walk_target(self.tree, from.0, by as int),
        decreases walk_measure(self.tree, from.0, by as int), 1int,
    {
        proof {
            lemma_weights(self.tree, from.0);
        }
        if let Some(right_child) = self.tree.child(from, 1) {
            let child_weight = self.tree.subweight(right_child).unwrap();
            if child_weight >= by {
                let child_shifts_by = self.child_distance_to_parent(right_child, 0);
                proof {
                    lemma_descend_right(self.tree, from.0, by as int);
                    lemma_truncated(
                        by - child_shifts_by,
                        order_of(self.tree).len() as int,
                    );
                    self.lemma_target(right_child, by - child_shifts_by);
                }
                self.traverse_by_wrapping(right_child, by as isize - child_shifts_by as isize)
            } else {
                self.traverse_up_wrapping(from, by as isize)
            }
        } else {
            self.traverse_up_wrapping(from, by as isize)
        }
    }

    /// Walks `by` positions backward from `from`: down into the left subtree where
    /// it is large enough to hold the destination, else up.
    fn traverse_backward_wrapping(&self, from: NodeIndex, by: usize) -> (to: NodeIndex)
        requires
            self.well_ordered(),
            self.contains(from),
            0 < by < order_of(self.tree).len(),
        ensures
            to.0 == walk_target(self.tree, from.0, -(by as int)),
        decreases walk_measure(self.tree, from.0, -(by as int)), 1int,
    {
        proof {
            lemma_weights(self.tree, from.0);
        }
        if let Some(left_child) = self.tree.child(from, 0) {
            let child_weight = self.tree.subweight(left_child).unwrap();
            if child_weight >= by {
                let child_shifts_by = self.child_distance_to_parent(left_child, 1);
                proof {
                    lemma_descend_left(self.tree, from.0, by as int);
                    lemma_truncated(
                        child_shifts_by - by,
                        order_of(self.tree).len() as int,
                    );
                    self.lemma_target(left_child, child_shifts_by - by);
                }
                self.traverse_by_wrapping(left_child, 0 - by as isize + child_shifts_by as isize)
            } else {
                self.traverse_up_wrapping(from, 0 - by as isize)
            }
        } else {
            self.traverse_up_wrapping(from, 0 - by as isize)
        }
    }

    /// Continues a walk whose destination lies outside the subtree of `from`: at
    /// the parent, or at the root again after a full turn around the sequence.
    fn traverse_up_wrapping(&self, from: NodeIndex, by: isize) -> (to: NodeIndex)
        requires
            self.well_ordered(),
            self.contains(from),
            by != 0,
            -order_of(self.tree).len() < by < order_of(self.tree).len(),
            !in_span(self.tree, from.0, by as int),
        ensures
            to.0 == walk_target(self.tree, from.0, by as int),
        decreases walk_measure(self.tree, from.0, by as int), 0int,
    {
        proof {
            lemma_weights(self.tree, from.0);
        }
        if let Some(parent) = self.tree.parent(from) {
            proof {
                lemma_climb(self.tree, from.0, by as int);
                lemma_weights(self.tree, parent.0);
            }
            if self.is_child_at(parent, 0, from) {
                let child_to_parent_right_distance = self.child_distance_to_parent(from, 1);
                proof {
                    self.lemma_target(parent, by - child_to_parent_right_distance);
                }
                self.traverse_by_wrapping(parent, by - child_to_parent_right_distance as isize)
            } else {
                let child_to_parent_left_distance = self.child_distance_to_parent(from, 0);
                proof {
                    self.lemma_target(parent, by + child_to_parent_left_distance);
                }
                self.traverse_by_wrapping(parent, by + child_to_parent_left_distance as isize)
            }
        } else {
            let total = self.tree.subweight(from).unwrap();
            let turned = if by > 0 {
                by - total as isize
            } else {
                by + total as isize
            };
            proof {
                lemma_turn(self.tree, from.0, by as int);
                lemma_truncated(turned as int, order_of(self.tree).len() as int);
                self.lemma_target(from, turned as int);
            }
            self.traverse_by_wrapping(from, turned)
        }
    }

    /// The handle after a walk is the node that the walk ends at.
    proof fn lemma_target(&self, from: NodeIndex, by: int)
        requires
            self.well_ordered(),
            self.contains(from),
        ensures
            self.handle_after(from, by).0 == walk_target(self.tree, from.0, by),
    {
        lemma_node(self.tree, from.0);
        lemma_walk_ends_at_node(self.tree, from.0, by);
        lemma_truncated_rank(position(self.tree, from.0), by, order_of(self.tree).len() as int);
    }

    /// Whether `child` is the child of `parent` on the given side (0 for left, 1
    /// for right).
    fn is_child_at(&self, parent: NodeIndex, pos: usize, child: NodeIndex) -> (found: bool)
        requires
            self.contains(parent),
        ensures
            found == (if pos == 0 {
                nodes_of(self.tree)[parent.0].left == Some(child.0)
            } else if pos == 1 {
                nodes_of(self.tree)[parent.0].right == Some(child.0)
            } else {
                false
            }),
    {
        match self.tree.child(parent, pos) {
            Some(c) => c.0 == child.0,
            None => false,
        }
    }

    /// The number of positions between `child` and its parent where `child`
    /// hangs on the side opposite to `pos`: one more than the weight of the
    /// subtree of `child` on side `pos`.
    fn child_distance_to_parent(&self, child: NodeIndex, pos: u8) -> (distance: usize)
        requires
            self.well_ordered(),
            self.contains(child),
        ensures
            distance == 1 + (if pos == 0 {
                weight_below(self.tree, nodes_of(self.tree)[child.0].left)
            } else if pos == 1 {
                weight_below(self.tree, nodes_of(self.tree)[child.0].right)
            } else {
                0
            }),
    {
        proof {
            lemma_weights(self.tree, child.0);
        }
        if let Some(child_pos_child) = self.tree.child(child, pos as usize) {
            self.tree.subweight(child_pos_child).unwrap() + 1
        } else {
            1
        }
    }

    /// Handles, keys and values are three readings of one sequence: they have the
    /// same length, and the keys ascend strictly along it.
    pub proof fn lemma_order(&self)
        requires
            self.well_ordered(),
        ensures
            self.handles().len() == self@.len(),
            self.keys().len() == self@.len(),
            self.handles().no_duplicates(),
            forall|i: int, j: int|
                0 <= i < j < self.keys().len() ==> self.keys()[i] < self.keys()[j],
    {
        assert forall|i: int, j: int| 0 <= i < j < self.keys().len() implies self.keys()[i]
            < self.keys()[j] by {
            lemma_keys_ascend(self.tree, i, j);
        }
        assert forall|i: int, j: int|
            0 <= i < self.handles().len() && 0 <= j < self.handles().len() && i
                != j implies self.handles()[i] != self.handles()[j] by {
            lemma_position_is(self.tree, i);
            lemma_position_is(self.tree, j);
        }
    }

    /// Loads the values in the given order, with keys one interleaving gap apart.
    /// Fails where the key space cannot hold that many elements.
    pub fn from_iter(values: Vec<T>) -> (made: Result<Self, ShuffleError>)
        ensures
            made is Ok <==> can_hold(values@.len(), INTERLEAVING_BITS as nat),
            made is Err ==> made->Err_0 == ShuffleError::KeySpaceExhausted,
            made is Ok ==> {
                let list = made->Ok_0;
                &&& list.wf()
                &&& list@ == values@
                &&& list.keys().len() == values@.len()
                &&& forall|i: int|
                    0 <= i < values@.len() ==> #[trigger] list.keys()[i] == initial_key_of(
                        i as nat,
                        gap_of(INTERLEAVING_BITS as nat),
                    )
            },
    {
        let count = values.len();
        let gap = match interleaving_gap(INTERLEAVING_BITS) {
            Some(gap) => gap,
            None => {
                return Err(ShuffleError::KeySpaceExhausted);
            },
        };
        if count > (isize::MAX / 2) as usize {
            return Err(ShuffleError::KeySpaceExhausted);
        }
        if count > 0 && initial_key(count - 1, gap).is_none() {
            return Err(ShuffleError::KeySpaceExhausted);
        }
        let mut tree = AaTree::new(0);
        let mut index: usize = 0;
        proof {
            lemma_pow2_pos(INTERLEAVING_BITS as nat);
            assert(count * gap <= usize::MAX) by (nonlinear_arith)
                requires
                    count == 0 || (count - 1 + 1) * gap <= usize::MAX,
            ;
            reveal(tree_wf);
            assert forall|node: usize| #[trigger] has_node(tree, node) <==> order_of(
                tree,
            ).contains(node) by {
                assert(!Set::<usize>::empty().contains(node));
            }
        }
        while index < count
            invariant
                index <= count,
                gap == gap_of(INTERLEAVING_BITS as nat),
                gap > 0,
                count * gap <= usize::MAX,
                tree_wf(tree),
                order_of(tree).len() == index,
                forall|j: int|
                    0 <= j < index ==> {
                        &&& nodes_of(tree)[#[trigger] order_of(tree)[j]].key == initial_key_of(
                            j as nat,
                            gap as nat,
                        )
                        &&& nodes_of(tree)[order_of(tree)[j]].value == j
                    },
            decreases count - index,
        {
            proof {
                if index + 1 < count {
                    lemma_initial_keys_ascend(gap as nat, index as nat, (count - 1) as nat);
                }
            }
            let key = initial_key(index, gap).unwrap();
            let ghost before = tree;
            let replaced = tree.insert_weighted(key, index, 1);
            proof {
                assert forall|j: int| 0 <= j < index implies nodes_of(before)[#[trigger] order_of(
                    before,
                )[j]].key < key by {
                    lemma_initial_keys_ascend(gap as nat, j as nat, index as nat);
                }
                if replaced is Some {
                    let node = choose|node: usize|
                        {
                            &&& #[trigger] has_node(before, node)
                            &&& nodes_of(before)[node].key == key
                        };
                    lemma_node(before, node);
                    assert(false);
                }
                let node = lemma_inserted_at(before, tree, key, index, index as int);
                assert forall|j: int| 0 <= j < index + 1 implies {
                    &&& nodes_of(tree)[#[trigger] order_of(tree)[j]].key == initial_key_of(
                        j as nat,
                        gap as nat,
                    )
                    &&& nodes_of(tree)[order_of(tree)[j]].value == j
                } by {
                    if j < index {
                        lemma_position_is(before, j);
                        assert(order_of(tree)[j] == order_of(before)[j]);
                    }
                }
            }
            index += 1;
        }
        let list = ShuffleTree { tree, payloads: values, gap };
        proof {
            assert(list@ =~= values@);
        }
        Ok(list)
    }

    /// Whether `node` refers to an element of the container.
    pub fn contains_handle(&self, node: NodeIndex) -> (found: bool)
        ensures
            found == self.contains(node),
    {
        self.tree.key(node).is_some()
    }

    /// The handles of all elements, in sequence order.
    pub fn node_indexes(&self) -> (handles: Vec<NodeIndex>)
        requires
            self.well_ordered(),
        ensures
            handles@ == self.handles(),
    {
        let handles = self.tree.node_indexes();
        proof {
            assert(handles@ =~= self.handles());
        }
        handles
    }

    /// The values of all elements, in sequence order.
    pub fn ordered_values(&self) -> (values: Vec<&T>)
        requires
            self.wf(),
        ensures
            values@.len() == self@.len(),
            forall|i: int| 0 <= i < values@.len() ==> *(#[trigger] values@[i]) == self@[i],
    {
        let slots = self.tree.ordered_values();
        let mut values: Vec<&T> = Vec::new();
        let mut index: usize = 0;
        while index < slots.len()
            invariant
                self.wf(),
                index <= slots@.len(),
                slots@.len() == order_of(self.tree).len(),
                forall|i: int| 0 <= i < slots@.len() ==> #[trigger] slots@[i] == self.slots()[i],
                values@.len() == index,
                forall|i: int| 0 <= i < index ==> *(#[trigger] values@[i]) == self@[i],
            decreases slots@.len() - index,
        {
            let slot = slots[index];
            assert(slot == self.slots()[index as int]);
            values.push(&self.payloads[slot]);
            index += 1;
        }
        values
    }

    /// The value of the element that `node` refers to.
    pub fn value_at(&self, node: NodeIndex) -> (value: &T)
        requires
            self.wf(),
            self.contains(node),
        ensures
            *value == self@[self.rank_of(node)],
    {
        proof {
            lemma_node(self.tree, node.0);
            assert(self.slots()[position(self.tree, node.0)] == nodes_of(self.tree)[node.0].value);
        }
        let slot = self.tree.value(node).unwrap();
        &self.payloads[slot]
    }

    /// The sort key of the element that `node` refers to.
    pub fn key_at(&self, node: NodeIndex) -> (key: usize)
        requires
            self.well_ordered(),
            self.contains(node),
        ensures
            key == self.keys()[self.rank_of(node)],
    {
        proof {
            lemma_node(self.tree, node.0);
        }
        self.tree.key(node).unwrap()
    }

    /// The rank of the element that `node` refers to, found by climbing to the
    /// root and counting what lies to the left of the path.
    pub fn position_of(&self, node: NodeIndex) -> (rank: usize)
        requires
            self.well_ordered(),
            self.contains(node),
        ensures
            rank == self.rank_of(node),
            rank < self.handles().len(),
    {
        proof {
            lemma_weights(self.tree, node.0);
            lemma_node(self.tree, node.0);
        }
        let mut rank = self.child_distance_to_parent(node, 0) - 1;
        let mut current = node;
        loop
            invariant
                self.well_ordered(),
                self.contains(node),
                self.contains(current),
                rank == position(self.tree, node.0) - (position(self.tree, current.0)
                    - weight_below(self.tree, nodes_of(self.tree)[current.0].left)),
            ensures
                rank == position(self.tree, node.0),
            decreases order_of(self.tree).len() - nodes_of(self.tree)[current.0].subweight,
        {
            proof {
                lemma_span_start(self.tree, current.0);
                lemma_node(self.tree, node.0);
            }
            match self.tree.parent(current) {
                Some(parent) => {
                    if self.is_child_at(parent, 1, current) {
                        proof {
                            lemma_weights(self.tree, parent.0);
                        }
                        rank = rank + self.child_distance_to_parent(parent, 0);
                    }
                    current = parent;
                },
                None => {
                    break ;
                },
            }
        }
        proof {
            lemma_node(self.tree, node.0);
        }
        rank
    }

    /// The handle of the element at rank `position`, or `None` where the
    /// sequence is not that long.
    pub fn node_at_position(&self, position: usize) -> (found: Option<NodeIndex>)
        requires
            self.well_ordered(),
        ensures
            found == (if position < self.handles().len() {
                Some(self.handles()[position as int])
            } else {
                None
            }),
            found is Some ==> self.contains(found->0),
    {
        if position >= self.total_weight() {
            return None;
        }
        proof {
            lemma_small_mod(position as nat, order_of(self.tree).len());
        }
        Some(self.node_at_position_wrapping(position))
    }

    /// Wraparound: a rank denotes the same element after any number of full
    /// turns around the circle.
    pub proof fn lemma_position_wraps(&self, rank: int, turns: int)
        requires
            self.handles().len() > 0,
        ensures
            self.handles()[wrapped_rank(
                self.handles().len() as int,
                rank + turns * self.handles().len(),
            )] == self.handles()[wrapped_rank(self.handles().len() as int, rank)],
            0 <= wrapped_rank(self.handles().len() as int, rank) < self.handles().len(),
    {
        lemma_wrapped_rank_periodic(self.handles().len() as int, rank, turns);
    }

    /// The handle of the element at rank `position`, counted around the circle
    /// as often as it takes.
    pub fn node_at_position_wrapping(&self, position: usize) -> (found: NodeIndex)
        requires
            self.well_ordered(),
            self.handles().len() > 0,
        ensures
            found == self.handles()[wrapped_rank(self.handles().len() as int, position as int)],
            self.contains(found),
    {
        let total = self.total_weight();
        let wrapped_postition = position % total;
        proof {
            lemma_root(self.tree);
            lemma_position_is(self.tree, 0);
        }
        let first_node = self.tree.first(self.tree.root().unwrap()).unwrap();
        proof {
            let len = order_of(self.tree).len() as int;
            lemma_wrapped_rank_periodic(len, position as int, 0);
            lemma_small_mod(wrapped_postition as nat, len as nat);
        }
        self.traverse_by_wrapping(first_node, wrapped_postition as isize)
    }

    /// Whether a further element can be put behind the last one: there is a last
    /// one, and a key one gap above its key.
    pub open spec fn can_append(&self) -> bool {
        &&& 1 <= self.keys().len() < isize::MAX / 2
        &&& self.keys().last() + gap_of(INTERLEAVING_BITS as nat) <= usize::MAX
    }

    /// Whether a further element can be put in front of the first one: there is
    /// a first one, and a key one gap below its key.
    pub open spec fn can_prepend(&self) -> bool {
        &&& 1 <= self.keys().len() < isize::MAX / 2
        &&& self.keys()[0] >= gap_of(INTERLEAVING_BITS as nat)
    }

    /// What taking a node out of the tree does to the three readings of the
    /// sequence: each loses the entry at the rank of that node.
    proof fn lemma_after_removal(before: &Self, after: &Self, node: usize)
        requires
            before.well_ordered(),
            before.slots_valid(),
            tree_wf(after.tree),
            has_node(before.tree, node),
            order_of(after.tree) == order_of(before.tree).remove(position(before.tree, node)),
            forall|other: usize| #[trigger]
                has_node(after.tree, other) ==> {
                    &&& nodes_of(after.tree)[other].key == nodes_of(before.tree)[other].key
                    &&& nodes_of(after.tree)[other].value == nodes_of(before.tree)[other].value
                },
            after.payloads@ == before.payloads@,
            after.gap == before.gap,
        ensures
            after.well_ordered(),
            after.slots_valid(),
            after.slots() == before.slots().remove(position(before.tree, node)),
            after.keys() == before.keys().remove(position(before.tree, node)),
            after.handles() == before.handles().remove(position(before.tree, node)),
            before.slots()[position(before.tree, node)] < before.payloads@.len(),
            forall|i: int|
                0 <= i < after.slots().len() ==> after.slots()[i] != before.slots()[position(
                    before.tree,
                    node,
                )],
    {
        let at = position(before.tree, node);
        lemma_node(before.tree, node);
        assert(before.slots()[at] < before.payloads@.len());
        let old_order = order_of(before.tree);
        let new_order = order_of(after.tree);
        assert forall|i: int| 0 <= i < new_order.len() implies #[trigger] after.slots()[i]
            == before.slots().remove(at)[i] by {
            lemma_position_is(after.tree, i);
        }
        assert forall|i: int| 0 <= i < new_order.len() implies #[trigger] after.keys()[i]
            == before.keys().remove(at)[i] by {
            lemma_position_is(after.tree, i);
        }
        assert forall|i: int| 0 <= i < new_order.len() implies #[trigger] after.handles()[i]
            == before.handles().remove(at)[i] by {
            lemma_position_is(after.tree, i);
        }
        assert(after.slots() =~= before.slots().remove(at));
        assert(after.keys() =~= before.keys().remove(at));
        assert(after.handles() =~= before.handles().remove(at));
        assert forall|i: int, j: int| 0 <= i < j < after.slots().len() implies #[trigger] after.slots()[i]
            != #[trigger] after.slots()[j] by {
            let a = if i < at {
                i
            } else {
                i + 1
            };
            let b = if j < at {
                j
            } else {
                j + 1
            };
            assert(after.slots()[i] == before.slots()[a]);
            assert(after.slots()[j] == before.slots()[b]);
        }
        assert forall|i: int| 0 <= i < after.slots().len() implies #[trigger] after.slots()[i]
            < after.payloads@.len() by {
            let a = if i < at {
                i
            } else {
                i + 1
            };
            assert(after.slots()[i] == before.slots()[a]);
        }
        assert forall|i: int| 0 <= i < after.slots().len() implies after.slots()[i]
            != before.slots()[at] by {
            let a = if i < at {
                i
            } else {
                i + 1
            };
            assert(after.slots()[i] == before.slots()[a]);
        }
    }

    /// What putting the value of an element back at another rank does to the
    /// sequence of values.
    proof fn lemma_put_back(before: &Self, removed: &Self, after: &Self, at: int, to: int)
        requires
            before.wf(),
            0 <= at < before.slots().len(),
            0 <= to < before.slots().len(),
            removed.slots() == before.slots().remove(at),
            after.slots() == removed.slots().insert(to, before.slots()[at]),
            after.payloads@ == before.payloads@,
            after.slots_valid(),
            after.well_ordered(),
        ensures
            after.wf(),
            after@ == before@.remove(at).insert(to, before@[at]),
    {
        assert(after.slots().len() == before.slots().len());
        assert forall|i: int| 0 <= i < after@.len() implies #[trigger] after@[i] == before@.remove(
            at,
        ).insert(to, before@[at])[i] by {
            if i < to {
                assert(after.slots()[i] == before.slots().remove(at)[i]);
            } else if i > to {
                assert(after.slots()[i] == before.slots().remove(at)[i - 1]);
            }
        }
        assert(after@ =~= before@.remove(at).insert(to, before@[at]));
    }

    /// What a new node does to the three readings of the sequence: each gains
    /// an entry at the rank of that node.
    proof fn lemma_after_insertion(
        before: &Self,
        after: &Self,
        node: usize,
        rank: int,
        key: usize,
        slot: usize,
    )
        requires
            before.well_ordered(),
            before.slots_valid(),
            order_of(before.tree).len() < isize::MAX / 2,
            tree_wf(after.tree),
            0 <= rank <= order_of(before.tree).len(),
            order_of(after.tree) == order_of(before.tree).insert(rank, node),
            nodes_of(after.tree)[node].key == key,
            nodes_of(after.tree)[node].value == slot,
            forall|other: usize| #[trigger]
                has_node(before.tree, other) ==> {
                    &&& nodes_of(after.tree)[other].key == nodes_of(before.tree)[other].key
                    &&& nodes_of(after.tree)[other].value == nodes_of(before.tree)[other].value
                },
            after.payloads@ == before.payloads@,
            after.gap == before.gap,
            slot < before.payloads@.len(),
            forall|i: int| 0 <= i < before.slots().len() ==> before.slots()[i] != slot,
        ensures
            after.well_ordered(),
            after.slots_valid(),
            after.slots() == before.slots().insert(rank, slot),
            after.keys() == before.keys().insert(rank, key),
            after.handles() == before.handles().insert(rank, NodeIndex(node)),
    {
        let old_order = order_of(before.tree);
        let new_order = order_of(after.tree);
        assert forall|i: int| 0 <= i < new_order.len() implies #[trigger] after.slots()[i]
            == before.slots().insert(rank, slot)[i] by {
            if i < rank {
                lemma_position_is(before.tree, i);
            } else if i > rank {
                lemma_position_is(before.tree, i - 1);
            }
        }
        assert forall|i: int| 0 <= i < new_order.len() implies #[trigger] after.keys()[i]
            == before.keys().insert(rank, key)[i] by {
            if i < rank {
                lemma_position_is(before.tree, i);
            } else if i > rank {
                lemma_position_is(before.tree, i - 1);
            }
        }
        assert forall|i: int| 0 <= i < new_order.len() implies #[trigger] after.handles()[i]
            == before.handles().insert(rank, NodeIndex(node))[i] by {
            if i < rank {
                lemma_position_is(before.tree, i);
            } else if i > rank {
                lemma_position_is(before.tree, i - 1);
            }
        }
        assert(after.slots() =~= before.slots().insert(rank, slot));
        assert(after.keys() =~= before.keys().insert(rank, key));
        assert(after.handles() =~= before.handles().insert(rank, NodeIndex(node)));
        assert forall|i: int, j: int| 0 <= i < j < after.slots().len() implies #[trigger] after.slots()[i]
            != #[trigger] after.slots()[j] by {
            let a = if i < rank {
                i
            } else {
                i - 1
            };
            let b = if j < rank {
                j
            } else {
                j - 1
            };
            if i != rank {
                assert(after.slots()[i] == before.slots()[a]);
            }
            if j != rank {
                assert(after.slots()[j] == before.slots()[b]);
            }
        }
        assert forall|i: int| 0 <= i < after.slots().len() implies #[trigger] after.slots()[i]
            < after.payloads@.len() by {
            let a = if i < rank {
                i
            } else {
                i - 1
            };
            if i != rank {
                assert(after.slots()[i] == before.slots()[a]);
            }
        }
    }

    /// Puts the stored value `slot` into the sequence under `key`, which sorts
    /// at `rank`.
    fn insert_slot(&mut self, key: usize, slot: usize, Ghost(rank): Ghost<int>)
        requires
            old(self).well_ordered(),
            old(self).slots_valid(),
            old(self).keys().len() < isize::MAX / 2,
            slot < old(self).payloads@.len(),
            forall|i: int| 0 <= i < old(self).slots().len() ==> old(self).slots()[i] != slot,
            0 <= rank <= old(self).keys().len(),
            forall|i: int| 0 <= i < rank ==> old(self).keys()[i] < key,
            forall|i: int| rank <= i < old(self).keys().len() ==> key < old(self).keys()[i],
        ensures
            final(self).well_ordered(),
            final(self).slots_valid(),
            final(self).payloads@ == old(self).payloads@,
            final(self).slots() == old(self).slots().insert(rank, slot),
            final(self).keys() == old(self).keys().insert(rank, key),
            final(self).handles() == old(self).handles().insert(rank, old(self).next_handle()),
            final(self).slots().len() == old(self).slots().len() + 1,
    {
        let ghost before = *self;
        let replaced = self.tree.insert_weighted(key, slot, 1);
        proof {
            assert forall|i: int| 0 <= i < rank implies nodes_of(before.tree)[#[trigger] order_of(
                before.tree,
            )[i]].key < key by {
                assert(before.keys()[i] < key);
            }
            assert forall|i: int| rank <= i < order_of(before.tree).len() implies key < nodes_of(
                before.tree,
            )[#[trigger] order_of(before.tree)[i]].key by {
                assert(key < before.keys()[i]);
            }
            if replaced is Some {
                let held = choose|held: usize|
                    {
                        &&& #[trigger] has_node(before.tree, held)
                        &&& nodes_of(before.tree)[held].key == key
                    };
                lemma_node(before.tree, held);
                let i = position(before.tree, held);
                assert(before.keys()[i] == key);
                assert(false);
            }
            let node = lemma_inserted_at(before.tree, self.tree, key, slot, rank);
            Self::lemma_after_insertion(&before, self, node, rank, key, slot);
        }
    }

    /// Puts the stored value `slot` behind the last element, one gap above its
    /// key.
    fn append_slot(&mut self, slot: usize)
        requires
            old(self).well_ordered(),
            old(self).slots_valid(),
            1 <= old(self).keys().len() < isize::MAX / 2,
            slot < old(self).payloads@.len(),
            forall|i: int| 0 <= i < old(self).slots().len() ==> old(self).slots()[i] != slot,
            old(self).keys().last() + gap_of(INTERLEAVING_BITS as nat) <= usize::MAX,
        ensures
            final(self).well_ordered(),
            final(self).slots_valid(),
            final(self).payloads@ == old(self).payloads@,
            final(self).slots() == old(self).slots().push(slot),
            final(self).keys() == old(self).keys().push(
                (old(self).keys().last() + gap_of(INTERLEAVING_BITS as nat)) as usize,
            ),
            final(self).handles() == old(self).handles().push(old(self).next_handle()),
            final(self).slots().len() == old(self).slots().len() + 1,
    {
        let ghost len = self.keys().len() as int;
        proof {
            lemma_root(self.tree);
            lemma_position_is(self.tree, len - 1);
            lemma_pow2_pos(INTERLEAVING_BITS as nat);
        }
        let last_node = self.tree.last(self.tree.root().unwrap()).unwrap();
        let current_max_key = self.tree.key(last_node).unwrap();
        let new_max_key = append_key(current_max_key, self.gap).unwrap();
        proof {
            assert forall|i: int| 0 <= i < len implies self.keys()[i] < new_max_key by {
                if i < len - 1 {
                    lemma_keys_ascend(self.tree, i, len - 1);
                }
            }
        }
        self.insert_slot(new_max_key, slot, Ghost(len));
        proof {
            assert(self.slots() =~= old(self).slots().push(slot));
            assert(self.keys() =~= old(self).keys().push(new_max_key));
            assert(self.handles() =~= old(self).handles().push(old(self).next_handle()));
        }
    }

    /// Puts the stored value `slot` in front of the first element, one gap below
    /// its key.
    fn prepend_slot(&mut self, slot: usize)
        requires
            old(self).well_ordered(),
            old(self).slots_valid(),
            1 <= old(self).keys().len() < isize::MAX / 2,
            slot < old(self).payloads@.len(),
            forall|i: int| 0 <= i < old(self).slots().len() ==> old(self).slots()[i] != slot,
            old(self).keys()[0] >= gap_of(INTERLEAVING_BITS as nat),
        ensures
            final(self).well_ordered(),
            final(self).slots_valid(),
            final(self).payloads@ == old(self).payloads@,
            final(self).slots() == old(self).slots().insert(0, slot),
            final(self).keys() == old(self).keys().insert(
                0,
                (old(self).keys()[0] - gap_of(INTERLEAVING_BITS as nat)) as usize,
            ),
            final(self).handles() == old(self).handles().insert(0, old(self).next_handle()),
            final(self).slots().len() == old(self).slots().len() + 1,
    {
        let ghost len = self.keys().len() as int;
        proof {
            lemma_root(self.tree);
            lemma_position_is(self.tree, 0);
            lemma_pow2_pos(INTERLEAVING_BITS as nat);
        }
        let first_node = self.tree.first(self.tree.root().unwrap()).unwrap();
        let current_min_key = self.tree.key(first_node).unwrap();
        let new_min_key = prepend_key(current_min_key, self.gap).unwrap();
        proof {
            assert forall|i: int| 0 <= i < len implies new_min_key < self.keys()[i] by {
                if 0 < i {
                    lemma_keys_ascend(self.tree, 0, i);
                }
            }
        }
        self.insert_slot(new_min_key, slot, Ghost(0));
    }

    /// Adds `value` behind the last element.
    pub fn append(&mut self, value: T)
        requires
            old(self).wf(),
            old(self).can_append(),
        ensures
            final(self).wf(),
            final(self)@ == old(self)@.push(value),
            final(self).keys() == old(self).keys().push(
                (old(self).keys().last() + gap_of(INTERLEAVING_BITS as nat)) as usize,
            ),
            final(self).handles() == old(self).handles().push(old(self).next_handle()),
            final(self)@.len() == old(self)@.len() + 1,
    {
        self.payloads.push(value);
        let slot = self.payloads.len() - 1;
        proof {
            assert(self.slots() == old(self).slots());
        }
        let ghost pushed = *self;
        self.append_slot(slot);
        proof {
            assert forall|i: int| 0 <= i < self@.len() implies #[trigger] self@[i] == old(
                self,
            )@.push(value)[i] by {
                if i < old(self)@.len() {
                    assert(self.slots()[i] == old(self).slots()[i]);
                }
            }
            assert(self@ =~= old(self)@.push(value));
        }
    }

    /// Adds `value` in front of the first element.
    pub fn prepend(&mut self, value: T)
        requires
            old(self).wf(),
            old(self).can_prepend(),
        ensures
            final(self).wf(),
            final(self)@ == old(self)@.insert(0, value),
            final(self).keys() == old(self).keys().insert(
                0,
                (old(self).keys()[0] - gap_of(INTERLEAVING_BITS as nat)) as usize,
            ),
            final(self).handles() == old(self).handles().insert(0, old(self).next_handle()),
            final(self)@.len() == old(self)@.len() + 1,
    {
        self.payloads.push(value);
        let slot = self.payloads.len() - 1;
        proof {
            assert(self.slots() == old(self).slots());
        }
        self.prepend_slot(slot);
        proof {
            assert forall|i: int| 0 <= i < self@.len() implies #[trigger] self@[i] == old(
                self,
            )@.insert(0, value)[i] by {
                if 0 < i {
                    assert(self.slots()[i] == old(self).slots()[i - 1]);
                }
            }
            assert(self@ =~= old(self)@.insert(0, value));
        }
    }

    /// The keys of the other elements once the element at rank `at` is taken out.
    pub open spec fn keys_without(&self, at: int) -> Seq<usize> {
        self.keys().remove(at)
    }

    /// Whether the element that `node` refers to can be moved by `by`: it is an
    /// element of the container, there is another element to walk from, and a key
    /// is left at the destination, between the element it lands in front of and
    /// that element's predecessor, or behind the last element where it lands in
    /// front of the first.
    pub open spec fn can_move(&self, node: NodeIndex, by: int) -> bool {
        &&& self.contains(node)
        &&& self.keys().len() >= 2
        &&& room_at_landing(
            self.keys_without(self.rank_of(node)),
            landing_rank(self.keys().len() as int, self.rank_of(node), by),
            gap_of(INTERLEAVING_BITS as nat),
        )
    }

    /// The key under which a move by `by` puts the element that `node` refers
    /// to.
    pub open spec fn key_after_move(&self, node: NodeIndex, by: int) -> int {
        key_at_landing(
            self.keys_without(self.rank_of(node)),
            landing_rank(self.keys().len() as int, self.rank_of(node), by),
            gap_of(INTERLEAVING_BITS as nat),
        )
    }

    /// Moves the element that `node` refers to by `by` positions around the
    /// circle: forward for a positive offset, backward for a negative one. The
    /// element is taken out first, and the positions are counted from its former
    /// successor among the elements that remain. All handles stay valid, and
    /// `node` goes on referring to the element that was moved.
    #[verifier::rlimit(30)]
    pub fn move_by_wrapping(&mut self, node: NodeIndex, by: isize)
        requires
            old(self).wf(),
            old(self).can_move(node, by as int),
        ensures
            final(self).wf(),
            final(self)@ == circular_move(old(self)@, old(self).rank_of(node), by as int),
            final(self).keys() == old(self).keys_without(old(self).rank_of(node)).insert(
                rank_after_move(old(self)@.len() as int, old(self).rank_of(node), by as int),
                old(self).key_after_move(node, by as int) as usize,
            ),
            final(self).handles() == old(self).handles().remove(old(self).rank_of(node)).insert(
                rank_after_move(old(self)@.len() as int, old(self).rank_of(node), by as int),
                node,
            ),
            final(self)@.len() == old(self)@.len(),
            final(self).contains(node),
            final(self).rank_of(node) == rank_after_move(
                old(self)@.len() as int,
                old(self).rank_of(node),
                by as int,
            ),
    {
        let ghost before = *self;
        let ghost len = order_of(self.tree).len() as int;
        let ghost at = position(self.tree, node.0);
        let ghost start = successor_after_removal(len, at);
        let ghost land = landing_rank(len, at, by as int);
        proof {
            lemma_node(self.tree, node.0);
            lemma_root(self.tree);
            lemma_position_is(self.tree, 0);
            lemma_landing_in_range(len, at, by as int);
            if at + 1 < len {
                lemma_position_is(self.tree, at + 1);
            }
        }
        let current_key = self.tree.key(node).unwrap();
        let current_node_wrapped_successor = match self.tree.successor(node) {
            Some(successor) => successor,
            None => self.tree.first(self.tree.root().unwrap()).unwrap(),
        };
        let current_value = self.tree.remove(current_key).unwrap();
        proof {
            lemma_removed_at(before.tree, self.tree, node.0, Some(current_value));
            Self::lemma_after_removal(&before, self, node.0);
            assert(self.handles()[start] == current_node_wrapped_successor);
            lemma_position_is(self.tree, start);
            lemma_position_is(self.tree, land);
            assert(before.slots()[at] == current_value);
        }
        let destination_node_index = self.traverse_by_wrapping(current_node_wrapped_successor, by);
        let destination_key = self.tree.key(destination_node_index).unwrap();
        let ghost removed = *self;
        proof {
            assert(destination_node_index.0 == order_of(self.tree)[land]);
            assert(destination_key == self.keys()[land]);
        }
        // Behind the last element instead of in front of the first: in a circle it
        // is the same place, and it takes no key from between two elements.
        let maybe_predecessor = self.tree.predecessor(destination_node_index);
        match maybe_predecessor {
            None => {
                self.append_slot(current_value);
                proof {
                    assert(self.slots() =~= removed.slots().insert(len - 1, current_value));
                    assert(self.keys() =~= removed.keys().insert(
                        len - 1,
                        before.key_after_move(node, by as int) as usize,
                    ));
                    assert(self.handles() =~= removed.handles().insert(len - 1, node));
                }
            },
            Some(predecessor_node) => {
                proof {
                    lemma_position_is(self.tree, land - 1);
                }
                let destination_key_predecessor = self.tree.key(predecessor_node).unwrap();
                proof {
                    assert(destination_key_predecessor == self.keys()[land - 1]);
                }
                let new_key = key_between(destination_key_predecessor, destination_key).unwrap();
                proof {
                    assert forall|i: int| 0 <= i < land implies self.keys()[i] < new_key by {
                        if i < land - 1 {
                            lemma_keys_ascend(self.tree, i, land - 1);
                        }
                    }
                    assert forall|i: int| land <= i < self.keys().len() implies new_key
                        < self.keys()[i] by {
                        if land < i {
                            lemma_keys_ascend(self.tree, land, i);
                        }
                    }
                }
                self.insert_slot(new_key, current_value, Ghost(land));
            },
        }
        proof {
            let to = rank_after_move(len, at, by as int);
            Self::lemma_put_back(&before, &removed, self, at, to);
            assert(self.handles()[to] == node);
            lemma_position_is(self.tree, to);
        }
    }

    /// The sort key of the element at rank `rank`.
    fn key_at_rank(&self, rank: usize) -> (key: usize)
        requires
            self.well_ordered(),
            rank < self.keys().len(),
        ensures
            key == self.keys()[rank as int],
    {
        proof {
            self.lemma_rank(rank as int);
        }
        let node = self.node_at_position(rank).unwrap();
        self.key_at(node)
    }

    /// Whether the element that `node` refers to can be moved by `by`. Nothing is
    /// changed.
    pub fn can_move_by_wrapping(&self, node: NodeIndex, by: isize) -> (possible: bool)
        requires
            self.wf(),
        ensures
            possible == self.can_move(node, by as int),
    {
        if !self.contains_handle(node) {
            return false;
        }
        let total = self.total_weight();
        if total < 2 {
            return false;
        }
        let at = self.position_of(node);
        let rest_len = total - 1;
        let start = if at + 1 < total {
            at
        } else {
            0
        };
        let walked = by % (rest_len as isize);
        let reached = start as isize + walked;
        let land = if reached < 0 {
            (reached + rest_len as isize) as usize
        } else if reached >= rest_len as isize {
            (reached - rest_len as isize) as usize
        } else {
            reached as usize
        };
        proof {
            let m = rest_len as int;
            lemma_truncated(by as int, m);
            lemma_truncated_rank(start as int, by as int, m);
            lemma_wrapped_rank_periodic(m, land as int, 1);
            lemma_wrapped_rank_periodic(m, land as int, -1);
            lemma_small_mod(land as nat, m as nat);
            assert(land == landing_rank(total as int, at as int, by as int));
        }
        if land == 0 {
            let last = if at == total - 1 {
                total - 2
            } else {
                total - 1
            };
            append_key(self.key_at_rank(last), self.gap).is_some()
        } else {
            let low = if land - 1 < at {
                land - 1
            } else {
                land
            };
            let high = if land < at {
                land
            } else {
                land + 1
            };
            key_between(self.key_at_rank(low), self.key_at_rank(high)).is_some()
        }
    }

    /// Why the element that `node` refers to cannot be moved, where it cannot.
    pub open spec fn move_refusal(&self, node: NodeIndex) -> ShuffleError {
        if !self.contains(node) {
            ShuffleError::InvalidHandle
        } else if self.keys().len() < 2 {
            ShuffleError::TooFewElements
        } else {
            ShuffleError::KeySpaceExhausted
        }
    }

    /// Moves the element that `node` refers to by `by` positions where that is
    /// possible, and reports why not where it is not. A refused move changes
    /// nothing.
    pub fn try_move_by_wrapping(&mut self, node: NodeIndex, by: isize) -> (moved: Result<
        (),
        ShuffleError,
    >)
        requires
            old(self).wf(),
        ensures
            final(self).wf(),
            moved is Ok <==> old(self).can_move(node, by as int),
            moved is Ok ==> {
                &&& final(self)@ == circular_move(
                    old(self)@,
                    old(self).rank_of(node),
                    by as int,
                )
                &&& final(self).keys() == old(self).keys_without(old(self).rank_of(node)).insert(
                    rank_after_move(old(self)@.len() as int, old(self).rank_of(node), by as int),
                    old(self).key_after_move(node, by as int) as usize,
                )
                &&& final(self).handles() == old(self).handles().remove(
                    old(self).rank_of(node),
                ).insert(
                    rank_after_move(old(self)@.len() as int, old(self).rank_of(node), by as int),
                    node,
                )
                &&& final(self)@.len() == old(self)@.len()
                &&& final(self).contains(node)
                &&& final(self).rank_of(node) == rank_after_move(
                    old(self)@.len() as int,
                    old(self).rank_of(node),
                    by as int,
                )
            },
            moved is Err ==> *final(self) == *old(self) && moved->Err_0 == old(self).move_refusal(
                node,
            ),
    {
        if !self.contains_handle(node) {
            return Err(ShuffleError::InvalidHandle);
        }
        if self.total_weight() < 2 {
            return Err(ShuffleError::TooFewElements);
        }
        if !self.can_move_by_wrapping(node, by) {
            return Err(ShuffleError::KeySpaceExhausted);
        }
        self.move_by_wrapping(node, by);
        Ok(())
    }

    /// Why no element can be added at an end, where none can.
    pub open spec fn growth_refusal(&self) -> ShuffleError {
        if self.keys().len() == 0 {
            ShuffleError::TooFewElements
        } else {
            ShuffleError::KeySpaceExhausted
        }
    }

    /// Adds `value` behind the last element where that is possible, and reports
    /// why not where it is not. A refused addition changes nothing.
    pub fn try_append(&mut self, value: T) -> (added: Result<(), ShuffleError>)
        requires
            old(self).wf(),
        ensures
            final(self).wf(),
            added is Ok <==> old(self).can_append(),
            added is Ok ==> {
                &&& final(self)@ == old(self)@.push(value)
                &&& final(self).keys() == old(self).keys().push(
                    (old(self).keys().last() + gap_of(INTERLEAVING_BITS as nat)) as usize,
                )
                &&& final(self).handles() == old(self).handles().push(old(self).next_handle())
            },
            added is Err ==> *final(self) == *old(self) && added->Err_0 == old(
                self,
            ).growth_refusal(),
    {
        let total = self.total_weight();
        if total == 0 {
            return Err(ShuffleError::TooFewElements);
        }
        if total >= (isize::MAX / 2) as usize {
            return Err(ShuffleError::KeySpaceExhausted);
        }
        if append_key(self.key_at_rank(total - 1), self.gap).is_none() {
            return Err(ShuffleError::KeySpaceExhausted);
        }
        self.append(value);
        Ok(())
    }

    /// Adds `value` in front of the first element where that is possible, and
    /// reports why not where it is not. A refused addition changes nothing.
    pub fn try_prepend(&mut self, value: T) -> (added: Result<(), ShuffleError>)
        requires
            old(self).wf(),
        ensures
            final(self).wf(),
            added is Ok <==> old(self).can_prepend(),
            added is Ok ==> {
                &&& final(self)@ == old(self)@.insert(0, value)
                &&& final(self).keys() == old(self).keys().insert(
                    0,
                    (old(self).keys()[0] - gap_of(INTERLEAVING_BITS as nat)) as usize,
                )
                &&& final(self).handles() == old(self).handles().insert(
                    0,
                    old(self).next_handle(),
                )
            },
            added is Err ==> *final(self) == *old(self) && added->Err_0 == old(
                self,
            ).growth_refusal(),
    {
        let total = self.total_weight();
        if total == 0 {
            return Err(ShuffleError::TooFewElements);
        }
        if total >= (isize::MAX / 2) as usize {
            return Err(ShuffleError::KeySpaceExhausted);
        }
        proof {
            lemma_pow2_pos(INTERLEAVING_BITS as nat);
        }
        if prepend_key(self.key_at_rank(0), self.gap).is_none() {
            return Err(ShuffleError::KeySpaceExhausted);
        }
        self.prepend(value);
        Ok(())
    }

    /// The number of elements in the subtree of the node of `node`: the run of
    /// the sequence around `node` that hangs below it in the tree.
    pub closed spec fn subtree_weight_of(&self, node: NodeIndex) -> nat {
        nodes_of(self.tree)[node.0].subweight as nat
    }

    /// The child of the node of `node` on side `pos`, 0 for the left and 1 for
    /// the right; `None` where it has none, and for any other side.
    pub closed spec fn child_of(&self, node: NodeIndex, pos: int) -> Option<NodeIndex> {
        if pos == 0 {
            as_handle(nodes_of(self.tree)[node.0].left)
        } else if pos == 1 {
            as_handle(nodes_of(self.tree)[node.0].right)
        } else {
            None
        }
    }

    /// The parent of the node of `node`; `None` for the root of the tree.
    pub closed spec fn parent_of(&self, node: NodeIndex) -> Option<NodeIndex> {
        as_handle(nodes_of(self.tree)[node.0].parent)
    }

    /// The weight of a subtree that may be missing.
    pub open spec fn weight_under(&self, child: Option<NodeIndex>) -> nat {
        match child {
            Some(c) => self.subtree_weight_of(c),
            None => 0,
        }
    }

    /// The weight invariant: a subtree holds its root and what its two children
    /// hold. The left subtree holds the elements just before the node in the
    /// sequence, the right one those just after it.
    pub proof fn lemma_weight_invariant(&self, node: NodeIndex)
        requires
            self.well_ordered(),
            self.contains(node),
        ensures
            self.subtree_weight_of(node) == 1 + self.weight_under(self.child_of(node, 0))
                + self.weight_under(self.child_of(node, 1)),
            self.weight_under(self.child_of(node, 0)) <= self.rank_of(node),
            self.rank_of(node) + self.weight_under(self.child_of(node, 1)) < self.handles().len(),
            self.child_of(node, 0) is Some ==> self.contains(self.child_of(node, 0)->0),
            self.child_of(node, 1) is Some ==> self.contains(self.child_of(node, 1)->0),
            self.parent_of(node) is Some ==> self.contains(self.parent_of(node)->0),
            self.parent_of(node) is None ==> self.subtree_weight_of(node) == self.handles().len(),
    {
        lemma_weights(self.tree, node.0);
        if self.parent_of(node) is None {
            lemma_parentless(self.tree, node.0);
        }
    }

    /// The number of elements in the subtree of the node of `node`.
    pub fn subtree_weight(&self, node: NodeIndex) -> (weight: usize)
        requires
            self.well_ordered(),
            self.contains(node),
        ensures
            weight == self.subtree_weight_of(node),
    {
        self.tree.subweight(node).unwrap()
    }

    /// The child of the node of `node` on side `pos`, 0 for the left and 1 for
    /// the right.
    pub fn child(&self, node: NodeIndex, pos: usize) -> (child: Option<NodeIndex>)
        requires
            self.well_ordered(),
            self.contains(node),
        ensures
            child == self.child_of(node, pos as int),
    {
        self.tree.child(node, pos)
    }

    /// The parent of the node of `node`.
    pub fn parent(&self, node: NodeIndex) -> (parent: Option<NodeIndex>)
        requires
            self.well_ordered(),
            self.contains(node),
        ensures
            parent == self.parent_of(node),
    {
        self.tree.parent(node)
    }

    /// The handle of the element after that of `node`, or `None` for the last
    /// one.
    pub fn successor(&self, node: NodeIndex) -> (next: Option<NodeIndex>)
        requires
            self.well_ordered(),
            self.contains(node),
        ensures
            next == (if self.rank_of(node) + 1 < self.handles().len() {
                Some(self.handles()[self.rank_of(node) + 1])
            } else {
                None
            }),
    {
        proof {
            lemma_node(self.tree, node.0);
        }
        self.tree.successor(node)
    }

    /// The handle of the element before that of `node`, or `None` for the first
    /// one.
    pub fn predecessor(&self, node: NodeIndex) -> (previous: Option<NodeIndex>)
        requires
            self.well_ordered(),
            self.contains(node),
        ensures
            previous == (if self.rank_of(node) > 0 {
                Some(self.handles()[self.rank_of(node) - 1])
            } else {
                None
            }),
    {
        proof {
            lemma_node(self.tree, node.0);
        }
        self.tree.predecessor(node)
    }
}

} // verus!
