//! What follows from the well-formedness of a weighted tree: where nodes stand,
//! and how a walk along the subtree weights gets nearer to its destination with
//! every step.

use crate::helpers::aa_tree::{
    has_key, has_node, inserted, node_wf, nodes_of, order_of, position, removed, root_of, tree_wf,
    vacant_of, weight_below, AaTree,
};
use crate::helpers::circular::{lemma_wrapped_rank_periodic, wrapped_rank};
use vstd::arithmetic::div_mod::{lemma_fundamental_div_mod, lemma_small_mod};
use vstd::prelude::*;

verus! {

/// The offset that a walk really makes for a requested offset: the remainder of
/// the division by the number of elements, with the sign of the offset.
pub open spec fn truncated(by: int, len: int) -> int
    recommends
        len > 0,
{
    if by >= 0 {
        by % len
    } else {
        -((-by) % len)
    }
}

/// Whether the node `by` positions away from `node` lies in the subtree of
/// `node`.
pub open spec fn in_span(tree: AaTree, node: usize, by: int) -> bool {
    -weight_below(tree, nodes_of(tree)[node].left) <= by <= weight_below(
        tree,
        nodes_of(tree)[node].right,
    )
}

/// A bound on what a walk has left to do: inside the subtree of `node` it only
/// descends, outside it climbs first.
pub open spec fn walk_measure(tree: AaTree, node: usize, by: int) -> int {
    if in_span(tree, node, by) {
        nodes_of(tree)[node].subweight as int
    } else {
        2 * order_of(tree).len() + 1 - nodes_of(tree)[node].subweight
    }
}

/// The node `by` positions after `from` in the circular order.
pub open spec fn walk_target(tree: AaTree, from: usize, by: int) -> usize {
    order_of(tree)[wrapped_rank(order_of(tree).len() as int, position(tree, from) + by)]
}

/// The offset that is walked lies within one turn, has the sign of the
/// requested one, and leads to the same position.
pub proof fn lemma_truncated(by: int, len: int)
    requires
        len > 0,
    ensures
        -len < truncated(by, len) < len,
        by >= 0 ==> truncated(by, len) >= 0,
        by <= 0 ==> truncated(by, len) <= 0,
        -len < by < len ==> truncated(by, len) == by,
{
    if by >= 0 {
        if by < len {
            lemma_small_mod(by as nat, len as nat);
        }
    } else {
        if -by < len {
            lemma_small_mod((-by) as nat, len as nat);
        }
    }
}

/// The offset that is walked leads to the same rank as the requested one.
pub proof fn lemma_truncated_rank(at: int, by: int, len: int)
    requires
        len > 0,
    ensures
        wrapped_rank(len, at + truncated(by, len)) == wrapped_rank(len, at + by),
        0 <= wrapped_rank(len, at + by) < len,
{
    if by >= 0 {
        lemma_fundamental_div_mod(by, len);
        let q = by / len;
        lemma_wrapped_rank_periodic(len, at + truncated(by, len), q);
        assert(at + truncated(by, len) + q * len == at + by) by (nonlinear_arith)
            requires
                by == len * q + truncated(by, len),
        ;
    } else {
        lemma_fundamental_div_mod(-by, len);
        let q = (-by) / len;
        lemma_wrapped_rank_periodic(len, at + truncated(by, len), -q);
        assert(at + truncated(by, len) + (-q) * len == at + by) by (nonlinear_arith)
            requires
                -by == len * q - truncated(by, len),
        ;
    }
}

/// The order holds every node once, at its position.
pub proof fn lemma_node(tree: AaTree, node: usize)
    requires
        tree_wf(tree),
        has_node(tree, node),
    ensures
        node_wf(tree, node),
        0 <= position(tree, node) < order_of(tree).len(),
        order_of(tree)[position(tree, node)] == node,
{
    reveal(tree_wf);
    assert(order_of(tree).contains(node));
}

/// What stands at a rank of the order is a node, and that rank is its position.
pub proof fn lemma_position_is(tree: AaTree, at: int)
    requires
        tree_wf(tree),
        0 <= at < order_of(tree).len(),
    ensures
        has_node(tree, order_of(tree)[at]),
        position(tree, order_of(tree)[at]) == at,
{
    reveal(tree_wf);
    let node = order_of(tree)[at];
    assert(order_of(tree).contains(node));
    let found = position(tree, node);
    assert(order_of(tree)[found] == node);
}

/// The keys ascend strictly along the order.
pub proof fn lemma_keys_ascend(tree: AaTree, i: int, j: int)
    requires
        tree_wf(tree),
        0 <= i < j < order_of(tree).len(),
    ensures
        nodes_of(tree)[order_of(tree)[i]].key < nodes_of(tree)[order_of(tree)[j]].key,
{
    reveal(tree_wf);
}

/// The root, where there is one, has no parent and spans the whole order; a
/// tree without a root is empty.
pub proof fn lemma_root(tree: AaTree)
    requires
        tree_wf(tree),
    ensures
        match root_of(tree) {
            Some(r) => {
                &&& has_node(tree, r)
                &&& nodes_of(tree)[r].parent is None
                &&& nodes_of(tree)[r].subweight == order_of(tree).len()
                &&& order_of(tree).len() >= 1
            },
            None => order_of(tree).len() == 0,
        },
{
    reveal(tree_wf);
    match root_of(tree) {
        Some(r) => {
            lemma_node(tree, r);
        },
        None => {},
    }
}

/// A node without a parent is the root, and its subtree is the whole tree.
pub proof fn lemma_parentless(tree: AaTree, node: usize)
    requires
        tree_wf(tree),
        has_node(tree, node),
        nodes_of(tree)[node].parent is None,
    ensures
        root_of(tree) == Some(node),
        nodes_of(tree)[node].subweight == order_of(tree).len(),
{
    lemma_node(tree, node);
    lemma_root(tree);
    reveal(node_wf);
}

/// The weight invariant: the subtree weight of a node is one more than the
/// weights of its two subtrees, which count the nodes before and after it in its
/// own subtree.
pub proof fn lemma_weights(tree: AaTree, node: usize)
    requires
        tree_wf(tree),
        has_node(tree, node),
    ensures
        nodes_of(tree)[node].subweight == 1 + weight_below(tree, nodes_of(tree)[node].left)
            + weight_below(tree, nodes_of(tree)[node].right),
        0 <= weight_below(tree, nodes_of(tree)[node].left) <= position(tree, node),
        0 <= weight_below(tree, nodes_of(tree)[node].right),
        position(tree, node) + weight_below(tree, nodes_of(tree)[node].right) < order_of(
            tree,
        ).len(),
        nodes_of(tree)[node].left is Some ==> has_node(tree, nodes_of(tree)[node].left->0)
            && weight_below(tree, nodes_of(tree)[node].left) >= 1,
        nodes_of(tree)[node].right is Some ==> has_node(tree, nodes_of(tree)[node].right->0)
            && weight_below(tree, nodes_of(tree)[node].right) >= 1,
        nodes_of(tree)[node].parent is Some ==> has_node(tree, nodes_of(tree)[node].parent->0),
{
    lemma_node(tree, node);
    reveal(node_wf);
    match nodes_of(tree)[node].left {
        Some(l) => {
            lemma_node(tree, l);
        },
        None => {},
    }
    match nodes_of(tree)[node].right {
        Some(r) => {
            lemma_node(tree, r);
        },
        None => {},
    }
}

/// Walking no step ends at the start.
pub proof fn lemma_walk_nowhere(tree: AaTree, from: usize)
    requires
        tree_wf(tree),
        has_node(tree, from),
    ensures
        walk_target(tree, from, 0) == from,
{
    lemma_node(tree, from);
    lemma_small_mod(position(tree, from) as nat, order_of(tree).len());
}

/// Every walk ends at a node.
pub proof fn lemma_walk_ends_at_node(tree: AaTree, from: usize, by: int)
    requires
        tree_wf(tree),
        has_node(tree, from),
    ensures
        has_node(tree, walk_target(tree, from, by)),
        position(tree, walk_target(tree, from, by)) == wrapped_rank(
            order_of(tree).len() as int,
            position(tree, from) + by,
        ),
{
    lemma_node(tree, from);
    let len = order_of(tree).len() as int;
    lemma_wrapped_rank_periodic(len, position(tree, from) + by, 0);
    lemma_position_is(tree, wrapped_rank(len, position(tree, from) + by));
}

/// A destination within the right subtree is reached from the right child, and
/// the walk from there is shorter.
pub proof fn lemma_descend_right(tree: AaTree, from: usize, by: int)
    requires
        tree_wf(tree),
        has_node(tree, from),
        nodes_of(tree)[from].right is Some,
        0 < by <= weight_below(tree, nodes_of(tree)[from].right),
    ensures
        ({
            let child = nodes_of(tree)[from].right->0;
            let rest = by - 1 - weight_below(tree, nodes_of(tree)[child].left);
            &&& has_node(tree, child)
            &&& -order_of(tree).len() < rest < order_of(tree).len()
            &&& walk_target(tree, child, rest) == walk_target(tree, from, by)
            &&& walk_measure(tree, child, rest) < walk_measure(tree, from, by)
        }),
{
    let child = nodes_of(tree)[from].right->0;
    lemma_weights(tree, from);
    lemma_weights(tree, child);
    lemma_node(tree, from);
    reveal(node_wf);
}

/// A destination within the left subtree is reached from the left child, and
/// the walk from there is shorter.
pub proof fn lemma_descend_left(tree: AaTree, from: usize, by: int)
    requires
        tree_wf(tree),
        has_node(tree, from),
        nodes_of(tree)[from].left is Some,
        0 < by <= weight_below(tree, nodes_of(tree)[from].left),
    ensures
        ({
            let child = nodes_of(tree)[from].left->0;
            let rest = 1 + weight_below(tree, nodes_of(tree)[child].right) - by;
            &&& has_node(tree, child)
            &&& -order_of(tree).len() < rest < order_of(tree).len()
            &&& walk_target(tree, child, rest) == walk_target(tree, from, -by)
            &&& walk_measure(tree, child, rest) < walk_measure(tree, from, -by)
        }),
{
    let child = nodes_of(tree)[from].left->0;
    lemma_weights(tree, from);
    lemma_weights(tree, child);
    lemma_node(tree, from);
    reveal(node_wf);
}

/// A destination outside the subtree of a node is reached from its parent, and
/// the walk from there is shorter, however the offset is cut to one turn.
pub proof fn lemma_climb(tree: AaTree, from: usize, by: int)
    requires
        tree_wf(tree),
        has_node(tree, from),
        nodes_of(tree)[from].parent is Some,
        !in_span(tree, from, by),
    ensures
        ({
            let parent = nodes_of(tree)[from].parent->0;
            let len = order_of(tree).len() as int;
            let from_left = by - 1 - weight_below(tree, nodes_of(tree)[from].right);
            let from_right = by + 1 + weight_below(tree, nodes_of(tree)[from].left);
            &&& has_node(tree, parent)
            &&& nodes_of(tree)[parent].left == Some(from) ==> {
                &&& walk_target(tree, parent, from_left) == walk_target(tree, from, by)
                &&& walk_measure(tree, parent, truncated(from_left, len)) < walk_measure(
                    tree,
                    from,
                    by,
                )
            }
            &&& nodes_of(tree)[parent].left != Some(from) ==> {
                &&& walk_target(tree, parent, from_right) == walk_target(tree, from, by)
                &&& walk_measure(tree, parent, truncated(from_right, len)) < walk_measure(
                    tree,
                    from,
                    by,
                )
            }
        }),
{
    let parent = nodes_of(tree)[from].parent->0;
    lemma_weights(tree, from);
    lemma_weights(tree, parent);
    lemma_node(tree, from);
    lemma_node(tree, parent);
    reveal(node_wf);
}

/// A destination outside the whole tree is reached from the root after a full
/// turn, within the tree.
pub proof fn lemma_turn(tree: AaTree, from: usize, by: int)
    requires
        tree_wf(tree),
        has_node(tree, from),
        nodes_of(tree)[from].parent is None,
        by != 0,
        -order_of(tree).len() < by < order_of(tree).len(),
        !in_span(tree, from, by),
    ensures
        ({
            let len = order_of(tree).len() as int;
            let turned = if by > 0 {
                by - len
            } else {
                by + len
            };
            &&& nodes_of(tree)[from].subweight == len
            &&& -len < turned < len
            &&& walk_target(tree, from, turned) == walk_target(tree, from, by)
            &&& walk_measure(tree, from, turned) < walk_measure(tree, from, by)
        }),
{
    let len = order_of(tree).len() as int;
    lemma_weights(tree, from);
    lemma_node(tree, from);
    lemma_root(tree);
    assert(root_of(tree) == Some(from)) by {
        reveal(node_wf);
    }
    let at = position(tree, from);
    if by > 0 {
        lemma_wrapped_rank_periodic(len, at + by - len, 1);
        assert(at + by - len + 1 * len == at + by);
    } else {
        lemma_wrapped_rank_periodic(len, at + by + len, -1);
        assert(at + by + len + (-1) * len == at + by);
    }
}

/// Going up one level, the first rank of the subtree stays where it was for a
/// left child, and for a right child it lies just behind the parent.
pub proof fn lemma_span_start(tree: AaTree, node: usize)
    requires
        tree_wf(tree),
        has_node(tree, node),
    ensures
        match nodes_of(tree)[node].parent {
            Some(parent) => {
                let start = position(tree, node) - weight_below(tree, nodes_of(tree)[node].left);
                let above = position(tree, parent) - weight_below(
                    tree,
                    nodes_of(tree)[parent].left,
                );
                &&& has_node(tree, parent)
                &&& nodes_of(tree)[parent].subweight > nodes_of(tree)[node].subweight
                &&& nodes_of(tree)[parent].subweight <= order_of(tree).len()
                &&& nodes_of(tree)[parent].right == Some(node) ==> start == position(tree, parent)
                    + 1
                &&& nodes_of(tree)[parent].right != Some(node) ==> start == above
            },
            None => position(tree, node) == weight_below(tree, nodes_of(tree)[node].left),
        },
{
    lemma_weights(tree, node);
    lemma_node(tree, node);
    match nodes_of(tree)[node].parent {
        Some(parent) => {
            lemma_weights(tree, parent);
            lemma_node(tree, parent);
            reveal(node_wf);
        },
        None => {
            lemma_root(tree);
            assert(root_of(tree) == Some(node)) by {
                reveal(node_wf);
            }
        },
    }
}

/// Where a node with a new key enters the order: at the rank that has all
/// smaller keys before it and all greater keys from it on. Returns the new node.
pub proof fn lemma_inserted_at(
    before: AaTree,
    after: AaTree,
    key: usize,
    value: usize,
    rank: int,
) -> (node: usize)
    requires
        tree_wf(before),
        tree_wf(after),
        inserted(before, after, key, value, None),
        has_node(after, vacant_of(before)),
        !has_node(before, vacant_of(before)),
        0 <= rank <= order_of(before).len(),
        forall|i: int| 0 <= i < rank ==> nodes_of(before)[#[trigger] order_of(before)[i]].key < key,
        forall|i: int|
            rank <= i < order_of(before).len() ==> key < nodes_of(before)[#[trigger] order_of(
                before,
            )[i]].key,
    ensures
        node == vacant_of(before),
        !has_node(before, node),
        has_node(after, node),
        order_of(after) == order_of(before).insert(rank, node),
        nodes_of(after)[node].key == key,
        nodes_of(after)[node].value == value,
        forall|other: usize| #[trigger]
            has_node(before, other) ==> {
                &&& has_node(after, other)
                &&& nodes_of(after)[other].key == nodes_of(before)[other].key
                &&& nodes_of(after)[other].value == nodes_of(before)[other].value
            },
{
    let (node, at) = choose|node: usize, at: int|
        {
            &&& !has_node(before, node)
            &&& 0 <= at <= order_of(before).len()
            &&& #[trigger] order_of(before).insert(at, node) == order_of(after)
            &&& nodes_of(after)[node].key == key
            &&& nodes_of(after)[node].value == value
        };
    let old_order = order_of(before);
    let new_order = order_of(after);
    assert(new_order[at] == node);
    if at < rank {
        let next = old_order[at];
        lemma_position_is(before, at);
        assert(new_order[at + 1] == next);
        lemma_keys_ascend(after, at, at + 1);
        assert(false);
    }
    if at > rank {
        let previous = old_order[at - 1];
        lemma_position_is(before, at - 1);
        assert(new_order[at - 1] == previous);
        lemma_keys_ascend(after, at - 1, at);
        assert(false);
    }
    lemma_position_is(after, at);
    if node != vacant_of(before) {
        let vacant = vacant_of(before);
        lemma_node(after, vacant);
        let i = position(after, vacant);
        if i < at {
            assert(old_order[i] == vacant);
            lemma_position_is(before, i);
        } else {
            assert(old_order[i - 1] == vacant);
            lemma_position_is(before, i - 1);
        }
        assert(false);
    }
    assert forall|other: usize| #[trigger] has_node(before, other) implies has_node(
        after,
        other,
    ) by {
        lemma_node(before, other);
        let i = position(before, other);
        if i < at {
            assert(new_order[i] == other);
            lemma_position_is(after, i);
        } else {
            assert(new_order[i + 1] == other);
            lemma_position_is(after, i + 1);
        }
    }
    node
}

/// Which node leaves the order when a key is removed: the one that holds it.
pub proof fn lemma_removed_at(before: AaTree, after: AaTree, node: usize, taken: Option<usize>)
    requires
        tree_wf(before),
        tree_wf(after),
        has_node(before, node),
        removed(before, after, nodes_of(before)[node].key, taken),
        taken is Some ==> has_node(before, vacant_of(after)) && !has_node(
            after,
            vacant_of(after),
        ),
    ensures
        taken == Some(nodes_of(before)[node].value),
        vacant_of(after) == node,
        order_of(after) == order_of(before).remove(position(before, node)),
        !has_node(after, node),
        forall|other: usize| #[trigger]
            has_node(after, other) ==> {
                &&& has_node(before, other)
                &&& nodes_of(after)[other].key == nodes_of(before)[other].key
                &&& nodes_of(after)[other].value == nodes_of(before)[other].value
            },
        forall|other: usize|
            has_node(before, other) && other != node ==> #[trigger] has_node(after, other),
{
    let key = nodes_of(before)[node].key;
    let old_order = order_of(before);
    let new_order = order_of(after);
    lemma_node(before, node);
    let rank = position(before, node);
    assert(has_key(before, key));
    let at = choose|at: int|
        {
            &&& 0 <= at < order_of(before).len()
            &&& nodes_of(before)[order_of(before)[at]].key == key
            &&& nodes_of(before)[order_of(before)[at]].value == taken->0
            &&& #[trigger] order_of(before).remove(at) == order_of(after)
        };
    if at < rank {
        lemma_keys_ascend(before, at, rank);
    }
    if rank < at {
        lemma_keys_ascend(before, rank, at);
    }
    assert forall|other: usize| #[trigger] has_node(after, other) implies has_node(
        before,
        other,
    ) by {
        lemma_node(after, other);
        let i = position(after, other);
        if i < rank {
            assert(old_order[i] == other);
            lemma_position_is(before, i);
        } else {
            assert(old_order[i + 1] == other);
            lemma_position_is(before, i + 1);
        }
    }
    assert forall|other: usize| has_node(before, other) && other != node implies #[trigger] has_node(
        after,
        other,
    ) by {
        lemma_node(before, other);
        let i = position(before, other);
        if i < rank {
            assert(new_order[i] == other);
            lemma_position_is(after, i);
        } else {
            assert(new_order[i - 1] == other);
            lemma_position_is(after, i - 1);
        }
    }
    if has_node(after, node) {
        lemma_node(after, node);
        let i = position(after, node);
        assert(new_order[i] == node);
        if i < rank {
            assert(old_order[i] == node);
            lemma_position_is(before, i);
        } else {
            assert(old_order[i + 1] == node);
            lemma_position_is(before, i + 1);
        }
        assert(false);
    }
}

} // verus!
