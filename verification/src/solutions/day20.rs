//! Grove positioning: mixing a circular list of numbers.
//!
//! Every number is moved once, in the order in which the numbers were read, by
//! as many positions around the circle as it says. The coordinates are found
//! a thousand, two thousand and three thousand positions behind the zero.

use crate::helpers::aa_tree::NodeIndex;
use crate::helpers::circular::{
    landing_rank, lemma_wrapped_rank_periodic, rank_after_move, wrapped_rank,
};
use crate::helpers::key_space::{gap_of, initial_key_of, key_at_landing, room_at_landing};
use crate::helpers::parsing::{
    iterate_all, parsed_signed, parsed_while, text_i16, views_of, AocLineParsable,
};
use crate::helpers::shuffle_tree::{can_hold, ShuffleError, ShuffleTree};
use vstd::prelude::*;
use vstd::string::StringSliceAdditionalSpecFns;

verus! {

/// One number of the list as it is read.
#[derive(Debug, Clone, Copy)]
pub struct EncryptedNumber(pub i16);

impl View for EncryptedNumber {
    type V = i16;

    open spec fn view(&self) -> i16 {
        self.0
    }
}

impl AocLineParsable for EncryptedNumber {
    open spec fn parsed_line(input: Seq<u8>, from: int) -> Option<(i16, int)> {
        match parsed_signed(input, from, i16::MIN as int, i16::MAX as int) {
            Some((value, to)) => Some((value as i16, to)),
            None => None,
        }
    }

    fn parse_from_line(input: &[u8], from: usize) -> (read: Option<(Self, usize)>) {
        match text_i16(input, from) {
            Some((value, to)) => Some((EncryptedNumber(value), to)),
            None => None,
        }
    }
}

/// One element of the circle: which of the numbers read it is, the key that
/// sorts it, and its value.
pub struct Entry {
    pub id: usize,
    pub key: usize,
    pub value: isize,
}

/// The elements of `list` in sequence order, each with its place in `nodes`.
pub open spec fn entries_of<const B: usize>(
    list: ShuffleTree<isize, B>,
    nodes: Seq<NodeIndex>,
) -> Seq<Entry> {
    Seq::new(
        list@.len(),
        |i: int|
            Entry {
                id: nodes.index_of(list.handles()[i]) as usize,
                key: list.keys()[i],
                value: list@[i],
            },
    )
}

/// The keys of the elements.
pub open spec fn keys_of(state: Seq<Entry>) -> Seq<usize> {
    Seq::new(state.len(), |i: int| state[i].key)
}

/// The rank of the element that was read as number `id`.
pub open spec fn rank_of_id(state: Seq<Entry>, id: usize) -> int {
    choose|i: int| 0 <= i < state.len() && state[i].id == id
}

/// The circle after the number read as number `id` has been moved by its
/// value. Nothing where it is alone, or where no key is left at the place
/// where it lands.
pub open spec fn mix_step(state: Seq<Entry>, id: usize, gap: nat) -> Option<Seq<Entry>> {
    let at = rank_of_id(state, id);
    let len = state.len() as int;
    let by = state[at].value as int;
    let rest = keys_of(state).remove(at);
    let land = landing_rank(len, at, by);
    if len >= 2 && room_at_landing(rest, land, gap) {
        Some(
            state.remove(at).insert(
                rank_after_move(len, at, by),
                Entry { id: id, key: key_at_landing(rest, land, gap) as usize, value: state[at].value },
            ),
        )
    } else {
        None
    }
}

/// The circle after the first `count` numbers have been moved, one after the
/// other.
pub open spec fn mix_steps(state: Seq<Entry>, count: nat, gap: nat) -> Option<Seq<Entry>>
    decreases count,
{
    if count == 0 {
        Some(state)
    } else {
        match mix_steps(state, (count - 1) as nat, gap) {
            Some(before) => mix_step(before, (count - 1) as usize, gap),
            None => None,
        }
    }
}

/// Whether `nodes` lists the handles of `list`, each once.
pub open spec fn lists_handles<const B: usize>(
    list: ShuffleTree<isize, B>,
    nodes: Seq<NodeIndex>,
) -> bool {
    &&& nodes.no_duplicates()
    &&& nodes.len() == list.handles().len()
    &&& nodes.len() <= usize::MAX
    &&& forall|k: int| 0 <= k < nodes.len() ==> list.contains(#[trigger] nodes[k])
    &&& forall|i: int| 0 <= i < list.handles().len() ==> nodes.contains(#[trigger] list.handles()[i])
}

/// The element read as number `id` stands at the rank of its handle.
proof fn lemma_rank_of_id<const B: usize>(list: ShuffleTree<isize, B>, nodes: Seq<NodeIndex>, id: int)
    requires
        list.wf(),
        lists_handles(list, nodes),
        0 <= id < nodes.len(),
    ensures
        rank_of_id(entries_of(list, nodes), id as usize) == list.rank_of(nodes[id]),
        0 <= list.rank_of(nodes[id]) < list@.len(),
        entries_of(list, nodes)[list.rank_of(nodes[id])].id == id,
{
    let state = entries_of(list, nodes);
    let node = nodes[id];
    list.lemma_contains(node);
    list.lemma_order();
    let at = list.rank_of(node);
    assert(list.handles()[at] == node);
    assert(nodes.index_of(node) == id);
    assert(state[at].id == id as usize);
    let chosen = rank_of_id(state, id as usize);
    assert(0 <= chosen < state.len() && state[chosen].id == id as usize);
    let other = list.handles()[chosen];
    assert(nodes.contains(other));
    let found = nodes.index_of(other);
    assert(0 <= found < nodes.len() && nodes[found] == other);
    assert(found as usize == id as usize);
    assert(other == node);
    list.lemma_rank(chosen);
}

/// Moves every number once by its value, in the order of `loaded_nodes`.
/// Stops at the first number that cannot be moved.
pub fn mix<const B: usize>(list: &mut ShuffleTree<isize, B>, loaded_nodes: &Vec<NodeIndex>) -> (done:
    Result<(), ShuffleError>)
    requires
        old(list).wf(),
        lists_handles(*old(list), loaded_nodes@),
    ensures
        final(list).wf(),
        lists_handles(*final(list), loaded_nodes@),
        match done {
            Ok(()) => mix_steps(
                entries_of(*old(list), loaded_nodes@),
                loaded_nodes@.len(),
                gap_of(B as nat),
            ) == Some(entries_of(*final(list), loaded_nodes@)),
            Err(refusal) => mix_steps(
                entries_of(*old(list), loaded_nodes@),
                loaded_nodes@.len(),
                gap_of(B as nat),
            ) is None && refusal != ShuffleError::InvalidHandle,
        },
{
    let ghost nodes = loaded_nodes@;
    let ghost start = entries_of(*list, nodes);
    let ghost gap = gap_of(B as nat);
    let mut index: usize = 0;
    while index < loaded_nodes.len()
        invariant
            index <= nodes.len(),
            nodes == loaded_nodes@,
            gap == gap_of(B as nat),
            start == entries_of(*old(list), nodes),
            list.wf(),
            lists_handles(*list, nodes),
            mix_steps(start, index as nat, gap) == Some(entries_of(*list, nodes)),
        decreases nodes.len() - index,
    {
        let node = loaded_nodes[index];
        let ghost before = *list;
        proof {
            lemma_rank_of_id(before, nodes, index as int);
            before.lemma_order();
        }
        let node_value = *list.value_at(node);
        let moved = list.try_move_by_wrapping(node, node_value);
        proof {
            let state = entries_of(before, nodes);
            let at = before.rank_of(node);
            assert(state[at].value == node_value);
            assert(keys_of(state) =~= before.keys());
        }
        match moved {
            Ok(()) => {
                proof {
                    lemma_step(before, *list, nodes, index as int);
                }
            },
            Err(refusal) => {
                proof {
                    let state = entries_of(before, nodes);
                    let at = before.rank_of(node);
                    assert(rank_of_id(state, index) == at);
                    assert(state.len() == before.keys().len());
                    assert(keys_of(state).remove(at) == before.keys_without(at));
                    assert(!before.can_move(node, node_value as int));
                    assert(mix_step(state, index, gap) is None);
                    assert(mix_steps(start, (index + 1) as nat, gap) is None);
                    lemma_later_steps(start, index as nat, nodes.len(), gap);
                }
                return Err(refusal);
            },
        }
        index += 1;
    }
    Ok(())
}

/// Once a number cannot be moved, the mixing stays undone.
proof fn lemma_later_steps(start: Seq<Entry>, failed: nat, count: nat, gap: nat)
    requires
        failed < count,
        mix_steps(start, failed + 1, gap) is None,
    ensures
        mix_steps(start, count, gap) is None,
    decreases count,
{
    if count > failed + 1 {
        lemma_later_steps(start, failed, (count - 1) as nat, gap);
    }
}

/// What the handles are after a move: those that they were.
proof fn lemma_same_handles<const B: usize>(
    before: ShuffleTree<isize, B>,
    after: ShuffleTree<isize, B>,
    nodes: Seq<NodeIndex>,
    at: int,
    to: int,
)
    requires
        before.wf(),
        after.wf(),
        lists_handles(before, nodes),
        0 <= at < before.handles().len(),
        0 <= to < before.handles().len(),
        after.handles() == before.handles().remove(at).insert(to, before.handles()[at]),
    ensures
        lists_handles(after, nodes),
{
    let old_handles = before.handles();
    let new_handles = after.handles();
    assert(new_handles.len() == old_handles.len());
    assert forall|k: int| 0 <= k < nodes.len() implies after.contains(#[trigger] nodes[k]) by {
        before.lemma_contains(nodes[k]);
        let i = before.rank_of(nodes[k]);
        assert(old_handles[i] == nodes[k]);
        if i == at {
            assert(new_handles[to] == nodes[k]);
            after.lemma_rank(to);
        } else {
            let j = if i < at {
                i
            } else {
                i - 1
            };
            assert(old_handles.remove(at)[j] == nodes[k]);
            let j2 = if j < to {
                j
            } else {
                j + 1
            };
            assert(new_handles[j2] == nodes[k]);
            after.lemma_rank(j2);
        }
    }
    assert forall|i: int| 0 <= i < new_handles.len() implies nodes.contains(
        #[trigger] new_handles[i],
    ) by {
        if i == to {
            assert(new_handles[i] == old_handles[at]);
            assert(nodes.contains(old_handles[at]));
        } else {
            let j = if i < to {
                i
            } else {
                i - 1
            };
            let j2 = if j < at {
                j
            } else {
                j + 1
            };
            assert(new_handles[i] == old_handles.remove(at)[j]);
            assert(new_handles[i] == old_handles[j2]);
            assert(nodes.contains(old_handles[j2]));
        }
    }
}

/// A move of the container is a step of the mixing.
#[verifier::rlimit(40)]
proof fn lemma_step<const B: usize>(
    before: ShuffleTree<isize, B>,
    after: ShuffleTree<isize, B>,
    nodes: Seq<NodeIndex>,
    id: int,
)
    requires
        before.wf(),
        after.wf(),
        lists_handles(before, nodes),
        0 <= id < nodes.len(),
        before.can_move(nodes[id], before@[before.rank_of(nodes[id])] as int),
        ({
            let node = nodes[id];
            let at = before.rank_of(node);
            let by = before@[at] as int;
            let to = rank_after_move(before@.len() as int, at, by);
            &&& after@ == before@.remove(at).insert(to, before@[at])
            &&& after.keys() == before.keys().remove(at).insert(
                to,
                before.key_after_move(node, by) as usize,
            )
            &&& after.handles() == before.handles().remove(at).insert(to, node)
        }),
    ensures
        lists_handles(after, nodes),
        mix_step(entries_of(before, nodes), id as usize, gap_of(B as nat)) == Some(
            entries_of(after, nodes),
        ),
{
    let node = nodes[id];
    let at = before.rank_of(node);
    let by = before@[at] as int;
    let len = before@.len() as int;
    let to = rank_after_move(len, at, by);
    let state = entries_of(before, nodes);
    let old_handles = before.handles();
    lemma_rank_of_id(before, nodes, id);
    before.lemma_contains(node);
    before.lemma_order();
    after.lemma_order();
    crate::helpers::circular::lemma_landing_in_range(len, at, by);
    lemma_same_handles(before, after, nodes, at, to);
    assert(keys_of(state) =~= before.keys());
    let entry = Entry {
        id: id as usize,
        key: key_at_landing(keys_of(state).remove(at), landing_rank(len, at, by), gap_of(B as nat))
            as usize,
        value: state[at].value,
    };
    let moved = state.remove(at).insert(to, entry);
    let target = entries_of(after, nodes);
    assert(moved.len() == target.len());
    assert forall|i: int| 0 <= i < moved.len() implies moved[i] == target[i] by {
        if i == to {
            assert(after.handles()[i] == node);
            assert(nodes.index_of(node) == id);
        } else {
            let j = if i < to {
                i
            } else {
                i - 1
            };
            let j2 = if j < at {
                j
            } else {
                j + 1
            };
            assert(moved[i] == state.remove(at)[j]);
            assert(state.remove(at)[j] == state[j2]);
            assert(after.handles()[i] == old_handles.remove(at)[j]);
            assert(after.keys()[i] == before.keys().remove(at)[j]);
            assert(after@[i] == before@.remove(at)[j]);
        }
    }
    assert(moved =~= target);
}

/// The numbers of the list, each multiplied by the decryption key.
pub open spec fn decrypted(numbers: Seq<i16>, key: int) -> Seq<int> {
    Seq::new(numbers.len(), |i: int| numbers[i] * key)
}

/// Whether every value fits into `isize`.
pub open spec fn all_fit(values: Seq<int>) -> bool {
    forall|i: int| 0 <= i < values.len() ==> isize::MIN <= #[trigger] values[i] <= isize::MAX
}

/// The numbers that the input lists, one per line, up to the first line that
/// holds no number.
pub open spec fn numbers_of(input: Seq<u8>) -> Seq<i16> {
    parsed_while::<EncryptedNumber>(input, 0)
}

/// Whether the numbers of the input, multiplied by `key`, can be loaded into a
/// container with 48 interleaving bits.
pub open spec fn loadable(input: Seq<u8>, key: int) -> bool {
    all_fit(decrypted(numbers_of(input), key)) && can_hold(numbers_of(input).len(), 48)
}

/// Reads the numbers of the input and loads them, multiplied by
/// `decryption_key`, into a circle. `None` where a product does not fit into
/// `isize`, or the key space cannot hold that many numbers.
pub fn parse_to_initial_tree(input: &[u8], decryption_key: isize) -> (made: Option<
    ShuffleTree<isize, 48>,
>)
    ensures
        made is Some <==> loadable(input@, decryption_key as int),
        made is Some ==> {
            let list = made->0;
            let values = decrypted(numbers_of(input@), decryption_key as int);
            &&& list.wf()
            &&& list@.len() == values.len()
            &&& list.keys().len() == values.len()
            &&& forall|i: int| 0 <= i < values.len() ==> #[trigger] list@[i] == values[i]
            &&& forall|i: int|
                0 <= i < values.len() ==> #[trigger] list.keys()[i] == initial_key_of(
                    i as nat,
                    gap_of(48),
                )
        },
{
    let numbers: Vec<EncryptedNumber> = iterate_all(input);
    let ghost read = numbers_of(input@);
    let ghost wanted = decrypted(read, decryption_key as int);
    let mut values: Vec<isize> = Vec::new();
    let mut index: usize = 0;
    while index < numbers.len()
        invariant
            index <= numbers@.len(),
            read == views_of(numbers@),
            read == numbers_of(input@),
            wanted == decrypted(read, decryption_key as int),
            values@.len() == index,
            forall|i: int| 0 <= i < index ==> #[trigger] values@[i] == wanted[i],
        decreases numbers@.len() - index,
    {
        let number = numbers[index].0;
        proof {
            assert(read[index as int] == number);
            assert(wanted[index as int] == number * decryption_key);
        }
        match (number as isize).checked_mul(decryption_key) {
            Some(value) => {
                values.push(value);
            },
            None => {
                proof {
                    assert(!(isize::MIN <= wanted[index as int] <= isize::MAX));
                }
                return None;
            },
        }
        index += 1;
    }
    proof {
        assert forall|i: int| 0 <= i < wanted.len() implies isize::MIN <= #[trigger] wanted[i]
            <= isize::MAX by {
            assert(values@[i] == wanted[i]);
        }
    }
    match ShuffleTree::from_iter(values) {
        Ok(list) => Some(list),
        Err(_) => None,
    }
}

/// The rank of the first zero among the values, if there is one.
pub open spec fn first_zero(values: Seq<isize>) -> Option<int> {
    if exists|i: int| 0 <= i < values.len() && values[i] == 0 {
        Some(
            choose|i: int|
                0 <= i < values.len() && values[i] == 0 && forall|j: int|
                    0 <= j < i ==> values[j] != 0,
        )
    } else {
        None
    }
}

/// The sum of the values found a thousand, two thousand and three thousand
/// positions behind the first zero of the circle.
pub open spec fn grove_sum(values: Seq<isize>) -> Option<int> {
    match first_zero(values) {
        Some(zero) => {
            let len = values.len() as int;
            Some(
                values[wrapped_rank(len, zero + 1000)] + values[wrapped_rank(len, zero + 2000)]
                    + values[wrapped_rank(len, zero + 3000)],
            )
        },
        None => None,
    }
}

/// The sum as a machine number, where there is one and it fits.
pub open spec fn checked_grove_sum(values: Seq<isize>) -> Option<isize> {
    match grove_sum(values) {
        Some(sum) => if isize::MIN <= sum <= isize::MAX {
            Some(sum as isize)
        } else {
            None
        },
        None => None,
    }
}

/// Adds up the values found a thousand, two thousand and three thousand
/// positions behind the first zero. `None` where the circle holds no zero, or
/// the sum does not fit into `isize`.
pub fn calculate_coordinates<const B: usize>(from_shuffled_tree: ShuffleTree<isize, B>) -> (sum:
    Option<isize>)
    requires
        from_shuffled_tree.wf(),
    ensures
        sum == checked_grove_sum(from_shuffled_tree@),
{
    let values = from_shuffled_tree.ordered_values();
    let total = from_shuffled_tree.total_weight();
    let ghost circle = from_shuffled_tree@;
    proof {
        from_shuffled_tree.lemma_order();
    }
    let mut index_of_zero: usize = 0;
    while index_of_zero < values.len() && *values[index_of_zero] != 0
        invariant
            index_of_zero <= values@.len(),
            values@.len() == circle.len(),
            circle.len() <= isize::MAX / 2,
            forall|i: int| 0 <= i < values@.len() ==> *(#[trigger] values@[i]) == circle[i],
            forall|j: int| 0 <= j < index_of_zero ==> circle[j] != 0,
        decreases values@.len() - index_of_zero,
    {
        index_of_zero += 1;
    }
    if index_of_zero >= values.len() {
        return None;
    }
    proof {
        from_shuffled_tree.lemma_order();
        assert(circle[index_of_zero as int] == 0);
        let zero = first_zero(circle)->0;
        assert(0 <= zero < circle.len() && circle[zero] == 0 && forall|j: int|
            0 <= j < zero ==> circle[j] != 0);
        assert(zero == index_of_zero);
        let len = circle.len() as int;
        lemma_wrapped_rank_periodic(len, zero + 1000, 0);
        lemma_wrapped_rank_periodic(len, zero + 2000, 0);
        lemma_wrapped_rank_periodic(len, zero + 3000, 0);
    }
    let at1000 = from_shuffled_tree.node_at_position_wrapping(1000 + index_of_zero);
    let at2000 = from_shuffled_tree.node_at_position_wrapping(2000 + index_of_zero);
    let at3000 = from_shuffled_tree.node_at_position_wrapping(3000 + index_of_zero);
    proof {
        let len = circle.len() as int;
        from_shuffled_tree.lemma_rank(wrapped_rank(len, index_of_zero + 1000));
        from_shuffled_tree.lemma_rank(wrapped_rank(len, index_of_zero + 2000));
        from_shuffled_tree.lemma_rank(wrapped_rank(len, index_of_zero + 3000));
    }
    let v1000 = *from_shuffled_tree.value_at(at1000);
    let v2000 = *from_shuffled_tree.value_at(at2000);
    let v3000 = *from_shuffled_tree.value_at(at3000);
    // The sum is taken in a wider type: it fits if its value does.
    let wide = v1000 as i128 + v2000 as i128 + v3000 as i128;
    if wide < isize::MIN as i128 || wide > isize::MAX as i128 {
        None
    } else {
        Some(wide as isize)
    }
}

/// The circle as it is loaded: number `i` with the key of the element loaded
/// at `i`.
pub open spec fn initial_entries(values: Seq<int>, gap: nat) -> Seq<Entry> {
    Seq::new(
        values.len(),
        |i: int|
            Entry {
                id: i as usize,
                key: initial_key_of(i as nat, gap) as usize,
                value: values[i] as isize,
            },
    )
}

/// The values of the elements.
pub open spec fn values_of(state: Seq<Entry>) -> Seq<isize> {
    Seq::new(state.len(), |i: int| state[i].value)
}

/// The circle after `rounds` rounds, in each of which every number is moved
/// once. Nothing where some number cannot be moved.
pub open spec fn mix_rounds(state: Seq<Entry>, rounds: nat, gap: nat) -> Option<Seq<Entry>>
    decreases rounds,
{
    if rounds == 0 {
        Some(state)
    } else {
        match mix_rounds(state, (rounds - 1) as nat, gap) {
            Some(before) => mix_steps(before, before.len(), gap),
            None => None,
        }
    }
}

/// The coordinates that the input hides: the numbers are multiplied by `key`,
/// mixed for `rounds` rounds, and added up behind the zero.
pub open spec fn coordinates_of(input: Seq<u8>, key: int, rounds: nat) -> Option<isize> {
    if loadable(input, key) {
        match mix_rounds(
            initial_entries(decrypted(numbers_of(input), key), gap_of(48)),
            rounds,
            gap_of(48),
        ) {
            Some(state) => checked_grove_sum(values_of(state)),
            None => None,
        }
    } else {
        None
    }
}

/// Once a round cannot be finished, the mixing stays undone.
proof fn lemma_later_rounds(start: Seq<Entry>, failed: nat, rounds: nat, gap: nat)
    requires
        failed < rounds,
        mix_rounds(start, failed + 1, gap) is None,
    ensures
        mix_rounds(start, rounds, gap) is None,
    decreases rounds,
{
    if rounds > failed + 1 {
        lemma_later_rounds(start, failed, (rounds - 1) as nat, gap);
    }
}

/// Reads the numbers, multiplies them by `decryption_key`, mixes them for
/// `rounds` rounds and adds up the coordinates.
pub fn mixed_coordinates(input: &[u8], decryption_key: isize, rounds: usize) -> (sum: Option<isize>)
    ensures
        sum == coordinates_of(input@, decryption_key as int, rounds as nat),
{
    let mut shuffle_tree = match parse_to_initial_tree(input, decryption_key) {
        Some(list) => list,
        None => {
            return None;
        },
    };
    let loaded_nodes: Vec<NodeIndex> = shuffle_tree.node_indexes();
    let ghost nodes = loaded_nodes@;
    let ghost gap = gap_of(48);
    let ghost start = entries_of(shuffle_tree, nodes);
    proof {
        shuffle_tree.lemma_order();
        assert forall|k: int| 0 <= k < nodes.len() implies shuffle_tree.contains(
            #[trigger] nodes[k],
        ) by {
            shuffle_tree.lemma_rank(k);
        }
        assert forall|i: int| 0 <= i < nodes.len() implies nodes.contains(
            #[trigger] shuffle_tree.handles()[i],
        ) by {
            assert(nodes[i] == shuffle_tree.handles()[i]);
        }
        let loaded = initial_entries(
            decrypted(numbers_of(input@), decryption_key as int),
            gap,
        );
        assert forall|i: int| 0 <= i < start.len() implies start[i] == loaded[i] by {
            assert(nodes[i] == shuffle_tree.handles()[i]);
            assert(nodes.index_of(nodes[i]) == i);
        }
        assert(start =~= loaded);
    }
    let mut round: usize = 0;
    while round < rounds
        invariant
            round <= rounds,
            nodes == loaded_nodes@,
            gap == gap_of(48),
            loadable(input@, decryption_key as int),
            start == initial_entries(decrypted(numbers_of(input@), decryption_key as int), gap),
            shuffle_tree.wf(),
            lists_handles(shuffle_tree, nodes),
            mix_rounds(start, round as nat, gap) == Some(entries_of(shuffle_tree, nodes)),
        decreases rounds - round,
    {
        proof {
            shuffle_tree.lemma_order();
        }
        match mix(&mut shuffle_tree, &loaded_nodes) {
            Ok(()) => {},
            Err(_) => {
                proof {
                    assert(mix_rounds(start, (round + 1) as nat, gap) is None);
                    lemma_later_rounds(start, round as nat, rounds as nat, gap);
                }
                return None;
            },
        }
        round += 1;
    }
    proof {
        assert(values_of(entries_of(shuffle_tree, nodes)) =~= shuffle_tree@);
    }
    calculate_coordinates(shuffle_tree)
}

/// The coordinates of the list as it is read, mixed once.
pub fn part_one(input: &str) -> (sum: Option<isize>)
    ensures
        sum == coordinates_of(input.spec_bytes(), 1, 1),
{
    mixed_coordinates(input.as_bytes(), 1, 1)
}

/// The coordinates of the list multiplied by the decryption key, mixed ten
/// times.
pub fn part_two(input: &str) -> (sum: Option<isize>)
    ensures
        sum == coordinates_of(input.spec_bytes(), 811589153, 10),
{
    mixed_coordinates(input.as_bytes(), 811589153, 10)
}

} // verus!
