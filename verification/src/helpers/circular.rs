//! Circular sequences: the arithmetic of ranks that wrap around, and what a move
//! does to a sequence read as a circle.

use vstd::arithmetic::div_mod::{
    lemma_fundamental_div_mod, lemma_mod_multiples_vanish, lemma_small_mod,
};
use vstd::prelude::*;

verus! {

/// The rank that `rank` denotes in a circle of `len` positions.
pub open spec fn wrapped_rank(len: int, rank: int) -> int
    recommends
        len > 0,
{
    rank % len
}

/// Where the circular successor of the element at rank `at` stands once that
/// element has been taken out of a sequence of `len` elements: at the same
/// rank, or at the front where the element was the last one.
pub open spec fn successor_after_removal(len: int, at: int) -> int {
    if at + 1 < len {
        at
    } else {
        0
    }
}

/// The rank, among the remaining elements, of the element in front of which a
/// move by `by` puts the element taken from rank `at`: `by` steps from its
/// former successor, wrapping around the `len - 1` elements that remain.
pub open spec fn landing_rank(len: int, at: int, by: int) -> int
    recommends
        len >= 2,
        0 <= at < len,
{
    wrapped_rank(len - 1, successor_after_removal(len, at) + by)
}

/// The rank at which the moved element is found after the move. Landing in
/// front of the first element puts it behind the last one instead, which is the
/// same place in a circle.
pub open spec fn rank_after_move(len: int, at: int, by: int) -> int
    recommends
        len >= 2,
        0 <= at < len,
{
    if landing_rank(len, at, by) == 0 {
        len - 1
    } else {
        landing_rank(len, at, by)
    }
}

/// The sequence after the element at rank `at` has been moved by `by`
/// positions: every other element keeps its place relative to the others.
pub open spec fn circular_move<A>(s: Seq<A>, at: int, by: int) -> Seq<A>
    recommends
        s.len() >= 2,
        0 <= at < s.len(),
{
    s.remove(at).insert(rank_after_move(s.len() as int, at, by), s[at])
}

/// The sequence read from its second element on, with the first element at the
/// end: the same circle, cut one position later.
pub open spec fn rotated_once<A>(s: Seq<A>) -> Seq<A>
    recommends
        s.len() >= 1,
{
    s.subrange(1, s.len() as int).push(s[0])
}

/// A rank denotes the same position after any number of full turns.
pub proof fn lemma_wrapped_rank_periodic(len: int, rank: int, turns: int)
    requires
        len > 0,
    ensures
        wrapped_rank(len, rank + turns * len) == wrapped_rank(len, rank),
        0 <= wrapped_rank(len, rank) < len,
{
    lemma_mod_multiples_vanish(turns, rank, len);
    assert(len * turns + rank == rank + turns * len) by (nonlinear_arith);
}

/// A move lands among the remaining elements, and the moved element is found
/// at a rank of the sequence.
pub proof fn lemma_landing_in_range(len: int, at: int, by: int)
    requires
        len >= 2,
        0 <= at < len,
    ensures
        0 <= landing_rank(len, at, by) < len - 1,
        0 < rank_after_move(len, at, by) < len,
{
}

/// A move keeps the number of elements.
pub proof fn lemma_move_keeps_len<A>(s: Seq<A>, at: int, by: int)
    requires
        s.len() >= 2,
        0 <= at < s.len(),
    ensures
        circular_move(s, at, by).len() == s.len(),
        circular_move(s, at, by)[rank_after_move(s.len() as int, at, by)] == s[at],
        circular_move(s, at, by).remove(rank_after_move(s.len() as int, at, by)) == s.remove(at),
{
    lemma_landing_in_range(s.len() as int, at, by);
    let to = rank_after_move(s.len() as int, at, by);
    assert(s.remove(at).insert(to, s[at]).remove(to) =~= s.remove(at));
}

/// Moving by a multiple of the number of the other elements changes nothing in
/// the circle: the element returns in front of its former successor.
pub proof fn lemma_move_by_full_turns<A>(s: Seq<A>, at: int, turns: int)
    requires
        s.len() >= 2,
        0 <= at < s.len(),
    ensures
        circular_move(s, at, turns * (s.len() - 1)) == (if at == 0 {
            rotated_once(s)
        } else {
            s
        }),
{
    let len = s.len() as int;
    let start = successor_after_removal(len, at);
    lemma_wrapped_rank_periodic(len - 1, start, turns);
    lemma_small_mod(start as nat, (len - 1) as nat);
    assert(landing_rank(len, at, turns * (len - 1)) == start);
    lemma_returns_to_start(s, at);
}

/// Putting the element taken from rank `at` back in front of its former
/// successor gives the sequence back, cut one position later where the element
/// was the first.
proof fn lemma_returns_to_start<A>(s: Seq<A>, at: int)
    requires
        s.len() >= 2,
        0 <= at < s.len(),
    ensures
        ({
            let len = s.len() as int;
            let start = successor_after_removal(len, at);
            let to = if start == 0 {
                len - 1
            } else {
                start
            };
            s.remove(at).insert(to, s[at]) == (if at == 0 {
                rotated_once(s)
            } else {
                s
            })
        }),
{
    let len = s.len() as int;
    let start = successor_after_removal(len, at);
    let to = if start == 0 {
        len - 1
    } else {
        start
    };
    if at == 0 {
        assert(s.remove(0).insert(len - 1, s[0]) =~= rotated_once(s));
    } else {
        assert(to == at);
        assert(s.remove(at).insert(at, s[at]) =~= s);
    }
}

/// Moving an element by `by` and then the same element by `-by` gives the
/// circle back: the sequence itself, or the sequence cut one position later
/// where the element was the first.
pub proof fn lemma_move_then_inverse<A>(s: Seq<A>, at: int, by: int)
    requires
        s.len() >= 2,
        0 <= at < s.len(),
    ensures
        circular_move(
            circular_move(s, at, by),
            rank_after_move(s.len() as int, at, by),
            -by,
        ) == (if at == 0 {
            rotated_once(s)
        } else {
            s
        }),
{
    let len = s.len() as int;
    let start = successor_after_removal(len, at);
    let land = landing_rank(len, at, by);
    let to = rank_after_move(len, at, by);
    let moved = circular_move(s, at, by);
    lemma_move_keeps_len(s, at, by);
    lemma_landing_in_range(len, at, by);
    // The element's successor after the first move stands at the landing rank.
    assert(successor_after_removal(len, to) == land);
    // Walking back from there leads to the former successor.
    lemma_fundamental_div_mod(start + by, len - 1);
    let q = (start + by) / (len - 1);
    assert(land - by == start + (-q) * (len - 1)) by (nonlinear_arith)
        requires
            start + by == (len - 1) * q + land,
    ;
    lemma_wrapped_rank_periodic(len - 1, start, -q);
    lemma_small_mod(start as nat, (len - 1) as nat);
    assert(landing_rank(len, to, -by) == start);
    assert(moved[to] == s[at]);
    assert(moved.remove(to) == s.remove(at));
    lemma_returns_to_start(s, at);
}

} // verus!
