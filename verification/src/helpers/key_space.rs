//! Allocation of sort keys from a sparse `usize` key space.
//!
//! Elements loaded together get keys one interleaving gap apart, so that later
//! insertions between two neighbours can bisect the room that is left. Room is
//! only ever consumed: every function here reports exhaustion as `None`.

use vstd::arithmetic::power2::{lemma_pow2_strictly_increases, lemma_pow2_unfold, pow2};
use vstd::prelude::*;

verus! {

/// The distance between the keys of two elements that were loaded side by
/// side: two to the power of the interleaving bits.
pub open spec fn gap_of(bits: nat) -> nat {
    pow2(bits)
}

/// The key of the element loaded at `index`.
pub open spec fn initial_key_of(index: nat, gap: nat) -> nat {
    (index + 1) * gap
}

/// The key halfway between two keys, rounded down.
pub open spec fn midpoint_of(predecessor: int, successor: int) -> int {
    predecessor + (successor - predecessor) / 2
}

/// Whether a key strictly between the two keys exists.
pub open spec fn has_room_between(predecessor: int, successor: int) -> bool {
    predecessor + 1 < successor
}

/// Whether a key is left for an element that lands in front of rank `land`
/// of the keys `rest`: between that key and the one before it, or one gap behind
/// the last key where it lands in front of the first.
pub open spec fn room_at_landing(rest: Seq<usize>, land: int, gap: nat) -> bool {
    if land == 0 {
        rest.last() + gap <= usize::MAX
    } else {
        has_room_between(rest[land - 1] as int, rest[land] as int)
    }
}

/// The key for an element that lands in front of rank `land` of the keys
/// `rest`.
pub open spec fn key_at_landing(rest: Seq<usize>, land: int, gap: nat) -> int {
    if land == 0 {
        rest.last() + gap
    } else {
        midpoint_of(rest[land - 1] as int, rest[land] as int)
    }
}

/// Computes the interleaving gap for a bit budget, or `None` where the gap does
/// not fit into the key space.
pub fn interleaving_gap(bits: usize) -> (gap: Option<usize>)
    ensures
        gap == (if gap_of(bits as nat) <= usize::MAX {
            Some(gap_of(bits as nat) as usize)
        } else {
            None
        }),
{
    let mut gap: usize = 1;
    let mut done: usize = 0;
    proof {
        vstd::arithmetic::power2::lemma2_to64();
    }
    while done < bits
        invariant
            done <= bits,
            gap == pow2(done as nat),
        decreases bits - done,
    {
        proof {
            lemma_pow2_unfold((done + 1) as nat);
        }
        match gap.checked_mul(2) {
            Some(doubled) => {
                gap = doubled;
            },
            None => {
                proof {
                    if done + 1 < bits {
                        lemma_pow2_strictly_increases((done + 1) as nat, bits as nat);
                    }
                }
                return None;
            },
        }
        done += 1;
    }
    Some(gap)
}

/// The key of the element loaded at `index`: one gap further than that of the
/// element before it, the first one gap above zero. `None` where the key would
/// leave the key space.
pub fn initial_key(index: usize, gap: usize) -> (key: Option<usize>)
    ensures
        key == (if initial_key_of(index as nat, gap as nat) <= usize::MAX {
            Some(initial_key_of(index as nat, gap as nat) as usize)
        } else {
            None
        }),
{
    match index.checked_add(1) {
        Some(count) => count.checked_mul(gap),
        None => {
            if gap == 0 {
                proof {
                    assert((index + 1) * gap == 0) by (nonlinear_arith)
                        requires
                            gap == 0,
                    ;
                }
                Some(0)
            } else {
                proof {
                    assert((index + 1) * gap >= index + 1) by (nonlinear_arith)
                        requires
                            gap >= 1,
                            index >= 0,
                    ;
                }
                None
            }
        },
    }
}

/// The keys for `count` elements loaded together, in order; `None` where the
/// last of them would leave the key space.
pub fn initial_keys(count: usize, gap: usize) -> (keys: Option<Vec<usize>>)
    ensures
        keys is Some <==> count == 0 || initial_key_of((count - 1) as nat, gap as nat)
            <= usize::MAX,
        keys is Some ==> keys->0@.len() == count && forall|i: int|
            0 <= i < count ==> #[trigger] keys->0@[i] == initial_key_of(i as nat, gap as nat),
{
    let mut keys: Vec<usize> = Vec::new();
    let mut index: usize = 0;
    while index < count
        invariant
            index <= count,
            keys@.len() == index,
            forall|i: int|
                0 <= i < index ==> #[trigger] keys@[i] == initial_key_of(i as nat, gap as nat),
        decreases count - index,
    {
        match initial_key(index, gap) {
            Some(key) => {
                keys.push(key);
            },
            None => {
                proof {
                    assert(initial_key_of(index as nat, gap as nat) <= initial_key_of(
                        (count - 1) as nat,
                        gap as nat,
                    )) by (nonlinear_arith)
                        requires
                            index <= count - 1,
                            index >= 0,
                            gap >= 0,
                    ;
                }
                return None;
            },
        }
        index += 1;
    }
    proof {
        if count > 0 {
            assert(keys@[count - 1] == initial_key_of((count - 1) as nat, gap as nat));
        }
    }
    Some(keys)
}

/// A key strictly between two neighbouring keys: the lower one plus half the
/// distance, rounded down. `None` exactly where no key lies strictly between
/// the two, as when they are adjacent.
pub fn key_between(predecessor: usize, successor: usize) -> (key: Option<usize>)
    ensures
        key == (if has_room_between(predecessor as int, successor as int) {
            Some(midpoint_of(predecessor as int, successor as int) as usize)
        } else {
            None
        }),
        key is Some ==> predecessor < key->0 < successor,
{
    if successor <= predecessor || successor - predecessor == 1 {
        None
    } else {
        Some(predecessor + (successor - predecessor) / 2)
    }
}

/// A key one gap above the greatest key; `None` where it would leave the key
/// space.
pub fn append_key(current_max: usize, gap: usize) -> (key: Option<usize>)
    ensures
        key == (if current_max + gap <= usize::MAX {
            Some((current_max + gap) as usize)
        } else {
            None
        }),
{
    current_max.checked_add(gap)
}

/// A key one gap below the smallest key; `None` where less than a gap is left
/// above zero, and so always at zero.
pub fn prepend_key(current_min: usize, gap: usize) -> (key: Option<usize>)
    ensures
        key == (if current_min >= gap && current_min > 0 {
            Some((current_min - gap) as usize)
        } else {
            None
        }),
{
    if current_min == 0 {
        None
    } else {
        current_min.checked_sub(gap)
    }
}

/// Keys loaded together ascend strictly when the gap is positive.
pub proof fn lemma_initial_keys_ascend(gap: nat, i: nat, j: nat)
    requires
        gap > 0,
        i < j,
    ensures
        initial_key_of(i, gap) + gap <= initial_key_of(j, gap),
{
    assert((i + 1) * gap + gap <= (j + 1) * gap) by (nonlinear_arith)
        requires
            gap > 0,
            i < j,
    ;
}

} // verus!
