//! Rucksack reorganisation: the item type that three elves of a group share.
//!
//! Every line lists the items of one elf as letters. A letter stands for an
//! item type, and every item type has a priority: 1 to 26 for `a` to `z`, 27 to
//! 52 for `A` to `Z`.

use crate::helpers::parsing::{iterate_all, parsed_while, views_of, AocLineParsable, AocParsable};
use vstd::prelude::*;
use vstd::std_specs::bits::axiom_u64_trailing_zeros;
use vstd::string::StringSliceAdditionalSpecFns;

verus! {

/// Whether bit `at` of `bits` is set.
pub open spec fn has_bit(bits: u64, at: u64) -> bool {
    at < 64 && (bits >> at) & 1 == 1
}

/// The priorities whose bits are set in `bits`.
pub open spec fn bits_of(bits: u64) -> Set<u64> {
    Set::new(|at: u64| has_bit(bits, at))
}

/// The smallest priority of a set, or 64 for a set without any.
pub open spec fn first_of(priorities: Set<u64>) -> u64 {
    if exists|at: u64| at < 64 && priorities.contains(at) {
        choose|at: u64|
            at < 64 && priorities.contains(at) && forall|below: u64|
                below < at ==> !priorities.contains(below)
    } else {
        64
    }
}

/// A set of priorities below 64, one bit for each.
#[derive(Debug, Clone, Copy)]
pub struct RucksackBitSet(u64);

impl View for RucksackBitSet {
    type V = Set<u64>;

    /// The priorities in the set.
    closed spec fn view(&self) -> Set<u64> {
        bits_of(self.0)
    }
}

impl RucksackBitSet {
    /// The empty set.
    pub fn new() -> (set: Self)
        ensures
            set@ == Set::<u64>::empty(),
    {
        proof {
            assert forall|at: u64| !has_bit(0, at) by {
                assert(at < 64 ==> (0u64 >> at) & 1 == 0) by (bit_vector);
            }
            assert(bits_of(0) =~= Set::<u64>::empty());
        }
        RucksackBitSet(0)
    }

    /// Puts `value` into the set.
    pub fn add(&mut self, value: u8)
        requires
            value < 64,
        ensures
            final(self)@ == old(self)@.insert(value as u64),
    {
        let ghost before = self.0;
        let bit = 1u64 << (value as u64);
        self.0 = self.0 | bit;
        proof {
            let after = self.0;
            let v = value as u64;
            assert forall|at: u64| has_bit(after, at) == (has_bit(before, at) || at == v) by {
                assert(at < 64 && v < 64 ==> (((before | (1u64 << v)) >> at) & 1 == 1 <==> ((before
                    >> at) & 1 == 1 || at == v))) by (bit_vector);
            }
            assert(bits_of(after) =~= bits_of(before).insert(v));
        }
    }

    /// Keeps what the set has in common with `other`.
    pub fn intersect(&mut self, other: Self)
        ensures
            final(self)@ == old(self)@.intersect(other@),
    {
        let ghost before = self.0;
        self.0 = self.0 & other.0;
        proof {
            let after = self.0;
            let with = other.0;
            assert forall|at: u64| has_bit(after, at) == (has_bit(before, at) && has_bit(
                with,
                at,
            )) by {
                assert(at < 64 ==> (((before & with) >> at) & 1 == 1 <==> ((before >> at) & 1 == 1
                    && (with >> at) & 1 == 1))) by (bit_vector);
            }
            assert(bits_of(after) =~= bits_of(before).intersect(bits_of(with)));
        }
    }

    /// The smallest priority in the set, or 64 where the set is empty.
    pub fn get_first(&self) -> (first: u8)
        ensures
            first == first_of(self@),
            first <= 64,
            first < 64 ==> self@.contains(first as u64),
            forall|below: u64| below < first ==> !self@.contains(below),
    {
        let bits = self.0;
        proof {
            axiom_u64_trailing_zeros(bits);
        }
        let first = bits.trailing_zeros() as u8;
        proof {
            let f = first as u64;
            if f < 64 {
                assert(has_bit(bits, f));
                assert forall|below: u64| below < f implies !has_bit(bits, below) by {}
                let chosen = first_of(self@);
                assert(self@.contains(f));
                assert(chosen < 64 && self@.contains(chosen) && forall|below: u64|
                    below < chosen ==> !self@.contains(below));
                assert(chosen == f);
            } else {
                assert(bits == 0);
                assert forall|at: u64| !has_bit(bits, at) by {
                    assert(at < 64 ==> (0u64 >> at) & 1 == 0) by (bit_vector);
                }
            }
        }
        first
    }
}

/// The priority of the item type that a letter stands for.
pub open spec fn priority_of(letter: u8) -> Option<u8> {
    if 97 <= letter <= 122 {
        Some((letter - 96) as u8)
    } else if 65 <= letter <= 90 {
        Some((letter - 38) as u8)
    } else {
        None
    }
}

/// The priorities of the letters of the line at offset `from`, and the offset
/// behind the line feed that ends it. Nothing where the line holds anything
/// but letters, or is not ended by a line feed.
pub open spec fn rucksack_at(input: Seq<u8>, from: int) -> Option<(Set<u64>, int)>
    decreases input.len() - from,
{
    if from < 0 || from >= input.len() {
        None
    } else if input[from] == 10 {
        Some((Set::empty(), from + 1))
    } else {
        match (priority_of(input[from]), rucksack_at(input, from + 1)) {
            (Some(priority), Some((rest, to))) => Some((rest.insert(priority as u64), to)),
            _ => None,
        }
    }
}

/// Reads one line of letters as the set of their priorities.
pub fn parse_rucksack(input: &[u8], from: usize) -> (read: Option<(RucksackBitSet, usize)>)
    requires
        from <= input@.len(),
    ensures
        match read {
            Some((rucksack, to)) => rucksack_at(input@, from as int) == Some(
                (rucksack@, to as int),
            ) && from < to <= input@.len(),
            None => rucksack_at(input@, from as int) is None,
        },
{
    let mut rucksack_bit_set = RucksackBitSet::new();
    let mut i = from;
    loop
        invariant
            from <= i <= input@.len(),
            rucksack_at(input@, from as int) == match rucksack_at(input@, i as int) {
                Some((rest, to)) => Some((rucksack_bit_set@.union(rest), to)),
                None => None,
            },
        decreases input@.len() - i,
    {
        if i >= input.len() {
            return None;
        }
        let c = input[i];
        if c == 10 {
            proof {
                assert(rucksack_bit_set@.union(Set::<u64>::empty()) =~= rucksack_bit_set@);
            }
            return Some((rucksack_bit_set, i + 1));
        }
        let ghost before = rucksack_bit_set@;
        if c >= 97 && c <= 122 {
            rucksack_bit_set.add(c - 97 + 1);
        } else if c >= 65 && c <= 90 {
            rucksack_bit_set.add(c - 65 + 27);
        } else {
            return None;
        }
        proof {
            match rucksack_at(input@, i + 1) {
                Some((rest, to)) => {
                    let priority = priority_of(c)->0 as u64;
                    assert(before.union(rest.insert(priority)) =~= before.insert(priority).union(
                        rest,
                    ));
                },
                None => {},
            }
        }
        i += 1;
    }
}

/// What one elf carries.
#[derive(Debug, Clone, Copy)]
pub struct ElfPocket(pub RucksackBitSet);

impl View for ElfPocket {
    type V = Set<u64>;

    /// The priorities of the item types in the pocket.
    open spec fn view(&self) -> Set<u64> {
        self.0@
    }
}

impl AocLineParsable for ElfPocket {
    open spec fn parsed_line(input: Seq<u8>, from: int) -> Option<(Set<u64>, int)> {
        rucksack_at(input, from)
    }

    fn parse_from_line(input: &[u8], from: usize) -> (read: Option<(Self, usize)>) {
        match parse_rucksack(input, from) {
            Some((bitset, rest)) => Some((ElfPocket(bitset), rest)),
            None => None,
        }
    }
}

/// Three elves who share one item type.
#[derive(Debug)]
pub struct ElfGroup(pub [ElfPocket; 3]);

impl View for ElfGroup {
    type V = (Set<u64>, Set<u64>, Set<u64>);

    /// What each of the three carries.
    open spec fn view(&self) -> (Set<u64>, Set<u64>, Set<u64>) {
        (self.0@[0]@, self.0@[1]@, self.0@[2]@)
    }
}

/// The smallest priority that the three of a group have in common, or 64 where
/// they have none.
pub open spec fn badge_of(group: (Set<u64>, Set<u64>, Set<u64>)) -> u64 {
    first_of(group.0.intersect(group.1).intersect(group.2))
}

impl ElfGroup {
    /// The smallest priority that the three have in common, or 64 where they
    /// have none.
    pub fn badge(&self) -> (badge: u8)
        ensures
            badge == badge_of(self@),
            badge <= 64,
    {
        let mut common = self.0[0].0;
        common.intersect(self.0[1].0);
        common.intersect(self.0[2].0);
        common.get_first()
    }
}

impl AocParsable for ElfGroup {
    /// Three lines of letters.
    open spec fn parsed(input: Seq<u8>, from: int) -> Option<
        ((Set<u64>, Set<u64>, Set<u64>), int),
    > {
        match rucksack_at(input, from) {
            Some((first, second_from)) => match rucksack_at(input, second_from) {
                Some((second, third_from)) => match rucksack_at(input, third_from) {
                    Some((third, to)) => Some(((first, second, third), to)),
                    None => None,
                },
                None => None,
            },
            None => None,
        }
    }

    fn parse_from_string(input: &[u8], from: usize) -> (read: Option<(Self, usize)>) {
        let (elf1, second_from) = match ElfPocket::parse_from_line(input, from) {
            Some(read) => read,
            None => {
                return None;
            },
        };
        let (elf2, third_from) = match ElfPocket::parse_from_line(input, second_from) {
            Some(read) => read,
            None => {
                return None;
            },
        };
        let (elf3, rest) = match ElfPocket::parse_from_line(input, third_from) {
            Some(read) => read,
            None => {
                return None;
            },
        };
        Some((ElfGroup([elf1, elf2, elf3]), rest))
    }
}

/// The badges of all groups, added up.
pub open spec fn badge_sum(groups: Seq<(Set<u64>, Set<u64>, Set<u64>)>) -> nat
    decreases groups.len(),
{
    if groups.len() == 0 {
        0
    } else {
        badge_sum(groups.drop_last()) + badge_of(groups.last()) as nat
    }
}

/// The groups that the input lists, up to the first line that is no list of
/// letters.
pub open spec fn groups_of(input: Seq<u8>) -> Seq<(Set<u64>, Set<u64>, Set<u64>)> {
    parsed_while::<ElfGroup>(input, 0)
}

/// The first groups do not add up to more than all of them.
proof fn lemma_badge_sum_grows(groups: Seq<(Set<u64>, Set<u64>, Set<u64>)>, shorter: int)
    requires
        0 <= shorter <= groups.len(),
    ensures
        badge_sum(groups.take(shorter)) <= badge_sum(groups),
    decreases groups.len() - shorter,
{
    if shorter < groups.len() {
        lemma_badge_sum_grows(groups.drop_last(), shorter);
        assert(groups.drop_last().take(shorter) =~= groups.take(shorter));
    } else {
        assert(groups.take(shorter) =~= groups);
    }
}

/// The priorities of the badges of all groups, added up.
pub fn part_two(input: &str) -> (sum: Option<u32>)
    requires
        badge_sum(groups_of(input.spec_bytes())) <= u32::MAX,
    ensures
        sum == Some(badge_sum(groups_of(input.spec_bytes())) as u32),
{
    let groups: Vec<ElfGroup> = iterate_all(input.as_bytes());
    let ghost all = groups_of(input.spec_bytes());
    let mut sum: u32 = 0;
    let mut index: usize = 0;
    while index < groups.len()
        invariant
            index <= groups@.len(),
            all == views_of(groups@),
            badge_sum(all) <= u32::MAX,
            sum == badge_sum(all.take(index as int)),
        decreases groups@.len() - index,
    {
        proof {
            assert(all.take(index + 1).drop_last() =~= all.take(index as int));
            lemma_badge_sum_grows(all, index + 1);
        }
        sum = sum + groups[index].badge() as u32;
        index += 1;
    }
    proof {
        assert(all.take(groups@.len() as int) =~= all);
    }
    Some(sum)
}

} // verus!
