//! Calorie counting: what the elves carry, and which of them carry the most.
//!
//! The input lists the items of one elf after the other, one number per line,
//! with a blank line between two elves.

use crate::helpers::iter::{
    ascending, is_k_highest, lemma_absorb, lemma_nothing_seen, lemma_pass_over,
};
use crate::helpers::parsing::{
    line_end, line_ending, line_ending_or_eof, newline_at, parse_all, parsed_all,
    parsed_unsigned, text_u32, views_of, AocParsable,
};
use vstd::prelude::*;
use vstd::string::StringSliceAdditionalSpecFns;

verus! {

/// What one elf carries.
#[derive(Debug)]
pub struct ElfBaggage {
    pub items: Vec<u32>,
}

/// The numbers that stand one per line from offset `from` on, and the offset
/// behind the last of these lines.
pub open spec fn numbers_at(input: Seq<u8>, from: int) -> (Seq<u32>, int)
    decreases input.len() - from,
{
    match parsed_unsigned(input, from, u32::MAX as nat) {
        Some((value, to)) => match newline_at(input, to) {
            Some(next) => if from < next <= input.len() {
                (seq![value as u32] + numbers_at(input, next).0, numbers_at(input, next).1)
            } else {
                (Seq::empty(), from)
            },
            None => (Seq::empty(), from),
        },
        None => (Seq::empty(), from),
    }
}

impl View for ElfBaggage {
    type V = Seq<u32>;

    /// The items in the order of the input.
    open spec fn view(&self) -> Seq<u32> {
        self.items@
    }
}

impl AocParsable for ElfBaggage {
    /// One or more numbers, one per line, and then a blank line or the end of
    /// the input.
    open spec fn parsed(input: Seq<u8>, from: int) -> Option<(Seq<u32>, int)> {
        let (items, to) = numbers_at(input, from);
        if items.len() == 0 {
            None
        } else {
            match line_end(input, to) {
                Some(behind) => Some((items, behind)),
                None => None,
            }
        }
    }

    fn parse_from_string(input: &[u8], from: usize) -> (read: Option<(Self, usize)>) {
        let mut items: Vec<u32> = Vec::new();
        let mut to = from;
        loop
            invariant
                from <= to <= input@.len(),
                numbers_at(input@, from as int).0 == items@ + numbers_at(input@, to as int).0,
                numbers_at(input@, from as int).1 == numbers_at(input@, to as int).1,
            ensures
                numbers_at(input@, to as int).0.len() == 0,
                numbers_at(input@, to as int).1 == to,
            decreases input@.len() - to,
        {
            match text_u32(input, to) {
                Some((value, behind)) => match line_ending(input, behind) {
                    Some(next) => {
                        proof {
                            assert(items@ + (seq![value] + numbers_at(input@, next as int).0)
                                =~= items@.push(value) + numbers_at(input@, next as int).0);
                        }
                        items.push(value);
                        to = next;
                    },
                    None => {
                        break ;
                    },
                },
                None => {
                    break ;
                },
            }
        }
        proof {
            assert(items@ + Seq::<u32>::empty() =~= items@);
        }
        if items.len() == 0 {
            return None;
        }
        match line_ending_or_eof(input, to) {
            Some(behind) => Some((ElfBaggage { items }, behind)),
            None => None,
        }
    }
}

/// The sum of the numbers.
pub open spec fn sum_of(numbers: Seq<u32>) -> nat
    decreases numbers.len(),
{
    if numbers.len() == 0 {
        0
    } else {
        sum_of(numbers.drop_last()) + numbers.last() as nat
    }
}

/// What each elf carries in total.
pub open spec fn totals_of(baggages: Seq<Seq<u32>>) -> Seq<nat> {
    Seq::new(baggages.len(), |i: int| sum_of(baggages[i]))
}

/// Whether the total of every elf fits into `u32`.
pub open spec fn totals_fit(baggages: Seq<Seq<u32>>) -> bool {
    forall|i: int| 0 <= i < baggages.len() ==> sum_of(#[trigger] baggages[i]) <= u32::MAX
}

/// The first numbers do not add up to more than all of them.
proof fn lemma_sum_grows(numbers: Seq<u32>, shorter: int)
    requires
        0 <= shorter <= numbers.len(),
    ensures
        sum_of(numbers.take(shorter)) <= sum_of(numbers),
    decreases numbers.len() - shorter,
{
    if shorter < numbers.len() {
        lemma_sum_grows(numbers.drop_last(), shorter);
        assert(numbers.drop_last().take(shorter) =~= numbers.take(shorter));
    } else {
        assert(numbers.take(shorter) =~= numbers);
    }
}

/// Adds up what each elf carries.
pub fn elf_totals(elf_baggages: Vec<ElfBaggage>) -> (totals: Vec<u32>)
    requires
        totals_fit(views_of(elf_baggages@)),
    ensures
        totals@.len() == elf_baggages@.len(),
        forall|i: int|
            0 <= i < totals@.len() ==> #[trigger] totals@[i] == sum_of(elf_baggages@[i]@),
{
    let mut totals: Vec<u32> = Vec::new();
    let mut elf: usize = 0;
    while elf < elf_baggages.len()
        invariant
            elf <= elf_baggages@.len(),
            totals_fit(views_of(elf_baggages@)),
            totals@.len() == elf,
            forall|i: int| 0 <= i < elf ==> #[trigger] totals@[i] == sum_of(elf_baggages@[i]@),
        decreases elf_baggages@.len() - elf,
    {
        let items = &elf_baggages[elf].items;
        let mut total: u32 = 0;
        let mut index: usize = 0;
        proof {
            assert(views_of(elf_baggages@)[elf as int] == items@);
        }
        while index < items.len()
            invariant
                index <= items@.len(),
                sum_of(items@) <= u32::MAX,
                total == sum_of(items@.take(index as int)),
            decreases items@.len() - index,
        {
            proof {
                assert(items@.take(index + 1).drop_last() =~= items@.take(index as int));
                lemma_sum_grows(items@, index + 1);
            }
            total = total + items[index];
            index += 1;
        }
        proof {
            assert(items@.take(items@.len() as int) =~= items@);
        }
        totals.push(total);
        elf += 1;
    }
    totals
}

/// What the input says each elf carries.
pub open spec fn baggages_of(input: Seq<u8>) -> Option<Seq<Seq<u32>>> {
    parsed_all::<ElfBaggage>(input, 0)
}

/// The total of the elf who carries the most.
pub fn part_one(input: &str) -> (most: Option<u32>)
    requires
        baggages_of(input.spec_bytes()) is Some,
        baggages_of(input.spec_bytes())->0.len() > 0,
        totals_fit(baggages_of(input.spec_bytes())->0),
    ensures
        most is Some,
        totals_of(baggages_of(input.spec_bytes())->0).contains(most->0 as nat),
        forall|i: int|
            0 <= i < baggages_of(input.spec_bytes())->0.len() ==> sum_of(
                #[trigger] baggages_of(input.spec_bytes())->0[i],
            ) <= most->0,
{
    let elf_baggages: Vec<ElfBaggage> = parse_all(input.as_bytes()).unwrap();
    let ghost baggages = views_of(elf_baggages@);
    proof {
        assert forall|i: int| 0 <= i < baggages.len() implies #[trigger] baggages[i]
            == elf_baggages@[i]@ by {}
    }
    let totals = elf_totals(elf_baggages);
    let mut most = totals[0];
    let mut index: usize = 1;
    let ghost mut witness: int = 0;
    while index < totals.len()
        invariant
            1 <= index <= totals@.len(),
            0 <= witness < index,
            totals@[witness] == most,
            forall|i: int| 0 <= i < index ==> totals@[i] <= most,
        decreases totals@.len() - index,
    {
        if totals[index] > most {
            most = totals[index];
            proof {
                witness = index as int;
            }
        }
        index += 1;
    }
    proof {
        assert(totals_of(baggages)[witness] == most as nat);
        assert forall|i: int| 0 <= i < baggages.len() implies sum_of(#[trigger] baggages[i])
            <= most by {
            assert(totals@[i] <= most);
        }
    }
    Some(most)
}

/// The totals as machine words.
pub open spec fn wide_totals(baggages: Seq<Seq<u32>>) -> Seq<usize> {
    Seq::new(baggages.len(), |i: int| sum_of(baggages[i]) as usize)
}

/// Whether `sum` adds up the three greatest of `totals`, with zeros for those
/// that are missing; `None` stands for a sum beyond `u32`.
pub open spec fn is_top_three_sum(sum: Option<u32>, totals: Seq<usize>) -> bool {
    exists|top: Seq<usize>|
        {
            &&& top.len() == 3
            &&& #[trigger] is_k_highest(top, totals)
            &&& match sum {
                Some(sum) => sum == top[0] + top[1] + top[2],
                None => top[0] + top[1] + top[2] > u32::MAX,
            }
        }
}

/// The totals of the three elves who carry the most, added up. Where there
/// are fewer than three elves, these are all. `None` where the sum does not
/// fit into `u32`.
pub fn part_two(input: &str) -> (most: Option<u32>)
    requires
        baggages_of(input.spec_bytes()) is Some,
        totals_fit(baggages_of(input.spec_bytes())->0),
    ensures
        is_top_three_sum(most, wide_totals(baggages_of(input.spec_bytes())->0)),
{
    let elf_baggages: Vec<ElfBaggage> = parse_all(input.as_bytes()).unwrap();
    let ghost baggages = views_of(elf_baggages@);
    proof {
        assert forall|i: int| 0 <= i < baggages.len() implies #[trigger] baggages[i]
            == elf_baggages@[i]@ by {}
    }
    let totals = elf_totals(elf_baggages);
    let ghost wide = wide_totals(baggages);
    proof {
        assert forall|i: int| 0 <= i < wide.len() implies #[trigger] wide[i] == totals@[i] by {}
    }
    let mut acc: [u32; 3] = [0u32;3];
    let mut index: usize = 0;
    proof {
        lemma_nothing_seen(seq![acc@[2] as usize, acc@[1] as usize, acc@[0] as usize]);
        assert(wide.take(0) =~= Seq::<usize>::empty());
    }
    while index < totals.len()
        invariant
            index <= totals@.len(),
            wide.len() == totals@.len(),
            forall|i: int| 0 <= i < wide.len() ==> #[trigger] wide[i] == totals@[i],
            acc@.len() == 3,
            is_k_highest(
                seq![acc@[2] as usize, acc@[1] as usize, acc@[0] as usize],
                wide.take(index as int),
            ),
        decreases totals@.len() - index,
    {
        let elf_total = totals[index];
        let ghost before = seq![acc@[2] as usize, acc@[1] as usize, acc@[0] as usize];
        let ghost seen = wide.take(index as int);
        proof {
            assert(wide.take(index + 1) =~= seen.push(elf_total as usize));
            assert(ascending(before));
            assert(before[0] <= before[1] <= before[2]);
        }
        if elf_total > acc[0] {
            let first = acc[0];
            let second = acc[1];
            acc[0] = elf_total;
            acc[1] = first;
            acc[2] = second;
            proof {
                let after = seq![acc@[2] as usize, acc@[1] as usize, acc@[0] as usize];
                assert(after =~= before.subrange(1, 3) + seq![elf_total as usize]
                    + before.subrange(3, 3));
                lemma_absorb(before, seen, elf_total as usize, 2, after);
            }
        } else if elf_total > acc[1] {
            let second = acc[1];
            acc[1] = elf_total;
            acc[2] = second;
            proof {
                let after = seq![acc@[2] as usize, acc@[1] as usize, acc@[0] as usize];
                assert(after =~= before.subrange(1, 2) + seq![elf_total as usize]
                    + before.subrange(2, 3));
                lemma_absorb(before, seen, elf_total as usize, 1, after);
            }
        } else if elf_total > acc[2] {
            acc[2] = elf_total;
            proof {
                let after = seq![acc@[2] as usize, acc@[1] as usize, acc@[0] as usize];
                assert(after =~= before.subrange(1, 1) + seq![elf_total as usize]
                    + before.subrange(1, 3));
                lemma_absorb(before, seen, elf_total as usize, 0, after);
            }
        } else {
            proof {
                lemma_pass_over(before, seen, elf_total as usize);
            }
        }
        index += 1;
    }
    proof {
        assert(wide.take(totals@.len() as int) =~= wide);
    }
    let most = match acc[0].checked_add(acc[1]) {
        Some(two) => two.checked_add(acc[2]),
        None => None,
    };
    proof {
        let top = seq![acc@[2] as usize, acc@[1] as usize, acc@[0] as usize];
        assert(is_k_highest(top, wide));
    }
    most
}

} // verus!
