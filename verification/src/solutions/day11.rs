//! Monkey in the middle: monkeys throw items to one another, depending on how
//! worried the owner of the items is about each of them.

use crate::helpers::iter::{is_k_highest, AocIteratorExtensions};
use crate::helpers::parsing::{
    iterate_all, line_end, line_ending_or_eof, parsed_unsigned, parsed_while, tag, text_u8,
    text_unsigned, views_of, word_at, AocLineParsable,
};
use vstd::prelude::*;
use vstd::string::StringSliceAdditionalSpecFns;

verus! {

/// An operand of an operation: the worry level so far, or a number.
#[derive(Clone, Copy, Debug, PartialEq, Eq, Structural)]
pub enum Value {
    Old,
    Primitive(u8),
}

/// What inspecting an item does to the worry level.
#[derive(Clone, Copy, Debug, PartialEq, Eq)]
pub enum Operation {
    Plus((Value, Value)),
    Times((Value, Value)),
}

/// The operand that the input names at offset `from`, and the offset behind
/// it: the word `old`, or a number up to 255.
pub open spec fn value_at(input: Seq<u8>, from: int) -> Option<(Value, int)> {
    match word_at(input, from, seq![111u8, 108u8, 100u8]) {
        Some(to) => Some((Value::Old, to)),
        None => match parsed_unsigned(input, from, 255) {
            Some((number, to)) => Some((Value::Primitive(number as u8), to)),
            None => None,
        },
    }
}

/// The operation that the input names at offset `from`, and the offset behind
/// it: two operands with ` + ` or ` * ` between them.
pub open spec fn operation_at(input: Seq<u8>, from: int) -> Option<(Operation, int)> {
    match value_at(input, from) {
        Some((first, behind_first)) => {
            match word_at(input, behind_first, seq![32u8, 43u8, 32u8]) {
                Some(second_from) => match value_at(input, second_from) {
                    Some((second, to)) => Some((Operation::Plus((first, second)), to)),
                    None => times_at(input, first, behind_first),
                },
                None => times_at(input, first, behind_first),
            }
        },
        None => None,
    }
}

/// The product that the input names behind its first operand.
pub open spec fn times_at(input: Seq<u8>, first: Value, behind_first: int) -> Option<
    (Operation, int),
> {
    match word_at(input, behind_first, seq![32u8, 42u8, 32u8]) {
        Some(second_from) => match value_at(input, second_from) {
            Some((second, to)) => Some((Operation::Times((first, second)), to)),
            None => None,
        },
        None => None,
    }
}

impl Value {
    /// The number that the operand stands for at worry level `old_value`.
    pub open spec fn resolved(self, old_value: int) -> int {
        match self {
            Value::Old => old_value,
            Value::Primitive(val) => val as int,
        }
    }

    /// Reads an operand.
    pub fn parse(input: &[u8], from: usize) -> (read: Option<(Value, usize)>)
        requires
            from <= input@.len(),
        ensures
            match read {
                Some((value, to)) => value_at(input@, from as int) == Some((value, to as int))
                    && from <= to <= input@.len(),
                None => value_at(input@, from as int) is None,
            },
    {
        let word_old: [u8; 3] = [111, 108, 100];
        proof {
            assert(word_old@ =~= seq![111u8, 108u8, 100u8]);
        }
        match tag(input, from, word_old.as_slice()) {
            Some(to) => Some((Value::Old, to)),
            None => match text_u8(input, from) {
                Some((num, to)) => Some((Value::Primitive(num), to)),
                None => None,
            },
        }
    }

    /// The number that the operand stands for at worry level `old_value`.
    pub fn resolve(&self, old_value: usize) -> (number: usize)
        ensures
            number == self.resolved(old_value as int),
    {
        match self {
            Value::Old => old_value,
            Value::Primitive(val) => *val as usize,
        }
    }
}

impl Operation {
    /// The worry level after the inspection of an item at worry level
    /// `old_value`.
    pub open spec fn evaluated(self, old_value: int) -> int {
        match self {
            Operation::Plus((v1, v2)) => v1.resolved(old_value) + v2.resolved(old_value),
            Operation::Times((v1, v2)) => v1.resolved(old_value) * v2.resolved(old_value),
        }
    }

    /// Reads an operation.
    pub fn parse(input: &[u8], from: usize) -> (read: Option<(Operation, usize)>)
        requires
            from <= input@.len(),
        ensures
            match read {
                Some((operation, to)) => operation_at(input@, from as int) == Some(
                    (operation, to as int),
                ) && from <= to <= input@.len(),
                None => operation_at(input@, from as int) is None,
            },
    {
        let word_plus: [u8; 3] = [32, 43, 32];
        let word_times: [u8; 3] = [32, 42, 32];
        proof {
            assert(word_plus@ =~= seq![32u8, 43u8, 32u8]);
            assert(word_times@ =~= seq![32u8, 42u8, 32u8]);
        }
        let (first, behind_first) = match Value::parse(input, from) {
            Some(read) => read,
            None => {
                return None;
            },
        };
        if let Some(second_from) = tag(input, behind_first, word_plus.as_slice()) {
            if let Some((second, to)) = Value::parse(input, second_from) {
                return Some((Operation::Plus((first, second)), to));
            }
        }
        if let Some(second_from) = tag(input, behind_first, word_times.as_slice()) {
            if let Some((second, to)) = Value::parse(input, second_from) {
                return Some((Operation::Times((first, second)), to));
            }
        }
        None
    }

    /// The worry level after the inspection of an item at worry level
    /// `old_value`.
    pub fn evaluate(&self, old_value: usize) -> (worry: usize)
        requires
            self.evaluated(old_value as int) <= usize::MAX,
        ensures
            worry == self.evaluated(old_value as int),
    {
        match self {
            Operation::Plus((v1, v2)) => v1.resolve(old_value) + v2.resolve(old_value),
            Operation::Times((v1, v2)) => {
                proof {
                    assert(0 <= v1.resolved(old_value as int) * v2.resolved(old_value as int))
                        by (nonlinear_arith)
                        requires
                            0 <= v1.resolved(old_value as int),
                            0 <= v2.resolved(old_value as int),
                    ;
                }
                v1.resolve(old_value) * v2.resolve(old_value)
            },
        }
    }

    /// The worry level after the inspection of an item at worry level
    /// `old_value`, or `None` where it is beyond the greatest number.
    pub fn try_evaluate(&self, old_value: usize) -> (worry: Option<usize>)
        ensures
            worry == (if self.evaluated(old_value as int) <= usize::MAX {
                Some(self.evaluated(old_value as int) as usize)
            } else {
                None
            }),
    {
        match self {
            Operation::Plus((v1, v2)) => v1.resolve(old_value).checked_add(v2.resolve(old_value)),
            Operation::Times((v1, v2)) => v1.resolve(old_value).checked_mul(v2.resolve(old_value)),
        }
    }
}

/// A monkey: the worry levels of the items it holds, what its inspection does
/// to a worry level, how it decides where to throw an item, and how many items
/// it has inspected.
#[derive(Clone, Debug)]
pub struct Monkey {
    pub items: Vec<usize>,
    pub operation: Operation,
    pub test_divisibility: u8,
    pub if_true: u8,
    pub if_false: u8,
    pub inspection_count: u32,
}

/// What a monkey holds and knows.
pub struct MonkeyView {
    pub items: Seq<usize>,
    pub operation: Operation,
    pub test_divisibility: u8,
    pub if_true: u8,
    pub if_false: u8,
    pub inspection_count: u32,
}

impl View for Monkey {
    type V = MonkeyView;

    open spec fn view(&self) -> MonkeyView {
        MonkeyView {
            items: self.items@,
            operation: self.operation,
            test_divisibility: self.test_divisibility,
            if_true: self.if_true,
            if_false: self.if_false,
            inspection_count: self.inspection_count,
        }
    }
}

/// The numbers that follow at offset `from`, each behind a comma and a blank,
/// and the offset behind the last of them.
pub open spec fn more_items_at(input: Seq<u8>, from: int) -> (Seq<usize>, int)
    decreases input.len() - from,
{
    match word_at(input, from, ", ".spec_bytes()) {
        Some(number_from) => match parsed_unsigned(input, number_from, usize::MAX as nat) {
            Some((number, to)) => if from < to <= input.len() {
                (
                    seq![number as usize] + more_items_at(input, to).0,
                    more_items_at(input, to).1,
                )
            } else {
                (Seq::empty(), from)
            },
            None => (Seq::empty(), from),
        },
        None => (Seq::empty(), from),
    }
}

/// The numbers listed at offset `from`, one at least, with a comma and a blank
/// between two of them, and the offset behind the list.
pub open spec fn items_at(input: Seq<u8>, from: int) -> Option<(Seq<usize>, int)> {
    match parsed_unsigned(input, from, usize::MAX as nat) {
        Some((number, to)) => Some(
            (seq![number as usize] + more_items_at(input, to).0, more_items_at(input, to).1),
        ),
        None => None,
    }
}

/// Reads a list of numbers.
fn parse_items(input: &[u8], from: usize) -> (read: Option<(Vec<usize>, usize)>)
    requires
        from <= input@.len(),
    ensures
        match read {
            Some((items, to)) => items_at(input@, from as int) == Some((items@, to as int))
                && from <= to <= input@.len(),
            None => items_at(input@, from as int) is None,
        },
{
    let (first, behind_first) = match text_unsigned(input, from, usize::MAX as u64) {
        Some(read) => read,
        None => {
            return None;
        },
    };
    let mut items: Vec<usize> = Vec::new();
    items.push(first as usize);
    let mut to = behind_first;
    loop
        invariant
            from <= to <= input@.len(),
            items_at(input@, from as int) == Some(
                (items@ + more_items_at(input@, to as int).0, more_items_at(input@, to as int).1),
            ),
        ensures
            items_at(input@, from as int) == Some((items@, to as int)),
            from <= to <= input@.len(),
        decreases input@.len() - to,
    {
        let number_from = match tag(input, to, ", ".as_bytes()) {
            Some(number_from) => number_from,
            None => {
                proof {
                    assert(items@ + Seq::<usize>::empty() =~= items@);
                }
                break ;
            },
        };
        match text_unsigned(input, number_from, usize::MAX as u64) {
            Some((number, behind)) => {
                proof {
                    assert(items@ + (seq![number as usize] + more_items_at(input@, behind as int).0)
                        =~= items@.push(number as usize) + more_items_at(input@, behind as int).0);
                }
                items.push(number as usize);
                to = behind;
            },
            None => {
                proof {
                    assert(items@ + Seq::<usize>::empty() =~= items@);
                }
                break ;
            },
        }
    }
    Some((items, to))
}

/// The monkey that the input describes at offset `from`, and the offset behind
/// the description.
pub open spec fn monkey_at(input: Seq<u8>, from: int) -> Option<(MonkeyView, int)> {
    match word_at(input, from, "Monkey ".spec_bytes()) {
        Some(a) => match parsed_unsigned(input, a, 255) {
            Some((number, b)) => match word_at(input, b, ":\n  Starting items: ".spec_bytes()) {
                Some(c) => match items_at(input, c) {
                    Some((items, d)) => match word_at(
                        input,
                        d,
                        "\n  Operation: new = ".spec_bytes(),
                    ) {
                        Some(e) => match operation_at(input, e) {
                            Some((operation, f)) => monkey_rules_at(input, f, items, operation),
                            None => None,
                        },
                        None => None,
                    },
                    None => None,
                },
                None => None,
            },
            None => None,
        },
        None => None,
    }
}

/// The monkey with the given items and operation whose rules the input
/// describes at offset `from`.
pub open spec fn monkey_rules_at(
    input: Seq<u8>,
    from: int,
    items: Seq<usize>,
    operation: Operation,
) -> Option<(MonkeyView, int)> {
    match word_at(input, from, "\n  Test: divisible by ".spec_bytes()) {
        Some(a) => match parsed_unsigned(input, a, 255) {
            Some((test, b)) => match word_at(
                input,
                b,
                "\n    If true: throw to monkey ".spec_bytes(),
            ) {
                Some(c) => match parsed_unsigned(input, c, 255) {
                    Some((if_true, d)) => match word_at(
                        input,
                        d,
                        "\n    If false: throw to monkey ".spec_bytes(),
                    ) {
                        Some(e) => match parsed_unsigned(input, e, 255) {
                            Some((if_false, f)) => match line_end(input, f) {
                                Some(to) => Some(
                                    (
                                        MonkeyView {
                                            items: items,
                                            operation: operation,
                                            test_divisibility: test as u8,
                                            if_true: if_true as u8,
                                            if_false: if_false as u8,
                                            inspection_count: 0,
                                        },
                                        to,
                                    ),
                                ),
                                None => None,
                            },
                            None => None,
                        },
                        None => None,
                    },
                    None => None,
                },
                None => None,
            },
            None => None,
        },
        None => None,
    }
}

impl AocLineParsable for Monkey {
    open spec fn parsed_line(input: Seq<u8>, from: int) -> Option<(MonkeyView, int)> {
        monkey_at(input, from)
    }

    fn parse_from_line(input: &[u8], from: usize) -> (read: Option<(Self, usize)>) {
        let a = match tag(input, from, "Monkey ".as_bytes()) {
            Some(to) => to,
            None => {
                return None;
            },
        };
        let (_number, b) = match text_u8(input, a) {
            Some(read) => read,
            None => {
                return None;
            },
        };
        let c = match tag(input, b, ":\n  Starting items: ".as_bytes()) {
            Some(to) => to,
            None => {
                return None;
            },
        };
        let (starting_items, d) = match parse_items(input, c) {
            Some(read) => read,
            None => {
                return None;
            },
        };
        let e = match tag(input, d, "\n  Operation: new = ".as_bytes()) {
            Some(to) => to,
            None => {
                return None;
            },
        };
        let (operation, f) = match Operation::parse(input, e) {
            Some(read) => read,
            None => {
                return None;
            },
        };
        let g = match tag(input, f, "\n  Test: divisible by ".as_bytes()) {
            Some(to) => to,
            None => {
                return None;
            },
        };
        let (test, h) = match text_u8(input, g) {
            Some(read) => read,
            None => {
                return None;
            },
        };
        let i = match tag(input, h, "\n    If true: throw to monkey ".as_bytes()) {
            Some(to) => to,
            None => {
                return None;
            },
        };
        let (t, j) = match text_u8(input, i) {
            Some(read) => read,
            None => {
                return None;
            },
        };
        let k = match tag(input, j, "\n    If false: throw to monkey ".as_bytes()) {
            Some(to) => to,
            None => {
                return None;
            },
        };
        let (f_monkey, l) = match text_u8(input, k) {
            Some(read) => read,
            None => {
                return None;
            },
        };
        let to = match line_ending_or_eof(input, l) {
            Some(to) => to,
            None => {
                return None;
            },
        };
        Some(
            (
                Monkey {
                    items: starting_items,
                    operation,
                    test_divisibility: test,
                    if_true: t,
                    if_false: f_monkey,
                    inspection_count: 0,
                },
                to,
            ),
        )
    }
}

/// Whether `multiple` is the least positive number that both `a` and `b`
/// divide.
pub open spec fn is_lcm(multiple: int, a: int, b: int) -> bool {
    &&& multiple > 0
    &&& multiple % a == 0
    &&& multiple % b == 0
    &&& forall|other: int|
        0 < other && #[trigger] (other % a) == 0 && other % b == 0 ==> multiple <= other
}

/// The least common multiple of two positive numbers.
pub open spec fn lcm_of(a: int, b: int) -> int {
    choose|multiple: int| is_lcm(multiple, a, b)
}

/// `num::integer::lcm`: the least common multiple of two positive numbers.
#[verifier::external_body]
fn lcm(a: u64, b: u64) -> (multiple: u64)
    requires
        a > 0,
        b > 0,
        a * b <= u64::MAX,
    ensures
        is_lcm(multiple as int, a as int, b as int),
{
    num::integer::lcm(a, b)
}

/// The least common multiple of the divisors by which the first `count`
/// monkeys test; one for no monkey.
pub open spec fn common_multiple(monkeys: Seq<MonkeyView>, count: nat) -> int
    decreases count,
{
    if count == 0 {
        1
    } else if count == 1 {
        monkeys[0].test_divisibility as int
    } else {
        lcm_of(common_multiple(monkeys, (count - 1) as nat), monkeys[count - 1].test_divisibility as int)
    }
}

/// Whether every monkey tests by a positive divisor, and the least common
/// multiple of the divisors of the first monkeys fits into `u32`, for any
/// number of them up to `count`.
pub open spec fn divisors_fit(monkeys: Seq<MonkeyView>, count: nat) -> bool
    decreases count,
{
    if count == 0 {
        true
    } else {
        &&& divisors_fit(monkeys, (count - 1) as nat)
        &&& monkeys[count - 1].test_divisibility > 0
        &&& 0 < common_multiple(monkeys, count) <= u32::MAX
    }
}

/// The monkeys together, with the least common multiple of their divisors,
/// which bounds the worry levels.
#[derive(Debug)]
pub struct MonkeyGaggle {
    pub monkeys: Vec<Monkey>,
    pub lcm: u32,
}

/// What the monkeys hold and know, one after the other.
pub open spec fn monkeys_of(monkeys: Seq<Monkey>) -> Seq<MonkeyView> {
    Seq::new(monkeys.len(), |i: int| monkeys[i]@)
}

/// The worry level of an item after monkey `me` has inspected it, given the
/// relief `factor` and the bound `bound`; nothing where the inspection
/// leads beyond the greatest number.
pub open spec fn worry_of(me: MonkeyView, item: usize, factor: int, bound: int) -> Option<usize> {
    if me.operation.evaluated(item as int) <= usize::MAX {
        Some(((me.operation.evaluated(item as int) / factor) % bound) as usize)
    } else {
        None
    }
}

/// The monkey to which monkey `me` throws an item of worry level `worry`.
pub open spec fn receiver_of(me: MonkeyView, worry: usize) -> int {
    if worry % (me.test_divisibility as usize) == 0 {
        me.if_true as int
    } else {
        me.if_false as int
    }
}

/// Whether monkey `id` can deal with its first `count` items: each
/// inspection stays within the numbers, and each item goes to another monkey
/// that exists.
pub open spec fn can_throw(
    monkeys: Seq<MonkeyView>,
    id: int,
    count: int,
    factor: int,
    bound: int,
) -> bool {
    forall|i: int|
        0 <= i < count ==> {
            let worry = #[trigger] worry_of(monkeys[id], monkeys[id].items[i], factor, bound);
            &&& worry is Some
            &&& 0 <= receiver_of(monkeys[id], worry->0) < monkeys.len()
            &&& receiver_of(monkeys[id], worry->0) != id
        }
}

/// The worry levels of those of the first `count` items of monkey `me` that
/// it throws to monkey `to`, in the order in which it throws them.
pub open spec fn thrown_to(me: MonkeyView, count: int, to: int, factor: int, bound: int) -> Seq<
    usize,
>
    decreases count,
{
    if count <= 0 {
        Seq::empty()
    } else {
        let before = thrown_to(me, count - 1, to, factor, bound);
        let worry = worry_of(me, me.items[count - 1], factor, bound)->0;
        if receiver_of(me, worry) == to {
            before.push(worry)
        } else {
            before
        }
    }
}

/// Whether monkey `id` can take its turn.
pub open spec fn can_take_turn(monkeys: Seq<MonkeyView>, id: int, factor: int, bound: int) -> bool {
    &&& 0 <= id < monkeys.len()
    &&& factor > 0
    &&& bound > 0
    &&& monkeys[id].test_divisibility > 0
    &&& monkeys[id].inspection_count + monkeys[id].items.len() <= u32::MAX
    &&& can_throw(monkeys, id, monkeys[id].items.len() as int, factor, bound)
}

/// The monkeys after monkey `id` has taken its turn: it has inspected and
/// thrown all its items, and the others have received them behind the items
/// they held.
pub open spec fn after_turn(monkeys: Seq<MonkeyView>, id: int, factor: int, bound: int) -> Seq<
    MonkeyView,
> {
    Seq::new(
        monkeys.len(),
        |j: int|
            if j == id {
                MonkeyView {
                    items: Seq::empty(),
                    inspection_count: (monkeys[id].inspection_count + monkeys[id].items.len()) as u32,
                    ..monkeys[id]
                }
            } else {
                MonkeyView {
                    items: monkeys[j].items + thrown_to(
                        monkeys[id],
                        monkeys[id].items.len() as int,
                        j,
                        factor,
                        bound,
                    ),
                    ..monkeys[j]
                }
            },
    )
}

/// The monkeys after the first `count` of them have taken their turns, one
/// after the other. Nothing where one of them cannot take its turn.
pub open spec fn after_turns(monkeys: Seq<MonkeyView>, count: nat, factor: int, bound: int) -> Option<
    Seq<MonkeyView>,
>
    decreases count,
{
    if count == 0 {
        Some(monkeys)
    } else {
        match after_turns(monkeys, (count - 1) as nat, factor, bound) {
            Some(before) => if can_take_turn(before, count - 1, factor, bound) {
                Some(after_turn(before, count - 1, factor, bound))
            } else {
                None
            },
            None => None,
        }
    }
}

/// The monkeys after `rounds` rounds, in each of which every monkey takes its
/// turn.
pub open spec fn after_rounds(monkeys: Seq<MonkeyView>, rounds: nat, factor: int, bound: int) -> Option<
    Seq<MonkeyView>,
>
    decreases rounds,
{
    if rounds == 0 {
        Some(monkeys)
    } else {
        match after_rounds(monkeys, (rounds - 1) as nat, factor, bound) {
            Some(before) => after_turns(before, before.len(), factor, bound),
            None => None,
        }
    }
}

/// Two numbers that are both the least common multiple are the same.
proof fn lemma_lcm_unique(multiple: int, a: int, b: int)
    requires
        is_lcm(multiple, a, b),
    ensures
        lcm_of(a, b) == multiple,
{
    let chosen = lcm_of(a, b);
    assert(is_lcm(chosen, a, b));
    assert(chosen % a == 0);
    assert(multiple % a == 0);
}

impl MonkeyGaggle {
    /// The monkeys and the bound on their worry levels.
    pub open spec fn wf(&self) -> bool {
        &&& self.monkeys@.len() > 0
        &&& self.monkeys@.len() <= u8::MAX + 1
        &&& self.lcm > 0
    }

    /// Brings the monkeys together. `None` where there is no monkey, where a
    /// monkey tests by zero, or where the least common multiple of the
    /// divisors is beyond `u32`.
    pub fn new(monkeys: Vec<Monkey>) -> (gaggle: Option<MonkeyGaggle>)
        ensures
            gaggle is Some <==> 0 < monkeys@.len() <= u8::MAX + 1 && divisors_fit(
                monkeys_of(monkeys@),
                monkeys@.len(),
            ),
            gaggle is Some ==> {
                &&& gaggle->0.wf()
                &&& gaggle->0.monkeys@ == monkeys@
                &&& gaggle->0.lcm == common_multiple(monkeys_of(monkeys@), monkeys@.len())
            },
    {
        if monkeys.len() == 0 || monkeys.len() > 256 {
            return None;
        }
        let ghost views = monkeys_of(monkeys@);
        let mut multiple: u32 = monkeys[0].test_divisibility as u32;
        if multiple == 0 {
            proof {
                lemma_divisors_fit_onward(views, 1, monkeys@.len());
            }
            return None;
        }
        let mut index: usize = 1;
        proof {
            assert(views[0].test_divisibility == multiple);
            assert(divisors_fit(views, 0));
            assert(common_multiple(views, 1) == multiple);
            assert(divisors_fit(views, 1));
        }
        while index < monkeys.len()
            invariant
                1 <= index <= monkeys@.len(),
                views == monkeys_of(monkeys@),
                divisors_fit(views, index as nat),
                multiple == common_multiple(views, index as nat),
                multiple > 0,
            decreases monkeys@.len() - index,
        {
            let divisor = monkeys[index].test_divisibility;
            proof {
                assert(views[index as int].test_divisibility == divisor);
            }
            if divisor == 0 {
                proof {
                    lemma_divisors_fit_onward(views, (index + 1) as nat, monkeys@.len());
                }
                return None;
            }
            proof {
                assert(multiple * divisor <= u64::MAX) by (nonlinear_arith)
                    requires
                        multiple <= u32::MAX,
                        divisor <= u8::MAX,
                ;
            }
            let next = lcm(multiple as u64, divisor as u64);
            proof {
                lemma_lcm_unique(next as int, multiple as int, divisor as int);
            }
            if next > u32::MAX as u64 {
                proof {
                    lemma_divisors_fit_onward(views, (index + 1) as nat, monkeys@.len());
                }
                return None;
            }
            multiple = next as u32;
            index += 1;
        }
        Some(MonkeyGaggle { monkeys, lcm: multiple })
    }
}

/// Once the divisors do not fit for some monkeys, they do not fit for more.
proof fn lemma_divisors_fit_onward(monkeys: Seq<MonkeyView>, failed: nat, count: nat)
    requires
        failed <= count,
        !divisors_fit(monkeys, failed),
    ensures
        !divisors_fit(monkeys, count),
    decreases count,
{
    if count > failed {
        lemma_divisors_fit_onward(monkeys, failed, (count - 1) as nat);
    }
}

impl MonkeyGaggle {
    /// What the monkeys hold and know.
    pub open spec fn views(&self) -> Seq<MonkeyView> {
        monkeys_of(self.monkeys@)
    }

    /// Whether monkey `monkey_id` can take its turn.
    pub fn check_turn(&self, monkey_id: usize, worry_reduction_factor: u8) -> (possible: bool)
        requires
            self.wf(),
        ensures
            possible == can_take_turn(
                self.views(),
                monkey_id as int,
                worry_reduction_factor as int,
                self.lcm as int,
            ),
    {
        if monkey_id >= self.monkeys.len() || worry_reduction_factor == 0 {
            return false;
        }
        let me = &self.monkeys[monkey_id];
        let ghost view = self.views()[monkey_id as int];
        let ghost factor = worry_reduction_factor as int;
        let ghost bound = self.lcm as int;
        if me.test_divisibility == 0 {
            return false;
        }
        if me.items.len() > (u32::MAX - me.inspection_count) as usize {
            return false;
        }
        let mut index: usize = 0;
        while index < me.items.len()
            invariant
                index <= me.items@.len(),
                self.wf(),
                monkey_id < self.monkeys@.len(),
                me == &self.monkeys@[monkey_id as int],
                view == self.views()[monkey_id as int],
                factor == worry_reduction_factor,
                factor > 0,
                bound == self.lcm,
                me.test_divisibility > 0,
                can_throw(self.views(), monkey_id as int, index as int, factor, bound),
            decreases me.items@.len() - index,
        {
            let item = me.items[index];
            proof {
                assert(view.items[index as int] == item);
            }
            let worry = match me.operation.try_evaluate(item) {
                Some(inspected) => (inspected / worry_reduction_factor as usize) % self.lcm as usize,
                None => {
                    proof {
                        assert(worry_of(view, view.items[index as int], factor, bound) is None);
                    }
                    return false;
                },
            };
            let toss_to = if worry % me.test_divisibility as usize == 0 {
                me.if_true
            } else {
                me.if_false
            };
            proof {
                assert(worry_of(view, view.items[index as int], factor, bound) == Some(worry));
                assert(receiver_of(view, worry) == toss_to);
            }
            if toss_to as usize >= self.monkeys.len() || toss_to as usize == monkey_id {
                return false;
            }
            index += 1;
        }
        true
    }

    /// Lets monkey `monkey_id` inspect and throw all its items.
    pub fn take_turn(&mut self, monkey_id: usize, worry_reduction_factor: u8)
        requires
            old(self).wf(),
            can_take_turn(
                old(self).views(),
                monkey_id as int,
                worry_reduction_factor as int,
                old(self).lcm as int,
            ),
        ensures
            final(self).wf(),
            final(self).lcm == old(self).lcm,
            final(self).monkeys@.len() == old(self).monkeys@.len(),
            final(self).views() == after_turn(
                old(self).views(),
                monkey_id as int,
                worry_reduction_factor as int,
                old(self).lcm as int,
            ),
    {
        let ghost start = self.views();
        let ghost me = start[monkey_id as int];
        let ghost factor = worry_reduction_factor as int;
        let ghost bound = self.lcm as int;
        let count = self.monkeys[monkey_id].items.len();
        let operation = self.monkeys[monkey_id].operation;
        let test = self.monkeys[monkey_id].test_divisibility;
        let if_true = self.monkeys[monkey_id].if_true;
        let if_false = self.monkeys[monkey_id].if_false;
        let mut index: usize = 0;
        while index < count
            invariant
                index <= count,
                count == me.items.len(),
                monkey_id < self.monkeys@.len(),
                self.monkeys@.len() == start.len(),
                self.lcm == old(self).lcm,
                self.wf(),
                start == old(self).views(),
                me == start[monkey_id as int],
                me.operation == operation,
                me.test_divisibility == test,
                me.if_true == if_true,
                me.if_false == if_false,
                test > 0,
                factor == worry_reduction_factor,
                factor > 0,
                bound == self.lcm,
                can_throw(start, monkey_id as int, count as int, factor, bound),
                self.monkeys@[monkey_id as int] == old(self).monkeys@[monkey_id as int],
                forall|j: int|
                    0 <= j < start.len() && j != monkey_id ==> {
                        &&& (#[trigger] self.monkeys@[j]).items@ == start[j].items + thrown_to(
                            me,
                            index as int,
                            j,
                            factor,
                            bound,
                        )
                        &&& self.monkeys@[j].operation == start[j].operation
                        &&& self.monkeys@[j].test_divisibility == start[j].test_divisibility
                        &&& self.monkeys@[j].if_true == start[j].if_true
                        &&& self.monkeys@[j].if_false == start[j].if_false
                        &&& self.monkeys@[j].inspection_count == start[j].inspection_count
                    },
            decreases count - index,
        {
            let item = self.monkeys[monkey_id].items[index];
            proof {
                assert(me.items[index as int] == item);
                assert(worry_of(me, me.items[index as int], factor, bound) is Some);
            }
            let new_item_value = (operation.evaluate(item) / worry_reduction_factor as usize)
                % self.lcm as usize;
            let toss_to = if new_item_value % test as usize == 0 {
                if_true
            } else {
                if_false
            };
            proof {
                assert(worry_of(me, me.items[index as int], factor, bound) == Some(new_item_value));
                assert(receiver_of(me, new_item_value) == toss_to);
            }
            let ghost before = self.monkeys@;
            self.monkeys[toss_to as usize].items.push(new_item_value);
            index += 1;
            proof {
                assert forall|j: int| 0 <= j < start.len() && j != monkey_id implies (
                #[trigger] self.monkeys@[j]).items@ == start[j].items + thrown_to(
                    me,
                    index as int,
                    j,
                    factor,
                    bound,
                ) by {
                    if j == toss_to {
                        assert(self.monkeys@[j].items@ =~= start[j].items + thrown_to(
                            me,
                            index as int,
                            j,
                            factor,
                            bound,
                        ));
                    } else {
                        assert(self.monkeys@[j] == before[j]);
                    }
                }
            }
        }
        self.monkeys[monkey_id].inspection_count = self.monkeys[monkey_id].inspection_count
            + count as u32;
        self.monkeys[monkey_id].items.clear();
        proof {
            let target = after_turn(start, monkey_id as int, factor, bound);
            assert forall|j: int| 0 <= j < target.len() implies #[trigger] self.views()[j]
                == target[j] by {
                if j == monkey_id {
                    assert(self.views()[j].items =~= Seq::<usize>::empty());
                } else {
                    assert(self.views()[j].items == self.monkeys@[j].items@);
                }
            }
            assert(self.views() =~= target);
        }
    }

    /// Lets every monkey take its turn, one after the other. Stops and returns
    /// `false` where a monkey cannot take its turn.
    pub fn simulate_round(&mut self, worry_reduction_factor: u8) -> (done: bool)
        requires
            old(self).wf(),
        ensures
            final(self).wf(),
            final(self).lcm == old(self).lcm,
            final(self).monkeys@.len() == old(self).monkeys@.len(),
            match after_turns(
                old(self).views(),
                old(self).monkeys@.len(),
                worry_reduction_factor as int,
                old(self).lcm as int,
            ) {
                Some(after) => done && final(self).views() == after,
                None => !done,
            },
    {
        let ghost start = self.views();
        let ghost factor = worry_reduction_factor as int;
        let ghost bound = self.lcm as int;
        let count = self.monkeys.len();
        let mut i: usize = 0;
        while i < count
            invariant
                i <= count,
                count == start.len(),
                self.monkeys@.len() == count,
                self.wf(),
                self.lcm == old(self).lcm,
                start == old(self).views(),
                factor == worry_reduction_factor,
                bound == self.lcm,
                after_turns(start, i as nat, factor, bound) == Some(self.views()),
            decreases count - i,
        {
            if !self.check_turn(i, worry_reduction_factor) {
                proof {
                    assert(after_turns(start, (i + 1) as nat, factor, bound) is None);
                    lemma_later_turns(start, i as nat, count as nat, factor, bound);
                }
                return false;
            }
            self.take_turn(i, worry_reduction_factor);
            i += 1;
        }
        true
    }
}

/// Once a monkey cannot take its turn, the round stays undone.
proof fn lemma_later_turns(
    monkeys: Seq<MonkeyView>,
    failed: nat,
    count: nat,
    factor: int,
    bound: int,
)
    requires
        failed < count,
        after_turns(monkeys, failed + 1, factor, bound) is None,
    ensures
        after_turns(monkeys, count, factor, bound) is None,
    decreases count,
{
    if count > failed + 1 {
        lemma_later_turns(monkeys, failed, (count - 1) as nat, factor, bound);
    }
}

/// How many items each monkey has inspected.
pub open spec fn counts_of(monkeys: Seq<MonkeyView>) -> Seq<usize> {
    Seq::new(monkeys.len(), |i: int| monkeys[i].inspection_count as usize)
}

/// Whether `product` is the product of the two greatest inspection counts.
pub open spec fn is_business(product: int, monkeys: Seq<MonkeyView>) -> bool {
    exists|top: Seq<usize>|
        {
            &&& top.len() == 2
            &&& #[trigger] is_k_highest(top, counts_of(monkeys))
            &&& product == top[0] * top[1]
        }
}

/// The monkeys that the input describes, up to the first place that describes
/// none.
pub open spec fn monkeys_at_start(input: Seq<u8>) -> Seq<MonkeyView> {
    parsed_while::<Monkey>(input, 0)
}

/// The monkeys of the input after `rounds` rounds with relief `factor`.
/// Nothing where the input describes no gaggle, or where some monkey cannot
/// take a turn.
pub open spec fn monkeys_after(input: Seq<u8>, rounds: nat, factor: int) -> Option<
    Seq<MonkeyView>,
> {
    let start = monkeys_at_start(input);
    if 0 < start.len() <= u8::MAX + 1 && divisors_fit(start, start.len()) {
        after_rounds(start, rounds, factor, common_multiple(start, start.len()))
    } else {
        None
    }
}

/// Whether `product` is what the monkeys of the input get up to in `rounds`
/// rounds; `None` stands for nothing to tell, or for a product beyond `bound`.
pub open spec fn is_monkey_business(
    product: Option<int>,
    input: Seq<u8>,
    rounds: nat,
    factor: int,
    bound: int,
) -> bool {
    match monkeys_after(input, rounds, factor) {
        Some(end) => match product {
            Some(product) => is_business(product, end) && product <= bound,
            None => exists|beyond: int|
                {
                    &&& #[trigger] is_business(beyond, end)
                    &&& beyond > bound
                },
        },
        None => product is None,
    }
}

/// Once a round cannot be finished, the rounds stay undone.
proof fn lemma_later_monkey_rounds(
    monkeys: Seq<MonkeyView>,
    failed: nat,
    rounds: nat,
    factor: int,
    bound: int,
)
    requires
        failed < rounds,
        after_rounds(monkeys, failed + 1, factor, bound) is None,
    ensures
        after_rounds(monkeys, rounds, factor, bound) is None,
    decreases rounds,
{
    if rounds > failed + 1 {
        lemma_later_monkey_rounds(monkeys, failed, (rounds - 1) as nat, factor, bound);
    }
}

/// Reads the monkeys, lets them play `rounds` rounds with relief
/// `worry_reduction_factor`, and multiplies the two greatest inspection
/// counts.
pub fn monkey_business(input: &[u8], rounds: usize, worry_reduction_factor: u8) -> (product:
    Option<usize>)
    ensures
        is_monkey_business(
            match product {
                Some(product) => Some(product as int),
                None => None,
            },
            input@,
            rounds as nat,
            worry_reduction_factor as int,
            usize::MAX as int,
        ),
{
    let monkeys: Vec<Monkey> = iterate_all(input);
    let ghost start = monkeys_at_start(input@);
    proof {
        assert(monkeys_of(monkeys@) =~= views_of(monkeys@));
    }
    let mut gaggle = match MonkeyGaggle::new(monkeys) {
        Some(gaggle) => gaggle,
        None => {
            return None;
        },
    };
    let ghost factor = worry_reduction_factor as int;
    let ghost bound = gaggle.lcm as int;
    let mut round: usize = 0;
    while round < rounds
        invariant
            round <= rounds,
            gaggle.wf(),
            factor == worry_reduction_factor,
            bound == gaggle.lcm,
            start == monkeys_at_start(input@),
            0 < start.len() <= u8::MAX + 1,
            divisors_fit(start, start.len()),
            bound == common_multiple(start, start.len()),
            gaggle.monkeys@.len() == start.len(),
            after_rounds(start, round as nat, factor, bound) == Some(gaggle.views()),
        decreases rounds - round,
    {
        if !gaggle.simulate_round(worry_reduction_factor) {
            proof {
                assert(after_rounds(start, (round + 1) as nat, factor, bound) is None);
                lemma_later_monkey_rounds(start, round as nat, rounds as nat, factor, bound);
            }
            return None;
        }
        round += 1;
    }
    let mut counts: Vec<usize> = Vec::new();
    let mut index: usize = 0;
    while index < gaggle.monkeys.len()
        invariant
            index <= gaggle.monkeys@.len(),
            counts@.len() == index,
            forall|i: int|
                0 <= i < index ==> #[trigger] counts@[i] == gaggle.monkeys@[i].inspection_count,
        decreases gaggle.monkeys@.len() - index,
    {
        counts.push(gaggle.monkeys[index].inspection_count as usize);
        index += 1;
    }
    proof {
        assert(counts@ =~= counts_of(gaggle.views()));
    }
    let highest2 = counts.k_highest::<2>();
    let product = highest2[0].checked_mul(highest2[1]);
    proof {
        assert(after_rounds(start, rounds as nat, factor, bound) == Some(gaggle.views()));
        assert(monkeys_after(input@, rounds as nat, factor) == Some(gaggle.views()));
        assert(highest2@.len() == 2);
        assert(is_k_highest(highest2@, counts_of(gaggle.views())));
        match product {
            Some(product) => {
                assert(is_business(product as int, gaggle.views()));
                assert(is_monkey_business(
                    Some(product as int),
                    input@,
                    rounds as nat,
                    factor,
                    usize::MAX as int,
                ));
            },
            None => {
                let beyond = highest2@[0] * highest2@[1];
                assert(is_business(beyond, gaggle.views()));
                assert(beyond > usize::MAX);
                let end = monkeys_after(input@, rounds as nat, factor)->0;
                assert(end == gaggle.views());
                assert(is_business(beyond, end) && beyond > usize::MAX as int);
                assert(exists|other: int|
                    {
                        &&& #[trigger] is_business(other, end)
                        &&& other > usize::MAX as int
                    });
                assert(is_monkey_business(
                    None,
                    input@,
                    rounds as nat,
                    factor,
                    usize::MAX as int,
                ));
            },
        }
    }
    product
}

/// What the monkeys get up to in twenty rounds, with relief after each
/// inspection.
pub fn part_one(input: &str) -> (product: Option<u32>)
    ensures
        is_monkey_business(
            match product {
                Some(product) => Some(product as int),
                None => None,
            },
            input.spec_bytes(),
            20,
            3,
            u32::MAX as int,
        ),
{
    match monkey_business(input.as_bytes(), 20, 3) {
        Some(product) => {
            if product > u32::MAX as usize {
                proof {
                    let end = monkeys_after(input.spec_bytes(), 20, 3)->0;
                    assert(is_business(product as int, end));
                }
                None
            } else {
                Some(product as u32)
            }
        },
        None => {
            proof {
                match monkeys_after(input.spec_bytes(), 20, 3) {
                    Some(end) => {
                        let beyond = choose|beyond: int|
                            {
                                &&& #[trigger] is_business(beyond, end)
                                &&& beyond > usize::MAX
                            };
                        assert(is_business(beyond, end) && beyond > u32::MAX);
                    },
                    None => {},
                }
            }
            None
        },
    }
}

/// What the monkeys get up to in ten thousand rounds without relief.
pub fn part_two(input: &str) -> (product: Option<usize>)
    ensures
        is_monkey_business(
            match product {
                Some(product) => Some(product as int),
                None => None,
            },
            input.spec_bytes(),
            10000,
            1,
            usize::MAX as int,
        ),
{
    monkey_business(input.as_bytes(), 10000, 1)
}

} // verus!
