//! Selection of the greatest items of a sequence.

use vstd::prelude::*;

verus! {

/// How many entries of `s` are at least `floor`.
pub open spec fn count_at_least(s: Seq<usize>, floor: usize) -> nat
    decreases s.len(),
{
    if s.len() == 0 {
        0
    } else {
        count_at_least(s.drop_last(), floor) + if s.last() >= floor {
            1nat
        } else {
            0nat
        }
    }
}

/// Whether the entries of `s` never descend.
pub open spec fn ascending(s: Seq<usize>) -> bool {
    forall|i: int, j: int| 0 <= i < j < s.len() ==> s[i] <= s[j]
}

/// Whether `top` holds the greatest entries of `items`, in ascending order,
/// with zeros in front where `items` has fewer entries than `top`: above any
/// positive floor `top` has as many entries as `items`, as far as it has room.
pub open spec fn is_k_highest(top: Seq<usize>, items: Seq<usize>) -> bool {
    &&& ascending(top)
    &&& forall|floor: usize|
        floor > 0 ==> #[trigger] count_at_least(top, floor) == if count_at_least(items, floor)
            < top.len() {
            count_at_least(items, floor)
        } else {
            top.len()
        }
}

/// Sequences of items from which the greatest can be picked.
pub trait AocIteratorExtensions: Sized {
    /// The items in the order in which they come.
    spec fn items(&self) -> Seq<usize>;

    /// The `K` greatest items in ascending order, with zeros in front where
    /// there are fewer than `K` items.
    fn k_highest<const K: usize>(self) -> (top: [usize; K])
        ensures
            is_k_highest(top@, self.items()),
    ;
}

/// Counting goes through a concatenation.
proof fn lemma_count_add(a: Seq<usize>, b: Seq<usize>, floor: usize)
    ensures
        count_at_least(a + b, floor) == count_at_least(a, floor) + count_at_least(b, floor),
    decreases b.len(),
{
    if b.len() == 0 {
        assert(a + b =~= a);
    } else {
        assert((a + b).drop_last() =~= a + b.drop_last());
        lemma_count_add(a, b.drop_last(), floor);
    }
}

/// A single entry counts if it reaches the floor.
proof fn lemma_count_one(x: usize, floor: usize)
    ensures
        count_at_least(seq![x], floor) == if x >= floor {
            1nat
        } else {
            0nat
        },
{
    assert(seq![x].drop_last() =~= Seq::<usize>::empty());
    assert(count_at_least(seq![x].drop_last(), floor) == 0);
}

/// No more entries count than there are; all count where each reaches the
/// floor.
proof fn lemma_count_bounds(s: Seq<usize>, floor: usize)
    ensures
        count_at_least(s, floor) <= s.len(),
        (forall|i: int| 0 <= i < s.len() ==> s[i] >= floor) ==> count_at_least(s, floor)
            == s.len(),
    decreases s.len(),
{
    if s.len() > 0 {
        lemma_count_bounds(s.drop_last(), floor);
    }
}

/// What taking in an item does to the count: the smallest entry leaves, the
/// item enters.
proof fn lemma_count_exchange(acc: Seq<usize>, taken: Seq<usize>, item: usize, at: int, floor: usize)
    requires
        0 <= at < acc.len(),
        taken == acc.subrange(1, at + 1) + seq![item] + acc.subrange(at + 1, acc.len() as int),
    ensures
        count_at_least(taken, floor) + (if acc[0] >= floor {
            1nat
        } else {
            0nat
        }) == count_at_least(acc, floor) + (if item >= floor {
            1nat
        } else {
            0nat
        }),
{
    let front = acc.subrange(1, at + 1);
    let back = acc.subrange(at + 1, acc.len() as int);
    assert(acc =~= seq![acc[0]] + front + back);
    lemma_count_add(seq![acc[0]] + front, back, floor);
    lemma_count_add(seq![acc[0]], front, floor);
    lemma_count_one(acc[0], floor);
    lemma_count_add(front + seq![item], back, floor);
    lemma_count_add(front, seq![item], floor);
    lemma_count_one(item, floor);
}

/// Taking in an item that is greater than the smallest entry: the smallest
/// entry leaves, the item enters behind the entries that are not greater.
pub proof fn lemma_absorb(
    acc: Seq<usize>,
    items: Seq<usize>,
    item: usize,
    at: int,
    taken: Seq<usize>,
)
    requires
        is_k_highest(acc, items),
        0 <= at < acc.len(),
        acc[0] < item,
        ascending(taken),
        taken == acc.subrange(1, at + 1) + seq![item] + acc.subrange(at + 1, acc.len() as int),
    ensures
        is_k_highest(taken, items.push(item)),
{
    assert(items.push(item).drop_last() =~= items);
    assert forall|floor: usize| floor > 0 implies #[trigger] count_at_least(taken, floor)
        == if count_at_least(items.push(item), floor) < taken.len() {
        count_at_least(items.push(item), floor)
    } else {
        taken.len()
    } by {
        lemma_count_exchange(acc, taken, item, at, floor);
        lemma_count_bounds(acc, floor);
        lemma_count_smallest(acc, floor);
        assert(count_at_least(acc, floor) == if count_at_least(items, floor) < acc.len() {
            count_at_least(items, floor)
        } else {
            acc.len()
        });
    }
}

/// Passing over an item that is not greater than the smallest entry changes
/// nothing.
pub proof fn lemma_pass_over(acc: Seq<usize>, items: Seq<usize>, item: usize)
    requires
        is_k_highest(acc, items),
        acc.len() == 0 || item <= acc[0],
    ensures
        is_k_highest(acc, items.push(item)),
{
    assert(items.push(item).drop_last() =~= items);
    assert forall|floor: usize| floor > 0 implies #[trigger] count_at_least(acc, floor)
        == if count_at_least(items.push(item), floor) < acc.len() {
        count_at_least(items.push(item), floor)
    } else {
        acc.len()
    } by {
        lemma_count_bounds(acc, floor);
        if acc.len() > 0 {
            lemma_count_smallest(acc, floor);
        }
        assert(count_at_least(acc, floor) == if count_at_least(items, floor) < acc.len() {
            count_at_least(items, floor)
        } else {
            acc.len()
        });
    }
}

/// Zeros are the greatest entries of nothing.
pub proof fn lemma_nothing_seen(acc: Seq<usize>)
    requires
        forall|i: int| 0 <= i < acc.len() ==> acc[i] == 0,
    ensures
        is_k_highest(acc, Seq::<usize>::empty()),
{
    assert forall|floor: usize| floor > 0 implies #[trigger] count_at_least(acc, floor) == 0 by {
        lemma_count_zeros(acc, floor);
    }
}

/// `<[T]>::binary_search` on an ascending array: the index of an entry equal
/// to `item`, any of them where there are several, or else the index at which
/// `item` would have to be inserted to keep the order.
#[verifier::external_body]
fn search_ascending<const K: usize>(acc: &[usize; K], item: usize) -> (found: Result<usize, usize>)
    requires
        ascending(acc@),
    ensures
        match found {
            Ok(index) => index < K && acc@[index as int] == item,
            Err(index) => {
                &&& index <= K
                &&& forall|i: int| 0 <= i < index ==> acc@[i] < item
                &&& forall|i: int| index <= i < K ==> item < acc@[i]
            },
        },
{
    acc.binary_search(&item)
}

impl AocIteratorExtensions for Vec<usize> {
    open spec fn items(&self) -> Seq<usize> {
        self@
    }

    fn k_highest<const K: usize>(self) -> (top: [usize; K]) {
        let mut acc = [0usize;K];
        let mut seen: usize = 0;
        proof {
            lemma_nothing_seen(acc@);
            assert(self@.take(0) =~= Seq::<usize>::empty());
        }
        while seen < self.len()
            invariant
                seen <= self@.len(),
                acc@.len() == K,
                is_k_highest(acc@, self@.take(seen as int)),
            decreases self@.len() - seen,
        {
            let item = self[seen];
            let ghost before = acc@;
            proof {
                assert(self@.take(seen + 1) =~= self@.take(seen as int).push(item));
            }
            let maybe_insert_at_index = match search_ascending(&acc, item) {
                Ok(index) => {
                    if acc[0] == item {
                        None
                    } else {
                        Some(index)
                    }
                },
                Err(index) => {
                    if index == 0 {
                        None
                    } else {
                        Some(index - 1)
                    }
                },
            };
            if let Some(insert_at_index) = maybe_insert_at_index {
                let mut i: usize = 0;
                while i < insert_at_index
                    invariant
                        i <= insert_at_index < K,
                        acc@.len() == K,
                        before.len() == K,
                        forall|j: int| 0 <= j < i ==> acc@[j] == before[j + 1],
                        forall|j: int| i <= j < K ==> acc@[j] == before[j],
                    decreases insert_at_index - i,
                {
                    acc[i] = acc[i + 1];
                    i += 1;
                }
                acc[insert_at_index] = item;
                proof {
                    let at = insert_at_index as int;
                    assert(acc@ =~= before.subrange(1, at + 1) + seq![item] + before.subrange(
                        at + 1,
                        K as int,
                    ));
                    lemma_absorb(before, self@.take(seen as int), item, at, acc@);
                }
            } else {
                proof {
                    lemma_pass_over(before, self@.take(seen as int), item);
                }
            }
            seen += 1;
        }
        proof {
            assert(self@.take(self@.len() as int) =~= self@);
        }
        acc
    }
}

/// No entry of a sequence of zeros reaches a positive floor.
proof fn lemma_count_zeros(s: Seq<usize>, floor: usize)
    requires
        floor > 0,
        forall|i: int| 0 <= i < s.len() ==> s[i] == 0,
    ensures
        count_at_least(s, floor) == 0,
    decreases s.len(),
{
    if s.len() > 0 {
        lemma_count_zeros(s.drop_last(), floor);
    }
}

/// In an ascending sequence all entries count where the first one does, and
/// else not all of them.
proof fn lemma_count_smallest(s: Seq<usize>, floor: usize)
    requires
        ascending(s),
        s.len() > 0,
    ensures
        s[0] >= floor ==> count_at_least(s, floor) == s.len(),
        s[0] < floor ==> count_at_least(s, floor) < s.len(),
{
    lemma_count_bounds(s, floor);
    if s[0] < floor {
        assert(s =~= seq![s[0]] + s.subrange(1, s.len() as int));
        lemma_count_add(seq![s[0]], s.subrange(1, s.len() as int), floor);
        lemma_count_one(s[0], floor);
        lemma_count_bounds(s.subrange(1, s.len() as int), floor);
    }
}

} // verus!
