//! Tuning trouble: where the first start marker of a signal ends.
//!
//! A start marker is a run of a fixed number of bytes that are all different.
//! The first byte of the signal never counts towards a marker.

use bit_set::BitSet;
use std::collections::VecDeque;
use vstd::prelude::*;
use vstd::string::StringSliceAdditionalSpecFns;

verus! {

/// A set of small numbers, held as a `BitSet` of `bit_set`.
#[verifier::external_body]
pub struct ByteSet {
    inner: BitSet,
}

/// The numbers that a set holds.
pub uninterp spec fn members_of(set: ByteSet) -> Set<usize>;

impl ByteSet {
    /// `BitSet::with_capacity`: a set without members.
    #[verifier::external_body]
    fn with_capacity(nbits: usize) -> (set: ByteSet)
        requires
            nbits <= 256,
        ensures
            members_of(set) == Set::<usize>::empty(),
    {
        ByteSet { inner: BitSet::with_capacity(nbits) }
    }

    /// `BitSet::insert`: adds `value` to the set and tells whether it was not
    /// a member before.
    #[verifier::external_body]
    fn insert(&mut self, value: usize) -> (fresh: bool)
        requires
            value < 256,
        ensures
            fresh == !members_of(*old(self)).contains(value),
            members_of(*final(self)) == members_of(*old(self)).insert(value),
    {
        self.inner.insert(value)
    }
}

/// Whether all entries of `bytes` differ from one another.
pub open spec fn distinct(bytes: Seq<u8>) -> bool {
    forall|i: int, j: int| 0 <= i < j < bytes.len() ==> bytes[i] != bytes[j]
}

/// Whether a start marker of `size` bytes ends with the byte at offset `last`.
pub open spec fn marker_at(input: Seq<u8>, size: int, last: int) -> bool {
    &&& size <= last < input.len()
    &&& distinct(input.subrange(last - size + 1, last + 1))
}

/// Whether the first start marker of `size` bytes ends with the byte at offset
/// `last`.
pub open spec fn first_marker_at(input: Seq<u8>, size: int, last: int) -> bool {
    &&& marker_at(input, size, last)
    &&& forall|earlier: int| 0 <= earlier < last ==> !marker_at(input, size, earlier)
}

/// Whether the signal holds a start marker of `size` bytes.
pub open spec fn has_marker(input: Seq<u8>, size: int) -> bool {
    exists|last: int| marker_at(input, size, last)
}

/// A reader that moves along a signal and keeps the last bytes it has passed,
/// `MARKER_SIZE` of them at most.
pub struct StartMarkerIndexIterator<'a, const MARKER_SIZE: u8> {
    ringbuffer: VecDeque<u8>,
    index: usize,
    input: &'a [u8],
}

impl<'a, const MARKER_SIZE: u8> StartMarkerIndexIterator<'a, MARKER_SIZE> {
    /// The bytes kept are those that end at the offset of the reader. Fewer
    /// than `MARKER_SIZE` are kept only as long as all bytes but the first of
    /// the signal are kept.
    pub closed spec fn wf(&self) -> bool {
        let kept = self.ringbuffer@.len() as int;
        &&& kept <= MARKER_SIZE
        &&& kept <= self.index
        &&& kept < MARKER_SIZE ==> kept == self.index
        &&& self.index < self.input@.len() || self.index == 0
        &&& self.input@.len() <= u32::MAX
        &&& self.index > 0 ==> self.ringbuffer@ == self.input@.subrange(
            self.index - kept + 1,
            self.index + 1,
        )
    }

    /// The signal that is read.
    pub closed spec fn signal(&self) -> Seq<u8> {
        self.input@
    }

    /// The offset of the last byte that was passed.
    pub closed spec fn offset(&self) -> int {
        self.index as int
    }

    /// A reader at the start of `input`.
    pub fn iterate(input: &'a [u8]) -> (reader: Self)
        requires
            input@.len() >= MARKER_SIZE,
            input@.len() <= u32::MAX,
        ensures
            reader.wf(),
            reader.signal() == input@,
            reader.offset() == 0,
    {
        let ringbuffer = VecDeque::with_capacity(MARKER_SIZE as usize);
        StartMarkerIndexIterator { ringbuffer, index: 0, input }
    }

    /// Moves on by `by` bytes.
    fn advance_by(&mut self, by: u8)
        requires
            old(self).wf(),
            by <= MARKER_SIZE,
            old(self).index + by < old(self).input@.len(),
            by >= 1,
        ensures
            final(self).wf(),
            final(self).input == old(self).input,
            final(self).index == old(self).index + by,
    {
        // Remove items from the ring as necessary
        let removal_amount = if self.ringbuffer.len() + by as usize > MARKER_SIZE as usize {
            self.ringbuffer.len() + by as usize - MARKER_SIZE as usize
        } else {
            0
        };
        let ghost kept = self.ringbuffer@.len() as int;
        let mut removed: usize = 0;
        while removed < removal_amount
            invariant
                removed <= removal_amount <= kept,
                self.input == old(self).input,
                self.index == old(self).index,
                kept <= self.index,
                self.index < self.input@.len(),
                kept == 0 && removed == 0 ==> self.ringbuffer@.len() == 0,
                kept > 0 ==> self.ringbuffer@ == self.input@.subrange(
                    self.index - kept + 1 + removed,
                    self.index + 1,
                ),
            decreases removal_amount - removed,
        {
            let dropped = self.ringbuffer.pop_front();
            removed += 1;
            proof {
                assert(self.ringbuffer@ =~= self.input@.subrange(
                    self.index - kept + 1 + removed,
                    self.index + 1,
                ));
            }
        }
        // Add new items to the ring
        let ghost start = self.index - kept + 1 + removal_amount;
        let mut added: u8 = 0;
        while added < by
            invariant
                added <= by,
                self.input == old(self).input,
                self.index == old(self).index + added,
                old(self).index + by < self.input@.len() <= usize::MAX,
                1 <= start <= old(self).index + 1,
                self.ringbuffer@.len() == self.index + 1 - start,
                self.ringbuffer@ =~= self.input@.subrange(start, self.index + 1),
            decreases by - added,
        {
            self.index += 1;
            self.ringbuffer.push_back(self.input[self.index]);
            added += 1;
            proof {
                assert(self.ringbuffer@ =~= self.input@.subrange(start, self.index + 1));
            }
        }
    }

    /// Finds the last byte kept that occurs again behind it, and returns its
    /// place among the bytes kept. Returns `None` if every byte is unique.
    fn find_last_duplicate_char(&self) -> (found: Option<usize>)
        requires
            self.ringbuffer@.len() <= 255,
        ensures
            match found {
                Some(place) => {
                    &&& place < self.ringbuffer@.len()
                    &&& exists|later: int|
                        place < later < self.ringbuffer@.len() && self.ringbuffer@[place as int]
                            == self.ringbuffer@[later]
                    &&& distinct(
                        self.ringbuffer@.subrange(place + 1, self.ringbuffer@.len() as int),
                    )
                },
                None => distinct(self.ringbuffer@),
            },
    {
        let mut bit_set = ByteSet::with_capacity(256);
        if self.ringbuffer.len() < 2 {
            return None;
        }
        let ghost ring = self.ringbuffer@;
        let mut i = self.ringbuffer.len();
        while i > 0
            invariant
                i <= ring.len(),
                ring == self.ringbuffer@,
                distinct(ring.subrange(i as int, ring.len() as int)),
                forall|value: usize|
                    members_of(bit_set).contains(value) <==> exists|at: int|
                        i <= at < ring.len() && #[trigger] ring[at] == value,
            decreases i,
        {
            i -= 1;
            let ghost before = members_of(bit_set);
            let byte = self.ringbuffer[i];
            if !bit_set.insert(byte as usize) {
                proof {
                    let later = choose|at: int| i + 1 <= at < ring.len() && ring[at] == byte as usize;
                    assert(ring[later] == ring[i as int]);
                    assert(ring.subrange(i + 1, ring.len() as int) =~= ring.subrange(
                        i + 1,
                        ring.len() as int,
                    ));
                }
                return Some(i);
            }
            proof {
                let tail = ring.subrange(i as int, ring.len() as int);
                let shorter = ring.subrange(i + 1, ring.len() as int);
                assert forall|a: int, b: int| 0 <= a < b < tail.len() implies tail[a]
                    != tail[b] by {
                    if a == 0 {
                        if tail[0] == tail[b] {
                            assert(ring[i + b] == byte as usize);
                            assert(before.contains(byte as usize));
                        }
                    } else {
                        assert(shorter[a - 1] != shorter[b - 1]);
                    }
                }
                assert forall|value: usize|
                    members_of(bit_set).contains(value) <==> exists|at: int|
                        i <= at < ring.len() && #[trigger] ring[at] == value by {
                    if members_of(bit_set).contains(value) {
                        if value == byte as usize {
                            assert(ring[i as int] == value);
                        } else {
                            let at = choose|at: int|
                                i + 1 <= at < ring.len() && #[trigger] ring[at] == value;
                            assert(ring[at] == value);
                        }
                    }
                    if exists|at: int| i <= at < ring.len() && #[trigger] ring[at] == value {
                        let at = choose|at: int| i <= at < ring.len() && #[trigger] ring[at] == value;
                        if at != i {
                            assert(ring[at] == value);
                            assert(before.contains(value));
                        }
                    }
                }
            }
        }
        proof {
            assert(ring.subrange(0, ring.len() as int) =~= ring);
        }
        None
    }

    /// Moves on to the end of the next start marker and returns the number of
    /// bytes of the signal up to there.
    pub fn next(&mut self) -> (found: Option<u32>)
        requires
            old(self).wf(),
            exists|last: int|
                last >= old(self).offset() && #[trigger] marker_at(old(self).signal(), MARKER_SIZE as int, last),
            forall|earlier: int|
                0 <= earlier < old(self).offset() ==> !#[trigger] marker_at(
                    old(self).signal(),
                    MARKER_SIZE as int,
                    earlier,
                ),
        ensures
            final(self).wf(),
            final(self).signal() == old(self).signal(),
            found is Some,
            found->0 == final(self).offset() + 1,
            first_marker_at(old(self).signal(), MARKER_SIZE as int, final(self).offset()),
    {
        let ghost input = self.input@;
        let ghost size = MARKER_SIZE as int;
        while self.index < self.input.len()
            invariant
                self.wf(),
                self.input@ == input,
                input == old(self).signal(),
                size == MARKER_SIZE,
                exists|last: int| last >= self.index && #[trigger] marker_at(input, size, last),
                forall|earlier: int|
                    0 <= earlier < self.index ==> !#[trigger] marker_at(input, size, earlier),
            decreases self.input@.len() - self.index,
        {
            let ghost ahead = choose|last: int| last >= self.index && #[trigger] marker_at(input, size, last);
            let ghost kept = self.ringbuffer@.len() as int;
            let ghost index = self.index as int;
            if let Some(last_duplicate_index) = self.find_last_duplicate_char() {
                proof {
                    let place = last_duplicate_index as int;
                    let later = choose|later: int|
                        place < later < kept && self.ringbuffer@[place] == self.ringbuffer@[later];
                    assert forall|last: int| index <= last <= index + place implies !marker_at(
                        input,
                        size,
                        last,
                    ) by {
                        if size <= last < input.len() {
                            let window = input.subrange(last - size + 1, last + 1);
                            let a = index - kept + 1 + place - (last - size + 1);
                            let b = index - kept + 1 + later - (last - size + 1);
                            assert(window[a] == self.ringbuffer@[place]);
                            assert(window[b] == self.ringbuffer@[later]);
                        }
                    }
                    assert(ahead > index + place);
                }
                self.advance_by(last_duplicate_index as u8 + 1);
                proof {
                    assert(ahead >= self.index && marker_at(input, size, ahead));
                }
            } else if self.ringbuffer.len() == MARKER_SIZE as usize {
                proof {
                    if index > 0 {
                        assert(input.subrange(index - size + 1, index + 1) == self.ringbuffer@);
                    } else {
                        assert(distinct(input.subrange(index - size + 1, index + 1)));
                    }
                }
                return Some(self.index as u32 + 1);
            } else {
                proof {
                    assert(!marker_at(input, size, index));
                    assert(ahead > index);
                }
                self.advance_by(1);
                proof {
                    assert(ahead >= self.index && marker_at(input, size, ahead));
                }
            }
        }
        proof {
            let ahead = choose|last: int| last >= self.index && #[trigger] marker_at(input, size, last);
            assert(false);
        }
        None
    }
}

/// The number of bytes up to the end of the first run of four different bytes
/// behind the first byte of the signal.
pub fn part_one(input: &str) -> (end: Option<u32>)
    requires
        input.spec_bytes().len() <= u32::MAX,
        has_marker(input.spec_bytes(), 4),
    ensures
        end is Some,
        first_marker_at(input.spec_bytes(), 4, end->0 - 1),
{
    let bytes = input.as_bytes();
    proof {
        let last = choose|last: int| marker_at(input.spec_bytes(), 4, last);
        assert(last >= 0);
    }
    StartMarkerIndexIterator::<4>::iterate(bytes).next()
}

/// The number of bytes up to the end of the first run of fourteen different
/// bytes behind the first byte of the signal.
pub fn part_two(input: &str) -> (end: Option<u32>)
    requires
        input.spec_bytes().len() <= u32::MAX,
        has_marker(input.spec_bytes(), 14),
    ensures
        end is Some,
        first_marker_at(input.spec_bytes(), 14, end->0 - 1),
{
    let bytes = input.as_bytes();
    proof {
        let last = choose|last: int| marker_at(input.spec_bytes(), 14, last);
        assert(last >= 0);
    }
    StartMarkerIndexIterator::<14>::iterate(bytes).next()
}

/// Looks for a start marker of `size` bytes without reading markers: tells
/// whether the signal holds one.
pub fn contains_marker(input: &[u8], size: u8) -> (found: bool)
    ensures
        found == has_marker(input@, size as int),
{
    let width = size as usize;
    let mut last: usize = width;
    while last < input.len()
        invariant
            width == size,
            width <= last,
            forall|earlier: int|
                0 <= earlier < last ==> !#[trigger] marker_at(input@, size as int, earlier),
        decreases input@.len() - last,
    {
        let ghost window = input@.subrange(last - width + 1, last + 1);
        let mut clash = false;
        let mut i: usize = 0;
        while i < width && !clash
            invariant
                width <= last < input@.len(),
                i <= width,
                window == input@.subrange(last - width + 1, last + 1),
                !clash ==> forall|a: int, b: int| 0 <= a < b < width && a < i ==> window[a] != window[b],
                clash ==> !distinct(window),
            decreases width - i + if clash { 0int } else { 1int },
        {
            let mut j: usize = i + 1;
            while j < width && !clash
                invariant
                    width <= last < input@.len(),
                    i < j <= width,
                    window == input@.subrange(last - width + 1, last + 1),
                    !clash ==> forall|b: int| i < b < j ==> window[i as int] != window[b],
                    clash ==> !distinct(window),
                decreases width - j + if clash { 0int } else { 1int },
            {
                if input[last - width + 1 + i] == input[last - width + 1 + j] {
                    clash = true;
                    proof {
                        assert(window[i as int] == window[j as int]);
                    }
                } else {
                    j += 1;
                }
            }
            if !clash {
                i += 1;
            }
        }
        if !clash {
            proof {
                assert(marker_at(input@, size as int, last as int));
            }
            return true;
        }
        last += 1;
    }
    proof {
        if has_marker(input@, size as int) {
            let at = choose|at: int| marker_at(input@, size as int, at);
            assert(false);
        }
    }
    false
}

} // verus!
