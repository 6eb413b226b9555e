//! Lists of missing sequence ranges and their form on the wire.

use crate::seq_number::{circle_add, circle_distance, on_circle, SeqNumber};
use vstd::prelude::*;

verus! {

/// The bit that marks the first word of a two-word range on the wire.
pub const RANGE_START_FLAG: u32 = 0x8000_0000;

/// The sequence numbers from `first` through `last`, both included.
#[derive(Clone, Copy, Debug, PartialEq, Eq, Structural)]
pub struct SeqRange {
    pub first: SeqNumber,
    pub last: SeqNumber,
}

impl View for SeqRange {
    type V = (int, int);

    open spec fn view(&self) -> (int, int) {
        (self.first@, self.last@)
    }
}

impl SeqRange {
    pub fn new(first: SeqNumber, last: SeqNumber) -> (r: SeqRange)
        ensures
            r == (SeqRange { first, last }),
    {
        SeqRange { first, last }
    }

    /// Whether `last` is `first` or comes after it.
    pub fn is_ordered(&self) -> (r: bool)
        ensures
            r == range_ok(self@),
    {
        proof {
            use_type_invariant(&self.first);
            use_type_invariant(&self.last);
        }
        self.first.distance(self.last) >= 0
    }
}

/// A range whose ends lie on the circle, the last one not before the first.
pub open spec fn range_ok(r: (int, int)) -> bool {
    &&& on_circle(r.0)
    &&& on_circle(r.1)
    &&& circle_distance(r.0, r.1) >= 0
}

/// The numbers `lo` and `hi` steps after `base` make a proper range where `lo` is not
/// above `hi` and both stay within half of the circle.
pub proof fn lemma_offsets_make_range(base: int, lo: int, hi: int)
    requires
        on_circle(base),
        0 <= lo <= hi < 0x4000_0000,
    ensures
        range_ok((circle_add(base, lo), circle_add(base, hi))),
        circle_distance(circle_add(base, lo), circle_add(base, hi)) == hi - lo,
{
    crate::seq_number::lemma_circle_bounds(base, lo);
    crate::seq_number::lemma_circle_bounds(base, hi);
    crate::seq_number::lemma_distance_of_add(base, hi);
    crate::seq_number::lemma_distance_after_step(base, circle_add(base, hi), lo);
}

/// Whether every range of `rs` is a proper one.
pub open spec fn ranges_ok(rs: Seq<(int, int)>) -> bool {
    forall|i: int| 0 <= i < rs.len() ==> range_ok(#[trigger] rs[i])
}

/// The words of one range: the number itself for a single number, else the first
/// number with the top bit set and then the last number.
pub open spec fn encode_range(r: (int, int)) -> Seq<u32> {
    if r.0 == r.1 {
        seq![r.0 as u32]
    } else {
        seq![(r.0 + 0x8000_0000) as u32, r.1 as u32]
    }
}

/// The words of a list of ranges, range after range.
pub open spec fn encode_ranges(rs: Seq<(int, int)>) -> Seq<u32>
    decreases rs.len(),
{
    if rs.len() == 0 {
        Seq::empty()
    } else {
        encode_range(rs[0]) + encode_ranges(rs.drop_first())
    }
}

/// The ranges that a sequence of words spells, if it spells any: a word with a clear
/// top bit is a single number; one with the top bit set starts a range, and the next
/// word, with a clear top bit and strictly after the start, ends it.
pub open spec fn decode_words(words: Seq<u32>) -> Option<Seq<(int, int)>>
    decreases words.len(),
{
    if words.len() == 0 {
        Some(Seq::empty())
    } else if words[0] < 0x8000_0000 {
        match decode_words(words.skip(1)) {
            Some(rest) => Some(seq![(words[0] as int, words[0] as int)] + rest),
            None => None,
        }
    } else if words.len() >= 2 && words[1] < 0x8000_0000 && circle_distance(
        words[0] - 0x8000_0000,
        words[1] as int,
    ) > 0 {
        match decode_words(words.skip(2)) {
            Some(rest) => Some(seq![(words[0] - 0x8000_0000, words[1] as int)] + rest),
            None => None,
        }
    } else {
        None
    }
}

/// Decoding the words of proper ranges gives the ranges back.
pub proof fn lemma_decode_encode(rs: Seq<(int, int)>)
    requires
        ranges_ok(rs),
    ensures
        decode_words(encode_ranges(rs)) == Some(rs),
    decreases rs.len(),
{
    if rs.len() > 0 {
        let head = rs[0];
        let tail = rs.drop_first();
        assert(range_ok(head));
        assert forall|i: int| 0 <= i < tail.len() implies range_ok(#[trigger] tail[i]) by {
            assert(tail[i] == rs[i + 1]);
        }
        lemma_decode_encode(tail);
        let words = encode_ranges(rs);
        crate::seq_number::lemma_distance_zero(head.0, head.1);
        if head.0 == head.1 {
            assert(words.skip(1) =~= encode_ranges(tail));
        } else {
            assert(words.skip(2) =~= encode_ranges(tail));
        }
        assert(seq![head] + tail =~= rs);
    }
}

/// Encoding the ranges that words spell gives the words back: no two
/// sequences of words spell the same list.
pub proof fn lemma_encode_decode(words: Seq<u32>)
    requires
        decode_words(words).is_some(),
    ensures
        encode_ranges(decode_words(words).unwrap()) == words,
        ranges_ok(decode_words(words).unwrap()),
    decreases words.len(),
{
    if words.len() > 0 {
        let rs = decode_words(words).unwrap();
        if words[0] < 0x8000_0000 {
            lemma_encode_decode(words.skip(1));
            let rest = decode_words(words.skip(1)).unwrap();
            assert(rs.drop_first() =~= rest);
            assert(encode_ranges(rs) =~= words);
            assert forall|i: int| 0 <= i < rs.len() implies range_ok(#[trigger] rs[i]) by {
                if i > 0 {
                    assert(rs[i] == rest[i - 1]);
                }
            }
        } else {
            lemma_encode_decode(words.skip(2));
            let rest = decode_words(words.skip(2)).unwrap();
            assert(rs.drop_first() =~= rest);
            assert(encode_ranges(rs) =~= words);
            assert forall|i: int| 0 <= i < rs.len() implies range_ok(#[trigger] rs[i]) by {
                if i > 0 {
                    assert(rs[i] == rest[i - 1]);
                }
            }
        }
    }
}

/// The values of a vector of ranges.
pub open spec fn range_values(ranges: Seq<SeqRange>) -> Seq<(int, int)> {
    Seq::new(ranges.len(), |i: int| ranges[i]@)
}

/// An ordered list of missing sequence numbers, as single numbers and ranges.
#[derive(Debug, PartialEq, Eq)]
pub struct CompressedLossList {
    ranges: Vec<SeqRange>,
}

impl View for CompressedLossList {
    type V = Seq<(int, int)>;

    closed spec fn view(&self) -> Seq<(int, int)> {
        range_values(self.ranges@)
    }
}

impl Clone for CompressedLossList {
    fn clone(&self) -> (r: CompressedLossList)
        ensures
            r@ == self@,
    {
        proof {
            use_type_invariant(self);
        }
        CompressedLossList { ranges: self.ranges() }
    }
}

impl CompressedLossList {
    /// Every range of the list is a proper one.
    #[verifier::type_invariant]
    pub open spec fn wf(&self) -> bool {
        ranges_ok(self@)
    }

    /// The list of the given ranges, or nothing if one of them ends before it starts.
    pub fn from_ranges(ranges: Vec<SeqRange>) -> (r: Option<CompressedLossList>)
        ensures
            r.is_some() <==> ranges_ok(range_values(ranges@)),
            r.is_some() ==> r.unwrap()@ == range_values(ranges@) && r.unwrap().wf(),
    {
        let mut i: usize = 0;
        while i < ranges.len()
            invariant
                i <= ranges.len(),
                forall|j: int| 0 <= j < i ==> range_ok(#[trigger] range_values(ranges@)[j]),
            decreases ranges.len() - i,
        {
            if !ranges[i].is_ordered() {
                assert(!range_ok(range_values(ranges@)[i as int]));
                return None;
            }
            i += 1;
        }
        Some(CompressedLossList { ranges })
    }

    /// The number of entries, a single number and a range each counting as one.
    pub fn len(&self) -> (r: usize)
        ensures
            r == self@.len(),
    {
        self.ranges.len()
    }

    pub fn is_empty(&self) -> (r: bool)
        ensures
            r == (self@.len() == 0),
    {
        self.ranges.len() == 0
    }

    /// The entry at `index`, if the list has that many.
    pub fn range_at(&self, index: usize) -> (r: Option<SeqRange>)
        ensures
            r.is_some() == (index < self@.len()),
            r matches Some(range) ==> range@ == self@[index as int] && range_ok(range@),
    {
        proof {
            use_type_invariant(self);
        }
        if index < self.ranges.len() {
            assert(range_ok(self@[index as int]));
            Some(self.ranges[index])
        } else {
            None
        }
    }

    /// The entries in order.
    pub fn ranges(&self) -> (r: Vec<SeqRange>)
        ensures
            range_values(r@) == self@,
    {
        let mut out: Vec<SeqRange> = Vec::new();
        let mut i: usize = 0;
        while i < self.ranges.len()
            invariant
                i <= self.ranges.len(),
                out@ == self.ranges@.take(i as int),
            decreases self.ranges.len() - i,
        {
            out.push(self.ranges[i]);
            proof {
                assert(self.ranges@.take(i + 1) =~= self.ranges@.take(i as int).push(
                    self.ranges@[i as int],
                ));
            }
            i += 1;
        }
        proof {
            assert(self.ranges@.take(self.ranges@.len() as int) =~= self.ranges@);
        }
        out
    }

    /// The words of the list as they travel.
    pub fn encode(&self) -> (words: Vec<u32>)
        ensures
            words@ == encode_ranges(self@),
            decode_words(words@) == Some(self@),
    {
        proof {
            use_type_invariant(self);
        }
        let ghost all = self@;
        let mut words: Vec<u32> = Vec::new();
        let mut i: usize = 0;
        proof {
            assert(all.skip(0) =~= all);
            assert(words@ + encode_ranges(all) =~= encode_ranges(all));
        }
        while i < self.ranges.len()
            invariant
                i <= self.ranges.len(),
                all == range_values(self.ranges@),
                ranges_ok(all),
                words@ + encode_ranges(all.skip(i as int)) == encode_ranges(all),
            decreases self.ranges.len() - i,
        {
            let range: SeqRange = self.ranges[i];
            let first: u32 = range.first.as_raw();
            let last: u32 = range.last.as_raw();
            proof {
                let rest = all.skip(i as int);
                assert(rest[0] == range@);
                assert(rest.drop_first() =~= all.skip(i + 1));
                assert(range_ok(all[i as int]));
            }
            let ghost before = words@;
            if first == last {
                words.push(first);
            } else {
                words.push(first + RANGE_START_FLAG);
                words.push(last);
            }
            proof {
                assert(words@ =~= before + encode_range(range@));
                assert(words@ + encode_ranges(all.skip(i + 1)) =~= before + encode_ranges(
                    all.skip(i as int),
                ));
            }
            i += 1;
        }
        proof {
            assert(all.skip(i as int) =~= Seq::<(int, int)>::empty());
            assert(words@ + Seq::<u32>::empty() =~= words@);
            lemma_decode_encode(all);
        }
        words
    }

    /// The list that `words` spell, or nothing where they spell none.
    pub fn decode(words: &[u32]) -> (r: Option<CompressedLossList>)
        ensures
            match r {
                Some(list) => decode_words(words@) == Some(list@) && list.wf(),
                None => decode_words(words@).is_none(),
            },
    {
        let mut ranges: Vec<SeqRange> = Vec::new();
        let mut i: usize = 0;
        proof {
            assert(words@.skip(0) =~= words@);
            match decode_words(words@) {
                Some(rest) => {
                    assert(range_values(ranges@) + rest =~= rest);
                },
                None => {},
            }
        }
        while i < words.len()
            invariant
                i <= words.len(),
                ranges_ok(range_values(ranges@)),
                decode_words(words@) == match decode_words(words@.skip(i as int)) {
                    Some(rest) => Some(range_values(ranges@) + rest),
                    None => None,
                },
            decreases words.len() - i,
        {
            let word: u32 = words[i];
            let ghost tail = words@.skip(i as int);
            let ghost before = range_values(ranges@);
            proof {
                assert(tail[0] == word);
            }
            if word < RANGE_START_FLAG {
                let number = SeqNumber::new_truncate(word);
                ranges.push(SeqRange { first: number, last: number });
                proof {
                    assert(tail.skip(1) =~= words@.skip(i + 1));
                    crate::seq_number::lemma_distance_zero(word as int, word as int);
                    assert(range_values(ranges@) =~= before + seq![(word as int, word as int)]);
                    match decode_words(words@.skip(i + 1)) {
                        Some(rest) => {
                            assert(before + (seq![(word as int, word as int)] + rest)
                                =~= range_values(ranges@) + rest);
                        },
                        None => {},
                    }
                }
                i += 1;
            } else {
                if i + 1 >= words.len() {
                    return None;
                }
                let end: u32 = words[i + 1];
                proof {
                    assert(tail[1] == end);
                }
                if end >= RANGE_START_FLAG {
                    return None;
                }
                let first = SeqNumber::new_truncate(word - RANGE_START_FLAG);
                let last = SeqNumber::new_truncate(end);
                if first.distance(last) <= 0 {
                    return None;
                }
                ranges.push(SeqRange { first, last });
                proof {
                    assert(tail.skip(2) =~= words@.skip(i + 2));
                    assert(range_values(ranges@) =~= before + seq![(first@, last@)]);
                    match decode_words(words@.skip(i + 2)) {
                        Some(rest) => {
                            assert(before + (seq![(first@, last@)] + rest) =~= range_values(
                                ranges@,
                            ) + rest);
                        },
                        None => {},
                    }
                }
                i += 2;
            }
        }
        proof {
            assert(words@.skip(i as int) =~= Seq::<u32>::empty());
            assert(range_values(ranges@) + Seq::<(int, int)>::empty() =~= range_values(ranges@));
        }
        Some(CompressedLossList { ranges })
    }
}

} // verus!
