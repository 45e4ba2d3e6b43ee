//! The counter: the counts of a byte source, taken segment by segment.

use crate::count::{label_view, CountResult, Tally};
use crate::text::{
    count_text, is_whitespace, lemma_decode_concat, lemma_decode_last, lemma_valid_prefix_after_ascii,
    lemma_valid_suffix, lemma_word_count_concat, word_count, TextCounts,
};
use vstd::prelude::*;
use vstd::slice::*;
use vstd::utf8::*;

verus! {

/// The byte that ends a line.
pub const LINE_FEED: u8 = 0x0A;

/// Why a source could not be counted.
#[derive(Clone, Copy, Debug, PartialEq, Eq, Structural)]
pub enum CountError {
    /// A segment of the source is no well-formed UTF-8.
    InvalidUtf8,
    /// A count would exceed 64 bits.
    Overflow,
}

/// A source held in memory: its name, if it has one, and all its bytes.
#[derive(Clone, Debug, PartialEq, Eq)]
pub struct BufferDetails {
    pub filename: Option<String>,
    pub buffer: Vec<u8>,
}

/// The number of line feeds among the bytes.
pub open spec fn line_feeds(data: Seq<u8>) -> nat
    decreases data.len(),
{
    if data.len() == 0 {
        0
    } else if data.last() == LINE_FEED {
        line_feeds(data.drop_last()) + 1
    } else {
        line_feeds(data.drop_last())
    }
}

/// The number of lines of the bytes: one for each line feed, and one more
/// for what follows the last line feed, if anything does.
pub open spec fn line_count(data: Seq<u8>) -> nat {
    if data.len() > 0 && data.last() != LINE_FEED {
        line_feeds(data) + 1
    } else {
        line_feeds(data)
    }
}

/// The counts of a whole source under the given label, or `None` where the
/// source is no well-formed UTF-8.
pub open spec fn measure(label: Option<Seq<char>>, data: Seq<u8>) -> Option<Tally> {
    if valid_utf8(data) {
        Some(
            Tally {
                label,
                lines: line_count(data),
                words: word_count(decode_utf8(data)),
                chars: decode_utf8(data).len(),
                bytes: data.len(),
            },
        )
    } else {
        None
    }
}

impl Tally {
    /// The tally after one more segment has been read: one line more, the
    /// bytes of the segment, and the words and characters of its text. `None`
    /// where the segment is no well-formed UTF-8.
    pub open spec fn absorb(self, segment: Seq<u8>) -> Option<Tally> {
        if valid_utf8(segment) {
            Some(
                Tally {
                    label: self.label,
                    lines: self.lines + 1,
                    words: self.words + word_count(decode_utf8(segment)),
                    chars: self.chars + decode_utf8(segment).len(),
                    bytes: self.bytes + segment.len(),
                },
            )
        } else {
            None
        }
    }
}

/// The sum of the counts of two parts of a source, where both are well
/// formed.
pub open spec fn combine(first: Option<Tally>, second: Option<Tally>) -> Option<Tally> {
    match (first, second) {
        (Some(a), Some(b)) => Some(a.plus(b)),
        _ => None,
    }
}

/// The tally after the segments have been read one after the other, or
/// `None` where one of them is no well-formed UTF-8.
pub open spec fn absorb_all(start: Tally, segments: Seq<Seq<u8>>) -> Option<Tally>
    decreases segments.len(),
{
    if segments.len() == 0 {
        Some(start)
    } else {
        match start.absorb(segments[0]) {
            Some(next) => absorb_all(next, segments.drop_first()),
            None => None,
        }
    }
}

/// Whether the bytes are one segment as a read up to the next line feed or
/// the end of the source returns it: not empty, and without a line feed
/// anywhere but at the end.
pub open spec fn is_segment(segment: Seq<u8>) -> bool {
    &&& segment.len() > 0
    &&& forall|i: int| 0 <= i < segment.len() - 1 ==> segment[i] != LINE_FEED
}

/// The length of the first segment of the bytes: up to and with the first
/// line feed, or all of them where there is none.
pub open spec fn first_segment_len(data: Seq<u8>) -> nat
    decreases data.len(),
{
    if data.len() == 0 {
        0
    } else if data[0] == LINE_FEED {
        1
    } else {
        1 + first_segment_len(data.drop_first())
    }
}

/// The segments of a source in order: each ends with a line feed, but for
/// the last where the source does not end with one.
pub open spec fn segments(data: Seq<u8>) -> Seq<Seq<u8>>
    decreases data.len(),
    via segments_decreases
{
    if data.len() == 0 {
        Seq::empty()
    } else {
        let cut = first_segment_len(data) as int;
        seq![data.subrange(0, cut)] + segments(data.subrange(cut, data.len() as int))
    }
}

/// What follows the first segment is shorter than the whole.
#[via_fn]
proof fn segments_decreases(data: Seq<u8>) {
    if data.len() > 0 {
        lemma_first_segment(data);
    }
}

/// The first segment of a source that is not empty is a segment, and a line
/// feed ends it unless it reaches the end of the source.
pub proof fn lemma_first_segment(data: Seq<u8>)
    requires
        data.len() > 0,
    ensures
        0 < first_segment_len(data) <= data.len(),
        is_segment(data.subrange(0, first_segment_len(data) as int)),
        first_segment_len(data) < data.len() ==> data[first_segment_len(data) - 1] == LINE_FEED,
    decreases data.len(),
{
    if data[0] != LINE_FEED {
        let rest = data.drop_first();
        if rest.len() > 0 {
            lemma_first_segment(rest);
            let cut = first_segment_len(data) as int;
            assert forall|i: int| 0 <= i < cut - 1 implies data.subrange(0, cut)[i]
                != LINE_FEED by {
                if i > 0 {
                    assert(rest.subrange(0, cut - 1)[i - 1] == data[i]);
                }
            }
        } else {
            assert(first_segment_len(rest) == 0);
        }
    }
}

/// Where the first line feed of the bytes stands at index `found`, the first
/// segment ends after it; where there is none up to the end, the first
/// segment is the whole.
proof fn lemma_first_segment_found(data: Seq<u8>, found: int)
    requires
        0 <= found <= data.len(),
        forall|i: int| 0 <= i < found ==> data[i] != LINE_FEED,
        found < data.len() ==> data[found] == LINE_FEED,
    ensures
        first_segment_len(data) == if found < data.len() {
            found + 1
        } else {
            found
        },
    decreases data.len(),
{
    if data.len() > 0 && data[0] != LINE_FEED {
        let rest = data.drop_first();
        assert forall|i: int| 0 <= i < found - 1 implies rest[i] != LINE_FEED by {
            assert(rest[i] == data[i + 1]);
        }
        lemma_first_segment_found(rest, found - 1);
    }
}

/// The line feeds of two sequences of bytes one after the other.
proof fn lemma_line_feeds_concat(head: Seq<u8>, tail: Seq<u8>)
    ensures
        line_feeds(head + tail) == line_feeds(head) + line_feeds(tail),
    decreases tail.len(),
{
    if tail.len() == 0 {
        assert(head + tail =~= head);
    } else {
        assert((head + tail).drop_last() =~= head + tail.drop_last());
        lemma_line_feeds_concat(head, tail.drop_last());
    }
}

/// Bytes without a line feed among them hold no line feed.
proof fn lemma_line_feeds_none(data: Seq<u8>)
    requires
        forall|i: int| 0 <= i < data.len() ==> data[i] != LINE_FEED,
    ensures
        line_feeds(data) == 0,
    decreases data.len(),
{
    if data.len() > 0 {
        lemma_line_feeds_none(data.drop_last());
    }
}

/// A segment is one line.
pub proof fn lemma_segment_is_one_line(segment: Seq<u8>)
    requires
        is_segment(segment),
    ensures
        line_count(segment) == 1,
{
    lemma_line_feeds_none(segment.drop_last());
}

/// The lines of two parts of a source, where the first is empty or ends
/// with a line feed, are those of the first and those of the second.
pub proof fn lemma_line_count_concat(head: Seq<u8>, tail: Seq<u8>)
    requires
        head.len() == 0 || head.last() == LINE_FEED,
    ensures
        line_count(head + tail) == line_count(head) + line_count(tail),
{
    lemma_line_feeds_concat(head, tail);
    if tail.len() == 0 {
        assert(head + tail =~= head);
    }
}

/// A text has no more characters than bytes.
proof fn lemma_decode_len(bytes: Seq<u8>)
    requires
        valid_utf8(bytes),
    ensures
        decode_utf8(bytes).len() <= bytes.len(),
    decreases bytes.len(),
{
    if bytes.len() > 0 {
        lemma_decode_len(pop_first_scalar(bytes));
    }
}

/// A text has no more words than characters.
proof fn lemma_word_count_len(text: Seq<char>)
    ensures
        word_count(text) <= text.len(),
    decreases text.len(),
{
    if text.len() > 0 {
        lemma_word_count_len(text.drop_last());
    }
}

/// There are no more line feeds than bytes.
proof fn lemma_line_feeds_len(data: Seq<u8>)
    ensures
        line_feeds(data) <= data.len(),
        data.len() > 0 && data.last() != LINE_FEED ==> line_feeds(data) < data.len(),
    decreases data.len(),
{
    if data.len() > 0 {
        lemma_line_feeds_len(data.drop_last());
    }
}

/// No count of a source exceeds the number of its bytes, and there are no
/// more words than characters.
pub proof fn lemma_measure_bounds(label: Option<Seq<char>>, data: Seq<u8>)
    requires
        valid_utf8(data),
    ensures
        measure(label, data) matches Some(tally) && tally.lines <= data.len() && tally.words
            <= tally.chars <= data.len() && tally.bytes == data.len(),
{
    lemma_decode_len(data);
    lemma_word_count_len(decode_utf8(data));
    lemma_line_feeds_len(data);
}

/// Counting is additive over parts that are split at a line boundary: where
/// the first part is empty or ends with a line feed, the counts of the whole
/// are the sums of the counts of the parts, and the whole is well-formed
/// UTF-8 exactly if both parts are.
pub proof fn lemma_measure_additive(label: Option<Seq<char>>, head: Seq<u8>, tail: Seq<u8>)
    requires
        head.len() == 0 || head.last() == LINE_FEED,
    ensures
        measure(label, head + tail) == combine(measure(label, head), measure(label, tail)),
{
    let whole = head + tail;
    if valid_utf8(whole) {
        if head.len() > 0 {
            assert(whole[head.len() - 1] == head.last());
            lemma_valid_prefix_after_ascii(whole, head.len() as int);
        }
        assert(whole.subrange(0, head.len() as int) =~= head);
        lemma_valid_suffix(head, tail);
    }
    if valid_utf8(head) && valid_utf8(tail) {
        lemma_decode_concat(head, tail);
        if head.len() > 0 {
            lemma_decode_last(head);
            assert(is_whitespace(decode_utf8(head).last()));
        }
        lemma_word_count_concat(decode_utf8(head), decode_utf8(tail));
        lemma_line_count_concat(head, tail);
    }
}

/// Reading a segment lowers no count: it adds a line, and never takes a
/// word, a character or a byte away.
pub proof fn lemma_counts_only_grow(tally: Tally, segment: Seq<u8>)
    ensures
        tally.absorb(segment) matches Some(next) ==> {
            &&& next.lines == tally.lines + 1
            &&& next.words >= tally.words
            &&& next.chars >= tally.chars
            &&& next.bytes >= tally.bytes
            &&& next.label == tally.label
        },
{
}

/// Reading one segment more adds the counts of that segment.
pub proof fn lemma_absorb_segment(tally: Tally, segment: Seq<u8>)
    requires
        is_segment(segment),
    ensures
        tally.absorb(segment) == combine(Some(tally), measure(tally.label, segment)),
{
    lemma_segment_is_one_line(segment);
}

/// A well-formed source that is cut behind its first segment has a
/// well-formed first segment.
proof fn lemma_first_segment_valid(data: Seq<u8>)
    requires
        data.len() > 0,
        valid_utf8(data),
    ensures
        valid_utf8(data.subrange(0, first_segment_len(data) as int)),
{
    lemma_first_segment(data);
    let cut = first_segment_len(data) as int;
    if cut < data.len() {
        lemma_valid_prefix_after_ascii(data, cut);
    } else {
        assert(data.subrange(0, cut) =~= data);
    }
}

/// Counting the segments that follow a counted part, one after the other,
/// gives the counts of the whole.
proof fn lemma_absorb_rest(tally: Tally, head: Seq<u8>, tail: Seq<u8>)
    requires
        head.len() == 0 || head.last() == LINE_FEED,
        measure(tally.label, head) == Some(tally),
    ensures
        absorb_all(tally, segments(tail)) == measure(tally.label, head + tail),
    decreases tail.len(),
{
    if tail.len() == 0 {
        assert(head + tail =~= head);
    } else {
        lemma_first_segment(tail);
        let cut = first_segment_len(tail) as int;
        let segment = tail.subrange(0, cut);
        let rest = tail.subrange(cut, tail.len() as int);
        let parts = segments(tail);
        assert(parts[0] == segment);
        assert(parts.drop_first() =~= segments(rest));
        lemma_measure_additive(tally.label, head, segment);
        lemma_absorb_segment(tally, segment);
        assert(head + segment + rest =~= head + tail);
        match tally.absorb(segment) {
            Some(next) => {
                assert(measure(tally.label, head + segment) == Some(next));
                if cut < tail.len() {
                    assert((head + segment).last() == tail[cut - 1]);
                    lemma_absorb_rest(next, head + segment, rest);
                } else {
                    assert(segments(rest) =~= Seq::<Seq<u8>>::empty());
                    assert(head + segment =~= head + tail);
                }
                assert(absorb_all(next, segments(rest)) == measure(tally.label, head + tail));
            },
            None => {
                if valid_utf8(head + tail) {
                    lemma_valid_suffix(head, tail);
                    lemma_first_segment_valid(tail);
                }
                assert(!valid_utf8(head + tail));
            },
        }
    }
}

/// Counting a source line by line and summing what each line adds gives the
/// counts of the source taken as a whole, and fails exactly where the whole
/// is no well-formed UTF-8.
pub proof fn lemma_linewise_counting(label: Option<Seq<char>>, data: Seq<u8>)
    ensures
        absorb_all(Tally::zero(label), segments(data)) == measure(label, data),
{
    let empty = Seq::<u8>::empty();
    assert(decode_utf8(empty) =~= Seq::<char>::empty());
    assert(measure(label, empty) == Some(Tally::zero(label)));
    lemma_absorb_rest(Tally::zero(label), empty, data);
    assert(empty + data =~= data);
}

/// A source with `n` lines consists of exactly `n` segments: put one after
/// the other they are the source, each is delimited by a line feed at its
/// end and holds no other, and only the last may lack its line feed.
pub proof fn lemma_segments_are_lines(data: Seq<u8>)
    ensures
        segments(data).len() == line_count(data),
        segments(data).flatten() == data,
        forall|i: int| 0 <= i < segments(data).len() ==> is_segment(#[trigger] segments(data)[i]),
        forall|i: int|
            0 <= i < segments(data).len() - 1 ==> (#[trigger] segments(data)[i]).last()
                == LINE_FEED,
    decreases data.len(),
{
    if data.len() == 0 {
        assert(segments(data).flatten() =~= data);
    } else {
        lemma_first_segment(data);
        let cut = first_segment_len(data) as int;
        let segment = data.subrange(0, cut);
        let rest = data.subrange(cut, data.len() as int);
        let parts = segments(data);
        lemma_segments_are_lines(rest);
        assert(parts.first() == segment);
        assert(parts.drop_first() =~= segments(rest));
        assert(parts.flatten() =~= data);
        lemma_segment_is_one_line(segment);
        assert(segment + rest =~= data);
        if cut < data.len() {
            lemma_line_count_concat(segment, rest);
        } else {
            assert(segment =~= data);
        }
        assert forall|i: int| 0 <= i < parts.len() implies is_segment(#[trigger] parts[i]) by {
            if i > 0 {
                assert(parts[i] == segments(rest)[i - 1]);
            }
        }
        assert forall|i: int| 0 <= i < parts.len() - 1 implies (#[trigger] parts[i]).last()
            == LINE_FEED by {
            if i > 0 {
                assert(parts[i] == segments(rest)[i - 1]);
            }
        }
    }
}

impl CountResult {
    /// Counts one segment more: a line, its bytes, and the words and
    /// characters of its text.
    ///
    /// A segment that is no well-formed UTF-8, or with which a count would
    /// exceed 64 bits, is rejected and leaves the counts as they were.
    pub fn add_segment(&mut self, segment: &[u8]) -> (outcome: Result<(), CountError>)
        ensures
            final(self).summary == old(self).summary,
            match outcome {
                Ok(()) => old(self)@.absorb(segment@) == Some(final(self)@),
                Err(CountError::InvalidUtf8) => !valid_utf8(segment@) && *final(self) == *old(self),
                Err(CountError::Overflow) => {
                    &&& old(self)@.absorb(segment@) matches Some(next)
                    &&& !next.fits()
                    &&& *final(self) == *old(self)
                },
            },
    {
        let found: TextCounts = match count_text(segment) {
            Some(found) => found,
            None => {
                return Err(CountError::InvalidUtf8);
            },
        };
        let lines: Option<u64> = self.lines.checked_add(1);
        let words: Option<u64> = self.words.checked_add(found.words as u64);
        let chars: Option<u64> = self.chars.checked_add(found.chars as u64);
        let bytes: Option<u64> = self.bytes.checked_add(segment.len() as u64);
        match (lines, words, chars, bytes) {
            (Some(lines), Some(words), Some(chars), Some(bytes)) => {
                self.lines = lines;
                self.words = words;
                self.chars = chars;
                self.bytes = bytes;
                Ok(())
            },
            _ => Err(CountError::Overflow),
        }
    }
}

/// The index behind the segment that begins at `start`: behind the next line
/// feed, or the end of the bytes where none follows.
fn segment_end(data: &[u8], start: usize) -> (end: usize)
    requires
        start < data.len(),
    ensures
        end == start + first_segment_len(data@.subrange(start as int, data.len() as int)),
        start < end <= data.len(),
{
    let ghost rest = data@.subrange(start as int, data.len() as int);
    let mut at: usize = start;
    while at < data.len() && data[at] != LINE_FEED
        invariant
            start <= at <= data.len(),
            rest == data@.subrange(start as int, data.len() as int),
            forall|i: int| 0 <= i < at - start ==> rest[i] != LINE_FEED,
        decreases data.len() - at,
    {
        assert(rest[at - start] == data[at as int]);
        at += 1;
    }
    proof {
        if at < data.len() {
            assert(rest[at - start] == data[at as int]);
        }
        lemma_first_segment_found(rest, at - start);
    }
    if at < data.len() {
        at + 1
    } else {
        at
    }
}

/// Counts the lines, words, characters and bytes of a source.
///
/// The source is read segment by segment, each up to and with the next line
/// feed; what follows the last line feed is a line too. Each segment is
/// decoded as UTF-8 on its own. The result carries the name of the source as
/// its label. A source that is no well-formed UTF-8 is rejected.
pub fn count_buf(buffer_details: BufferDetails) -> (outcome: Result<CountResult, CountError>)
    ensures
        outcome is Ok <==> valid_utf8(buffer_details.buffer@),
        match outcome {
            Ok(count) => {
                &&& measure(label_view(buffer_details.filename), buffer_details.buffer@) == Some(
                    count@,
                )
                &&& count.bytes == buffer_details.buffer.len()
                &&& count.lines == segments(buffer_details.buffer@).len()
            },
            Err(error) => error == CountError::InvalidUtf8,
        },
{
    let ghost label = label_view(buffer_details.filename);
    let BufferDetails { filename, buffer } = buffer_details;
    let data: &[u8] = buffer.as_slice();
    let mut count = CountResult::new(filename);
    let mut start: usize = 0;
    proof {
        assert(data@.subrange(0, 0) =~= Seq::<u8>::empty());
        assert(decode_utf8(Seq::<u8>::empty()) =~= Seq::<char>::empty());
    }
    while start < data.len()
        invariant
            start <= data.len(),
            0 < start < data.len() ==> data[start - 1] == LINE_FEED,
            data@ == buffer_details.buffer@,
            label == label_view(buffer_details.filename),
            measure(label, data@.subrange(0, start as int)) == Some(count@),
        decreases data.len() - start,
    {
        let ghost head = data@.subrange(0, start as int);
        let ghost tail = data@.subrange(start as int, data.len() as int);
        let end: usize = segment_end(data, start);
        let segment: &[u8] = slice_subrange(data, start, end);
        proof {
            lemma_first_segment(tail);
            assert(segment@ =~= tail.subrange(0, end - start));
            assert(head + segment@ =~= data@.subrange(0, end as int));
            assert(head + tail =~= data@);
            lemma_measure_additive(label, head, segment@);
            lemma_absorb_segment(count@, segment@);
            if valid_utf8(segment@) {
                lemma_measure_bounds(label, data@.subrange(0, end as int));
            } else if valid_utf8(data@) {
                lemma_valid_suffix(head, tail);
                lemma_first_segment_valid(tail);
            }
        }
        match count.add_segment(segment) {
            Ok(()) => {},
            Err(error) => {
                return Err(error);
            },
        }
        start = end;
    }
    proof {
        assert(data@.subrange(0, start as int) =~= data@);
        lemma_segments_are_lines(data@);
    }
    Ok(count)
}

} // verus!
