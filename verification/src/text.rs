//! Text in UTF-8: decoding of scalar values, white space, and the counts of
//! words and characters.

use vstd::prelude::*;
use vstd::utf8::*;

verus! {

/// Whether the character is white space: one of the code points that
/// Unicode classes as `White_Space`.
pub open spec fn is_whitespace(c: char) -> bool {
    let code = c as u32;
    ||| 0x09 <= code <= 0x0D
    ||| code == 0x20
    ||| code == 0x85
    ||| code == 0xA0
    ||| code == 0x1680
    ||| 0x2000 <= code <= 0x200A
    ||| code == 0x2028
    ||| code == 0x2029
    ||| code == 0x202F
    ||| code == 0x205F
    ||| code == 0x3000
}

/// Whether a word begins at index `i` of the text: the character there is no
/// white space, and it is the first or follows white space.
pub open spec fn starts_word(text: Seq<char>, i: int) -> bool {
    &&& 0 <= i < text.len()
    &&& !is_whitespace(text[i])
    &&& (i == 0 || is_whitespace(text[i - 1]))
}

/// The number of words in the text: of maximal runs of characters that are
/// no white space.
pub open spec fn word_count(text: Seq<char>) -> nat
    decreases text.len(),
{
    if text.len() == 0 {
        0
    } else if starts_word(text, text.len() - 1) {
        word_count(text.drop_last()) + 1
    } else {
        word_count(text.drop_last())
    }
}

/// Whether the code point is white space.
fn is_space(code: u32) -> (space: bool)
    requires
        is_scalar(code),
    ensures
        space == is_whitespace(code as char),
{
    (0x09 <= code && code <= 0x0D) || code == 0x20 || code == 0x85 || code == 0xA0 || code
        == 0x1680 || (0x2000 <= code && code <= 0x200A) || code == 0x2028 || code == 0x2029
        || code == 0x202F || code == 0x205F || code == 0x3000
}

/// Whether the byte continues the encoding of a scalar value.
fn is_continuation(byte: u8) -> (continues: bool)
    ensures
        continues == is_continuation_byte(byte),
{
    0x80 <= byte && byte <= 0xbf
}

/// Decodes the scalar value whose encoding begins at index `at`. Gives its
/// code point and the number of bytes of its encoding, or `None` where no
/// well-formed encoding begins there.
fn scalar_at(bytes: &[u8], at: usize) -> (scalar: Option<(u32, usize)>)
    requires
        at < bytes.len(),
    ensures
        scalar is Some <==> valid_first_scalar(bytes@.subrange(at as int, bytes.len() as int)),
        scalar matches Some((code, width)) ==> {
            let rest = bytes@.subrange(at as int, bytes.len() as int);
            &&& code == decode_first_scalar(rest)
            &&& width == length_of_first_scalar(rest)
            &&& is_scalar(code)
            &&& 1 <= width <= 4
            &&& at + width <= bytes.len()
        },
{
    let ghost rest = bytes@.subrange(at as int, bytes.len() as int);
    let left: usize = bytes.len() - at;
    let first: u8 = bytes[at];
    assert(rest[0] == first);
    if first <= 0x7f {
        assert((first & 0x7f) as u32 <= 0x7f) by (bit_vector);
        Some(((first & 0x7f) as u32, 1))
    } else if 0xc0 <= first && first <= 0xdf {
        if left < 2 {
            return None;
        }
        let second: u8 = bytes[at + 1];
        assert(rest[1] == second);
        if !is_continuation(second) {
            return None;
        }
        let code: u32 = (((first & 0x1f) as u32) << 6) | ((second & 0x3f) as u32);
        assert((((first & 0x1f) as u32) << 6) | ((second & 0x3f) as u32) <= 0x7ff) by (bit_vector);
        if code < 0x80 {
            return None;
        }
        Some((code, 2))
    } else if 0xe0 <= first && first <= 0xef {
        if left < 3 {
            return None;
        }
        let second: u8 = bytes[at + 1];
        let third: u8 = bytes[at + 2];
        assert(rest[1] == second && rest[2] == third);
        if !is_continuation(second) || !is_continuation(third) {
            return None;
        }
        let code: u32 = (((first & 0x0f) as u32) << 12) | (((second & 0x3f) as u32) << 6) | ((third
            & 0x3f) as u32);
        assert((((first & 0x0f) as u32) << 12) | (((second & 0x3f) as u32) << 6) | ((third
            & 0x3f) as u32) <= 0xffff) by (bit_vector);
        if code < 0x800 || (0xD800 <= code && code <= 0xDFFF) {
            return None;
        }
        Some((code, 3))
    } else if 0xf0 <= first && first <= 0xf7 {
        if left < 4 {
            return None;
        }
        let second: u8 = bytes[at + 1];
        let third: u8 = bytes[at + 2];
        let fourth: u8 = bytes[at + 3];
        assert(rest[1] == second && rest[2] == third && rest[3] == fourth);
        if !is_continuation(second) || !is_continuation(third) || !is_continuation(fourth) {
            return None;
        }
        let code: u32 = (((first & 0x07) as u32) << 18) | (((second & 0x3f) as u32) << 12) | (((
        third & 0x3f) as u32) << 6) | ((fourth & 0x3f) as u32);
        if code < 0x10000 || code > 0x10ffff {
            return None;
        }
        Some((code, 4))
    } else {
        None
    }
}

/// The bytes that follow a well-formed text in a well-formed text are a
/// well-formed text.
pub proof fn lemma_valid_suffix(head: Seq<u8>, tail: Seq<u8>)
    requires
        valid_utf8(head),
        valid_utf8(head + tail),
    ensures
        valid_utf8(tail),
    decreases head.len(),
{
    if head.len() == 0 {
        assert(head + tail =~= tail);
    } else {
        assert(pop_first_scalar(head + tail) =~= pop_first_scalar(head) + tail);
        lemma_valid_suffix(pop_first_scalar(head), tail);
    }
}

/// Two well-formed texts one after the other decode to the characters of
/// the first followed by those of the second.
pub proof fn lemma_decode_concat(head: Seq<u8>, tail: Seq<u8>)
    requires
        valid_utf8(head),
        valid_utf8(tail),
    ensures
        valid_utf8(head + tail),
        decode_utf8(head + tail) == decode_utf8(head) + decode_utf8(tail),
    decreases head.len(),
{
    valid_utf8_concat(head, tail);
    if head.len() == 0 {
        assert(head + tail =~= tail);
        assert(decode_utf8(head) + decode_utf8(tail) =~= decode_utf8(tail));
    } else {
        assert(pop_first_scalar(head + tail) =~= pop_first_scalar(head) + tail);
        lemma_decode_concat(pop_first_scalar(head), tail);
        assert(decode_utf8(head + tail) =~= decode_utf8(head) + decode_utf8(tail));
    }
}

/// A well-formed text cut in front of a byte that begins the encoding of a
/// scalar value, or at its end, leaves a well-formed text in front of the cut.
pub proof fn lemma_valid_prefix(bytes: Seq<u8>, cut: int)
    requires
        valid_utf8(bytes),
        0 <= cut <= bytes.len(),
        cut < bytes.len() ==> !is_continuation_byte(bytes[cut]),
    ensures
        valid_utf8(bytes.subrange(0, cut)),
    decreases bytes.len(),
{
    if cut > 0 {
        let width = length_of_first_scalar(bytes);
        let rest = pop_first_scalar(bytes);
        let first = take_first_scalar(bytes);
        assert(valid_utf8(first)) by {
            reveal_with_fuel(valid_utf8, 2);
            assert(pop_first_scalar(first) =~= Seq::<u8>::empty());
        }
        assert(cut >= width);
        lemma_valid_prefix(rest, cut - width);
        valid_utf8_concat(first, rest.subrange(0, cut - width));
        assert(first + rest.subrange(0, cut - width) =~= bytes.subrange(0, cut));
    } else {
        assert(bytes.subrange(0, cut) =~= Seq::<u8>::empty());
    }
}

/// A text of one byte below 0x80 is well formed and decodes to the one
/// character with that code.
pub proof fn lemma_decode_single(byte: u8)
    requires
        byte <= 0x7f,
    ensures
        valid_utf8(seq![byte]),
        decode_utf8(seq![byte]) == seq![byte as char],
{
    let text = seq![byte];
    assert(byte & 0x7f == byte) by (bit_vector)
        requires
            byte <= 0x7f,
    ;
    assert(pop_first_scalar(text) =~= Seq::<u8>::empty());
    reveal_with_fuel(valid_utf8, 2);
    reveal_with_fuel(decode_utf8, 2);
    assert(decode_utf8(text) =~= seq![byte as char]);
}

/// A well-formed text that ends in a byte below 0x80 ends in the character
/// with that code.
pub proof fn lemma_decode_last(bytes: Seq<u8>)
    requires
        valid_utf8(bytes),
        bytes.len() > 0,
        bytes.last() <= 0x7f,
    ensures
        decode_utf8(bytes).len() > 0,
        decode_utf8(bytes).last() == bytes.last() as char,
{
    let front = bytes.subrange(0, bytes.len() - 1);
    let back = seq![bytes.last()];
    lemma_valid_prefix(bytes, bytes.len() - 1);
    lemma_decode_single(bytes.last());
    lemma_decode_concat(front, back);
    assert(front + back =~= bytes);
}

/// A well-formed text cut after a byte below 0x80 leaves a well-formed text
/// in front of the cut: such a byte is the whole encoding of a scalar value.
pub proof fn lemma_valid_prefix_after_ascii(bytes: Seq<u8>, cut: int)
    requires
        valid_utf8(bytes),
        0 < cut <= bytes.len(),
        bytes[cut - 1] <= 0x7f,
    ensures
        valid_utf8(bytes.subrange(0, cut)),
{
    let front = bytes.subrange(0, cut - 1);
    let back = seq![bytes[cut - 1]];
    lemma_valid_prefix(bytes, cut - 1);
    lemma_decode_single(bytes[cut - 1]);
    valid_utf8_concat(front, back);
    assert(front + back =~= bytes.subrange(0, cut));
}

/// The words of two texts one after the other are those of the first and
/// those of the second, where the first is empty or ends in white space.
pub proof fn lemma_word_count_concat(head: Seq<char>, tail: Seq<char>)
    requires
        head.len() == 0 || is_whitespace(head.last()),
    ensures
        word_count(head + tail) == word_count(head) + word_count(tail),
    decreases tail.len(),
{
    if tail.len() == 0 {
        assert(head + tail =~= head);
    } else {
        let whole = head + tail;
        assert(whole.drop_last() =~= head + tail.drop_last());
        lemma_word_count_concat(head, tail.drop_last());
        assert(whole[whole.len() - 1] == tail[tail.len() - 1]);
        if tail.len() >= 2 {
            assert(whole[whole.len() - 2] == tail[tail.len() - 2]);
        } else if head.len() > 0 {
            assert(whole[whole.len() - 2] == head.last());
        }
        assert(starts_word(whole, whole.len() - 1) == starts_word(tail, tail.len() - 1));
    }
}

/// A well-formed text followed by the well-formed encoding of one scalar
/// value is well formed, and decodes to one character more.
proof fn lemma_decode_step(bytes: Seq<u8>, at: int)
    requires
        0 <= at < bytes.len(),
        valid_utf8(bytes.subrange(0, at)),
        valid_first_scalar(bytes.subrange(at, bytes.len() as int)),
    ensures
        ({
            let rest = bytes.subrange(at, bytes.len() as int);
            let next = at + length_of_first_scalar(rest);
            &&& next <= bytes.len()
            &&& valid_utf8(bytes.subrange(0, next))
            &&& decode_utf8(bytes.subrange(0, next)) == decode_utf8(bytes.subrange(0, at)).push(
                decode_first_scalar(rest) as char,
            )
        }),
{
    let rest = bytes.subrange(at, bytes.len() as int);
    let width = length_of_first_scalar(rest);
    let scalar = rest.subrange(0, width);
    assert(valid_first_scalar(scalar));
    assert(pop_first_scalar(scalar) =~= Seq::<u8>::empty());
    reveal_with_fuel(valid_utf8, 2);
    reveal_with_fuel(decode_utf8, 2);
    assert(decode_utf8(scalar) =~= seq![decode_first_scalar(rest) as char]);
    lemma_decode_concat(bytes.subrange(0, at), scalar);
    assert(bytes.subrange(0, at) + scalar =~= bytes.subrange(0, at + width));
    assert(decode_utf8(bytes.subrange(0, at)) + seq![decode_first_scalar(rest) as char]
        =~= decode_utf8(bytes.subrange(0, at)).push(decode_first_scalar(rest) as char));
}

/// The number of words and of characters of a text.
#[derive(Clone, Copy, Debug, PartialEq, Eq)]
pub struct TextCounts {
    pub words: usize,
    pub chars: usize,
}

/// Counts the words and the characters of the text that the bytes encode in
/// UTF-8. Gives `None` exactly where the bytes are no well-formed UTF-8.
pub fn count_text(bytes: &[u8]) -> (counts: Option<TextCounts>)
    ensures
        counts is Some <==> valid_utf8(bytes@),
        counts matches Some(found) ==> {
            &&& found.chars == decode_utf8(bytes@).len()
            &&& found.words == word_count(decode_utf8(bytes@))
            &&& found.words <= found.chars <= bytes.len()
        },
{
    let mut words: usize = 0;
    let mut chars: usize = 0;
    let mut in_word: bool = false;
    let mut at: usize = 0;
    assert(bytes@.subrange(0, 0) =~= Seq::<u8>::empty());
    while at < bytes.len()
        invariant
            at <= bytes.len(),
            valid_utf8(bytes@.subrange(0, at as int)),
            chars == decode_utf8(bytes@.subrange(0, at as int)).len(),
            words == word_count(decode_utf8(bytes@.subrange(0, at as int))),
            in_word == (chars > 0 && !is_whitespace(
                decode_utf8(bytes@.subrange(0, at as int)).last(),
            )),
            words <= chars <= at,
        decreases bytes.len() - at,
    {
        let ghost seen = decode_utf8(bytes@.subrange(0, at as int));
        match scalar_at(bytes, at) {
            None => {
                proof {
                    let rest = bytes@.subrange(at as int, bytes.len() as int);
                    assert(!valid_utf8(rest));
                    partial_valid_partial_invalid_utf8(bytes@, at as int);
                }
                return None;
            },
            Some((code, width)) => {
                proof {
                    lemma_decode_step(bytes@, at as int);
                    let now = seen.push(code as char);
                    assert(now.drop_last() =~= seen);
                }
                if is_space(code) {
                    in_word = false;
                } else {
                    if !in_word {
                        words += 1;
                    }
                    in_word = true;
                }
                chars += 1;
                at += width;
            },
        }
    }
    assert(bytes@.subrange(0, at as int) =~= bytes@);
    Some(TextCounts { words, chars })
}

} // verus!
