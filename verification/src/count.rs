//! The counts of one source, and their mathematical model.

use crate::mode::Mode;
use vstd::prelude::*;

verus! {

/// The counts of one source as unbounded numbers, with the label under which
/// they are reported: the model of a [`CountResult`].
pub struct Tally {
    pub label: Option<Seq<char>>,
    pub lines: nat,
    pub words: nat,
    pub chars: nat,
    pub bytes: nat,
}

impl Tally {
    /// The tally of a source of which nothing has been read yet.
    pub open spec fn zero(label: Option<Seq<char>>) -> Tally {
        Tally { label, lines: 0, words: 0, chars: 0, bytes: 0 }
    }

    /// The count that `mode` selects.
    pub open spec fn get(self, mode: Mode) -> nat {
        match mode {
            Mode::Lines => self.lines,
            Mode::Words => self.words,
            Mode::Chars => self.chars,
            Mode::Bytes => self.bytes,
        }
    }

    /// The field-wise sum of two tallies, under the label of the first.
    pub open spec fn plus(self, other: Tally) -> Tally {
        Tally {
            label: self.label,
            lines: self.lines + other.lines,
            words: self.words + other.words,
            chars: self.chars + other.chars,
            bytes: self.bytes + other.bytes,
        }
    }

    /// Whether each of the four counts is a 64-bit number.
    pub open spec fn fits(self) -> bool {
        self.lines <= u64::MAX && self.words <= u64::MAX && self.chars <= u64::MAX && self.bytes
            <= u64::MAX
    }
}

/// The characters of an optional label.
pub open spec fn label_view(label: Option<String>) -> Option<Seq<char>> {
    match label {
        Some(text) => Some(text@),
        None => None,
    }
}

/// The four counts of one source, or their sum over several sources, with
/// the label of the row in the report. A source without a name has no label.
#[derive(Clone, Debug, PartialEq, Eq)]
pub struct CountResult {
    pub summary: Option<String>,
    pub lines: u64,
    pub words: u64,
    pub chars: u64,
    pub bytes: u64,
}

impl View for CountResult {
    type V = Tally;

    open spec fn view(&self) -> Tally {
        Tally {
            label: label_view(self.summary),
            lines: self.lines as nat,
            words: self.words as nat,
            chars: self.chars as nat,
            bytes: self.bytes as nat,
        }
    }
}

impl CountResult {
    /// All counts zero, under the given label.
    pub fn new(summary: Option<String>) -> (count: CountResult)
        ensures
            count@ == Tally::zero(label_view(summary)),
            count.summary == summary,
    {
        CountResult { summary, lines: 0, words: 0, chars: 0, bytes: 0 }
    }

    /// The count that `mode` selects.
    pub fn result_from_mode(&self, mode: &Mode) -> (count: u64)
        ensures
            count == self@.get(*mode),
    {
        match mode {
            Mode::Lines => self.lines,
            Mode::Words => self.words,
            Mode::Chars => self.chars,
            Mode::Bytes => self.bytes,
        }
    }
}

impl Default for CountResult {
    /// All counts zero and no label.
    fn default() -> (count: CountResult)
        ensures
            count@ == Tally::zero(None),
    {
        CountResult { summary: None, lines: 0, words: 0, chars: 0, bytes: 0 }
    }
}

} // verus!
