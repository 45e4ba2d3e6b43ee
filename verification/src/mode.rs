//! The quantities that can be requested, and their canonical column order.

use vstd::prelude::*;
use vstd::string::*;

verus! {

/// One of the four quantities that can be counted.
///
/// The declaration order is the order of the columns in a report:
/// lines, then words, then characters, then bytes.
#[derive(Clone, Copy, Debug, PartialEq, Eq, PartialOrd, Ord, Hash, Structural)]
pub enum Mode {
    Lines,
    Words,
    Chars,
    Bytes,
}

/// The mode that a command-line token selects, if it is one of the four flags.
pub open spec fn flag_mode(token: Seq<char>) -> Option<Mode> {
    if token =~= seq!['-', 'l'] {
        Some(Mode::Lines)
    } else if token =~= seq!['-', 'w'] {
        Some(Mode::Words)
    } else if token =~= seq!['-', 'm'] {
        Some(Mode::Chars)
    } else if token =~= seq!['-', 'c'] {
        Some(Mode::Bytes)
    } else {
        None
    }
}

/// The one-element sequence of `mode` if it was requested, else the empty one.
pub open spec fn requested(modes: Seq<Mode>, mode: Mode) -> Seq<Mode> {
    if modes.contains(mode) {
        seq![mode]
    } else {
        Seq::empty()
    }
}

/// The requested modes without repetition and in column order, whatever the
/// order and number of times they were asked for.
pub open spec fn canonical_modes(modes: Seq<Mode>) -> Seq<Mode> {
    requested(modes, Mode::Lines) + requested(modes, Mode::Words) + requested(modes, Mode::Chars)
        + requested(modes, Mode::Bytes)
}

impl Mode {
    /// Position of the mode in the column order.
    pub open spec fn rank(self) -> nat {
        match self {
            Mode::Lines => 0,
            Mode::Words => 1,
            Mode::Chars => 2,
            Mode::Bytes => 3,
        }
    }

    /// Reads a flag token: `-l`, `-w`, `-m` or `-c`. Any other token is not a
    /// flag and gives `None`.
    pub fn from_str(mode_str: &str) -> (mode: Option<Mode>)
        ensures
            mode == flag_mode(mode_str@),
    {
        if mode_str.unicode_len() != 2 {
            return None;
        }
        let dash: char = mode_str.get_char(0);
        let letter: char = mode_str.get_char(1);
        assert(mode_str@ =~= seq![dash, letter]);
        if dash != '-' {
            return None;
        }
        if letter == 'l' {
            Some(Mode::Lines)
        } else if letter == 'w' {
            Some(Mode::Words)
        } else if letter == 'm' {
            Some(Mode::Chars)
        } else if letter == 'c' {
            Some(Mode::Bytes)
        } else {
            None
        }
    }
}

/// Sorts the requested modes into column order and drops repetitions.
pub fn canonical_order(modes: &Vec<Mode>) -> (columns: Vec<Mode>)
    ensures
        columns@ == canonical_modes(modes@),
{
    let mut lines: bool = false;
    let mut words: bool = false;
    let mut chars: bool = false;
    let mut bytes: bool = false;
    let mut i: usize = 0;
    while i < modes.len()
        invariant
            i <= modes.len(),
            lines == modes@.take(i as int).contains(Mode::Lines),
            words == modes@.take(i as int).contains(Mode::Words),
            chars == modes@.take(i as int).contains(Mode::Chars),
            bytes == modes@.take(i as int).contains(Mode::Bytes),
        decreases modes.len() - i,
    {
        proof {
            lemma_take_contains(modes@, i as int, Mode::Lines);
            lemma_take_contains(modes@, i as int, Mode::Words);
            lemma_take_contains(modes@, i as int, Mode::Chars);
            lemma_take_contains(modes@, i as int, Mode::Bytes);
        }
        match modes[i] {
            Mode::Lines => {
                lines = true;
            },
            Mode::Words => {
                words = true;
            },
            Mode::Chars => {
                chars = true;
            },
            Mode::Bytes => {
                bytes = true;
            },
        }
        i += 1;
    }
    assert(modes@.take(i as int) =~= modes@);
    let mut columns: Vec<Mode> = Vec::new();
    if lines {
        columns.push(Mode::Lines);
    }
    if words {
        columns.push(Mode::Words);
    }
    if chars {
        columns.push(Mode::Chars);
    }
    if bytes {
        columns.push(Mode::Bytes);
    }
    assert(columns@ =~= canonical_modes(modes@));
    columns
}

/// A prefix that is one element longer holds `mode` exactly if the shorter
/// prefix does or the added element is `mode`.
proof fn lemma_take_contains(modes: Seq<Mode>, i: int, mode: Mode)
    requires
        0 <= i < modes.len(),
    ensures
        modes.take(i + 1).contains(mode) <==> modes.take(i).contains(mode) || modes[i] == mode,
{
    let short = modes.take(i);
    let long = modes.take(i + 1);
    if short.contains(mode) {
        let k = choose|k: int| 0 <= k < short.len() && short[k] == mode;
        assert(long[k] == mode);
    }
    if modes[i] == mode {
        assert(long[i] == mode);
    }
    if long.contains(mode) {
        let k = choose|k: int| 0 <= k < long.len() && long[k] == mode;
        if k < i {
            assert(short[k] == mode);
        }
    }
}

/// The columns of a report stand in strictly ascending order: lines before
/// words before characters before bytes, and none of them twice.
pub proof fn lemma_canonical_ascending(modes: Seq<Mode>)
    ensures
        forall|i: int, j: int|
            0 <= i < j < canonical_modes(modes).len() ==> canonical_modes(modes)[i].rank()
                < canonical_modes(modes)[j].rank(),
{
}

/// The columns of a report are exactly the modes that were requested.
pub proof fn lemma_canonical_same_modes(modes: Seq<Mode>, mode: Mode)
    ensures
        canonical_modes(modes).contains(mode) <==> modes.contains(mode),
{
    let columns = canonical_modes(modes);
    if modes.contains(mode) {
        let before: int = match mode {
            Mode::Lines => 0,
            Mode::Words => requested(modes, Mode::Lines).len() as int,
            Mode::Chars => (requested(modes, Mode::Lines) + requested(modes, Mode::Words)).len() as int,
            Mode::Bytes => (requested(modes, Mode::Lines) + requested(modes, Mode::Words)
                + requested(modes, Mode::Chars)).len() as int,
        };
        assert(columns[before] == mode);
    }
}

/// The columns depend only on which modes were requested, not on the order
/// of the requests nor on how often each was made.
pub proof fn lemma_canonical_order_independent(first: Seq<Mode>, second: Seq<Mode>)
    requires
        forall|mode: Mode| first.contains(mode) <==> second.contains(mode),
    ensures
        canonical_modes(first) == canonical_modes(second),
{
}

} // verus!
