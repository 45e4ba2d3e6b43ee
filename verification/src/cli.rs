//! The command line: which tokens are flags, which name sources, and what
//! holds where none of a kind is given.

use crate::count::label_view;
use crate::mode::{flag_mode, Mode};
use vstd::prelude::*;

verus! {

/// The characters of each argument.
pub open spec fn token_views(args: Seq<String>) -> Seq<Seq<char>> {
    Seq::new(args.len(), |i: int| args[i]@)
}

/// The characters of each source's name.
pub open spec fn label_views(sources: Seq<Option<String>>) -> Seq<Option<Seq<char>>> {
    Seq::new(sources.len(), |i: int| label_view(sources[i]))
}

/// The modes that the flags among the tokens select, in the order of the
/// tokens and as often as they occur.
pub open spec fn flag_modes(tokens: Seq<Seq<char>>) -> Seq<Mode>
    decreases tokens.len(),
{
    if tokens.len() == 0 {
        Seq::empty()
    } else {
        match flag_mode(tokens.last()) {
            Some(mode) => flag_modes(tokens.drop_last()).push(mode),
            None => flag_modes(tokens.drop_last()),
        }
    }
}

/// The tokens that are no flags, in their order: the names of the files.
pub open spec fn file_names(tokens: Seq<Seq<char>>) -> Seq<Seq<char>>
    decreases tokens.len(),
{
    if tokens.len() == 0 {
        Seq::empty()
    } else {
        match flag_mode(tokens.last()) {
            Some(_) => file_names(tokens.drop_last()),
            None => file_names(tokens.drop_last()).push(tokens.last()),
        }
    }
}

/// The modes that are reported where no flag is given: lines, words and
/// bytes, without characters.
pub open spec fn default_modes() -> Seq<Mode> {
    seq![Mode::Lines, Mode::Words, Mode::Bytes]
}

/// The modes to report: those of the flags, or the default ones where the
/// tokens hold no flag.
pub open spec fn requested_modes(tokens: Seq<Seq<char>>) -> Seq<Mode> {
    if flag_modes(tokens).len() == 0 {
        default_modes()
    } else {
        flag_modes(tokens)
    }
}

/// The sources to count, by name: the files in the order of their tokens,
/// or the one unnamed source, the standard input, where no file is named.
pub open spec fn requested_sources(tokens: Seq<Seq<char>>) -> Seq<Option<Seq<char>>> {
    if file_names(tokens).len() == 0 {
        seq![None]
    } else {
        Seq::new(file_names(tokens).len(), |i: int| Some(file_names(tokens)[i]))
    }
}

/// What a command line asks for: the modes to report and the sources to
/// count. A source without a name is the standard input.
#[derive(Clone, Debug, PartialEq, Eq)]
pub struct Invocation {
    pub modes: Vec<Mode>,
    pub sources: Vec<Option<String>>,
}

/// Reads the arguments that follow the program's name.
///
/// Each of `-l`, `-w`, `-m` and `-c` asks for a mode, as often as it occurs;
/// every other token names a file. Without any flag the modes are lines,
/// words and bytes; without any file the one source is the standard input.
/// So there is always a mode and a source.
pub fn interpret_args(args: &[String]) -> (invocation: Invocation)
    ensures
        invocation.modes@ == requested_modes(token_views(args@)),
        label_views(invocation.sources@) == requested_sources(token_views(args@)),
        invocation.modes.len() > 0,
        invocation.sources.len() > 0,
{
    let ghost tokens = token_views(args@);
    let mut modes: Vec<Mode> = Vec::new();
    let mut sources: Vec<Option<String>> = Vec::new();
    let mut i: usize = 0;
    while i < args.len()
        invariant
            i <= args.len(),
            tokens == token_views(args@),
            modes@ == flag_modes(tokens.take(i as int)),
            sources.len() == file_names(tokens.take(i as int)).len(),
            forall|k: int|
                0 <= k < sources.len() ==> label_view(#[trigger] sources[k]) == Some(
                    file_names(tokens.take(i as int))[k],
                ),
        decreases args.len() - i,
    {
        assert(tokens.take(i + 1).drop_last() =~= tokens.take(i as int));
        assert(tokens.take(i + 1).last() == args[i as int]@);
        match Mode::from_str(args[i].as_str()) {
            Some(mode) => {
                modes.push(mode);
            },
            None => {
                sources.push(Some(args[i].clone()));
            },
        }
        i += 1;
    }
    assert(tokens.take(i as int) =~= tokens);
    if modes.len() == 0 {
        modes.push(Mode::Lines);
        modes.push(Mode::Words);
        modes.push(Mode::Bytes);
        assert(modes@ =~= default_modes());
    }
    if sources.len() == 0 {
        sources.push(None);
    }
    assert(label_views(sources@) =~= requested_sources(tokens));
    Invocation { modes, sources }
}

} // verus!
