use vstd::prelude::*;

use crate::bms::push_char;

verus! {

/// What the user asked the editor to do.
#[derive(Debug, Clone, Copy, PartialEq, Eq, Structural)]
pub enum Command {
    Replace,
    Merge,
    RemoveUnusedKeysounds,
    RemoveUnusedFiles,
    Quit,
    Unknown(char),
    Empty,
}

/// The command that an answer whose first character is `c` selects.
pub open spec fn command_of(c: char) -> Command {
    if c == 'r' {
        Command::Replace
    } else if c == 'm' {
        Command::Merge
    } else if c == 'u' {
        Command::RemoveUnusedKeysounds
    } else if c == 'q' {
        Command::Quit
    } else if c == 'a' {
        Command::RemoveUnusedFiles
    } else {
        Command::Unknown(c)
    }
}

impl Command {
    /// The command selected by a line of input: its first character decides.
    pub fn from_input(input: &str) -> (r: Command)
        ensures
            input@.len() == 0 ==> r == Command::Empty,
            input@.len() > 0 ==> r == command_of(input@[0]),
    {
        if input.unicode_len() == 0 {
            return Command::Empty;
        }
        let c = input.get_char(0);
        if c == 'r' {
            Command::Replace
        } else if c == 'm' {
            Command::Merge
        } else if c == 'u' {
            Command::RemoveUnusedKeysounds
        } else if c == 'q' {
            Command::Quit
        } else if c == 'a' {
            Command::RemoveUnusedFiles
        } else {
            Command::Unknown(c)
        }
    }
}

/// Whether an answer to a yes/no question is yes: it starts with `y` or `Y`.
pub fn is_yes(answer: &str) -> (r: bool)
    ensures
        r == (answer@.len() > 0 && (answer@[0] == 'y' || answer@[0] == 'Y')),
{
    if answer.unicode_len() == 0 {
        return false;
    }
    let c = answer.get_char(0);
    c == 'y' || c == 'Y'
}

/// The pieces of `s` between occurrences of `sep`, empty pieces included;
/// there is always at least one.
pub open spec fn split_spec(s: Seq<char>, sep: char) -> Seq<Seq<char>>
    decreases s.len(),
{
    if s.len() == 0 {
        seq![Seq::empty()]
    } else {
        let pieces = split_spec(s.drop_last(), sep);
        if s.last() == sep {
            pieces.push(Seq::empty())
        } else {
            pieces.drop_last().push(pieces.last().push(s.last()))
        }
    }
}

proof fn lemma_split_nonempty(s: Seq<char>, sep: char)
    ensures
        split_spec(s, sep).len() >= 1,
    decreases s.len(),
{
    if s.len() > 0 {
        lemma_split_nonempty(s.drop_last(), sep);
    }
}

/// Splits a line at each occurrence of `sep`.
pub fn split_fields(line: &str, sep: char) -> (r: Vec<String>)
    ensures
        r@.map_values(|p: String| p@) == split_spec(line@, sep),
{
    let n = line.unicode_len();
    let mut pieces: Vec<String> = Vec::new();
    let mut current = String::new();
    let mut i: usize = 0;
    while i < n
        invariant
            n == line@.len(),
            0 <= i <= n,
            pieces@.map_values(|p: String| p@).push(current@) == split_spec(
                line@.take(i as int),
                sep,
            ),
        decreases n - i,
    {
        let c = line.get_char(i);
        let ghost before = pieces@.map_values(|p: String| p@).push(current@);
        proof {
            let t = line@.take(i + 1);
            assert(t.drop_last() =~= line@.take(i as int));
            lemma_split_nonempty(line@.take(i as int), sep);
        }
        if c == sep {
            let ghost prev = pieces@;
            pieces.push(current);
            current = String::new();
            proof {
                assert(pieces@.map_values(|p: String| p@) =~= prev.map_values(|p: String| p@).push(
                    before.last(),
                ));
                assert(pieces@.map_values(|p: String| p@).push(current@) =~= before.push(
                    Seq::empty(),
                ));
            }
        } else {
            push_char(&mut current, c);
            proof {
                assert(pieces@.map_values(|p: String| p@).push(current@) =~= before.drop_last().push(
                    before.last().push(c),
                ));
            }
        }
        i = i + 1;
    }
    assert(line@.take(n as int) =~= line@);
    let ghost prev = pieces@;
    pieces.push(current);
    assert(pieces@.map_values(|p: String| p@) =~= prev.map_values(|p: String| p@).push(current@));
    pieces
}

} // verus!
