//! Lines typed at the prompt: which of them are commands, and the words
//! that a command is made of.

use crate::text::{chars_of, trim_bounds, trimmed};
use vstd::prelude::*;
use vstd::string::{StrSliceExecFns, StringExecFns};

verus! {

/// The error of `shellwords::split`: a quote that is never closed.
#[verifier::external_type_specification]
#[verifier::external_body]
pub struct ExMismatchedQuotes(shellwords::MismatchedQuotes);

/// The words that `shellwords::split` cuts a text into, as a Bourne shell
/// would; `None` where a quote in the text is never closed.
pub uninterp spec fn shell_words(text: Seq<char>) -> Option<Seq<Seq<char>>>;

/// `shellwords::split` computes its result from the text alone, with fixed
/// patterns: the same text gives the same words. Which words, this library
/// does not state; it names them `shell_words`.
pub assume_specification[ shellwords::split ](input: &str) -> (r: Result<
    Vec<String>,
    shellwords::MismatchedQuotes,
>)
    ensures
        match r {
            Ok(words) => shell_words(input@) == Some(words.deep_view()),
            Err(_) => shell_words(input@) is None,
        },
;

/// What a line asks for.
#[derive(Debug)]
pub enum Input {
    /// A command, as the arguments that its parser takes: the name `#`,
    /// then the words of the command.
    Command(Vec<String>),
    /// A command with a quote that is never closed.
    MismatchedQuotes,
    /// Something said to the assistant, without the white space around it.
    Chat(String),
}

/// A line is a command where it begins with `#`.
pub open spec fn is_command_line(line: Seq<char>) -> bool {
    line.len() > 0 && line[0] == '#'
}

/// The text of a command line: the line without the `#` at its front and
/// without its last character, the line break that ends it.
pub open spec fn command_text(line: Seq<char>) -> Seq<char> {
    if line.len() >= 2 {
        line.subrange(1, line.len() - 1)
    } else {
        Seq::empty()
    }
}

/// The arguments that stand for the words of a command: `#` in the place
/// of the program's name, then the words.
pub open spec fn arguments_of(words: Seq<Seq<char>>) -> Seq<Seq<char>> {
    seq![seq!['#']] + words
}

/// The text of a command line, or `None` for a line that is no command.
pub fn command_text_of(line: &str) -> (text: Option<String>)
    ensures
        match text {
            Some(t) => is_command_line(line@) && t@ == command_text(line@),
            None => !is_command_line(line@),
        },
{
    let chars = chars_of(line);
    let len: usize = chars.len();
    if len == 0 || chars[0] != '#' {
        return None;
    }
    if len >= 2 {
        Some(String::from_str(line.substring_char(1, len - 1)))
    } else {
        Some(String::new())
    }
}

/// Puts `#` in front of the words of a command.
pub fn command_arguments(words: Vec<String>) -> (arguments: Vec<String>)
    ensures
        arguments.deep_view() == arguments_of(words.deep_view()),
{
    let mut words = words;
    let ghost given = words.deep_view();
    let mut arguments: Vec<String> = Vec::new();
    arguments.push(String::from_str("#"));
    proof {
        reveal_strlit("#");
        assert(arguments@[0]@ =~= seq!['#']);
    }
    let ghost head = arguments@;
    let ghost tail = words@;
    arguments.append(&mut words);
    proof {
        assert(arguments@ == head + tail);
        assert(arguments.deep_view() =~= arguments_of(given)) by {
            assert forall|i: int| 0 <= i < arguments@.len() implies arguments.deep_view()[i]
                == arguments_of(given)[i] by {
                if i > 0 {
                    assert(arguments@[i] == tail[i - 1]);
                }
            }
        }
    }
    arguments
}

/// What the words of a command line, as the shell cut them, ask for.
pub fn command_input(words: Result<Vec<String>, shellwords::MismatchedQuotes>) -> (input: Input)
    ensures
        match words {
            Ok(w) => (input matches Input::Command(arguments) && arguments.deep_view()
                == arguments_of(w.deep_view())),
            Err(_) => input is MismatchedQuotes,
        },
{
    match words {
        Ok(w) => Input::Command(command_arguments(w)),
        Err(_) => Input::MismatchedQuotes,
    }
}

/// What a line asks for. A line that begins with `#` is a command and is cut
/// into words as a shell would; any other line is said to the assistant.
pub fn read_input(line: &str) -> (input: Input)
    ensures
        !is_command_line(line@) ==> (input matches Input::Chat(text) && text@ == trimmed(
            line@,
        )),
        is_command_line(line@) ==> match shell_words(command_text(line@)) {
            Some(words) => (input matches Input::Command(arguments) && arguments.deep_view()
                == arguments_of(words)),
            None => input is MismatchedQuotes,
        },
{
    match command_text_of(line) {
        Some(text) => command_input(shellwords::split(text.as_str())),
        None => {
            let chars = chars_of(line);
            let (from, to) = trim_bounds(&chars, 0, chars.len());
            assert(chars@.subrange(0, chars.len() as int) == line@);
            Input::Chat(String::from_str(line.substring_char(from, to)))
        },
    }
}

} // verus!
