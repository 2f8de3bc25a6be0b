//! What a command line that the user entered asks the shell to do.
use vstd::prelude::*;

use crate::text::{chars_eq, chars_of, split_whitespace, string_views, words_of};

verus! {

/// What to do for a command line.
#[derive(Debug, PartialEq, Eq)]
pub enum Command {
    /// The line holds no word: nothing to do.
    Empty,
    /// `cd`, with the directory to change to; without one, the home directory.
    ChangeDir(Option<String>),
    /// `add_to_env NAME VALUE`: add `VALUE` to the variable `NAME`.
    AddToEnv(String, String),
    /// `fg`: resume the job stopped last.
    Resume,
    /// Run the program with the arguments. The flag is set when the line was
    /// an `add_to_env` with fewer than two arguments, which is reported before
    /// the line is run as a program.
    Run(String, Vec<String>, bool),
}

/// The line without the line feed it may start with.
pub open spec fn command_text(line: Seq<char>) -> Seq<char> {
    if line.len() > 0 && line[0] == '\n' {
        line.drop_first()
    } else {
        line
    }
}

/// `command` is what the words `ws` of a line ask for.
pub open spec fn command_for(command: Command, ws: Seq<Seq<char>>) -> bool {
    match command {
        Command::Empty => ws.len() == 0,
        Command::ChangeDir(dir) => ws.len() > 0 && ws[0] == "cd"@ && match dir {
            Some(d) => ws.len() > 1 && d@ == ws[1],
            None => ws.len() == 1,
        },
        Command::AddToEnv(name, value) => ws.len() >= 3 && ws[0] == "add_to_env"@ && name@ == ws[1]
            && value@ == ws[2],
        Command::Resume => ws.len() > 0 && ws[0] == "fg"@,
        Command::Run(program, args, complain) => {
            &&& ws.len() > 0
            &&& ws[0] != "cd"@
            &&& ws[0] != "fg"@
            &&& !(ws[0] == "add_to_env"@ && ws.len() >= 3)
            &&& program@ == ws[0]
            &&& string_views(args@) == ws.drop_first()
            &&& complain == (ws[0] == "add_to_env"@)
        },
    }
}

/// Whether the word `w` is `name`.
fn word_is(w: &String, name: &str) -> (r: bool)
    ensures
        r == (w@ == name@),
{
    let a = chars_of(w.as_str());
    let b = chars_of(name);
    chars_eq(&a, &b)
}

/// What the command line `input` asks for: its words, after a line feed at
/// its start is dropped, decide.
pub fn parse_command(input: &str) -> (r: Command)
    ensures
        command_for(r, words_of(command_text(input@))),
{
    let mut chars = chars_of(input);
    if chars.len() > 0 && chars[0] == '\n' {
        chars.remove(0);
        assert(chars@ =~= input@.drop_first());
    }
    let mut words = split_whitespace(&chars, 0);
    let ghost ws = string_views(words@);
    assert(ws == words_of(command_text(input@)));
    if words.len() == 0 {
        return Command::Empty;
    }
    assert(ws[0] == words@[0]@);
    if word_is(&words[0], "cd") {
        if words.len() == 1 {
            return Command::ChangeDir(None);
        }
        assert(ws[1] == words@[1]@);
        let dir = words.remove(1);
        return Command::ChangeDir(Some(dir));
    }
    if word_is(&words[0], "add_to_env") && words.len() >= 3 {
        assert(ws[1] == words@[1]@);
        assert(ws[2] == words@[2]@);
        let value = words.remove(2);
        let name = words.remove(1);
        return Command::AddToEnv(name, value);
    }
    if word_is(&words[0], "fg") {
        return Command::Resume;
    }
    let complain = word_is(&words[0], "add_to_env");
    let program = words.remove(0);
    assert(string_views(words@) =~= ws.drop_first());
    Command::Run(program, words, complain)
}

/// Whether the exit status of `jc` shows that it turned the command's output
/// into JSON: it exited with a status code below 100.
pub fn structured_output_available(code: Option<i32>) -> (r: bool)
    ensures
        r == (code matches Some(c) && c < 100),
{
    match code {
        Some(c) => c < 100,
        None => false,
    }
}

/// The TOML text of the JSON document `json`, when `json` reads as a TOML
/// value and that value can be written as TOML text.
pub uninterp spec fn json_as_toml(json: Seq<u8>) -> Option<Seq<char>>;

/// Reads `json` with `serde_json::from_slice` into a `toml::Value` and writes
/// that value with `toml::to_string` (what the value's `Display` prints).
/// `None` when either step fails; the text is named `json_as_toml`.
#[verifier::external_body]
pub fn toml_of_json(json: &[u8]) -> (r: Option<String>)
    ensures
        match r {
            Some(s) => json_as_toml(json@) == Some(s@),
            None => json_as_toml(json@) is None,
        },
{
    match serde_json::from_slice::<toml::Value>(json) {
        Ok(v) => toml::to_string(&v).ok(),
        Err(_) => None,
    }
}

/// What to print for a one-word command that `jc` ran: when `jc` exited with
/// a status below 100, the TOML text of its JSON output (`None` inside when
/// that output cannot be turned into TOML); otherwise nothing, and the word
/// is run as a program.
pub fn structured_output(code: Option<i32>, stdout: &[u8]) -> (r: Option<Option<String>>)
    ensures
        r is Some <==> (code matches Some(c) && c < 100),
        r matches Some(t) ==> match t {
            Some(s) => json_as_toml(stdout@) == Some(s@),
            None => json_as_toml(stdout@) is None,
        },
{
    if structured_output_available(code) {
        Some(toml_of_json(stdout))
    } else {
        None
    }
}

} // verus!
