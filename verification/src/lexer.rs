//! Splits a line of shell output or input into tokens.
//!
//! The tokens are `|`, `$`, `(`, `)`, words of the characters `a-zA-Z.`
//! (`Text`), and the ten-character permission strings that `ls -l` prints
//! (`Permissions`), each made of the characters `dlLsStT+@rwx-`. Runs of
//! spaces, tabs, line feeds and form feeds separate tokens and are skipped.
//! At each position the longest token wins; a permission string wins over a
//! word of the same length. A character that starts no token is an `Error`
//! token of its own.
use vstd::prelude::*;

use crate::text::chars_of;

verus! {

/// The kinds of token.
#[derive(Debug, Clone, Copy, PartialEq, Eq, Structural)]
pub enum Token {
    Pipe,
    Dollar,
    ParensOpen,
    ParensClose,
    Text,
    Permissions,
    Error,
}

/// Characters that make up a `Text` token.
pub open spec fn is_text_char(c: char) -> bool {
    ('a' <= c && c <= 'z') || ('A' <= c && c <= 'Z') || c == '.'
}

/// Characters that make up a `Permissions` token.
pub open spec fn is_permission_char(c: char) -> bool {
    c == 'd' || c == 'l' || c == 'L' || c == 's' || c == 'S' || c == 't' || c == 'T' || c == '+'
        || c == '@' || c == 'r' || c == 'w' || c == 'x' || c == '-'
}

/// Characters skipped between tokens.
pub open spec fn is_skipped_char(c: char) -> bool {
    c == ' ' || c == '\t' || c == '\n' || c == '\x0c'
}

/// The number of characters of the `Text` run that starts at `i`.
pub open spec fn text_run(s: Seq<char>, i: int) -> nat
    decreases s.len() - i,
{
    if 0 <= i < s.len() && is_text_char(s[i]) {
        1 + text_run(s, i + 1)
    } else {
        0
    }
}

/// The number of skipped characters from `i` on.
pub open spec fn skipped_run(s: Seq<char>, i: int) -> nat
    decreases s.len() - i,
{
    if 0 <= i < s.len() && is_skipped_char(s[i]) {
        1 + skipped_run(s, i + 1)
    } else {
        0
    }
}

/// Whether a permission string starts at `i`.
pub open spec fn permissions_at(s: Seq<char>, i: int) -> bool {
    &&& 0 <= i
    &&& i + 10 <= s.len()
    &&& forall|j: int| i <= j < i + 10 ==> is_permission_char(#[trigger] s[j])
}

/// The token that starts at `i`, and its length in characters.
pub open spec fn token_at(s: Seq<char>, i: int) -> (Token, nat) {
    let t = text_run(s, i);
    if permissions_at(s, i) && t <= 10 {
        (Token::Permissions, 10)
    } else if t > 0 {
        (Token::Text, t)
    } else if s[i] == '|' {
        (Token::Pipe, 1)
    } else if s[i] == '$' {
        (Token::Dollar, 1)
    } else if s[i] == '(' {
        (Token::ParensOpen, 1)
    } else if s[i] == ')' {
        (Token::ParensClose, 1)
    } else {
        (Token::Error, 1)
    }
}

/// A run never goes past the end.
pub proof fn lemma_runs_bounded(s: Seq<char>, i: int)
    requires
        0 <= i <= s.len(),
    ensures
        i + text_run(s, i) <= s.len(),
        i + skipped_run(s, i) <= s.len(),
    decreases s.len() - i,
{
    if i < s.len() {
        lemma_runs_bounded(s, i + 1);
    }
}

/// The tokens of `s` from position `i` on.
pub open spec fn tokens_from(s: Seq<char>, i: int) -> Seq<Token>
    decreases s.len() - i,
{
    if 0 <= i <= s.len() {
        proof {
            lemma_runs_bounded(s, i);
        }
        let start = i + skipped_run(s, i);
        if start >= s.len() {
            Seq::empty()
        } else {
            proof {
                lemma_runs_bounded(s, start);
            }
            let (t, n) = token_at(s, start);
            seq![t] + tokens_from(s, start + n)
        }
    } else {
        Seq::empty()
    }
}

/// A run of `Text` characters that reaches the end covers all of it.
proof fn lemma_text_run_to_end(s: Seq<char>, i: int)
    requires
        0 <= i <= s.len(),
        forall|j: int| i <= j < s.len() ==> is_text_char(#[trigger] s[j]),
    ensures
        text_run(s, i) == s.len() - i,
    decreases s.len() - i,
{
    if i < s.len() {
        lemma_text_run_to_end(s, i + 1);
    }
}

/// Nothing is left after the end.
proof fn lemma_no_tokens_at_end(s: Seq<char>)
    ensures
        tokens_from(s, s.len() as int) == Seq::<Token>::empty(),
{
    assert(skipped_run(s, s.len() as int) == 0);
}

/// The tokens of `s`.
pub open spec fn tokens(s: Seq<char>) -> Seq<Token> {
    tokens_from(s, 0)
}

/// Hands out the tokens of a string one at a time.
pub struct Lexer {
    source: Vec<char>,
    pos: usize,
}

impl View for Lexer {
    type V = Seq<Token>;

    /// The tokens that are still to come.
    closed spec fn view(&self) -> Seq<Token> {
        tokens_from(self.source@, self.pos as int)
    }
}

impl Token {
    /// A lexer over `source`, positioned before its first token.
    pub fn lexer(source: &str) -> (lex: Lexer)
        ensures
            lex@ == tokens(source@),
    {
        Lexer { source: chars_of(source), pos: 0 }
    }
}

fn is_text_char_exec(c: char) -> (r: bool)
    ensures
        r == is_text_char(c),
{
    ('a' <= c && c <= 'z') || ('A' <= c && c <= 'Z') || c == '.'
}

fn is_permission_char_exec(c: char) -> (r: bool)
    ensures
        r == is_permission_char(c),
{
    c == 'd' || c == 'l' || c == 'L' || c == 's' || c == 'S' || c == 't' || c == 'T' || c == '+'
        || c == '@' || c == 'r' || c == 'w' || c == 'x' || c == '-'
}

fn is_skipped_char_exec(c: char) -> (r: bool)
    ensures
        r == is_skipped_char(c),
{
    c == ' ' || c == '\t' || c == '\n' || c == '\x0c'
}

impl Lexer {
    /// The next token, or `None` once only skipped characters are left.
    pub fn next(&mut self) -> (r: Option<Token>)
        ensures
            old(self)@.len() == 0 ==> r is None && final(self)@ == old(self)@,
            old(self)@.len() > 0 ==> r == Some(old(self)@[0]) && final(self)@ == old(self)@.drop_first(),
    {
        let len = self.source.len();
        let ghost s = self.source@;
        let mut pos = self.pos;
        if pos > len {
            pos = len;
        }
        proof {
            if self.pos > len {
                assert(tokens_from(s, self.pos as int) == Seq::<Token>::empty());
                assert(tokens_from(s, len as int) == Seq::<Token>::empty()) by {
                    assert(skipped_run(s, len as int) == 0);
                }
            }
            assert(tokens_from(s, self.pos as int) == tokens_from(s, pos as int));
            lemma_runs_bounded(s, pos as int);
        }
        let ghost p0 = pos;
        while pos < len && is_skipped_char_exec(self.source[pos])
            invariant
                len == self.source.len(),
                s == self.source@,
                p0 <= pos <= len,
                pos + skipped_run(s, pos as int) == p0 + skipped_run(s, p0 as int),
            decreases len - pos,
        {
            pos = pos + 1;
        }
        if pos >= len {
            self.pos = pos;
            proof {
                assert(tokens_from(s, pos as int) == Seq::<Token>::empty()) by {
                    assert(skipped_run(s, pos as int) == 0);
                }
            }
            return None;
        }
        let start = pos;
        let c = self.source[start];
        let mut t = start;
        while t < len && is_text_char_exec(self.source[t])
            invariant
                len == self.source.len(),
                s == self.source@,
                start <= t <= len,
                t - start + text_run(s, t as int) == text_run(s, start as int),
            decreases len - t,
        {
            t = t + 1;
        }
        let text_len = t - start;
        let mut perm = len - start >= 10;
        if perm {
            let mut j = start;
            while j < start + 10
                invariant
                    len == self.source.len(),
                    s == self.source@,
                    start + 10 <= len,
                    start <= j <= start + 10,
                    perm == forall|m: int| start <= m < j ==> is_permission_char(#[trigger] s[m]),
                decreases start + 10 - j,
            {
                perm = perm && is_permission_char_exec(self.source[j]);
                j = j + 1;
            }
        }
        let tok;
        let n;
        if perm && text_len <= 10 {
            tok = Token::Permissions;
            n = 10;
        } else if text_len > 0 {
            tok = Token::Text;
            n = text_len;
        } else {
            n = 1;
            tok = if c == '|' {
                Token::Pipe
            } else if c == '$' {
                Token::Dollar
            } else if c == '(' {
                Token::ParensOpen
            } else if c == ')' {
                Token::ParensClose
            } else {
                Token::Error
            };
        }
        proof {
            lemma_runs_bounded(s, start as int);
            assert(token_at(s, start as int) == (tok, n as nat));
        }
        self.pos = start + n;
        Some(tok)
    }
}

/// A nonempty string made only of the letters `a-z`, `A-Z` and `.` is one
/// `Text` token: a `.` continues a word (`hello.txt` is one token). The one
/// exception is a string of exactly ten characters that are all permission
/// characters, which is a `Permissions` token.
pub proof fn law_word_is_one_text_token(s: Seq<char>)
    requires
        s.len() > 0,
        forall|i: int|
            0 <= i < s.len() ==> ('a' <= #[trigger] s[i] && s[i] <= 'z') || ('A' <= s[i] && s[i]
                <= 'Z') || s[i] == '.',
        !(s.len() == 10 && forall|i: int|
            0 <= i < 10 ==> (#[trigger] s[i] == 'd' || s[i] == 'l' || s[i] == 'L' || s[i] == 's'
                || s[i] == 'S' || s[i] == 't' || s[i] == 'T' || s[i] == '+' || s[i] == '@' || s[i]
                == 'r' || s[i] == 'w' || s[i] == 'x' || s[i] == '-')),
    ensures
        tokens(s) == seq![Token::Text],
{
    assert forall|j: int| 0 <= j < s.len() implies is_text_char(#[trigger] s[j]) by {
        assert(('a' <= s[j] && s[j] <= 'z') || ('A' <= s[j] && s[j] <= 'Z') || s[j] == '.');
    }
    lemma_text_run_to_end(s, 0);
    assert(!is_skipped_char(s[0]));
    assert(skipped_run(s, 0) == 0);
    if permissions_at(s, 0) && text_run(s, 0) <= 10 {
        assert forall|i: int| 0 <= i < 10 implies (#[trigger] s[i] == 'd' || s[i] == 'l' || s[i]
            == 'L' || s[i] == 's' || s[i] == 'S' || s[i] == 't' || s[i] == 'T' || s[i] == '+'
            || s[i] == '@' || s[i] == 'r' || s[i] == 'w' || s[i] == 'x' || s[i] == '-') by {
            assert(is_permission_char(s[i]));
        }
        assert(false);
    }
    assert(token_at(s, 0) == (Token::Text, s.len()));
    lemma_no_tokens_at_end(s);
    assert(tokens(s) =~= seq![Token::Text]);
}

/// Every string of ten characters out of `d l L s S t T + @ r w x -` is one
/// `Permissions` token, as the mode column of `ls -l` prints it (`lrwxrwxrwx`
/// of a symbolic link included).
pub proof fn law_mode_string_is_permissions(s: Seq<char>)
    requires
        s.len() == 10,
        forall|i: int|
            0 <= i < 10 ==> (#[trigger] s[i] == 'd' || s[i] == 'l' || s[i] == 'L' || s[i] == 's'
                || s[i] == 'S' || s[i] == 't' || s[i] == 'T' || s[i] == '+' || s[i] == '@' || s[i]
                == 'r' || s[i] == 'w' || s[i] == 'x' || s[i] == '-'),
    ensures
        tokens(s) == seq![Token::Permissions],
{
    assert(s[0] == s[0]);
    assert(!is_skipped_char(s[0]));
    assert(skipped_run(s, 0) == 0);
    assert forall|j: int| 0 <= j < 10 implies is_permission_char(#[trigger] s[j]) by {
        assert(s[j] == s[j]);
    }
    assert(permissions_at(s, 0));
    lemma_runs_bounded(s, 0);
    assert(token_at(s, 0) == (Token::Permissions, 10nat));
    lemma_no_tokens_at_end(s);
    assert(tokens(s) =~= seq![Token::Permissions]);
}

/// A line of spaces, tabs, line feeds and form feeds has no tokens.
pub proof fn law_separators_only(s: Seq<char>)
    requires
        forall|i: int|
            0 <= i < s.len() ==> (#[trigger] s[i] == ' ' || s[i] == '\t' || s[i] == '\n' || s[i]
                == '\x0c'),
    ensures
        tokens(s) == Seq::<Token>::empty(),
{
    assert forall|j: int| 0 <= j < s.len() implies is_skipped_char(#[trigger] s[j]) by {
        assert(s[j] == s[j]);
    }
    lemma_skipped_run_to_end(s, 0);
}

/// A run of skipped characters that reaches the end covers all of it.
proof fn lemma_skipped_run_to_end(s: Seq<char>, i: int)
    requires
        0 <= i <= s.len(),
        forall|j: int| i <= j < s.len() ==> is_skipped_char(#[trigger] s[j]),
    ensures
        skipped_run(s, i) == s.len() - i,
    decreases s.len() - i,
{
    if i < s.len() {
        lemma_skipped_run_to_end(s, i + 1);
    }
}

/// A single character is its own token: `|`, `$`, `(` and `)` are the
/// `Pipe`, `Dollar`, `ParensOpen` and `ParensClose` tokens, a letter or `.` is
/// `Text`, a space, tab, line feed or form feed gives no token, and any other
/// character is an `Error` token.
pub proof fn law_single_character(c: char)
    ensures
        tokens(seq![c]) == if c == '|' {
            seq![Token::Pipe]
        } else if c == '$' {
            seq![Token::Dollar]
        } else if c == '(' {
            seq![Token::ParensOpen]
        } else if c == ')' {
            seq![Token::ParensClose]
        } else if ('a' <= c && c <= 'z') || ('A' <= c && c <= 'Z') || c == '.' {
            seq![Token::Text]
        } else if c == ' ' || c == '\t' || c == '\n' || c == '\x0c' {
            Seq::<Token>::empty()
        } else {
            seq![Token::Error]
        },
{
    let s = seq![c];
    assert(s[0] == c);
    assert(text_run(s, 1) == 0);
    assert(skipped_run(s, 1) == 0);
    lemma_no_tokens_at_end(s);
    if c == ' ' || c == '\t' || c == '\n' || c == '\x0c' {
        assert(skipped_run(s, 0) == 1);
    } else {
        assert(skipped_run(s, 0) == 0);
        assert(!permissions_at(s, 0));
        assert(tokens(s) =~= seq![token_at(s, 0).0]);
    }
}

} // verus!
