//! The line editor of the shell's prompt: the line being typed, the cursor in
//! it, and the history of the lines entered, which Up and Down walk through.
//! Each method is one key; the terminal output stays with the caller.
//! Positions in the line (the cursor, lengths) count bytes of its UTF-8 text,
//! and the cursor may lie inside a character; a key whose edit would cut a
//! character is left out by the method's `requires` (see the `can_` methods).
use vstd::prelude::*;

use crate::completion::{
    complete_command, completion_of, law_completion_extends_line, name_set, trimmed_chars,
};
use crate::text::{
    char_index_at, char_index_of, chars_eq, chars_of, is_char_boundary_at, lemma_char_index_at,
    lemma_utf8_len_concat, lemma_utf8_prefix_grows, string_of, string_views, trimmed, utf8_len,
    utf8_len_of, utf8_width,
};

verus! {

/// The position where deleting the word before the cursor `c` stops: just
/// at the last space before `c`, or the start of the line when there is none.
pub open spec fn word_start(s: Seq<char>, c: int) -> int
    decreases c,
{
    if c <= 0 || c > s.len() {
        0
    } else if s[c - 1] == ' ' {
        c - 1
    } else {
        word_start(s, c - 1)
    }
}

/// Ctrl-W stops at the last space among the characters before the cursor
/// `c`, or at the start of the line when there is none: only what lies
/// before the cursor decides, and when the cursor is not at the start at
/// least one character goes.
pub proof fn law_word_start(s: Seq<char>, c: int)
    requires
        0 <= c <= s.len(),
    ensures
        0 <= word_start(s, c) <= c,
        c > 0 ==> word_start(s, c) < c,
        forall|j: int| word_start(s, c) < j < c ==> #[trigger] s[j] != ' ',
        (exists|j: int| 0 <= j < c && #[trigger] s[j] == ' ') ==> s[word_start(s, c)] == ' ',
        !(exists|j: int| 0 <= j < c && #[trigger] s[j] == ' ') ==> word_start(s, c) == 0,
    decreases c,
{
    if c > 0 && s[c - 1] != ' ' {
        law_word_start(s, c - 1);
        if exists|j: int| 0 <= j < c && #[trigger] s[j] == ' ' {
            let j = choose|j: int| 0 <= j < c && #[trigger] s[j] == ' ';
            assert(j < c - 1);
        }
    }
}

/// The number of columns that the prompt takes before the line.
pub const PROMPT_LENGTH: usize = 2;

/// Whether the screen must scroll up a row before a character goes in inside
/// a line of `line_len` bytes, on a terminal `width` columns wide and
/// `height` rows high, when the line started on row `start_row`: the prompt
/// and the line fill whole rows, and they end on the bottom row or started on
/// the last row.
pub fn needs_scroll(line_len: usize, width: u16, height: u16, start_row: u16) -> (r: bool)
    requires
        width > 0,
        line_len + PROMPT_LENGTH <= usize::MAX,
        (line_len + PROMPT_LENGTH) % (width as int) == 0 ==> start_row + (line_len + 2) / (
        width as int) <= usize::MAX,
        (line_len + PROMPT_LENGTH) % (width as int) == 0 && start_row + (line_len + 2) / (
        width as int) != height ==> height > 0,
    ensures
        r == ((line_len + PROMPT_LENGTH) % (width as int) == 0 && (start_row + (line_len + 2) / (
        width as int) == height || start_row == height - 1)),
{
    let w = width as usize;
    if (line_len + PROMPT_LENGTH) % w != 0 {
        return false;
    }
    if start_row as usize + (line_len + 2) / w == height as usize {
        return true;
    }
    start_row == height - 1
}

/// What entering the line leads to.
#[derive(Debug, PartialEq, Eq)]
pub enum Submission {
    /// The line was empty: nothing happens.
    Nothing,
    /// The line was `exit`: the shell ends.
    Exit,
    /// Run this command line.
    Run(String),
}

/// Whether every line of `h` has fewer bytes than the largest `usize`.
pub open spec fn lines_fit(h: Seq<Seq<char>>) -> bool {
    forall|i: int| 0 <= i < h.len() ==> utf8_len(#[trigger] h[i]) < usize::MAX
}

/// A text takes no bytes exactly when it is empty.
proof fn lemma_utf8_len_zero(s: Seq<char>)
    ensures
        (utf8_len(s) == 0) == (s.len() == 0),
{
    if s.len() > 0 {
        assert(utf8_len(s) == utf8_len(s.drop_last()) + utf8_width(s.last()));
    }
}

/// The bytes of a text with one character put in at character `j`.
proof fn lemma_utf8_len_insert(s: Seq<char>, j: int, c: char)
    requires
        0 <= j <= s.len(),
    ensures
        utf8_len(s.insert(j, c)) == utf8_len(s) + utf8_width(c),
        utf8_len(s.insert(j, c).take(j)) == utf8_len(s.take(j)),
{
    assert(s.insert(j, c) =~= s.take(j) + (seq![c] + s.skip(j)));
    assert(s =~= s.take(j) + s.skip(j));
    assert(s.insert(j, c).take(j) =~= s.take(j));
    lemma_utf8_len_concat(s.take(j), seq![c] + s.skip(j));
    lemma_utf8_len_concat(seq![c], s.skip(j));
    lemma_utf8_len_concat(s.take(j), s.skip(j));
    assert(seq![c].drop_last() =~= Seq::<char>::empty());
    assert(seq![c].last() == c);
    assert(utf8_len(seq![c].drop_last()) == 0);
    assert(utf8_len(seq![c]) == utf8_width(c));
}

/// The bytes of a text with the character at `j` taken out.
proof fn lemma_utf8_len_remove(s: Seq<char>, j: int)
    requires
        0 <= j < s.len(),
    ensures
        utf8_len(s.remove(j)) + utf8_width(s[j]) == utf8_len(s),
        utf8_len(s.remove(j).take(j)) == utf8_len(s.take(j)),
        utf8_len(s.take(j)) <= utf8_len(s.remove(j)),
{
    assert(s.remove(j) =~= s.take(j) + s.skip(j + 1));
    assert(s =~= s.take(j) + (seq![s[j]] + s.skip(j + 1)));
    assert(s.remove(j).take(j) =~= s.take(j));
    lemma_utf8_len_concat(s.take(j), s.skip(j + 1));
    lemma_utf8_len_concat(s.take(j), seq![s[j]] + s.skip(j + 1));
    lemma_utf8_len_concat(seq![s[j]], s.skip(j + 1));
    assert(seq![s[j]].drop_last() =~= Seq::<char>::empty());
    assert(seq![s[j]].last() == s[j]);
    assert(utf8_len(seq![s[j]].drop_last()) == 0);
    assert(utf8_len(seq![s[j]]) == utf8_width(s[j]));
}

/// The prompt's state.
pub struct LineEditor {
    line: Vec<char>,
    cursor: usize,
    history: Vec<String>,
    history_index: usize,
}

impl LineEditor {
    /// The line being typed.
    pub closed spec fn text(self) -> Seq<char> {
        self.line@
    }

    /// The cursor, as the number of bytes of the line before it.
    pub closed spec fn cursor_pos(self) -> nat {
        self.cursor as nat
    }

    /// The lines entered so far, oldest first.
    pub closed spec fn entered(self) -> Seq<Seq<char>> {
        string_views(self.history@)
    }

    /// The position in the history that Up and Down move from.
    pub closed spec fn history_pos(self) -> nat {
        self.history_index as nat
    }

    /// The cursor lies in the line, the history position in the history, and
    /// no line is as long as the largest `usize` in bytes.
    pub closed spec fn wf(self) -> bool {
        &&& utf8_len(self.line@) < usize::MAX
        &&& self.cursor <= utf8_len(self.line@)
        &&& self.history_index <= self.history.len()
        &&& lines_fit(string_views(self.history@))
    }

    /// An empty line, with the cursor at its start and the history position
    /// past the last of the lines `history`.
    pub fn new(history: Vec<String>) -> (r: LineEditor)
        requires
            lines_fit(string_views(history@)),
        ensures
            r.wf(),
            r.text() == Seq::<char>::empty(),
            r.cursor_pos() == 0,
            r.entered() == string_views(history@),
            r.history_pos() == history@.len(),
    {
        let n = history.len();
        LineEditor { line: Vec::new(), cursor: 0, history, history_index: n }
    }

    /// The line being typed.
    pub fn line(&self) -> (r: String)
        ensures
            r@ == self.text(),
    {
        string_of(&self.line, 0, self.line.len())
    }

    /// The number of bytes of the line.
    pub fn len(&self) -> (r: usize)
        requires
            self.wf(),
        ensures
            r == utf8_len(self.text()),
    {
        assert(self.line@.take(self.line@.len() as int) =~= self.line@);
        utf8_len_of(&self.line, self.line.len())
    }

    /// The number of bytes of the line before the cursor.
    pub fn cursor(&self) -> (r: usize)
        ensures
            r == self.cursor_pos(),
    {
        self.cursor
    }

    /// The position in the history that Up and Down move from.
    pub fn history_position(&self) -> (r: usize)
        ensures
            r == self.history_pos(),
    {
        self.history_index
    }

    /// The lines entered so far, oldest first.
    pub fn history(&self) -> (r: &Vec<String>)
        ensures
            string_views(r@) == self.entered(),
    {
        &self.history
    }

    /// Whether `delete_word` may run: the cursor lies between two characters.
    pub fn can_delete_word(&self) -> (r: bool)
        requires
            self.wf(),
        ensures
            r == is_char_boundary_at(self.text(), self.cursor_pos() as int),
    {
        char_index_of(&self.line, self.cursor).is_some()
    }

    /// Whether `backspace` may run: the cursor is at the start, or the byte
    /// before it starts a character.
    pub fn can_backspace(&self) -> (r: bool)
        requires
            self.wf(),
        ensures
            r == (self.cursor_pos() > 0 ==> is_char_boundary_at(self.text(), self.cursor_pos() - 1)),
    {
        if self.cursor == 0 {
            true
        } else {
            char_index_of(&self.line, self.cursor - 1).is_some()
        }
    }

    /// Whether `insert_char` may run: a character put in before the end goes
    /// between two characters, and the line stays short enough.
    pub fn can_insert(&self) -> (r: bool)
        requires
            self.wf(),
        ensures
            r == (utf8_len(self.text()) + 4 < usize::MAX && (self.cursor_pos() + 1 < utf8_len(
                self.text(),
            ) ==> is_char_boundary_at(self.text(), self.cursor_pos() as int))),
    {
        let n = self.len();
        if n >= usize::MAX - 4 {
            return false;
        }
        if self.cursor + 1 < n {
            char_index_of(&self.line, self.cursor).is_some()
        } else {
            true
        }
    }

    /// Ctrl-W: deletes from the last space before the cursor (or from the
    /// start of the line) up to the cursor, and puts the cursor there. Returns
    /// the number of bytes deleted. Moves the history position past the last
    /// line.
    pub fn delete_word(&mut self) -> (r: usize)
        requires
            old(self).wf(),
            is_char_boundary_at(old(self).text(), old(self).cursor_pos() as int),
        ensures
            final(self).wf(),
            final(self).entered() == old(self).entered(),
            final(self).history_pos() == old(self).entered().len(),
            old(self).text().len() == 0 ==> r == 0 && final(self).text() == old(self).text()
                && final(self).cursor_pos() == old(self).cursor_pos(),
            old(self).text().len() > 0 ==> {
                let s = old(self).text();
                let c = char_index_at(s, old(self).cursor_pos() as int);
                let w = word_start(s, c);
                &&& final(self).text() == s.take(w) + s.skip(c)
                &&& final(self).cursor_pos() == utf8_len(s.take(w))
                &&& r == old(self).cursor_pos() - utf8_len(s.take(w))
            },
    {
        self.history_index = self.history.len();
        if self.line.len() == 0 {
            return 0;
        }
        let ghost s = self.line@;
        let cur = match char_index_of(&self.line, self.cursor) {
            Some(k) => k,
            None => {
                return 0;
            },
        };
        let mut j = cur;
        while j > 0 && self.line[j - 1] != ' '
            invariant
                j <= cur <= self.line.len(),
                s == self.line@,
                word_start(s, j as int) == word_start(s, cur as int),
            decreases j,
        {
            j = j - 1;
        }
        let start = if j > 0 {
            j - 1
        } else {
            0
        };
        let mut kept: Vec<char> = Vec::new();
        let mut i: usize = 0;
        while i < start
            invariant
                start <= cur <= self.line.len(),
                s == self.line@,
                0 <= i <= start,
                kept@ == s.take(i as int),
            decreases start - i,
        {
            kept.push(self.line[i]);
            assert(kept@ =~= s.take(i + 1));
            i = i + 1;
        }
        let mut k: usize = cur;
        while k < self.line.len()
            invariant
                start <= cur <= k <= self.line.len(),
                s == self.line@,
                kept@ == s.take(start as int) + s.subrange(cur as int, k as int),
            decreases self.line.len() - k,
        {
            kept.push(self.line[k]);
            assert(kept@ =~= s.take(start as int) + s.subrange(cur as int, k + 1));
            k = k + 1;
        }
        assert(s.subrange(cur as int, s.len() as int) =~= s.skip(cur as int));
        let new_cursor = utf8_len_of(&self.line, start);
        proof {
            lemma_utf8_prefix_grows(s, start as int, cur as int);
            lemma_utf8_len_concat(s.take(start as int), s.skip(cur as int));
            assert(s =~= s.take(cur as int) + s.skip(cur as int));
            lemma_utf8_len_concat(s.take(cur as int), s.skip(cur as int));
        }
        let removed = self.cursor - new_cursor;
        self.line = kept;
        self.cursor = new_cursor;
        removed
    }

    /// Backspace: deletes the character that starts just before the cursor,
    /// if the cursor is not at the start, and moves the cursor back one byte.
    /// Returns whether it deleted one. Moves the history position past the
    /// last line.
    pub fn backspace(&mut self) -> (r: bool)
        requires
            old(self).wf(),
            old(self).cursor_pos() > 0 ==> is_char_boundary_at(
                old(self).text(),
                old(self).cursor_pos() - 1,
            ),
        ensures
            final(self).wf(),
            final(self).entered() == old(self).entered(),
            final(self).history_pos() == old(self).entered().len(),
            r == (old(self).cursor_pos() > 0),
            r ==> final(self).text() == old(self).text().remove(
                char_index_at(old(self).text(), old(self).cursor_pos() - 1),
            ) && final(self).cursor_pos() == old(self).cursor_pos() - 1,
            !r ==> final(self).text() == old(self).text() && final(self).cursor_pos() == 0,
    {
        self.history_index = self.history.len();
        if self.cursor == 0 {
            return false;
        }
        let ghost s = self.line@;
        let j = match char_index_of(&self.line, self.cursor - 1) {
            Some(j) => j,
            None => {
                return false;
            },
        };
        proof {
            if j == s.len() {
                assert(s.take(j as int) =~= s);
            }
            assert(j < s.len());
            lemma_utf8_len_remove(s, j as int);
        }
        self.cursor = self.cursor - 1;
        self.line.remove(j);
        true
    }

    /// Ctrl-U: empties the line. Moves the history position past the last line.
    pub fn clear_line(&mut self)
        requires
            old(self).wf(),
        ensures
            final(self).wf(),
            final(self).entered() == old(self).entered(),
            final(self).history_pos() == old(self).entered().len(),
            final(self).text() == Seq::<char>::empty(),
            final(self).cursor_pos() == 0,
    {
        self.history_index = self.history.len();
        self.line = Vec::new();
        self.cursor = 0;
        assert(utf8_len(self.line@) == 0);
    }

    /// Any other key: empties the line, as Ctrl-U does.
    pub fn reset(&mut self)
        requires
            old(self).wf(),
        ensures
            final(self).wf(),
            final(self).entered() == old(self).entered(),
            final(self).history_pos() == old(self).entered().len(),
            final(self).text() == Seq::<char>::empty(),
            final(self).cursor_pos() == 0,
    {
        self.clear_line();
    }

    /// A printable key `k`. The cursor moves on one byte; when it then still
    /// lies before the last byte, `k` goes in at the old cursor, otherwise `k`
    /// goes at the end of the line. Returns whether `k` went in before the
    /// end. Sets the history position to the first line.
    pub fn insert_char(&mut self, k: char) -> (r: bool)
        requires
            old(self).wf(),
            utf8_len(old(self).text()) + 4 < usize::MAX,
            old(self).cursor_pos() + 1 < utf8_len(old(self).text()) ==> is_char_boundary_at(
                old(self).text(),
                old(self).cursor_pos() as int,
            ),
        ensures
            final(self).wf(),
            final(self).entered() == old(self).entered(),
            final(self).history_pos() == 0,
            final(self).cursor_pos() == old(self).cursor_pos() + 1,
            r == (old(self).cursor_pos() + 1 < utf8_len(old(self).text())),
            r ==> final(self).text() == old(self).text().insert(
                char_index_at(old(self).text(), old(self).cursor_pos() as int),
                k,
            ),
            !r ==> final(self).text() == old(self).text().push(k),
    {
        let ghost s = self.line@;
        let n = self.len();
        let pos = self.cursor + 1;
        self.history_index = 0;
        if pos < n && self.line.len() != 0 {
            let j = match char_index_of(&self.line, self.cursor) {
                Some(j) => j,
                None => {
                    return false;
                },
            };
            proof {
                lemma_utf8_len_insert(s, j as int, k);
            }
            self.line.insert(j, k);
            self.cursor = pos;
            true
        } else {
            proof {
                lemma_utf8_len_zero(s);
                assert(s.push(k).drop_last() =~= s);
            }
            self.line.push(k);
            self.cursor = pos;
            false
        }
    }

    /// Left: moves the cursor back one byte, unless it is at the start.
    /// Returns whether it moved. Moves the history position past the last line.
    pub fn move_left(&mut self) -> (r: bool)
        requires
            old(self).wf(),
        ensures
            final(self).wf(),
            final(self).entered() == old(self).entered(),
            final(self).history_pos() == old(self).entered().len(),
            final(self).text() == old(self).text(),
            r == (old(self).cursor_pos() > 0),
            r ==> final(self).cursor_pos() == old(self).cursor_pos() - 1,
            !r ==> final(self).cursor_pos() == old(self).cursor_pos(),
    {
        self.history_index = self.history.len();
        if self.cursor != 0 {
            self.cursor = self.cursor - 1;
            true
        } else {
            false
        }
    }

    /// Right: moves the cursor on one byte, unless it is at the end.
    /// Returns whether it moved. Moves the history position past the last line.
    pub fn move_right(&mut self) -> (r: bool)
        requires
            old(self).wf(),
        ensures
            final(self).wf(),
            final(self).entered() == old(self).entered(),
            final(self).history_pos() == old(self).entered().len(),
            final(self).text() == old(self).text(),
            r == (old(self).cursor_pos() < utf8_len(old(self).text())),
            r ==> final(self).cursor_pos() == old(self).cursor_pos() + 1,
            !r ==> final(self).cursor_pos() == old(self).cursor_pos(),
    {
        self.history_index = self.history.len();
        let n = self.len();
        if self.cursor < n {
            self.cursor = self.cursor + 1;
            true
        } else {
            false
        }
    }

    /// Up: when the history position is not at the first line, moves it back
    /// one line, makes that line the one being typed and puts the cursor at
    /// its end. Returns whether it did.
    pub fn history_up(&mut self) -> (r: bool)
        requires
            old(self).wf(),
        ensures
            final(self).wf(),
            final(self).entered() == old(self).entered(),
            r == (old(self).history_pos() > 0),
            r ==> {
                &&& final(self).history_pos() == old(self).history_pos() - 1
                &&& final(self).text() == old(self).entered()[final(self).history_pos() as int]
                &&& final(self).cursor_pos() == utf8_len(final(self).text())
            },
            !r ==> *final(self) == *old(self),
    {
        if self.history.len() != 0 && self.history_index > 0 {
            self.history_index = self.history_index - 1;
            let entry = chars_of(self.history[self.history_index].as_str());
            proof {
                assert(string_views(self.history@)[self.history_index as int] == entry@);
            }
            assert(entry@.take(entry@.len() as int) =~= entry@);
            let n = utf8_len_of(&entry, entry.len());
            self.cursor = 0;
            self.line = entry;
            self.cursor = n;
            true
        } else {
            false
        }
    }

    /// Down: when the history position is not past the last line, moves it
    /// on one line; past the last line the line being typed becomes empty,
    /// otherwise it becomes the line at the new position. The cursor goes to
    /// the end of the line. Returns whether it moved.
    pub fn history_down(&mut self) -> (r: bool)
        requires
            old(self).wf(),
        ensures
            final(self).wf(),
            final(self).entered() == old(self).entered(),
            r == (old(self).history_pos() < old(self).entered().len()),
            r ==> {
                &&& final(self).history_pos() == old(self).history_pos() + 1
                &&& final(self).text() == if final(self).history_pos() == old(self).entered().len() {
                    Seq::<char>::empty()
                } else {
                    old(self).entered()[final(self).history_pos() as int]
                }
                &&& final(self).cursor_pos() == utf8_len(final(self).text())
            },
            !r ==> *final(self) == *old(self),
    {
        if self.history.len() != 0 && self.history_index != self.history.len() {
            self.history_index = self.history_index + 1;
            if self.history_index == self.history.len() {
                self.line = Vec::new();
                self.cursor = 0;
                assert(utf8_len(self.line@) == 0);
            } else {
                let entry = chars_of(self.history[self.history_index].as_str());
                proof {
                    assert(string_views(self.history@)[self.history_index as int] == entry@);
                }
                assert(entry@.take(entry@.len() as int) =~= entry@);
                let n = utf8_len_of(&entry, entry.len());
                self.cursor = 0;
                self.line = entry;
                self.cursor = n;
            }
            true
        } else {
            false
        }
    }

    /// Tab: completes the line from the program names `names` (see
    /// `complete_command`). When there is a completion, it replaces the line
    /// and the cursor moves on by the number of bytes added; the number of
    /// bytes of the line before is returned. Sets the history position to the
    /// first line.
    pub fn complete(&mut self, names: &Vec<String>) -> (r: Option<usize>)
        requires
            old(self).wf(),
            lines_fit(string_views(names@)),
        ensures
            final(self).wf(),
            final(self).entered() == old(self).entered(),
            final(self).history_pos() == 0,
            match r {
                Some(n) => {
                    &&& n == utf8_len(old(self).text())
                    &&& utf8_len(final(self).text()) > n
                    &&& final(self).cursor_pos() == old(self).cursor_pos() + (utf8_len(
                        final(self).text(),
                    ) - n)
                },
                None => final(self).text() == old(self).text() && final(self).cursor_pos()
                    == old(self).cursor_pos(),
            },
            ({
                let line = old(self).text();
                match completion_of(names@, line) {
                    Some(m) => r is Some && final(self).text() == m,
                    None => r is None,
                }
            }),
    {
        self.history_index = 0;
        let ghost s = self.line@;
        let cmd = string_of(&self.line, 0, self.line.len());
        assert(self.line@.subrange(0, self.line@.len() as int) =~= self.line@);
        match complete_command(names, cmd.as_str()) {
            Some(m) => {
                let from = self.len();
                let completed = chars_of(m.as_str());
                proof {
                    law_completion_extends_line(names@, s);
                    let ms = completed@;
                    assert(name_set(names@).contains(ms));
                    let i = choose|i: int| 0 <= i < string_views(names@).len() && string_views(names@)[i] == ms;
                    assert(utf8_len(string_views(names@)[i]) < usize::MAX);
                    assert(ms =~= s + ms.skip(s.len() as int));
                    lemma_utf8_len_concat(s, ms.skip(s.len() as int));
                    let rest = ms.skip(s.len() as int);
                    assert(utf8_len(rest) == utf8_len(rest.drop_last()) + utf8_width(rest.last()));
                }
                assert(completed@.take(completed@.len() as int) =~= completed@);
                let to = utf8_len_of(&completed, completed.len());
                let moved = self.cursor + (to - from);
                self.cursor = 0;
                self.line = completed;
                self.cursor = moved;
                Some(from)
            },
            None => None,
        }
    }

    /// Enter. An empty line leaves everything as it is. Otherwise the line is
    /// added to the history when the history is not empty and its last line
    /// differs; then `exit` (white space around it aside) ends the shell, and
    /// any other line is handed back to be run, with the line emptied and the
    /// history position past the last line.
    pub fn submit(&mut self) -> (r: Submission)
        requires
            old(self).wf(),
        ensures
            final(self).wf(),
            old(self).text().len() == 0 <==> r == Submission::Nothing,
            r == Submission::Nothing ==> *final(self) == *old(self),
            r != Submission::Nothing ==> final(self).entered() == if old(self).entered().len() > 0
                && old(self).entered().last() != old(self).text() {
                old(self).entered().push(old(self).text())
            } else {
                old(self).entered()
            },
            (r == Submission::Exit) <==> (old(self).text().len() > 0 && trimmed(old(self).text())
                == "exit"@),
            r matches Submission::Run(line) ==> {
                &&& line@ == old(self).text()
                &&& final(self).text() == Seq::<char>::empty()
                &&& final(self).cursor_pos() == 0
                &&& final(self).history_pos() == final(self).entered().len()
            },
    {
        if self.line.len() == 0 {
            return Submission::Nothing;
        }
        let line = string_of(&self.line, 0, self.line.len());
        assert(self.line@.subrange(0, self.line@.len() as int) =~= self.line@);
        let n = self.history.len();
        if n != 0 {
            let last_is_same = self.history[n - 1] == line;
            if !last_is_same {
                self.history.push(line.clone());
                assert(string_views(self.history@) =~= string_views(old(self).history@).push(
                    line@,
                ));
            }
        }
        let exit = chars_of("exit");
        let trimmed_line = trimmed_chars(&self.line);
        if chars_eq(&trimmed_line, &exit) {
            return Submission::Exit;
        }
        self.cursor = 0;
        self.line = Vec::new();
        self.history_index = self.history.len();
        assert(utf8_len(self.line@) == 0);
        Submission::Run(line)
    }
}

} // verus!
