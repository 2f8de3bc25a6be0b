//! Character-level helpers on strings.
use vstd::prelude::*;

verus! {

broadcast use vstd::string::group_string_axioms;

/// The contents of a list of strings.
pub open spec fn string_views(v: Seq<String>) -> Seq<Seq<char>> {
    Seq::new(v.len(), |i: int| v[i]@)
}

/// A word occurs in a list with one more word exactly when it is that word
/// or occurs in the list.
pub proof fn lemma_push_contains(s: Seq<Seq<char>>, e: Seq<char>, w: Seq<char>)
    ensures
        s.push(e).contains(w) <==> (s.contains(w) || w == e),
{
    if s.contains(w) {
        let i = choose|i: int| 0 <= i < s.len() && s[i] == w;
        assert(s.push(e)[i] == w);
    }
    if w == e {
        assert(s.push(e)[s.len() as int] == w);
    }
    if s.push(e).contains(w) {
        let i = choose|i: int| 0 <= i < s.push(e).len() && s.push(e)[i] == w;
        if i < s.len() {
            assert(s[i] == w);
        }
    }
}

/// The characters of `s`, in order.
pub fn chars_of(s: &str) -> (v: Vec<char>)
    ensures
        v@ == s@,
{
    let mut v: Vec<char> = Vec::new();
    for c in it: s.chars()
        invariant
            v@ == it.seq().take(it.index() as int),
            it.seq() == s@,
    {
        v.push(c);
    }
    v
}

/// Appends `c` to `s` (`String::push`, which the standard library documents
/// as appending the given char to the end of the string).
#[verifier::external_body]
pub fn push_char(s: &mut String, c: char)
    ensures
        final(s)@ == old(s)@.push(c),
{
    s.push(c)
}

/// The string made of `chars[from..to]`.
pub fn string_of(chars: &Vec<char>, from: usize, to: usize) -> (s: String)
    requires
        from <= to <= chars.len(),
    ensures
        s@ == chars@.subrange(from as int, to as int),
{
    let mut s = String::new();
    let mut i: usize = from;
    while i < to
        invariant
            from <= i <= to <= chars.len(),
            s@ == chars@.subrange(from as int, i as int),
        decreases to - i,
    {
        push_char(&mut s, chars[i]);
        assert(s@ =~= chars@.subrange(from as int, i + 1));
        i = i + 1;
    }
    s
}

/// Whether two character sequences are equal.
pub fn chars_eq(a: &Vec<char>, b: &Vec<char>) -> (r: bool)
    ensures
        r == (a@ == b@),
{
    if a.len() != b.len() {
        return false;
    }
    let mut i: usize = 0;
    while i < a.len()
        invariant
            a.len() == b.len(),
            0 <= i <= a.len(),
            forall|j: int| 0 <= j < i ==> a@[j] == b@[j],
        decreases a.len() - i,
    {
        if a[i] != b[i] {
            return false;
        }
        i = i + 1;
    }
    assert(a@ =~= b@);
    true
}

/// `parts` written one after the other, with `sep` between each two.
pub open spec fn join_with(parts: Seq<Seq<char>>, sep: char) -> Seq<char>
    decreases parts.len(),
{
    if parts.len() == 0 {
        Seq::empty()
    } else if parts.len() == 1 {
        parts[0]
    } else {
        join_with(parts.drop_last(), sep).push(sep) + parts.last()
    }
}

/// The pieces of `s` between the occurrences of `sep`: one more piece than
/// there are occurrences, empty pieces included.
pub open spec fn pieces(s: Seq<char>, sep: char) -> Seq<Seq<char>>
    decreases s.len(),
{
    if s.len() == 0 {
        seq![Seq::empty()]
    } else {
        let p = pieces(s.drop_last(), sep);
        if s.last() == sep {
            p.push(Seq::empty())
        } else {
            p.update(p.len() - 1, p.last().push(s.last()))
        }
    }
}

/// There is always at least one piece.
pub proof fn lemma_pieces_nonempty(s: Seq<char>, sep: char)
    ensures
        pieces(s, sep).len() >= 1,
    decreases s.len(),
{
    if s.len() > 0 {
        lemma_pieces_nonempty(s.drop_last(), sep);
    }
}

/// Joining the pieces of `s` with `sep` gives `s` back.
pub proof fn law_join_pieces(s: Seq<char>, sep: char)
    ensures
        join_with(pieces(s, sep), sep) == s,
    decreases s.len(),
{
    if s.len() > 0 {
        let t = s.drop_last();
        let c = s.last();
        let p = pieces(t, sep);
        law_join_pieces(t, sep);
        lemma_pieces_nonempty(t, sep);
        if c == sep {
            let q = p.push(Seq::<char>::empty());
            assert(q.drop_last() =~= p);
            assert(join_with(q, sep) =~= t.push(sep));
        } else {
            let q = p.update(p.len() - 1, p.last().push(c));
            if p.len() == 1 {
                assert(join_with(q, sep) =~= t.push(c));
            } else {
                assert(q.drop_last() =~= p.drop_last());
                assert(join_with(q, sep) =~= t.push(c));
            }
        }
        assert(t.push(c) =~= s);
    } else {
        assert(s =~= Seq::<char>::empty());
    }
}

/// No piece holds the separator.
pub proof fn law_pieces_hold_no_separator(s: Seq<char>, sep: char)
    ensures
        forall|m: int|
            0 <= m < pieces(s, sep).len() ==> !(#[trigger] pieces(s, sep)[m]).contains(sep),
    decreases s.len(),
{
    if s.len() > 0 {
        let t = s.drop_last();
        let c = s.last();
        let p = pieces(t, sep);
        law_pieces_hold_no_separator(t, sep);
        lemma_pieces_nonempty(t, sep);
        if c == sep {
            assert forall|m: int| 0 <= m < pieces(s, sep).len() implies !(#[trigger] pieces(
                s,
                sep,
            )[m]).contains(sep) by {
                if m < p.len() {
                    assert(pieces(s, sep)[m] == p[m]);
                } else {
                    assert(pieces(s, sep)[m] =~= Seq::<char>::empty());
                }
            }
        } else {
            assert forall|m: int| 0 <= m < pieces(s, sep).len() implies !(#[trigger] pieces(
                s,
                sep,
            )[m]).contains(sep) by {
                if m < p.len() - 1 {
                    assert(pieces(s, sep)[m] == p[m]);
                } else {
                    let q = p.last().push(c);
                    assert(pieces(s, sep)[m] == q);
                    assert(!p.last().contains(sep)) by {
                        assert(p.last() == p[p.len() - 1]);
                    }
                    if q.contains(sep) {
                        let j = choose|j: int| 0 <= j < q.len() && q[j] == sep;
                        if j < p.last().len() {
                            assert(p.last()[j] == sep);
                        }
                    }
                }
            }
        }
    }
}

/// Appending `sep` and then a text without `sep` to `s` adds that text as
/// one more piece.
pub proof fn law_pieces_append(s: Seq<char>, sep: char, entry: Seq<char>)
    requires
        !entry.contains(sep),
    ensures
        pieces(s + seq![sep] + entry, sep) == pieces(s, sep).push(entry),
    decreases entry.len(),
{
    if entry.len() == 0 {
        assert(s + seq![sep] + entry =~= s.push(sep));
        assert((s.push(sep)).drop_last() =~= s);
        assert(entry =~= Seq::<char>::empty());
    } else {
        let e = entry.drop_last();
        let c = entry.last();
        assert(!e.contains(sep)) by {
            if e.contains(sep) {
                let i = choose|i: int| 0 <= i < e.len() && e[i] == sep;
                assert(entry[i] == sep);
            }
        }
        assert(c != sep) by {
            assert(entry[entry.len() - 1] == c);
        }
        law_pieces_append(s, sep, e);
        let whole = s + seq![sep] + entry;
        assert(whole.drop_last() =~= s + seq![sep] + e);
        assert(whole.last() == c);
        let p = pieces(s, sep).push(e);
        assert(p.update(p.len() - 1, p.last().push(c)) =~= pieces(s, sep).push(entry)) by {
            assert(e.push(c) =~= entry);
        }
    }
}

/// Splits `s` at every `sep`: the pieces contain no `sep`, and joined with
/// `sep` they give `s` back. There is always at least one piece.
pub fn split_on(s: &str, sep: char) -> (parts: Vec<String>)
    ensures
        string_views(parts@) == pieces(s@, sep),
        parts@.len() >= 1,
        join_with(string_views(parts@), sep) == s@,
        forall|i: int| 0 <= i < parts@.len() ==> !(#[trigger] parts@[i])@.contains(sep),
{
    let chars = chars_of(s);
    let mut parts: Vec<String> = Vec::new();
    let mut cur = String::new();
    let mut i: usize = 0;
    assert(chars@.take(0) =~= Seq::<char>::empty());
    assert(string_views(parts@).push(cur@) =~= seq![Seq::<char>::empty()]);
    while i < chars.len()
        invariant
            0 <= i <= chars.len(),
            chars@ == s@,
            join_with(string_views(parts@).push(cur@), sep) == chars@.take(i as int),
            string_views(parts@).push(cur@) == pieces(chars@.take(i as int), sep),
            forall|j: int| 0 <= j < parts@.len() ==> !(#[trigger] parts@[j])@.contains(sep),
            !cur@.contains(sep),
        decreases chars.len() - i,
    {
        let c = chars[i];
        let ghost before = string_views(parts@);
        let ghost cur0 = cur@;
        if c == sep {
            parts.push(cur);
            cur = String::new();
            proof {
                let after = string_views(parts@).push(cur@);
                assert(string_views(parts@) =~= before.push(cur0));
                assert(after.drop_last() =~= before.push(cur0));
                assert(after.last() =~= Seq::<char>::empty());
                assert(join_with(after, sep) =~= join_with(before.push(cur0), sep).push(sep));
                assert(chars@.take(i + 1) =~= chars@.take(i as int).push(c));
                assert(chars@.take(i + 1).drop_last() =~= chars@.take(i as int));
                assert(after =~= before.push(cur0).push(Seq::<char>::empty()));
            }
        } else {
            push_char(&mut cur, c);
            proof {
                let after = string_views(parts@).push(cur@);
                assert(string_views(parts@) =~= before);
                if before.len() == 0 {
                    assert(after =~= seq![cur0.push(c)]);
                    assert(before.push(cur0) =~= seq![cur0]);
                } else {
                    assert(after.drop_last() =~= before);
                    assert(before.push(cur0).drop_last() =~= before);
                    assert(join_with(after, sep) =~= join_with(before.push(cur0), sep).push(c));
                }
                assert(chars@.take(i + 1) =~= chars@.take(i as int).push(c));
                assert(chars@.take(i + 1).drop_last() =~= chars@.take(i as int));
                assert(after =~= before.push(cur0).update(before.len() as int, cur0.push(c)));
                assert forall|j: int| 0 <= j < cur@.len() implies cur@[j] != sep by {
                    if j < cur0.len() {
                        assert(cur@[j] == cur0[j]);
                    }
                }
            }
        }
        i = i + 1;
    }
    let ghost before = string_views(parts@);
    let ghost cur0 = cur@;
    parts.push(cur);
    proof {
        assert(string_views(parts@) =~= before.push(cur0));
        assert(chars@.take(chars.len() as int) =~= chars@);
    }
    parts
}

/// Whether `c` is white space: whether it has the Unicode `White_Space`
/// property, as `char::is_whitespace` is documented to decide.
pub open spec fn is_white_space(c: char) -> bool {
    let v = c as u32;
    ||| 0x09 <= v <= 0x0d
    ||| v == 0x20
    ||| v == 0x85
    ||| v == 0xa0
    ||| v == 0x1680
    ||| 0x2000 <= v <= 0x200a
    ||| v == 0x2028
    ||| v == 0x2029
    ||| v == 0x202f
    ||| v == 0x205f
    ||| v == 0x3000
}

/// Whether `c` is white space.
pub fn char_is_whitespace(c: char) -> (r: bool)
    ensures
        r == is_white_space(c),
{
    let v = c as u32;
    (0x09 <= v && v <= 0x0d) || v == 0x20 || v == 0x85 || v == 0xa0 || v == 0x1680 || (0x2000
        <= v && v <= 0x200a) || v == 0x2028 || v == 0x2029 || v == 0x202f || v == 0x205f || v
        == 0x3000
}

/// The number of characters from `i` on that are not white space.
pub open spec fn word_run(s: Seq<char>, i: int) -> nat
    decreases s.len() - i,
{
    if 0 <= i < s.len() && !is_white_space(s[i]) {
        1 + word_run(s, i + 1)
    } else {
        0
    }
}

/// A run never goes past the end.
pub proof fn lemma_word_run_bounded(s: Seq<char>, i: int)
    requires
        0 <= i <= s.len(),
    ensures
        i + word_run(s, i) <= s.len(),
    decreases s.len() - i,
{
    if i < s.len() {
        lemma_word_run_bounded(s, i + 1);
    }
}

/// The white-space-separated words of `s` from position `i` on.
pub open spec fn words_from(s: Seq<char>, i: int) -> Seq<Seq<char>>
    decreases s.len() - i,
{
    if 0 <= i < s.len() {
        if is_white_space(s[i]) {
            words_from(s, i + 1)
        } else {
            proof {
                lemma_word_run_bounded(s, i);
            }
            let n = word_run(s, i);
            seq![s.subrange(i, i + n)] + words_from(s, i + n)
        }
    } else {
        Seq::empty()
    }
}

/// The test that keeps the characters that are not white space.
pub open spec fn not_white_space() -> spec_fn(char) -> bool {
    |c: char| !is_white_space(c)
}

/// The printable ASCII characters other than the space are never white
/// space; the space, tab, line feed and carriage return are.
pub proof fn law_white_space_ascii(c: char)
    ensures
        0x21 <= c as u32 <= 0x7e ==> !is_white_space(c),
        c == ' ' || c == '\t' || c == '\n' || c == '\r' ==> is_white_space(c),
{
}

/// The characters of a word run are not white space.
proof fn lemma_word_run_chars(s: Seq<char>, i: int)
    requires
        0 <= i <= s.len(),
    ensures
        forall|k: int| i <= k < i + word_run(s, i) ==> !is_white_space(#[trigger] s[k]),
        i < s.len() && !is_white_space(s[i]) ==> word_run(s, i) >= 1,
    decreases s.len() - i,
{
    if i < s.len() {
        lemma_word_run_chars(s, i + 1);
    }
}

/// Keeping the characters that are not white space leaves a text without
/// white space as it is.
proof fn lemma_filter_keeps_word(t: Seq<char>)
    requires
        forall|k: int| 0 <= k < t.len() ==> !is_white_space(#[trigger] t[k]),
    ensures
        t.filter(not_white_space()) == t,
    decreases t.len(),
{
    reveal(Seq::filter);
    if t.len() > 0 {
        lemma_filter_keeps_word(t.drop_last());
        assert(!is_white_space(t[t.len() - 1]));
        assert(t.drop_last().push(t.last()) =~= t);
    }
}

/// The words from position `i` on are nonempty, hold no white space, and
/// written one after another give `s[i..]` without its white space.
proof fn lemma_words_from_cover(s: Seq<char>, i: int)
    requires
        0 <= i <= s.len(),
    ensures
        forall|m: int|
            0 <= m < words_from(s, i).len() ==> (#[trigger] words_from(s, i)[m]).len() > 0,
        forall|m: int, j: int|
            0 <= m < words_from(s, i).len() && 0 <= j < words_from(s, i)[m].len()
                ==> !is_white_space(#[trigger] words_from(s, i)[m][j]),
        words_from(s, i).flatten() == s.skip(i).filter(not_white_space()),
    decreases s.len() - i,
{
    let f = not_white_space();
    if i == s.len() {
        assert(s.skip(i) =~= Seq::<char>::empty());
        assert(words_from(s, i) =~= Seq::<Seq<char>>::empty());
        reveal(Seq::filter);
    } else if is_white_space(s[i]) {
        lemma_words_from_cover(s, i + 1);
        assert(s.skip(i) =~= seq![s[i]] + s.skip(i + 1));
        Seq::filter_distributes_over_add(seq![s[i]], s.skip(i + 1), f);
        assert(seq![s[i]].drop_last() =~= Seq::<char>::empty());
        assert(seq![s[i]].filter(f) =~= Seq::<char>::empty()) by {
            reveal(Seq::filter);
            assert(Seq::<char>::empty().filter(f) =~= Seq::<char>::empty());
            assert(!f(seq![s[i]].last()));
        }
        assert(seq![s[i]].filter(f) + s.skip(i + 1).filter(f) =~= s.skip(i + 1).filter(f));
    } else {
        lemma_word_run_bounded(s, i);
        lemma_word_run_chars(s, i);
        let n = word_run(s, i);
        let w = s.subrange(i, i + n);
        let rest = words_from(s, i + n);
        lemma_words_from_cover(s, i + n);
        assert(words_from(s, i) == seq![w] + rest);
        assert forall|k: int| 0 <= k < w.len() implies !is_white_space(#[trigger] w[k]) by {
            assert(w[k] == s[i + k]);
        }
        lemma_filter_keeps_word(w);
        assert(s.skip(i) =~= w + s.skip(i + n));
        Seq::filter_distributes_over_add(w, s.skip(i + n), f);
        let all = seq![w] + rest;
        assert(all.first() == w);
        assert(all.drop_first() =~= rest);
        assert forall|m: int| 0 <= m < all.len() implies (#[trigger] all[m]).len() > 0 by {
            if m > 0 {
                assert(all[m] == rest[m - 1]);
            }
        }
        assert forall|m: int, j: int| 0 <= m < all.len() && 0 <= j < all[m].len()
            implies !is_white_space(#[trigger] all[m][j]) by {
            if m > 0 {
                assert(all[m] == rest[m - 1]);
                assert(rest[m - 1][j] == all[m][j]);
            } else {
                assert(all[m] == w);
                assert(w[j] == all[m][j]);
            }
        }
    }
}

/// The words of a line are exactly its runs of characters that are not white
/// space: each is nonempty and holds no white space, and written one after
/// another they give the line with its white space taken out, so every other
/// character lands in some word.
pub proof fn law_words_cover_line(s: Seq<char>)
    ensures
        forall|m: int| 0 <= m < words_of(s).len() ==> (#[trigger] words_of(s)[m]).len() > 0,
        forall|m: int, j: int|
            0 <= m < words_of(s).len() && 0 <= j < words_of(s)[m].len() ==> !is_white_space(
                #[trigger] words_of(s)[m][j],
            ),
        words_of(s).flatten() == s.filter(not_white_space()),
{
    lemma_words_from_cover(s, 0);
    assert(s.skip(0) =~= s);
}

/// The words of `s`: its maximal runs of characters that are not white space.
pub open spec fn words_of(s: Seq<char>) -> Seq<Seq<char>> {
    words_from(s, 0)
}

/// The words of `chars[from..]`.
pub fn split_whitespace(chars: &Vec<char>, from: usize) -> (words: Vec<String>)
    requires
        from <= chars.len(),
    ensures
        string_views(words@) == words_from(chars@, from as int),
    decreases chars.len() - from,
{
    let mut i: usize = from;
    while i < chars.len() && char_is_whitespace(chars[i])
        invariant
            from <= i <= chars.len(),
            words_from(chars@, i as int) == words_from(chars@, from as int),
        decreases chars.len() - i,
    {
        i = i + 1;
    }
    if i == chars.len() {
        return Vec::new();
    }
    let start = i;
    while i < chars.len() && !char_is_whitespace(chars[i])
        invariant
            start <= i <= chars.len(),
            i - start + word_run(chars@, i as int) == word_run(chars@, start as int),
        decreases chars.len() - i,
    {
        i = i + 1;
    }
    let word = string_of(chars, start, i);
    let rest = split_whitespace(chars, i);
    let mut words: Vec<String> = Vec::new();
    words.push(word);
    let ghost first = words@;
    let mut rest = rest;
    let ghost rest0 = rest@;
    words.append(&mut rest);
    proof {
        assert(words@ =~= first + rest0);
        assert(string_views(words@) =~= seq![chars@.subrange(start as int, i as int)]
            + string_views(rest0));
    }
    words
}

/// The number of white-space characters that `s` ends with.
pub open spec fn trailing_space(s: Seq<char>) -> nat
    decreases s.len(),
{
    if s.len() > 0 && is_white_space(s.last()) {
        1 + trailing_space(s.drop_last())
    } else {
        0
    }
}

/// The number of white-space characters that `s` starts with.
pub open spec fn leading_space(s: Seq<char>) -> nat
    decreases s.len(),
{
    if s.len() > 0 && is_white_space(s[0]) {
        1 + leading_space(s.drop_first())
    } else {
        0
    }
}

/// `s` without the white space at its start and at its end.
pub open spec fn trimmed(s: Seq<char>) -> Seq<char> {
    let rest = s.skip(leading_space(s) as int);
    rest.take(rest.len() - trailing_space(rest))
}

/// The bounds of `chars` without the white space at its start and its end.
pub fn trim_bounds(chars: &Vec<char>) -> (r: (usize, usize))
    ensures
        r.0 <= r.1 <= chars.len(),
        chars@.subrange(r.0 as int, r.1 as int) == trimmed(chars@),
{
    let ghost s = chars@;
    let mut a: usize = 0;
    assert(s.skip(0) =~= s);
    while a < chars.len() && char_is_whitespace(chars[a])
        invariant
            0 <= a <= chars.len(),
            s == chars@,
            a + leading_space(s.skip(a as int)) == leading_space(s),
        decreases chars.len() - a,
    {
        assert(s.skip(a as int)[0] == s[a as int]);
        assert(s.skip(a as int).drop_first() =~= s.skip(a + 1));
        a = a + 1;
    }
    proof {
        if a < chars.len() {
            assert(s.skip(a as int)[0] == s[a as int]);
        }
        assert(leading_space(s.skip(a as int)) == 0);
    }
    let ghost rest = s.skip(a as int);
    let mut b: usize = chars.len();
    assert(rest.take(rest.len() as int) =~= rest);
    while b > a && char_is_whitespace(chars[b - 1])
        invariant
            a <= b <= chars.len(),
            s == chars@,
            rest == s.skip(a as int),
            (chars.len() - b) + trailing_space(rest.take(b - a)) == trailing_space(rest),
        decreases b - a,
    {
        assert(rest.take(b - a).last() == s[b - 1]);
        assert(rest.take(b - a).drop_last() =~= rest.take(b - 1 - a));
        b = b - 1;
    }
    proof {
        if b > a {
            assert(rest.take(b - a).last() == s[b - 1]);
        }
        assert(trailing_space(rest.take(b - a)) == 0);
        assert(s.subrange(a as int, b as int) =~= rest.take(rest.len() - trailing_space(rest)));
    }
    (a, b)
}

/// The number of bytes that `c` takes in UTF-8 (`char::len_utf8`).
pub open spec fn utf8_width(c: char) -> nat {
    let v = c as u32;
    if v < 0x80 {
        1
    } else if v < 0x800 {
        2
    } else if v < 0x10000 {
        3
    } else {
        4
    }
}

/// The number of bytes that `s` takes in UTF-8.
pub open spec fn utf8_len(s: Seq<char>) -> nat
    decreases s.len(),
{
    if s.len() == 0 {
        0
    } else {
        utf8_len(s.drop_last()) + utf8_width(s.last())
    }
}

/// Whether the byte position `b` lies between two characters of `s` (or at
/// its start or end).
pub open spec fn is_char_boundary_at(s: Seq<char>, b: int) -> bool {
    exists|k: int| 0 <= k <= s.len() && utf8_len(s.take(k)) == b
}

/// The number of characters of `s` before the byte position `b`, when `b`
/// lies between two characters.
pub open spec fn char_index_at(s: Seq<char>, b: int) -> int {
    choose|k: int| 0 <= k <= s.len() && utf8_len(s.take(k)) == b
}

/// The bytes of two texts written one after the other add up.
pub proof fn lemma_utf8_len_concat(a: Seq<char>, b: Seq<char>)
    ensures
        utf8_len(a + b) == utf8_len(a) + utf8_len(b),
    decreases b.len(),
{
    if b.len() == 0 {
        assert(a + b =~= a);
    } else {
        assert((a + b).drop_last() =~= a + b.drop_last());
        assert((a + b).last() == b.last());
        lemma_utf8_len_concat(a, b.drop_last());
    }
}

/// A longer start of `s` takes more bytes, and no start takes more than `s`.
pub proof fn lemma_utf8_prefix_grows(s: Seq<char>, i: int, j: int)
    requires
        0 <= i <= j <= s.len(),
    ensures
        utf8_len(s.take(i)) <= utf8_len(s.take(j)) <= utf8_len(s),
        i < j ==> utf8_len(s.take(i)) < utf8_len(s.take(j)),
{
    assert(s.take(j) =~= s.take(i) + s.subrange(i, j));
    lemma_utf8_len_concat(s.take(i), s.subrange(i, j));
    assert(s =~= s.take(j) + s.skip(j));
    lemma_utf8_len_concat(s.take(j), s.skip(j));
    if i < j {
        let m = s.subrange(i, j);
        assert(utf8_len(m) == utf8_len(m.drop_last()) + utf8_width(m.last()));
    }
}

/// The character count at a boundary is the one whose start takes that many bytes.
pub proof fn lemma_char_index_at(s: Seq<char>, k: int)
    requires
        0 <= k <= s.len(),
    ensures
        is_char_boundary_at(s, utf8_len(s.take(k)) as int),
        char_index_at(s, utf8_len(s.take(k)) as int) == k,
{
    let b = utf8_len(s.take(k)) as int;
    assert(0 <= k <= s.len() && utf8_len(s.take(k)) == b);
    let j = char_index_at(s, b);
    if j < k {
        lemma_utf8_prefix_grows(s, j, k);
    } else if j > k {
        lemma_utf8_prefix_grows(s, k, j);
    }
}

/// The number of bytes that `c` takes in UTF-8.
pub fn utf8_width_of(c: char) -> (r: usize)
    ensures
        r == utf8_width(c),
{
    let v = c as u32;
    if v < 0x80 {
        1
    } else if v < 0x800 {
        2
    } else if v < 0x10000 {
        3
    } else {
        4
    }
}

/// The number of bytes that the first `k` characters of `s` take.
pub fn utf8_len_of(s: &Vec<char>, k: usize) -> (r: usize)
    requires
        k <= s.len(),
        utf8_len(s@) <= usize::MAX,
    ensures
        r == utf8_len(s@.take(k as int)),
{
    let mut total: usize = 0;
    let mut i: usize = 0;
    assert(s@.take(0) =~= Seq::<char>::empty());
    while i < k
        invariant
            i <= k <= s.len(),
            utf8_len(s@) <= usize::MAX,
            total == utf8_len(s@.take(i as int)),
        decreases k - i,
    {
        proof {
            lemma_utf8_prefix_grows(s@, i + 1, i + 1);
            assert(s@.take(i + 1).drop_last() =~= s@.take(i as int));
        }
        total = total + utf8_width_of(s[i]);
        i = i + 1;
    }
    total
}

/// The number of characters of `s` before the byte position `b`, or `None`
/// when `b` does not lie between two characters of `s`.
pub fn char_index_of(s: &Vec<char>, b: usize) -> (r: Option<usize>)
    requires
        utf8_len(s@) <= usize::MAX,
    ensures
        match r {
            Some(k) => k <= s.len() && utf8_len(s@.take(k as int)) == b && is_char_boundary_at(
                s@,
                b as int,
            ) && char_index_at(s@, b as int) == k,
            None => !is_char_boundary_at(s@, b as int),
        },
{
    let mut total: usize = 0;
    let mut i: usize = 0;
    assert(s@.take(0) =~= Seq::<char>::empty());
    while i < s.len() && total < b
        invariant
            i <= s.len(),
            utf8_len(s@) <= usize::MAX,
            total == utf8_len(s@.take(i as int)),
            forall|j: int| 0 <= j < i ==> utf8_len(s@.take(j)) < b,
        decreases s.len() - i,
    {
        proof {
            lemma_utf8_prefix_grows(s@, i + 1, i + 1);
            assert(s@.take(i + 1).drop_last() =~= s@.take(i as int));
        }
        total = total + utf8_width_of(s[i]);
        i = i + 1;
    }
    if total == b {
        proof {
            lemma_char_index_at(s@, i as int);
        }
        Some(i)
    } else {
        proof {
            assert forall|k: int| 0 <= k <= s.len() implies utf8_len(s@.take(k)) != b by {
                if k > i {
                    lemma_utf8_prefix_grows(s@, i as int, k);
                }
                if k == i && i == s.len() {
                    assert(total != b);
                }
            }
        }
        None
    }
}

/// The byte count of a text is the length of its UTF-8 encoding.
pub proof fn law_utf8_len_is_encoding(s: Seq<char>)
    ensures
        utf8_len(s) == vstd::utf8::encode_utf8(s).len(),
    decreases s.len(),
{
    if s.len() > 0 {
        let c = s[0];
        vstd::utf8::char_is_scalar(c);
        assert(s =~= seq![c] + s.drop_first());
        lemma_utf8_len_concat(seq![c], s.drop_first());
        assert(seq![c].drop_last() =~= Seq::<char>::empty());
        assert(seq![c].last() == c);
        assert(utf8_len(Seq::<char>::empty()) == 0);
        assert(utf8_len(seq![c]) == utf8_len(seq![c].drop_last()) + utf8_width(seq![c].last()));
        law_utf8_len_is_encoding(s.drop_first());
    }
}

/// The white space that `s` starts with is a run of white-space characters,
/// followed by the end or by a character that is not white space.
proof fn lemma_leading_space(s: Seq<char>)
    ensures
        leading_space(s) <= s.len(),
        forall|j: int| 0 <= j < leading_space(s) ==> is_white_space(#[trigger] s[j]),
        leading_space(s) < s.len() ==> !is_white_space(s[leading_space(s) as int]),
    decreases s.len(),
{
    if s.len() > 0 && is_white_space(s[0]) {
        let t = s.drop_first();
        lemma_leading_space(t);
        assert forall|j: int| 0 <= j < leading_space(s) implies is_white_space(#[trigger] s[j]) by {
            if j > 0 {
                assert(s[j] == t[j - 1]);
            }
        }
    }
}

/// The white space that `s` ends with is a run of white-space characters,
/// after the start or after a character that is not white space.
proof fn lemma_trailing_space(s: Seq<char>)
    ensures
        trailing_space(s) <= s.len(),
        forall|j: int| s.len() - trailing_space(s) <= j < s.len() ==> is_white_space(#[trigger] s[j]),
        trailing_space(s) < s.len() ==> !is_white_space(s[s.len() - trailing_space(s) - 1]),
    decreases s.len(),
{
    if s.len() > 0 && is_white_space(s.last()) {
        let t = s.drop_last();
        lemma_trailing_space(t);
        assert forall|j: int| s.len() - trailing_space(s) <= j < s.len() implies is_white_space(
            #[trigger] s[j],
        ) by {
            if j < s.len() - 1 {
                assert(s[j] == t[j]);
            }
        }
    }
}

/// Trimming drops the white space at both ends and nothing else: what is
/// left is a stretch `s[a..b]` of `s` that is empty or starts and ends with a
/// character that is not white space, and everything before `a` and from
/// `b` on is white space.
pub proof fn law_trimmed(s: Seq<char>)
    ensures
        exists|a: int, b: int|
            {
                &&& 0 <= a <= b <= s.len()
                &&& trimmed(s) == s.subrange(a, b)
                &&& forall|j: int| 0 <= j < a ==> is_white_space(#[trigger] s[j])
                &&& forall|j: int| b <= j < s.len() ==> is_white_space(#[trigger] s[j])
                &&& a < b ==> !is_white_space(s[a]) && !is_white_space(s[b - 1])
            },
{
    lemma_leading_space(s);
    let a = leading_space(s) as int;
    let rest = s.skip(a);
    lemma_trailing_space(rest);
    let b = s.len() - trailing_space(rest);
    assert(trimmed(s) =~= s.subrange(a, b));
    assert forall|j: int| b <= j < s.len() implies is_white_space(#[trigger] s[j]) by {
        assert(s[j] == rest[j - a]);
    }
    if a < b {
        assert(s[b - 1] == rest[rest.len() - trailing_space(rest) - 1]);
    }
}

} // verus!
