//! Completing a command name from the names of the programs on the search path.
use vstd::prelude::*;

use crate::text::{chars_eq, chars_of, lemma_push_contains, string_views, trim_bounds, trimmed};
use crate::trie::{all_listed, lemma_lex_lt_irreflexive, Trie};

verus! {

/// The names that `collect_all_matches` offers for `cmd` among `names`: those
/// that start with `cmd` and go on with characters in `'A'..='z'` only.
pub open spec fn candidates(names: Set<Seq<char>>, cmd: Seq<char>) -> Set<Seq<char>> {
    Set::new(
        |w: Seq<char>| names.contains(w) && cmd.is_prefix_of(w) && all_listed(w.skip(cmd.len() as int)),
    )
}

/// The set of the contents of a list of strings.
pub open spec fn name_set(names: Seq<String>) -> Set<Seq<char>> {
    Set::new(|w: Seq<char>| string_views(names).contains(w))
}

/// The completion of `cmd` among `names`: the one candidate, when there is
/// exactly one, it is longer than `cmd`, and the two differ once the white
/// space at their ends is dropped.
pub open spec fn completion_of(names: Seq<String>, cmd: Seq<char>) -> Option<Seq<char>> {
    let cs = candidates(name_set(names), cmd);
    if exists|m: Seq<char>| cs == set![m] && m.len() > cmd.len() && trimmed(cmd) != trimmed(m) {
        Some(choose|m: Seq<char>| cs == set![m] && m.len() > cmd.len() && trimmed(cmd) != trimmed(m))
    } else {
        None
    }
}

/// A prefix tree of `names`.
fn trie_of(names: &Vec<String>) -> (t: Trie)
    ensures
        t.wf(),
        t@ == name_set(names@),
{
    let mut t = Trie::default();
    let mut i: usize = 0;
    while i < names.len()
        invariant
            0 <= i <= names.len(),
            t.wf(),
            t@ == name_set(names@.take(i as int)),
        decreases names.len() - i,
    {
        let ghost before = t@;
        t.insert(names[i].clone());
        proof {
            assert(string_views(names@.take(i + 1)) =~= string_views(names@.take(i as int)).push(
                names@[i as int]@,
            ));
            assert forall|w: Seq<char>| #[trigger] t@.contains(w) == name_set(names@.take(i + 1)).contains(w) by {
                lemma_push_contains(string_views(names@.take(i as int)), names@[i as int]@, w);
            }
            assert(t@ =~= name_set(names@.take(i + 1)));
        }
        i = i + 1;
    }
    assert(names@.take(names.len() as int) =~= names@);
    t
}

/// `s` without the white space at its ends.
pub(crate) fn trimmed_chars(s: &Vec<char>) -> (r: Vec<char>)
    ensures
        r@ == trimmed(s@),
{
    let (a, b) = trim_bounds(s);
    let mut r: Vec<char> = Vec::new();
    let mut i: usize = a;
    while i < b
        invariant
            a <= i <= b <= s.len(),
            r@ == s@.subrange(a as int, i as int),
        decreases b - i,
    {
        r.push(s[i]);
        assert(r@ =~= s@.subrange(a as int, i + 1));
        i = i + 1;
    }
    r
}

/// The completion of the command line `cmd` among the program names
/// `names`: the one candidate, when there is exactly one, it is longer than
/// `cmd`, and the two differ once the white space at their ends is dropped;
/// otherwise `None`.
pub fn complete_command(names: &Vec<String>, cmd: &str) -> (r: Option<String>)
    ensures
        match r {
            Some(m) => completion_of(names@, cmd@) == Some(m@),
            None => completion_of(names@, cmd@) is None,
        },
{
    let mut t = trie_of(names);
    let ghost cs = candidates(name_set(names@), cmd@);
    let found = t.root.collect_all_matches(cmd);
    match found {
        None => {
            proof {
                if exists|m: Seq<char>| cs == set![m] && m.len() > cmd@.len() {
                    let m = choose|m: Seq<char>| cs == set![m] && m.len() > cmd@.len();
                    assert(cs.contains(m));
                    assert(t@.contains(m));
                }
            }
            None
        },
        Some(matches) => {
            let ghost out = string_views(matches@);
            if matches.len() != 1 {
                proof {
                    if exists|m: Seq<char>| cs == set![m] {
                        let m = choose|m: Seq<char>| cs == set![m];
                        if out.len() == 0 {
                            assert(cs.contains(m));
                            assert(!out.contains(m));
                        } else {
                            assert(out.contains(out[0]));
                            assert(out.contains(out[1]));
                            lemma_lex_lt_irreflexive(out[0]);
                            assert(out[0] != out[1]);
                            assert(cs.contains(out[0]) && cs.contains(out[1]));
                        }
                    }
                }
                return None;
            }
            proof {
                assert(out.contains(out[0]));
                assert(cs =~= set![out[0]]) by {
                    assert forall|w: Seq<char>| cs.contains(w) implies w == out[0] by {
                        assert(out.contains(w));
                    }
                }
            }
            let m = &matches[0];
            let m_chars = chars_of(m.as_str());
            let cmd_chars = chars_of(cmd);
            if m_chars.len() <= cmd_chars.len() {
                return None;
            }
            let a = trimmed_chars(&cmd_chars);
            let b = trimmed_chars(&m_chars);
            if chars_eq(&a, &b) {
                return None;
            }
            proof {
                let w = out[0];
                assert(cs == set![w] && w.len() > cmd@.len() && trimmed(cmd@) != trimmed(w));
                let c = choose|c: Seq<char>|
                    cs == set![c] && c.len() > cmd@.len() && trimmed(cmd@) != trimmed(c);
                assert(set![c].contains(c));
            }
            Some(m.clone())
        },
    }
}

/// A completion only ever extends what was typed: it is one of the names,
/// it starts with the typed line, and it is longer.
pub proof fn law_completion_extends_line(names: Seq<String>, cmd: Seq<char>)
    ensures
        completion_of(names, cmd) matches Some(m) ==> {
            &&& name_set(names).contains(m)
            &&& cmd.is_prefix_of(m)
            &&& m.len() > cmd.len()
        },
{
    if let Some(m) = completion_of(names, cmd) {
        let cs = candidates(name_set(names), cmd);
        assert(cs == set![m]);
        assert(cs.contains(m));
    }
}

} // verus!
