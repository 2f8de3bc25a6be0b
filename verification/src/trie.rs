//! A prefix tree of words, used to complete command names.
use std::collections::HashMap;
use vstd::prelude::*;

use crate::text::{chars_of, push_char, string_views};

verus! {

broadcast use vstd::std_specs::hash::group_hash_axioms;

/// The key under which the child for character `c` is stored.
pub open spec fn char_key(c: char) -> u32 {
    c as u32
}

/// Whether `c` lies in the range `'A'..='z'` that completion walks through.
pub open spec fn is_listed_char(c: char) -> bool {
    65 <= char_key(c) <= 122
}

/// Whether every character of `s` lies in the range that completion walks through.
pub open spec fn all_listed(s: Seq<char>) -> bool {
    forall|i: int| 0 <= i < s.len() ==> is_listed_char(#[trigger] s[i])
}

/// Lexicographic order on words by character code: a proper prefix comes
/// first, otherwise the first differing character decides.
pub open spec fn lex_lt(a: Seq<char>, b: Seq<char>) -> bool {
    ||| (a.len() < b.len() && a.is_prefix_of(b))
    ||| exists|i: int|
        0 <= i < a.len() && i < b.len() && a.take(i) == b.take(i) && char_key(a[i]) < char_key(
            b[i],
        )
}

/// Each word comes strictly before the next one.
pub open spec fn strictly_sorted(s: Seq<Seq<char>>) -> bool {
    forall|i: int, j: int| 0 <= i < j < s.len() ==> lex_lt(#[trigger] s[i], #[trigger] s[j])
}

/// `out` lists, in strictly increasing order, the words `e` that start with
/// `prefix` and whose rest `e[prefix.len()..]` is in `suffixes` and made of
/// listed characters only.
pub open spec fn is_listing(out: Seq<Seq<char>>, prefix: Seq<char>, suffixes: Set<Seq<char>>) -> bool {
    &&& strictly_sorted(out)
    &&& forall|e: Seq<char>|
        #![trigger out.contains(e)]
        out.contains(e) <==> (prefix.is_prefix_of(e) && suffixes.contains(e.skip(prefix.len() as int))
            && all_listed(e.skip(prefix.len() as int)))
}

/// `out` lists, in strictly increasing order, the words of `words` that start
/// with `prefix` and go on with listed characters only.
pub open spec fn is_completion_list(out: Seq<Seq<char>>, words: Set<Seq<char>>, prefix: Seq<char>) -> bool {
    &&& strictly_sorted(out)
    &&& forall|e: Seq<char>|
        #![trigger out.contains(e)]
        out.contains(e) <==> (words.contains(e) && prefix.is_prefix_of(e) && all_listed(
            e.skip(prefix.len() as int),
        ))
}

/// No word comes before itself.
pub proof fn lemma_lex_lt_irreflexive(a: Seq<char>)
    ensures
        !lex_lt(a, a),
{
}

/// Completion walks through exactly the characters from `A` to `z`.
pub proof fn law_listed_chars(c: char)
    ensures
        is_listed_char(c) <==> ('A' <= c && c <= 'z'),
{
}

/// The order of words: a proper prefix comes first; after a common start,
/// the word whose next character has the lower code comes first; no word
/// comes before itself, and of two words at most one comes first.
pub proof fn law_lex_order(p: Seq<char>, x: char, y: char, r1: Seq<char>, r2: Seq<char>, a: Seq<char>, b: Seq<char>)
    ensures
        r1.len() > 0 ==> lex_lt(p, p + r1),
        (x as u32) < (y as u32) ==> lex_lt(p + seq![x] + r1, p + seq![y] + r2),
        !lex_lt(a, a),
        !(lex_lt(a, b) && lex_lt(b, a)),
{
    if r1.len() > 0 {
        assert(p.is_prefix_of(p + r1));
    }
    if (x as u32) < (y as u32) {
        let u = p + seq![x] + r1;
        let v = p + seq![y] + r2;
        let n = p.len() as int;
        assert(u.take(n) =~= p);
        assert(v.take(n) =~= p);
        assert(u[n] == x && v[n] == y);
    }
    if lex_lt(a, b) && lex_lt(b, a) {
        if a.len() < b.len() && a.is_prefix_of(b) {
            let i = choose|i: int|
                0 <= i < b.len() && i < a.len() && b.take(i) == a.take(i) && char_key(b[i])
                    < char_key(a[i]);
            assert(a[i] == b[i]);
        } else if b.len() < a.len() && b.is_prefix_of(a) {
            let i = choose|i: int|
                0 <= i < a.len() && i < b.len() && a.take(i) == b.take(i) && char_key(a[i])
                    < char_key(b[i]);
            assert(a[i] == b[i]);
        } else {
            let i = choose|i: int|
                0 <= i < a.len() && i < b.len() && a.take(i) == b.take(i) && char_key(a[i])
                    < char_key(b[i]);
            let j = choose|j: int|
                0 <= j < b.len() && j < a.len() && b.take(j) == a.take(j) && char_key(b[j])
                    < char_key(a[j]);
            if i < j {
                assert(a.take(j)[i] == b.take(j)[i]);
            } else if j < i {
                assert(a.take(i)[j] == b.take(i)[j]);
            }
        }
    }
}

/// A word that is `p`, or that continues `p` with a character below `i`,
/// comes before any word that continues `p` with the character `i`.
proof fn lemma_lex_lt_branch(p: Seq<char>, a: Seq<char>, b: Seq<char>, i: u32)
    requires
        p.is_prefix_of(a),
        p.is_prefix_of(b),
        b.len() > p.len(),
        char_key(b[p.len() as int]) == i,
        a.len() == p.len() || (a.len() > p.len() && char_key(a[p.len() as int]) < i),
    ensures
        lex_lt(a, b),
{
    if a.len() == p.len() {
        assert(a =~= p);
    } else {
        let n = p.len() as int;
        assert(a.take(n) =~= p);
        assert(b.take(n) =~= p);
        assert(0 <= n < a.len() && n < b.len() && a.take(n) == b.take(n) && char_key(a[n])
            < char_key(b[n]));
    }
}

/// A word occurs in a concatenation of lists exactly when it occurs in one of them.
proof fn lemma_concat_contains(a: Seq<Seq<char>>, b: Seq<Seq<char>>, e: Seq<char>)
    ensures
        (a + b).contains(e) <==> (a.contains(e) || b.contains(e)),
{
    if a.contains(e) {
        let i = choose|i: int| 0 <= i < a.len() && a[i] == e;
        assert((a + b)[i] == e);
    }
    if b.contains(e) {
        let i = choose|i: int| 0 <= i < b.len() && b[i] == e;
        assert((a + b)[a.len() + i] == e);
    }
    if (a + b).contains(e) {
        let i = choose|i: int| 0 <= i < (a + b).len() && (a + b)[i] == e;
        if i < a.len() {
            assert(a[i] == e);
        } else {
            assert(b[i - a.len()] == e);
        }
    }
}

/// Distinct characters have distinct keys.
pub proof fn lemma_char_key_injective(a: char, b: char)
    requires
        char_key(a) == char_key(b),
    ensures
        a == b,
{
}

/// A node of the prefix tree. The words below a node are its suffixes: the
/// empty word when the node ends a word, and `c` followed by a word of the
/// child for `c`.
pub struct TrieNode {
    children: HashMap<u32, TrieNode>,
    is_word_end: bool,
}

/// A prefix tree; its view is the set of words inserted into it.
pub struct Trie {
    pub root: TrieNode,
}

impl TrieNode {
    /// Whether `w` is one of the words below this node.
    pub closed spec fn has_word(self, w: Seq<char>) -> bool
        decreases w.len(),
    {
        if w.len() == 0 {
            self.is_word_end
        } else {
            let k = char_key(w[0]);
            self.children@.contains_key(k) && self.children@[k].has_word(w.drop_first())
        }
    }

    /// The set of words below this node.
    pub open spec fn words(self) -> Set<Seq<char>> {
        Set::new(|w: Seq<char>| self.has_word(w))
    }

    /// Whether this node has at least one child.
    pub closed spec fn has_children(self) -> bool {
        exists|k: u32| self.children@.contains_key(k)
    }

    /// Every node below this one is keyed by a character and leads to a word.
    pub closed spec fn wf(self) -> bool
        decreases self,
    {
        forall|k: u32|
            #[trigger] self.children@.contains_key(k) ==> {
                &&& exists|c: char| char_key(c) == k
                &&& self.children@[k].is_word_end || self.children@[k].has_children()
                &&& self.children@[k].wf()
            }
    }

    /// The paths from this node that lead to a node: one per node below it.
    pub open spec fn paths(self) -> Set<Seq<char>> {
        Set::new(|p: Seq<char>| self.node_at(p) is Some)
    }

    /// Both nodes end a word alike, have children under the same
    /// characters, and so on all the way down.
    pub closed spec fn same_shape(self, other: TrieNode) -> bool
        decreases self,
    {
        &&& self.is_word_end == other.is_word_end
        &&& self.children@.dom() == other.children@.dom()
        &&& forall|k: u32|
            #[trigger] self.children@.contains_key(k) ==> self.children@[k].same_shape(
                other.children@[k],
            )
    }

    /// The node reached from this one by following the characters of `p`.
    pub closed spec fn node_at(self, p: Seq<char>) -> Option<TrieNode>
        decreases p.len(),
    {
        if p.len() == 0 {
            Some(self)
        } else {
            let k = char_key(p[0]);
            if self.children@.contains_key(k) {
                self.children@[k].node_at(p.drop_first())
            } else {
                None
            }
        }
    }

    /// The words below the node at `p` are the words below this node that
    /// start with `p`, with `p` taken off.
    proof fn lemma_node_at_words(self, p: Seq<char>, w: Seq<char>)
        ensures
            match self.node_at(p) {
                Some(n) => n.has_word(w) == self.has_word(p + w),
                None => !self.has_word(p + w),
            },
        decreases p.len(),
    {
        if p.len() > 0 {
            let k = char_key(p[0]);
            assert((p + w)[0] == p[0]);
            assert((p + w).drop_first() =~= p.drop_first() + w);
            if self.children@.contains_key(k) {
                self.children@[k].lemma_node_at_words(p.drop_first(), w);
            }
        } else {
            assert(p + w =~= w);
        }
    }

    /// Following one more character from the node at `p`.
    proof fn lemma_node_at_push(self, p: Seq<char>, c: char)
        ensures
            self.node_at(p.push(c)) == match self.node_at(p) {
                Some(n) => if n.children@.contains_key(char_key(c)) {
                    Some(n.children@[char_key(c)])
                } else {
                    None
                },
                None => None,
            },
        decreases p.len(),
    {
        if p.len() == 0 {
            let q = p.push(c);
            assert(q[0] == c);
            assert(q.drop_first() =~= Seq::<char>::empty());
            let k = char_key(c);
            if self.children@.contains_key(k) {
                assert(self.children@[k].node_at(q.drop_first()) == Some(self.children@[k]));
            }
        } else {
            assert(p.push(c)[0] == p[0]);
            assert(p.push(c).drop_first() =~= p.drop_first().push(c));
            let k = char_key(p[0]);
            if self.children@.contains_key(k) {
                self.children@[k].lemma_node_at_push(p.drop_first(), c);
            }
        }
    }

    /// The words of the node for `c` below this one, taken after `p` and `c`,
    /// are the words of this node taken after `p` that go on with `c`.
    proof fn lemma_listing_step(self, p: Seq<char>, c: char, e: Seq<char>)
        requires
            self.children@.contains_key(char_key(c)),
        ensures
            (p.push(c).is_prefix_of(e) && self.children@[char_key(c)].has_word(
                e.skip(p.len() as int + 1),
            ) && all_listed(e.skip(p.len() as int + 1)) && is_listed_char(c)) <==> (p.is_prefix_of(e)
                && e.len() > p.len() && e[p.len() as int] == c && self.has_word(
                e.skip(p.len() as int),
            ) && all_listed(e.skip(p.len() as int))),
    {
        let n = p.len() as int;
        if p.is_prefix_of(e) && e.len() > p.len() {
            let s = e.skip(n);
            assert(s[0] == e[n]);
            assert(s.drop_first() =~= e.skip(n + 1));
            if e[n] == c {
                assert(p.push(c) =~= e.subrange(0, n + 1));
            }
            if all_listed(s) {
                assert(is_listed_char(s[0]));
                assert forall|j: int| 0 <= j < e.skip(n + 1).len() implies is_listed_char(
                    #[trigger] e.skip(n + 1)[j],
                ) by {
                    assert(e.skip(n + 1)[j] == s[j + 1]);
                }
            }
            if all_listed(e.skip(n + 1)) && is_listed_char(e[n]) {
                assert forall|j: int| 0 <= j < s.len() implies is_listed_char(#[trigger] s[j]) by {
                    if j > 0 {
                        assert(s[j] == e.skip(n + 1)[j - 1]);
                    }
                }
            }
        }
        if p.push(c).is_prefix_of(e) {
            assert(e.subrange(0, n + 1)[n] == c);
            assert(p =~= e.subrange(0, n));
        }
    }

    /// A node below a well-formed node is well-formed, and leads to a word
    /// unless it is the node itself.
    proof fn lemma_node_at_wf(self, p: Seq<char>)
        requires
            self.wf(),
            self.node_at(p) is Some,
        ensures
            self.node_at(p).unwrap().wf(),
            p.len() > 0 ==> (self.node_at(p).unwrap().is_word_end
                || self.node_at(p).unwrap().has_children()),
        decreases p.len(),
    {
        if p.len() > 0 {
            let k = char_key(p[0]);
            assert(self.children@.contains_key(k));
            self.children@[k].lemma_node_at_wf(p.drop_first());
        }
    }

    /// A well-formed node that ends a word or has a child has a word below it;
    /// one that has a child has a nonempty word below it.
    proof fn lemma_nonempty_has_word(self)
        requires
            self.wf(),
            self.is_word_end || self.has_children(),
        ensures
            exists|w: Seq<char>| self.has_word(w),
            self.has_children() ==> exists|w: Seq<char>| w.len() > 0 && self.has_word(w),
        decreases self,
    {
        if self.is_word_end {
            assert(self.has_word(Seq::empty()));
        }
        if self.has_children() {
            let k = choose|k: u32| self.children@.contains_key(k);
            let c = choose|c: char| char_key(c) == k;
            let child = self.children@[k];
            child.lemma_nonempty_has_word();
            let w = choose|w: Seq<char>| child.has_word(w);
            let word = seq![c] + w;
            assert(word[0] == c);
            assert(word.drop_first() =~= w);
            assert(self.has_word(word));
        }
    }

    /// At the node for `p` there is a child exactly when some word below this
    /// node extends `p` by at least one character.
    proof fn lemma_children_iff_extension(self, p: Seq<char>)
        requires
            self.wf(),
            self.node_at(p) is Some,
        ensures
            self.node_at(p).unwrap().has_children() <==> exists|w: Seq<char>|
                #![trigger self.words().contains(w)]
                self.words().contains(w) && p.is_prefix_of(w) && p.len() < w.len(),
    {
        let n = self.node_at(p).unwrap();
        self.lemma_node_at_wf(p);
        if n.has_children() {
            n.lemma_nonempty_has_word();
            let rest = choose|w: Seq<char>| w.len() > 0 && n.has_word(w);
            self.lemma_node_at_words(p, rest);
            assert((p + rest).subrange(0, p.len() as int) =~= p);
            assert(self.words().contains(p + rest));
        }
        if exists|w: Seq<char>| self.words().contains(w) && p.is_prefix_of(w) && p.len() < w.len() {
            let w = choose|w: Seq<char>|
                self.words().contains(w) && p.is_prefix_of(w) && p.len() < w.len();
            let rest = w.skip(p.len() as int);
            assert(p + rest =~= w);
            self.lemma_node_at_words(p, rest);
            assert(n.has_word(rest));
            assert(n.children@.contains_key(char_key(rest[0])));
        }
    }

    /// In a well-formed tree, the paths that lead to a node are the empty
    /// path and the prefixes of its words.
    proof fn lemma_paths_are_prefixes(self, p: Seq<char>)
        requires
            self.wf(),
        ensures
            self.node_at(p) is Some <==> (p.len() == 0 || exists|w: Seq<char>|
                #![trigger self.has_word(w)]
                self.has_word(w) && p.is_prefix_of(w)),
    {
        if p.len() == 0 {
            assert(self.node_at(p) == Some(self));
        } else if self.node_at(p) is Some {
            self.lemma_node_at_wf(p);
            let n = self.node_at(p).unwrap();
            n.lemma_nonempty_has_word();
            let rest = choose|w: Seq<char>| n.has_word(w);
            self.lemma_node_at_words(p, rest);
            assert((p + rest).subrange(0, p.len() as int) =~= p);
            assert(self.has_word(p + rest));
        } else {
            assert forall|w: Seq<char>| self.has_word(w) implies !p.is_prefix_of(w) by {
                if p.is_prefix_of(w) {
                    let rest = w.skip(p.len() as int);
                    assert(p + rest =~= w);
                    self.lemma_node_at_words(p, rest);
                }
            }
        }
    }

    /// Well-formed nodes with the same words have the same shape.
    proof fn lemma_same_words_same_shape(self, other: TrieNode)
        requires
            self.wf(),
            other.wf(),
            forall|w: Seq<char>| #[trigger] self.has_word(w) == other.has_word(w),
        ensures
            self.same_shape(other),
        decreases self,
    {
        assert(self.has_word(Seq::empty()) == other.has_word(Seq::empty()));
        assert forall|k: u32| #[trigger] self.children@.contains_key(k) implies other.children@.contains_key(k) by {
            let c = choose|c: char| char_key(c) == k;
            let child = self.children@[k];
            child.lemma_nonempty_has_word();
            let w = choose|w: Seq<char>| child.has_word(w);
            let word = seq![c] + w;
            assert(word[0] == c);
            assert(word.drop_first() =~= w);
            assert(self.has_word(word));
            assert(other.has_word(word));
        }
        assert forall|k: u32| #[trigger] other.children@.contains_key(k) implies self.children@.contains_key(k) by {
            let c = choose|c: char| char_key(c) == k;
            let child = other.children@[k];
            child.lemma_nonempty_has_word();
            let w = choose|w: Seq<char>| child.has_word(w);
            let word = seq![c] + w;
            assert(word[0] == c);
            assert(word.drop_first() =~= w);
            assert(other.has_word(word));
            assert(self.has_word(word));
        }
        assert(self.children@.dom() =~= other.children@.dom());
        assert forall|k: u32| #[trigger] self.children@.contains_key(k) implies self.children@[k].same_shape(
            other.children@[k],
        ) by {
            let c = choose|c: char| char_key(c) == k;
            let a = self.children@[k];
            let b = other.children@[k];
            assert forall|w: Seq<char>| #[trigger] a.has_word(w) == b.has_word(w) by {
                let word = seq![c] + w;
                assert(word[0] == c);
                assert(word.drop_first() =~= w);
                assert(self.has_word(word) == other.has_word(word));
            }
            a.lemma_same_words_same_shape(b);
        }
    }

    /// An empty node.
    fn new() -> (r: Self)
        ensures
            r.wf(),
            !r.is_word_end,
            !r.has_children(),
            forall|w: Seq<char>| !#[trigger] r.has_word(w),
            r.words() == Set::<Seq<char>>::empty(),
    {
        let r = TrieNode { children: HashMap::new(), is_word_end: false };
        assert(r.words() =~= Set::<Seq<char>>::empty());
        r
    }

    /// Adds the suffix of `word` that starts at `i`.
    fn insert_suffix(&mut self, word: &Vec<char>, i: usize)
        requires
            old(self).wf(),
            i <= word.len(),
        ensures
            final(self).wf(),
            final(self).is_word_end || final(self).has_children(),
            forall|w: Seq<char>|
                #[trigger] final(self).has_word(w) == (old(self).has_word(w) || w == word@.skip(
                    i as int,
                )),
        decreases word.len() - i,
    {
        let ghost old_self = *self;
        if i == word.len() {
            self.is_word_end = true;
            assert(word@.skip(i as int) =~= Seq::<char>::empty());
            assert forall|w: Seq<char>| #[trigger]
                self.has_word(w) == (old_self.has_word(w) || w == word@.skip(i as int)) by {
                if w.len() > 0 {
                    assert(w != word@.skip(i as int));
                } else {
                    assert(w =~= word@.skip(i as int));
                }
            }
        } else {
            let c = word[i];
            let k = c as u32;
            let mut child = match self.children.remove(&k) {
                Some(existing) => existing,
                None => TrieNode::new(),
            };
            let ghost old_child = child;
            assert(old_self.children@.contains_key(k) ==> old_child == old_self.children@[k]);
            child.insert_suffix(word, i + 1);
            self.children.insert(k, child);
            assert(self.children@.contains_key(k));
            assert forall|k2: u32| #[trigger] self.children@.contains_key(k2) implies {
                &&& exists|c: char| char_key(c) == k2
                &&& self.children@[k2].is_word_end || self.children@[k2].has_children()
                &&& self.children@[k2].wf()
            } by {
                if k2 == k {
                    assert(char_key(c) == k2);
                } else {
                    assert(old_self.children@.contains_key(k2));
                }
            }
            assert(self.has_children());
            assert forall|w: Seq<char>| #[trigger]
                self.has_word(w) == (old_self.has_word(w) || w == word@.skip(i as int)) by {
                let suffix = word@.skip(i as int);
                assert(suffix[0] == c);
                assert(suffix.drop_first() =~= word@.skip(i + 1));
                if w.len() > 0 {
                    if char_key(w[0]) == k {
                        lemma_char_key_injective(w[0], c);
                        assert(self.children@[k] == child);
                        assert(self.has_word(w) == child.has_word(w.drop_first()));
                        assert(old_self.has_word(w) == old_child.has_word(w.drop_first()));
                        if w.drop_first() == suffix.drop_first() {
                            assert(w =~= suffix) by {
                                assert forall|j: int| 0 <= j < w.len() implies w[j] == suffix[j] by {
                                    if j > 0 {
                                        assert(w[j] == w.drop_first()[j - 1]);
                                        assert(suffix[j] == suffix.drop_first()[j - 1]);
                                    }
                                }
                            }
                        }
                        if w == suffix {
                            assert(w.drop_first() == suffix.drop_first());
                        }
                    } else {
                        assert(w != suffix);
                    }
                } else {
                    assert(w != suffix);
                }
            }
        }
    }

    /// The node reached by following `chars` from this one, if any.
    fn descend(&self, chars: &Vec<char>) -> (r: Option<&TrieNode>)
        ensures
            match r {
                Some(n) => self.node_at(chars@) == Some(*n),
                None => self.node_at(chars@) is None,
            },
    {
        let mut node: &TrieNode = self;
        let mut idx: usize = 0;
        assert(chars@.take(0) =~= Seq::<char>::empty());
        while idx < chars.len()
            invariant
                0 <= idx <= chars.len(),
                self.node_at(chars@.take(idx as int)) == Some(*node),
            decreases chars.len() - idx,
        {
            let c = chars[idx];
            let k = c as u32;
            proof {
                self.lemma_node_at_push(chars@.take(idx as int), c);
                assert(chars@.take(idx as int).push(c) =~= chars@.take(idx + 1));
            }
            match node.children.get(&k) {
                Some(child) => {
                    node = child;
                },
                None => {
                    proof {
                        assert forall|j: int| idx + 1 <= j <= chars.len() implies
                            self.node_at(#[trigger] chars@.take(j)) is None by {
                            self.lemma_node_at_none_extends(chars@.take(idx + 1), chars@.take(j));
                        }
                        assert(chars@.take(chars.len() as int) =~= chars@);
                    }
                    return None;
                },
            }
            idx = idx + 1;
        }
        assert(chars@.take(chars.len() as int) =~= chars@);
        Some(node)
    }

    /// Once no node is reached, no longer path reaches one either.
    proof fn lemma_node_at_none_extends(self, p: Seq<char>, q: Seq<char>)
        requires
            p.is_prefix_of(q),
            self.node_at(p) is None,
        ensures
            self.node_at(q) is None,
        decreases p.len(),
    {
        assert(p.len() > 0);
        assert(q[0] == p[0]);
        let k = char_key(p[0]);
        if self.children@.contains_key(k) {
            assert(p.drop_first().is_prefix_of(q.drop_first()));
            self.children@[k].lemma_node_at_none_extends(p.drop_first(), q.drop_first());
        }
    }

    /// Appends to `veccer`, in increasing order, `curr_prefix` followed by each
    /// word below this node that is made of characters in `'A'..='z'` only.
    fn suggestion_rec(&self, curr_prefix: String, veccer: &mut Vec<String>)
        requires
            self.wf(),
        ensures
            final(veccer)@.len() >= old(veccer)@.len(),
            final(veccer)@.subrange(0, old(veccer)@.len() as int) == old(veccer)@,
            is_listing(
                string_views(final(veccer)@).skip(old(veccer)@.len() as int),
                curr_prefix@,
                self.words(),
            ),
        decreases self,
    {
        let ghost n0 = veccer@.len() as int;
        let ghost p = curr_prefix@;
        let ghost n = p.len() as int;
        if self.is_word_end {
            veccer.push(curr_prefix.clone());
        }
        proof {
            let added = string_views(veccer@).skip(n0);
            assert(self.is_word_end ==> added =~= seq![p]);
            assert(!self.is_word_end ==> added =~= Seq::<Seq<char>>::empty());
            assert forall|e: Seq<char>| #![trigger added.contains(e)]
                added.contains(e) <==> (p.is_prefix_of(e) && self.has_word(e.skip(n))
                    && all_listed(e.skip(n)) && e.len() == n) by {
                assert(p.subrange(0, n) =~= p);
                if p.is_prefix_of(e) && e.len() == n {
                    assert(e =~= p);
                    assert(e.skip(n) =~= Seq::<char>::empty());
                    if self.has_word(e.skip(n)) {
                        assert(added[0] == e);
                    }
                }
                if added.contains(e) {
                    assert(added[0] == e);
                    assert(e.skip(n) =~= Seq::<char>::empty());
                }
            }
        }
        if self.last_node() {
            proof {
                let added = string_views(veccer@).skip(n0);
                assert forall|e: Seq<char>| #![trigger added.contains(e)]
                    added.contains(e) <==> (p.is_prefix_of(e) && self.words().contains(e.skip(n))
                        && all_listed(e.skip(n))) by {
                    if p.is_prefix_of(e) && e.len() > n {
                        let s = e.skip(n);
                        if self.has_word(s) {
                            assert(self.children@.contains_key(char_key(s[0])));
                        }
                    }
                }
            }
            return ;
        }
        let mut i: u8 = 65;
        while i <= 122
            invariant
                self.wf(),
                p == curr_prefix@,
                n == p.len(),
                65 <= i <= 123,
                n0 == old(veccer)@.len(),
                veccer@.len() >= n0,
                veccer@.subrange(0, n0) == old(veccer)@,
                strictly_sorted(string_views(veccer@).skip(n0)),
                forall|e: Seq<char>| #![trigger string_views(veccer@).skip(n0).contains(e)]
                    string_views(veccer@).skip(n0).contains(e) <==> (p.is_prefix_of(e)
                        && self.has_word(e.skip(n)) && all_listed(e.skip(n)) && (e.len() == n
                        || char_key(e[n]) < i)),
            decreases 123 - i,
        {
            let k = i as u32;
            let ghost before = veccer@;
            let ghost c = i as char;
            assert(char_key(c) == k);
            match self.children.get(&k) {
                Some(child) => {
                    let mut next = curr_prefix.clone();
                    push_char(&mut next, i as char);
                    child.suggestion_rec(next, veccer);
                    proof {
                        let old_added = string_views(before).skip(n0);
                        let new_added = string_views(veccer@).skip(before.len() as int);
                        let all = string_views(veccer@).skip(n0);
                        assert(veccer@.subrange(0, before.len() as int) == before);
                        assert forall|j: int| 0 <= j < before.len() implies #[trigger] veccer@[j]
                            == before[j] by {
                            assert(veccer@.subrange(0, before.len() as int)[j] == veccer@[j]);
                        }
                        assert(before.len() >= n0);
                        assert(veccer@.len() >= before.len());
                        assert(old_added.len() == before.len() - n0);
                        assert(new_added.len() == veccer@.len() - before.len());
                        assert(all.len() == veccer@.len() - n0);
                        assert(all =~= old_added + new_added) by {
                            assert forall|j: int| 0 <= j < all.len() implies all[j] == (old_added
                                + new_added)[j] by {
                                if j < old_added.len() {
                                    assert(veccer@[n0 + j] == before[n0 + j]);
                                    assert(all[j] == veccer@[n0 + j]@);
                                    assert(old_added[j] == before[n0 + j]@);
                                } else {
                                    assert(all[j] == veccer@[n0 + j]@);
                                    assert(new_added[j - old_added.len()] == veccer@[before.len() + (j - old_added.len())]@);
                                }
                            }
                        }
                        assert(veccer@.subrange(0, n0) =~= old(veccer)@) by {
                            assert forall|j: int| 0 <= j < n0 implies veccer@.subrange(0, n0)[j]
                                == old(veccer)@[j] by {
                                assert(before.subrange(0, n0)[j] == before[j]);
                                assert(veccer@[j] == before[j]);
                            }
                        }
                        let q = p.push(c);
                        assert(next@ == q);
                        // every word listed so far is `p` or goes on with a character below `i`
                        assert forall|a: Seq<char>, b: Seq<char>|
                            old_added.contains(a) && new_added.contains(b) implies lex_lt(a, b) by {
                            assert(q.is_prefix_of(b));
                            assert(b.subrange(0, n + 1)[n] == c);
                            assert(p =~= b.subrange(0, n));
                            lemma_lex_lt_branch(p, a, b, k);
                        }
                        assert forall|x: int, y: int| 0 <= x < y < all.len() implies lex_lt(
                            #[trigger] all[x],
                            #[trigger] all[y],
                        ) by {
                            if y < old_added.len() {
                                assert(all[x] == old_added[x] && all[y] == old_added[y]);
                            } else if x >= old_added.len() {
                                assert(all[x] == new_added[x - old_added.len()]);
                                assert(all[y] == new_added[y - old_added.len()]);
                            } else {
                                assert(all[x] == old_added[x]);
                                assert(all[y] == new_added[y - old_added.len()]);
                                assert(old_added.contains(all[x]));
                                assert(new_added.contains(all[y]));
                            }
                        }
                        assert forall|e: Seq<char>| #![trigger all.contains(e)]
                            all.contains(e) <==> (p.is_prefix_of(e) && self.has_word(e.skip(n))
                                && all_listed(e.skip(n)) && (e.len() == n || char_key(e[n]) < i
                                + 1)) by {
                            lemma_concat_contains(old_added, new_added, e);
                            self.lemma_listing_step(p, c, e);
                            assert(new_added.contains(e) <==> (q.is_prefix_of(e)
                                && child.words().contains(e.skip(q.len() as int)) && all_listed(
                                e.skip(q.len() as int),
                            )));
                            if e.len() > n && e[n] == c {
                                assert(char_key(e[n]) == k);
                            }
                            if e.len() > n && char_key(e[n]) == k {
                                lemma_char_key_injective(e[n], c);
                            }
                        }
                    }
                },
                None => {
                    proof {
                        let all = string_views(veccer@).skip(n0);
                        assert forall|e: Seq<char>| #![trigger all.contains(e)]
                            all.contains(e) <==> (p.is_prefix_of(e) && self.has_word(e.skip(n))
                                && all_listed(e.skip(n)) && (e.len() == n || char_key(e[n]) < i
                                + 1)) by {
                            if p.is_prefix_of(e) && e.len() > n && char_key(e[n]) == k {
                                let s = e.skip(n);
                                assert(s[0] == e[n]);
                            }
                        }
                    }
                },
            }
            i = i + 1;
        }
        proof {
            let all = string_views(veccer@).skip(n0);
            assert forall|e: Seq<char>| #![trigger all.contains(e)]
                all.contains(e) <==> (p.is_prefix_of(e) && self.words().contains(e.skip(n))
                    && all_listed(e.skip(n))) by {
                if p.is_prefix_of(e) && e.len() > n && all_listed(e.skip(n)) {
                    assert(is_listed_char(e.skip(n)[0]));
                }
            }
        }
    }

    /// Completes `prefix`: `None` when no word below this node is longer
    /// than `prefix` and starts with it; otherwise, in increasing order, the
    /// words below this node that start with `prefix` and go on with
    /// characters in `'A'..='z'` only.
    pub fn collect_all_matches(&mut self, prefix: &str) -> (res: Option<Vec<String>>)
        requires
            old(self).wf(),
        ensures
            *final(self) == *old(self),
            res is Some <==> exists|w: Seq<char>|
                #![trigger old(self).words().contains(w)]
                old(self).words().contains(w) && prefix@.is_prefix_of(w) && prefix@.len() < w.len(),
            res matches Some(v) ==> is_completion_list(string_views(v@), old(self).words(), prefix@),
    {
        let chars = chars_of(prefix);
        let this: &TrieNode = self;
        let root = match this.descend(&chars) {
            Some(node) => node,
            None => {
                proof {
                    assert forall|w: Seq<char>| #[trigger] self.words().contains(w) implies !(
                        prefix@.is_prefix_of(w)) by {
                        if prefix@.is_prefix_of(w) {
                            let rest = w.skip(prefix@.len() as int);
                            assert(prefix@ + rest =~= w);
                            self.lemma_node_at_words(prefix@, rest);
                        }
                    }
                }
                return None;
            },
        };
        proof {
            self.lemma_children_iff_extension(prefix@);
            self.lemma_node_at_wf(prefix@);
        }
        let is_word = root.is_word_end;
        let is_last = root.last_node();
        if is_word && is_last {
            return None;
        }
        if !is_last {
            let mut v: Vec<String> = Vec::new();
            root.suggestion_rec(prefix.to_owned(), &mut v);
            proof {
                let p = prefix@;
                let out = string_views(v@);
                assert(string_views(v@).skip(0) =~= out);
                assert forall|e: Seq<char>| #![trigger out.contains(e)]
                    out.contains(e) <==> (self.words().contains(e) && p.is_prefix_of(e)
                        && all_listed(e.skip(p.len() as int))) by {
                    if p.is_prefix_of(e) {
                        let rest = e.skip(p.len() as int);
                        assert(p + rest =~= e);
                        self.lemma_node_at_words(p, rest);
                    }
                }
            }
            return Some(v);
        }
        None
    }

    /// Whether this node has no child.
    fn last_node(&self) -> (r: bool)
        ensures
            r == !self.has_children(),
    {
        let r = self.children.is_empty();
        proof {
            if self.has_children() {
                let k = choose|k: u32| self.children@.contains_key(k);
                assert(self.children@.dom().contains(k));
            } else {
                assert(self.children@.dom() =~= Set::empty());
            }
        }
        r
    }
}

impl Default for TrieNode {
    /// An empty node: no word below it.
    fn default() -> (r: Self)
        ensures
            r.wf(),
            r.words() == Set::<Seq<char>>::empty(),
    {
        TrieNode::new()
    }
}

impl Trie {
    /// Every node of the tree is keyed by a character and leads to a word.
    pub open spec fn wf(self) -> bool {
        self.root.wf()
    }

    /// Adds `key` to the words of the tree.
    pub fn insert(&mut self, key: String)
        requires
            old(self).wf(),
        ensures
            final(self).wf(),
            final(self)@ == old(self)@.insert(key@),
            final(self).root.paths() == old(self).root.paths().union(
                Set::new(|p: Seq<char>| p.is_prefix_of(key@)),
            ),
    {
        let chars = chars_of(key.as_str());
        let ghost old_root = self.root;
        self.root.insert_suffix(&chars, 0);
        proof {
            assert(chars@.skip(0) =~= key@);
            assert(self@ =~= old(self)@.insert(key@)) by {
                assert forall|w: Seq<char>| self@.contains(w) == old(self)@.insert(key@).contains(w)
                    by {
                    assert(self.root.has_word(w) == (old_root.has_word(w) || w == chars@.skip(0)));
                }
            }
            let new_root = self.root;
            assert forall|p: Seq<char>| #[trigger] new_root.paths().contains(p) == old_root.paths().union(
                Set::new(|q: Seq<char>| q.is_prefix_of(key@)),
            ).contains(p) by {
                new_root.lemma_paths_are_prefixes(p);
                old_root.lemma_paths_are_prefixes(p);
                assert(new_root.has_word(key@));
                if exists|w: Seq<char>| new_root.has_word(w) && p.is_prefix_of(w) {
                    let w = choose|w: Seq<char>| new_root.has_word(w) && p.is_prefix_of(w);
                    assert(old_root.has_word(w) || w == key@);
                }
                if exists|w: Seq<char>| old_root.has_word(w) && p.is_prefix_of(w) {
                    let w = choose|w: Seq<char>| old_root.has_word(w) && p.is_prefix_of(w);
                    assert(new_root.has_word(w));
                }
            }
            assert(new_root.paths() =~= old_root.paths().union(
                Set::new(|q: Seq<char>| q.is_prefix_of(key@)),
            ));
        }
    }

    /// Whether `word` is one of the words of the tree.
    pub fn search(&mut self, word: String) -> (r: bool)
        requires
            old(self).wf(),
        ensures
            *final(self) == *old(self),
            r == old(self)@.contains(word@),
    {
        let chars = chars_of(word.as_str());
        let root: &TrieNode = &self.root;
        proof {
            assert(word@ + Seq::<char>::empty() =~= word@);
            root.lemma_node_at_words(word@, Seq::empty());
        }
        match root.descend(&chars) {
            Some(node) => node.is_word_end,
            None => false,
        }
    }

    /// Whether `prefix` is empty or starts some word of the tree.
    pub fn start_with(&mut self, prefix: String) -> (r: bool)
        requires
            old(self).wf(),
        ensures
            *final(self) == *old(self),
            r == (prefix@.len() == 0 || exists|w: Seq<char>|
                #![trigger old(self)@.contains(w)]
                old(self)@.contains(w) && prefix@.is_prefix_of(w)),
    {
        let chars = chars_of(prefix.as_str());
        let root: &TrieNode = &self.root;
        let ghost p = prefix@;
        match root.descend(&chars) {
            Some(node) => {
                proof {
                    if p.len() > 0 {
                        root.lemma_node_at_wf(p);
                        root.node_at(p).unwrap().lemma_nonempty_has_word();
                        let rest = choose|w: Seq<char>| node.has_word(w);
                        root.lemma_node_at_words(p, rest);
                        assert((p + rest).subrange(0, p.len() as int) =~= p);
                        assert(root.words().contains(p + rest));
                        assert(old(self)@.contains(p + rest));
                    }
                }
                true
            },
            None => {
                proof {
                    assert(p.len() > 0);
                    assert forall|w: Seq<char>| #[trigger] old(self)@.contains(w) implies !(
                        p.is_prefix_of(w)) by {
                        if p.is_prefix_of(w) {
                            let rest = w.skip(p.len() as int);
                            assert(p + rest =~= w);
                            root.lemma_node_at_words(p, rest);
                        }
                    }
                }
                false
            },
        }
    }
}

impl View for Trie {
    type V = Set<Seq<char>>;

    open spec fn view(&self) -> Set<Seq<char>> {
        self.root.words()
    }
}

impl Default for Trie {
    /// An empty tree.
    fn default() -> (r: Self)
        ensures
            r.wf(),
            r@ == Set::<Seq<char>>::empty(),
    {
        Trie { root: TrieNode::new() }
    }
}

/// After `insert(key)`, `search(key)` is true, and `search` gives for every
/// other word what it gave before.
pub proof fn law_search_after_insert(before: Trie, after: Trie, key: Seq<char>)
    requires
        after@ == before@.insert(key),
    ensures
        after@.contains(key),
        forall|w: Seq<char>| w != key ==> (#[trigger] after@.contains(w)) == before@.contains(w),
{
}

/// Inserting a word that is already in the tree leaves its words as they are.
pub proof fn law_insert_idempotent(before: Trie, after: Trie, key: Seq<char>)
    requires
        before@.contains(key),
        after@ == before@.insert(key),
    ensures
        after@ == before@,
{
    assert(after@ =~= before@);
}

/// Every prefix of a word of the tree starts a word of the tree, as
/// `start_with` reports; completing a proper prefix of a word whose rest is
/// made of characters in `'A'..='z'` lists that word.
pub proof fn law_prefix_of_word(t: Trie, w: Seq<char>, p: Seq<char>)
    requires
        t@.contains(w),
        p.is_prefix_of(w),
    ensures
        exists|v: Seq<char>| #![trigger t@.contains(v)] t@.contains(v) && p.is_prefix_of(v),
        forall|out: Seq<Seq<char>>|
            is_completion_list(out, t@, p) && all_listed(w.skip(p.len() as int)) ==> #[trigger] out.contains(w),
{
}

/// Two well-formed trees with the same words have the same shape: the same
/// nodes, under the same characters, ending words alike. So the order of the
/// inserts that built a tree, and inserting a word again, do not change it.
pub proof fn law_same_words_same_shape(a: Trie, b: Trie)
    requires
        a.wf(),
        b.wf(),
        a@ == b@,
    ensures
        a.root.same_shape(b.root),
{
    assert forall|w: Seq<char>| #[trigger] a.root.has_word(w) == b.root.has_word(w) by {
        assert(a@ == a.root.words());
        assert(b@ == b.root.words());
        assert(a.root.words().contains(w) == b.root.words().contains(w));
    }
    a.root.lemma_same_words_same_shape(b.root);
}

} // verus!
