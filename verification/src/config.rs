//! The shell's settings: command aliases and the environment variables that
//! it manages. Both are maps from names. vstd describes what a `HashMap`
//! holds only for key types that obey its key model, which `String` keys do
//! not, so each map is kept as a list of entries whose names are distinct,
//! and its view is the map.
use vstd::prelude::*;

use crate::text::{
    chars_of, join_with, law_join_pieces, law_pieces_append, law_pieces_hold_no_separator, pieces,
    push_char, split_on, string_views,
};

verus! {

/// Whether some entry of `s` has the name `k`.
pub open spec fn has_name<V>(s: Seq<(String, V)>, k: Seq<char>) -> bool {
    exists|i: int| 0 <= i < s.len() && (#[trigger] s[i]).0@ == k
}

/// The position of the entry named `k`.
pub open spec fn name_index<V>(s: Seq<(String, V)>, k: Seq<char>) -> int {
    choose|i: int| 0 <= i < s.len() && (#[trigger] s[i]).0@ == k
}

/// No two entries of `s` have the same name.
pub open spec fn names_distinct<V>(s: Seq<(String, V)>) -> bool {
    forall|i: int, j: int| 0 <= i < j < s.len() ==> (#[trigger] s[i]).0@ != (#[trigger] s[j]).0@
}

/// The map that a list of aliases stands for.
pub open spec fn alias_map(s: Seq<(String, String)>) -> Map<Seq<char>, Seq<char>> {
    Map::new(|k: Seq<char>| has_name(s, k), |k: Seq<char>| s[name_index(s, k)].1@)
}

/// The map that a list of variables stands for: each name to its values.
pub open spec fn env_map(s: Seq<(String, Vec<String>)>) -> Map<Seq<char>, Seq<Seq<char>>> {
    Map::new(
        |k: Seq<char>| has_name(s, k),
        |k: Seq<char>| string_views(s[name_index(s, k)].1@),
    )
}

/// In a list with distinct names, the entry at `i` is the one for its name.
proof fn lemma_name_index<V>(s: Seq<(String, V)>, i: int)
    requires
        names_distinct(s),
        0 <= i < s.len(),
    ensures
        has_name(s, s[i].0@),
        name_index(s, s[i].0@) == i,
{
    assert(has_name(s, s[i].0@));
    let j = name_index(s, s[i].0@);
    if j != i {
        if j < i {
            assert(s[j].0@ != s[i].0@);
        } else {
            assert(s[i].0@ != s[j].0@);
        }
    }
}

/// The position of the entry named `k` in `s`, if there is one.
fn find_name<V>(s: &Vec<(String, V)>, k: &String) -> (r: Option<usize>)
    ensures
        match r {
            Some(i) => i < s@.len() && s@[i as int].0@ == k@,
            None => !has_name(s@, k@),
        },
{
    let mut i: usize = 0;
    while i < s.len()
        invariant
            0 <= i <= s.len(),
            forall|j: int| 0 <= j < i ==> (#[trigger] s@[j]).0@ != k@,
        decreases s.len() - i,
    {
        if s[i].0 == *k {
            return Some(i);
        }
        i = i + 1;
    }
    None
}

/// Sets the entry for `k` to `v` in the list of aliases `s`, adding it when
/// it is not there yet.
fn set_alias(s: &mut Vec<(String, String)>, k: String, v: String)
    requires
        names_distinct(old(s)@),
    ensures
        names_distinct(final(s)@),
        alias_map(final(s)@) == alias_map(old(s)@).insert(k@, v@),
{
    let ghost ks = k@;
    let ghost vs = v@;
    match find_name(s, &k) {
        Some(i) => {
            s.set(i, (k, v));
            proof {
                let o = old(s)@;
                assert forall|a: int, b: int| 0 <= a < b < s@.len() implies (#[trigger] s@[a]).0@
                    != (#[trigger] s@[b]).0@ by {
                    assert(o[a].0@ != o[b].0@);
                }
                assert forall|kk: Seq<char>| #[trigger]
                    alias_map(s@).contains_key(kk) == alias_map(o).insert(ks, vs).contains_key(kk)
                    by {
                    if has_name(o, kk) {
                        let j = choose|j: int| 0 <= j < o.len() && o[j].0@ == kk;
                        assert(s@[j].0@ == kk);
                    }
                    if has_name(s@, kk) {
                        let j = choose|j: int| 0 <= j < s@.len() && s@[j].0@ == kk;
                        assert(o[j].0@ == kk);
                    }
                }
                assert forall|kk: Seq<char>| #[trigger] alias_map(s@).contains_key(kk) implies
                    alias_map(s@)[kk] == alias_map(o).insert(ks, vs)[kk] by {
                    let j = choose|j: int| 0 <= j < s@.len() && s@[j].0@ == kk;
                    lemma_name_index(s@, j);
                    if kk != ks {
                        lemma_name_index(o, j);
                    }
                }
                assert(alias_map(s@) =~= alias_map(o).insert(ks, vs));
            }
        },
        None => {
            s.push((k, v));
            proof {
                let o = old(s)@;
                let n = o.len() as int;
                assert forall|a: int, b: int| 0 <= a < b < s@.len() implies (#[trigger] s@[a]).0@
                    != (#[trigger] s@[b]).0@ by {
                    if b < n {
                        assert(o[a].0@ != o[b].0@);
                    } else {
                        assert(s@[a] == o[a]);
                    }
                }
                assert(s@[n].0@ == ks);
                assert forall|kk: Seq<char>| #[trigger]
                    alias_map(s@).contains_key(kk) == alias_map(o).insert(ks, vs).contains_key(kk)
                    by {
                    if has_name(o, kk) {
                        let j = choose|j: int| 0 <= j < o.len() && o[j].0@ == kk;
                        assert(s@[j].0@ == kk);
                    }
                    if has_name(s@, kk) {
                        let j = choose|j: int| 0 <= j < s@.len() && s@[j].0@ == kk;
                        if j < n {
                            assert(o[j].0@ == kk);
                        }
                    }
                }
                assert forall|kk: Seq<char>| #[trigger] alias_map(s@).contains_key(kk) implies
                    alias_map(s@)[kk] == alias_map(o).insert(ks, vs)[kk] by {
                    let j = choose|j: int| 0 <= j < s@.len() && s@[j].0@ == kk;
                    lemma_name_index(s@, j);
                    if j < n {
                        assert(s@[j] == o[j]);
                        lemma_name_index(o, j);
                    }
                }
                assert(alias_map(s@) =~= alias_map(o).insert(ks, vs));
            }
        },
    }
}

/// Sets the entry for `k` to `v` in the list of variables `s`, adding it when
/// it is not there yet.
fn set_env(s: &mut Vec<(String, Vec<String>)>, k: String, v: Vec<String>)
    requires
        names_distinct(old(s)@),
    ensures
        names_distinct(final(s)@),
        env_map(final(s)@) == env_map(old(s)@).insert(k@, string_views(v@)),
{
    let ghost ks = k@;
    let ghost vs = string_views(v@);
    match find_name(s, &k) {
        Some(i) => {
            s.set(i, (k, v));
            proof {
                let o = old(s)@;
                assert forall|a: int, b: int| 0 <= a < b < s@.len() implies (#[trigger] s@[a]).0@
                    != (#[trigger] s@[b]).0@ by {
                    assert(o[a].0@ != o[b].0@);
                }
                assert forall|kk: Seq<char>| #[trigger]
                    env_map(s@).contains_key(kk) == env_map(o).insert(ks, vs).contains_key(kk) by {
                    if has_name(o, kk) {
                        let j = choose|j: int| 0 <= j < o.len() && o[j].0@ == kk;
                        assert(s@[j].0@ == kk);
                    }
                    if has_name(s@, kk) {
                        let j = choose|j: int| 0 <= j < s@.len() && s@[j].0@ == kk;
                        assert(o[j].0@ == kk);
                    }
                }
                assert forall|kk: Seq<char>| #[trigger] env_map(s@).contains_key(kk) implies
                    env_map(s@)[kk] == env_map(o).insert(ks, vs)[kk] by {
                    let j = choose|j: int| 0 <= j < s@.len() && s@[j].0@ == kk;
                    lemma_name_index(s@, j);
                    if kk != ks {
                        lemma_name_index(o, j);
                    }
                }
                assert(env_map(s@) =~= env_map(o).insert(ks, vs));
            }
        },
        None => {
            s.push((k, v));
            proof {
                let o = old(s)@;
                let n = o.len() as int;
                assert forall|a: int, b: int| 0 <= a < b < s@.len() implies (#[trigger] s@[a]).0@
                    != (#[trigger] s@[b]).0@ by {
                    if b < n {
                        assert(o[a].0@ != o[b].0@);
                    } else {
                        assert(s@[a] == o[a]);
                    }
                }
                assert(s@[n].0@ == ks);
                assert forall|kk: Seq<char>| #[trigger]
                    env_map(s@).contains_key(kk) == env_map(o).insert(ks, vs).contains_key(kk) by {
                    if has_name(o, kk) {
                        let j = choose|j: int| 0 <= j < o.len() && o[j].0@ == kk;
                        assert(s@[j].0@ == kk);
                    }
                    if has_name(s@, kk) {
                        let j = choose|j: int| 0 <= j < s@.len() && s@[j].0@ == kk;
                        if j < n {
                            assert(o[j].0@ == kk);
                        }
                    }
                }
                assert forall|kk: Seq<char>| #[trigger] env_map(s@).contains_key(kk) implies
                    env_map(s@)[kk] == env_map(o).insert(ks, vs)[kk] by {
                    let j = choose|j: int| 0 <= j < s@.len() && s@[j].0@ == kk;
                    lemma_name_index(s@, j);
                    if j < n {
                        assert(s@[j] == o[j]);
                        lemma_name_index(o, j);
                    }
                }
                assert(env_map(s@) =~= env_map(o).insert(ks, vs));
            }
        },
    }
}

/// The aliases that a list of entries gives when each entry overrides the
/// earlier ones of the same name.
pub open spec fn alias_entries_map(s: Seq<(String, String)>) -> Map<Seq<char>, Seq<char>>
    decreases s.len(),
{
    if s.len() == 0 {
        Map::empty()
    } else {
        alias_entries_map(s.drop_last()).insert(s.last().0@, s.last().1@)
    }
}

/// The variables that a list of entries gives when each entry overrides the
/// earlier ones of the same name.
pub open spec fn env_entries_map(s: Seq<(String, Vec<String>)>) -> Map<Seq<char>, Seq<Seq<char>>>
    decreases s.len(),
{
    if s.len() == 0 {
        Map::empty()
    } else {
        env_entries_map(s.drop_last()).insert(s.last().0@, string_views(s.last().1@))
    }
}

/// The variables of a process environment given as `(name, value)` pairs:
/// each name to the pieces of its value between the `:` separators; a later
/// pair overrides an earlier one of the same name.
pub open spec fn environment_map(vars: Seq<(String, String)>) -> Map<Seq<char>, Seq<Seq<char>>>
    decreases vars.len(),
{
    if vars.len() == 0 {
        Map::empty()
    } else {
        environment_map(vars.drop_last()).insert(vars.last().0@, pieces(vars.last().1@, ':'))
    }
}

/// The shell's settings: the aliases, when there are any, and the
/// environment variables it manages, each with its list of values.
pub struct Conf {
    alias: Option<Vec<(String, String)>>,
    env: Vec<(String, Vec<String>)>,
}

impl Conf {
    /// No two aliases and no two variables share a name.
    pub closed spec fn wf(self) -> bool {
        &&& (self.alias matches Some(a) ==> names_distinct(a@))
        &&& names_distinct(self.env@)
    }

    /// The aliases, each name to what it stands for.
    pub closed spec fn aliases(self) -> Option<Map<Seq<char>, Seq<char>>> {
        match self.alias {
            Some(a) => Some(alias_map(a@)),
            None => None,
        }
    }

    /// The environment variables, each name to its values.
    pub closed spec fn env_vars(self) -> Map<Seq<char>, Seq<Seq<char>>> {
        env_map(self.env@)
    }

    /// The settings that the given entries describe; of two entries with the
    /// same name the later one counts.
    pub fn new(alias: Option<Vec<(String, String)>>, env: Vec<(String, Vec<String>)>) -> (r: Conf)
        ensures
            r.wf(),
            r.aliases() == match alias {
                Some(a) => Some(alias_entries_map(a@)),
                None => None,
            },
            r.env_vars() == env_entries_map(env@),
    {
        let mut aliases: Option<Vec<(String, String)>> = None;
        if let Some(entries) = alias {
            let mut list: Vec<(String, String)> = Vec::new();
            let mut i: usize = 0;
            assert(alias_map(list@) =~= alias_entries_map(entries@.take(0)));
            while i < entries.len()
                invariant
                    0 <= i <= entries.len(),
                    names_distinct(list@),
                    alias_map(list@) == alias_entries_map(entries@.take(i as int)),
                decreases entries.len() - i,
            {
                let entry = &entries[i];
                set_alias(&mut list, entry.0.clone(), entry.1.clone());
                assert(entries@.take(i + 1).drop_last() =~= entries@.take(i as int));
                i = i + 1;
            }
            assert(entries@.take(entries.len() as int) =~= entries@);
            aliases = Some(list);
        }
        let mut vars: Vec<(String, Vec<String>)> = Vec::new();
        let mut i: usize = 0;
        assert(env_map(vars@) =~= env_entries_map(env@.take(0)));
        while i < env.len()
            invariant
                0 <= i <= env.len(),
                names_distinct(vars@),
                env_map(vars@) == env_entries_map(env@.take(i as int)),
            decreases env.len() - i,
        {
            let entry = &env[i];
            let values = clone_strings(&entry.1);
            set_env(&mut vars, entry.0.clone(), values);
            assert(env@.take(i + 1).drop_last() =~= env@.take(i as int));
            i = i + 1;
        }
        assert(env@.take(env.len() as int) =~= env@);
        Conf { alias: aliases, env: vars }
    }

    /// Sets the alias `alias.0` to `alias.1`, when there are aliases. The
    /// alias must already be there.
    pub fn _add_alias(&mut self, alias: (String, String))
        requires
            old(self).wf(),
            old(self).aliases() matches Some(m) ==> m.contains_key(alias.0@),
        ensures
            final(self).wf(),
            final(self).aliases() == match old(self).aliases() {
                Some(m) => Some(m.insert(alias.0@, alias.1@)),
                None => None,
            },
            final(self).env_vars() == old(self).env_vars(),
    {
        if let Some(list) = &mut self.alias {
            set_alias(list, alias.0, alias.1);
        }
    }

    /// Records `envvar.1` as one more value of the variable `envvar.0`.
    pub fn add_env_var(&mut self, envvar: (String, String))
        requires
            old(self).wf(),
        ensures
            final(self).wf(),
            final(self).aliases() == old(self).aliases(),
            final(self).env_vars() == old(self).env_vars().insert(
                envvar.0@,
                if old(self).env_vars().contains_key(envvar.0@) {
                    old(self).env_vars()[envvar.0@]
                } else {
                    Seq::empty()
                }.push(envvar.1@),
            ),
    {
        let (name, value) = envvar;
        let ghost old_env = self.env@;
        let mut values: Vec<String> = match find_name(&self.env, &name) {
            Some(i) => {
                proof {
                    lemma_name_index(old_env, i as int);
                }
                clone_strings(&self.env[i].1)
            },
            None => {
                let v: Vec<String> = Vec::new();
                assert(string_views(v@) =~= Seq::<Seq<char>>::empty());
                v
            },
        };
        let ghost before = values@;
        assert(string_views(before) == if self.env_vars().contains_key(envvar.0@) {
            self.env_vars()[envvar.0@]
        } else {
            Seq::<Seq<char>>::empty()
        });
        values.push(value);
        assert(string_views(values@) =~= string_views(before).push(envvar.1@));
        set_env(&mut self.env, name, values);
    }

    /// The settings read from the settings file, if it could be read, with
    /// the environment variables taken from `vars`, the process environment:
    /// each variable's values are the pieces of its value between `:`.
    pub fn load_conf(file: Option<Conf>, vars: Vec<(String, String)>) -> (r: Conf)
        requires
            file matches Some(c) ==> c.wf(),
        ensures
            r.wf(),
            r.aliases() == match file {
                Some(c) => c.aliases(),
                None => None,
            },
            r.env_vars() == environment_map(vars@),
    {
        let mut env: Vec<(String, Vec<String>)> = Vec::new();
        let mut i: usize = 0;
        assert(env_map(env@) =~= environment_map(vars@.take(0)));
        while i < vars.len()
            invariant
                0 <= i <= vars.len(),
                names_distinct(env@),
                env_map(env@) == environment_map(vars@.take(i as int)),
            decreases vars.len() - i,
        {
            let entry = &vars[i];
            let values = split_on(entry.1.as_str(), ':');
            set_env(&mut env, entry.0.clone(), values);
            assert(vars@.take(i + 1).drop_last() =~= vars@.take(i as int));
            i = i + 1;
        }
        assert(vars@.take(vars.len() as int) =~= vars@);
        let alias = match file {
            Some(c) => c.alias,
            None => None,
        };
        Conf { alias, env }
    }

    /// The aliases, as a list of entries with distinct names.
    pub fn alias_entries(&self) -> (r: Option<&Vec<(String, String)>>)
        requires
            self.wf(),
        ensures
            match (r, self.aliases()) {
                (Some(v), Some(m)) => names_distinct(v@) && alias_map(v@) == m,
                (None, None) => true,
                _ => false,
            },
    {
        match &self.alias {
            Some(a) => Some(a),
            None => None,
        }
    }

    /// The environment variables, as a list of entries with distinct names.
    pub fn env_entries(&self) -> (r: &Vec<(String, Vec<String>)>)
        requires
            self.wf(),
        ensures
            names_distinct(r@),
            env_map(r@) == self.env_vars(),
    {
        &self.env
    }
}

impl Default for Conf {
    /// No aliases and no variables.
    fn default() -> (r: Self)
        ensures
            r.wf(),
            r.aliases() is None,
            r.env_vars() == Map::<Seq<char>, Seq<Seq<char>>>::empty(),
    {
        let r = Conf { alias: None, env: Vec::new() };
        assert(r.env_vars() =~= Map::<Seq<char>, Seq<Seq<char>>>::empty());
        r
    }
}

/// A copy of a list of strings.
fn clone_strings(v: &Vec<String>) -> (r: Vec<String>)
    ensures
        string_views(r@) == string_views(v@),
{
    let mut r: Vec<String> = Vec::new();
    let mut i: usize = 0;
    while i < v.len()
        invariant
            0 <= i <= v.len(),
            r@.len() == i,
            string_views(r@) == string_views(v@).take(i as int),
        decreases v.len() - i,
    {
        let ghost before = r@;
        let item: String = v[i].clone();
        assert(item@ == v@[i as int]@);
        assert(before.len() == i);
        r.push(item);
        assert(string_views(r@) =~= string_views(v@).take(i + 1)) by {
            assert(r@ == before.push(v@[i as int]));
            assert forall|j: int| 0 <= j < i implies string_views(r@)[j] == string_views(v@)[j] by {
                assert(string_views(before)[j] == string_views(v@).take(i as int)[j]);
            }
        }
        i = i + 1;
    }
    assert(string_views(v@).take(v.len() as int) =~= string_views(v@));
    r
}

/// The search path `current` (directories separated by `:`) with `entry`
/// added as its last directory; `None` when `entry` holds a `:` and so cannot
/// be one directory of a search path.
pub fn append_search_path(current: &str, entry: &str) -> (r: Option<String>)
    ensures
        r is None <==> entry@.contains(':'),
        r matches Some(p) ==> p@ == current@ + seq![':'] + entry@,
{
    let entry_chars = chars_of(entry);
    let mut i: usize = 0;
    while i < entry_chars.len()
        invariant
            0 <= i <= entry_chars.len(),
            entry_chars@ == entry@,
            forall|j: int| 0 <= j < i ==> entry_chars@[j] != ':',
        decreases entry_chars.len() - i,
    {
        if entry_chars[i] == ':' {
            assert(entry@[i as int] == ':');
            return None;
        }
        i = i + 1;
    }
    let mut joined = current.to_owned();
    push_char(&mut joined, ':');
    let ghost head = joined@;
    let mut k: usize = 0;
    while k < entry_chars.len()
        invariant
            0 <= k <= entry_chars.len(),
            entry_chars@ == entry@,
            head == current@ + seq![':'],
            joined@ == head + entry_chars@.take(k as int),
        decreases entry_chars.len() - k,
    {
        push_char(&mut joined, entry_chars[k]);
        assert(entry_chars@.take(k + 1) =~= entry_chars@.take(k as int).push(entry_chars@[k as int]));
        assert(joined@ =~= head + entry_chars@.take(k + 1));
        k = k + 1;
    }
    assert(entry_chars@.take(entry_chars.len() as int) =~= entry_chars@);
    Some(joined)
}

/// A search path extended by `append_search_path` splits, as `load_conf`
/// splits each variable, into the directories it had plus the new one.
pub proof fn law_appended_directory_is_last(current: Seq<char>, entry: Seq<char>, joined: Seq<char>)
    requires
        !entry.contains(':'),
        joined == current + seq![':'] + entry,
    ensures
        pieces(joined, ':') == pieces(current, ':').push(entry),
{
    law_pieces_append(current, ':', entry);
}

/// After `add_env_var` records a value for a variable, that value is the
/// variable's last one and the values before it are kept; no other variable
/// changes.
pub proof fn law_recorded_value_is_last(before: Conf, after: Conf, name: Seq<char>, value: Seq<char>)
    requires
        after.env_vars() == before.env_vars().insert(
            name,
            if before.env_vars().contains_key(name) {
                before.env_vars()[name]
            } else {
                Seq::empty()
            }.push(value),
        ),
    ensures
        after.env_vars().contains_key(name),
        after.env_vars()[name].last() == value,
        before.env_vars().contains_key(name) ==> after.env_vars()[name].drop_last()
            == before.env_vars()[name],
        forall|k: Seq<char>| k != name ==> after.env_vars().contains_key(k) == before.env_vars().contains_key(k)
            && (#[trigger] after.env_vars()[k]) == before.env_vars()[k],
{
    if before.env_vars().contains_key(name) {
        assert(after.env_vars()[name].drop_last() =~= before.env_vars()[name]);
    }
}

/// Loading the environment `vars` (as `load_conf` does) keeps one entry per
/// name that occurs in `vars`; the values of a name, joined with `:`, give
/// back the value of the last pair with that name, and no value holds `:`.
pub proof fn law_environment_values(vars: Seq<(String, String)>)
    ensures
        forall|k: Seq<char>|
            #[trigger] environment_map(vars).contains_key(k) <==> exists|i: int|
                0 <= i < vars.len() && (#[trigger] vars[i]).0@ == k,
        forall|i: int|
            0 <= i < vars.len() && (forall|j: int| i < j < vars.len() ==> (#[trigger] vars[j]).0@
                != vars[i].0@) ==> join_with(environment_map(vars)[(#[trigger] vars[i]).0@], ':')
                == vars[i].1@,
        forall|k: Seq<char>, m: int|
            environment_map(vars).contains_key(k) && 0 <= m < environment_map(vars)[k].len()
                ==> !(#[trigger] environment_map(vars)[k][m]).contains(':'),
    decreases vars.len(),
{
    if vars.len() > 0 {
        let before = vars.drop_last();
        let last = vars.last();
        law_environment_values(before);
        law_join_pieces(last.1@, ':');
        law_pieces_hold_no_separator(last.1@, ':');
        let m = environment_map(vars);
        assert(m == environment_map(before).insert(last.0@, pieces(last.1@, ':')));
        assert forall|k: Seq<char>| #[trigger] m.contains_key(k) <==> exists|i: int|
            0 <= i < vars.len() && (#[trigger] vars[i]).0@ == k by {
            if environment_map(before).contains_key(k) {
                let i = choose|i: int| 0 <= i < before.len() && (#[trigger] before[i]).0@ == k;
                assert(vars[i] == before[i]);
            }
            if k == last.0@ {
                assert(vars[vars.len() - 1] == last);
            }
            if exists|i: int| 0 <= i < vars.len() && (#[trigger] vars[i]).0@ == k {
                let i = choose|i: int| 0 <= i < vars.len() && (#[trigger] vars[i]).0@ == k;
                if i < before.len() {
                    assert(before[i] == vars[i]);
                }
            }
        }
        assert forall|i: int|
            0 <= i < vars.len() && (forall|j: int| i < j < vars.len() ==> (#[trigger] vars[j]).0@
                != vars[i].0@) implies join_with(m[(#[trigger] vars[i]).0@], ':') == vars[i].1@ by {
            if i == vars.len() - 1 {
                assert(vars[i] == last);
            } else {
                assert(vars[vars.len() - 1] == last);
                assert(last.0@ != vars[i].0@);
                assert(before[i] == vars[i]);
                assert forall|j: int| i < j < before.len() implies (#[trigger] before[j]).0@
                    != before[i].0@ by {
                    assert(before[j] == vars[j]);
                }
            }
        }
        assert forall|k: Seq<char>, n: int|
            m.contains_key(k) && 0 <= n < m[k].len() implies !(#[trigger] m[k][n]).contains(
                ':',
            ) by {
            if k != last.0@ {
                assert(m[k] == environment_map(before)[k]);
            }
        }
    }
}

} // verus!
