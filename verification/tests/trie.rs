use tosh::trie::Trie;

#[test]
fn trie_test_autocomplete() {
    let mut obj = Trie::default();
    obj.insert(String::from("hello"));
    obj.insert(String::from("heli"));
    obj.insert(String::from("hell"));
    let test_string = "hel";
    assert_eq!(
        Some(vec![
            "heli".to_owned(),
            "hell".to_owned(),
            "hello".to_owned()
        ]),
        obj.root.collect_all_matches(test_string),
    );
}

#[test]
fn should_fail() {
    let mut obj = Trie::default();
    obj.insert(String::from("hello"));
    obj.insert(String::from("heli"));
    obj.insert(String::from("hell"));
    let test_string1 = "NoEntryAvailableTest";
    assert_eq!(None, obj.root.collect_all_matches(test_string1),);
}

fn trie_of(words: &[&str]) -> Trie {
    let mut t = Trie::default();
    for w in words {
        t.insert(w.to_string());
    }
    t
}

fn strings(words: &[&str]) -> Vec<String> {
    words.iter().map(|w| w.to_string()).collect()
}

#[test]
fn search_finds_inserted_words_only() {
    let mut t = trie_of(&["hello", "hell"]);
    assert!(t.search(String::from("hello")));
    assert!(t.search(String::from("hell")));
    assert!(!t.search(String::from("hel")));
    assert!(!t.search(String::from("helloo")));
    assert!(!t.search(String::from("")));
    t.insert(String::new());
    assert!(t.search(String::from("")));
}

#[test]
fn start_with_reports_prefixes() {
    let mut empty = Trie::default();
    assert!(empty.start_with(String::new()));
    assert!(!empty.start_with(String::from("a")));
    let mut t = trie_of(&["hello"]);
    assert!(t.start_with(String::from("he")));
    assert!(t.start_with(String::from("hello")));
    assert!(!t.start_with(String::from("hex")));
}

#[test]
fn completion_of_a_word_without_continuation_is_none() {
    let mut t = trie_of(&["abc"]);
    assert_eq!(t.root.collect_all_matches("abc"), None);
    let mut empty = Trie::default();
    assert_eq!(empty.root.collect_all_matches(""), None);
}

#[test]
fn completion_lists_the_prefix_itself_first() {
    let mut t = trie_of(&["abc", "ab"]);
    assert_eq!(t.root.collect_all_matches("ab"), Some(strings(&["ab", "abc"])));
}

#[test]
fn completion_walks_only_letters_range() {
    let mut t = trie_of(&["a1", "ab", "a_b", "aB"]);
    assert_eq!(
        t.root.collect_all_matches("a"),
        Some(strings(&["aB", "a_b", "ab"]))
    );
    // the prefix itself may hold any character
    let mut u = trie_of(&["1x", "1y"]);
    assert_eq!(u.root.collect_all_matches("1"), Some(strings(&["1x", "1y"])));
}

#[test]
fn inserting_twice_changes_nothing() {
    let mut once = trie_of(&["cat", "car"]);
    let mut twice = trie_of(&["cat", "car", "cat"]);
    assert_eq!(
        once.root.collect_all_matches("c"),
        twice.root.collect_all_matches("c")
    );
    assert_eq!(once.root.collect_all_matches("c"), Some(strings(&["car", "cat"])));
}

#[test]
fn insert_order_does_not_matter() {
    let mut a = trie_of(&["ab", "a", "abc", "b"]);
    let mut b = trie_of(&["b", "abc", "a", "ab", "a"]);
    for p in ["", "a", "ab", "b", "abc"] {
        assert_eq!(a.root.collect_all_matches(p), b.root.collect_all_matches(p));
        assert_eq!(a.start_with(p.to_string()), b.start_with(p.to_string()));
        assert_eq!(a.search(p.to_string()), b.search(p.to_string()));
    }
}
