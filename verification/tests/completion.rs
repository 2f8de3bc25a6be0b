use tosh::completion::complete_command;

fn strings(words: &[&str]) -> Vec<String> {
    words.iter().map(|w| w.to_string()).collect()
}

#[test]
fn one_candidate_completes() {
    assert_eq!(complete_command(&strings(&["cargo", "cat"]), "car"), Some("cargo".to_string()));
    assert_eq!(complete_command(&strings(&["ls"]), ""), Some("ls".to_string()));
}

#[test]
fn several_candidates_do_not_complete() {
    assert_eq!(complete_command(&strings(&["cargo", "cat"]), "ca"), None);
}

#[test]
fn a_full_name_does_not_complete() {
    assert_eq!(complete_command(&strings(&["cargo"]), "cargo"), None);
    assert_eq!(complete_command(&strings(&["cargo"]), "x"), None);
}

#[test]
fn names_with_other_characters_are_not_candidates() {
    assert_eq!(
        complete_command(&strings(&["cargo", "cargo-fmt"]), "carg"),
        Some("cargo".to_string())
    );
}
