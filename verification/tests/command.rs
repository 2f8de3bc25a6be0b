use tosh::command::{
    parse_command, structured_output, structured_output_available, toml_of_json, Command,
};

fn strings(words: &[&str]) -> Vec<String> {
    words.iter().map(|w| w.to_string()).collect()
}

#[test]
fn empty_lines_ask_for_nothing() {
    assert_eq!(parse_command(""), Command::Empty);
    assert_eq!(parse_command("   \t"), Command::Empty);
    assert_eq!(parse_command("\n"), Command::Empty);
}

#[test]
fn cd_takes_its_first_argument() {
    assert_eq!(parse_command("cd"), Command::ChangeDir(None));
    assert_eq!(
        parse_command("cd /tmp extra"),
        Command::ChangeDir(Some("/tmp".to_string()))
    );
}

#[test]
fn add_to_env_needs_two_arguments() {
    assert_eq!(
        parse_command("add_to_env FOO bar baz"),
        Command::AddToEnv("FOO".to_string(), "bar".to_string())
    );
    assert_eq!(
        parse_command("add_to_env FOO"),
        Command::Run("add_to_env".to_string(), strings(&["FOO"]), true)
    );
}

#[test]
fn fg_resumes() {
    assert_eq!(parse_command("fg"), Command::Resume);
    assert_eq!(parse_command("  fg 2"), Command::Resume);
}

#[test]
fn other_lines_run_programs() {
    assert_eq!(
        parse_command("ls -la\t /tmp  "),
        Command::Run("ls".to_string(), strings(&["-la", "/tmp"]), false)
    );
    assert_eq!(
        parse_command("\nls"),
        Command::Run("ls".to_string(), Vec::new(), false)
    );
    assert_eq!(
        parse_command("cdx"),
        Command::Run("cdx".to_string(), Vec::new(), false)
    );
}

#[test]
fn jc_status_below_100_means_structured_output() {
    assert!(structured_output_available(Some(0)));
    assert!(structured_output_available(Some(99)));
    assert!(structured_output_available(Some(-1)));
    assert!(!structured_output_available(Some(100)));
    assert!(!structured_output_available(None));
}

#[test]
fn jc_output_becomes_toml() {
    assert_eq!(
        structured_output(Some(0), br#"{"a": 1}"#),
        Some(Some("a = 1\n".to_string()))
    );
    assert_eq!(structured_output(Some(0), b"not json"), Some(None));
    assert_eq!(structured_output(Some(100), br#"{"a": 1}"#), None);
    assert_eq!(structured_output(None, br#"{"a": 1}"#), None);
    assert_eq!(toml_of_json(br#"{"b": "x", "a": [1, 2]}"#), Some("a = [1, 2]\nb = \"x\"\n".to_string()));
}
