use tosh::config::{append_search_path, Conf};
use tosh::text::split_on;

fn pair(a: &str, b: &str) -> (String, String) {
    (a.to_string(), b.to_string())
}

fn values_of(conf: &Conf, name: &str) -> Option<Vec<String>> {
    conf.env_entries()
        .iter()
        .find(|(k, _)| k == name)
        .map(|(_, v)| v.clone())
}

fn alias_of(conf: &Conf, name: &str) -> Option<String> {
    conf.alias_entries()
        .and_then(|a| a.iter().find(|(k, _)| k == name).map(|(_, v)| v.clone()))
}

#[test]
fn default_has_no_settings() {
    let c = Conf::default();
    assert!(c.alias_entries().is_none());
    assert!(c.env_entries().is_empty());
}

#[test]
fn add_env_var_appends_values() {
    let mut c = Conf::default();
    c.add_env_var(pair("FOO", "a"));
    c.add_env_var(pair("FOO", "b"));
    c.add_env_var(pair("BAR", "c"));
    assert_eq!(values_of(&c, "FOO"), Some(vec!["a".to_string(), "b".to_string()]));
    assert_eq!(values_of(&c, "BAR"), Some(vec!["c".to_string()]));
    assert_eq!(c.env_entries().len(), 2);
}

#[test]
fn load_conf_splits_variables_and_keeps_file_aliases() {
    let vars = vec![pair("PATH", "/bin:/usr/bin"), pair("EMPTY", ""), pair("X", "1"), pair("X", "2:")];
    let c = Conf::load_conf(None, vars.clone());
    assert!(c.alias_entries().is_none());
    assert_eq!(values_of(&c, "PATH"), Some(vec!["/bin".to_string(), "/usr/bin".to_string()]));
    assert_eq!(values_of(&c, "EMPTY"), Some(vec![String::new()]));
    assert_eq!(values_of(&c, "X"), Some(vec!["2".to_string(), String::new()]));
    let file = Conf::new(Some(vec![pair("ll", "ls -l")]), vec![(String::from("OLD"), vec![])]);
    let c = Conf::load_conf(Some(file), vars);
    assert_eq!(alias_of(&c, "ll"), Some("ls -l".to_string()));
    assert_eq!(values_of(&c, "OLD"), None);
}

#[test]
fn new_keeps_the_last_entry_of_a_name() {
    let c = Conf::new(Some(vec![pair("a", "1"), pair("a", "2")]), Vec::new());
    assert_eq!(alias_of(&c, "a"), Some("2".to_string()));
    assert_eq!(c.alias_entries().unwrap().len(), 1);
}

#[test]
fn add_alias_replaces_an_alias() {
    let mut c = Conf::new(Some(vec![pair("ll", "ls -l")]), Vec::new());
    c._add_alias(pair("ll", "ls -la"));
    assert_eq!(alias_of(&c, "ll"), Some("ls -la".to_string()));
    let mut none = Conf::default();
    none._add_alias(pair("ll", "ls"));
    assert!(none.alias_entries().is_none());
}

#[test]
fn search_path_gets_one_more_directory() {
    assert_eq!(append_search_path("/bin", "/opt/bin"), Some("/bin:/opt/bin".to_string()));
    assert_eq!(append_search_path("", "x"), Some(":x".to_string()));
    assert_eq!(append_search_path("/bin", "a:b"), None);
    let joined = append_search_path("/bin:/usr/bin", "/opt").unwrap();
    assert_eq!(split_on(&joined, ':'), vec!["/bin", "/usr/bin", "/opt"]);
}
