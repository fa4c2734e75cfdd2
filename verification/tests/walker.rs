use masterenv::{entry_action, get_file_name, Configuration, EntryAction, TraversalNode};

fn strings(items: &[&str]) -> Vec<String> {
    items.iter().map(|s| String::from(*s)).collect()
}

fn configuration() -> Configuration {
    Configuration::new(strings(&[".env", ".properties", "config.ini"]), strings(&["node_modules", "target", ".git"]))
}

fn file(name: &str) -> TraversalNode {
    TraversalNode { name: Some(String::from(name)), is_dir: false }
}

fn dir(name: &str) -> TraversalNode {
    TraversalNode { name: Some(String::from(name)), is_dir: true }
}

#[test]
fn configuration_keeps_its_lists() {
    let config = configuration();
    assert_eq!(config.config_files().to_vec(), strings(&[".env", ".properties", "config.ini"]));
    assert_eq!(config.ignored_directories().to_vec(), strings(&["node_modules", "target", ".git"]));
}

#[test]
fn config_file_by_suffix() {
    let config = configuration();
    assert!(config.is_config_file(&file(".env")));
    assert!(config.is_config_file(&file("prod.env")));
    assert!(config.is_config_file(&file("app.properties")));
    assert!(config.is_config_file(&file("config.ini")));
    assert!(config.is_config_file(&file("my-config.ini")));
    assert!(!config.is_config_file(&file("env")));
    assert!(!config.is_config_file(&file(".env.bak")));
    assert!(!config.is_config_file(&file("main.rs")));
    assert!(!config.is_config_file(&file("onfig.ini")));
    assert!(!config.is_config_file(&file("")));
}

#[test]
fn suffix_match_is_case_sensitive() {
    let config = configuration();
    assert!(!config.is_config_file(&file("prod.ENV")));
    assert!(!config.is_config_file(&file("Config.INI")));
}

#[test]
fn entry_without_name_is_no_config_file() {
    let config = configuration();
    assert!(!config.is_config_file(&TraversalNode { name: None, is_dir: false }));
    let any = Configuration::new(strings(&[""]), strings(&[]));
    assert!(any.is_config_file(&file("whatever")));
    assert!(!any.is_config_file(&TraversalNode { name: None, is_dir: false }));
}

#[test]
fn no_suffixes_no_config_files() {
    let config = Configuration::new(strings(&[]), strings(&[]));
    assert!(!config.is_config_file(&file(".env")));
    assert!(!config.is_ignored("target"));
}

#[test]
fn ignored_directory_by_exact_name() {
    let config = configuration();
    assert!(config.is_ignored("node_modules"));
    assert!(config.is_ignored("target"));
    assert!(config.is_ignored(".git"));
    assert!(!config.is_ignored("src"));
    assert!(!config.is_ignored("Target"));
    assert!(!config.is_ignored("target2"));
    assert!(!config.is_ignored("arget"));
    assert!(!config.is_ignored(""));
}

#[test]
fn file_name_of_an_entry() {
    assert_eq!(get_file_name(&file("prod.env")), "prod.env");
    assert_eq!(get_file_name(&dir("src")), "src");
    assert_eq!(get_file_name(&TraversalNode { name: None, is_dir: true }), "");
}

#[test]
fn walk_enters_directories_and_synchronises_config_files() {
    let config = configuration();
    assert_eq!(entry_action(&config, &dir("src")), EntryAction::Descend);
    assert_eq!(entry_action(&config, &file("prod.env")), EntryAction::Synchronize);
    assert_eq!(entry_action(&config, &file("main.rs")), EntryAction::Skip);
    assert_eq!(entry_action(&config, &dir("target")), EntryAction::Prune);
}

#[test]
fn ignored_directory_is_pruned_whatever_its_suffix() {
    let config = Configuration::new(strings(&[".env", "target"]), strings(&["target", "cache.env"]));
    assert_eq!(entry_action(&config, &dir("target")), EntryAction::Prune);
    assert_eq!(entry_action(&config, &dir("cache.env")), EntryAction::Prune);
    assert_eq!(entry_action(&config, &dir("other.env")), EntryAction::Descend);
}

#[test]
fn file_with_an_ignored_name_is_still_a_file() {
    let config = Configuration::new(strings(&[".env", "target"]), strings(&["target", "cache.env"]));
    assert_eq!(entry_action(&config, &file("target")), EntryAction::Synchronize);
    assert_eq!(entry_action(&config, &file("cache.env")), EntryAction::Synchronize);
    assert_eq!(entry_action(&config, &file(".git")), EntryAction::Skip);
}

#[test]
fn entry_without_name_counts_as_the_empty_name() {
    let config = Configuration::new(strings(&[".env"]), strings(&[""]));
    assert_eq!(entry_action(&config, &TraversalNode { name: None, is_dir: true }), EntryAction::Prune);
    assert_eq!(entry_action(&config, &TraversalNode { name: None, is_dir: false }), EntryAction::Skip);
    let plain = configuration();
    assert_eq!(entry_action(&plain, &TraversalNode { name: None, is_dir: true }), EntryAction::Descend);
}
