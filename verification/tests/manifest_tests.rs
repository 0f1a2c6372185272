use dot::config;
use dot::error::DotError;
use dot::manifest::Manifest;
use dot::path::collapse_tilde_with_home;
use dot::symlink::SymLink;

#[test]
fn test_manifest_empty() {
    let manifest = Manifest::empty();
    assert_eq!(manifest.entries.len(), 0);
}

#[test]
fn insert_and_get_symlink_roundtrip() {
    let mut manifest = Manifest::empty();
    let home = dirs::home_dir().expect("home");
    let home_str = home.to_str().expect("utf-8 home").to_string();
    let original = "config.txt";
    let target = format!("{}/.config/config.txt", home_str);

    let link = SymLink::new(original.to_string(), target.clone());
    manifest.insert_symlink(&link, Some(&home_str), "/").expect("insert");

    // The stored path in the manifest should use a tilde prefix
    let expected_tilde =
        collapse_tilde_with_home(&target, Some(home_str.clone()), "/").unwrap();
    assert_eq!(manifest.entries[0].0, original.to_string());
    assert_eq!(manifest.entries[0].1, expected_tilde);

    // When requesting via the API it should expand back to the full absolute path
    let resolved = manifest.get_symlink_path(original, Some(&home_str)).unwrap().unwrap();
    assert_eq!(resolved, target);
}

#[test]
fn remove_file_returns_true_when_present() {
    let mut manifest = Manifest::empty();
    manifest.entries.push((String::from("a"), String::from("b")));
    assert!(manifest.remove_file("a"));
    assert!(!manifest.has_file("a"));
}

#[test]
fn remove_file_returns_false_when_absent() {
    let mut manifest = Manifest::empty();
    assert!(!manifest.remove_file("missing"));
}

#[test]
fn serialize_and_deserialize_consistency() {
    let mut original = Manifest::empty();
    original.entries.push((String::from("a"), String::from("b")));
    let text = original.serialize().expect("serialize");
    let parsed = Manifest::new(&text).expect("parse");
    assert!(parsed.has_file("a"));
}

#[test]
fn serialize_writes_one_quoted_line_per_entry() {
    let mut manifest = Manifest::empty();
    manifest.insert_entry(String::from(".bashrc"), String::from("~/.bashrc"));
    manifest.insert_entry(String::from(".vimrc"), String::from("~/.vimrc"));
    let text = manifest.serialize().unwrap();
    assert_eq!(text, "\".bashrc\" = \"~/.bashrc\"\n\".vimrc\" = \"~/.vimrc\"\n");
}

#[test]
fn serialize_then_load_gives_back_the_same_entries() {
    let mut manifest = Manifest::empty();
    manifest.insert_entry(String::from("b"), String::from("/etc/b"));
    manifest.insert_entry(String::from("a"), String::from("~/a"));
    manifest.insert_entry(String::from("c"), String::from("~/c"));
    let text = manifest.serialize().unwrap();
    let reloaded = Manifest::new(&text).unwrap();
    assert_eq!(reloaded.entries, manifest.entries);
}

#[test]
fn load_of_empty_text_is_an_empty_manifest() {
    let manifest = Manifest::new("").expect("empty input parses");
    assert_eq!(manifest.entries.len(), 0);
}

#[test]
fn load_sorts_entries_by_key() {
    let manifest = Manifest::new("\"z\" = \"1\"\n\"a\" = \"2\"\n").unwrap();
    assert_eq!(manifest.entries[0], (String::from("a"), String::from("2")));
    assert_eq!(manifest.entries[1], (String::from("z"), String::from("1")));
}

#[test]
fn load_rejects_malformed_lines() {
    let result = Manifest::new("nonsense\n");
    assert!(matches!(result, Err(DotError::Parse)));
}

#[test]
fn load_rejects_repeated_keys() {
    let result = Manifest::new("\"a\" = \"1\"\n\"a\" = \"2\"\n");
    assert!(matches!(result, Err(DotError::Parse)));
}

#[test]
fn serialize_rejects_quotes_in_entries() {
    let mut manifest = Manifest::empty();
    manifest.entries.push((String::from("a\"b"), String::from("c")));
    let result = manifest.serialize();
    assert!(matches!(result, Err(DotError::Serialize)));
}

#[test]
fn insert_entry_replaces_an_existing_binding() {
    let mut manifest = Manifest::empty();
    manifest.insert_entry(String::from("a"), String::from("1"));
    manifest.insert_entry(String::from("a"), String::from("2"));
    assert_eq!(manifest.entries, vec![(String::from("a"), String::from("2"))]);
}

#[test]
fn get_symlink_path_needs_a_home_for_tilde_entries() {
    let mut manifest = Manifest::empty();
    manifest.insert_entry(String::from("a"), String::from("~/a"));
    let result = manifest.get_symlink_path("a", None);
    assert!(matches!(result, Err(DotError::NoHomeDir)));
}

#[test]
fn get_symlink_path_of_untracked_file_is_none() {
    let manifest = Manifest::empty();
    assert_eq!(manifest.get_symlink_path("nope", None).unwrap(), None);
}

#[test]
fn config_mapping_inserts_and_removes() {
    let empty: config::Config = Vec::new();
    let one = config::insert(&empty, String::from("k"), String::from("v"));
    assert!(config::has(&one, "k"));
    assert_eq!(config::get(&one, "k"), Some(String::from("v")));
    let two = config::insert(&one, String::from("k"), String::from("w"));
    assert_eq!(config::get(&two, "k"), Some(String::from("w")));
    let none = config::remove(&two, "k");
    assert!(!config::has(&none, "k"));
    assert_eq!(config::get(&none, "k"), None);
}
