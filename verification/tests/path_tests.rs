use dot::error::DotError;
use dot::path::collapse_tilde_with_home;
use dot::path::expand_tilde;
use dot::path::expand_tilde_with_home;
use dot::path::file_name;
use dot::path::to_lexical_absolute;
use dot::path_ext::ToLexicalAbsolute;

#[test]
fn expand_tilde_with_valid_home() {
    let home = String::from("/home/user");
    let result = expand_tilde_with_home("~/config", Some(home)).unwrap();
    assert_eq!(result, String::from("/home/user/config"));
}

#[test]
fn expand_tilde_no_prefix() {
    let result = expand_tilde_with_home("/absolute", Some(String::from("/home"))).unwrap();
    assert_eq!(result, String::from("/absolute"));
}

#[test]
fn expand_tilde_no_home_errors() {
    let result = expand_tilde_with_home("~/config", None);
    assert!(matches!(result, Err(DotError::NoHomeDir)));
}

#[test]
fn expand_tilde_bare_marker_yields_home() {
    let result = expand_tilde_with_home("~", Some(String::from("/home/user"))).unwrap();
    assert_eq!(result, String::from("/home/user"));
}

#[test]
fn expand_tilde_env_backed_keeps_plain_paths() {
    let result = expand_tilde("/etc/hosts").unwrap();
    assert_eq!(result, String::from("/etc/hosts"));
}

#[test]
fn collapse_tilde_inside_home() {
    let home = String::from("/home/user");
    let result = collapse_tilde_with_home("/home/user/config", Some(home), "/").unwrap();
    assert_eq!(result, String::from("~/config"));
}

#[test]
fn collapse_tilde_outside_home() {
    let home = String::from("/home/user");
    let result = collapse_tilde_with_home("/etc/config", Some(home), "/").unwrap();
    assert_eq!(result, String::from("/etc/config"));
}

#[test]
fn collapse_tilde_no_home_errors() {
    let result = collapse_tilde_with_home("/etc/config", None, "/");
    assert!(matches!(result, Err(DotError::NoHomeDir)));
}

#[test]
fn collapse_tilde_relative_path_uses_cwd() {
    let home = String::from("/home/u");
    let result = collapse_tilde_with_home("docs", Some(home), "/home/u").unwrap();
    assert_eq!(result, String::from("~/docs"));
}

#[test]
fn collapse_tilde_of_home_itself_is_bare_marker() {
    let home = String::from("/home/u");
    let result = collapse_tilde_with_home("/home/u", Some(home), "/").unwrap();
    assert_eq!(result, String::from("~"));
}

#[test]
fn collapse_tilde_sibling_user_is_not_collapsed() {
    let home = String::from("/home/user");
    let result = collapse_tilde_with_home("/home/user2/config", Some(home), "/").unwrap();
    assert_eq!(result, String::from("/home/user2/config"));
}

#[test]
fn lexical_absolute_resolves_parent() {
    let result = to_lexical_absolute("/foo/bar/../baz", "/");
    assert_eq!(result, String::from("/foo/baz"));
}

#[test]
fn lexical_absolute_resolves_current() {
    let result = to_lexical_absolute("/foo/./bar", "/");
    assert_eq!(result, String::from("/foo/bar"));
}

#[test]
fn lexical_absolute_resolves_parent_directories() {
    let result = to_lexical_absolute("/foo/../bar", "/");
    assert_eq!(result, String::from("/bar"));
}

#[test]
fn lexical_absolute_of_relative_path_starts_from_cwd() {
    let result = to_lexical_absolute("notes/./todo.txt", "/home/u");
    assert_eq!(result, String::from("/home/u/notes/todo.txt"));
}

#[test]
fn lexical_absolute_collapses_everything_to_root() {
    let result = to_lexical_absolute("/a/../..", "/");
    assert_eq!(result, String::from("/"));
}

#[test]
fn lexical_absolute_as_method_on_string() {
    let path = String::from("/x//y/../z");
    assert_eq!(path.to_lexical_absolute("/"), String::from("/x/z"));
}

#[test]
fn transform_to_tilde_converts_home_path() {
    let home = dirs::home_dir().expect("home dir");
    let home_str = home.to_str().expect("utf-8 home").to_string();
    let original = format!("{}/myfile", home_str);
    let tilde_path = collapse_tilde_with_home(&original, Some(home_str), "/").expect("to tilde");
    assert_eq!(tilde_path, String::from("~/myfile"));
}

#[test]
fn transform_from_tilde_expands_to_home() {
    let home = dirs::home_dir().expect("home dir");
    let home_str = home.to_str().expect("utf-8 home").to_string();
    let expanded = expand_tilde_with_home("~/myfile", Some(home_str.clone())).expect("from tilde");
    assert_eq!(expanded, format!("{}/myfile", home_str));
}

#[test]
fn portable_form_moves_between_homes() {
    let stored =
        collapse_tilde_with_home("/home/a/.vimrc", Some(String::from("/home/a")), "/").unwrap();
    assert_eq!(stored, String::from("~/.vimrc"));
    let moved = expand_tilde_with_home(&stored, Some(String::from("/home/b"))).unwrap();
    assert_eq!(moved, String::from("/home/b/.vimrc"));
}

#[test]
fn file_name_takes_the_final_component() {
    assert_eq!(file_name("/home/u/.bashrc"), Some(String::from(".bashrc")));
    assert_eq!(file_name("dir/leaf"), Some(String::from("leaf")));
    assert_eq!(file_name("dir/leaf/."), Some(String::from("leaf")));
}

#[test]
fn file_name_of_root_or_parent_is_none() {
    assert_eq!(file_name("/"), None);
    assert_eq!(file_name("a/.."), None);
    assert_eq!(file_name(""), None);
}
