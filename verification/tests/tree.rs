use rkd::tree::{check_trees, fsnode_source, Source, TreeError};

fn failure(l: &str, r: &str, exists_l: bool, exists_r: bool) -> (Vec<String>, i32) {
    match check_trees(l, r, exists_l, exists_r) {
        Err(TreeError { messages, code }) => (messages, code),
        Ok(()) => panic!("{l} {r}"),
    }
}

#[test]
fn existing_trees_are_accepted() {
    assert!(check_trees("a", "b", true, true).is_ok());
    assert!(check_trees("-", "b", false, true).is_ok());
    assert!(check_trees("a", "-", true, false).is_ok());
}

#[test]
fn missing_trees_are_told_and_coded() {
    let left = "\u{1b}[91m[ERROR]: Left tree 'a' not found\u{1b}[39m".to_string();
    let right = "\u{1b}[91m[ERROR]: Right tree 'b' not found\u{1b}[39m".to_string();
    assert_eq!(failure("a", "b", false, true), (vec![left.clone()], 1));
    assert_eq!(failure("a", "b", true, false), (vec![right.clone()], 2));
    assert_eq!(failure("a", "b", false, false), (vec![left.clone(), right.clone()], 3));
    assert_eq!(failure("a", "-", false, false), (vec![left], 1));
    assert_eq!(failure("-", "b", false, false), (vec![right], 2));
}

#[test]
fn stdin_is_not_compared_with_itself() {
    let message = "\u{1b}[91m[ERROR]: cannot compare stdin with itself\u{1b}[39m".to_string();
    assert_eq!(failure("-", "-", true, true), (vec![message], 3));
}

#[test]
fn sources_of_logs_are_told_apart() {
    assert!(matches!(fsnode_source("-", true), Source::Stdin));
    assert!(matches!(fsnode_source("x", false), Source::File));
    match fsnode_source("a dir", true) {
        Source::Command(words) => assert_eq!(words, vec!["sudo", "rk", "-rQe", "a dir"]),
        other => panic!("{other:?}"),
    }
}
