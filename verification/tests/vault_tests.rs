use mpass::domain::Record;
use mpass::vault::{find, insert, is_taken, list_names, remove_named};

fn credentials(domain: &str, username: &str, password: &str) -> Record {
    Record::Credentials {
        domain: domain.to_string(),
        username: username.to_string(),
        password: password.to_string(),
    }
}

fn command(name: &str, command_line: &str) -> Record {
    Record::Command { name: name.to_string(), command_line: command_line.to_string() }
}

#[test]
fn insert_appends_where_the_slot_is_free() {
    let mut v = vec![credentials("a", "u", "p")];
    assert!(insert(&mut v, credentials("b", "u", "p")));
    assert_eq!(v, vec![credentials("a", "u", "p"), credentials("b", "u", "p")]);
}

#[test]
fn insert_refuses_a_taken_slot() {
    let mut v = vec![credentials("a", "u", "p"), command("c", "ls")];
    assert!(!insert(&mut v, credentials("a", "other", "other")));
    assert!(!insert(&mut v, command("c", "pwd")));
    assert_eq!(v, vec![credentials("a", "u", "p"), command("c", "ls")]);
}

#[test]
fn a_name_may_be_used_once_in_each_kind() {
    let mut v = Vec::new();
    assert!(insert(&mut v, credentials("same", "u", "p")));
    assert!(!is_taken(&v, &command("same", "ls")));
    assert!(insert(&mut v, command("same", "ls")));
    assert!(is_taken(&v, &command("same", "pwd")));
    assert!(is_taken(&v, &credentials("same", "", "")));
    assert_eq!(v.len(), 2);
}

#[test]
fn what_was_inserted_is_found() {
    let mut v = vec![command("x", "ls")];
    let added = credentials("example.com", "alice", "p1");
    assert!(insert(&mut v, added.clone()));
    assert_eq!(find(&v, true, &"example.com".to_string()), Some(added));
}

#[test]
fn find_keeps_to_the_kind_asked_for() {
    let v = vec![credentials("same", "u", "p"), command("same", "ls")];
    assert_eq!(find(&v, true, &"same".to_string()), Some(credentials("same", "u", "p")));
    assert_eq!(find(&v, false, &"same".to_string()), Some(command("same", "ls")));
    assert_eq!(find(&v, false, &"other".to_string()), None);
    assert_eq!(find(&Vec::new(), true, &"same".to_string()), None);
}

#[test]
fn the_last_of_several_matches_wins() {
    let v = vec![
        credentials("d", "first", "1"),
        command("d", "ls"),
        credentials("d", "second", "2"),
        credentials("e", "third", "3"),
    ];
    assert_eq!(find(&v, true, &"d".to_string()), Some(credentials("d", "second", "2")));
}

#[test]
fn remove_takes_out_both_kinds() {
    let mut v = vec![
        credentials("n", "u", "p"),
        command("keep", "ls"),
        command("n", "pwd"),
        credentials("stay", "u", "p"),
    ];
    assert!(remove_named(&mut v, &"n".to_string()));
    assert_eq!(v, vec![command("keep", "ls"), credentials("stay", "u", "p")]);
}

#[test]
fn remove_of_an_absent_name_changes_nothing() {
    let mut v = vec![credentials("a", "u", "p"), command("b", "ls")];
    assert!(!remove_named(&mut v, &"c".to_string()));
    assert_eq!(v, vec![credentials("a", "u", "p"), command("b", "ls")]);
    let mut empty: Vec<Record> = Vec::new();
    assert!(!remove_named(&mut empty, &"c".to_string()));
    assert!(empty.is_empty());
}

#[test]
fn listings_follow_the_order_of_the_vault() {
    let v = vec![
        credentials("z.org", "u", "p"),
        command("build", "make"),
        credentials("a.org", "u", "p"),
        command("apply", "patch"),
        credentials("m.org", "u", "p"),
    ];
    assert_eq!(list_names(&v, true), vec!["z.org", "a.org", "m.org"]);
    assert_eq!(list_names(&v, false), vec!["build", "apply"]);
    assert_eq!(list_names(&Vec::new(), true), Vec::<String>::new());
}
