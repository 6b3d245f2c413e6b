use projects_fs::names::NameTable;
use projects_fs::node::FileKind;
use projects_fs::renaming::RenamingRule;
use projects_fs::error::ConfigError;

fn strings(items: &[&str]) -> Vec<String> {
    items.iter().map(|s| s.to_string()).collect()
}

#[test]
fn empty_table_has_no_name() {
    let table = NameTable::new();
    assert_eq!(table.len(), 0);
    assert_eq!(table.get("a"), None);
    assert_eq!(table.position("a"), None);
    assert!(table.list(0, FileKind::Symlink).is_empty());
}

#[test]
fn inserted_names_are_found_in_order() {
    let mut table = NameTable::new();
    table.insert("one".to_string(), 1);
    table.insert("two".to_string(), 2);
    assert_eq!(table.len(), 2);
    assert_eq!(table.get("one"), Some(1));
    assert_eq!(table.get("two"), Some(2));
    assert_eq!(table.get("on"), None);
    assert_eq!(table.get("one "), None);
    assert_eq!(table.position("two"), Some(1));
}

#[test]
fn inserting_a_name_again_rewrites_its_line() {
    let mut table = NameTable::new();
    table.insert("one".to_string(), 1);
    table.insert("two".to_string(), 2);
    table.insert("one".to_string(), 3);
    assert_eq!(table.len(), 2);
    assert_eq!(table.get("one"), Some(3));
    assert_eq!(table.position("one"), Some(0));
    assert_eq!(table.get("two"), Some(2));
}

#[test]
fn table_lists_from_an_offset() {
    let mut table = NameTable::new();
    table.insert("one".to_string(), 1);
    table.insert("two".to_string(), 2);
    table.insert("three".to_string(), 3);
    let all = table.list(0, FileKind::Directory);
    assert_eq!(all.len(), 3);
    assert_eq!((all[0].ino, all[0].offset, all[0].name.as_str()), (1, 1, "one"));
    assert_eq!((all[2].ino, all[2].offset, all[2].name.as_str()), (3, 3, "three"));
    assert_eq!(all[1].kind, FileKind::Directory);
    let rest = table.list(2, FileKind::Symlink);
    assert_eq!(rest.len(), 1);
    assert_eq!((rest[0].ino, rest[0].offset, rest[0].name.as_str()), (3, 3, "three"));
    assert_eq!(rest[0].kind, FileKind::Symlink);
    assert!(table.list(3, FileKind::Symlink).is_empty());
    assert!(table.list(4, FileKind::Symlink).is_empty());
    assert!(table.list(usize::MAX, FileKind::Symlink).is_empty());
}

#[test]
fn table_admits_only_new_and_different_names() {
    let mut table = NameTable::new();
    table.insert("taken".to_string(), 1);
    assert!(table.admits("a", &strings(&["b", "c"])));
    assert!(table.admits("a", &vec![]));
    assert!(!table.admits("taken", &vec![]));
    assert!(!table.admits("a", &strings(&["b", "taken"])));
    assert!(!table.admits("a", &strings(&["a"])));
    assert!(!table.admits("a", &strings(&["b", "c", "b"])));
    assert!(!table.admits("a", &strings(&["b", "b"])));
}

#[test]
fn rule_that_does_not_compile_is_refused() {
    assert_eq!(RenamingRule::new("foo(bar".to_string()).err(), Some(ConfigError::InvalidRenaming));
    assert_eq!(RenamingRule::new("[".to_string()).err(), Some(ConfigError::InvalidRenaming));
}

#[test]
fn rule_keeps_its_pattern() {
    let rule = RenamingRule::new(r"^(.*)-\d+$".to_string()).ok().unwrap();
    assert_eq!(rule.pattern(), r"^(.*)-\d+$");
}

#[test]
fn rule_renames_by_its_capture_group() {
    let rule = RenamingRule::new(r"^(.*)-\d+$".to_string()).ok().unwrap();
    assert_eq!(rule.rename("foo-1"), Some("foo".to_string()));
    assert_eq!(rule.rename("bar-22"), Some("bar".to_string()));
    assert_eq!(rule.rename("a-b-3"), Some("a-b".to_string()));
    assert_eq!(rule.rename("foo"), None);
    assert_eq!(rule.rename("foo-"), None);
}

#[test]
fn rule_designates_its_last_group() {
    let rule = RenamingRule::new(r"^(\w+)\.(\w+)$".to_string()).ok().unwrap();
    assert_eq!(rule.rename("left.right"), Some("right".to_string()));
}

#[test]
fn rule_without_group_exposes_the_whole_match() {
    let rule = RenamingRule::new(r"[a-z]+".to_string()).ok().unwrap();
    assert_eq!(rule.rename("12abc34"), Some("abc".to_string()));
    assert_eq!(rule.rename("1234"), None);
}

#[test]
fn group_that_took_no_part_exposes_nothing() {
    let rule = RenamingRule::new(r"^(?:(a+)|(b+))$".to_string()).ok().unwrap();
    assert_eq!(rule.rename("bbb"), Some("bbb".to_string()));
    assert_eq!(rule.rename("aaa"), None);
}

#[test]
fn rule_with_a_chosen_group() {
    let first = RenamingRule::with_group(r"^(\w+)\.(\w+)$".to_string(), 1);
    assert_eq!(first.rename("left.right"), Some("left".to_string()));
    let whole = RenamingRule::with_group(r"^(\w+)\.(\w+)$".to_string(), 0);
    assert_eq!(whole.rename("left.right"), Some("left.right".to_string()));
    let none = RenamingRule::with_group(r"^(\w+)\.(\w+)$".to_string(), 3);
    assert_eq!(none.rename("left.right"), None);
    let broken = RenamingRule::with_group("(".to_string(), 0);
    assert_eq!(broken.rename("anything"), None);
}
