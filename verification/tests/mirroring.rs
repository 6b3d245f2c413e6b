use projects_fs::error::ConfigError;
use projects_fs::ids::{ENTRIES_BASE, ROOT_INO};
use projects_fs::mirrors;
use projects_fs::mirrors::{join, scan, Mirrors, ScanAction, ScanEvent, WINDOW};
use projects_fs::node::{Attr, FileKind};
use projects_fs::renaming::RenamingRule;

fn strings(items: &[&str]) -> Vec<String> {
    items.iter().map(|s| s.to_string()).collect()
}

fn pairs(items: &[(&str, &str)]) -> Vec<(String, String)> {
    items.iter().map(|(a, b)| (a.to_string(), b.to_string())).collect()
}

fn suffix_rule() -> RenamingRule {
    RenamingRule::new(r"^(.*)-\d+$".to_string()).ok().unwrap()
}

fn one_mirror() -> (Mirrors, u64) {
    let mut index = Mirrors::new();
    let id = index
        .add_mirror("vendor".to_string(), "/backing".to_string(), suffix_rule(), &strings(&["v"]))
        .unwrap();
    (index, id)
}

fn shown(index: &Mirrors, ino: u64) -> Vec<(u64, String)> {
    index.readdir(ino, 0).unwrap().into_iter().map(|l| (l.ino, l.name)).collect()
}

#[test]
fn paths_are_joined_with_one_separator() {
    assert_eq!(join("/backing", "foo-1"), "/backing/foo-1");
    assert_eq!(join("/backing/", "foo-1"), "/backing/foo-1");
    assert_eq!(join("/", "foo"), "/foo");
    assert_eq!(join("rel/dir", "x"), "rel/dir/x");
    assert_eq!(join("", "x"), "/x");
}

#[test]
fn scan_renames_and_leaves_out_what_does_not_match() {
    let found = scan(&suffix_rule(), "/backing", &strings(&["foo-1", "plain", "bar-2"]));
    assert_eq!(found, pairs(&[("foo", "/backing/foo-1"), ("bar", "/backing/bar-2")]));
    assert!(scan(&suffix_rule(), "/backing", &vec![]).is_empty());
}

#[test]
fn mirror_is_added_under_name_and_aliases() {
    let (index, id) = one_mirror();
    assert_eq!(id, mirrors::INO + 1);
    assert_eq!(index.lookup(mirrors::INO, "vendor"), Some(Attr::directory(id, 0)));
    assert_eq!(index.lookup(mirrors::INO, "v"), Some(Attr::directory(id, 0)));
    assert_eq!(index.lookup(mirrors::INO, "w"), None);
    assert_eq!(index.lookup(ROOT_INO, "mirrors"), Some(Attr::directory(mirrors::INO, 2)));
    assert_eq!(index.getattr(mirrors::INO), Some(Attr::directory(mirrors::INO, 2)));
    assert_eq!(index.getattr(id), Some(Attr::directory(id, 0)));
    assert_eq!(index.getattr(id + 1), None);
    assert_eq!(index.base(id), Some("/backing"));
    assert_eq!(index.base(id + 1), None);
    assert_eq!(index.base(mirrors::INO), None);
    let lines = index.readdir(mirrors::INO, 0).unwrap();
    let names: Vec<(u64, usize, &str)> =
        lines.iter().map(|l| (l.ino, l.offset, l.name.as_str())).collect();
    assert_eq!(names, vec![(id, 1, "vendor"), (id, 2, "v")]);
    assert!(lines.iter().all(|l| l.kind == FileKind::Directory));
}

#[test]
fn duplicate_mirror_is_refused() {
    let (mut index, id) = one_mirror();
    let again = index.add_mirror("vendor".to_string(), "/x".to_string(), suffix_rule(), &vec![]);
    assert_eq!(again, Err(ConfigError::DuplicateMirror));
    let alias = index.add_mirror("other".to_string(), "/x".to_string(), suffix_rule(), &strings(&["v"]));
    assert_eq!(alias, Err(ConfigError::DuplicateMirror));
    assert_eq!(index.lookup(mirrors::INO, "other"), None);
    let next = index.add_mirror("other".to_string(), "/x".to_string(), suffix_rule(), &vec![]);
    assert_eq!(next, Ok(id + 1));
}

#[test]
fn reconciliation_exposes_what_was_found() {
    let (mut index, id) = one_mirror();
    let found = pairs(&[("foo", "/backing/foo-1"), ("bar", "/backing/bar-2")]);
    assert!(index.reconcile(id, 10, 7, &found));
    assert_eq!(
        shown(&index, id),
        vec![(ENTRIES_BASE + 1, "foo".to_string()), (ENTRIES_BASE + 2, "bar".to_string())]
    );
    assert_eq!(index.readlink(ENTRIES_BASE + 1), Some("/backing/foo-1".to_string()));
    assert_eq!(index.readlink(ENTRIES_BASE + 2), Some("/backing/bar-2".to_string()));
    assert_eq!(index.lookup(id, "foo"), Some(Attr::symlink(ENTRIES_BASE + 1)));
    assert_eq!(index.lookup(id, "baz"), None);
    assert_eq!(index.getattr(id), Some(Attr::directory(id, 2)));
    assert_eq!(index.getattr(ENTRIES_BASE + 1), Some(Attr::symlink(ENTRIES_BASE + 1)));
    assert_eq!(index.getattr(ENTRIES_BASE + 3), None);
    let lines = index.readdir(id, 0).unwrap();
    assert!(lines.iter().all(|l| l.kind == FileKind::Symlink));
    assert_eq!(lines[0].offset, 1);
    assert_eq!(lines[1].offset, 2);
}

#[test]
fn reconciliation_of_what_is_no_mirror_changes_nothing() {
    let (mut index, id) = one_mirror();
    assert!(!index.reconcile(id + 1, 10, 7, &pairs(&[("foo", "/x")])));
    assert!(!index.reconcile(mirrors::INO, 10, 7, &pairs(&[("foo", "/x")])));
    assert!(shown(&index, id).is_empty());
    assert!(index.reconcile(id, 10, 7, &pairs(&[("foo", "/x")])));
    assert_eq!(shown(&index, id), vec![(ENTRIES_BASE + 1, "foo".to_string())]);
}

#[test]
fn later_subdirectory_wins_an_exposed_name() {
    let (mut index, id) = one_mirror();
    let found =
        pairs(&[("foo", "/backing/foo-1"), ("bar", "/backing/bar-2"), ("foo", "/backing/foo-9")]);
    assert!(index.reconcile(id, 10, 7, &found));
    assert_eq!(
        shown(&index, id),
        vec![(ENTRIES_BASE + 1, "foo".to_string()), (ENTRIES_BASE + 2, "bar".to_string())]
    );
    assert_eq!(index.readlink(ENTRIES_BASE + 1), Some("/backing/foo-9".to_string()));
}

#[test]
fn unchanged_names_keep_their_identifiers() {
    let (mut index, id) = one_mirror();
    assert!(index.reconcile(id, 10, 7, &pairs(&[("foo", "/backing/foo-1"), ("bar", "/backing/bar-2")])));
    let found = pairs(&[("new", "/backing/new-1"), ("bar", "/backing/bar-3"), ("foo", "/backing/foo-1")]);
    assert!(index.reconcile(id, 20, 8, &found));
    assert_eq!(index.lookup(id, "foo"), Some(Attr::symlink(ENTRIES_BASE + 1)));
    assert_eq!(index.lookup(id, "bar"), Some(Attr::symlink(ENTRIES_BASE + 2)));
    assert_eq!(index.lookup(id, "new"), Some(Attr::symlink(ENTRIES_BASE + 3)));
    assert_eq!(index.readlink(ENTRIES_BASE + 2), Some("/backing/bar-3".to_string()));
    assert_eq!(index.readlink(ENTRIES_BASE + 1), Some("/backing/foo-1".to_string()));
}

#[test]
fn retired_identifier_is_not_handed_out_again() {
    let (mut index, id) = one_mirror();
    assert!(index.reconcile(id, 10, 7, &pairs(&[("foo", "/backing/foo-1"), ("bar", "/backing/bar-2")])));
    let foo = index.lookup(id, "foo").unwrap().ino;
    let bar = index.lookup(id, "bar").unwrap().ino;
    assert!(index.reconcile(id, 20, 8, &pairs(&[("bar", "/backing/bar-2")])));
    assert_eq!(index.readlink(foo), None);
    assert_eq!(index.getattr(foo), None);
    assert_eq!(index.lookup(id, "foo"), None);
    assert_eq!(index.readlink(bar), Some("/backing/bar-2".to_string()));
    assert!(index.reconcile(id, 30, 9, &pairs(&[("bar", "/backing/bar-2"), ("foo", "/backing/foo-3")])));
    let again = index.lookup(id, "foo").unwrap().ino;
    assert_ne!(again, foo);
    assert_ne!(again, bar);
    assert_eq!(again, ENTRIES_BASE + 3);
    assert_eq!(index.readlink(again), Some("/backing/foo-3".to_string()));
    assert_eq!(index.readlink(foo), None);
    assert_eq!(index.lookup(id, "bar").unwrap().ino, bar);
}

#[test]
fn mirrors_share_one_counter_for_their_entries() {
    let (mut index, first) = one_mirror();
    let second =
        index.add_mirror("other".to_string(), "/other".to_string(), suffix_rule(), &vec![]).unwrap();
    assert!(index.reconcile(first, 10, 7, &pairs(&[("foo", "/backing/foo-1")])));
    assert!(index.reconcile(second, 10, 7, &pairs(&[("foo", "/other/foo-1")])));
    let a = index.lookup(first, "foo").unwrap().ino;
    let b = index.lookup(second, "foo").unwrap().ino;
    assert_eq!((a, b), (ENTRIES_BASE + 1, ENTRIES_BASE + 2));
    assert_eq!(index.readlink(a), Some("/backing/foo-1".to_string()));
    assert_eq!(index.readlink(b), Some("/other/foo-1".to_string()));
    assert!(index.reconcile(first, 20, 8, &vec![]));
    assert_eq!(index.readlink(a), None);
    assert_eq!(index.readlink(b), Some("/other/foo-1".to_string()));
}

#[test]
fn scan_begins_only_at_offset_zero_of_a_stale_mirror() {
    let (mut index, id) = one_mirror();
    assert_eq!(index.scan_step(id, 50, ScanEvent::Begin { offset: 1 }), ScanAction::Serve);
    assert_eq!(index.scan_step(id + 1, 50, ScanEvent::Begin { offset: 0 }), ScanAction::Serve);
    assert_eq!(index.scan_step(mirrors::INO, 50, ScanEvent::Begin { offset: 0 }), ScanAction::Serve);
    assert_eq!(index.scan_step(id, 50, ScanEvent::Begin { offset: 0 }), ScanAction::ReadModified);
}

#[test]
fn mirror_is_fresh_for_the_window() {
    let (mut index, id) = one_mirror();
    let at = 1_000_000_000_000u128;
    assert_eq!(WINDOW, 1_000_000_000);
    assert!(index.reconcile(id, at, 7, &pairs(&[("foo", "/backing/foo-1")])));
    assert_eq!(index.scan_step(id, at, ScanEvent::Begin { offset: 0 }), ScanAction::Serve);
    assert_eq!(index.scan_step(id, at + WINDOW, ScanEvent::Begin { offset: 0 }), ScanAction::Serve);
    assert_eq!(
        index.scan_step(id, at + WINDOW + 1, ScanEvent::Begin { offset: 0 }),
        ScanAction::ReadModified
    );
    assert_eq!(index.scan_step(id, at - 1, ScanEvent::Begin { offset: 0 }), ScanAction::ReadModified);
    assert_eq!(index.scan_step(id, at + WINDOW + 1, ScanEvent::Begin { offset: 1 }), ScanAction::Serve);
}

#[test]
fn unchanged_modification_time_ends_the_scan() {
    let (mut index, id) = one_mirror();
    assert!(index.reconcile(id, 10, 7, &pairs(&[("foo", "/backing/foo-1"), ("bar", "/backing/bar-2")])));
    let before = shown(&index, id);
    let late = 10 + WINDOW + 1;
    assert_eq!(index.scan_step(id, late, ScanEvent::Begin { offset: 0 }), ScanAction::ReadModified);
    assert_eq!(index.scan_step(id, late, ScanEvent::Stat { time: Some(7) }), ScanAction::Serve);
    assert_eq!(shown(&index, id), before);
    assert_eq!(index.readlink(ENTRIES_BASE + 1), Some("/backing/foo-1".to_string()));
    assert_eq!(index.scan_step(id, late, ScanEvent::Begin { offset: 0 }), ScanAction::Serve);
    assert_eq!(index.scan_step(id, late, ScanEvent::Stat { time: Some(8) }), ScanAction::ListDirectory);
}

#[test]
fn first_scan_always_lists() {
    let (mut index, id) = one_mirror();
    assert_eq!(index.scan_step(id, 0, ScanEvent::Begin { offset: 0 }), ScanAction::ReadModified);
    assert_eq!(index.scan_step(id, 0, ScanEvent::Stat { time: Some(0) }), ScanAction::ListDirectory);
}

#[test]
fn failed_scan_keeps_the_entries_and_waits_for_the_window() {
    let (mut index, id) = one_mirror();
    assert!(index.reconcile(id, 10, 7, &pairs(&[("foo", "/backing/foo-1")])));
    let before = shown(&index, id);
    let late = 10 + WINDOW + 1;
    assert_eq!(index.scan_step(id, late, ScanEvent::Stat { time: None }), ScanAction::Serve);
    assert_eq!(shown(&index, id), before);
    assert_eq!(index.scan_step(id, late + 1, ScanEvent::Begin { offset: 0 }), ScanAction::Serve);
    let later = late + WINDOW + 1;
    assert_eq!(index.scan_step(id, later, ScanEvent::Begin { offset: 0 }), ScanAction::ReadModified);
    assert_eq!(
        index.scan_step(id, later, ScanEvent::Listed { modified: 8, names: None }),
        ScanAction::Serve
    );
    assert_eq!(shown(&index, id), before);
    assert_eq!(index.scan_step(id, later + 1, ScanEvent::Begin { offset: 0 }), ScanAction::Serve);
    assert_eq!(
        index.scan_step(id, later + WINDOW + 1, ScanEvent::Stat { time: Some(7) }),
        ScanAction::Serve
    );
}

#[test]
fn listing_is_renamed_and_taken_over() {
    let (mut index, id) = one_mirror();
    let names = strings(&["foo-1", "bar-2", "README", "foo-3"]);
    assert_eq!(
        index.scan_step(id, 10, ScanEvent::Listed { modified: 7, names: Some(names) }),
        ScanAction::Serve
    );
    assert_eq!(
        shown(&index, id),
        vec![(ENTRIES_BASE + 1, "foo".to_string()), (ENTRIES_BASE + 2, "bar".to_string())]
    );
    assert_eq!(index.readlink(ENTRIES_BASE + 1), Some("/backing/foo-3".to_string()));
    assert_eq!(index.readlink(ENTRIES_BASE + 2), Some("/backing/bar-2".to_string()));
    assert_eq!(index.scan_step(id, 11, ScanEvent::Begin { offset: 0 }), ScanAction::Serve);
    assert_eq!(
        index.scan_step(id, 10 + WINDOW + 1, ScanEvent::Stat { time: Some(7) }),
        ScanAction::Serve
    );
}

#[test]
fn mirror_listing_resumes_at_an_offset() {
    let (mut index, id) = one_mirror();
    let found = pairs(&[("a", "/backing/a-1"), ("b", "/backing/b-1"), ("c", "/backing/c-1")]);
    assert!(index.reconcile(id, 10, 7, &found));
    let all = shown(&index, id);
    let first = index.readdir(id, 0).unwrap();
    let rest = index.readdir(id, first[0].offset).unwrap();
    let mut joined = vec![(first[0].ino, first[0].name.clone())];
    joined.extend(rest.into_iter().map(|l| (l.ino, l.name)));
    assert_eq!(joined, all);
    assert!(index.readdir(id, 3).unwrap().is_empty());
    assert!(index.readdir(id, 4).unwrap().is_empty());
    assert!(index.readdir(ENTRIES_BASE + 1, 0).is_none());
}
