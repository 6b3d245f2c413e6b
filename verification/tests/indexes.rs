use projects_fs::error::ConfigError;
use projects_fs::groups;
use projects_fs::groups::{GroupLookup, Groups};
use projects_fs::ids::ROOT_INO;
use projects_fs::names::NameTable;
use projects_fs::node::{Attr, FileKind};
use projects_fs::projects;
use projects_fs::projects::Projects;

fn strings(items: &[&str]) -> Vec<String> {
    items.iter().map(|s| s.to_string()).collect()
}

fn two_projects() -> Projects {
    let mut index = Projects::new();
    let alpha = index.add_project(
        "alpha".to_string(),
        "/src/alpha".to_string(),
        &vec![],
        &strings(&["a", "al"]),
    );
    assert_eq!(alpha, Ok(projects::INO + 1));
    let beta = index.add_project("beta".to_string(), "/src/beta".to_string(), &vec![], &vec![]);
    assert_eq!(beta, Ok(projects::INO + 2));
    index
}

#[test]
fn name_and_aliases_resolve_to_one_project() {
    let index = two_projects();
    let id = index.lookup_by_name("alpha").unwrap();
    assert_eq!(id, projects::INO + 1);
    assert_eq!(index.lookup_by_name("a"), Some(id));
    assert_eq!(index.lookup_by_name("al"), Some(id));
    assert_eq!(index.readlink(id), Some("/src/alpha".to_string()));
    assert_eq!(index.lookup(projects::INO, "a"), Some(Attr::symlink(id)));
    assert_eq!(index.lookup(projects::INO, "alpha"), Some(Attr::symlink(id)));
    assert_eq!(index.lookup_by_name("beta"), Some(projects::INO + 2));
    assert_eq!(index.lookup_by_name("gamma"), None);
}

#[test]
fn project_attributes() {
    let index = two_projects();
    assert_eq!(index.getattr(projects::INO), Some(Attr::directory(projects::INO, 4)));
    assert_eq!(index.getattr(projects::INO + 1), Some(Attr::symlink(projects::INO + 1)));
    assert_eq!(index.getattr(projects::INO + 2), Some(Attr::symlink(projects::INO + 2)));
    assert_eq!(index.getattr(projects::INO + 3), None);
    assert_eq!(index.getattr(ROOT_INO), None);
}

#[test]
fn getattr_is_idempotent() {
    let index = two_projects();
    let first = index.getattr(projects::INO + 1);
    let second = index.getattr(projects::INO + 1);
    assert_eq!(first, second);
    assert_eq!(index.getattr(projects::INO), index.getattr(projects::INO));
}

#[test]
fn project_lookup_by_parent() {
    let index = two_projects();
    assert_eq!(index.lookup(ROOT_INO, "by-name"), Some(Attr::directory(projects::INO, 4)));
    assert_eq!(index.lookup(projects::INO, "nothing"), None);
    assert_eq!(index.lookup(projects::INO + 1, "alpha"), None);
    assert_eq!(index.lookup(17, "alpha"), None);
}

#[test]
fn project_listing() {
    let index = two_projects();
    let lines = index.readdir(projects::INO, 0).unwrap();
    let shown: Vec<(u64, usize, &str)> =
        lines.iter().map(|l| (l.ino, l.offset, l.name.as_str())).collect();
    assert_eq!(
        shown,
        vec![
            (projects::INO + 1, 1, "alpha"),
            (projects::INO + 1, 2, "a"),
            (projects::INO + 1, 3, "al"),
            (projects::INO + 2, 4, "beta"),
        ]
    );
    assert!(lines.iter().all(|l| l.kind == FileKind::Symlink));
    assert_eq!(index.readdir(projects::INO, 4).unwrap().len(), 0);
    assert_eq!(index.readdir(projects::INO, 9).unwrap().len(), 0);
    assert!(index.readdir(projects::INO + 1, 0).is_none());
}

#[test]
fn project_readlink_of_what_is_no_project() {
    let index = two_projects();
    assert_eq!(index.readlink(projects::INO), None);
    assert_eq!(index.readlink(projects::INO + 3), None);
    assert_eq!(index.readlink(0), None);
    assert_eq!(index.readlink(projects::INO + 2), Some("/src/beta".to_string()));
}

#[test]
fn duplicate_project_is_refused_and_changes_nothing() {
    let mut index = two_projects();
    let again = index.add_project("alpha".to_string(), "/x".to_string(), &vec![], &vec![]);
    assert_eq!(again, Err(ConfigError::DuplicateProject));
    let alias = index.add_project("gamma".to_string(), "/x".to_string(), &vec![], &strings(&["a"]));
    assert_eq!(alias, Err(ConfigError::DuplicateProject));
    let own = index.add_project("gamma".to_string(), "/x".to_string(), &vec![], &strings(&["gamma"]));
    assert_eq!(own, Err(ConfigError::DuplicateProject));
    let twice =
        index.add_project("gamma".to_string(), "/x".to_string(), &vec![], &strings(&["g", "g"]));
    assert_eq!(twice, Err(ConfigError::DuplicateProject));
    assert_eq!(index.lookup_by_name("gamma"), None);
    assert_eq!(index.lookup_by_name("g"), None);
    assert_eq!(index.readdir(projects::INO, 0).unwrap().len(), 4);
    let next = index.add_project("gamma".to_string(), "/x".to_string(), &vec![], &vec![]);
    assert_eq!(next, Ok(projects::INO + 3));
}

#[test]
fn alias_added_later_resolves_too() {
    let mut index = two_projects();
    assert_eq!(index.add_alias("b".to_string(), projects::INO + 2), Ok(()));
    assert_eq!(index.lookup_by_name("b"), Some(projects::INO + 2));
    assert_eq!(index.getattr(projects::INO), Some(Attr::directory(projects::INO, 5)));
    assert_eq!(
        index.add_alias("b".to_string(), projects::INO + 1),
        Err(ConfigError::DuplicateProject)
    );
    assert_eq!(
        index.add_alias("c".to_string(), projects::INO + 3),
        Err(ConfigError::UnknownProject)
    );
    assert_eq!(index.add_alias("c".to_string(), projects::INO), Err(ConfigError::UnknownProject));
    assert_eq!(index.lookup_by_name("c"), None);
}

#[test]
fn groups_are_added_and_found() {
    let mut index = Groups::new();
    assert_eq!(index.add_group("backend".to_string(), NameTable::new()), Ok(groups::INO + 1));
    assert_eq!(index.add_group("frontend".to_string(), NameTable::new()), Ok(groups::INO + 2));
    assert_eq!(index.handle("backend"), Some(groups::INO + 1));
    assert_eq!(index.handle("nothing"), None);
    assert!(index.has_group(groups::INO + 2));
    assert!(!index.has_group(groups::INO + 3));
    assert!(!index.has_group(groups::INO));
    assert_eq!(index.getattr(groups::INO), Some(Attr::directory(groups::INO, 2)));
    assert_eq!(index.getattr(groups::INO + 1), Some(Attr::directory(groups::INO + 1, 0)));
    assert_eq!(index.getattr(groups::INO + 3), None);
}

#[test]
fn duplicate_group_is_refused() {
    let mut index = Groups::new();
    assert_eq!(index.add_group("backend".to_string(), NameTable::new()), Ok(groups::INO + 1));
    assert_eq!(
        index.add_group("backend".to_string(), NameTable::new()),
        Err(ConfigError::DuplicateGroup)
    );
    assert_eq!(index.readdir(groups::INO, 0).unwrap().len(), 1);
    assert_eq!(index.add_group("other".to_string(), NameTable::new()), Ok(groups::INO + 2));
}

#[test]
fn group_starts_with_the_members_given() {
    let mut members = NameTable::new();
    members.insert("alpha".to_string(), projects::INO + 1);
    let mut index = Groups::new();
    let id = index.add_group("backend".to_string(), members).unwrap();
    assert_eq!(
        index.lookup(id, "alpha"),
        GroupLookup::Found(Attr::symlink(projects::INO + 1))
    );
    assert_eq!(index.getattr(id), Some(Attr::directory(id, 1)));
}

#[test]
fn members_are_listed_under_the_projects_identifier() {
    let mut index = Groups::new();
    let id = index.add_group("backend".to_string(), NameTable::new()).unwrap();
    {
        let group = index.get_group(id).unwrap();
        group.add_project("alpha".to_string(), projects::INO + 1);
        group.add_alias("a".to_string(), projects::INO + 1);
        group.add_project("beta".to_string(), projects::INO + 2);
    }
    assert!(index.get_group(id + 1).is_none());
    assert!(index.get_group(groups::INO).is_none());
    assert_eq!(index.lookup(id, "alpha"), GroupLookup::Found(Attr::symlink(projects::INO + 1)));
    assert_eq!(index.lookup(id, "a"), GroupLookup::Found(Attr::symlink(projects::INO + 1)));
    assert_eq!(index.lookup(id, "gamma"), GroupLookup::Fallback);
    assert_eq!(index.lookup(id + 1, "alpha"), GroupLookup::NotFound);
    assert_eq!(index.getattr(id), Some(Attr::directory(id, 3)));
    let lines = index.readdir(id, 1).unwrap();
    let shown: Vec<(u64, usize, &str)> =
        lines.iter().map(|l| (l.ino, l.offset, l.name.as_str())).collect();
    assert_eq!(shown, vec![(projects::INO + 1, 2, "a"), (projects::INO + 2, 3, "beta")]);
    assert!(lines.iter().all(|l| l.kind == FileKind::Symlink));
}

#[test]
fn member_listed_twice_is_listed_once() {
    let mut index = Groups::new();
    let id = index.add_group("backend".to_string(), NameTable::new()).unwrap();
    {
        let group = index.get_group(id).unwrap();
        group.enroll("alpha", &strings(&["a"]), projects::INO + 1);
        group.enroll("alpha", &strings(&["a"]), projects::INO + 1);
    }
    assert_eq!(index.readdir(id, 0).unwrap().len(), 2);
}

#[test]
fn group_lookup_by_parent() {
    let mut index = Groups::new();
    let id = index.add_group("backend".to_string(), NameTable::new()).unwrap();
    assert_eq!(
        index.lookup(ROOT_INO, "by-group"),
        GroupLookup::Found(Attr::directory(groups::INO, 1))
    );
    assert_eq!(index.lookup(groups::INO, "backend"), GroupLookup::Found(Attr::directory(id, 0)));
    assert_eq!(index.lookup(groups::INO, "frontend"), GroupLookup::NotFound);
    assert_eq!(index.lookup(5, "backend"), GroupLookup::NotFound);
}

#[test]
fn group_listing() {
    let mut index = Groups::new();
    index.add_group("backend".to_string(), NameTable::new()).unwrap();
    index.add_group("frontend".to_string(), NameTable::new()).unwrap();
    let lines = index.readdir(groups::INO, 0).unwrap();
    let shown: Vec<(u64, usize, &str)> =
        lines.iter().map(|l| (l.ino, l.offset, l.name.as_str())).collect();
    assert_eq!(shown, vec![(groups::INO + 1, 1, "backend"), (groups::INO + 2, 2, "frontend")]);
    assert!(lines.iter().all(|l| l.kind == FileKind::Directory));
    assert!(index.readdir(groups::INO + 3, 0).is_none());
    assert!(index.readdir(groups::INO + 1, 0).unwrap().is_empty());
}
