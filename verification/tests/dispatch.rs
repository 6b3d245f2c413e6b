use projects_fs::config::{Config, Mirror, Project};
use projects_fs::error::ConfigError;
use projects_fs::filesystem::{FileSystem, ROOT_LINKS};
use projects_fs::groups;
use projects_fs::ids::{ENTRIES_BASE, ROOT_INO};
use projects_fs::mirrors;
use projects_fs::mirrors::{ScanAction, ScanEvent};
use projects_fs::node::{Attr, FileKind};
use projects_fs::projects;
use projects_fs::renaming::RenamingRule;

fn strings(items: &[&str]) -> Vec<String> {
    items.iter().map(|s| s.to_string()).collect()
}

fn loaded() -> FileSystem {
    let mut fs = FileSystem::new();
    let config = Config {
        projects: vec![
            Project {
                name: "alpha".to_string(),
                path: "/src/alpha".to_string(),
                groups: strings(&["backend", "rust"]),
                aliases: strings(&["a"]),
            },
            Project {
                name: "beta".to_string(),
                path: "/src/beta".to_string(),
                groups: strings(&["rust"]),
                aliases: vec![],
            },
            Project {
                name: "gamma".to_string(),
                path: "/src/gamma".to_string(),
                groups: vec![],
                aliases: strings(&["g", "gm"]),
            },
        ],
        mirrors: vec![Mirror {
            name: "vendor".to_string(),
            path: "/backing".to_string(),
            renaming: r"^(.*)-\d+$".to_string(),
            aliases: strings(&["v"]),
        }],
    };
    assert_eq!(config.load_into(&mut fs), Ok(()));
    fs
}

fn names(fs: &FileSystem, ino: u64, offset: usize) -> Vec<String> {
    fs.readdir(ino, offset).unwrap().into_iter().map(|l| l.name).collect()
}

#[test]
fn root_attributes() {
    let fs = FileSystem::new();
    let root = fs.getattr(ROOT_INO).unwrap();
    assert_eq!(root.ino, 1);
    assert_eq!(root.kind, FileKind::Directory);
    assert_eq!(root.nlink, 3);
    assert_eq!(ROOT_LINKS, 3);
    assert_eq!(root.perm, 0o555);
    assert_eq!(root.size, 0);
}

#[test]
fn root_lists_the_three_indexes() {
    let fs = FileSystem::new();
    let lines = fs.readdir(ROOT_INO, 0).unwrap();
    let shown: Vec<(u64, usize, &str)> =
        lines.iter().map(|l| (l.ino, l.offset, l.name.as_str())).collect();
    assert_eq!(
        shown,
        vec![(groups::INO, 1, "by-group"), (projects::INO, 2, "by-name"), (mirrors::INO, 3, "mirrors")]
    );
    assert!(lines.iter().all(|l| l.kind == FileKind::Directory));
    assert_eq!(names(&fs, ROOT_INO, 1), vec!["by-name", "mirrors"]);
    assert_eq!(names(&fs, ROOT_INO, 2), vec!["mirrors"]);
    assert!(names(&fs, ROOT_INO, 3).is_empty());
    assert!(names(&fs, ROOT_INO, 4).is_empty());
}

#[test]
fn root_entries_are_the_index_directories() {
    let fs = loaded();
    assert_eq!(fs.lookup(ROOT_INO, "by-group"), Some(Attr::directory(groups::INO, 2)));
    assert_eq!(fs.lookup(ROOT_INO, "by-name"), Some(Attr::directory(projects::INO, 6)));
    assert_eq!(fs.lookup(ROOT_INO, "mirrors"), Some(Attr::directory(mirrors::INO, 2)));
    assert_eq!(fs.lookup(ROOT_INO, "alpha"), None);
    assert_eq!(fs.lookup(ROOT_INO, ""), None);
    for line in fs.readdir(ROOT_INO, 0).unwrap() {
        let attr = fs.getattr(line.ino).unwrap();
        assert_eq!(attr.kind, line.kind);
        assert_eq!(fs.lookup(ROOT_INO, &line.name), Some(attr));
    }
}

#[test]
fn requests_are_routed_by_namespace() {
    let fs = loaded();
    assert_eq!(fs.getattr(groups::INO + 1), Some(Attr::directory(groups::INO + 1, 2)));
    assert_eq!(fs.getattr(groups::INO + 2), Some(Attr::directory(groups::INO + 2, 3)));
    assert_eq!(fs.getattr(projects::INO + 3), Some(Attr::symlink(projects::INO + 3)));
    assert_eq!(fs.getattr(mirrors::INO + 1), Some(Attr::directory(mirrors::INO + 1, 0)));
    assert_eq!(fs.getattr(0), None);
    assert_eq!(fs.getattr(2), None);
    assert_eq!(fs.getattr(groups::INO + 3), None);
    assert_eq!(fs.getattr(projects::INO + 4), None);
    assert_eq!(fs.getattr(ENTRIES_BASE + 1), None);
    assert_eq!(fs.getattr(u64::MAX), None);
}

#[test]
fn repeated_getattr_gives_the_same_attributes() {
    let fs = loaded();
    for ino in [ROOT_INO, groups::INO, groups::INO + 1, projects::INO + 1, mirrors::INO + 1, 77] {
        assert_eq!(fs.getattr(ino), fs.getattr(ino));
    }
}

#[test]
fn project_is_reached_by_name_alias_and_group() {
    let fs = loaded();
    let alpha = fs.lookup(projects::INO, "alpha").unwrap();
    assert_eq!(alpha, Attr::symlink(projects::INO + 1));
    assert_eq!(fs.lookup(projects::INO, "a"), Some(alpha));
    let backend = fs.lookup(groups::INO, "backend").unwrap().ino;
    let rust = fs.lookup(groups::INO, "rust").unwrap().ino;
    assert_eq!((backend, rust), (groups::INO + 1, groups::INO + 2));
    assert_eq!(fs.lookup(backend, "alpha"), Some(alpha));
    assert_eq!(fs.lookup(backend, "a"), Some(alpha));
    assert_eq!(fs.lookup(rust, "alpha"), Some(alpha));
    assert_eq!(fs.lookup(rust, "beta"), Some(Attr::symlink(projects::INO + 2)));
    assert_eq!(fs.readlink(alpha.ino), Some("/src/alpha".to_string()));
    assert_eq!(names(&fs, backend, 0), vec!["alpha", "a"]);
    assert_eq!(names(&fs, rust, 0), vec!["alpha", "a", "beta"]);
}

#[test]
fn group_falls_back_to_the_flat_index() {
    let fs = loaded();
    let backend = fs.lookup(groups::INO, "backend").unwrap().ino;
    let gamma = fs.lookup(projects::INO, "gamma").unwrap();
    assert_eq!(fs.lookup(backend, "gamma"), Some(gamma));
    assert_eq!(fs.lookup(backend, "gm"), Some(gamma));
    assert_eq!(fs.lookup(backend, "beta"), fs.lookup(projects::INO, "beta"));
    assert_eq!(fs.lookup(backend, "nothing"), None);
    assert_eq!(fs.lookup(groups::INO, "gamma"), None);
    assert_eq!(fs.lookup(groups::INO + 3, "gamma"), None);
}

#[test]
fn links_are_no_directories_and_directories_no_links() {
    let fs = loaded();
    assert_eq!(fs.lookup(projects::INO + 1, "alpha"), None);
    assert!(fs.readdir(projects::INO + 1, 0).is_none());
    assert_eq!(fs.readlink(ROOT_INO), None);
    assert_eq!(fs.readlink(groups::INO), None);
    assert_eq!(fs.readlink(groups::INO + 1), None);
    assert_eq!(fs.readlink(projects::INO), None);
    assert_eq!(fs.readlink(mirrors::INO), None);
    assert_eq!(fs.readlink(mirrors::INO + 1), None);
    assert!(fs.readdir(0, 0).is_none());
    assert!(fs.readdir(ENTRIES_BASE + 1, 0).is_none());
    assert_eq!(fs.lookup(0, "alpha"), None);
    assert_eq!(fs.lookup(ENTRIES_BASE + 1, "alpha"), None);
}

#[test]
fn listing_in_pieces_is_the_listing_at_once() {
    let fs = loaded();
    for dir in [ROOT_INO, groups::INO, groups::INO + 2, projects::INO, mirrors::INO] {
        let all: Vec<(u64, String)> =
            fs.readdir(dir, 0).unwrap().into_iter().map(|l| (l.ino, l.name)).collect();
        for piece in 1..4 {
            let mut joined = Vec::new();
            let mut offset = 0;
            loop {
                let page = fs.readdir(dir, offset).unwrap();
                if page.is_empty() {
                    break;
                }
                for line in page.into_iter().take(piece) {
                    offset = line.offset;
                    joined.push((line.ino, line.name));
                }
            }
            assert_eq!(joined, all);
        }
    }
}

#[test]
fn every_listed_entry_has_the_attributes_of_its_kind() {
    let fs = loaded();
    for dir in [ROOT_INO, groups::INO, groups::INO + 1, groups::INO + 2, projects::INO, mirrors::INO] {
        for line in fs.readdir(dir, 0).unwrap() {
            let attr = fs.getattr(line.ino).unwrap();
            assert_eq!(attr.ino, line.ino);
            assert_eq!(attr.kind, line.kind);
        }
    }
}

#[test]
fn groups_are_added_once_and_shared() {
    let fs = loaded();
    assert_eq!(names(&fs, groups::INO, 0), vec!["backend", "rust"]);
    assert_eq!(fs.group_handle("rust"), Some(groups::INO + 2));
    assert_eq!(fs.group_handle("alpha"), None);
}

#[test]
fn project_in_an_unknown_group_is_refused() {
    let mut fs = loaded();
    let refused = fs.add_project(
        "delta".to_string(),
        "/src/delta".to_string(),
        &vec![groups::INO + 1, groups::INO + 9],
        &vec![],
    );
    assert_eq!(refused, Err(ConfigError::UnknownGroup));
    assert_eq!(fs.lookup(projects::INO, "delta"), None);
    assert_eq!(names(&fs, groups::INO + 1, 0), vec!["alpha", "a"]);
    let taken = fs.add_project(
        "delta".to_string(),
        "/src/delta".to_string(),
        &vec![groups::INO + 1],
        &strings(&["a"]),
    );
    assert_eq!(taken, Err(ConfigError::DuplicateProject));
    assert_eq!(names(&fs, groups::INO + 1, 0), vec!["alpha", "a"]);
    let added = fs.add_project(
        "delta".to_string(),
        "/src/delta".to_string(),
        &vec![groups::INO + 1, groups::INO + 1],
        &strings(&["d"]),
    );
    assert_eq!(added, Ok(projects::INO + 4));
    assert_eq!(names(&fs, groups::INO + 1, 0), vec!["alpha", "a", "delta", "d"]);
    assert_eq!(fs.lookup(groups::INO + 1, "d"), Some(Attr::symlink(projects::INO + 4)));
    assert_eq!(fs.readlink(projects::INO + 4), Some("/src/delta".to_string()));
}

#[test]
fn group_added_by_hand() {
    let mut fs = FileSystem::new();
    assert_eq!(fs.add_group("tools".to_string()), Ok(groups::INO + 1));
    assert_eq!(fs.add_group("tools".to_string()), Err(ConfigError::DuplicateGroup));
    assert_eq!(fs.add_group("more".to_string()), Ok(groups::INO + 2));
    let rule = RenamingRule::new("(.*)".to_string()).ok().unwrap();
    assert_eq!(
        fs.add_mirror("m".to_string(), "/m".to_string(), rule, &strings(&["n"])),
        Ok(mirrors::INO + 1)
    );
    let rule = RenamingRule::new("(.*)".to_string()).ok().unwrap();
    assert_eq!(
        fs.add_mirror("n".to_string(), "/n".to_string(), rule, &vec![]),
        Err(ConfigError::DuplicateMirror)
    );
}

#[test]
fn configuration_with_a_bad_rule_is_refused() {
    let mut fs = FileSystem::new();
    let config = Config {
        projects: vec![Project {
            name: "alpha".to_string(),
            path: "/src/alpha".to_string(),
            groups: vec![],
            aliases: vec![],
        }],
        mirrors: vec![
            Mirror {
                name: "good".to_string(),
                path: "/good".to_string(),
                renaming: "(.*)".to_string(),
                aliases: vec![],
            },
            Mirror {
                name: "bad".to_string(),
                path: "/bad".to_string(),
                renaming: "(".to_string(),
                aliases: vec![],
            },
            Mirror {
                name: "late".to_string(),
                path: "/late".to_string(),
                renaming: "(.*)".to_string(),
                aliases: vec![],
            },
        ],
    };
    assert_eq!(config.load_into(&mut fs), Err(ConfigError::InvalidRenaming));
    assert!(fs.lookup(projects::INO, "alpha").is_some());
    assert!(fs.lookup(mirrors::INO, "good").is_some());
    assert_eq!(fs.lookup(mirrors::INO, "bad"), None);
    assert_eq!(fs.lookup(mirrors::INO, "late"), None);
}

#[test]
fn configuration_with_a_taken_name_is_refused() {
    let mut fs = FileSystem::new();
    let project = |name: &str, alias: &str| Project {
        name: name.to_string(),
        path: "/p".to_string(),
        groups: strings(&["all"]),
        aliases: strings(&[alias]),
    };
    let config = Config {
        projects: vec![project("alpha", "a"), project("beta", "a"), project("gamma", "g")],
        mirrors: vec![],
    };
    assert_eq!(config.load_into(&mut fs), Err(ConfigError::DuplicateProject));
    assert_eq!(names(&fs, projects::INO, 0), vec!["alpha", "a"]);
    assert_eq!(names(&fs, groups::INO + 1, 0), vec!["alpha", "a"]);
}

#[test]
fn configuration_meets_a_group_that_was_there() {
    let mut fs = FileSystem::new();
    assert_eq!(fs.add_group("all".to_string()), Ok(groups::INO + 1));
    let config = Config {
        projects: vec![Project {
            name: "alpha".to_string(),
            path: "/p".to_string(),
            groups: strings(&["all"]),
            aliases: vec![],
        }],
        mirrors: vec![],
    };
    assert_eq!(config.load_into(&mut fs), Err(ConfigError::DuplicateGroup));
    assert_eq!(fs.lookup(projects::INO, "alpha"), None);
}

#[test]
fn mirror_entries_are_served_through_the_dispatcher() {
    let mut fs = loaded();
    let mirror = fs.lookup(mirrors::INO, "v").unwrap().ino;
    assert_eq!(mirror, mirrors::INO + 1);
    assert_eq!(fs.scan_base(mirror), Some("/backing"));
    assert_eq!(fs.scan_base(projects::INO + 1), None);
    assert_eq!(fs.scan_step(projects::INO, 9, ScanEvent::Begin { offset: 0 }), ScanAction::Serve);
    assert_eq!(fs.scan_step(mirror, 9, ScanEvent::Begin { offset: 0 }), ScanAction::ReadModified);
    assert_eq!(fs.scan_step(mirror, 9, ScanEvent::Stat { time: Some(3) }), ScanAction::ListDirectory);
    let listing = strings(&["foo-1", "bar-2"]);
    assert_eq!(
        fs.scan_step(mirror, 9, ScanEvent::Listed { modified: 3, names: Some(listing) }),
        ScanAction::Serve
    );
    assert_eq!(names(&fs, mirror, 0), vec!["foo", "bar"]);
    let foo = fs.lookup(mirror, "foo").unwrap();
    assert_eq!(foo, Attr::symlink(ENTRIES_BASE + 1));
    assert_eq!(fs.getattr(foo.ino), Some(foo));
    assert_eq!(fs.readlink(foo.ino), Some("/backing/foo-1".to_string()));
    assert_eq!(fs.getattr(mirror), Some(Attr::directory(mirror, 2)));
    for line in fs.readdir(mirror, 0).unwrap() {
        assert_eq!(fs.getattr(line.ino).unwrap().kind, line.kind);
    }
}
