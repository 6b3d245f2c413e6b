use projects_fs::config::{Config, Mirror, Project};
use projects_fs::filesystem::FileSystem;
use projects_fs::groups;
use projects_fs::ids::ROOT_INO;
use projects_fs::mirrors;
use projects_fs::mirrors::{ScanAction, ScanEvent};
use projects_fs::node::FileKind;
use projects_fs::projects;

fn strings(items: &[&str]) -> Vec<String> {
    items.iter().map(|s| s.to_string()).collect()
}

fn alpha_config() -> Config {
    Config {
        projects: vec![Project {
            name: "alpha".to_string(),
            path: "/src/alpha".to_string(),
            groups: strings(&["backend"]),
            aliases: strings(&["a"]),
        }],
        mirrors: vec![],
    }
}

#[test]
fn alias_resolves_flat_and_in_group() {
    let mut fs = FileSystem::new();
    assert_eq!(alpha_config().load_into(&mut fs), Ok(()));

    let flat = fs.lookup(projects::INO, "a").unwrap();
    assert_eq!(flat.kind, FileKind::Symlink);
    assert_eq!(fs.readlink(flat.ino), Some("/src/alpha".to_string()));

    let backend = fs.lookup(groups::INO, "backend").unwrap();
    assert_eq!(backend.kind, FileKind::Directory);
    let grouped = fs.lookup(backend.ino, "a").unwrap();
    assert_eq!(grouped.kind, FileKind::Symlink);
    assert_eq!(grouped.ino, flat.ino);
    assert_eq!(fs.readlink(grouped.ino), Some("/src/alpha".to_string()));
}

#[test]
fn mirror_exposes_renamed_subdirectories() {
    let mut fs = FileSystem::new();
    let config = Config {
        projects: vec![],
        mirrors: vec![Mirror {
            name: "vendor".to_string(),
            path: "/backing".to_string(),
            renaming: r"^(.*)-\d+$".to_string(),
            aliases: vec![],
        }],
    };
    assert_eq!(config.load_into(&mut fs), Ok(()));
    let mirror = fs.lookup(mirrors::INO, "vendor").unwrap();
    assert_eq!(fs.scan_base(mirror.ino), Some("/backing"));

    let now = 5_000_000_000u128;
    assert_eq!(
        fs.scan_step(mirror.ino, now, ScanEvent::Begin { offset: 0 }),
        ScanAction::ReadModified
    );
    assert_eq!(
        fs.scan_step(mirror.ino, now, ScanEvent::Stat { time: Some(42) }),
        ScanAction::ListDirectory
    );
    let names = strings(&["foo-1", "bar-2", "plain"]);
    assert_eq!(
        fs.scan_step(mirror.ino, now, ScanEvent::Listed { modified: 42, names: Some(names) }),
        ScanAction::Serve
    );

    let lines = fs.readdir(mirror.ino, 0).unwrap();
    let listed: Vec<&str> = lines.iter().map(|l| l.name.as_str()).collect();
    assert_eq!(listed, vec!["foo", "bar"]);
    let foo = fs.lookup(mirror.ino, "foo").unwrap();
    let bar = fs.lookup(mirror.ino, "bar").unwrap();
    assert_eq!(fs.readlink(foo.ino), Some("/backing/foo-1".to_string()));
    assert_eq!(fs.readlink(bar.ino), Some("/backing/bar-2".to_string()));
    assert_eq!(fs.lookup(mirror.ino, "plain"), None);
    assert_eq!(fs.getattr(ROOT_INO).unwrap().nlink, 3);
}

#[test]
fn removed_subdirectory_retires_its_identifier() {
    let mut fs = FileSystem::new();
    let config = Config {
        projects: vec![],
        mirrors: vec![Mirror {
            name: "vendor".to_string(),
            path: "/backing".to_string(),
            renaming: r"^(.*)-\d+$".to_string(),
            aliases: vec![],
        }],
    };
    assert_eq!(config.load_into(&mut fs), Ok(()));
    let mirror = fs.lookup(mirrors::INO, "vendor").unwrap().ino;
    let second = 1_000_000_001u128;

    let first = ScanEvent::Listed { modified: 1, names: Some(strings(&["foo-1", "bar-2"])) };
    assert_eq!(fs.scan_step(mirror, 0, first), ScanAction::Serve);
    let foo = fs.lookup(mirror, "foo").unwrap().ino;
    let bar = fs.lookup(mirror, "bar").unwrap().ino;
    assert_eq!(fs.readlink(foo), Some("/backing/foo-1".to_string()));

    assert_eq!(
        fs.scan_step(mirror, second, ScanEvent::Begin { offset: 0 }),
        ScanAction::ReadModified
    );
    assert_eq!(
        fs.scan_step(mirror, second, ScanEvent::Stat { time: Some(2) }),
        ScanAction::ListDirectory
    );
    let gone = ScanEvent::Listed { modified: 2, names: Some(strings(&["bar-2"])) };
    assert_eq!(fs.scan_step(mirror, second, gone), ScanAction::Serve);
    assert_eq!(fs.readlink(foo), None);
    assert_eq!(fs.getattr(foo), None);
    assert_eq!(fs.lookup(mirror, "foo"), None);
    assert_eq!(fs.lookup(mirror, "bar").unwrap().ino, bar);

    let back = ScanEvent::Listed { modified: 3, names: Some(strings(&["bar-2", "foo-3"])) };
    assert_eq!(fs.scan_step(mirror, 2 * second, back), ScanAction::Serve);
    let again = fs.lookup(mirror, "foo").unwrap().ino;
    assert_ne!(again, foo);
    assert_ne!(again, bar);
    assert_eq!(fs.readlink(again), Some("/backing/foo-3".to_string()));
    assert_eq!(fs.readlink(foo), None);
}

#[test]
fn unchanged_backing_directory_keeps_entries_and_identifiers() {
    let mut fs = FileSystem::new();
    let config = Config {
        projects: vec![],
        mirrors: vec![Mirror {
            name: "vendor".to_string(),
            path: "/backing".to_string(),
            renaming: r"^(.*)-\d+$".to_string(),
            aliases: vec![],
        }],
    };
    assert_eq!(config.load_into(&mut fs), Ok(()));
    let mirror = fs.lookup(mirrors::INO, "vendor").unwrap().ino;
    let listed = ScanEvent::Listed { modified: 5, names: Some(strings(&["foo-1", "bar-2"])) };
    assert_eq!(fs.scan_step(mirror, 0, listed), ScanAction::Serve);
    let before = fs.readdir(mirror, 0).unwrap();
    let late = 3_000_000_000u128;
    assert_eq!(fs.scan_step(mirror, late, ScanEvent::Begin { offset: 0 }), ScanAction::ReadModified);
    assert_eq!(fs.scan_step(mirror, late, ScanEvent::Stat { time: Some(5) }), ScanAction::Serve);
    assert_eq!(fs.readdir(mirror, 0).unwrap(), before);
    for line in before {
        assert!(fs.readlink(line.ino).is_some());
    }
    assert_eq!(fs.scan_step(mirror, late, ScanEvent::Begin { offset: 0 }), ScanAction::Serve);
}
