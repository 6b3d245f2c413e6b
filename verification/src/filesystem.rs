//! The filesystem: the root directory over the three indexes, and the
//! dispatcher that routes every request to the index that owns the
//! identifier it names.

use vstd::prelude::*;
use crate::error::ConfigError;
use crate::groups;
use crate::groups::{GroupLookup, GroupModel, Groups, GroupsModel};
use crate::ids::{Namespace, ROOT_INO};
use crate::mirrors;
use crate::mirrors::{Mirrors, MirrorsModel, ScanAction, ScanEvent, Scanned};
use crate::names::{
    NameTable, Table, has_name, lemma_lookup_line, lemma_put_all, lookup, put_all, vacant,
    with_aliases,
};
use crate::node::{
    Attr, DirEntry, FileKind, Line, lemma_listing_resumes, listing, numbered, page,
};
use crate::projects;
use crate::projects::{Projects, ProjectsModel, lemma_added};
use crate::renaming::{RenamingRule, Rule};

verus! {

/// The link count of the root directory.
pub const ROOT_LINKS: u32 = 3;

/// The attributes of the root directory.
pub open spec fn root_attr() -> Attr {
    Attr { nlink: ROOT_LINKS, ..Attr::of_directory(ROOT_INO, 0) }
}

/// The entries of the root directory: one directory for each index, always
/// these three and in this order.
pub open spec fn root_names() -> Table<u64> {
    seq![
        (groups::STR@, groups::INO),
        (projects::STR@, projects::INO),
        (mirrors::STR@, mirrors::INO),
    ]
}

/// The mathematical form of the filesystem: its three indexes.
pub struct FsModel {
    pub groups: GroupsModel,
    pub projects: ProjectsModel,
    pub mirrors: MirrorsModel,
}

/// The groups after the project `ino` was listed in each group of `handles`
/// under each of `names`.
pub open spec fn enrolled(
    groups: GroupsModel,
    handles: Seq<u64>,
    names: Seq<Seq<char>>,
    ino: u64,
) -> GroupsModel
    decreases handles.len(),
{
    if handles.len() == 0 {
        groups
    } else {
        let before = enrolled(groups, handles.drop_last(), names, ino);
        let k = GroupsModel::slot(handles.last());
        before.with_group(
            k,
            GroupModel {
                members: put_all(before.groups[k].members, names, ino),
                ..before.groups[k]
            },
        )
    }
}

/// Every one of `handles` is the identifier of a group.
pub open spec fn all_groups(groups: GroupsModel, handles: Seq<u64>) -> bool {
    forall|j: int| 0 <= j < handles.len() ==> groups.has_group(#[trigger] handles[j])
}

impl FsModel {
    /// What a group lists a name under is what the flat index lists it
    /// under: a group has no identifiers of its own for its members.
    pub open spec fn members_agree(self) -> bool {
        forall|g: int, name: Seq<char>|
            0 <= g < self.groups.groups.len() && #[trigger] has_name(
                self.groups.groups[g].members,
                name,
            ) ==> lookup(self.groups.groups[g].members, name) == lookup(self.projects.names, name)
    }

    /// The groups that a project records are groups of the index.
    pub open spec fn groups_exist(self) -> bool {
        forall|k: int, j: int|
            0 <= k < self.projects.projects.len() && 0 <= j < self.projects.projects[k].groups.len()
                ==> self.groups.has_group(#[trigger] self.projects.projects[k].groups[j])
    }

    /// The invariant of the filesystem: that of each index, and the two
    /// that tie the groups to the projects.
    pub open spec fn wf(self) -> bool {
        &&& self.groups.wf()
        &&& self.projects.wf()
        &&& self.mirrors.wf()
        &&& self.members_agree()
        &&& self.groups_exist()
    }

    /// The attributes of `ino`. The identifier's namespace decides which
    /// index answers; an identifier that no namespace owns has none.
    pub open spec fn getattr(self, ino: u64) -> Option<Attr> {
        match Namespace::owner(ino) {
            Some(Namespace::Root) => Some(root_attr()),
            Some(Namespace::Mirrors) => self.mirrors.attr(ino),
            Some(Namespace::MirrorEntries) => self.mirrors.attr(ino),
            Some(Namespace::Projects) => self.projects.attr(ino),
            Some(Namespace::Groups) => self.groups.attr(ino),
            None => None,
        }
    }

    /// The attributes of the entry `name` of the directory `parent`. Under
    /// the root the name picks the index; elsewhere the namespace of
    /// `parent` does. A name that a group does not list is looked up in the
    /// flat project index.
    pub open spec fn lookup(self, parent: u64, name: Seq<char>) -> Option<Attr> {
        match Namespace::owner(parent) {
            Some(Namespace::Root) => if name == mirrors::STR@ {
                self.mirrors.lookup(parent, name)
            } else if name == projects::STR@ {
                self.projects.lookup(parent, name)
            } else if name == groups::STR@ {
                self.in_groups(parent, name)
            } else {
                None
            },
            Some(Namespace::Mirrors) => self.mirrors.lookup(parent, name),
            Some(Namespace::MirrorEntries) => None,
            Some(Namespace::Projects) => self.projects.lookup(parent, name),
            Some(Namespace::Groups) => self.in_groups(parent, name),
            None => None,
        }
    }

    /// The lookup of `name` in the group namespace, with its fallback.
    pub open spec fn in_groups(self, parent: u64, name: Seq<char>) -> Option<Attr> {
        match self.groups.lookup(parent, name) {
            GroupLookup::Found(attr) => Some(attr),
            GroupLookup::Fallback => self.projects.lookup(projects::INO, name),
            GroupLookup::NotFound => None,
        }
    }

    /// The full listing of the directory `ino`.
    pub open spec fn list(self, ino: u64) -> Option<Seq<Line>> {
        match Namespace::owner(ino) {
            Some(Namespace::Root) => Some(listing(root_names(), FileKind::Directory)),
            Some(Namespace::Mirrors) => self.mirrors.list(ino),
            Some(Namespace::MirrorEntries) => None,
            Some(Namespace::Projects) => if ino == projects::INO {
                Some(self.projects.list())
            } else {
                None
            },
            Some(Namespace::Groups) => self.groups.list(ino),
            None => None,
        }
    }

    /// The answer to a request for the listing of `ino` at `offset`: the
    /// lines from that offset on, or `None` where `ino` is no directory.
    pub open spec fn readdir(self, ino: u64, offset: nat) -> Option<Seq<Line>> {
        match self.list(ino) {
            Some(full) => Some(page(full, offset)),
            None => None,
        }
    }

    /// The real path that the link `ino` leads to; directories have none.
    pub open spec fn readlink(self, ino: u64) -> Option<Seq<char>> {
        match Namespace::owner(ino) {
            Some(Namespace::MirrorEntries) => self.mirrors.readlink(ino),
            Some(Namespace::Projects) => self.projects.readlink(ino),
            _ => None,
        }
    }

    /// The filesystem after a group without members was added.
    pub open spec fn added_group(self, name: Seq<char>) -> FsModel {
        FsModel { groups: self.groups.added(name, Seq::empty()), ..self }
    }

    /// The filesystem after a project was added and listed in its groups.
    pub open spec fn added_project(
        self,
        name: Seq<char>,
        path: Seq<char>,
        handles: Seq<u64>,
        aliases: Seq<Seq<char>>,
    ) -> FsModel {
        FsModel {
            projects: self.projects.added(name, path, handles, aliases),
            groups: enrolled(
                self.groups,
                handles,
                with_aliases(name, aliases),
                ProjectsModel::ino_at(self.projects.projects.len() as int),
            ),
            ..self
        }
    }

    /// The filesystem after a mirror was added.
    pub open spec fn added_mirror(
        self,
        name: Seq<char>,
        base: Seq<char>,
        rule: Rule,
        aliases: Seq<Seq<char>>,
    ) -> FsModel {
        FsModel { mirrors: self.mirrors.added(name, base, rule, aliases), ..self }
    }

    /// What adding a group named `name` comes to: the filesystem after it
    /// and the group's identifier, or the filesystem as it was and the
    /// reason for which the group was refused.
    pub open spec fn try_add_group(self, name: Seq<char>) -> (FsModel, Result<u64, ConfigError>) {
        if self.groups.full() {
            (self, Err(ConfigError::Exhausted))
        } else if has_name(self.groups.names, name) {
            (self, Err(ConfigError::DuplicateGroup))
        } else {
            (self.added_group(name), Ok(GroupsModel::ino_at(self.groups.groups.len() as int)))
        }
    }

    /// What adding a project comes to: the filesystem after it and the
    /// project's identifier, or the filesystem as it was and the reason for
    /// which the project was refused. The project is refused where one of
    /// `handles` is no group, where no identifier is left, and where its
    /// name or one of its aliases is taken or given twice.
    pub open spec fn try_add_project(
        self,
        name: Seq<char>,
        path: Seq<char>,
        handles: Seq<u64>,
        aliases: Seq<Seq<char>>,
    ) -> (FsModel, Result<u64, ConfigError>) {
        if !all_groups(self.groups, handles) {
            (self, Err(ConfigError::UnknownGroup))
        } else if self.projects.full() {
            (self, Err(ConfigError::Exhausted))
        } else if !vacant(self.projects.names, with_aliases(name, aliases)) {
            (self, Err(ConfigError::DuplicateProject))
        } else {
            (
                self.added_project(name, path, handles, aliases),
                Ok(ProjectsModel::ino_at(self.projects.projects.len() as int)),
            )
        }
    }

    /// What adding a mirror comes to: the filesystem after it and the
    /// mirror's identifier, or the filesystem as it was and the reason for
    /// which the mirror was refused.
    pub open spec fn try_add_mirror(
        self,
        name: Seq<char>,
        base: Seq<char>,
        rule: Rule,
        aliases: Seq<Seq<char>>,
    ) -> (FsModel, Result<u64, ConfigError>) {
        if self.mirrors.full() {
            (self, Err(ConfigError::Exhausted))
        } else if !vacant(self.mirrors.names, with_aliases(name, aliases)) {
            (self, Err(ConfigError::DuplicateMirror))
        } else {
            (
                self.added_mirror(name, base, rule, aliases),
                Ok((mirrors::INO + self.mirrors.mirrors.len() + 1) as u64),
            )
        }
    }

    /// The filesystem after one step of a scan, and what the driver is to do
    /// next. Only mirrors are scanned: for any other identifier the driver
    /// has nothing to do.
    pub open spec fn step(self, ino: u64, now: u128, event: Scanned) -> (FsModel, ScanAction) {
        let (mirrors, action) = self.mirrors.step(ino, now, event);
        (FsModel { mirrors, ..self }, action)
    }
}

/// What listing a project in groups does, group by group and name by name:
/// in a group of `handles` each of `names` stands for `ino`, and nothing
/// else changes.
pub proof fn lemma_enrolled(groups: GroupsModel, handles: Seq<u64>, names: Seq<Seq<char>>, ino: u64)
    requires
        groups.wf(),
        all_groups(groups, handles),
    ensures
        enrolled(groups, handles, names, ino).wf(),
        enrolled(groups, handles, names, ino).names == groups.names,
        enrolled(groups, handles, names, ino).groups.len() == groups.groups.len(),
        forall|g: int|
            0 <= g < groups.groups.len() ==> (#[trigger] enrolled(
                groups,
                handles,
                names,
                ino,
            ).groups[g]).name == groups.groups[g].name,
        forall|g: int, x: Seq<char>|
            0 <= g < groups.groups.len() ==> #[trigger] lookup(
                enrolled(groups, handles, names, ino).groups[g].members,
                x,
            ) == if handles.contains(GroupsModel::ino_at(g)) && names.contains(x) {
                Some(ino)
            } else {
                lookup(groups.groups[g].members, x)
            },
        forall|g: int, x: Seq<char>|
            0 <= g < groups.groups.len() ==> #[trigger] has_name(
                enrolled(groups, handles, names, ino).groups[g].members,
                x,
            ) == ((handles.contains(GroupsModel::ino_at(g)) && names.contains(x)) || has_name(
                groups.groups[g].members,
                x,
            )),
    decreases handles.len(),
{
    let r = enrolled(groups, handles, names, ino);
    if handles.len() > 0 {
        let rest = handles.drop_last();
        let before = enrolled(groups, rest, names, ino);
        let h = handles.last();
        let k = GroupsModel::slot(h);
        assert(groups.has_group(handles[handles.len() - 1]));
        assert(all_groups(groups, rest)) by {
            assert forall|j: int| 0 <= j < rest.len() implies groups.has_group(
                #[trigger] rest[j],
            ) by {
                assert(rest[j] == handles[j]);
            }
        }
        lemma_enrolled(groups, rest, names, ino);
        let members = put_all(before.groups[k].members, names, ino);
        lemma_put_all(before.groups[k].members, names, ino);
        crate::groups::lemma_with_group(
            before,
            k,
            GroupModel { members, ..before.groups[k] },
        );
        assert forall|hh: u64| handles.contains(hh) == (rest.contains(hh) || hh == h) by {
            if handles.contains(hh) {
                let i = choose|i: int| 0 <= i < handles.len() && handles[i] == hh;
                if i < rest.len() {
                    assert(rest[i] == hh);
                }
            }
            if rest.contains(hh) {
                let i = choose|i: int| 0 <= i < rest.len() && rest[i] == hh;
                assert(handles[i] == hh);
            }
            if hh == h {
                assert(handles[handles.len() - 1] == hh);
            }
        }
        assert(GroupsModel::ino_at(k) == h);
        assert forall|g: int, x: Seq<char>| 0 <= g < groups.groups.len() implies #[trigger] lookup(
            r.groups[g].members,
            x,
        ) == if handles.contains(GroupsModel::ino_at(g)) && names.contains(x) {
            Some(ino)
        } else {
            lookup(groups.groups[g].members, x)
        } by {
            assert(lookup(before.groups[g].members, x) == if rest.contains(GroupsModel::ino_at(g))
                && names.contains(x) {
                Some(ino)
            } else {
                lookup(groups.groups[g].members, x)
            });
            if g == k {
                assert(r.groups[g].members == members);
                assert(lookup(members, x) == if names.contains(x) {
                    Some(ino)
                } else {
                    lookup(before.groups[k].members, x)
                });
            } else {
                assert(r.groups[g] == before.groups[g]);
                assert(GroupsModel::ino_at(g) != h);
            }
        }
        assert forall|g: int, x: Seq<char>|
            0 <= g < groups.groups.len() implies #[trigger] has_name(r.groups[g].members, x) == ((
        handles.contains(GroupsModel::ino_at(g)) && names.contains(x)) || has_name(
            groups.groups[g].members,
            x,
        )) by {
            assert(has_name(before.groups[g].members, x) == ((rest.contains(GroupsModel::ino_at(g))
                && names.contains(x)) || has_name(groups.groups[g].members, x)));
            if g == k {
                assert(r.groups[g].members == members);
                assert(has_name(members, x) == (names.contains(x) || has_name(
                    before.groups[k].members,
                    x,
                )));
            } else {
                assert(r.groups[g] == before.groups[g]);
                assert(GroupsModel::ino_at(g) != h);
            }
        }
        assert forall|g: int| 0 <= g < groups.groups.len() implies (#[trigger] r.groups[g]).name
            == groups.groups[g].name by {
            assert(before.groups[g].name == groups.groups[g].name);
            if g != k {
                assert(r.groups[g] == before.groups[g]);
            }
        }
    }
}

/// Adding a group keeps the invariant of the filesystem.
pub proof fn lemma_added_group(fs: FsModel, name: Seq<char>)
    requires
        fs.wf(),
        fs.groups.added(name, Seq::empty()).wf(),
    ensures
        fs.added_group(name).wf(),
{
    let r = fs.added_group(name);
    assert forall|g: int, x: Seq<char>|
        0 <= g < r.groups.groups.len() && #[trigger] has_name(
            r.groups.groups[g].members,
            x,
        ) implies lookup(r.groups.groups[g].members, x) == lookup(r.projects.names, x) by {
        if g < fs.groups.groups.len() {
            assert(r.groups.groups[g] == fs.groups.groups[g]);
            assert(has_name(fs.groups.groups[g].members, x));
        }
    }
    assert forall|k: int, j: int|
        0 <= k < r.projects.projects.len() && 0 <= j
            < r.projects.projects[k].groups.len() implies r.groups.has_group(
        #[trigger] r.projects.projects[k].groups[j],
    ) by {
        assert(fs.groups.has_group(fs.projects.projects[k].groups[j]));
    }
}

/// Adding a project keeps the invariant of the filesystem. In each of its
/// groups the project is then found under its name and under each alias,
/// and under the identifier that the flat index gave it.
pub proof fn lemma_added_project(
    fs: FsModel,
    name: Seq<char>,
    path: Seq<char>,
    handles: Seq<u64>,
    aliases: Seq<Seq<char>>,
)
    requires
        fs.wf(),
        all_groups(fs.groups, handles),
        !fs.projects.full(),
        vacant(fs.projects.names, with_aliases(name, aliases)),
    ensures
        fs.added_project(name, path, handles, aliases).wf(),
        forall|j: int, n: Seq<char>|
            0 <= j < handles.len() && (n == name || aliases.contains(n)) ==> #[trigger] lookup(
                fs.added_project(name, path, handles, aliases).groups.groups[GroupsModel::slot(
                    handles[j],
                )].members,
                n,
            ) == Some(ProjectsModel::ino_at(fs.projects.projects.len() as int)),
{
    let all = with_aliases(name, aliases);
    let id = ProjectsModel::ino_at(fs.projects.projects.len() as int);
    let r = fs.added_project(name, path, handles, aliases);
    lemma_added(fs.projects, name, path, handles, aliases);
    lemma_enrolled(fs.groups, handles, all, id);
    assert forall|n: Seq<char>| all.contains(n) == (n == name || aliases.contains(n)) by {
        if all.contains(n) {
            let i = choose|i: int| 0 <= i < all.len() && all[i] == n;
            if i > 0 {
                assert(aliases[i - 1] == n);
            }
        }
        if n == name {
            assert(all[0] == n);
        }
        if aliases.contains(n) {
            let i = choose|i: int| 0 <= i < aliases.len() && aliases[i] == n;
            assert(all[i + 1] == n);
        }
    }
    assert forall|g: int, x: Seq<char>|
        0 <= g < r.groups.groups.len() && #[trigger] has_name(
            r.groups.groups[g].members,
            x,
        ) implies lookup(r.groups.groups[g].members, x) == lookup(r.projects.names, x) by {
        let now = lookup(r.groups.groups[g].members, x);
        assert(r.projects.lookup_by_name(x) == if x == name || aliases.contains(x) {
            Some(id)
        } else {
            fs.projects.lookup_by_name(x)
        });
        if handles.contains(GroupsModel::ino_at(g)) && all.contains(x) {
        } else {
            assert(has_name(fs.groups.groups[g].members, x));
            assert(lookup(fs.groups.groups[g].members, x) == lookup(fs.projects.names, x));
            assert(has_name(fs.projects.names, x));
            if all.contains(x) {
                let i = choose|i: int| 0 <= i < all.len() && all[i] == x;
                assert(!has_name(fs.projects.names, all[i]));
            }
        }
    }
    assert forall|k: int, j: int|
        0 <= k < r.projects.projects.len() && 0 <= j
            < r.projects.projects[k].groups.len() implies r.groups.has_group(
        #[trigger] r.projects.projects[k].groups[j],
    ) by {
        if k < fs.projects.projects.len() {
            assert(r.projects.projects[k] == fs.projects.projects[k]);
            assert(fs.groups.has_group(fs.projects.projects[k].groups[j]));
        } else {
            assert(fs.groups.has_group(handles[j]));
        }
    }
    assert forall|j: int, n: Seq<char>|
        0 <= j < handles.len() && (n == name || aliases.contains(n)) implies #[trigger] lookup(
        r.groups.groups[GroupsModel::slot(handles[j])].members,
        n,
    ) == Some(id) by {
        assert(fs.groups.has_group(handles[j]));
        let g = GroupsModel::slot(handles[j]);
        assert(GroupsModel::ino_at(g) == handles[j]);
        assert(handles.contains(GroupsModel::ino_at(g)));
    }
}

/// Inside a group a name resolves to what it resolves to in the flat index:
/// to the same identifier, and so to the same real path. This holds of the
/// names that the group lists, and by the fallback of all others too.
pub proof fn lemma_group_lookup_is_flat_lookup(fs: FsModel, group: u64, name: Seq<char>)
    requires
        fs.wf(),
        fs.groups.has_group(group),
    ensures
        fs.lookup(group, name) == fs.lookup(projects::INO, name),
        fs.lookup(group, name) == match fs.projects.lookup_by_name(name) {
            Some(ino) => Some(Attr::of_symlink(ino)),
            None => None,
        },
        has_name(fs.groups.groups[GroupsModel::slot(group)].members, name) ==> lookup(
            fs.groups.groups[GroupsModel::slot(group)].members,
            name,
        ) == fs.projects.lookup_by_name(name),
{
    let g = GroupsModel::slot(group);
    if has_name(fs.groups.groups[g].members, name) {
        assert(lookup(fs.groups.groups[g].members, name) == lookup(fs.projects.names, name));
    }
}

/// A name and its aliases lead to one project: looked up in the flat index,
/// each of them has the project's identifier, and that identifier links to
/// the project's real path.
pub proof fn lemma_alias_is_project(fs: FsModel, k: int, name: Seq<char>)
    requires
        fs.wf(),
        0 <= k < fs.projects.projects.len(),
        name == fs.projects.projects[k].name || fs.projects.projects[k].aliases.contains(name),
    ensures
        fs.lookup(projects::INO, name) == Some(Attr::of_symlink(ProjectsModel::ino_at(k))),
        fs.readlink(ProjectsModel::ino_at(k)) == Some(fs.projects.projects[k].path),
        fs.getattr(ProjectsModel::ino_at(k)) == Some(Attr::of_symlink(ProjectsModel::ino_at(k))),
{
    crate::projects::lemma_names_resolve(fs.projects, k, name);
}

/// What a listing shows an entry as is what the entry's attributes say it
/// is: every line of a directory's listing has an identifier with
/// attributes, of the line's kind.
pub proof fn lemma_listed_entries_exist(fs: FsModel, ino: u64, i: int)
    requires
        fs.wf(),
        fs.list(ino) is Some,
        0 <= i < fs.list(ino).unwrap().len(),
    ensures
        fs.getattr(fs.list(ino).unwrap()[i].ino) is Some,
        fs.getattr(fs.list(ino).unwrap()[i].ino).unwrap().kind == fs.list(ino).unwrap()[i].kind,
        fs.getattr(fs.list(ino).unwrap()[i].ino).unwrap().ino == fs.list(ino).unwrap()[i].ino,
{
    let line = fs.list(ino).unwrap()[i];
    match Namespace::owner(ino) {
        Some(Namespace::Root) => {},
        Some(Namespace::Mirrors) => {
            if ino == mirrors::INO {
                assert(fs.mirrors.has_mirror(fs.mirrors.names[i].1));
            } else {
                let k = MirrorsModel::slot(ino);
                crate::mirrors::lemma_entry_place(fs.mirrors, k, i);
                assert(crate::mirrors::ids_within(
                    fs.mirrors.mirrors[k].entries,
                    crate::ids::ENTRIES_BASE as int,
                    fs.mirrors.issued as int,
                ));
            }
        },
        Some(Namespace::Projects) => {
            assert(fs.projects.has_project(fs.projects.names[i].1));
        },
        Some(Namespace::Groups) => {
            if ino == groups::INO {
                assert(fs.groups.names[i] == (fs.groups.groups[i].name, GroupsModel::ino_at(i)));
            } else {
                let g = GroupsModel::slot(ino);
                let t = fs.groups.groups[g].members;
                lemma_lookup_line(t, i);
                assert(has_name(t, t[i].0));
                assert(lookup(t, t[i].0) == lookup(fs.projects.names, t[i].0));
                crate::projects::lemma_lookup_is_project(fs.projects, t[i].0);
            }
        },
        _ => {},
    }
}

/// Every listing is numbered: each line carries the offset of the line
/// after it.
pub proof fn lemma_lists_are_numbered(fs: FsModel, ino: u64)
    requires
        fs.list(ino) is Some,
    ensures
        numbered(fs.list(ino).unwrap()),
{
}

/// A directory read in pieces is the directory read at once. Whoever takes
/// the first `taken` lines of an answer, and asks again at the offset that
/// the last of them carries, is answered with the rest: no line is lost and
/// none comes twice, as long as the filesystem stays as it is. The answer
/// at offset zero is the whole listing.
pub proof fn lemma_readdir_resumes(fs: FsModel, ino: u64, offset: nat, taken: nat)
    requires
        fs.readdir(ino, offset) is Some,
        0 < taken <= fs.readdir(ino, offset).unwrap().len(),
    ensures
        fs.readdir(ino, fs.readdir(ino, offset).unwrap()[taken - 1].offset) == Some(
            fs.readdir(ino, offset).unwrap().skip(taken as int),
        ),
        fs.readdir(ino, offset).unwrap().take(taken as int) + fs.readdir(
            ino,
            fs.readdir(ino, offset).unwrap()[taken - 1].offset,
        ).unwrap() == fs.readdir(ino, offset).unwrap(),
        fs.readdir(ino, 0) == fs.list(ino),
{
    lemma_lists_are_numbered(fs, ino);
    lemma_listing_resumes(fs.list(ino).unwrap(), offset, taken);
}

/// What a request reads does not depend on scans that list nothing: the
/// beginning of a scan, and a modification time read or not read, leave
/// every attribute, every listing and every link as they were.
pub proof fn lemma_scan_without_listing_changes_nothing(
    fs: FsModel,
    ino: u64,
    now: u128,
    event: Scanned,
)
    requires
        fs.wf(),
        !(event is Listed),
    ensures
        fs.step(ino, now, event).0.wf(),
        forall|id: u64| #[trigger] fs.step(ino, now, event).0.getattr(id) == fs.getattr(id),
        forall|id: u64| #[trigger] fs.step(ino, now, event).0.list(id) == fs.list(id),
        forall|id: u64| #[trigger] fs.step(ino, now, event).0.readlink(id) == fs.readlink(id),
{
    crate::mirrors::lemma_only_listing_changes_entries(fs.mirrors, ino, now, event);
}

/// Two answers name one entity: where the first has attributes the second
/// has them too, for the same identifier and of the same kind.
pub open spec fn same_entity(before: Option<Attr>, after: Option<Attr>) -> bool {
    before is Some ==> {
        &&& after is Some
        &&& after.unwrap().ino == before.unwrap().ino
        &&& after.unwrap().kind == before.unwrap().kind
    }
}

/// An identifier, once given, stays what it was when a group is added: it
/// has its attributes still, and where it is a link it leads where it led.
pub proof fn lemma_add_group_keeps_entities(fs: FsModel, name: Seq<char>, ino: u64)
    requires
        fs.wf(),
    ensures
        same_entity(fs.getattr(ino), fs.try_add_group(name).0.getattr(ino)),
        fs.try_add_group(name).0.readlink(ino) == fs.readlink(ino),
{
    let r = fs.try_add_group(name).0;
    if r != fs && fs.groups.has_group(ino) {
        assert(r.groups.groups[GroupsModel::slot(ino)] == fs.groups.groups[GroupsModel::slot(
            ino,
        )]);
    }
}

/// An identifier, once given, stays what it was when a project is added: it
/// has its attributes still, and where it is a link it leads where it led.
pub proof fn lemma_add_project_keeps_entities(
    fs: FsModel,
    name: Seq<char>,
    path: Seq<char>,
    handles: Seq<u64>,
    aliases: Seq<Seq<char>>,
    ino: u64,
)
    requires
        fs.wf(),
    ensures
        same_entity(
            fs.getattr(ino),
            fs.try_add_project(name, path, handles, aliases).0.getattr(ino),
        ),
        fs.readlink(ino) is Some ==> fs.try_add_project(name, path, handles, aliases).0.readlink(
            ino,
        ) == fs.readlink(ino),
{
    let r = fs.try_add_project(name, path, handles, aliases).0;
    if r != fs {
        lemma_added(fs.projects, name, path, handles, aliases);
        lemma_enrolled(
            fs.groups,
            handles,
            with_aliases(name, aliases),
            ProjectsModel::ino_at(fs.projects.projects.len() as int),
        );
        if fs.projects.has_project(ino) {
            assert(r.projects.readlink(ino) == fs.projects.readlink(ino));
        }
    }
}

/// An identifier, once given, stays what it was when a mirror is added: it
/// has its attributes still, and where it is a link it leads where it led.
pub proof fn lemma_add_mirror_keeps_entities(
    fs: FsModel,
    name: Seq<char>,
    base: Seq<char>,
    rule: Rule,
    aliases: Seq<Seq<char>>,
    ino: u64,
)
    requires
        fs.wf(),
    ensures
        same_entity(fs.getattr(ino), fs.try_add_mirror(name, base, rule, aliases).0.getattr(ino)),
        fs.try_add_mirror(name, base, rule, aliases).0.readlink(ino) == fs.readlink(ino),
{
    let r = fs.try_add_mirror(name, base, rule, aliases).0;
    if r != fs {
        crate::mirrors::lemma_mirror_added(fs.mirrors, name, base, rule, aliases);
        if fs.mirrors.attr(ino) is Some {
            assert(r.mirrors.attr(ino) is Some);
        }
        assert(r.mirrors.readlink(ino) == fs.mirrors.readlink(ino));
    }
}

/// The filesystem: the three indexes under one root.
pub struct FileSystem {
    groups: Groups,
    projects: Projects,
    mirrors: Mirrors,
}

impl View for FileSystem {
    type V = FsModel;

    closed spec fn view(&self) -> FsModel {
        FsModel { groups: self.groups@, projects: self.projects@, mirrors: self.mirrors@ }
    }
}

impl FileSystem {
    /// Each index agrees with its counters.
    pub closed spec fn inv(&self) -> bool {
        &&& self.groups.inv()
        &&& self.projects.inv()
        &&& self.mirrors.inv()
    }

    /// The filesystem is well formed.
    pub open spec fn wf(&self) -> bool {
        self@.wf() && self.inv()
    }

    /// A filesystem without groups, projects and mirrors.
    pub fn new() -> (fs: FileSystem)
        ensures
            fs.wf(),
            fs@.groups.groups.len() == 0,
            fs@.groups.names.len() == 0,
            fs@.projects.projects.len() == 0,
            fs@.projects.names.len() == 0,
            fs@.mirrors.mirrors.len() == 0,
            fs@.mirrors.names.len() == 0,
    {
        FileSystem { groups: Groups::new(), projects: Projects::new(), mirrors: Mirrors::new() }
    }

    /// Adds a group without members and returns its handle, the group's
    /// identifier.
    ///
    /// Refused, with the filesystem unchanged, where no identifier is left,
    /// and else where a group of that name exists.
    pub fn add_group(&mut self, name: String) -> (added: Result<u64, ConfigError>)
        requires
            old(self).wf(),
        ensures
            final(self).wf(),
            (final(self)@, added) == old(self)@.try_add_group(name@),
    {
        let added = self.groups.add_group(name, NameTable::new());
        proof {
            if added is Ok {
                lemma_added_group(old(self)@, name@);
            }
        }
        added
    }

    /// Adds a project with the real path `path` under `name` and `aliases`,
    /// lists it in each group of `groups` under all these names, and returns
    /// its identifier.
    ///
    /// Refused, with the filesystem unchanged: where one of `groups` is no
    /// group; else where no identifier is left; else where one of the names
    /// is taken or given twice.
    pub fn add_project(
        &mut self,
        name: String,
        path: String,
        groups: &Vec<u64>,
        aliases: &Vec<String>,
    ) -> (added: Result<u64, ConfigError>)
        requires
            old(self).wf(),
        ensures
            final(self).wf(),
            (final(self)@, added) == old(self)@.try_add_project(
                name@,
                path@,
                groups@,
                aliases.deep_view(),
            ),
    {
        let mut j: usize = 0;
        while j < groups.len()
            invariant
                j <= groups@.len(),
                *self == *old(self),
                self.wf(),
                forall|i: int| 0 <= i < j ==> self.groups@.has_group(#[trigger] groups@[i]),
            decreases groups@.len() - j,
        {
            if !self.groups.has_group(groups[j]) {
                return Err(ConfigError::UnknownGroup);
            }
            j = j + 1;
        }
        let ghost names = with_aliases(name@, aliases.deep_view());
        let ino: u64 = match self.projects.add_project(name.clone(), path, groups, aliases) {
            Ok(ino) => ino,
            Err(e) => {
                return Err(e);
            },
        };
        proof {
            lemma_added_project(old(self)@, name@, path@, groups@, aliases.deep_view());
        }
        let mut j: usize = 0;
        assert(groups@.take(0) =~= Seq::<u64>::empty());
        while j < groups.len()
            invariant
                j <= groups@.len(),
                names == with_aliases(name@, aliases.deep_view()),
                old(self)@.groups.wf(),
                all_groups(old(self)@.groups, groups@),
                self.groups.wf(),
                self.groups@ == enrolled(old(self)@.groups, groups@.take(j as int), names, ino),
                self.projects.wf(),
                self.projects@ == old(self)@.projects.added(
                    name@,
                    path@,
                    groups@,
                    aliases.deep_view(),
                ),
                self.mirrors == old(self).mirrors,
            decreases groups@.len() - j,
        {
            let ghost before = self.groups@;
            proof {
                assert(groups@.take(j + 1).drop_last() =~= groups@.take(j as int));
                assert(groups@.take(j + 1).last() == groups@[j as int]);
                assert(all_groups(old(self)@.groups, groups@.take(j as int))) by {
                    assert forall|i: int| 0 <= i < groups@.take(j as int).len() implies old(
                        self,
                    )@.groups.has_group(#[trigger] groups@.take(j as int)[i]) by {
                        assert(groups@.take(j as int)[i] == groups@[i]);
                    }
                }
                lemma_enrolled(old(self)@.groups, groups@.take(j as int), names, ino);
                assert(old(self)@.groups.has_group(groups@[j as int]));
            }
            match self.groups.get_group(groups[j]) {
                Some(group) => {
                    group.enroll(name.as_str(), aliases, ino);
                },
                None => {},
            }
            proof {
                let k = GroupsModel::slot(groups@[j as int]);
                crate::groups::lemma_with_group(
                    before,
                    k,
                    GroupModel {
                        members: put_all(before.groups[k].members, names, ino),
                        ..before.groups[k]
                    },
                );
                lemma_put_all(before.groups[k].members, names, ino);
            }
            j = j + 1;
        }
        assert(groups@.take(j as int) =~= groups@);
        Ok(ino)
    }

    /// Adds a mirror of the directory `path` under `name` and `aliases`,
    /// whose entries are renamed by `renaming`, and returns its identifier.
    ///
    /// Refused, with the filesystem unchanged, where no identifier is left,
    /// and else where one of the names is taken or given twice.
    pub fn add_mirror(
        &mut self,
        name: String,
        path: String,
        renaming: RenamingRule,
        aliases: &Vec<String>,
    ) -> (added: Result<u64, ConfigError>)
        requires
            old(self).wf(),
        ensures
            final(self).wf(),
            (final(self)@, added) == old(self)@.try_add_mirror(
                name@,
                path@,
                renaming@,
                aliases.deep_view(),
            ),
    {
        self.mirrors.add_mirror(name, path, renaming, aliases)
    }

    /// The identifier of the group named `name`.
    pub fn group_handle(&self, name: &str) -> (ino: Option<u64>)
        requires
            self.wf(),
        ensures
            ino == lookup(self@.groups.names, name@),
    {
        self.groups.handle(name)
    }

    /// The attributes of `ino`, or `None` where there is no such entry.
    pub fn getattr(&self, ino: u64) -> (attr: Option<Attr>)
        requires
            self.wf(),
        ensures
            attr == self@.getattr(ino),
    {
        match Namespace::of(ino) {
            Some(Namespace::Root) => Some(
                Attr {
                    ino: ROOT_INO,
                    size: 0,
                    blocks: 0,
                    atime: 0,
                    mtime: 0,
                    ctime: 0,
                    crtime: 0,
                    kind: FileKind::Directory,
                    perm: crate::node::PERM,
                    nlink: ROOT_LINKS,
                    uid: 0,
                    gid: 0,
                    rdev: 0,
                    blksize: 0,
                    flags: 0,
                },
            ),
            Some(Namespace::Mirrors) => self.mirrors.getattr(ino),
            Some(Namespace::MirrorEntries) => self.mirrors.getattr(ino),
            Some(Namespace::Projects) => self.projects.getattr(ino),
            Some(Namespace::Groups) => self.groups.getattr(ino),
            None => None,
        }
    }

    /// The attributes of the entry `name` of the directory `parent`, or
    /// `None` where the directory has no such entry.
    pub fn lookup(&self, parent: u64, name: &str) -> (attr: Option<Attr>)
        requires
            self.wf(),
        ensures
            attr == self@.lookup(parent, name@),
    {
        match Namespace::of(parent) {
            Some(Namespace::Root) => {
                if name.eq(mirrors::STR) {
                    self.mirrors.lookup(parent, name)
                } else if name.eq(projects::STR) {
                    self.projects.lookup(parent, name)
                } else if name.eq(groups::STR) {
                    self.in_groups(parent, name)
                } else {
                    None
                }
            },
            Some(Namespace::Mirrors) => self.mirrors.lookup(parent, name),
            Some(Namespace::MirrorEntries) => None,
            Some(Namespace::Projects) => self.projects.lookup(parent, name),
            Some(Namespace::Groups) => self.in_groups(parent, name),
            None => None,
        }
    }

    /// The lookup of `name` in the group namespace, with its fallback.
    fn in_groups(&self, parent: u64, name: &str) -> (attr: Option<Attr>)
        requires
            self.wf(),
        ensures
            attr == self@.in_groups(parent, name@),
    {
        match self.groups.lookup(parent, name) {
            GroupLookup::Found(attr) => Some(attr),
            GroupLookup::Fallback => self.projects.lookup(projects::INO, name),
            GroupLookup::NotFound => None,
        }
    }

    /// The entries of the directory `ino` from `offset` on, each with the
    /// offset at which the listing resumes after it; `None` where `ino` is no
    /// directory. This reads the mirrors as they stand: the scan of a mirror,
    /// where one is due, comes before (see [`FileSystem::scan_step`]).
    pub fn readdir(&self, ino: u64, offset: usize) -> (lines: Option<Vec<DirEntry>>)
        requires
            self.wf(),
        ensures
            lines.deep_view() == self@.readdir(ino, offset as nat),
    {
        match Namespace::of(ino) {
            Some(Namespace::Root) => Some(root_entries(offset)),
            Some(Namespace::Mirrors) => self.mirrors.readdir(ino, offset),
            Some(Namespace::MirrorEntries) => None,
            Some(Namespace::Projects) => self.projects.readdir(ino, offset),
            Some(Namespace::Groups) => self.groups.readdir(ino, offset),
            None => None,
        }
    }

    /// The real path that the link `ino` leads to, or `None` where `ino` is
    /// no link.
    pub fn readlink(&self, ino: u64) -> (target: Option<String>)
        requires
            self.wf(),
        ensures
            target.deep_view() == self@.readlink(ino),
    {
        match Namespace::of(ino) {
            Some(Namespace::MirrorEntries) => self.mirrors.readlink(ino),
            Some(Namespace::Projects) => self.projects.readlink(ino),
            _ => None,
        }
    }

    /// The directory that a scan of `ino` reads: the backing directory of
    /// the mirror `ino`.
    pub fn scan_base(&self, ino: u64) -> (path: Option<&str>)
        requires
            self.wf(),
        ensures
            path.deep_view() == self@.mirrors.base(ino),
    {
        self.mirrors.base(ino)
    }

    /// One step of the scan that comes before a listing: takes what the
    /// driver reports of the directory `ino` at the time `now`, in
    /// nanoseconds since the epoch, and says what the driver is to do next.
    pub fn scan_step(&mut self, ino: u64, now: u128, event: ScanEvent) -> (action: ScanAction)
        requires
            old(self).wf(),
        ensures
            final(self).wf(),
            (final(self)@, action) == old(self)@.step(ino, now, event.deep_view()),
    {
        self.mirrors.scan_step(ino, now, event)
    }
}

/// The entries of the root directory from `offset` on.
fn root_entries(offset: usize) -> (lines: Vec<DirEntry>)
    ensures
        lines.deep_view() == page(listing(root_names(), FileKind::Directory), offset as nat),
{
    let ghost full = listing(root_names(), FileKind::Directory);
    let mut lines: Vec<DirEntry> = Vec::new();
    if offset > 3 {
        assert(lines.deep_view() =~= page(full, offset as nat));
        return lines;
    }
    let mut i: usize = offset;
    while i < 3
        invariant
            offset <= i <= 3,
            full == listing(root_names(), FileKind::Directory),
            lines.deep_view() == full.subrange(offset as int, i as int),
        decreases 3 - i,
    {
        let line = if i == 0 {
            DirEntry {
                ino: groups::INO,
                offset: i + 1,
                kind: FileKind::Directory,
                name: groups::STR.to_owned(),
            }
        } else if i == 1 {
            DirEntry {
                ino: projects::INO,
                offset: i + 1,
                kind: FileKind::Directory,
                name: projects::STR.to_owned(),
            }
        } else {
            DirEntry {
                ino: mirrors::INO,
                offset: i + 1,
                kind: FileKind::Directory,
                name: mirrors::STR.to_owned(),
            }
        };
        let ghost before = lines.deep_view();
        let ghost added = line.deep_view();
        assert(added == full[i as int]);
        lines.push(line);
        assert(lines.deep_view() =~= before.push(added));
        i = i + 1;
        assert(lines.deep_view() =~= full.subrange(offset as int, i as int));
    }
    assert(lines.deep_view() =~= page(full, offset as nat));
    lines
}

} // verus!
