//! The flat project index: every project under its name and under each of
//! its aliases, all of them links to the project's real path.

use vstd::prelude::*;
use crate::error::ConfigError;
use crate::ids::{IdAllocator, Namespace, PROJECTS_BASE, ROOT_INO};
use crate::names::{
    NameTable, Table, copy_ids, copy_names, distinct, extended, has_name, index_of, lemma_extended,
    lookup, vacant, with_aliases,
};
use crate::node::{Attr, DirEntry, FileKind, Line, listing, page};

verus! {

/// The identifier of the directory that lists the projects.
pub const INO: u64 = PROJECTS_BASE;

/// The name of that directory under the root.
pub const STR: &'static str = "by-name";

/// The mathematical form of one project.
pub struct ProjectModel {
    /// The canonical name.
    pub name: Seq<char>,
    /// The real path.
    pub path: Seq<char>,
    /// The identifiers of the groups the project belongs to.
    pub groups: Seq<u64>,
    /// The other names of the project.
    pub aliases: Seq<Seq<char>>,
}

/// The mathematical form of the project index.
pub struct ProjectsModel {
    /// Every name and alias, each with its project's identifier.
    pub names: Table<u64>,
    /// The projects; project `k` has the identifier `INO + k + 1`.
    pub projects: Seq<ProjectModel>,
}

impl ProjectsModel {
    /// `ino` is the identifier of a project.
    pub open spec fn has_project(self, ino: u64) -> bool {
        INO < ino <= INO + self.projects.len()
    }

    /// The place of project `ino` among the projects.
    pub open spec fn slot(ino: u64) -> int {
        ino - INO - 1
    }

    /// The identifier of the project in place `k`.
    pub open spec fn ino_at(k: int) -> u64 {
        (INO + k + 1) as u64
    }

    /// No project can be added: the identifiers are used up.
    pub open spec fn full(self) -> bool {
        INO + self.projects.len() >= Namespace::Projects.last()
    }

    /// The invariant of the index. No name occurs twice; every name stands
    /// for a project; and every project is found under its name and under
    /// each of its aliases.
    pub open spec fn wf(self) -> bool {
        &&& distinct(self.names)
        &&& forall|i: int|
            0 <= i < self.names.len() ==> self.has_project((#[trigger] self.names[i]).1)
        &&& INO + self.projects.len() <= Namespace::Projects.last()
        &&& forall|k: int|
            0 <= k < self.projects.len() ==> lookup(self.names, (#[trigger] self.projects[k]).name)
                == Some(Self::ino_at(k))
        &&& forall|k: int, a: int|
            0 <= k < self.projects.len() && 0 <= a < self.projects[k].aliases.len() ==> lookup(
                self.names,
                #[trigger] self.projects[k].aliases[a],
            ) == Some(Self::ino_at(k))
    }

    /// The identifier that `name` stands for.
    pub open spec fn lookup_by_name(self, name: Seq<char>) -> Option<u64> {
        lookup(self.names, name)
    }

    /// The attributes of `ino`: those of a directory for the index, those of
    /// a symbolic link for a project.
    pub open spec fn attr(self, ino: u64) -> Option<Attr> {
        if ino == INO {
            Some(Attr::of_directory(ino, self.names.len()))
        } else if self.has_project(ino) {
            Some(Attr::of_symlink(ino))
        } else {
            None
        }
    }

    /// The attributes of the entry `name` of the directory `parent`. Under
    /// the root the one entry is the index itself, whatever `name` is: the
    /// caller has matched the name. A project is no directory and has no
    /// entries.
    pub open spec fn lookup(self, parent: u64, name: Seq<char>) -> Option<Attr> {
        if parent == ROOT_INO {
            self.attr(INO)
        } else if parent == INO {
            match lookup(self.names, name) {
                Some(ino) => Some(Attr::of_symlink(ino)),
                None => None,
            }
        } else {
            None
        }
    }

    /// The full listing of the index.
    pub open spec fn list(self) -> Seq<Line> {
        listing(self.names, FileKind::Symlink)
    }

    /// The answer to a request for the listing of `ino` at `offset`.
    pub open spec fn readdir(self, ino: u64, offset: nat) -> Option<Seq<Line>> {
        if ino == INO {
            Some(page(self.list(), offset))
        } else {
            None
        }
    }

    /// The real path that the project `ino` links to.
    pub open spec fn readlink(self, ino: u64) -> Option<Seq<char>> {
        if self.has_project(ino) {
            Some(self.projects[Self::slot(ino)].path)
        } else {
            None
        }
    }

    /// The index after a project was added.
    pub open spec fn added(
        self,
        name: Seq<char>,
        path: Seq<char>,
        groups: Seq<u64>,
        aliases: Seq<Seq<char>>,
    ) -> ProjectsModel {
        ProjectsModel {
            names: extended(
                self.names,
                with_aliases(name, aliases),
                Self::ino_at(self.projects.len() as int),
            ),
            projects: self.projects.push(ProjectModel { name, path, groups, aliases }),
        }
    }

    /// The index after the project `ino` was given one more alias.
    pub open spec fn with_alias(self, name: Seq<char>, ino: u64) -> ProjectsModel {
        let k = Self::slot(ino);
        ProjectsModel {
            names: extended(self.names, seq![name], ino),
            projects: self.projects.update(
                k,
                ProjectModel { aliases: self.projects[k].aliases.push(name), ..self.projects[k] },
            ),
        }
    }
}

/// A project is found under its canonical name and under each of its
/// aliases: they all stand for the project's one identifier, and that
/// identifier links to the project's one real path.
pub proof fn lemma_names_resolve(m: ProjectsModel, k: int, name: Seq<char>)
    requires
        m.wf(),
        0 <= k < m.projects.len(),
        name == m.projects[k].name || m.projects[k].aliases.contains(name),
    ensures
        m.lookup_by_name(name) == Some(ProjectsModel::ino_at(k)),
        m.lookup(INO, name) == Some(Attr::of_symlink(ProjectsModel::ino_at(k))),
        m.readlink(ProjectsModel::ino_at(k)) == Some(m.projects[k].path),
{
    if name != m.projects[k].name {
        let a = choose|a: int|
            0 <= a < m.projects[k].aliases.len() && m.projects[k].aliases[a] == name;
        assert(lookup(m.names, m.projects[k].aliases[a]) == Some(ProjectsModel::ino_at(k)));
    }
}

/// Whatever a name stands for is a project, and so has attributes and a
/// real path.
pub proof fn lemma_lookup_is_project(m: ProjectsModel, name: Seq<char>)
    requires
        m.wf(),
        m.lookup_by_name(name) is Some,
    ensures
        m.has_project(m.lookup_by_name(name).unwrap()),
        m.attr(m.lookup_by_name(name).unwrap()) == Some(
            Attr::of_symlink(m.lookup_by_name(name).unwrap()),
        ),
        m.readlink(m.lookup_by_name(name).unwrap()) is Some,
{
    let i = index_of(m.names, name);
    assert(m.has_project(m.names[i].1));
}

/// Adding a project keeps the invariant, and the new project is found under
/// its name and each of its aliases.
pub proof fn lemma_added(
    m: ProjectsModel,
    name: Seq<char>,
    path: Seq<char>,
    groups: Seq<u64>,
    aliases: Seq<Seq<char>>,
)
    requires
        m.wf(),
        !m.full(),
        vacant(m.names, with_aliases(name, aliases)),
    ensures
        m.added(name, path, groups, aliases).wf(),
        forall|n: Seq<char>| #[trigger]
            m.added(name, path, groups, aliases).lookup_by_name(n) == if n == name
                || aliases.contains(n) {
                Some(ProjectsModel::ino_at(m.projects.len() as int))
            } else {
                m.lookup_by_name(n)
            },
        m.added(name, path, groups, aliases).readlink(
            ProjectsModel::ino_at(m.projects.len() as int),
        ) == Some(path),
        forall|ino: u64|
            m.has_project(ino) ==> #[trigger] m.added(name, path, groups, aliases).readlink(ino)
                == m.readlink(ino),
{
    let all = with_aliases(name, aliases);
    let id = ProjectsModel::ino_at(m.projects.len() as int);
    let r = m.added(name, path, groups, aliases);
    lemma_extended(m.names, all, id);
    assert forall|n: Seq<char>| all.contains(n) == (n == name || aliases.contains(n)) by {
        if all.contains(n) {
            let i = choose|i: int| 0 <= i < all.len() && all[i] == n;
            if i > 0 {
                assert(aliases[i - 1] == n);
            }
        }
        if n == name {
            assert(all[0] == n);
        }
        if aliases.contains(n) {
            let i = choose|i: int| 0 <= i < aliases.len() && aliases[i] == n;
            assert(all[i + 1] == n);
        }
    }
    assert forall|i: int| 0 <= i < r.names.len() implies r.has_project(
        (#[trigger] r.names[i]).1,
    ) by {
        if i < m.names.len() {
            assert(r.names[i] == m.names[i]);
            assert(m.has_project(m.names[i].1));
        }
    }
    assert forall|k: int| 0 <= k < r.projects.len() implies lookup(
        r.names,
        (#[trigger] r.projects[k]).name,
    ) == Some(ProjectsModel::ino_at(k)) by {
        if k < m.projects.len() {
            lemma_old_name_stays(m, all, m.projects[k].name);
        } else {
            assert(all.contains(name));
        }
    }
    assert forall|k: int, a: int|
        0 <= k < r.projects.len() && 0 <= a < r.projects[k].aliases.len() implies lookup(
        r.names,
        #[trigger] r.projects[k].aliases[a],
    ) == Some(ProjectsModel::ino_at(k)) by {
        if k < m.projects.len() {
            assert(r.projects[k] == m.projects[k]);
            assert(lookup(m.names, m.projects[k].aliases[a]) == Some(ProjectsModel::ino_at(k)));
            lemma_old_name_stays(m, all, m.projects[k].aliases[a]);
        } else {
            assert(aliases.contains(aliases[a]));
        }
    }
}

/// A name that the table has is none of the names that can be added.
proof fn lemma_old_name_stays(m: ProjectsModel, all: Seq<Seq<char>>, n: Seq<char>)
    requires
        vacant(m.names, all),
        has_name(m.names, n),
    ensures
        !all.contains(n),
{
    if all.contains(n) {
        let i = choose|i: int| 0 <= i < all.len() && all[i] == n;
        assert(!has_name(m.names, all[i]));
    }
}

/// Giving a project one more alias keeps the invariant.
pub proof fn lemma_with_alias(m: ProjectsModel, name: Seq<char>, ino: u64)
    requires
        m.wf(),
        m.has_project(ino),
        !has_name(m.names, name),
    ensures
        m.with_alias(name, ino).wf(),
        m.with_alias(name, ino).lookup_by_name(name) == Some(ino),
{
    let all = seq![name];
    let r = m.with_alias(name, ino);
    let s = ProjectsModel::slot(ino);
    assert(all[0] == name);
    assert(vacant(m.names, all));
    lemma_extended(m.names, all, ino);
    assert(all.contains(name));
    assert forall|i: int| 0 <= i < r.names.len() implies r.has_project(
        (#[trigger] r.names[i]).1,
    ) by {
        if i < m.names.len() {
            assert(r.names[i] == m.names[i]);
            assert(m.has_project(m.names[i].1));
        }
    }
    assert forall|k: int| 0 <= k < r.projects.len() implies lookup(
        r.names,
        (#[trigger] r.projects[k]).name,
    ) == Some(ProjectsModel::ino_at(k)) by {
        assert(r.projects[k].name == m.projects[k].name);
        lemma_old_name_stays(m, all, m.projects[k].name);
    }
    assert forall|k: int, a: int|
        0 <= k < r.projects.len() && 0 <= a < r.projects[k].aliases.len() implies lookup(
        r.names,
        #[trigger] r.projects[k].aliases[a],
    ) == Some(ProjectsModel::ino_at(k)) by {
        if k == s && a == m.projects[k].aliases.len() {
            assert(r.projects[k].aliases[a] == name);
        } else {
            assert(r.projects[k].aliases[a] == m.projects[k].aliases[a]);
            assert(lookup(m.names, m.projects[k].aliases[a]) == Some(ProjectsModel::ino_at(k)));
            lemma_old_name_stays(m, all, m.projects[k].aliases[a]);
        }
    }
}

/// One project.
struct Project {
    name: String,
    path: String,
    groups: Vec<u64>,
    aliases: Vec<String>,
}

impl DeepView for Project {
    type V = ProjectModel;

    closed spec fn deep_view(&self) -> ProjectModel {
        ProjectModel {
            name: self.name@,
            path: self.path@,
            groups: self.groups@,
            aliases: self.aliases.deep_view(),
        }
    }
}

/// The flat project index.
pub struct Projects {
    ino: IdAllocator,
    by_name: NameTable,
    by_ino: Vec<Project>,
}

impl View for Projects {
    type V = ProjectsModel;

    closed spec fn view(&self) -> ProjectsModel {
        ProjectsModel { names: self.by_name@, projects: self.by_ino.deep_view() }
    }
}

impl Projects {
    /// The counter agrees with what is stored.
    pub closed spec fn inv(&self) -> bool {
        &&& self.by_name.wf()
        &&& self.ino.wf()
        &&& self.ino.space() == Namespace::Projects
        &&& self.ino.issued() == INO + self.by_ino@.len()
    }

    /// The index is well formed.
    pub open spec fn wf(&self) -> bool {
        self@.wf() && self.inv()
    }

    /// An index without projects.
    pub fn new() -> (p: Projects)
        ensures
            p.wf(),
            p@.names.len() == 0,
            p@.projects.len() == 0,
    {
        let p = Projects {
            ino: IdAllocator::new(Namespace::Projects),
            by_name: NameTable::new(),
            by_ino: Vec::new(),
        };
        assert(p.by_ino.deep_view() =~= Seq::<ProjectModel>::empty());
        p
    }

    /// Adds a project with the real path `path` under `name` and `aliases`,
    /// and returns its identifier.
    ///
    /// Refused, with the index unchanged, where no identifier is left, and
    /// else where one of the names is taken or given twice.
    pub fn add_project(
        &mut self,
        name: String,
        path: String,
        groups: &Vec<u64>,
        aliases: &Vec<String>,
    ) -> (added: Result<u64, ConfigError>)
        requires
            old(self).wf(),
        ensures
            final(self).wf(),
            match added {
                Ok(ino) => {
                    &&& !old(self)@.full()
                    &&& vacant(old(self)@.names, with_aliases(name@, aliases.deep_view()))
                    &&& ino == ProjectsModel::ino_at(old(self)@.projects.len() as int)
                    &&& final(self)@ == old(self)@.added(name@, path@, groups@, aliases.deep_view())
                },
                Err(e) => {
                    &&& final(self)@ == old(self)@
                    &&& if old(self)@.full() {
                        e == ConfigError::Exhausted
                    } else {
                        &&& e == ConfigError::DuplicateProject
                        &&& !vacant(old(self)@.names, with_aliases(name@, aliases.deep_view()))
                    }
                },
            },
    {
        if self.ino.left() == 0 {
            return Err(ConfigError::Exhausted);
        }
        if !self.by_name.admits(name.as_str(), aliases) {
            return Err(ConfigError::DuplicateProject);
        }
        let ino: u64 = match self.ino.allocate() {
            Some(ino) => ino,
            None => {
                return Err(ConfigError::Exhausted);
            },
        };
        proof {
            lemma_added(self@, name@, path@, groups@, aliases.deep_view());
        }
        let project = Project {
            name: name.clone(),
            path,
            groups: copy_ids(groups),
            aliases: copy_names(aliases),
        };
        self.by_name.extend(name, aliases, ino);
        let ghost before = self.by_ino.deep_view();
        let ghost pushed = project.deep_view();
        self.by_ino.push(project);
        assert(self.by_ino.deep_view() =~= before.push(pushed));
        Ok(ino)
    }

    /// Gives the project `ino` one more alias.
    ///
    /// Refused, with the index unchanged, where `ino` is no project, and
    /// else where the name is taken.
    pub fn add_alias(&mut self, name: String, ino: u64) -> (added: Result<(), ConfigError>)
        requires
            old(self).wf(),
        ensures
            final(self).wf(),
            match added {
                Ok(_) => {
                    &&& old(self)@.has_project(ino)
                    &&& !has_name(old(self)@.names, name@)
                    &&& final(self)@ == old(self)@.with_alias(name@, ino)
                },
                Err(e) => {
                    &&& final(self)@ == old(self)@
                    &&& if !old(self)@.has_project(ino) {
                        e == ConfigError::UnknownProject
                    } else {
                        e == ConfigError::DuplicateProject && has_name(old(self)@.names, name@)
                    }
                },
            },
    {
        let k: usize = match self.slot_of(ino) {
            Some(k) => k,
            None => {
                return Err(ConfigError::UnknownProject);
            },
        };
        if self.by_name.get(name.as_str()).is_some() {
            return Err(ConfigError::DuplicateProject);
        }
        proof {
            lemma_with_alias(self@, name@, ino);
        }
        let none: Vec<String> = Vec::new();
        assert(with_aliases(name@, none.deep_view()) =~= seq![name@]);
        assert(seq![name@][0] == name@);
        let ghost aliases = self.by_ino.deep_view()[k as int].aliases;
        self.by_ino[k].aliases.push(name.clone());
        assert(self.by_ino[k as int].aliases.deep_view() =~= aliases.push(name@));
        assert(self.by_ino.deep_view() =~= old(self).by_ino.deep_view().update(
            k as int,
            ProjectModel { aliases: aliases.push(name@), ..old(self).by_ino.deep_view()[k as int] },
        ));
        self.by_name.extend(name, &none, ino);
        Ok(())
    }

    /// The place of the project `ino` among the projects, if it is one.
    fn slot_of(&self, ino: u64) -> (at: Option<usize>)
        requires
            self.wf(),
        ensures
            match at {
                Some(k) => self@.has_project(ino) && k == ProjectsModel::slot(ino) && k
                    < self.by_ino@.len(),
                None => !self@.has_project(ino),
            },
    {
        let count: usize = self.by_ino.len();
        assert(self@.projects.len() == count);
        if ino > INO && ino <= self.ino.last() {
            assert(ino - INO - 1 < count);
            Some((ino - INO - 1) as usize)
        } else {
            None
        }
    }

    /// The identifier that `name` stands for, be it a name or an alias.
    pub fn lookup_by_name(&self, name: &str) -> (ino: Option<u64>)
        requires
            self.wf(),
        ensures
            ino == self@.lookup_by_name(name@),
    {
        self.by_name.get(name)
    }

    /// The attributes of `ino`, or `None` where `ino` is neither the index
    /// nor a project.
    pub fn getattr(&self, ino: u64) -> (attr: Option<Attr>)
        requires
            self.wf(),
        ensures
            attr == self@.attr(ino),
    {
        self.attr(ino)
    }

    /// The attributes of the entry `name` of the directory `parent`.
    pub fn lookup(&self, parent: u64, name: &str) -> (attr: Option<Attr>)
        requires
            self.wf(),
        ensures
            attr == self@.lookup(parent, name@),
    {
        if parent == ROOT_INO {
            self.attr(INO)
        } else if parent == INO {
            match self.by_name.get(name) {
                Some(ino) => Some(Attr::symlink(ino)),
                None => None,
            }
        } else {
            None
        }
    }

    /// The entries of the index from `offset` on, or `None` where `ino` is
    /// not the index.
    pub fn readdir(&self, ino: u64, offset: usize) -> (lines: Option<Vec<DirEntry>>)
        requires
            self.wf(),
        ensures
            lines.deep_view() == self@.readdir(ino, offset as nat),
    {
        if ino == INO {
            Some(self.by_name.list(offset, FileKind::Symlink))
        } else {
            None
        }
    }

    /// The real path that the project `ino` links to, or `None` where `ino`
    /// is no project.
    pub fn readlink(&self, ino: u64) -> (target: Option<String>)
        requires
            self.wf(),
        ensures
            target.deep_view() == self@.readlink(ino),
    {
        match self.slot_of(ino) {
            Some(k) => Some(self.by_ino[k].path.clone()),
            None => None,
        }
    }

    /// The attributes of `ino`.
    fn attr(&self, ino: u64) -> (attr: Option<Attr>)
        requires
            self.wf(),
        ensures
            attr == self@.attr(ino),
    {
        if ino == INO {
            Some(Attr::directory(ino, self.by_name.len()))
        } else if self.slot_of(ino).is_some() {
            Some(Attr::symlink(ino))
        } else {
            None
        }
    }
}

} // verus!
