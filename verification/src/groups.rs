//! The group index: named categories, each a directory of links to its
//! member projects. A member is listed under the project's own identifier,
//! so that a project reached through a group is the project reached by its
//! flat name.

use vstd::prelude::*;
use crate::error::ConfigError;
use crate::ids::{GROUPS_BASE, IdAllocator, Namespace, ROOT_INO};
use crate::names::{
    NameTable, Table, distinct, has_name, lemma_put, lookup, put, put_all, with_aliases,
};
use crate::node::{Attr, DirEntry, FileKind, Line, listing, page};

verus! {

/// The identifier of the directory that lists the groups.
pub const INO: u64 = GROUPS_BASE;

/// The name of that directory under the root.
pub const STR: &'static str = "by-group";

/// The mathematical form of one group.
pub struct GroupModel {
    /// The name of the group.
    pub name: Seq<char>,
    /// The members: names and aliases of projects, each with its project's
    /// identifier.
    pub members: Table<u64>,
}

/// The mathematical form of the group index.
pub struct GroupsModel {
    /// The names of the groups, each with its group's identifier.
    pub names: Table<u64>,
    /// The groups; group `k` has the identifier `INO + k + 1`.
    pub groups: Seq<GroupModel>,
}

/// What the group index answers to a lookup.
#[derive(Clone, Copy, PartialEq, Eq, Structural, Debug)]
pub enum GroupLookup {
    /// The entry exists and has these attributes.
    Found(Attr),
    /// The directory is a group and has no such member: the flat project
    /// index is to be asked for the name.
    Fallback,
    /// There is no such entry.
    NotFound,
}

impl GroupsModel {
    /// `ino` is the identifier of a group.
    pub open spec fn has_group(self, ino: u64) -> bool {
        INO < ino <= INO + self.groups.len()
    }

    /// The place of group `ino` among the groups.
    pub open spec fn slot(ino: u64) -> int {
        ino - INO - 1
    }

    /// The identifier of the group in place `k`.
    pub open spec fn ino_at(k: int) -> u64 {
        (INO + k + 1) as u64
    }

    /// No group can be added: the identifiers are used up.
    pub open spec fn full(self) -> bool {
        INO + self.groups.len() >= Namespace::Groups.last()
    }

    /// The invariant of the index. Each group is listed once, under its name
    /// and its identifier, and no group has a member name twice.
    pub open spec fn wf(self) -> bool {
        &&& distinct(self.names)
        &&& self.names.len() == self.groups.len()
        &&& INO + self.groups.len() <= Namespace::Groups.last()
        &&& forall|k: int|
            0 <= k < self.groups.len() ==> {
                &&& self.names[k] == ((#[trigger] self.groups[k]).name, Self::ino_at(k))
                &&& distinct(self.groups[k].members)
            }
    }

    /// The attributes of `ino`: those of a directory, for the index and for
    /// each group.
    pub open spec fn attr(self, ino: u64) -> Option<Attr> {
        if ino == INO {
            Some(Attr::of_directory(ino, self.names.len()))
        } else if self.has_group(ino) {
            Some(Attr::of_directory(ino, self.groups[Self::slot(ino)].members.len()))
        } else {
            None
        }
    }

    /// The answer to a lookup of the entry `name` of the directory `parent`.
    /// Under the root the one entry is the index itself, whatever `name` is:
    /// the caller has matched the name.
    pub open spec fn lookup(self, parent: u64, name: Seq<char>) -> GroupLookup {
        if parent == ROOT_INO {
            GroupLookup::Found(Attr::of_directory(INO, self.names.len()))
        } else if parent == INO {
            match lookup(self.names, name) {
                Some(ino) => GroupLookup::Found(
                    Attr::of_directory(ino, self.groups[Self::slot(ino)].members.len()),
                ),
                None => GroupLookup::NotFound,
            }
        } else if self.has_group(parent) {
            match lookup(self.groups[Self::slot(parent)].members, name) {
                Some(ino) => GroupLookup::Found(Attr::of_symlink(ino)),
                None => GroupLookup::Fallback,
            }
        } else {
            GroupLookup::NotFound
        }
    }

    /// The full listing of the directory `ino`.
    pub open spec fn list(self, ino: u64) -> Option<Seq<Line>> {
        if ino == INO {
            Some(listing(self.names, FileKind::Directory))
        } else if self.has_group(ino) {
            Some(listing(self.groups[Self::slot(ino)].members, FileKind::Symlink))
        } else {
            None
        }
    }

    /// The answer to a request for the listing of `ino` at `offset`.
    pub open spec fn readdir(self, ino: u64, offset: nat) -> Option<Seq<Line>> {
        match self.list(ino) {
            Some(full) => Some(page(full, offset)),
            None => None,
        }
    }

    /// The index after a group with the members `members` was added.
    pub open spec fn added(self, name: Seq<char>, members: Table<u64>) -> GroupsModel {
        GroupsModel {
            names: self.names.push((name, Self::ino_at(self.groups.len() as int))),
            groups: self.groups.push(GroupModel { name, members }),
        }
    }

    /// The index after the group in place `k` was replaced by `group`.
    pub open spec fn with_group(self, k: int, group: GroupModel) -> GroupsModel {
        GroupsModel { groups: self.groups.update(k, group), ..self }
    }
}

/// Whatever a name stands for in the index is a group.
pub proof fn lemma_name_is_group(m: GroupsModel, name: Seq<char>)
    requires
        m.wf(),
        has_name(m.names, name),
    ensures
        m.has_group(lookup(m.names, name).unwrap()),
{
    let i = crate::names::index_of(m.names, name);
    assert(m.names[i] == (m.groups[i].name, GroupsModel::ino_at(i)));
}

/// Replacing a group by one of the same name with distinct member names
/// keeps the invariant.
pub proof fn lemma_with_group(m: GroupsModel, k: int, group: GroupModel)
    requires
        m.wf(),
        0 <= k < m.groups.len(),
        group.name == m.groups[k].name,
        distinct(group.members),
    ensures
        m.with_group(k, group).wf(),
{
    let r = m.with_group(k, group);
    assert forall|j: int| 0 <= j < r.groups.len() implies {
        &&& r.names[j] == ((#[trigger] r.groups[j]).name, GroupsModel::ino_at(j))
        &&& distinct(r.groups[j].members)
    } by {
        assert(m.names[j] == (m.groups[j].name, GroupsModel::ino_at(j)));
        if j != k {
            assert(r.groups[j] == m.groups[j]);
        }
    }
}

/// One group.
pub struct Group {
    name: String,
    by_name: NameTable,
}

impl View for Group {
    type V = GroupModel;

    closed spec fn view(&self) -> GroupModel {
        GroupModel { name: self.name@, members: self.by_name@ }
    }
}

impl DeepView for Group {
    type V = GroupModel;

    open spec fn deep_view(&self) -> GroupModel {
        self@
    }
}

impl Group {
    /// The group has no member name twice.
    pub open spec fn wf(&self) -> bool {
        distinct(self@.members)
    }

    /// Lists the project `ino` in the group under `name`. A name that the
    /// group has stands for `ino` from now on.
    pub fn add_project(&mut self, name: String, ino: u64)
        requires
            old(self).wf(),
        ensures
            final(self).wf(),
            final(self)@.name == old(self)@.name,
            final(self)@.members == put(old(self)@.members, name@, ino),
    {
        self.by_name.insert(name, ino);
    }

    /// Lists the project `ino` in the group under the alias `name`. A name
    /// that the group has stands for `ino` from now on.
    pub fn add_alias(&mut self, name: String, ino: u64)
        requires
            old(self).wf(),
        ensures
            final(self).wf(),
            final(self)@.name == old(self)@.name,
            final(self)@.members == put(old(self)@.members, name@, ino),
    {
        self.by_name.insert(name, ino);
    }

    /// Lists the project `ino` in the group under its name and then under
    /// each of its aliases.
    pub fn enroll(&mut self, name: &str, aliases: &Vec<String>, ino: u64)
        requires
            old(self).wf(),
        ensures
            final(self).wf(),
            final(self)@.name == old(self)@.name,
            final(self)@.members == put_all(
                old(self)@.members,
                with_aliases(name@, aliases.deep_view()),
                ino,
            ),
    {
        let ghost all = with_aliases(name@, aliases.deep_view());
        assert(all.take(1).drop_last() =~= Seq::<Seq<char>>::empty());
        assert(all.take(1).last() == name@);
        assert(put_all(self@.members, all.take(1).drop_last(), ino) == self@.members);
        assert(put_all(self@.members, all.take(1), ino) == put(self@.members, name@, ino));
        self.add_project(name.to_owned(), ino);
        let mut i: usize = 0;
        while i < aliases.len()
            invariant
                i <= aliases@.len(),
                all == with_aliases(name@, aliases.deep_view()),
                self.wf(),
                self@.name == old(self)@.name,
                self@.members == put_all(old(self)@.members, all.take(i + 1), ino),
            decreases aliases@.len() - i,
        {
            assert(all.take(i + 2).drop_last() =~= all.take(i + 1));
            assert(all.take(i + 2).last() == aliases[i as int]@);
            self.add_alias(aliases[i].clone(), ino);
            i = i + 1;
        }
        assert(all.take(i + 1) =~= all);
    }
}

/// The group index.
pub struct Groups {
    ino: IdAllocator,
    by_name: NameTable,
    by_ino: Vec<Group>,
}

impl View for Groups {
    type V = GroupsModel;

    closed spec fn view(&self) -> GroupsModel {
        GroupsModel { names: self.by_name@, groups: self.by_ino.deep_view() }
    }
}

impl Groups {
    /// The counter agrees with what is stored.
    pub closed spec fn inv(&self) -> bool {
        &&& self.by_name.wf()
        &&& self.ino.wf()
        &&& self.ino.space() == Namespace::Groups
        &&& self.ino.issued() == INO + self.by_ino@.len()
    }

    /// The index is well formed.
    pub open spec fn wf(&self) -> bool {
        self@.wf() && self.inv()
    }

    /// An index without groups.
    pub fn new() -> (g: Groups)
        ensures
            g.wf(),
            g@.names.len() == 0,
            g@.groups.len() == 0,
    {
        let g = Groups {
            ino: IdAllocator::new(Namespace::Groups),
            by_name: NameTable::new(),
            by_ino: Vec::new(),
        };
        assert(g.by_ino.deep_view() =~= Seq::<GroupModel>::empty());
        g
    }

    /// Adds a group named `name` whose members are the lines of `projects`,
    /// and returns its identifier.
    ///
    /// Refused, with the index unchanged, where no identifier is left, and
    /// else where a group of that name exists.
    pub fn add_group(&mut self, name: String, projects: NameTable) -> (added: Result<
        u64,
        ConfigError,
    >)
        requires
            old(self).wf(),
            projects.wf(),
        ensures
            final(self).wf(),
            match added {
                Ok(ino) => {
                    &&& !old(self)@.full()
                    &&& !has_name(old(self)@.names, name@)
                    &&& ino == GroupsModel::ino_at(old(self)@.groups.len() as int)
                    &&& final(self)@ == old(self)@.added(name@, projects@)
                },
                Err(e) => {
                    &&& final(self)@ == old(self)@
                    &&& if old(self)@.full() {
                        e == ConfigError::Exhausted
                    } else {
                        e == ConfigError::DuplicateGroup && has_name(old(self)@.names, name@)
                    }
                },
            },
    {
        if self.ino.left() == 0 {
            return Err(ConfigError::Exhausted);
        }
        if self.by_name.get(name.as_str()).is_some() {
            return Err(ConfigError::DuplicateGroup);
        }
        let ino: u64 = match self.ino.allocate() {
            Some(ino) => ino,
            None => {
                return Err(ConfigError::Exhausted);
            },
        };
        let ghost model = self@.added(name@, projects@);
        proof {
            lemma_put(self@.names, name@, ino);
        }
        self.by_name.insert(name.clone(), ino);
        let group = Group { name, by_name: projects };
        let ghost before = self.by_ino.deep_view();
        let ghost pushed = group@;
        self.by_ino.push(group);
        proof {
            assert(self.by_ino.deep_view() =~= before.push(pushed));
            assert(self@ == model);
            assert forall|k: int| 0 <= k < model.groups.len() implies {
                &&& model.names[k] == ((#[trigger] model.groups[k]).name, GroupsModel::ino_at(k))
                &&& distinct(model.groups[k].members)
            } by {
                if k < before.len() {
                    assert(model.groups[k] == old(self)@.groups[k]);
                    assert(old(self)@.names[k] == (
                        old(self)@.groups[k].name,
                        GroupsModel::ino_at(k),
                    ));
                }
            }
        }
        Ok(ino)
    }

    /// The group `ino`, to add members to. What is done to the group is
    /// done to the index, which stays well formed as long as the group does.
    pub fn get_group(&mut self, ino: u64) -> (group: Option<&mut Group>)
        requires
            old(self).wf(),
        ensures
            match group {
                Some(g) => {
                    &&& old(self)@.has_group(ino)
                    &&& g@ == old(self)@.groups[GroupsModel::slot(ino)]
                    &&& g.wf()
                    &&& final(self)@ == old(self)@.with_group(GroupsModel::slot(ino), final(g)@)
                    &&& final(self).inv()
                },
                None => {
                    &&& !old(self)@.has_group(ino)
                    &&& final(self)@ == old(self)@
                    &&& final(self).inv()
                },
            },
    {
        match self.slot_of(ino) {
            Some(k) => {
                assert(self.by_ino.deep_view()[k as int] == self.by_ino@[k as int]@);
                assert forall|after: Vec<Group>|
                    after@ == self.by_ino@.update(k as int, after@[k as int]) implies #[trigger]
                    after.deep_view() == self.by_ino.deep_view().update(
                        k as int,
                        after@[k as int]@,
                    ) by {
                    assert(after.deep_view() =~= self.by_ino.deep_view().update(
                        k as int,
                        after@[k as int]@,
                    ));
                }
                Some(&mut self.by_ino[k])
            },
            None => None,
        }
    }

    /// The place of the group `ino` among the groups, if it is one.
    fn slot_of(&self, ino: u64) -> (at: Option<usize>)
        requires
            self.wf(),
        ensures
            match at {
                Some(k) => self@.has_group(ino) && k == GroupsModel::slot(ino) && k
                    < self.by_ino@.len(),
                None => !self@.has_group(ino),
            },
    {
        let count: usize = self.by_ino.len();
        assert(self@.groups.len() == count);
        if ino > INO && ino <= self.ino.last() {
            assert(ino - INO - 1 < count);
            Some((ino - INO - 1) as usize)
        } else {
            None
        }
    }

    /// The identifier of the group named `name`.
    pub fn handle(&self, name: &str) -> (ino: Option<u64>)
        requires
            self.wf(),
        ensures
            ino == lookup(self@.names, name@),
    {
        self.by_name.get(name)
    }

    /// Whether `ino` is a group.
    pub fn has_group(&self, ino: u64) -> (has: bool)
        requires
            self.wf(),
        ensures
            has == self@.has_group(ino),
    {
        self.slot_of(ino).is_some()
    }

    /// The attributes of `ino`, or `None` where `ino` is neither the index
    /// nor a group.
    pub fn getattr(&self, ino: u64) -> (attr: Option<Attr>)
        requires
            self.wf(),
        ensures
            attr == self@.attr(ino),
    {
        self.attr(ino)
    }

    /// Looks the entry `name` of the directory `parent` up. A name that a
    /// group does not list is handed on to the flat project index.
    pub fn lookup(&self, parent: u64, name: &str) -> (found: GroupLookup)
        requires
            self.wf(),
        ensures
            found == self@.lookup(parent, name@),
    {
        if parent == ROOT_INO {
            GroupLookup::Found(Attr::directory(INO, self.by_name.len()))
        } else if parent == INO {
            match self.by_name.get(name) {
                Some(ino) => {
                    proof {
                        lemma_name_is_group(self@, name@);
                    }
                    match self.attr(ino) {
                        Some(attr) => GroupLookup::Found(attr),
                        None => GroupLookup::NotFound,
                    }
                },
                None => GroupLookup::NotFound,
            }
        } else {
            match self.slot_of(parent) {
                Some(k) => match self.by_ino[k].by_name.get(name) {
                    Some(ino) => GroupLookup::Found(Attr::symlink(ino)),
                    None => GroupLookup::Fallback,
                },
                None => GroupLookup::NotFound,
            }
        }
    }

    /// The entries of the directory `ino` from `offset` on, or `None` where
    /// `ino` is neither the index nor a group.
    pub fn readdir(&self, ino: u64, offset: usize) -> (lines: Option<Vec<DirEntry>>)
        requires
            self.wf(),
        ensures
            lines.deep_view() == self@.readdir(ino, offset as nat),
    {
        if ino == INO {
            Some(self.by_name.list(offset, FileKind::Directory))
        } else {
            match self.slot_of(ino) {
                Some(k) => Some(self.by_ino[k].by_name.list(offset, FileKind::Symlink)),
                None => None,
            }
        }
    }

    /// The attributes of `ino`.
    fn attr(&self, ino: u64) -> (attr: Option<Attr>)
        requires
            self.wf(),
        ensures
            attr == self@.attr(ino),
    {
        if ino == INO {
            Some(Attr::directory(ino, self.by_name.len()))
        } else {
            match self.slot_of(ino) {
                Some(k) => Some(Attr::directory(ino, self.by_ino[k].by_name.len())),
                None => None,
            }
        }
    }
}

} // verus!
