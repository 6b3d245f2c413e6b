//! The configuration: the projects with their groups and the mirrors, as
//! the operator wrote them down, and the loading of them into a filesystem.

use vstd::prelude::*;
use crate::error::ConfigError;
use crate::filesystem::{FileSystem, FsModel};
use crate::names::{NameTable, Table, lookup, put};
use crate::renaming::{RenamingRule, Rule, rule_groups};

verus! {

/// One project of the configuration.
pub struct Project {
    /// The canonical name.
    pub name: String,
    /// The real path.
    pub path: String,
    /// The names of the groups the project belongs to.
    pub groups: Vec<String>,
    /// The other names of the project.
    pub aliases: Vec<String>,
}

/// One mirror of the configuration.
pub struct Mirror {
    /// The name of the mirror.
    pub name: String,
    /// The backing directory.
    pub path: String,
    /// The renaming rule: a regular expression whose last capture group
    /// names the exposed entry.
    pub renaming: String,
    /// The other names of the mirror.
    pub aliases: Vec<String>,
}

/// The configuration.
pub struct Config {
    pub projects: Vec<Project>,
    pub mirrors: Vec<Mirror>,
}

/// The mathematical form of a [`Project`].
pub struct ProjectItem {
    pub name: Seq<char>,
    pub path: Seq<char>,
    pub groups: Seq<Seq<char>>,
    pub aliases: Seq<Seq<char>>,
}

/// The mathematical form of a [`Mirror`].
pub struct MirrorItem {
    pub name: Seq<char>,
    pub path: Seq<char>,
    pub renaming: Seq<char>,
    pub aliases: Seq<Seq<char>>,
}

/// The mathematical form of a [`Config`].
pub struct Items {
    pub projects: Seq<ProjectItem>,
    pub mirrors: Seq<MirrorItem>,
}

impl DeepView for Project {
    type V = ProjectItem;

    open spec fn deep_view(&self) -> ProjectItem {
        ProjectItem {
            name: self.name@,
            path: self.path@,
            groups: self.groups.deep_view(),
            aliases: self.aliases.deep_view(),
        }
    }
}

impl DeepView for Mirror {
    type V = MirrorItem;

    open spec fn deep_view(&self) -> MirrorItem {
        MirrorItem {
            name: self.name@,
            path: self.path@,
            renaming: self.renaming@,
            aliases: self.aliases.deep_view(),
        }
    }
}

impl DeepView for Config {
    type V = Items;

    open spec fn deep_view(&self) -> Items {
        Items { projects: self.projects.deep_view(), mirrors: self.mirrors.deep_view() }
    }
}

/// How far loading has come: the filesystem, the groups met so far with
/// their handles, and whether an entry was refused.
pub struct Loading {
    pub fs: FsModel,
    pub met: Table<u64>,
    pub outcome: Result<(), ConfigError>,
}

/// The handles of the groups named `names`, in order. A group that loading
/// has not met is added to the filesystem. The first refusal ends it.
pub open spec fn resolved(at: Loading, names: Seq<Seq<char>>) -> (Loading, Seq<u64>)
    decreases names.len(),
{
    if names.len() == 0 {
        (at, Seq::empty())
    } else {
        let (before, handles) = resolved(at, names.drop_last());
        if before.outcome is Err {
            (before, handles)
        } else {
            match lookup(before.met, names.last()) {
                Some(ino) => (before, handles.push(ino)),
                None => {
                    let (fs, added) = before.fs.try_add_group(names.last());
                    match added {
                        Ok(ino) => (
                            Loading { fs, met: put(before.met, names.last(), ino), ..before },
                            handles.push(ino),
                        ),
                        Err(e) => (Loading { outcome: Err(e), ..before }, handles),
                    }
                },
            }
        }
    }
}

/// Loading after the projects `projects`, in order: each has its groups
/// resolved and is then added. The first refusal ends it.
pub open spec fn loaded_projects(at: Loading, projects: Seq<ProjectItem>) -> Loading
    decreases projects.len(),
{
    if projects.len() == 0 {
        at
    } else {
        let before = loaded_projects(at, projects.drop_last());
        if before.outcome is Err {
            before
        } else {
            let p = projects.last();
            let (with_groups, handles) = resolved(before, p.groups);
            if with_groups.outcome is Err {
                with_groups
            } else {
                let (fs, added) = with_groups.fs.try_add_project(
                    p.name,
                    p.path,
                    handles,
                    p.aliases,
                );
                match added {
                    Ok(_) => Loading { fs, ..with_groups },
                    Err(e) => Loading { outcome: Err(e), ..with_groups },
                }
            }
        }
    }
}

/// Loading after the mirrors `mirrors`, in order: each has its renaming
/// rule compiled, with its last capture group designated, and is then added.
/// The first refusal ends it.
pub open spec fn loaded_mirrors(at: Loading, mirrors: Seq<MirrorItem>) -> Loading
    decreases mirrors.len(),
{
    if mirrors.len() == 0 {
        at
    } else {
        let before = loaded_mirrors(at, mirrors.drop_last());
        if before.outcome is Err {
            before
        } else {
            let m = mirrors.last();
            match rule_groups(m.renaming) {
                None => Loading { outcome: Err(ConfigError::InvalidRenaming), ..before },
                Some(groups) => {
                    let rule = Rule { pattern: m.renaming, group: (groups - 1) as nat };
                    let (fs, added) = before.fs.try_add_mirror(m.name, m.path, rule, m.aliases);
                    match added {
                        Ok(_) => Loading { fs, ..before },
                        Err(e) => Loading { outcome: Err(e), ..before },
                    }
                },
            }
        }
    }
}

/// Loading a whole configuration into `fs`: the projects, then the mirrors.
pub open spec fn loaded(fs: FsModel, items: Items) -> Loading {
    loaded_mirrors(
        loaded_projects(Loading { fs, met: Seq::empty(), outcome: Ok(()) }, items.projects),
        items.mirrors,
    )
}

/// Once an entry was refused nothing more is resolved.
proof fn lemma_resolved_ends(at: Loading, names: Seq<Seq<char>>, k: int)
    requires
        0 <= k <= names.len(),
        resolved(at, names.take(k)).0.outcome is Err,
    ensures
        resolved(at, names).0 == resolved(at, names.take(k)).0,
    decreases names.len() - k,
{
    if k < names.len() {
        assert(names.take(k + 1).drop_last() =~= names.take(k));
        lemma_resolved_ends(at, names, k + 1);
    } else {
        assert(names.take(k) =~= names);
    }
}

/// Once an entry was refused no project is loaded any more.
proof fn lemma_projects_end(at: Loading, projects: Seq<ProjectItem>, k: int)
    requires
        0 <= k <= projects.len(),
        loaded_projects(at, projects.take(k)).outcome is Err,
    ensures
        loaded_projects(at, projects) == loaded_projects(at, projects.take(k)),
    decreases projects.len() - k,
{
    if k < projects.len() {
        assert(projects.take(k + 1).drop_last() =~= projects.take(k));
        lemma_projects_end(at, projects, k + 1);
    } else {
        assert(projects.take(k) =~= projects);
    }
}

/// Once an entry was refused no mirror is loaded any more.
proof fn lemma_mirrors_end(at: Loading, mirrors: Seq<MirrorItem>, k: int)
    requires
        0 <= k <= mirrors.len(),
        loaded_mirrors(at, mirrors.take(k)).outcome is Err,
    ensures
        loaded_mirrors(at, mirrors) == loaded_mirrors(at, mirrors.take(k)),
    decreases mirrors.len() - k,
{
    if k < mirrors.len() {
        assert(mirrors.take(k + 1).drop_last() =~= mirrors.take(k));
        lemma_mirrors_end(at, mirrors, k + 1);
    } else {
        assert(mirrors.take(k) =~= mirrors);
    }
}

/// The handles of the groups named `names`, each group added where loading
/// had not met it.
fn resolve(fs: &mut FileSystem, met: &mut NameTable, names: &Vec<String>) -> (handles: Result<
    Vec<u64>,
    ConfigError,
>)
    requires
        old(fs).wf(),
        old(met).wf(),
    ensures
        final(fs).wf(),
        final(met).wf(),
        ({
            let at = Loading { fs: old(fs)@, met: old(met)@, outcome: Ok(()) };
            &&& resolved(at, names.deep_view()).0.fs == final(fs)@
            &&& resolved(at, names.deep_view()).0.met == final(met)@
            &&& match handles {
                Ok(h) => resolved(at, names.deep_view()) == (
                    Loading { fs: final(fs)@, met: final(met)@, outcome: Ok(()) },
                    h@,
                ),
                Err(e) => resolved(at, names.deep_view()).0.outcome == Err::<(), ConfigError>(e),
            }
        }),
{
    let ghost at = Loading { fs: fs@, met: met@, outcome: Ok(()) };
    let mut handles: Vec<u64> = Vec::new();
    let mut j: usize = 0;
    assert(names.deep_view().take(0) =~= Seq::<Seq<char>>::empty());
    while j < names.len()
        invariant
            j <= names@.len(),
            fs.wf(),
            met.wf(),
            at == (Loading { fs: old(fs)@, met: old(met)@, outcome: Ok(()) }),
            resolved(at, names.deep_view().take(j as int)) == (
                Loading { fs: fs@, met: met@, outcome: Ok(()) },
                handles@,
            ),
        decreases names@.len() - j,
    {
        let ghost upto = names.deep_view().take(j + 1);
        assert(upto.drop_last() =~= names.deep_view().take(j as int));
        assert(upto.last() == names[j as int]@);
        let handle: u64 = match met.get(names[j].as_str()) {
            Some(ino) => ino,
            None => match fs.add_group(names[j].clone()) {
                Ok(ino) => {
                    met.insert(names[j].clone(), ino);
                    ino
                },
                Err(e) => {
                    proof {
                        lemma_resolved_ends(at, names.deep_view(), j + 1);
                    }
                    return Err(e);
                },
            },
        };
        handles.push(handle);
        j = j + 1;
    }
    assert(names.deep_view().take(j as int) =~= names.deep_view());
    Ok(handles)
}

impl Config {
    /// Loads the configuration into `fs`: every project with its groups,
    /// then every mirror. A group is added when the first project names it.
    ///
    /// Loading ends at the first entry that is refused, and `fs` then holds
    /// what was loaded before it.
    pub fn load_into(self, fs: &mut FileSystem) -> (outcome: Result<(), ConfigError>)
        requires
            old(fs).wf(),
        ensures
            final(fs).wf(),
            final(fs)@ == loaded(old(fs)@, self.deep_view()).fs,
            outcome == loaded(old(fs)@, self.deep_view()).outcome,
    {
        let ghost start = Loading { fs: fs@, met: Seq::empty(), outcome: Ok(()) };
        let ghost projects = self.projects.deep_view();
        let ghost mirrors = self.mirrors.deep_view();
        let mut met = NameTable::new();
        let mut i: usize = 0;
        assert(projects.take(0) =~= Seq::<ProjectItem>::empty());
        while i < self.projects.len()
            invariant
                i <= self.projects@.len(),
                projects == self.projects.deep_view(),
                mirrors == self.mirrors.deep_view(),
                start == (Loading { fs: old(fs)@, met: Seq::empty(), outcome: Ok(()) }),
                fs.wf(),
                met.wf(),
                loaded_projects(start, projects.take(i as int)) == (Loading {
                    fs: fs@,
                    met: met@,
                    outcome: Ok(()),
                }),
            decreases self.projects@.len() - i,
        {
            let ghost upto = projects.take(i + 1);
            let ghost before = loaded_projects(start, projects.take(i as int));
            assert(upto.drop_last() =~= projects.take(i as int));
            assert(upto.last() == self.projects[i as int].deep_view());
            let project = &self.projects[i];
            let handles = match resolve(fs, &mut met, &project.groups) {
                Ok(handles) => handles,
                Err(e) => {
                    proof {
                        assert(loaded_projects(start, upto).outcome is Err);
                        assert(loaded_projects(start, upto).fs == fs@);
                        lemma_projects_end(start, projects, i + 1);
                        assert(mirrors.take(0) =~= Seq::<MirrorItem>::empty());
                        lemma_mirrors_end(loaded_projects(start, projects), mirrors, 0);
                    }
                    return Err(e);
                },
            };
            match fs.add_project(
                project.name.clone(),
                project.path.clone(),
                &handles,
                &project.aliases,
            ) {
                Ok(_) => {},
                Err(e) => {
                    proof {
                        assert(loaded_projects(start, upto).outcome is Err);
                        assert(loaded_projects(start, upto).fs == fs@);
                        lemma_projects_end(start, projects, i + 1);
                        assert(mirrors.take(0) =~= Seq::<MirrorItem>::empty());
                        lemma_mirrors_end(loaded_projects(start, projects), mirrors, 0);
                    }
                    return Err(e);
                },
            }
            i = i + 1;
        }
        assert(projects.take(i as int) =~= projects);
        let ghost midway = loaded_projects(start, projects);
        let mut i: usize = 0;
        assert(mirrors.take(0) =~= Seq::<MirrorItem>::empty());
        while i < self.mirrors.len()
            invariant
                i <= self.mirrors@.len(),
                projects == self.projects.deep_view(),
                mirrors == self.mirrors.deep_view(),
                start == (Loading { fs: old(fs)@, met: Seq::empty(), outcome: Ok(()) }),
                midway == loaded_projects(start, projects),
                fs.wf(),
                midway.outcome is Ok,
                loaded_mirrors(midway, mirrors.take(i as int)) == (Loading { fs: fs@, ..midway }),
            decreases self.mirrors@.len() - i,
        {
            let ghost upto = mirrors.take(i + 1);
            assert(upto.drop_last() =~= mirrors.take(i as int));
            assert(upto.last() == self.mirrors[i as int].deep_view());
            let mirror = &self.mirrors[i];
            let rule = match RenamingRule::new(mirror.renaming.clone()) {
                Ok(rule) => rule,
                Err(e) => {
                    proof {
                        assert(loaded_mirrors(midway, upto).outcome is Err);
                        assert(loaded_mirrors(midway, upto).fs == fs@);
                        lemma_mirrors_end(midway, mirrors, i + 1);
                    }
                    return Err(e);
                },
            };
            match fs.add_mirror(mirror.name.clone(), mirror.path.clone(), rule, &mirror.aliases) {
                Ok(_) => {},
                Err(e) => {
                    proof {
                        assert(loaded_mirrors(midway, upto).outcome is Err);
                        assert(loaded_mirrors(midway, upto).fs == fs@);
                        lemma_mirrors_end(midway, mirrors, i + 1);
                    }
                    return Err(e);
                },
            }
            i = i + 1;
        }
        assert(mirrors.take(i as int) =~= mirrors);
        Ok(())
    }
}

} // verus!
