//! An ordered table from names to identifiers. It keeps its names in the
//! order in which they came, so that a listing can be resumed at an offset,
//! and it never holds a name twice.

use vstd::prelude::*;
use crate::node::{DirEntry, FileKind, listing, page};

verus! {

/// The mathematical form of a table: its lines in order, each a name and what
/// the name stands for.
pub type Table<V> = Seq<(Seq<char>, V)>;

/// No name occurs on two lines.
pub open spec fn distinct<V>(t: Table<V>) -> bool {
    forall|i: int, j: int| 0 <= i < j < t.len() ==> (#[trigger] t[i]).0 != (#[trigger] t[j]).0
}

/// Some line carries `name`.
pub open spec fn has_name<V>(t: Table<V>, name: Seq<char>) -> bool {
    exists|i: int| 0 <= i < t.len() && (#[trigger] t[i]).0 == name
}

/// A line that carries `name`, where one exists.
pub open spec fn index_of<V>(t: Table<V>, name: Seq<char>) -> int {
    choose|i: int| 0 <= i < t.len() && (#[trigger] t[i]).0 == name
}

/// What `name` stands for, if the table has the name.
pub open spec fn lookup<V>(t: Table<V>, name: Seq<char>) -> Option<V> {
    if has_name(t, name) {
        Some(t[index_of(t, name)].1)
    } else {
        None
    }
}

/// The table after `name` has been set to `id`: the name's line is
/// rewritten in place, or a line is added at the end.
pub open spec fn put<V>(t: Table<V>, name: Seq<char>, id: V) -> Table<V> {
    if has_name(t, name) {
        t.update(index_of(t, name), (name, id))
    } else {
        t.push((name, id))
    }
}

/// In a table without repeated names, a line is found under its name.
pub proof fn lemma_lookup_line<V>(t: Table<V>, i: int)
    requires
        distinct(t),
        0 <= i < t.len(),
    ensures
        has_name(t, t[i].0),
        index_of(t, t[i].0) == i,
        lookup(t, t[i].0) == Some(t[i].1),
{
    let j = index_of(t, t[i].0);
    assert(t[j].0 == t[i].0);
    if j < i {
        assert(t[j].0 != t[i].0);
    } else if i < j {
        assert(t[i].0 != t[j].0);
    }
}

/// Setting a name keeps the names distinct, and changes what that one name
/// stands for and nothing else.
pub proof fn lemma_put<V>(t: Table<V>, name: Seq<char>, id: V)
    requires
        distinct(t),
    ensures
        distinct(put(t, name, id)),
        forall|other: Seq<char>| #[trigger]
            lookup(put(t, name, id), other) == if other == name {
                Some(id)
            } else {
                lookup(t, other)
            },
        forall|other: Seq<char>| #[trigger]
            has_name(put(t, name, id), other) == (other == name || has_name(t, other)),
{
    let p = put(t, name, id);
    if has_name(t, name) {
        let k = index_of(t, name);
        assert(p.len() == t.len());
        assert forall|i: int, j: int| 0 <= i < j < p.len() implies (#[trigger] p[i]).0 != (
        #[trigger] p[j]).0 by {
            assert(t[i].0 != t[j].0);
            assert(p[i].0 == t[i].0);
            assert(p[j].0 == t[j].0);
        }
        assert forall|other: Seq<char>| #[trigger]
            has_name(p, other) == (other == name || has_name(t, other)) by {
            if has_name(p, other) {
                let i = index_of(p, other);
                assert(t[i].0 == other);
            }
            if has_name(t, other) {
                let i = index_of(t, other);
                assert(p[i].0 == other);
            }
        }
        assert forall|other: Seq<char>| #[trigger]
            lookup(p, other) == if other == name {
                Some(id)
            } else {
                lookup(t, other)
            } by {
            if other == name {
                assert(p[k] == (name, id));
                lemma_lookup_line(p, k);
            } else if has_name(t, other) {
                let i = index_of(t, other);
                assert(i != k);
                assert(p[i] == t[i]);
                lemma_lookup_line(p, i);
            }
        }
    } else {
        let k = t.len() as int;
        assert(p[k] == (name, id));
        assert forall|i: int, j: int| 0 <= i < j < p.len() implies (#[trigger] p[i]).0 != (
        #[trigger] p[j]).0 by {
            if j < k {
                assert(t[i].0 != t[j].0);
            } else {
                assert(p[i] == t[i]);
            }
        }
        assert forall|other: Seq<char>| #[trigger]
            has_name(p, other) == (other == name || has_name(t, other)) by {
            if has_name(p, other) {
                let i = index_of(p, other);
                if i < k {
                    assert(t[i].0 == other);
                }
            }
            if has_name(t, other) {
                let i = index_of(t, other);
                assert(p[i].0 == other);
            }
        }
        assert forall|other: Seq<char>| #[trigger]
            lookup(p, other) == if other == name {
                Some(id)
            } else {
                lookup(t, other)
            } by {
            if other == name {
                lemma_lookup_line(p, k);
            } else if has_name(t, other) {
                let i = index_of(t, other);
                assert(p[i] == t[i]);
                lemma_lookup_line(p, i);
            }
        }
    }
}

/// The names of `names` are pairwise different and the table has none of
/// them: they can all be added.
pub open spec fn vacant<V>(t: Table<V>, names: Seq<Seq<char>>) -> bool {
    &&& names.no_duplicates()
    &&& forall|i: int| 0 <= i < names.len() ==> !has_name(t, #[trigger] names[i])
}

/// The table after each of `names` was added at the end, in order, all
/// standing for `id`.
pub open spec fn extended(t: Table<u64>, names: Seq<Seq<char>>, id: u64) -> Table<u64> {
    t + Seq::new(names.len(), |i: int| (names[i], id))
}

/// A name with its aliases, the name first.
pub open spec fn with_aliases(name: Seq<char>, aliases: Seq<Seq<char>>) -> Seq<Seq<char>> {
    seq![name] + aliases
}

/// After names that the table did not have were added, each of them stands
/// for the identifier they were added under; every other name stands for
/// what it stood for.
pub proof fn lemma_extended(t: Table<u64>, names: Seq<Seq<char>>, id: u64)
    requires
        distinct(t),
        vacant(t, names),
    ensures
        distinct(extended(t, names, id)),
        forall|name: Seq<char>| #[trigger]
            lookup(extended(t, names, id), name) == if names.contains(name) {
                Some(id)
            } else {
                lookup(t, name)
            },
        forall|name: Seq<char>| #[trigger]
            has_name(extended(t, names, id), name) == (names.contains(name) || has_name(t, name)),
{
    let x = extended(t, names, id);
    assert forall|i: int, j: int| 0 <= i < j < x.len() implies (#[trigger] x[i]).0 != (
    #[trigger] x[j]).0 by {
        if j < t.len() {
            assert(t[i].0 != t[j].0);
        } else if i < t.len() {
            assert(x[i] == t[i]);
            assert(x[j].0 == names[j - t.len()]);
            assert(!has_name(t, names[j - t.len()]));
        } else {
            assert(x[i].0 == names[i - t.len()]);
            assert(x[j].0 == names[j - t.len()]);
        }
    }
    assert forall|name: Seq<char>| #[trigger]
        has_name(x, name) == (names.contains(name) || has_name(t, name)) by {
        if has_name(x, name) {
            let i = index_of(x, name);
            if i < t.len() {
                assert(t[i].0 == name);
            } else {
                assert(names[i - t.len()] == name);
            }
        }
        if has_name(t, name) {
            let i = index_of(t, name);
            assert(x[i].0 == name);
        }
        if names.contains(name) {
            let i = choose|i: int| 0 <= i < names.len() && names[i] == name;
            assert(x[t.len() + i].0 == name);
        }
    }
    assert forall|name: Seq<char>| #[trigger]
        lookup(x, name) == if names.contains(name) {
            Some(id)
        } else {
            lookup(t, name)
        } by {
        if names.contains(name) {
            let i = choose|i: int| 0 <= i < names.len() && names[i] == name;
            assert(x[t.len() + i] == (name, id));
            lemma_lookup_line(x, t.len() + i);
        } else if has_name(t, name) {
            let i = index_of(t, name);
            assert(x[i] == t[i]);
            lemma_lookup_line(x, i);
        }
    }
}

/// The table after each of `names` was set to `id`, in order.
pub open spec fn put_all<V>(t: Table<V>, names: Seq<Seq<char>>, id: V) -> Table<V>
    decreases names.len(),
{
    if names.len() == 0 {
        t
    } else {
        put(put_all(t, names.drop_last(), id), names.last(), id)
    }
}

/// After names were set, each of them stands for what it was set to; every
/// other name stands for what it stood for.
pub proof fn lemma_put_all<V>(t: Table<V>, names: Seq<Seq<char>>, id: V)
    requires
        distinct(t),
    ensures
        distinct(put_all(t, names, id)),
        forall|name: Seq<char>| #[trigger]
            lookup(put_all(t, names, id), name) == if names.contains(name) {
                Some(id)
            } else {
                lookup(t, name)
            },
        forall|name: Seq<char>| #[trigger]
            has_name(put_all(t, names, id), name) == (names.contains(name) || has_name(t, name)),
    decreases names.len(),
{
    if names.len() > 0 {
        let rest = names.drop_last();
        let mid = put_all(t, rest, id);
        lemma_put_all(t, rest, id);
        lemma_put(mid, names.last(), id);
        assert forall|name: Seq<char>| names.contains(name) == (rest.contains(name) || name
            == names.last()) by {
            if names.contains(name) {
                let i = choose|i: int| 0 <= i < names.len() && names[i] == name;
                if i < rest.len() {
                    assert(rest[i] == name);
                }
            }
            if rest.contains(name) {
                let i = choose|i: int| 0 <= i < rest.len() && rest[i] == name;
                assert(names[i] == name);
            }
            if name == names.last() {
                assert(names[names.len() - 1] == name);
            }
        }
    }
}

/// Equality of two string slices. Stated of `str`'s `eq` from the standard
/// library: it returns `true` exactly when the two slices hold the same
/// characters.
pub assume_specification[ <str as PartialEq>::eq ](a: &str, b: &str) -> (same: bool)
    ensures
        same == (a@ == b@),
;

/// An ordered table from names to identifiers.
pub struct NameTable {
    lines: Vec<(String, u64)>,
}

impl View for NameTable {
    type V = Table<u64>;

    closed spec fn view(&self) -> Table<u64> {
        self.lines.deep_view()
    }
}

impl NameTable {
    /// The table holds no name twice.
    pub open spec fn wf(&self) -> bool {
        distinct(self@)
    }

    /// An empty table.
    pub fn new() -> (t: NameTable)
        ensures
            t.wf(),
            t@ == Seq::<(Seq<char>, u64)>::empty(),
    {
        let t = NameTable { lines: Vec::new() };
        assert(t@ =~= Seq::<(Seq<char>, u64)>::empty());
        t
    }

    /// The number of lines.
    pub fn len(&self) -> (n: usize)
        ensures
            n == self@.len(),
    {
        self.lines.len()
    }

    /// The line on which `name` stands, if the table has the name.
    pub fn position(&self, name: &str) -> (at: Option<usize>)
        requires
            self.wf(),
        ensures
            match at {
                Some(i) => has_name(self@, name@) && i == index_of(self@, name@) && i < self@.len(),
                None => !has_name(self@, name@),
            },
    {
        let mut i: usize = 0;
        while i < self.lines.len()
            invariant
                i <= self.lines@.len(),
                self.wf(),
                forall|j: int| 0 <= j < i ==> (#[trigger] self@[j]).0 != name@,
            decreases self.lines@.len() - i,
        {
            if self.lines[i].0.as_str().eq(name) {
                proof {
                    assert(self@[i as int].0 == name@);
                    lemma_lookup_line(self@, i as int);
                }
                return Some(i);
            }
            i = i + 1;
        }
        None
    }

    /// The identifier that `name` stands for, if the table has the name.
    pub fn get(&self, name: &str) -> (id: Option<u64>)
        requires
            self.wf(),
        ensures
            id == lookup(self@, name@),
    {
        match self.position(name) {
            Some(i) => Some(self.lines[i].1),
            None => None,
        }
    }

    /// Sets `name` to `id`: rewrites the name's line, or adds a line at the
    /// end where the table did not have the name.
    pub fn insert(&mut self, name: String, id: u64)
        requires
            old(self).wf(),
        ensures
            final(self).wf(),
            final(self)@ == put(old(self)@, name@, id),
    {
        proof {
            lemma_put(self@, name@, id);
        }
        match self.position(name.as_str()) {
            Some(i) => {
                self.lines[i] = (name, id);
                assert(self@ =~= put(old(self)@, name@, id));
            },
            None => {
                self.lines.push((name, id));
                assert(self@ =~= put(old(self)@, name@, id));
            },
        }
    }

    /// The lines from `offset` on as directory entries, all of kind `kind`.
    pub fn list(&self, offset: usize, kind: FileKind) -> (lines: Vec<DirEntry>)
        ensures
            lines.deep_view() == page(listing(self@, kind), offset as nat),
    {
        let mut lines: Vec<DirEntry> = Vec::new();
        if offset > self.lines.len() {
            assert(lines.deep_view() =~= page(listing(self@, kind), offset as nat));
            return lines;
        }
        let mut i: usize = offset;
        while i < self.lines.len()
            invariant
                offset <= i <= self.lines@.len(),
                lines.deep_view() == listing(self@, kind).subrange(offset as int, i as int),
            decreases self.lines@.len() - i,
        {
            let line = DirEntry {
                ino: self.lines[i].1,
                offset: i + 1,
                kind,
                name: self.lines[i].0.clone(),
            };
            let ghost before = lines.deep_view();
            let ghost added = line.deep_view();
            assert(added == listing(self@, kind)[i as int]);
            lines.push(line);
            assert(lines.deep_view() =~= before.push(added));
            i = i + 1;
            assert(lines.deep_view() =~= listing(self@, kind).subrange(offset as int, i as int));
        }
        assert(lines.deep_view() =~= page(listing(self@, kind), offset as nat));
        lines
    }

    /// Whether `name` and `aliases` can all be added: they are pairwise
    /// different and the table has none of them.
    pub fn admits(&self, name: &str, aliases: &Vec<String>) -> (free: bool)
        requires
            self.wf(),
        ensures
            free == vacant(self@, with_aliases(name@, aliases.deep_view())),
    {
        let ghost all = with_aliases(name@, aliases.deep_view());
        if self.get(name).is_some() {
            assert(all[0] == name@);
            return false;
        }
        let mut i: usize = 0;
        while i < aliases.len()
            invariant
                i <= aliases@.len(),
                self.wf(),
                all == with_aliases(name@, aliases.deep_view()),
                forall|a: int| 0 <= a < i + 1 ==> !has_name(self@, #[trigger] all[a]),
                forall|a: int, b: int| 0 <= a < b < i + 1 ==> all[a] != all[b],
            decreases aliases@.len() - i,
        {
            let alias = aliases[i].as_str();
            assert(all[i + 1] == alias@);
            if self.get(alias).is_some() {
                return false;
            }
            if alias.eq(name) {
                assert(all[0] == all[i + 1]);
                return false;
            }
            let mut j: usize = 0;
            while j < i
                invariant
                    j <= i < aliases@.len(),
                    all == with_aliases(name@, aliases.deep_view()),
                    alias@ == all[i + 1],
                    forall|b: int| 1 <= b < j + 1 ==> all[b] != alias@,
                decreases i - j,
            {
                assert(all[j + 1] == aliases[j as int]@);
                if aliases[j].as_str().eq(alias) {
                    assert(all[j + 1] == all[i + 1]);
                    return false;
                }
                j = j + 1;
            }
            assert forall|a: int, b: int| 0 <= a < b < i + 2 implies all[a] != all[b] by {
                if b == i + 1 && a > 0 {
                    assert(all[a] != alias@);
                }
            }
            i = i + 1;
        }
        true
    }

    /// Adds `name` and then each of `aliases` at the end, all standing for
    /// `id`.
    pub(crate) fn extend(&mut self, name: String, aliases: &Vec<String>, id: u64)
        requires
            old(self).wf(),
            vacant(old(self)@, with_aliases(name@, aliases.deep_view())),
        ensures
            final(self).wf(),
            final(self)@ == extended(old(self)@, with_aliases(name@, aliases.deep_view()), id),
    {
        let ghost all = with_aliases(name@, aliases.deep_view());
        proof {
            lemma_extended(self@, all, id);
        }
        self.lines.push((name, id));
        assert(self@ =~= old(self)@.push((all[0], id)));
        assert(self@ =~= old(self)@ + Seq::new(1, |k: int| (all[k], id)));
        let mut i: usize = 0;
        while i < aliases.len()
            invariant
                i <= aliases@.len(),
                all == with_aliases(name@, aliases.deep_view()),
                self@ == old(self)@ + Seq::new((i + 1) as nat, |k: int| (all[k], id)),
            decreases aliases@.len() - i,
        {
            let ghost before = self@;
            let alias = aliases[i].clone();
            assert(all[i + 1] == alias@);
            self.lines.push((alias, id));
            assert(self@ =~= before.push((all[i + 1], id)));
            i = i + 1;
            assert(self@ =~= old(self)@ + Seq::new((i + 1) as nat, |k: int| (all[k], id)));
        }
        assert(self@ =~= extended(old(self)@, all, id));
    }
}

/// A copy of a list of names.
pub(crate) fn copy_names(names: &Vec<String>) -> (copy: Vec<String>)
    ensures
        copy.deep_view() == names.deep_view(),
{
    let mut copy: Vec<String> = Vec::new();
    let mut i: usize = 0;
    while i < names.len()
        invariant
            i <= names@.len(),
            copy.deep_view() == names.deep_view().take(i as int),
        decreases names@.len() - i,
    {
        let ghost before = copy.deep_view();
        copy.push(names[i].clone());
        assert(copy.deep_view() =~= before.push(names[i as int]@));
        i = i + 1;
        assert(copy.deep_view() =~= names.deep_view().take(i as int));
    }
    assert(copy.deep_view() =~= names.deep_view());
    copy
}

/// A copy of a list of identifiers.
pub(crate) fn copy_ids(ids: &Vec<u64>) -> (copy: Vec<u64>)
    ensures
        copy@ == ids@,
{
    let mut copy: Vec<u64> = Vec::new();
    let mut i: usize = 0;
    while i < ids.len()
        invariant
            i <= ids@.len(),
            copy@ == ids@.take(i as int),
        decreases ids@.len() - i,
    {
        copy.push(ids[i]);
        i = i + 1;
        assert(copy@ =~= ids@.take(i as int));
    }
    assert(copy@ =~= ids@);
    copy
}

} // verus!
