//! Mirrors: directories whose entries are not configured but found. Each
//! mirror exposes the subdirectories of a backing directory under the names
//! that a renaming rule gives them, and keeps the identifier of every name
//! that stays.

use vstd::prelude::*;
use crate::error::ConfigError;
use crate::ids::{ENTRIES_BASE, IdAllocator, MIRRORS_BASE, ROOT_INO, Namespace};
use crate::names::{
    NameTable, Table, distinct, extended, has_name, index_of, lemma_lookup_line, lemma_put, lookup,
    put, vacant, with_aliases,
};
use crate::node::{Attr, DirEntry, FileKind, Line, listing, page};
use crate::renaming::{RenamingRule, Rule};

verus! {

/// The identifier of the directory that lists the mirrors.
pub const INO: u64 = MIRRORS_BASE;

/// The name of that directory under the root.
pub const STR: &'static str = "mirrors";

/// The freshness window, in nanoseconds: for so long after a mirror was
/// reconciled its entries are served without a look at the disk.
pub const WINDOW: u128 = 1_000_000_000;

/// What an exposed name stands for: the entry's identifier and the real
/// path that the entry links to.
pub struct Exposed {
    pub ino: u64,
    pub target: Seq<char>,
}

/// What a scan found: for each subdirectory that the rule exposes, in the
/// order of the scan, the exposed name and the subdirectory's real path.
pub type Found = Seq<(Seq<char>, Seq<char>)>;

/// The real path that the last subdirectory exposed as `name` has, if any is
/// exposed under that name: of several, the one seen last wins.
pub open spec fn latest(found: Found, name: Seq<char>) -> Option<Seq<char>>
    decreases found.len(),
{
    if found.len() == 0 {
        None
    } else if found.last().0 == name {
        Some(found.last().1)
    } else {
        latest(found.drop_last(), name)
    }
}

/// The entries of a mirror after a scan, and the last identifier handed out.
/// `old` holds the entries before the scan and `issued` is the last
/// identifier handed out before it.
///
/// The exposed names come in the order in which the scan first met them. A
/// name that `old` has keeps its identifier; a new name takes the next
/// identifier; a name that the scan did not meet is gone.
pub open spec fn rebuilt(old: Table<Exposed>, issued: int, found: Found) -> (Table<Exposed>, int)
    decreases found.len(),
{
    if found.len() == 0 {
        (Seq::empty(), issued)
    } else {
        let (seen, last) = rebuilt(old, issued, found.drop_last());
        let (name, target) = found.last();
        if has_name(seen, name) {
            (put(seen, name, Exposed { ino: lookup(seen, name).unwrap().ino, target }), last)
        } else if has_name(old, name) {
            (put(seen, name, Exposed { ino: lookup(old, name).unwrap().ino, target }), last)
        } else {
            (put(seen, name, Exposed { ino: (last + 1) as u64, target }), last + 1)
        }
    }
}

/// No identifier occurs on two lines.
pub open spec fn ids_distinct(t: Table<Exposed>) -> bool {
    forall|i: int, j: int|
        0 <= i < j < t.len() ==> (#[trigger] t[i]).1.ino != (#[trigger] t[j]).1.ino
}

/// Every identifier lies above `low` and not above `high`.
pub open spec fn ids_within(t: Table<Exposed>, low: int, high: int) -> bool {
    forall|i: int| 0 <= i < t.len() ==> low < (#[trigger] t[i]).1.ino <= high
}

/// Some line carries the identifier `id`.
pub open spec fn has_entry(t: Table<Exposed>, id: u64) -> bool {
    exists|i: int| 0 <= i < t.len() && (#[trigger] t[i]).1.ino == id
}

/// A line that carries the identifier `id`, where one exists.
pub open spec fn entry_of(t: Table<Exposed>, id: u64) -> int {
    choose|i: int| 0 <= i < t.len() && (#[trigger] t[i]).1.ino == id
}

/// The counter never runs backwards, and a scan of a prefix hands out no
/// more identifiers than the whole scan.
pub proof fn lemma_rebuilt_grows(old: Table<Exposed>, issued: int, found: Found, k: int)
    requires
        0 <= k <= found.len(),
    ensures
        issued <= rebuilt(old, issued, found.take(k)).1 <= rebuilt(old, issued, found).1,
        rebuilt(old, issued, found).1 <= issued + found.len(),
    decreases found.len(),
{
    if found.len() == 0 {
        assert(found.take(k) =~= found);
    } else if k == found.len() {
        assert(found.take(k) =~= found);
        lemma_rebuilt_grows(old, issued, found.drop_last(), k - 1);
    } else {
        assert(found.drop_last().take(k) =~= found.take(k));
        lemma_rebuilt_grows(old, issued, found.drop_last(), k);
    }
}

/// What a mirror holds after a scan, name by name.
///
/// A name is exposed exactly when the scan met it, and links to the path met
/// last under it. A name that was exposed before keeps its identifier. A new
/// name has an identifier that was not handed out before the scan. No two
/// names share an identifier.
pub proof fn lemma_rebuilt(old: Table<Exposed>, low: int, issued: int, found: Found)
    requires
        distinct(old),
        ids_distinct(old),
        ids_within(old, low, issued),
        0 <= low <= issued,
        rebuilt(old, issued, found).1 <= u64::MAX,
    ensures
        distinct(rebuilt(old, issued, found).0),
        ids_distinct(rebuilt(old, issued, found).0),
        ids_within(rebuilt(old, issued, found).0, low, rebuilt(old, issued, found).1),
        forall|name: Seq<char>| #[trigger]
            has_name(rebuilt(old, issued, found).0, name) <==> latest(found, name) is Some,
        forall|name: Seq<char>| #[trigger]
            has_name(rebuilt(old, issued, found).0, name) ==> {
                let e = lookup(rebuilt(old, issued, found).0, name).unwrap();
                &&& Some(e.target) == latest(found, name)
                &&& has_name(old, name) ==> e.ino == lookup(old, name).unwrap().ino
                &&& !has_name(old, name) ==> issued < e.ino <= rebuilt(old, issued, found).1
            },
    decreases found.len(),
{
    let (next, n) = rebuilt(old, issued, found);
    if found.len() == 0 {
    } else {
        let prev = found.drop_last();
        let (seen, last) = rebuilt(old, issued, prev);
        let (name, target) = found.last();
        assert(found.take(found.len() - 1) =~= prev);
        lemma_rebuilt_grows(old, issued, found, found.len() - 1);
        lemma_rebuilt(old, low, issued, prev);
        let id: u64 = if has_name(seen, name) {
            lookup(seen, name).unwrap().ino
        } else if has_name(old, name) {
            lookup(old, name).unwrap().ino
        } else {
            (last + 1) as u64
        };
        let e = Exposed { ino: id, target };
        assert(next == put(seen, name, e));
        lemma_put(seen, name, e);
        assert forall|x: Seq<char>| #[trigger] has_name(next, x) <==> latest(found, x) is Some by {
            assert(has_name(next, x) == (x == name || has_name(seen, x)));
        }
        assert forall|x: Seq<char>| #[trigger] has_name(next, x) implies {
            let ex = lookup(next, x).unwrap();
            &&& Some(ex.target) == latest(found, x)
            &&& has_name(old, x) ==> ex.ino == lookup(old, x).unwrap().ino
            &&& !has_name(old, x) ==> issued < ex.ino <= n
        } by {
            assert(lookup(next, x) == if x == name {
                Some(e)
            } else {
                lookup(seen, x)
            });
            assert(has_name(next, x) == (x == name || has_name(seen, x)));
            if x != name {
                assert(has_name(seen, x));
            }
        }
        // every line of the new table is found under its name
        assert forall|i: int| 0 <= i < next.len() implies low < (#[trigger] next[i]).1.ino <= n by {
            lemma_lookup_line(next, i);
            let x = next[i].0;
            assert(has_name(next, x));
            if has_name(old, x) {
                let k = index_of(old, x);
                assert(old[k].1.ino == lookup(old, x).unwrap().ino);
            }
        }
        assert forall|i: int, j: int| 0 <= i < j < next.len() implies (#[trigger] next[i]).1.ino != (
        #[trigger] next[j]).1.ino by {
            lemma_lookup_line(next, i);
            lemma_lookup_line(next, j);
            let x = next[i].0;
            let y = next[j].0;
            assert(x != y);
            assert(has_name(next, x));
            assert(has_name(next, y));
            lemma_ids_apart(old, low, issued, seen, last, name, e, next, n, x, y);
        }
    }
}

/// Two names of the table that a scan step leaves have two identifiers.
proof fn lemma_ids_apart(
    old: Table<Exposed>,
    low: int,
    issued: int,
    seen: Table<Exposed>,
    last: int,
    name: Seq<char>,
    e: Exposed,
    next: Table<Exposed>,
    n: int,
    x: Seq<char>,
    y: Seq<char>,
)
    requires
        distinct(old),
        ids_distinct(old),
        ids_within(old, low, issued),
        distinct(seen),
        ids_distinct(seen),
        ids_within(seen, low, last),
        0 <= low <= issued <= last <= n <= u64::MAX,
        forall|z: Seq<char>| #[trigger]
            has_name(seen, z) ==> {
                let ez = lookup(seen, z).unwrap();
                &&& has_name(old, z) ==> ez.ino == lookup(old, z).unwrap().ino
                &&& !has_name(old, z) ==> issued < ez.ino <= last
            },
        next == put(seen, name, e),
        e.ino == if has_name(seen, name) {
            lookup(seen, name).unwrap().ino
        } else if has_name(old, name) {
            lookup(old, name).unwrap().ino
        } else {
            (last + 1) as u64
        },
        n == if has_name(seen, name) || has_name(old, name) {
            last
        } else {
            last + 1
        },
        x != y,
        has_name(next, x),
        has_name(next, y),
    ensures
        lookup(next, x).unwrap().ino != lookup(next, y).unwrap().ino,
{
    lemma_put(seen, name, e);
    assert(lookup(next, x) == if x == name {
        Some(e)
    } else {
        lookup(seen, x)
    });
    assert(lookup(next, y) == if y == name {
        Some(e)
    } else {
        lookup(seen, y)
    });
    assert(has_name(next, x) == (x == name || has_name(seen, x)));
    assert(has_name(next, y) == (y == name || has_name(seen, y)));
    if x != name && y != name {
        let i = index_of(seen, x);
        let j = index_of(seen, y);
        assert(seen[i].0 == x && seen[j].0 == y);
        assert(i != j);
        if i < j {
            assert(seen[i].1.ino != seen[j].1.ino);
        } else {
            assert(seen[j].1.ino != seen[i].1.ino);
        }
    } else {
        // one of the two is the name of this step; the other was seen before
        let other = if x == name {
            y
        } else {
            x
        };
        assert(has_name(seen, other));
        let eo = lookup(seen, other).unwrap();
        let io = index_of(seen, other);
        assert(seen[io].1.ino == eo.ino);
        if has_name(seen, name) {
            let k = index_of(seen, name);
            assert(seen[k].0 == name);
            assert(k != io);
            if k < io {
                assert(seen[k].1.ino != seen[io].1.ino);
            } else {
                assert(seen[io].1.ino != seen[k].1.ino);
            }
        } else if has_name(old, name) {
            let k = index_of(old, name);
            assert(old[k].1.ino <= issued);
            if has_name(old, other) {
                let ko = index_of(old, other);
                assert(old[ko].0 == other);
                assert(k != ko);
                if k < ko {
                    assert(old[k].1.ino != old[ko].1.ino);
                } else {
                    assert(old[ko].1.ino != old[k].1.ino);
                }
            }
        } else {
            assert(e.ino == last + 1);
            assert(eo.ino <= last);
        }
    }
}

/// The real path of the subdirectory `name` of `base`.
pub open spec fn joined(base: Seq<char>, name: Seq<char>) -> Seq<char> {
    if base.len() > 0 && base.last() == '/' {
        base + name
    } else {
        base + seq!['/'] + name
    }
}

/// What a scan of `base` finds when the directory holds the subdirectories
/// `listing`: those that `rule` exposes, in order, each with its exposed
/// name and its real path. A subdirectory that the rule does not match is
/// left out.
pub open spec fn exposed_by(rule: Rule, base: Seq<char>, listing: Seq<Seq<char>>) -> Found
    decreases listing.len(),
{
    if listing.len() == 0 {
        Seq::empty()
    } else {
        let rest = exposed_by(rule, base, listing.drop_last());
        match rule.renamed(listing.last()) {
            Some(name) => rest.push((name, joined(base, listing.last()))),
            None => rest,
        }
    }
}

/// The names and identifiers of a mirror's entries, in order.
pub open spec fn entry_names(t: Table<Exposed>) -> Table<u64> {
    Seq::new(t.len(), |i: int| (t[i].0, t[i].1.ino))
}

/// The mathematical form of one mirror.
pub struct MirrorModel {
    /// The backing directory.
    pub base: Seq<char>,
    /// The renaming rule.
    pub rule: Rule,
    /// The exposed entries.
    pub entries: Table<Exposed>,
    /// When the mirror was last reconciled, if ever.
    pub checked: Option<u128>,
    /// The backing directory's modification time at the last scan, if any.
    pub modified: Option<u128>,
}

impl MirrorModel {
    /// The mirror was reconciled no longer than the window ago.
    pub open spec fn fresh(self, now: u128) -> bool {
        match self.checked {
            Some(at) => at <= now && now - at <= WINDOW,
            None => false,
        }
    }
}

/// What the driver of a scan reports.
pub enum Scanned {
    /// A listing of the directory was asked for at `offset`.
    Begin { offset: nat },
    /// The backing directory's modification time was read, or could not be.
    Stat { time: Option<u128> },
    /// The backing directory's subdirectories were listed, or could not be;
    /// `modified` is the modification time read before.
    Listed { modified: u128, names: Option<Seq<Seq<char>>> },
}

/// What the driver of a scan is to do next.
#[derive(Clone, Copy, PartialEq, Eq, Structural, Debug)]
pub enum ScanAction {
    /// Nothing: the entries as they stand are served.
    Serve,
    /// Read the backing directory's modification time and report it.
    ReadModified,
    /// List the backing directory's subdirectories and report them.
    ListDirectory,
}

/// The mathematical form of the mirror index.
pub struct MirrorsModel {
    /// The names and aliases of the mirrors, each with its mirror's identifier.
    pub names: Table<u64>,
    /// The mirrors; mirror `k` has the identifier `INO + k + 1`.
    pub mirrors: Seq<MirrorModel>,
    /// The last entry identifier handed out.
    pub issued: u64,
}

impl MirrorsModel {
    /// `ino` is the identifier of a mirror.
    pub open spec fn has_mirror(self, ino: u64) -> bool {
        INO < ino <= INO + self.mirrors.len()
    }

    /// The place of mirror `ino` among the mirrors.
    pub open spec fn slot(ino: u64) -> int {
        ino - INO - 1
    }

    /// Mirror `k` exposes an entry with identifier `id`.
    pub open spec fn owns(self, k: int, id: u64) -> bool {
        0 <= k < self.mirrors.len() && has_entry(self.mirrors[k].entries, id)
    }

    /// Some mirror exposes an entry with identifier `id`.
    pub open spec fn has_entry(self, id: u64) -> bool {
        exists|k: int| #[trigger] self.owns(k, id)
    }

    /// The mirror that exposes the entry `id`, where one does.
    pub open spec fn owner(self, id: u64) -> int {
        choose|k: int| #[trigger] self.owns(k, id)
    }

    /// The invariant of the index. Names are not repeated and stand for
    /// mirrors; in each mirror exposed names are not repeated; every entry
    /// identifier was handed out by the shared counter, and no two entries,
    /// of one mirror or of two, share one.
    pub open spec fn wf(self) -> bool {
        &&& distinct(self.names)
        &&& forall|i: int|
            0 <= i < self.names.len() ==> self.has_mirror((#[trigger] self.names[i]).1)
        &&& INO + self.mirrors.len() <= Namespace::Mirrors.last()
        &&& ENTRIES_BASE <= self.issued <= Namespace::MirrorEntries.last()
        &&& forall|k: int|
            0 <= k < self.mirrors.len() ==> {
                &&& distinct((#[trigger] self.mirrors[k]).entries)
                &&& ids_within(self.mirrors[k].entries, ENTRIES_BASE as int, self.issued as int)
            }
        &&& forall|k1: int, i1: int, k2: int, i2: int|
            0 <= k1 < self.mirrors.len() && 0 <= i1 < self.mirrors[k1].entries.len() && 0 <= k2
                < self.mirrors.len() && 0 <= i2 < self.mirrors[k2].entries.len() && (
            #[trigger] self.mirrors[k1].entries[i1]).1.ino == (
            #[trigger] self.mirrors[k2].entries[i2]).1.ino ==> k1 == k2 && i1 == i2
    }

    /// The attributes of `ino`: those of a directory for the index and for a
    /// mirror, those of a symbolic link for an exposed entry.
    pub open spec fn attr(self, ino: u64) -> Option<Attr> {
        if ino == INO {
            Some(Attr::of_directory(ino, self.names.len()))
        } else if self.has_mirror(ino) {
            Some(Attr::of_directory(ino, self.mirrors[Self::slot(ino)].entries.len()))
        } else if self.has_entry(ino) {
            Some(Attr::of_symlink(ino))
        } else {
            None
        }
    }

    /// The attributes of the entry `name` of the directory `parent`. Under
    /// the root the one entry is the index itself, whatever `name` is: the
    /// caller has matched the name.
    pub open spec fn lookup(self, parent: u64, name: Seq<char>) -> Option<Attr> {
        if parent == ROOT_INO {
            self.attr(INO)
        } else if parent == INO {
            match lookup(self.names, name) {
                Some(ino) => self.attr(ino),
                None => None,
            }
        } else if self.has_mirror(parent) {
            match lookup(self.mirrors[Self::slot(parent)].entries, name) {
                Some(e) => Some(Attr::of_symlink(e.ino)),
                None => None,
            }
        } else {
            None
        }
    }

    /// The full listing of the directory `ino`.
    pub open spec fn list(self, ino: u64) -> Option<Seq<Line>> {
        if ino == INO {
            Some(listing(self.names, FileKind::Directory))
        } else if self.has_mirror(ino) {
            Some(listing(entry_names(self.mirrors[Self::slot(ino)].entries), FileKind::Symlink))
        } else {
            None
        }
    }

    /// The answer to a request for the listing of `ino` at `offset`.
    pub open spec fn readdir(self, ino: u64, offset: nat) -> Option<Seq<Line>> {
        match self.list(ino) {
            Some(full) => Some(page(full, offset)),
            None => None,
        }
    }

    /// The real path that the entry `ino` links to.
    pub open spec fn readlink(self, ino: u64) -> Option<Seq<char>> {
        if self.has_entry(ino) {
            let entries = self.mirrors[self.owner(ino)].entries;
            Some(entries[entry_of(entries, ino)].1.target)
        } else {
            None
        }
    }

    /// The backing directory of the mirror `ino`.
    pub open spec fn base(self, ino: u64) -> Option<Seq<char>> {
        if self.has_mirror(ino) {
            Some(self.mirrors[Self::slot(ino)].base)
        } else {
            None
        }
    }

    /// The index after a mirror was added under `name` and `aliases`.
    pub open spec fn added(
        self,
        name: Seq<char>,
        base: Seq<char>,
        rule: Rule,
        aliases: Seq<Seq<char>>,
    ) -> MirrorsModel {
        MirrorsModel {
            names: extended(
                self.names,
                with_aliases(name, aliases),
                (INO + self.mirrors.len() + 1) as u64,
            ),
            mirrors: self.mirrors.push(
                MirrorModel { base, rule, entries: Seq::empty(), checked: None, modified: None },
            ),
            issued: self.issued,
        }
    }

    /// The index after mirror `k` was found unchanged, or could not be
    /// scanned, at `now`: its entries stay and it is fresh again.
    pub open spec fn touched(self, k: int, now: u128) -> MirrorsModel {
        MirrorsModel {
            mirrors: self.mirrors.update(
                k,
                MirrorModel { checked: Some(now), ..self.mirrors[k] },
            ),
            ..self
        }
    }

    /// The index after a scan of mirror `k` at `now` found `found`, the
    /// backing directory's modification time being `modified`. Where the
    /// entry identifiers do not suffice the mirror keeps its entries.
    pub open spec fn reconciled(
        self,
        k: int,
        now: u128,
        modified: u128,
        found: Found,
    ) -> MirrorsModel {
        let (entries, last) = rebuilt(self.mirrors[k].entries, self.issued as int, found);
        if last <= Namespace::MirrorEntries.last() {
            MirrorsModel {
                mirrors: self.mirrors.update(
                    k,
                    MirrorModel {
                        entries,
                        checked: Some(now),
                        modified: Some(modified),
                        ..self.mirrors[k]
                    },
                ),
                issued: last as u64,
                ..self
            }
        } else {
            self.touched(k, now)
        }
    }

    /// One step of a scan: the index after the event, and what the driver is
    /// to do next.
    ///
    /// A scan begins only with a listing asked for at offset zero of a
    /// mirror that is not fresh. A modification time equal to the one of the
    /// last scan ends it with the entries as they are. A failure to read the
    /// time or the directory ends it too, and the mirror is tried again when
    /// the window has passed.
    pub open spec fn step(self, ino: u64, now: u128, event: Scanned) -> (MirrorsModel, ScanAction) {
        if !self.has_mirror(ino) {
            (self, ScanAction::Serve)
        } else {
            let k = Self::slot(ino);
            let m = self.mirrors[k];
            match event {
                Scanned::Begin { offset } => if offset == 0 && !m.fresh(now) {
                    (self, ScanAction::ReadModified)
                } else {
                    (self, ScanAction::Serve)
                },
                Scanned::Stat { time: None } => (self.touched(k, now), ScanAction::Serve),
                Scanned::Stat { time: Some(at) } => if m.modified == Some(at) {
                    (self.touched(k, now), ScanAction::Serve)
                } else {
                    (self, ScanAction::ListDirectory)
                },
                Scanned::Listed { modified, names: None } => (
                    self.touched(k, now),
                    ScanAction::Serve,
                ),
                Scanned::Listed { modified, names: Some(listing) } => (
                    self.reconciled(k, now, modified, exposed_by(m.rule, m.base, listing)),
                    ScanAction::Serve,
                ),
            }
        }
    }
}

/// The invariant survives a mirror found unchanged.
pub proof fn lemma_touched_wf(m: MirrorsModel, k: int, now: u128)
    requires
        m.wf(),
        0 <= k < m.mirrors.len(),
    ensures
        m.touched(k, now).wf(),
{
    let t = m.touched(k, now);
    assert forall|j: int| 0 <= j < t.mirrors.len() implies (#[trigger] t.mirrors[j]).entries
        == m.mirrors[j].entries by {}
    assert forall|j: int| 0 <= j < t.mirrors.len() implies {
        &&& distinct((#[trigger] t.mirrors[j]).entries)
        &&& ids_within(t.mirrors[j].entries, ENTRIES_BASE as int, t.issued as int)
    } by {
        assert(t.mirrors[j].entries == m.mirrors[j].entries);
    }
    assert forall|k1: int, i1: int, k2: int, i2: int|
        0 <= k1 < t.mirrors.len() && 0 <= i1 < t.mirrors[k1].entries.len() && 0 <= k2
            < t.mirrors.len() && 0 <= i2 < t.mirrors[k2].entries.len() && (
        #[trigger] t.mirrors[k1].entries[i1]).1.ino == (
        #[trigger] t.mirrors[k2].entries[i2]).1.ino implies k1 == k2 && i1 == i2 by {
        assert(t.mirrors[k1].entries == m.mirrors[k1].entries);
        assert(t.mirrors[k2].entries == m.mirrors[k2].entries);
        assert(m.mirrors[k1].entries[i1].1.ino == m.mirrors[k2].entries[i2].1.ino);
    }
}

/// The entries of one mirror of a well-formed index have no identifier
/// twice.
pub proof fn lemma_mirror_ids_distinct(m: MirrorsModel, k: int)
    requires
        m.wf(),
        0 <= k < m.mirrors.len(),
    ensures
        ids_distinct(m.mirrors[k].entries),
{
    let t = m.mirrors[k].entries;
    assert forall|i: int, j: int| 0 <= i < j < t.len() implies (#[trigger] t[i]).1.ino != (
    #[trigger] t[j]).1.ino by {
        if m.mirrors[k].entries[i].1.ino == m.mirrors[k].entries[j].1.ino {
            assert(i == j);
        }
    }
}

/// The invariant survives a scan.
pub proof fn lemma_reconciled_wf(m: MirrorsModel, k: int, now: u128, modified: u128, found: Found)
    requires
        m.wf(),
        0 <= k < m.mirrors.len(),
    ensures
        m.reconciled(k, now, modified, found).wf(),
{
    let old = m.mirrors[k].entries;
    let (entries, last) = rebuilt(old, m.issued as int, found);
    if last <= Namespace::MirrorEntries.last() {
        let r = m.reconciled(k, now, modified, found);
        lemma_mirror_ids_distinct(m, k);
        lemma_rebuilt_grows(old, m.issued as int, found, 0);
        lemma_rebuilt(old, ENTRIES_BASE as int, m.issued as int, found);
        assert(r.mirrors[k].entries == entries);
        assert forall|j: int| 0 <= j < r.mirrors.len() implies {
            &&& distinct((#[trigger] r.mirrors[j]).entries)
            &&& ids_within(r.mirrors[j].entries, ENTRIES_BASE as int, r.issued as int)
        } by {
            if j != k {
                assert(r.mirrors[j].entries == m.mirrors[j].entries);
                assert(ids_within(m.mirrors[j].entries, ENTRIES_BASE as int, m.issued as int));
            }
        }
        assert forall|k1: int, i1: int, k2: int, i2: int|
            0 <= k1 < r.mirrors.len() && 0 <= i1 < r.mirrors[k1].entries.len() && 0 <= k2
                < r.mirrors.len() && 0 <= i2 < r.mirrors[k2].entries.len() && (
            #[trigger] r.mirrors[k1].entries[i1]).1.ino == (
            #[trigger] r.mirrors[k2].entries[i2]).1.ino implies k1 == k2 && i1 == i2 by {
            if k1 == k && k2 == k {
                if i1 < i2 {
                    assert(entries[i1].1.ino != entries[i2].1.ino);
                } else if i2 < i1 {
                    assert(entries[i2].1.ino != entries[i1].1.ino);
                }
            } else if k1 != k && k2 != k {
                assert(r.mirrors[k1].entries == m.mirrors[k1].entries);
                assert(r.mirrors[k2].entries == m.mirrors[k2].entries);
                assert(m.mirrors[k1].entries[i1].1.ino == m.mirrors[k2].entries[i2].1.ino);
            } else {
                let (kk, ik, ko, io) = if k1 == k {
                    (k1, i1, k2, i2)
                } else {
                    (k2, i2, k1, i1)
                };
                assert(r.mirrors[ko].entries == m.mirrors[ko].entries);
                let other = m.mirrors[ko].entries[io];
                assert(ids_within(m.mirrors[ko].entries, ENTRIES_BASE as int, m.issued as int));
                assert(other.1.ino <= m.issued);
                lemma_kept_or_new(old, m.issued as int, found, ik);
                let x = entries[ik].0;
                if has_name(old, x) {
                    let o = index_of(old, x);
                    assert(m.mirrors[k].entries[o].1.ino == m.mirrors[ko].entries[io].1.ino);
                    assert(false);
                }
            }
        }
    } else {
        lemma_touched_wf(m, k, now);
    }
}

/// A line of a mirror after a scan carries an identifier that the mirror
/// had under the same name, or one that had not been handed out.
pub proof fn lemma_kept_or_new(old: Table<Exposed>, issued: int, found: Found, i: int)
    requires
        distinct(old),
        ids_distinct(old),
        ids_within(old, 0, issued),
        0 <= issued,
        rebuilt(old, issued, found).1 <= u64::MAX,
        0 <= i < rebuilt(old, issued, found).0.len(),
    ensures
        ({
            let line = rebuilt(old, issued, found).0[i];
            if has_name(old, line.0) {
                line.1.ino == old[index_of(old, line.0)].1.ino
            } else {
                issued < line.1.ino <= rebuilt(old, issued, found).1
            }
        }),
{
    let next = rebuilt(old, issued, found).0;
    lemma_rebuilt(old, 0, issued, found);
    lemma_lookup_line(next, i);
    assert(has_name(next, next[i].0));
}

/// One exposed entry of a mirror.
struct MirrorEntry {
    name: String,
    ino: u64,
    target: String,
}

impl DeepView for MirrorEntry {
    type V = (Seq<char>, Exposed);

    closed spec fn deep_view(&self) -> (Seq<char>, Exposed) {
        (self.name@, Exposed { ino: self.ino, target: self.target@ })
    }
}

/// One mirror.
struct Mirror {
    base: String,
    rule: RenamingRule,
    entries: Vec<MirrorEntry>,
    checked: Option<u128>,
    modified: Option<u128>,
}

impl DeepView for Mirror {
    type V = MirrorModel;

    closed spec fn deep_view(&self) -> MirrorModel {
        MirrorModel {
            base: self.base@,
            rule: self.rule@,
            entries: self.entries.deep_view(),
            checked: self.checked,
            modified: self.modified,
        }
    }
}

impl Mirror {
    /// The attributes of the entry exposed as `name`.
    fn attr(&self, name: &str) -> (attr: Option<Attr>)
        requires
            distinct(self.deep_view().entries),
        ensures
            attr == match lookup(self.deep_view().entries, name@) {
                Some(e) => Some(Attr::of_symlink(e.ino)),
                None => None,
            },
    {
        match find_entry(&self.entries, name) {
            Some(i) => Some(Attr::symlink(self.entries[i].ino)),
            None => None,
        }
    }

    /// Takes over what a scan found, with identifiers for new names from
    /// `ids`, the counter that all mirrors share. Returns whether the
    /// identifiers sufficed; where they did not, the entries stay and the
    /// counter with them. Either way the mirror counts as reconciled at
    /// `now`.
    fn update(
        &mut self,
        ids: &mut IdAllocator,
        now: u128,
        modified: u128,
        found: &Vec<(String, String)>,
    ) -> (taken: bool)
        requires
            distinct(old(self).deep_view().entries),
            old(ids).wf(),
            old(ids).space() == Namespace::MirrorEntries,
        ensures
            final(ids).wf(),
            final(ids).space() == Namespace::MirrorEntries,
            ({
                let before = old(self).deep_view();
                let (entries, last) = rebuilt(
                    before.entries,
                    old(ids).issued() as int,
                    found.deep_view(),
                );
                if last <= Namespace::MirrorEntries.last() {
                    &&& taken
                    &&& final(ids).issued() == last
                    &&& final(self).deep_view() == MirrorModel {
                        entries,
                        checked: Some(now),
                        modified: Some(modified),
                        ..before
                    }
                } else {
                    &&& !taken
                    &&& final(ids).issued() == old(ids).issued()
                    &&& final(self).deep_view() == MirrorModel { checked: Some(now), ..before }
                }
            }),
    {
        match rebuild(&self.entries, *ids, found) {
            Some((entries, after)) => {
                self.entries = entries;
                self.checked = Some(now);
                self.modified = Some(modified);
                *ids = after;
                true
            },
            None => {
                self.checked = Some(now);
                false
            },
        }
    }
}

/// What the driver of a scan reports; see [`Scanned`].
pub enum ScanEvent {
    /// A listing of the directory was asked for at `offset`.
    Begin { offset: usize },
    /// The backing directory's modification time, in nanoseconds since the
    /// epoch, or `None` where it could not be read.
    Stat { time: Option<u128> },
    /// The names of the backing directory's subdirectories, or `None` where
    /// they could not be listed; `modified` is the time read before.
    Listed { modified: u128, names: Option<Vec<String>> },
}

impl DeepView for ScanEvent {
    type V = Scanned;

    open spec fn deep_view(&self) -> Scanned {
        match self {
            ScanEvent::Begin { offset } => Scanned::Begin { offset: *offset as nat },
            ScanEvent::Stat { time } => Scanned::Stat { time: *time },
            ScanEvent::Listed { modified, names } => Scanned::Listed {
                modified: *modified,
                names: names.deep_view(),
            },
        }
    }
}

/// The real path of the subdirectory `name` of `base`.
pub fn join(base: &str, name: &str) -> (path: String)
    ensures
        path@ == joined(base@, name@),
{
    let n: usize = base.unicode_len();
    let mut path = base.to_owned();
    if n == 0 || base.get_char(n - 1) != '/' {
        proof {
            reveal_strlit("/");
        }
        path.append("/");
        assert(path@ =~= base@ + seq!['/']);
    }
    path.append(name);
    path
}

/// What a scan of `base` finds when the directory holds the subdirectories
/// `listing`.
pub fn scan(rule: &RenamingRule, base: &str, listing: &Vec<String>) -> (found: Vec<
    (String, String),
>)
    ensures
        found.deep_view() == exposed_by(rule@, base@, listing.deep_view()),
{
    let mut found: Vec<(String, String)> = Vec::new();
    let mut i: usize = 0;
    assert(listing.deep_view().take(0) =~= Seq::<Seq<char>>::empty());
    assert(found.deep_view() =~= Seq::<(Seq<char>, Seq<char>)>::empty());
    while i < listing.len()
        invariant
            i <= listing@.len(),
            found.deep_view() == exposed_by(rule@, base@, listing.deep_view().take(i as int)),
        decreases listing@.len() - i,
    {
        let ghost before = found.deep_view();
        let ghost upto = listing.deep_view().take(i + 1);
        assert(upto.drop_last() =~= listing.deep_view().take(i as int));
        assert(upto.last() == listing[i as int]@);
        match rule.rename(listing[i].as_str()) {
            Some(name) => {
                let path = join(base, listing[i].as_str());
                let ghost pair = (name@, path@);
                found.push((name, path));
                assert(found.deep_view() =~= before.push(pair));
            },
            None => {},
        }
        i = i + 1;
    }
    assert(listing.deep_view().take(i as int) =~= listing.deep_view());
    found
}

/// The line on which `name` stands among `entries`.
fn find_entry(entries: &Vec<MirrorEntry>, name: &str) -> (at: Option<usize>)
    requires
        distinct(entries.deep_view()),
    ensures
        match at {
            Some(i) => has_name(entries.deep_view(), name@) && i == index_of(
                entries.deep_view(),
                name@,
            ) && i < entries@.len(),
            None => !has_name(entries.deep_view(), name@),
        },
{
    let mut i: usize = 0;
    while i < entries.len()
        invariant
            i <= entries@.len(),
            distinct(entries.deep_view()),
            forall|j: int| 0 <= j < i ==> (#[trigger] entries.deep_view()[j]).0 != name@,
        decreases entries@.len() - i,
    {
        if entries[i].name.as_str().eq(name) {
            proof {
                assert(entries.deep_view()[i as int].0 == name@);
                lemma_lookup_line(entries.deep_view(), i as int);
            }
            return Some(i);
        }
        i = i + 1;
    }
    None
}

/// The line that carries the identifier `ino` among `entries`.
fn find_ino(entries: &Vec<MirrorEntry>, ino: u64) -> (at: Option<usize>)
    ensures
        match at {
            Some(i) => i < entries@.len() && entries.deep_view()[i as int].1.ino == ino,
            None => !has_entry(entries.deep_view(), ino),
        },
{
    let mut i: usize = 0;
    while i < entries.len()
        invariant
            i <= entries@.len(),
            forall|j: int| 0 <= j < i ==> (#[trigger] entries.deep_view()[j]).1.ino != ino,
        decreases entries@.len() - i,
    {
        if entries[i].ino == ino {
            return Some(i);
        }
        i = i + 1;
    }
    None
}

/// The entries of a mirror after a scan, with the counter as the scan
/// leaves it; `None` where the counter does not reach.
fn rebuild(
    old: &Vec<MirrorEntry>,
    ids: IdAllocator,
    found: &Vec<(String, String)>,
) -> (next: Option<(Vec<MirrorEntry>, IdAllocator)>)
    requires
        distinct(old.deep_view()),
        ids.wf(),
        ids.space() == Namespace::MirrorEntries,
    ensures
        match next {
            Some((entries, after)) => {
                &&& (entries.deep_view(), after.issued() as int) == rebuilt(
                    old.deep_view(),
                    ids.issued() as int,
                    found.deep_view(),
                )
                &&& after.wf()
                &&& after.space() == Namespace::MirrorEntries
            },
            None => rebuilt(old.deep_view(), ids.issued() as int, found.deep_view()).1
                > Namespace::MirrorEntries.last(),
        },
{
    let mut entries: Vec<MirrorEntry> = Vec::new();
    let mut after = ids;
    let mut i: usize = 0;
    assert(found.deep_view().take(0) =~= Seq::<(Seq<char>, Seq<char>)>::empty());
    assert(entries.deep_view() =~= Seq::<(Seq<char>, Exposed)>::empty());
    while i < found.len()
        invariant
            i <= found@.len(),
            distinct(old.deep_view()),
            distinct(entries.deep_view()),
            after.wf(),
            after.space() == Namespace::MirrorEntries,
            (entries.deep_view(), after.issued() as int) == rebuilt(
                old.deep_view(),
                ids.issued() as int,
                found.deep_view().take(i as int),
            ),
        decreases found@.len() - i,
    {
        let ghost seen = entries.deep_view();
        let ghost upto = found.deep_view().take(i + 1);
        assert(upto.drop_last() =~= found.deep_view().take(i as int));
        assert(upto.last() == (found[i as int].0@, found[i as int].1@));
        let name = found[i].0.clone();
        let target = found[i].1.clone();
        match find_entry(&entries, name.as_str()) {
            Some(k) => {
                let ino: u64 = entries[k].ino;
                proof {
                    lemma_put(seen, name@, Exposed { ino, target: target@ });
                }
                entries[k] = MirrorEntry { name, ino, target };
                assert(entries.deep_view() =~= put(
                    seen,
                    found[i as int].0@,
                    Exposed { ino, target: found[i as int].1@ },
                ));
            },
            None => {
                let ino: u64 = match find_entry(old, name.as_str()) {
                    Some(k) => old[k].ino,
                    None => match after.allocate() {
                        Some(id) => id,
                        None => {
                            proof {
                                lemma_rebuilt_grows(
                                    old.deep_view(),
                                    ids.issued() as int,
                                    found.deep_view(),
                                    i + 1,
                                );
                            }
                            return None;
                        },
                    },
                };
                proof {
                    lemma_put(seen, name@, Exposed { ino, target: target@ });
                }
                entries.push(MirrorEntry { name, ino, target });
                assert(entries.deep_view() =~= put(
                    seen,
                    found[i as int].0@,
                    Exposed { ino, target: found[i as int].1@ },
                ));
            },
        }
        i = i + 1;
    }
    assert(found.deep_view().take(i as int) =~= found.deep_view());
    Some((entries, after))
}

/// The lines of `entries` from `offset` on, as directory entries.
fn list_entries(entries: &Vec<MirrorEntry>, offset: usize) -> (lines: Vec<DirEntry>)
    ensures
        lines.deep_view() == page(
            listing(entry_names(entries.deep_view()), FileKind::Symlink),
            offset as nat,
        ),
{
    let ghost full = listing(entry_names(entries.deep_view()), FileKind::Symlink);
    let mut lines: Vec<DirEntry> = Vec::new();
    if offset > entries.len() {
        assert(lines.deep_view() =~= page(full, offset as nat));
        return lines;
    }
    let mut i: usize = offset;
    while i < entries.len()
        invariant
            offset <= i <= entries@.len(),
            full == listing(entry_names(entries.deep_view()), FileKind::Symlink),
            lines.deep_view() == full.subrange(offset as int, i as int),
        decreases entries@.len() - i,
    {
        let line = DirEntry {
            ino: entries[i].ino,
            offset: i + 1,
            kind: FileKind::Symlink,
            name: entries[i].name.clone(),
        };
        let ghost before = lines.deep_view();
        let ghost added = line.deep_view();
        assert(added == full[i as int]);
        lines.push(line);
        assert(lines.deep_view() =~= before.push(added));
        i = i + 1;
        assert(lines.deep_view() =~= full.subrange(offset as int, i as int));
    }
    assert(lines.deep_view() =~= page(full, offset as nat));
    lines
}

/// In a well-formed index an entry is found in one place only: the mirror
/// that holds a line with an identifier is the identifier's owner, and the
/// line's target is what the identifier links to.
pub proof fn lemma_entry_place(m: MirrorsModel, k: int, i: int)
    requires
        m.wf(),
        0 <= k < m.mirrors.len(),
        0 <= i < m.mirrors[k].entries.len(),
    ensures
        m.has_entry(m.mirrors[k].entries[i].1.ino),
        m.owner(m.mirrors[k].entries[i].1.ino) == k,
        entry_of(m.mirrors[k].entries, m.mirrors[k].entries[i].1.ino) == i,
        m.readlink(m.mirrors[k].entries[i].1.ino) == Some(m.mirrors[k].entries[i].1.target),
        !m.has_mirror(m.mirrors[k].entries[i].1.ino),
        m.mirrors[k].entries[i].1.ino != INO,
{
    let id = m.mirrors[k].entries[i].1.ino;
    assert(has_entry(m.mirrors[k].entries, id));
    assert(m.owns(k, id));
    let o = m.owner(id);
    assert(m.owns(o, id));
    let io = entry_of(m.mirrors[o].entries, id);
    assert(m.mirrors[o].entries[io].1.ino == m.mirrors[k].entries[i].1.ino);
    let ik = entry_of(m.mirrors[k].entries, id);
    assert(m.mirrors[k].entries[ik].1.ino == m.mirrors[k].entries[i].1.ino);
    assert(ids_within(m.mirrors[k].entries, ENTRIES_BASE as int, m.issued as int));
}

/// A scan that finds the backing directory's modification time unchanged
/// changes nothing that can be seen: every mirror has the entries it had,
/// under the identifiers they had, and no identifier was handed out. The
/// mirror counts as fresh again.
pub proof fn lemma_unchanged_time_keeps_entries(m: MirrorsModel, ino: u64, now: u128, at: u128)
    requires
        m.wf(),
        m.has_mirror(ino),
        m.mirrors[MirrorsModel::slot(ino)].modified == Some(at),
    ensures
        m.step(ino, now, Scanned::Stat { time: Some(at) }).1 == ScanAction::Serve,
        m.step(ino, now, Scanned::Stat { time: Some(at) }).0.wf(),
        m.step(ino, now, Scanned::Stat { time: Some(at) }).0.names == m.names,
        m.step(ino, now, Scanned::Stat { time: Some(at) }).0.issued == m.issued,
        m.step(ino, now, Scanned::Stat { time: Some(at) }).0.mirrors.len() == m.mirrors.len(),
        forall|k: int|
            0 <= k < m.mirrors.len() ==> (#[trigger] m.step(
                ino,
                now,
                Scanned::Stat { time: Some(at) },
            ).0.mirrors[k]).entries == m.mirrors[k].entries,
        forall|id: u64| #[trigger]
            m.step(ino, now, Scanned::Stat { time: Some(at) }).0.list(id) == m.list(id),
        forall|id: u64| #[trigger]
            m.step(ino, now, Scanned::Stat { time: Some(at) }).0.readlink(id) == m.readlink(id),
        forall|id: u64| #[trigger]
            m.step(ino, now, Scanned::Stat { time: Some(at) }).0.attr(id) == m.attr(id),
        m.step(ino, now, Scanned::Stat { time: Some(at) }).0.mirrors[MirrorsModel::slot(
            ino,
        )].fresh(now),
{
    let s = MirrorsModel::slot(ino);
    let r = m.step(ino, now, Scanned::Stat { time: Some(at) }).0;
    assert(r == m.touched(s, now));
    lemma_touched_wf(m, s, now);
    lemma_same_entries(m, r);
}

/// Two well-formed indexes with the same names and the same entries in
/// every mirror answer alike.
proof fn lemma_same_entries(m: MirrorsModel, r: MirrorsModel)
    requires
        m.wf(),
        r.wf(),
        r.names == m.names,
        r.mirrors.len() == m.mirrors.len(),
        forall|k: int|
            0 <= k < m.mirrors.len() ==> (#[trigger] r.mirrors[k]).entries == m.mirrors[k].entries,
    ensures
        forall|id: u64| #[trigger] r.list(id) == m.list(id),
        forall|id: u64| #[trigger] r.readlink(id) == m.readlink(id),
        forall|id: u64| #[trigger] r.attr(id) == m.attr(id),
        forall|k: int, id: u64| #[trigger] r.owns(k, id) == m.owns(k, id),
{
    assert forall|k: int, id: u64| #[trigger] r.owns(k, id) == m.owns(k, id) by {
        if 0 <= k < m.mirrors.len() {
            assert(r.mirrors[k].entries == m.mirrors[k].entries);
        }
    }
    assert forall|id: u64| r.has_entry(id) == m.has_entry(id) by {
        if r.has_entry(id) {
            assert(m.owns(r.owner(id), id));
        }
        if m.has_entry(id) {
            assert(r.owns(m.owner(id), id));
        }
    }
    assert forall|id: u64| #[trigger] r.readlink(id) == m.readlink(id) by {
        if m.has_entry(id) {
            let k = m.owner(id);
            assert(m.owns(k, id));
            let i = entry_of(m.mirrors[k].entries, id);
            assert(r.mirrors[k].entries == m.mirrors[k].entries);
            lemma_entry_place(m, k, i);
            lemma_entry_place(r, k, i);
        }
    }
    assert forall|id: u64| #[trigger] r.list(id) == m.list(id) by {
        if m.has_mirror(id) {
            assert(r.mirrors[MirrorsModel::slot(id)].entries == m.mirrors[MirrorsModel::slot(
                id,
            )].entries);
        }
    }
    assert forall|id: u64| #[trigger] r.attr(id) == m.attr(id) by {
        if m.has_mirror(id) {
            assert(r.mirrors[MirrorsModel::slot(id)].entries == m.mirrors[MirrorsModel::slot(
                id,
            )].entries);
        }
    }
}

/// The beginning of a scan changes nothing, and reading the time changes no
/// entry: only a listing of the backing directory does.
pub proof fn lemma_only_listing_changes_entries(
    m: MirrorsModel,
    ino: u64,
    now: u128,
    event: Scanned,
)
    requires
        m.wf(),
        !(event is Listed),
    ensures
        event is Begin ==> m.step(ino, now, event).0 == m,
        m.step(ino, now, event).0.wf(),
        m.step(ino, now, event).0.names == m.names,
        m.step(ino, now, event).0.issued == m.issued,
        forall|id: u64| #[trigger] m.step(ino, now, event).0.list(id) == m.list(id),
        forall|id: u64| #[trigger] m.step(ino, now, event).0.readlink(id) == m.readlink(id),
        forall|id: u64| #[trigger] m.step(ino, now, event).0.attr(id) == m.attr(id),
{
    let r = m.step(ino, now, event).0;
    if m.has_mirror(ino) {
        let s = MirrorsModel::slot(ino);
        lemma_touched_wf(m, s, now);
        assert(r == m || r == m.touched(s, now));
    }
    assert forall|k: int| 0 <= k < m.mirrors.len() implies (#[trigger] r.mirrors[k]).entries
        == m.mirrors[k].entries by {}
    lemma_same_entries(m, r);
}

/// What a mirror exposes after a scan that it took over. A name is exposed
/// exactly when the scan met it, and links to the real path met last under
/// it. A name that the mirror exposed before has the identifier it had. A
/// new name has an identifier that was never handed out before.
pub proof fn lemma_reconciled_name(
    m: MirrorsModel,
    k: int,
    now: u128,
    modified: u128,
    found: Found,
    name: Seq<char>,
)
    requires
        m.wf(),
        0 <= k < m.mirrors.len(),
        rebuilt(m.mirrors[k].entries, m.issued as int, found).1 <= Namespace::MirrorEntries.last(),
    ensures
        m.reconciled(k, now, modified, found).wf(),
        m.issued <= m.reconciled(k, now, modified, found).issued,
        has_name(m.reconciled(k, now, modified, found).mirrors[k].entries, name) <==> latest(
            found,
            name,
        ) is Some,
        has_name(m.reconciled(k, now, modified, found).mirrors[k].entries, name) ==> {
            let e = lookup(m.reconciled(k, now, modified, found).mirrors[k].entries, name).unwrap();
            &&& Some(e.target) == latest(found, name)
            &&& m.reconciled(k, now, modified, found).readlink(e.ino) == Some(e.target)
            &&& has_name(m.mirrors[k].entries, name) ==> e.ino == lookup(
                m.mirrors[k].entries,
                name,
            ).unwrap().ino
            &&& !has_name(m.mirrors[k].entries, name) ==> m.issued < e.ino && !m.has_entry(e.ino)
        },
{
    let old = m.mirrors[k].entries;
    let r = m.reconciled(k, now, modified, found);
    lemma_reconciled_wf(m, k, now, modified, found);
    lemma_mirror_ids_distinct(m, k);
    lemma_rebuilt_grows(old, m.issued as int, found, 0);
    lemma_rebuilt(old, ENTRIES_BASE as int, m.issued as int, found);
    let next = rebuilt(old, m.issued as int, found).0;
    assert(r.mirrors[k].entries == next);
    if has_name(next, name) {
        let i = index_of(next, name);
        lemma_entry_place(r, k, i);
        let e = lookup(next, name).unwrap();
        if !has_name(old, name) {
            if m.has_entry(e.ino) {
                let o = m.owner(e.ino);
                assert(m.owns(o, e.ino));
                let j = entry_of(m.mirrors[o].entries, e.ino);
                assert(ids_within(m.mirrors[o].entries, ENTRIES_BASE as int, m.issued as int));
                assert(m.mirrors[o].entries[j].1.ino <= m.issued);
            }
        }
    }
}

/// The subdirectory met last among `listing` that `rule` exposes as `name`,
/// if it exposes any as `name`.
pub open spec fn last_exposed(rule: Rule, listing: Seq<Seq<char>>, name: Seq<char>) -> Option<
    Seq<char>,
>
    decreases listing.len(),
{
    if listing.len() == 0 {
        None
    } else if rule.renamed(listing.last()) == Some(name) {
        Some(listing.last())
    } else {
        last_exposed(rule, listing.drop_last(), name)
    }
}

/// What a scan finds under a name. A name is found exactly when the rule
/// gives it to some subdirectory of the listing, and the path found last
/// under it is that of the last such subdirectory. A subdirectory that the
/// rule does not match is found under no name.
pub proof fn lemma_exposed_by(rule: Rule, base: Seq<char>, listing: Seq<Seq<char>>, name: Seq<char>)
    ensures
        latest(exposed_by(rule, base, listing), name) == match last_exposed(rule, listing, name) {
            Some(dir) => Some(joined(base, dir)),
            None => None,
        },
        last_exposed(rule, listing, name) is Some ==> {
            &&& listing.contains(last_exposed(rule, listing, name).unwrap())
            &&& rule.renamed(last_exposed(rule, listing, name).unwrap()) == Some(name)
        },
        last_exposed(rule, listing, name) is None ==> forall|j: int|
            0 <= j < listing.len() ==> rule.renamed(#[trigger] listing[j]) != Some(name),
    decreases listing.len(),
{
    if listing.len() > 0 {
        let rest = listing.drop_last();
        lemma_exposed_by(rule, base, rest, name);
        let found = exposed_by(rule, base, listing);
        let before = exposed_by(rule, base, rest);
        match rule.renamed(listing.last()) {
            Some(n) => {
                assert(found == before.push((n, joined(base, listing.last()))));
                assert(found.drop_last() =~= before);
            },
            None => {},
        }
        if last_exposed(rule, listing, name) is Some {
            let dir = last_exposed(rule, listing, name).unwrap();
            if rule.renamed(listing.last()) == Some(name) {
                assert(listing[listing.len() - 1] == dir);
            } else {
                let j = choose|j: int| 0 <= j < rest.len() && rest[j] == dir;
                assert(listing[j] == dir);
            }
        } else {
            assert forall|j: int| 0 <= j < listing.len() implies rule.renamed(
                #[trigger] listing[j],
            ) != Some(name) by {
                if j < rest.len() {
                    assert(rest[j] == listing[j]);
                }
            }
        }
    }
}

/// What a mirror exposes after it took a listing over: `name` is exposed
/// exactly when the rule gives it to a subdirectory of the listing, and it
/// then links to the last such subdirectory of the backing directory.
pub proof fn lemma_listing_exposes(
    m: MirrorsModel,
    ino: u64,
    now: u128,
    modified: u128,
    listing: Seq<Seq<char>>,
    name: Seq<char>,
)
    requires
        m.wf(),
        m.has_mirror(ino),
        rebuilt(
            m.mirrors[MirrorsModel::slot(ino)].entries,
            m.issued as int,
            exposed_by(
                m.mirrors[MirrorsModel::slot(ino)].rule,
                m.mirrors[MirrorsModel::slot(ino)].base,
                listing,
            ),
        ).1 <= Namespace::MirrorEntries.last(),
    ensures
        ({
            let k = MirrorsModel::slot(ino);
            let after = m.step(ino, now, Scanned::Listed { modified, names: Some(listing) }).0;
            let dir = last_exposed(m.mirrors[k].rule, listing, name);
            &&& after.wf()
            &&& has_name(after.mirrors[k].entries, name) <==> dir is Some
            &&& dir is Some ==> {
                let e = lookup(after.mirrors[k].entries, name).unwrap();
                &&& e.target == joined(m.mirrors[k].base, dir.unwrap())
                &&& after.readlink(e.ino) == Some(e.target)
                &&& after.lookup(ino, name) == Some(Attr::of_symlink(e.ino))
            }
            &&& dir is None ==> after.lookup(ino, name) is None
        }),
{
    let k = MirrorsModel::slot(ino);
    let found = exposed_by(m.mirrors[k].rule, m.mirrors[k].base, listing);
    lemma_exposed_by(m.mirrors[k].rule, m.mirrors[k].base, listing, name);
    lemma_reconciled_name(m, k, now, modified, found, name);
}

/// An identifier that is not in use and was handed out before stays out of
/// use through every scan: the identifier of an entry that is gone is never
/// given to another.
pub proof fn lemma_never_reused(
    m: MirrorsModel,
    k: int,
    now: u128,
    modified: u128,
    found: Found,
    id: u64,
)
    requires
        m.wf(),
        0 <= k < m.mirrors.len(),
        !m.has_entry(id),
        id <= m.issued,
    ensures
        !m.reconciled(k, now, modified, found).has_entry(id),
        m.reconciled(k, now, modified, found).readlink(id) is None,
        m.issued <= m.reconciled(k, now, modified, found).issued,
{
    let old = m.mirrors[k].entries;
    let r = m.reconciled(k, now, modified, found);
    let (next, last) = rebuilt(old, m.issued as int, found);
    lemma_rebuilt_grows(old, m.issued as int, found, 0);
    if r.has_entry(id) {
        let o = r.owner(id);
        assert(r.owns(o, id));
        let j = entry_of(r.mirrors[o].entries, id);
        if last <= Namespace::MirrorEntries.last() && o == k {
            lemma_mirror_ids_distinct(m, k);
            assert(ids_within(old, ENTRIES_BASE as int, m.issued as int));
            lemma_kept_or_new(old, m.issued as int, found, j);
            let x = next[j].0;
            assert(has_name(old, x));
            assert(has_entry(old, id));
            assert(m.owns(k, id));
        } else {
            assert(r.mirrors[o].entries == m.mirrors[o].entries);
            assert(has_entry(m.mirrors[o].entries, id));
            assert(m.owns(o, id));
        }
    }
}

/// An entry whose subdirectory the scan did not meet is gone after the scan:
/// its identifier leads nowhere and has no attributes any more.
pub proof fn lemma_retired(m: MirrorsModel, k: int, now: u128, modified: u128, found: Found, i: int)
    requires
        m.wf(),
        0 <= k < m.mirrors.len(),
        0 <= i < m.mirrors[k].entries.len(),
        latest(found, m.mirrors[k].entries[i].0) is None,
        rebuilt(m.mirrors[k].entries, m.issued as int, found).1 <= Namespace::MirrorEntries.last(),
    ensures
        !m.reconciled(k, now, modified, found).has_entry(m.mirrors[k].entries[i].1.ino),
        m.reconciled(k, now, modified, found).readlink(m.mirrors[k].entries[i].1.ino) is None,
        m.reconciled(k, now, modified, found).attr(m.mirrors[k].entries[i].1.ino) is None,
{
    let old = m.mirrors[k].entries;
    let id = old[i].1.ino;
    let r = m.reconciled(k, now, modified, found);
    let (next, last) = rebuilt(old, m.issued as int, found);
    lemma_entry_place(m, k, i);
    lemma_mirror_ids_distinct(m, k);
    lemma_rebuilt_grows(old, m.issued as int, found, 0);
    lemma_rebuilt(old, ENTRIES_BASE as int, m.issued as int, found);
    assert(ids_within(old, ENTRIES_BASE as int, m.issued as int));
    if r.has_entry(id) {
        let o = r.owner(id);
        assert(r.owns(o, id));
        let j = entry_of(r.mirrors[o].entries, id);
        if o == k {
            lemma_kept_or_new(old, m.issued as int, found, j);
            let x = next[j].0;
            lemma_lookup_line(next, j);
            assert(has_name(next, x));
            assert(has_name(old, x));
            let p = index_of(old, x);
            assert(old[p].1.ino == old[i].1.ino);
            if p < i {
                assert(old[p].1.ino != old[i].1.ino);
            } else if i < p {
                assert(old[i].1.ino != old[p].1.ino);
            }
            assert(x == old[i].0);
        } else {
            assert(r.mirrors[o].entries == m.mirrors[o].entries);
            assert(m.mirrors[o].entries[j].1.ino == m.mirrors[k].entries[i].1.ino);
        }
    }
}

/// Adding a mirror keeps the invariant and touches nothing that was there:
/// every identifier that had attributes has them still, of the same kind,
/// and every link leads where it led.
pub proof fn lemma_mirror_added(
    m: MirrorsModel,
    name: Seq<char>,
    base: Seq<char>,
    rule: Rule,
    aliases: Seq<Seq<char>>,
)
    requires
        m.wf(),
        !m.full(),
        vacant(m.names, with_aliases(name, aliases)),
    ensures
        m.added(name, base, rule, aliases).wf(),
        forall|id: u64| #[trigger]
            m.added(name, base, rule, aliases).readlink(id) == m.readlink(id),
        forall|id: u64|
            m.attr(id) is Some ==> {
                &&& (#[trigger] m.added(name, base, rule, aliases).attr(id)) is Some
                &&& m.added(name, base, rule, aliases).attr(id).unwrap().kind == m.attr(
                    id,
                ).unwrap().kind
                &&& m.added(name, base, rule, aliases).attr(id).unwrap().ino == id
            },
{
    let r = m.added(name, base, rule, aliases);
    let all = with_aliases(name, aliases);
    crate::names::lemma_extended(m.names, all, (INO + m.mirrors.len() + 1) as u64);
    assert forall|i: int| 0 <= i < r.names.len() implies r.has_mirror((#[trigger] r.names[i]).1) by {
        if i < m.names.len() {
            assert(r.names[i] == m.names[i]);
            assert(m.has_mirror(m.names[i].1));
        }
    }
    assert forall|k: int| 0 <= k < r.mirrors.len() implies {
        &&& distinct((#[trigger] r.mirrors[k]).entries)
        &&& ids_within(r.mirrors[k].entries, ENTRIES_BASE as int, r.issued as int)
    } by {
        if k < m.mirrors.len() {
            assert(r.mirrors[k] == m.mirrors[k]);
            assert(ids_within(m.mirrors[k].entries, ENTRIES_BASE as int, m.issued as int));
        }
    }
    assert forall|k1: int, i1: int, k2: int, i2: int|
        0 <= k1 < r.mirrors.len() && 0 <= i1 < r.mirrors[k1].entries.len() && 0 <= k2
            < r.mirrors.len() && 0 <= i2 < r.mirrors[k2].entries.len() && (
        #[trigger] r.mirrors[k1].entries[i1]).1.ino == (
        #[trigger] r.mirrors[k2].entries[i2]).1.ino implies k1 == k2 && i1 == i2 by {
        assert(r.mirrors[k1] == m.mirrors[k1]);
        assert(r.mirrors[k2] == m.mirrors[k2]);
        assert(m.mirrors[k1].entries[i1].1.ino == m.mirrors[k2].entries[i2].1.ino);
    }
    assert forall|k: int, id: u64| #[trigger] r.owns(k, id) == m.owns(k, id) by {
        if 0 <= k < m.mirrors.len() {
            assert(r.mirrors[k] == m.mirrors[k]);
        }
    }
    assert forall|id: u64| r.has_entry(id) == m.has_entry(id) by {
        if r.has_entry(id) {
            assert(m.owns(r.owner(id), id));
        }
        if m.has_entry(id) {
            assert(r.owns(m.owner(id), id));
        }
    }
    assert forall|id: u64| #[trigger] r.readlink(id) == m.readlink(id) by {
        if m.has_entry(id) {
            let k = m.owner(id);
            assert(m.owns(k, id));
            let i = entry_of(m.mirrors[k].entries, id);
            assert(r.mirrors[k] == m.mirrors[k]);
            lemma_entry_place(m, k, i);
            lemma_entry_place(r, k, i);
        }
    }
    assert forall|id: u64| m.attr(id) is Some implies {
        &&& (#[trigger] r.attr(id)) is Some
        &&& r.attr(id).unwrap().kind == m.attr(id).unwrap().kind
        &&& r.attr(id).unwrap().ino == id
    } by {
        if id != INO && m.has_mirror(id) {
            assert(r.mirrors[MirrorsModel::slot(id)] == m.mirrors[MirrorsModel::slot(id)]);
        } else if id != INO {
            assert(m.has_entry(id));
            let k = m.owner(id);
            assert(m.owns(k, id));
            lemma_entry_place(m, k, entry_of(m.mirrors[k].entries, id));
            assert(r.has_entry(id));
        }
    }
}

/// The mirror index: the mirrors by name and by identifier, and the counter
/// that all mirrors take their entries' identifiers from.
pub struct Mirrors {
    ino: IdAllocator,
    entry_ino: IdAllocator,
    by_name: NameTable,
    by_ino: Vec<Mirror>,
}

impl View for Mirrors {
    type V = MirrorsModel;

    closed spec fn view(&self) -> MirrorsModel {
        MirrorsModel {
            names: self.by_name@,
            mirrors: self.by_ino.deep_view(),
            issued: self.entry_ino.issued(),
        }
    }
}

impl MirrorsModel {
    /// No mirror can be added: the identifiers are used up.
    pub open spec fn full(self) -> bool {
        INO + self.mirrors.len() >= Namespace::Mirrors.last()
    }
}

impl Mirrors {
    /// The two counters agree with what is stored.
    pub closed spec fn inv(&self) -> bool {
        &&& self.by_name.wf()
        &&& self.ino.wf()
        &&& self.ino.space() == Namespace::Mirrors
        &&& self.ino.issued() == INO + self.by_ino@.len()
        &&& self.entry_ino.wf()
        &&& self.entry_ino.space() == Namespace::MirrorEntries
    }

    /// The index is well formed.
    pub open spec fn wf(&self) -> bool {
        self@.wf() && self.inv()
    }

    /// An index without mirrors.
    pub fn new() -> (m: Mirrors)
        ensures
            m.wf(),
            m@.names.len() == 0,
            m@.mirrors.len() == 0,
            m@.issued == ENTRIES_BASE,
    {
        let m = Mirrors {
            ino: IdAllocator::new(Namespace::Mirrors),
            entry_ino: IdAllocator::new(Namespace::MirrorEntries),
            by_name: NameTable::new(),
            by_ino: Vec::new(),
        };
        assert(m.by_ino.deep_view() =~= Seq::<MirrorModel>::empty());
        m
    }

    /// Adds a mirror of the directory `base` under `name` and `aliases`, and
    /// returns its identifier. The mirror has no entries until it is first
    /// reconciled.
    ///
    /// Refused, with the index unchanged, where no identifier is left, and
    /// else where one of the names is taken or given twice.
    pub fn add_mirror(
        &mut self,
        name: String,
        base: String,
        renaming: RenamingRule,
        aliases: &Vec<String>,
    ) -> (added: Result<u64, ConfigError>)
        requires
            old(self).wf(),
        ensures
            final(self).wf(),
            match added {
                Ok(ino) => {
                    &&& !old(self)@.full()
                    &&& vacant(old(self)@.names, with_aliases(name@, aliases.deep_view()))
                    &&& ino == INO + old(self)@.mirrors.len() + 1
                    &&& final(self)@ == old(self)@.added(
                        name@,
                        base@,
                        renaming@,
                        aliases.deep_view(),
                    )
                },
                Err(e) => {
                    &&& final(self)@ == old(self)@
                    &&& if old(self)@.full() {
                        e == ConfigError::Exhausted
                    } else {
                        &&& e == ConfigError::DuplicateMirror
                        &&& !vacant(old(self)@.names, with_aliases(name@, aliases.deep_view()))
                    }
                },
            },
    {
        if self.ino.left() == 0 {
            return Err(ConfigError::Exhausted);
        }
        if !self.by_name.admits(name.as_str(), aliases) {
            return Err(ConfigError::DuplicateMirror);
        }
        let ino: u64 = match self.ino.allocate() {
            Some(ino) => ino,
            None => {
                return Err(ConfigError::Exhausted);
            },
        };
        let ghost model = self@.added(name@, base@, renaming@, aliases.deep_view());
        proof {
            lemma_mirror_added(self@, name@, base@, renaming@, aliases.deep_view());
        }
        self.by_name.extend(name, aliases, ino);
        let mirror = Mirror {
            base,
            rule: renaming,
            entries: Vec::new(),
            checked: None,
            modified: None,
        };
        assert(mirror.entries.deep_view() =~= Seq::<(Seq<char>, Exposed)>::empty());
        let ghost before = self.by_ino.deep_view();
        let ghost pushed = mirror.deep_view();
        self.by_ino.push(mirror);
        proof {
            assert(self.by_ino.deep_view() =~= before.push(pushed));
            assert(self@ == model);
        }
        Ok(ino)
    }

    /// The place of the mirror `ino` among the mirrors, if it is one.
    fn slot_of(&self, ino: u64) -> (at: Option<usize>)
        requires
            self.wf(),
        ensures
            match at {
                Some(k) => self@.has_mirror(ino) && k == MirrorsModel::slot(ino) && k
                    < self.by_ino@.len(),
                None => !self@.has_mirror(ino),
            },
    {
        let count: usize = self.by_ino.len();
        assert(self@.mirrors.len() == count);
        if ino > INO && ino <= self.ino.last() {
            assert(ino - INO - 1 < count);
            Some((ino - INO - 1) as usize)
        } else {
            None
        }
    }

    /// The place of the entry `ino`: its mirror and its line.
    fn locate(&self, ino: u64) -> (at: Option<(usize, usize)>)
        requires
            self.wf(),
        ensures
            match at {
                Some((k, i)) => {
                    &&& k < self.by_ino@.len()
                    &&& i < self.by_ino@[k as int].entries@.len()
                    &&& self@.mirrors[k as int].entries[i as int].1.ino == ino
                },
                None => !self@.has_entry(ino),
            },
    {
        let mut k: usize = 0;
        while k < self.by_ino.len()
            invariant
                k <= self.by_ino@.len(),
                forall|j: int| 0 <= j < k ==> !#[trigger] self@.owns(j, ino),
            decreases self.by_ino@.len() - k,
        {
            match find_ino(&self.by_ino[k].entries, ino) {
                Some(i) => {
                    return Some((k, i));
                },
                None => {},
            }
            k = k + 1;
        }
        None
    }

    /// The attributes of `ino`, or `None` where the index has no such
    /// directory or entry.
    pub fn getattr(&self, ino: u64) -> (attr: Option<Attr>)
        requires
            self.wf(),
        ensures
            attr == self@.attr(ino),
    {
        self.attr(ino)
    }

    /// The attributes of the entry `name` of the directory `parent`.
    pub fn lookup(&self, parent: u64, name: &str) -> (attr: Option<Attr>)
        requires
            self.wf(),
        ensures
            attr == self@.lookup(parent, name@),
    {
        if parent == ROOT_INO {
            self.attr(INO)
        } else if parent == INO {
            match self.by_name.get(name) {
                Some(ino) => self.attr(ino),
                None => None,
            }
        } else {
            match self.slot_of(parent) {
                Some(k) => self.by_ino[k].attr(name),
                None => None,
            }
        }
    }

    /// The entries of the directory `ino` from `offset` on, or `None` where
    /// `ino` is no directory of the index. This reads the entries as they
    /// stand: a scan, where one is due, comes before.
    pub fn readdir(&self, ino: u64, offset: usize) -> (lines: Option<Vec<DirEntry>>)
        requires
            self.wf(),
        ensures
            lines.deep_view() == self@.readdir(ino, offset as nat),
    {
        if ino == INO {
            Some(self.by_name.list(offset, FileKind::Directory))
        } else {
            match self.slot_of(ino) {
                Some(k) => Some(list_entries(&self.by_ino[k].entries, offset)),
                None => None,
            }
        }
    }

    /// The real path that the entry `ino` links to, or `None` where no
    /// mirror exposes such an entry.
    pub fn readlink(&self, ino: u64) -> (target: Option<String>)
        requires
            self.wf(),
        ensures
            target.deep_view() == self@.readlink(ino),
    {
        match self.locate(ino) {
            Some((k, i)) => {
                proof {
                    lemma_entry_place(self@, k as int, i as int);
                }
                Some(self.by_ino[k].entries[i].target.clone())
            },
            None => None,
        }
    }

    /// The backing directory of the mirror `ino`.
    pub fn base(&self, ino: u64) -> (path: Option<&str>)
        requires
            self.wf(),
        ensures
            path.deep_view() == self@.base(ino),
    {
        match self.slot_of(ino) {
            Some(k) => Some(self.by_ino[k].base.as_str()),
            None => None,
        }
    }

    /// The attributes of `ino`.
    fn attr(&self, ino: u64) -> (attr: Option<Attr>)
        requires
            self.wf(),
        ensures
            attr == self@.attr(ino),
    {
        if ino == INO {
            Some(Attr::directory(ino, self.by_name.len()))
        } else {
            match self.slot_of(ino) {
                Some(k) => Some(Attr::directory(ino, self.by_ino[k].entries.len())),
                None => match self.locate(ino) {
                    Some((k, i)) => {
                        proof {
                            lemma_entry_place(self@, k as int, i as int);
                        }
                        Some(Attr::symlink(ino))
                    },
                    None => None,
                },
            }
        }
    }

    /// Marks the mirror in place `k` as reconciled at `now`.
    fn touch(&mut self, k: usize, now: u128)
        requires
            old(self).wf(),
            k < old(self)@.mirrors.len(),
        ensures
            final(self).wf(),
            final(self)@ == old(self)@.touched(k as int, now),
    {
        self.by_ino[k].checked = Some(now);
        proof {
            assert(self.by_ino.deep_view() =~= old(self).by_ino.deep_view().update(
                k as int,
                MirrorModel { checked: Some(now), ..old(self).by_ino.deep_view()[k as int] },
            ));
            lemma_touched_wf(old(self)@, k as int, now);
        }
    }

    /// Takes over what a scan of the mirror `ino` found: `found` holds, in
    /// the order of the scan, each exposed name with the real path behind it,
    /// and `modified` is the backing directory's modification time.
    ///
    /// Returns whether the mirror took the scan over. It does not where
    /// `ino` is no mirror, and the index is then unchanged; nor where the
    /// entry identifiers do not suffice, and the mirror then keeps its
    /// entries and counts as reconciled at `now`.
    pub fn reconcile(
        &mut self,
        ino: u64,
        now: u128,
        modified: u128,
        found: &Vec<(String, String)>,
    ) -> (taken: bool)
        requires
            old(self).wf(),
        ensures
            final(self).wf(),
            final(self)@ == if old(self)@.has_mirror(ino) {
                old(self)@.reconciled(MirrorsModel::slot(ino), now, modified, found.deep_view())
            } else {
                old(self)@
            },
            taken == (old(self)@.has_mirror(ino) && rebuilt(
                old(self)@.mirrors[MirrorsModel::slot(ino)].entries,
                old(self)@.issued as int,
                found.deep_view(),
            ).1 <= Namespace::MirrorEntries.last()),
    {
        let k: usize = match self.slot_of(ino) {
            Some(k) => k,
            None => {
                return false;
            },
        };
        proof {
            lemma_reconciled_wf(self@, k as int, now, modified, found.deep_view());
        }
        assert forall|after: Vec<Mirror>|
            after@ == self.by_ino@.update(k as int, after@[k as int]) implies #[trigger]
            after.deep_view() == self.by_ino.deep_view().update(
                k as int,
                after@[k as int].deep_view(),
            ) by {
            assert(after.deep_view() =~= self.by_ino.deep_view().update(
                k as int,
                after@[k as int].deep_view(),
            ));
        }
        assert(self.by_ino.deep_view()[k as int] == self.by_ino@[k as int].deep_view());
        self.by_ino[k].update(&mut self.entry_ino, now, modified, found)
    }

    /// One step of a scan of the mirror `ino`: takes what the driver
    /// reports and says what it is to do next.
    pub fn scan_step(&mut self, ino: u64, now: u128, event: ScanEvent) -> (action: ScanAction)
        requires
            old(self).wf(),
        ensures
            final(self).wf(),
            (final(self)@, action) == old(self)@.step(ino, now, event.deep_view()),
    {
        let k: usize = match self.slot_of(ino) {
            Some(k) => k,
            None => {
                return ScanAction::Serve;
            },
        };
        match event {
            ScanEvent::Begin { offset } => {
                let fresh = match self.by_ino[k].checked {
                    Some(at) => at <= now && now - at <= WINDOW,
                    None => false,
                };
                if offset == 0 && !fresh {
                    ScanAction::ReadModified
                } else {
                    ScanAction::Serve
                }
            },
            ScanEvent::Stat { time: None } => {
                self.touch(k, now);
                ScanAction::Serve
            },
            ScanEvent::Stat { time: Some(at) } => {
                let same = match self.by_ino[k].modified {
                    Some(last) => last == at,
                    None => false,
                };
                if same {
                    self.touch(k, now);
                    ScanAction::Serve
                } else {
                    ScanAction::ListDirectory
                }
            },
            ScanEvent::Listed { modified, names: None } => {
                self.touch(k, now);
                ScanAction::Serve
            },
            ScanEvent::Listed { modified, names: Some(listing) } => {
                let found = scan(&self.by_ino[k].rule, self.by_ino[k].base.as_str(), &listing);
                self.reconcile(ino, now, modified, &found);
                ScanAction::Serve
            },
        }
    }
}

} // verus!
