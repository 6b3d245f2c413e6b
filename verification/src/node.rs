//! What the filesystem reports of an entry: its attributes and, in a
//! directory listing, its line.

use vstd::prelude::*;
use crate::names::Table;

verus! {

/// The two kinds of entry the filesystem has.
#[derive(Clone, Copy, PartialEq, Eq, Structural, Debug)]
pub enum FileKind {
    Directory,
    Symlink,
}

/// The permission bits of every entry: read and search, never write.
pub const PERM: u16 = 0o555;

/// The attributes of an entry. They are made up, not read from disk: sizes
/// are zero and the four times, in seconds since the epoch, are zero too.
#[derive(Clone, Copy, PartialEq, Eq, Structural, Debug)]
pub struct Attr {
    pub ino: u64,
    pub size: u64,
    pub blocks: u64,
    pub atime: u64,
    pub mtime: u64,
    pub ctime: u64,
    pub crtime: u64,
    pub kind: FileKind,
    pub perm: u16,
    pub nlink: u32,
    pub uid: u32,
    pub gid: u32,
    pub rdev: u32,
    pub blksize: u32,
    pub flags: u32,
}

/// The link count of a directory with `entries` entries: one more than the
/// entries, held at the largest `u32` where it would not fit.
pub open spec fn link_count(entries: nat) -> u32 {
    if entries < u32::MAX {
        (entries + 1) as u32
    } else {
        u32::MAX
    }
}

impl Attr {
    /// The attributes of a directory with identifier `ino` and `entries`
    /// entries.
    pub open spec fn of_directory(ino: u64, entries: nat) -> Attr {
        Attr {
            ino,
            size: 0,
            blocks: 0,
            atime: 0,
            mtime: 0,
            ctime: 0,
            crtime: 0,
            kind: FileKind::Directory,
            perm: PERM,
            nlink: link_count(entries),
            uid: 0,
            gid: 0,
            rdev: 0,
            blksize: 0,
            flags: 0,
        }
    }

    /// The attributes of a symbolic link with identifier `ino`.
    pub open spec fn of_symlink(ino: u64) -> Attr {
        Attr {
            ino,
            size: 0,
            blocks: 0,
            atime: 0,
            mtime: 0,
            ctime: 0,
            crtime: 0,
            kind: FileKind::Symlink,
            perm: PERM,
            nlink: 1,
            uid: 0,
            gid: 0,
            rdev: 0,
            blksize: 0,
            flags: 0,
        }
    }

    /// Builds the attributes of a directory.
    pub fn directory(ino: u64, entries: usize) -> (a: Attr)
        ensures
            a == Attr::of_directory(ino, entries as nat),
    {
        let nlink: u32 = if entries < u32::MAX as usize {
            entries as u32 + 1
        } else {
            u32::MAX
        };
        Attr {
            ino,
            size: 0,
            blocks: 0,
            atime: 0,
            mtime: 0,
            ctime: 0,
            crtime: 0,
            kind: FileKind::Directory,
            perm: PERM,
            nlink,
            uid: 0,
            gid: 0,
            rdev: 0,
            blksize: 0,
            flags: 0,
        }
    }

    /// Builds the attributes of a symbolic link.
    pub fn symlink(ino: u64) -> (a: Attr)
        ensures
            a == Attr::of_symlink(ino),
    {
        Attr {
            ino,
            size: 0,
            blocks: 0,
            atime: 0,
            mtime: 0,
            ctime: 0,
            crtime: 0,
            kind: FileKind::Symlink,
            perm: PERM,
            nlink: 1,
            uid: 0,
            gid: 0,
            rdev: 0,
            blksize: 0,
            flags: 0,
        }
    }
}

/// One line of a directory listing.
#[derive(Clone, Debug, PartialEq, Eq)]
pub struct DirEntry {
    /// The identifier of the entry.
    pub ino: u64,
    /// The offset at which a listing resumes after this line.
    pub offset: usize,
    /// The kind of the entry.
    pub kind: FileKind,
    /// The name of the entry.
    pub name: String,
}

/// The mathematical form of a [`DirEntry`].
pub struct Line {
    pub ino: u64,
    pub offset: nat,
    pub kind: FileKind,
    pub name: Seq<char>,
}

impl DeepView for DirEntry {
    type V = Line;

    open spec fn deep_view(&self) -> Line {
        Line { ino: self.ino, offset: self.offset as nat, kind: self.kind, name: self.name@ }
    }
}

/// The full listing of a directory whose entries are the lines of `t`, all of
/// kind `kind`: line `i` resumes at offset `i + 1`.
pub open spec fn listing(t: Table<u64>, kind: FileKind) -> Seq<Line> {
    Seq::new(t.len(), |i: int| Line { ino: t[i].1, offset: (i + 1) as nat, kind, name: t[i].0 })
}

/// The part of a listing that a request at `offset` is answered with: all
/// lines from that offset on, none where the offset lies past the end.
pub open spec fn page(full: Seq<Line>, offset: nat) -> Seq<Line> {
    if offset <= full.len() {
        full.skip(offset as int)
    } else {
        Seq::empty()
    }
}

/// Each line carries the offset of the line after it: line `i` resumes at
/// `i + 1`.
pub open spec fn numbered(full: Seq<Line>) -> bool {
    forall|i: int| 0 <= i < full.len() ==> (#[trigger] full[i]).offset == i + 1
}

/// A listing read in pieces is the listing read at once. Whoever takes the
/// first `taken` lines of the page at `offset`, and asks again at the offset
/// that the last of them carries, is answered with the rest: the two pieces
/// joined are the page at `offset`, with no line lost and none repeated.
/// The page at offset zero is the whole listing.
pub proof fn lemma_listing_resumes(full: Seq<Line>, offset: nat, taken: nat)
    requires
        numbered(full),
        0 < taken <= page(full, offset).len(),
    ensures
        page(full, page(full, offset)[taken - 1].offset) == page(full, offset).skip(taken as int),
        page(full, offset).take(taken as int) + page(full, page(full, offset)[taken - 1].offset)
            == page(full, offset),
        page(full, 0) == full,
{
    let first = page(full, offset);
    assert(first[taken - 1] == full[offset + taken - 1]);
    let next = first[taken - 1].offset;
    assert(next == offset + taken);
    assert(page(full, next) =~= first.skip(taken as int));
    assert(first.take(taken as int) + first.skip(taken as int) =~= first);
    assert(page(full, 0) =~= full);
}

} // verus!
