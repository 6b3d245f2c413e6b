//! The identifier space: one numeric identifier per entry, with the owning
//! namespace encoded in the four high-order bits.

use vstd::prelude::*;

verus! {

/// The identifier of the filesystem root.
pub const ROOT_INO: u64 = 1;

/// Number of low-order bits below the namespace tag.
pub const TAG_SHIFT: u64 = 60;

/// How many identifiers one namespace spans.
pub const SPAN: u64 = 0x1000_0000_0000_0000;

/// Base of the group namespace; also the identifier of the group listing.
pub const GROUPS_BASE: u64 = 0x4000_0000_0000_0000;

/// Base of the flat project namespace; also the identifier of its listing.
pub const PROJECTS_BASE: u64 = 0x8000_0000_0000_0000;

/// Base of the mirror namespace; also the identifier of the mirror listing.
pub const MIRRORS_BASE: u64 = 0x2000_0000_0000_0000;

/// Base of the namespace that all mirror entries share.
pub const ENTRIES_BASE: u64 = 0x1000_0000_0000_0000;

/// The owners an identifier can be routed to.
#[derive(Clone, Copy, PartialEq, Eq, Structural, Debug)]
pub enum Namespace {
    Root,
    Groups,
    Projects,
    Mirrors,
    MirrorEntries,
}

impl Namespace {
    /// The smallest identifier of the namespace. For the three indexes it is
    /// the identifier of the index's own directory.
    pub open spec fn first(self) -> u64 {
        match self {
            Namespace::Root => ROOT_INO,
            Namespace::Groups => GROUPS_BASE,
            Namespace::Projects => PROJECTS_BASE,
            Namespace::Mirrors => MIRRORS_BASE,
            Namespace::MirrorEntries => ENTRIES_BASE,
        }
    }

    /// The largest identifier of the namespace.
    pub open spec fn last(self) -> u64 {
        match self {
            Namespace::Root => ROOT_INO,
            _ => (self.first() + (SPAN - 1)) as u64,
        }
    }

    /// Whether `id` lies in the namespace.
    pub open spec fn contains(self, id: u64) -> bool {
        self.first() <= id <= self.last()
    }

    /// The namespace that owns `id`, if any does.
    pub open spec fn owner(id: u64) -> Option<Namespace> {
        if Namespace::Root.contains(id) {
            Some(Namespace::Root)
        } else if Namespace::MirrorEntries.contains(id) {
            Some(Namespace::MirrorEntries)
        } else if Namespace::Mirrors.contains(id) {
            Some(Namespace::Mirrors)
        } else if Namespace::Groups.contains(id) {
            Some(Namespace::Groups)
        } else if Namespace::Projects.contains(id) {
            Some(Namespace::Projects)
        } else {
            None
        }
    }

    /// Routes an identifier to its owner by its tag bits; the root is a
    /// reserved value and is tested first.
    pub fn of(id: u64) -> (ns: Option<Namespace>)
        ensures
            ns == Namespace::owner(id),
    {
        if id == ROOT_INO {
            return Some(Namespace::Root);
        }
        let tag: u64 = id >> TAG_SHIFT;
        assert(tag == id >> 60);
        assert(id >> 60 == 1 <==> 0x1000_0000_0000_0000 <= id <= 0x1fff_ffff_ffff_ffff)
            by (bit_vector);
        assert(id >> 60 == 2 <==> 0x2000_0000_0000_0000 <= id <= 0x2fff_ffff_ffff_ffff)
            by (bit_vector);
        assert(id >> 60 == 4 <==> 0x4000_0000_0000_0000 <= id <= 0x4fff_ffff_ffff_ffff)
            by (bit_vector);
        assert(id >> 60 == 8 <==> 0x8000_0000_0000_0000 <= id <= 0x8fff_ffff_ffff_ffff)
            by (bit_vector);
        if tag == 1 {
            Some(Namespace::MirrorEntries)
        } else if tag == 2 {
            Some(Namespace::Mirrors)
        } else if tag == 4 {
            Some(Namespace::Groups)
        } else if tag == 8 {
            Some(Namespace::Projects)
        } else {
            None
        }
    }

    /// The executable form of [`Namespace::first`].
    pub fn base(self) -> (id: u64)
        ensures
            id == self.first(),
    {
        match self {
            Namespace::Root => ROOT_INO,
            Namespace::Groups => GROUPS_BASE,
            Namespace::Projects => PROJECTS_BASE,
            Namespace::Mirrors => MIRRORS_BASE,
            Namespace::MirrorEntries => ENTRIES_BASE,
        }
    }

    /// The executable form of [`Namespace::last`].
    pub fn limit(self) -> (id: u64)
        ensures
            id == self.last(),
    {
        match self {
            Namespace::Root => ROOT_INO,
            _ => self.base() + (SPAN - 1),
        }
    }
}

/// No identifier has two owners, and an identifier's owner is the one
/// namespace whose range holds it.
pub proof fn lemma_namespaces_disjoint(id: u64, a: Namespace, b: Namespace)
    requires
        a.contains(id),
        b.contains(id),
    ensures
        a == b,
        Namespace::owner(id) == Some(a),
{
}

/// Two namespaces never share tag bits: their bases differ above the counter
/// bits, and the root's reserved value carries no tag at all.
pub proof fn lemma_tags_differ(a: Namespace, b: Namespace)
    requires
        a != b,
        a != Namespace::Root,
        b != Namespace::Root,
    ensures
        a.first() / SPAN != b.first() / SPAN,
        a.first() % SPAN == 0,
        ROOT_INO / SPAN == 0,
{
}

/// A counter that hands out the identifiers of one namespace in increasing
/// order and never hands one out twice.
#[derive(Clone, Copy, Debug)]
pub struct IdAllocator {
    space: Namespace,
    issued: u64,
}

impl IdAllocator {
    /// The namespace whose identifiers the counter hands out.
    pub closed spec fn space(&self) -> Namespace {
        self.space
    }

    /// The identifier handed out last; the namespace's first identifier
    /// before any was.
    pub closed spec fn issued(&self) -> u64 {
        self.issued
    }

    /// The counter stays within its namespace.
    pub open spec fn wf(&self) -> bool {
        self.space().contains(self.issued())
    }

    /// How many identifiers are left to hand out.
    pub open spec fn remaining(&self) -> nat {
        (self.space().last() - self.issued()) as nat
    }

    /// A counter at the start of `space`.
    pub fn new(space: Namespace) -> (a: IdAllocator)
        ensures
            a.wf(),
            a.space() == space,
            a.issued() == space.first(),
    {
        IdAllocator { space, issued: space.base() }
    }

    /// The identifier handed out last.
    pub fn last(&self) -> (id: u64)
        ensures
            id == self.issued(),
    {
        self.issued
    }

    /// How many identifiers are left to hand out.
    pub fn left(&self) -> (n: u64)
        requires
            self.wf(),
        ensures
            n == self.remaining(),
    {
        self.space.limit() - self.issued
    }

    /// Hands out the next identifier, or `None` when the namespace is used
    /// up; the counter moves only when an identifier is handed out.
    pub fn allocate(&mut self) -> (id: Option<u64>)
        requires
            old(self).wf(),
        ensures
            final(self).wf(),
            final(self).space() == old(self).space(),
            match id {
                Some(i) => {
                    &&& old(self).remaining() > 0
                    &&& i == old(self).issued() + 1
                    &&& final(self).issued() == i
                    &&& old(self).space().contains(i)
                },
                None => old(self).remaining() == 0 && final(self).issued() == old(self).issued(),
            },
    {
        if self.issued < self.space.limit() {
            self.issued = self.issued + 1;
            Some(self.issued)
        } else {
            None
        }
    }
}

} // verus!
