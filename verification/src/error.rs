//! The ways in which a configuration can be refused.

use vstd::prelude::*;

verus! {

/// Why an entry of the configuration was refused. Each of them is fatal to
/// loading: nothing is served from a namespace that was refused an entry.
#[derive(Clone, Copy, PartialEq, Eq, Structural, Debug)]
pub enum ConfigError {
    /// A project's name or one of its aliases is taken, or given twice.
    DuplicateProject,
    /// A group of that name exists.
    DuplicateGroup,
    /// A mirror's name or one of its aliases is taken, or given twice.
    DuplicateMirror,
    /// A project names a group that was never added.
    UnknownGroup,
    /// An alias was given for a project that was never added.
    UnknownProject,
    /// A mirror's renaming rule is no regular expression.
    InvalidRenaming,
    /// The namespace has no identifier left.
    Exhausted,
}

} // verus!
