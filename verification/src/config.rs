//! Options that select how a pass behaves.
use vstd::prelude::*;

verus! {

/// What the fixup pass does with commits that amend an earlier one.
#[derive(Clone, Copy, Debug, PartialEq, Eq, Structural)]
pub enum Fixup {
    /// Leave them where they are.
    Ignore,
    /// Move each directly behind the commit it amends.
    Move,
    /// Move them, and mark them to be squashed into that commit.
    Squash,
}

} // verus!
