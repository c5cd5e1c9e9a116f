//! The nodes of the graph and their annotation.
use vstd::prelude::*;
use crate::git::branch::{branch_views, Branch, BranchView};
use crate::git::commit::{Commit, CommitView};
use crate::git::oid::Oid;

verus! {

/// What is to become of a commit.
#[derive(Clone, Copy, Debug, PartialEq, Eq, Structural)]
pub enum Action {
    /// Replay it on the new base.
    Pick,
    /// It belongs to upstream and is never rewritten.
    Protected,
    /// Replay it into the commit before it.
    Squash,
    /// Remove the branches at it; the commit itself contributes nothing.
    Delete,
}

impl Action {
    /// Whether this is `Protected`.
    pub open spec fn protected(self) -> bool {
        self == Action::Protected
    }

    /// Whether this is `Delete`.
    pub open spec fn deleted(self) -> bool {
        self == Action::Delete
    }

    /// Whether this is `Protected`.
    #[verifier::when_used_as_spec(protected)]
    pub fn is_protected(self) -> (r: bool)
        ensures
            r == self.protected(),
    {
        self == Action::Protected
    }

    /// Whether this is `Delete`.
    #[verifier::when_used_as_spec(deleted)]
    pub fn is_delete(self) -> (r: bool)
        ensures
            r == self.deleted(),
    {
        self == Action::Delete
    }
}

impl Default for Action {
    fn default() -> (r: Action)
        ensures
            r == Action::Pick,
    {
        Action::Pick
    }
}

/// A commit in the graph: the commit itself, the branches at it, the ids of
/// the commits that follow it, and what the passes have decided about it.
#[derive(Clone, Debug, PartialEq, Eq)]
pub struct Node {
    pub commit: Commit,
    /// In the order they were added; the first one counts for pushing.
    pub branches: Vec<Branch>,
    /// A set, walked in the order the ids were added.
    pub children: Vec<Oid>,
    pub action: Action,
    pub pushable: bool,
}

/// A node as a value.
pub struct NodeView {
    pub commit: CommitView,
    pub branches: Seq<BranchView>,
    pub children: Seq<Oid>,
    pub action: Action,
    pub pushable: bool,
}

impl View for Node {
    type V = NodeView;

    open spec fn view(&self) -> NodeView {
        NodeView {
            commit: self.commit@,
            branches: branch_views(self.branches@),
            children: self.children@,
            action: self.action,
            pushable: self.pushable,
        }
    }
}

impl Node {
    /// A node for `commit` with no branches and no children, to be picked.
    pub fn new(commit: Commit) -> (r: Node)
        ensures
            r@ == (NodeView {
                commit: commit@,
                branches: Seq::empty(),
                children: Seq::empty(),
                action: Action::Pick,
                pushable: false,
            }),
    {
        let r = Node {
            commit,
            branches: Vec::new(),
            children: Vec::new(),
            action: Action::Pick,
            pushable: false,
        };
        assert(r@.branches =~= Seq::empty());
        r
    }

    /// A node equal to this one.
    pub fn duplicate(&self) -> (r: Node)
        ensures
            r@ == self@,
            r.commit.id == self.commit.id,
    {
        let mut branches: Vec<Branch> = Vec::new();
        let mut i: usize = 0;
        while i < self.branches.len()
            invariant
                i <= self.branches.len(),
                branch_views(branches@) == branch_views(self.branches@).take(i as int),
            decreases self.branches.len() - i,
        {
            let ghost before = branches@;
            let b = &self.branches[i];
            branches.push(Branch { name: b.name.clone(), id: b.id, push_id: b.push_id, pull_id: b.pull_id });
            assert(branch_views(branches@) =~= branch_views(before).push(self.branches@[i as int]@));
            assert(branch_views(branches@) =~= branch_views(self.branches@).take(i as int + 1));
            i += 1;
        }
        assert(branch_views(self.branches@).take(self.branches.len() as int) =~= branch_views(
            self.branches@,
        ));
        let commit = self.commit.duplicate();
        Node {
            commit,
            branches,
            children: self.children.clone(),
            action: self.action,
            pushable: self.pushable,
        }
    }

    /// The same node with `branches` at it.
    pub fn with_branches(self, branches: Vec<Branch>) -> (r: Node)
        ensures
            r@ == (NodeView { branches: branch_views(branches@), ..self@ }),
    {
        Node {
            commit: self.commit,
            branches,
            children: self.children,
            action: self.action,
            pushable: self.pushable,
        }
    }
}

} // verus!
