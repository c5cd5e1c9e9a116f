//! Commits and what their summary line says about them.
use vstd::prelude::*;
use crate::git::bytes::{
    after_prefix, copy_bytes, has_prefix, same_bytes, slice_of, starts_with, strip_prefix,
};
use crate::git::oid::Oid;

verus! {

/// One commit, as the graph carries it.
#[derive(Clone, Debug, PartialEq, Eq)]
pub struct Commit {
    /// The commit's own hash: its key.
    pub id: Oid,
    /// The hash of the tree it records. Equal trees are equal file states.
    pub tree_id: Oid,
    /// The first line of its message.
    pub summary: Vec<u8>,
    /// When it was written, in seconds from the epoch.
    pub time: i64,
    pub author: Option<String>,
    pub committer: Option<String>,
}

/// A commit as a value.
pub struct CommitView {
    pub id: Oid,
    pub tree_id: Oid,
    pub summary: Seq<u8>,
    pub time: i64,
    pub author: Option<Seq<char>>,
    pub committer: Option<Seq<char>>,
}

/// A name as a value.
pub open spec fn name_view(name: Option<String>) -> Option<Seq<char>> {
    match name {
        Some(n) => Some(n@),
        None => None,
    }
}

impl View for Commit {
    type V = CommitView;

    open spec fn view(&self) -> CommitView {
        CommitView {
            id: self.id,
            tree_id: self.tree_id,
            summary: self.summary@,
            time: self.time,
            author: name_view(self.author),
            committer: name_view(self.committer),
        }
    }
}

/// `fixup! `, which opens the summary of a commit that amends another.
pub open spec fn fixup_marker() -> Seq<u8> {
    seq![102u8, 105u8, 120u8, 117u8, 112u8, 33u8, 32u8]
}

/// `Revert "`, which opens the summary of a revert.
pub open spec fn revert_marker() -> Seq<u8> {
    seq![82u8, 101u8, 118u8, 101u8, 114u8, 116u8, 32u8, 34u8]
}

/// `WIP`
pub open spec fn wip_upper() -> Seq<u8> {
    seq![87u8, 73u8, 80u8]
}

/// `wip`
pub open spec fn wip_lower() -> Seq<u8> {
    seq![119u8, 105u8, 112u8]
}

/// The prefixes that mark work in progress, in the order they are tried:
/// `WIP:`, `draft:`, `Draft:`, `wip `, `WIP `.
pub open spec fn wip_markers() -> Seq<Seq<u8>> {
    seq![
        seq![87u8, 73u8, 80u8, 58u8],
        seq![100u8, 114u8, 97u8, 102u8, 116u8, 58u8],
        seq![68u8, 114u8, 97u8, 102u8, 116u8, 58u8],
        seq![119u8, 105u8, 112u8, 32u8],
        seq![87u8, 73u8, 80u8, 32u8],
    ]
}

/// What follows the first of `markers`, from index `from` on, that `summary`
/// begins with.
pub open spec fn after_first_marker(summary: Seq<u8>, markers: Seq<Seq<u8>>, from: int) -> Option<
    Seq<u8>,
>
    decreases markers.len() - from,
{
    if from < 0 || from >= markers.len() {
        None
    } else if has_prefix(summary, markers[from]) {
        Some(summary.skip(markers[from].len() as int))
    } else {
        after_first_marker(summary, markers, from + 1)
    }
}

/// The summary of the commit that a commit with this summary amends: what
/// follows `fixup! `.
pub open spec fn fixup_target(summary: Seq<u8>) -> Option<Seq<u8>> {
    after_prefix(summary, fixup_marker())
}

/// What a work-in-progress summary says besides the marker: nothing where
/// the summary is just `WIP` or `wip`, else what follows the first marker that
/// it begins with.
pub open spec fn wip_rest(summary: Seq<u8>) -> Option<Seq<u8>> {
    if summary == wip_upper() || summary == wip_lower() {
        Some(Seq::empty())
    } else {
        after_first_marker(summary, wip_markers(), 0)
    }
}

/// The summary that a revert quotes: what stands between `Revert "` and a
/// closing `"`.
pub open spec fn reverted(summary: Seq<u8>) -> Option<Seq<u8>> {
    if has_prefix(summary, revert_marker()) && summary.len() >= 9 && summary.last() == 34u8 {
        Some(summary.subrange(8, summary.len() - 1))
    } else {
        None
    }
}

impl CommitView {
    /// Whether the summary names a commit to amend.
    pub open spec fn is_fixup(self) -> bool {
        fixup_target(self.summary) is Some
    }

    /// Whether the summary marks work in progress.
    pub open spec fn is_wip(self) -> bool {
        wip_rest(self.summary) is Some
    }

    /// Whether the summary reads as a revert.
    pub open spec fn is_revert(self) -> bool {
        reverted(self.summary) is Some
    }

    /// Whether `user` wrote or committed it.
    pub open spec fn is_by(self, user: Seq<char>) -> bool {
        self.committer == Some(user) || self.author == Some(user)
    }
}

fn marker(which: u8) -> (r: Vec<u8>)
    requires
        which < 5,
    ensures
        r@ == wip_markers()[which as int],
{
    if which == 0 {
        vec![87u8, 73u8, 80u8, 58u8]
    } else if which == 1 {
        vec![100u8, 114u8, 97u8, 102u8, 116u8, 58u8]
    } else if which == 2 {
        vec![68u8, 114u8, 97u8, 102u8, 116u8, 58u8]
    } else if which == 3 {
        vec![119u8, 105u8, 112u8, 32u8]
    } else {
        vec![87u8, 73u8, 80u8, 32u8]
    }
}

fn copy_name(name: &Option<String>) -> (r: Option<String>)
    ensures
        name_view(r) == name_view(*name),
{
    match name {
        Some(n) => Some(n.clone()),
        None => None,
    }
}

impl Commit {
    /// A commit equal to this one.
    pub fn duplicate(&self) -> (r: Commit)
        ensures
            r@ == self@,
    {
        Commit {
            id: self.id,
            tree_id: self.tree_id,
            summary: copy_bytes(&self.summary),
            time: self.time,
            author: copy_name(&self.author),
            committer: copy_name(&self.committer),
        }
    }

    /// The summary of the commit that this one amends, if it is a fixup.
    pub fn fixup_summary(&self) -> (r: Option<Vec<u8>>)
        ensures
            fixup_target(self@.summary) matches Some(rest) ==> r matches Some(v) && v@ == rest,
            fixup_target(self@.summary) is None ==> r is None,
    {
        let prefix: Vec<u8> = vec![102u8, 105u8, 120u8, 117u8, 112u8, 33u8, 32u8];
        assert(prefix@ =~= fixup_marker());
        strip_prefix(&self.summary, &prefix)
    }

    /// What the summary says besides its work-in-progress marker, if it has one.
    pub fn wip_summary(&self) -> (r: Option<Vec<u8>>)
        ensures
            wip_rest(self@.summary) matches Some(rest) ==> r matches Some(v) && v@ == rest,
            wip_rest(self@.summary) is None ==> r is None,
    {
        let upper: Vec<u8> = vec![87u8, 73u8, 80u8];
        let lower: Vec<u8> = vec![119u8, 105u8, 112u8];
        assert(upper@ =~= wip_upper());
        assert(lower@ =~= wip_lower());
        if same_bytes(&self.summary, &upper) || same_bytes(&self.summary, &lower) {
            return Some(Vec::new());
        }
        let mut which: u8 = 0;
        while which < 5
            invariant
                which <= 5,
                wip_markers().len() == 5,
                after_first_marker(self@.summary, wip_markers(), which as int)
                    == after_first_marker(self@.summary, wip_markers(), 0),
            decreases 5 - which,
        {
            let prefix = marker(which);
            match strip_prefix(&self.summary, &prefix) {
                Some(rest) => {
                    return Some(rest);
                },
                None => {},
            }
            which += 1;
        }
        None
    }

    /// The summary that this commit's summary quotes as reverted, if it
    /// reads as a revert.
    pub fn revert_summary(&self) -> (r: Option<Vec<u8>>)
        ensures
            reverted(self@.summary) matches Some(rest) ==> r matches Some(v) && v@ == rest,
            reverted(self@.summary) is None ==> r is None,
    {
        let prefix: Vec<u8> = vec![82u8, 101u8, 118u8, 101u8, 114u8, 116u8, 32u8, 34u8];
        assert(prefix@ =~= revert_marker());
        let n = self.summary.len();
        if starts_with(&self.summary, &prefix) && n >= 9 && self.summary[n - 1] == 34u8 {
            Some(slice_of(&self.summary, 8, n - 1))
        } else {
            None
        }
    }

    /// Whether `user` wrote or committed it.
    pub fn is_by(&self, user: &String) -> (r: bool)
        ensures
            r == self@.is_by(user@),
    {
        let committed = match &self.committer {
            Some(name) => *name == *user,
            None => false,
        };
        let wrote = match &self.author {
            Some(name) => *name == *user,
            None => false,
        };
        committed || wrote
    }
}

} // verus!
