//! Branches, and the collection of them that a caller hands to a pass.
use vstd::prelude::*;
use crate::git::oid::{insert_id, with_ids, Oid};

verus! {

/// A named reference to a commit.
#[derive(Clone, Debug, PartialEq, Eq)]
pub struct Branch {
    pub name: String,
    /// The commit that the local branch points at.
    pub id: Oid,
    /// The commit that the remote holds for pushing, if it has the branch.
    pub push_id: Option<Oid>,
    /// The commit that the remote offers for pulling, if it has the branch.
    pub pull_id: Option<Oid>,
}

/// A branch as a value.
pub struct BranchView {
    pub name: Seq<char>,
    pub id: Oid,
    pub push_id: Option<Oid>,
    pub pull_id: Option<Oid>,
}

impl View for Branch {
    type V = BranchView;

    open spec fn view(&self) -> BranchView {
        BranchView { name: self.name@, id: self.id, push_id: self.push_id, pull_id: self.pull_id }
    }
}

impl BranchView {
    /// The commit that counts as the branch's upstream state: what the remote
    /// offers, else the local commit.
    pub open spec fn tip(self) -> Oid {
        match self.pull_id {
            Some(id) => id,
            None => self.id,
        }
    }

    /// Whether the remote already holds the local commit.
    pub open spec fn is_pushed(self) -> bool {
        self.push_id == Some(self.id)
    }
}

impl Branch {
    /// The commit that counts as the branch's upstream state.
    pub fn tip(&self) -> (r: Oid)
        ensures
            r == self@.tip(),
    {
        match self.pull_id {
            Some(id) => id,
            None => self.id,
        }
    }

    /// Whether the remote already holds the local commit.
    pub fn is_pushed(&self) -> (r: bool)
        ensures
            r == self@.is_pushed(),
    {
        match self.push_id {
            Some(id) => id == self.id,
            None => false,
        }
    }
}

/// The views of a list of branches, in order.
pub open spec fn branch_views(branches: Seq<Branch>) -> Seq<BranchView> {
    branches.map_values(|b: Branch| b@)
}

/// The names of a list of branches, in order.
pub open spec fn branch_names(branches: Seq<BranchView>) -> Seq<Seq<char>> {
    branches.map_values(|b: BranchView| b.name)
}

/// The commits a list of branches points at, in order, each once.
pub open spec fn branch_ids(branches: Seq<BranchView>) -> Seq<Oid> {
    with_ids(Seq::empty(), branches.map_values(|b: BranchView| b.id))
}

/// The upstream commits of a list of branches, in order, each once.
pub open spec fn branch_tips(branches: Seq<BranchView>) -> Seq<Oid> {
    with_ids(Seq::empty(), branches.map_values(|b: BranchView| b.tip()))
}

/// Appends the names of `branches` to `names`.
pub fn push_names(names: &mut Vec<String>, branches: &Vec<Branch>)
    ensures
        string_views(final(names)@) == string_views(old(names)@) + branch_names(
            branch_views(branches@),
        ),
{
    let mut i: usize = 0;
    while i < branches.len()
        invariant
            i <= branches.len(),
            string_views(names@) == string_views(old(names)@) + branch_names(
                branch_views(branches@),
            ).take(i as int),
        decreases branches.len() - i,
    {
        let ghost before = names@;
        names.push(branches[i].name.clone());
        assert(string_views(names@) =~= string_views(before).push(branches@[i as int].name@));
        assert(string_views(names@) =~= string_views(old(names)@) + branch_names(
            branch_views(branches@),
        ).take(i as int + 1));
        i += 1;
    }
    assert(branch_names(branch_views(branches@)).take(branches.len() as int) =~= branch_names(
        branch_views(branches@),
    ));
}

/// The views of a list of strings, in order.
pub open spec fn string_views(strings: Seq<String>) -> Seq<Seq<char>> {
    strings.map_values(|s: String| s@)
}

/// Branches in the order they were added, looked up by the commit they point at.
pub struct Branches {
    all: Vec<Branch>,
}

impl View for Branches {
    type V = Seq<BranchView>;

    closed spec fn view(&self) -> Seq<BranchView> {
        branch_views(self.all@)
    }
}

impl Branches {
    /// No branches.
    pub fn new() -> (r: Branches)
        ensures
            r@ == Seq::<BranchView>::empty(),
    {
        let r = Branches { all: Vec::new() };
        assert(r@ =~= Seq::<BranchView>::empty());
        r
    }

    /// Adds `branch` behind the others.
    pub fn insert(&mut self, branch: Branch)
        ensures
            final(self)@ == old(self)@.push(branch@),
    {
        self.all.push(branch);
        assert(self@ =~= old(self)@.push(branch@));
    }

    /// How many branches there are.
    pub fn len(&self) -> (n: usize)
        ensures
            n == self@.len(),
    {
        self.all.len()
    }

    /// Whether there is no branch.
    pub fn is_empty(&self) -> (r: bool)
        ensures
            r == (self@.len() == 0),
    {
        self.all.len() == 0
    }

    /// The branch at place `i`.
    pub fn get(&self, i: usize) -> (r: &Branch)
        requires
            i < self@.len(),
        ensures
            r@ == self@[i as int],
    {
        &self.all[i]
    }

    /// Whether some branch points at `id`.
    pub fn contains_oid(&self, id: Oid) -> (r: bool)
        ensures
            r == exists|i: int| 0 <= i < self@.len() && self@[i].id == id,
    {
        let mut i: usize = 0;
        while i < self.all.len()
            invariant
                i <= self.all.len(),
                forall|j: int| 0 <= j < i ==> self@[j].id != id,
            decreases self.all.len() - i,
        {
            if self.all[i].id == id {
                assert(self@[i as int].id == id);
                return true;
            }
            i += 1;
        }
        false
    }

    /// The commits that the branches point at, in order, each once.
    pub fn oids(&self) -> (r: Vec<Oid>)
        ensures
            r@ == branch_ids(self@),
    {
        let ghost ids = self@.map_values(|b: BranchView| b.id);
        let mut out: Vec<Oid> = Vec::new();
        let mut i: usize = 0;
        assert(ids.skip(0) =~= ids);
        assert(out@ =~= Seq::<Oid>::empty());
        while i < self.all.len()
            invariant
                i <= self.all.len(),
                ids == self@.map_values(|b: BranchView| b.id),
                with_ids(out@, ids.skip(i as int)) == branch_ids(self@),
            decreases self.all.len() - i,
        {
            assert(ids.skip(i as int).drop_first() =~= ids.skip(i as int + 1));
            assert(ids.skip(i as int)[0] == self@[i as int].id);
            insert_id(&mut out, self.all[i].id);
            i += 1;
        }
        out
    }

    /// The upstream commits of the branches, in order, each once.
    pub fn tips(&self) -> (r: Vec<Oid>)
        ensures
            r@ == branch_tips(self@),
    {
        let ghost ids = self@.map_values(|b: BranchView| b.tip());
        let mut out: Vec<Oid> = Vec::new();
        let mut i: usize = 0;
        assert(ids.skip(0) =~= ids);
        assert(out@ =~= Seq::<Oid>::empty());
        while i < self.all.len()
            invariant
                i <= self.all.len(),
                ids == self@.map_values(|b: BranchView| b.tip()),
                with_ids(out@, ids.skip(i as int)) == branch_tips(self@),
            decreases self.all.len() - i,
        {
            assert(ids.skip(i as int).drop_first() =~= ids.skip(i as int + 1));
            assert(ids.skip(i as int)[0] == self@[i as int].tip());
            let tip = self.all[i].tip();
            insert_id(&mut out, tip);
            i += 1;
        }
        out
    }
}

} // verus!
