//! What the passes ask of a repository.
use vstd::prelude::*;
use crate::git::commit::Commit;
use crate::git::oid::Oid;

verus! {

/// The ids of a list of commits, in order.
pub open spec fn commit_ids(commits: Seq<Commit>) -> Seq<Oid> {
    commits.map_values(|c: Commit| c.id)
}

/// The two queries that the passes put to a repository. An implementation
/// answers them from a state that does not change while a pass runs: the two
/// spec functions name its answers.
pub trait Repo {
    /// The deepest common ancestor of `one` and `two`, if they have one.
    spec fn common_ancestor(&self, one: Oid, two: Oid) -> Option<Oid>;

    /// The ids of the commits met when walking from `id` towards the root,
    /// `id` first.
    spec fn history(&self, id: Oid) -> Seq<Oid>;

    fn merge_base(&self, one: Oid, two: Oid) -> (r: Option<Oid>)
        ensures
            r == self.common_ancestor(one, two),
    ;

    fn commits_from(&self, id: Oid) -> (r: Vec<Commit>)
        ensures
            commit_ids(r@) == self.history(id),
    ;
}

/// What a repository in memory knows of one commit: its id and the id of
/// its parent, if it has one.
pub type Link = (Oid, Option<Oid>);

/// The parent noted for `id` by the first of `links`, from index `from` on,
/// that is about `id`.
pub open spec fn link_of(links: Seq<Link>, id: Oid, from: int) -> Option<Option<Oid>>
    decreases links.len() - from,
{
    if from < 0 || from >= links.len() {
        None
    } else if links[from].0 == id {
        Some(links[from].1)
    } else {
        link_of(links, id, from + 1)
    }
}

/// The commits from `id` on, each followed by its parent, as far as `links`
/// know them and `fuel` commits at most.
pub open spec fn chain(links: Seq<Link>, id: Oid, fuel: nat) -> Seq<Oid>
    decreases fuel,
{
    if fuel == 0 {
        Seq::empty()
    } else {
        match link_of(links, id, 0) {
            None => Seq::empty(),
            Some(None) => seq![id],
            Some(Some(parent)) => seq![id] + chain(links, parent, (fuel - 1) as nat),
        }
    }
}

/// The first of `one` that is in `two` as well.
pub open spec fn first_common(one: Seq<Oid>, two: Seq<Oid>) -> Option<Oid>
    decreases one.len(),
{
    if one.len() == 0 {
        None
    } else if two.contains(one[0]) {
        Some(one[0])
    } else {
        first_common(one.drop_first(), two)
    }
}

/// What `entries` say of ids and parents.
pub open spec fn links_of(entries: Seq<(Commit, Option<Oid>)>) -> Seq<Link> {
    entries.map_values(|e: (Commit, Option<Oid>)| (e.0.id, e.1))
}

/// A repository held in memory: commits, each with the id of its parent. The
/// history of a commit is the commit, its parent, the parent of that, and so
/// on, for as long as the repository knows the commits and no longer than it
/// has commits.
pub struct MemoryRepo {
    entries: Vec<(Commit, Option<Oid>)>,
}

impl MemoryRepo {
    /// What the repository knows of ids and parents, in the order it was told.
    pub closed spec fn links(&self) -> Seq<Link> {
        links_of(self.entries@)
    }

    /// A repository without commits.
    pub fn new() -> (r: MemoryRepo)
        ensures
            r.links() == Seq::<Link>::empty(),
    {
        let r = MemoryRepo { entries: Vec::new() };
        assert(r.links() =~= Seq::<Link>::empty());
        r
    }

    /// Adds `commit`, whose parent is `parent`.
    pub fn push(&mut self, commit: Commit, parent: Option<Oid>)
        ensures
            final(self).links() == old(self).links().push((commit.id, parent)),
    {
        let ghost link = (commit.id, parent);
        self.entries.push((commit, parent));
        assert(self.links() =~= old(self).links().push(link));
    }

    fn find(&self, id: Oid) -> (r: Option<usize>)
        ensures
            match r {
                Some(i) => i < self.entries.len() && self.entries[i as int].0.id == id && link_of(
                    self.links(),
                    id,
                    0,
                ) == Some(self.entries[i as int].1),
                None => link_of(self.links(), id, 0) is None,
            },
    {
        let mut i: usize = 0;
        while i < self.entries.len()
            invariant
                i <= self.entries.len(),
                link_of(self.links(), id, i as int) == link_of(self.links(), id, 0),
            decreases self.entries.len() - i,
        {
            assert(self.links()[i as int] == (self.entries[i as int].0.id, self.entries[i as int].1));
            if self.entries[i].0.id == id {
                return Some(i);
            }
            i += 1;
        }
        None
    }

    /// The ids of the history of `id`.
    pub fn ids_from(&self, id: Oid) -> (r: Vec<Oid>)
        ensures
            r@ == chain(self.links(), id, self.links().len()),
    {
        let commits = self.walk(id);
        let mut out: Vec<Oid> = Vec::new();
        let mut i: usize = 0;
        while i < commits.len()
            invariant
                i <= commits.len(),
                out@ == commit_ids(commits@).take(i as int),
            decreases commits.len() - i,
        {
            out.push(commits[i].id);
            assert(out@ =~= commit_ids(commits@).take(i as int + 1));
            i += 1;
        }
        assert(commit_ids(commits@).take(commits.len() as int) =~= commit_ids(commits@));
        out
    }

    fn walk(&self, id: Oid) -> (r: Vec<Commit>)
        ensures
            commit_ids(r@) == chain(self.links(), id, self.links().len()),
    {
        let ghost goal = chain(self.links(), id, self.links().len());
        let mut out: Vec<Commit> = Vec::new();
        let mut current = id;
        let mut fuel = self.entries.len();
        assert(commit_ids(out@) + goal =~= goal);
        while fuel > 0
            invariant_except_break
                commit_ids(out@) + chain(self.links(), current, fuel as nat) == goal,
            ensures
                commit_ids(out@) == goal,
            decreases fuel,
        {
            let ghost before = commit_ids(out@);
            match self.find(current) {
                None => {
                    assert(before + Seq::<Oid>::empty() =~= before);
                    break ;
                },
                Some(i) => {
                    out.push(self.entries[i].0.duplicate());
                    assert(commit_ids(out@) =~= before.push(current));
                    match self.entries[i].1 {
                        None => {
                            assert(before + seq![current] =~= before.push(current));
                            break ;
                        },
                        Some(parent) => {
                            assert(before + (seq![current] + chain(
                                self.links(),
                                parent,
                                (fuel - 1) as nat,
                            )) =~= before.push(current) + chain(
                                self.links(),
                                parent,
                                (fuel - 1) as nat,
                            ));
                            current = parent;
                        },
                    }
                },
            }
            fuel -= 1;
        }
        proof {
            if fuel == 0 {
                assert(commit_ids(out@) + Seq::<Oid>::empty() =~= commit_ids(out@));
            }
        }
        out
    }
}

impl Repo for MemoryRepo {
    open spec fn common_ancestor(&self, one: Oid, two: Oid) -> Option<Oid> {
        first_common(
            chain(self.links(), one, self.links().len()),
            chain(self.links(), two, self.links().len()),
        )
    }

    open spec fn history(&self, id: Oid) -> Seq<Oid> {
        chain(self.links(), id, self.links().len())
    }

    fn merge_base(&self, one: Oid, two: Oid) -> (r: Option<Oid>) {
        let ones = self.ids_from(one);
        let twos = self.ids_from(two);
        let mut i: usize = 0;
        assert(ones@.skip(0) =~= ones@);
        while i < ones.len()
            invariant
                i <= ones.len(),
                ones@ == chain(self.links(), one, self.links().len()),
                twos@ == chain(self.links(), two, self.links().len()),
                first_common(ones@.skip(i as int), twos@) == first_common(ones@, twos@),
            decreases ones.len() - i,
        {
            assert(ones@.skip(i as int).drop_first() =~= ones@.skip(i as int + 1));
            assert(ones@.skip(i as int)[0] == ones@[i as int]);
            if crate::git::oid::contains_id(&twos, ones[i]) {
                return Some(ones[i]);
            }
            i += 1;
        }
        None
    }

    fn commits_from(&self, id: Oid) -> (r: Vec<Commit>) {
        self.walk(id)
    }
}

} // verus!
