//! The pass that protects what upstream holds.
use vstd::prelude::*;
use crate::git::branch::{branch_tips, Branches};
use crate::git::commit::Commit;
use crate::git::oid::Oid;
use crate::git::repo::{commit_ids, Repo};
use crate::graph::model::{lemma_with_action, GraphView};
use crate::graph::node::Action;
use crate::graph::store::Graph;
use crate::graph::guard::{histories_follow, lemma_tips_guard};
use crate::graph::rebase::protected_above;
use crate::graph::tree::lemma_same_shape_tree;

verus! {

/// One walk along `history`: each commit that the graph holds becomes
/// protected, until one is met that is protected already, or the root has had
/// its turn, or the history ends.
pub open spec fn walk_protect(graph: GraphView, history: Seq<Oid>) -> GraphView
    decreases history.len(),
{
    if history.len() == 0 {
        graph
    } else if graph.is_protected(history[0]) {
        graph
    } else {
        let marked = if graph.contains(history[0]) {
            graph.with_action(history[0], Action::Protected)
        } else {
            graph
        };
        if history[0] == graph.root_id {
            marked
        } else {
            walk_protect(marked, history.drop_first())
        }
    }
}

/// Whether the branch tip `tip` lies above the root of the graph: the root
/// is the deepest ancestor that the two have in common.
pub open spec fn above_root<R: Repo>(repo: &R, root: Oid, tip: Oid) -> bool {
    repo.common_ancestor(root, tip) == Some(root)
}

/// A walk from each of `tips` in turn that lies above the root.
pub open spec fn protect_tips<R: Repo>(graph: GraphView, repo: &R, tips: Seq<Oid>) -> GraphView
    decreases tips.len(),
{
    if tips.len() == 0 {
        graph
    } else {
        protect_tips(
            if above_root(repo, graph.root_id, tips[0]) {
                walk_protect(graph, repo.history(tips[0]))
            } else {
                graph
            },
            repo,
            tips.drop_first(),
        )
    }
}

/// Whether `id` lies on the history of one of `tips` that lies above `root`.
pub open spec fn upstream<R: Repo>(repo: &R, root: Oid, tips: Seq<Oid>, id: Oid) -> bool {
    exists|k: int|
        0 <= k < tips.len() && above_root(repo, root, #[trigger] tips[k]) && repo.history(
            tips[k],
        ).contains(id)
}

/// Whether every node that `after` protects and `before` does not lies on
/// the history of one of `tips` that lies above the root.
pub open spec fn protected_from<R: Repo>(
    before: GraphView,
    after: GraphView,
    repo: &R,
    tips: Seq<Oid>,
) -> bool {
    forall|id: Oid|
        #[trigger] after.is_protected(id) && !before.is_protected(id) ==> upstream(
            repo,
            before.root_id,
            tips,
            id,
        )
}

/// Whether a walk along `history` has nothing left to do: the first commit
/// of it that the graph holds is protected.
pub open spec fn settled(graph: GraphView, history: Seq<Oid>) -> bool
    decreases history.len(),
{
    if history.len() == 0 {
        true
    } else if graph.contains(history[0]) {
        graph.is_protected(history[0])
    } else {
        settled(graph, history.drop_first())
    }
}

/// A walk with nothing left to do changes nothing.
pub proof fn lemma_settled_walk(graph: GraphView, history: Seq<Oid>)
    requires
        graph.wf(),
        settled(graph, history),
    ensures
        walk_protect(graph, history) == graph,
    decreases history.len(),
{
    if history.len() > 0 && !graph.contains(history[0]) {
        lemma_settled_walk(graph, history.drop_first());
    }
}

/// A walk keeps the graph well formed and its shape, only protects, and
/// leaves nothing to do along its history.
pub proof fn lemma_walk_settles(graph: GraphView, history: Seq<Oid>)
    requires
        graph.wf(),
    ensures
        walk_protect(graph, history).wf(),
        graph.same_shape(walk_protect(graph, history)),
        graph.only_protected_by(walk_protect(graph, history)),
        settled(walk_protect(graph, history), history),
    decreases history.len(),
{
    if history.len() > 0 && !graph.is_protected(history[0]) {
        if graph.contains(history[0]) {
            let marked = graph.with_action(history[0], Action::Protected);
            lemma_with_action(graph, history[0], Action::Protected);
            if history[0] != graph.root_id {
                lemma_walk_settles(marked, history.drop_first());
                let done = walk_protect(marked, history.drop_first());
                assert(done.nodes[history[0]].action == Action::Protected);
            }
        } else {
            lemma_walk_settles(graph, history.drop_first());
        }
    }
}

/// Where nothing is left to do along a history, nothing is after more
/// nodes have been protected.
pub proof fn lemma_settled_stays(before: GraphView, after: GraphView, history: Seq<Oid>)
    requires
        before.same_shape(after),
        before.only_protected_by(after),
        settled(before, history),
    ensures
        settled(after, history),
    decreases history.len(),
{
    if history.len() > 0 {
        if before.contains(history[0]) {
            assert(after.nodes[history[0]].action == Action::Protected);
        } else {
            lemma_settled_stays(before, after, history.drop_first());
        }
    }
}

/// Whether nothing is left to do along the history of any of `tips` that
/// lies above the root.
pub open spec fn all_settled<R: Repo>(graph: GraphView, repo: &R, tips: Seq<Oid>) -> bool {
    forall|k: int|
        0 <= k < tips.len() && above_root(repo, graph.root_id, #[trigger] tips[k]) ==> settled(
            graph,
            repo.history(tips[k]),
        )
}

/// The walks from `tips` keep the graph well formed and its shape, only
/// protect, and leave nothing to do along any of the histories.
pub proof fn lemma_tips_settle<R: Repo>(graph: GraphView, repo: &R, tips: Seq<Oid>)
    requires
        graph.wf(),
    ensures
        protect_tips(graph, repo, tips).wf(),
        graph.same_shape(protect_tips(graph, repo, tips)),
        graph.only_protected_by(protect_tips(graph, repo, tips)),
        all_settled(protect_tips(graph, repo, tips), repo, tips),
    decreases tips.len(),
{
    if tips.len() > 0 {
        let first = if above_root(repo, graph.root_id, tips[0]) {
            walk_protect(graph, repo.history(tips[0]))
        } else {
            graph
        };
        lemma_walk_settles(graph, repo.history(tips[0]));
        lemma_tips_settle(first, repo, tips.drop_first());
        let done = protect_tips(graph, repo, tips);
        assert forall|k: int|
            0 <= k < tips.len() && above_root(repo, done.root_id, #[trigger] tips[k]) implies settled(
            done,
            repo.history(tips[k]),
        ) by {
            if k == 0 {
                lemma_settled_stays(first, done, repo.history(tips[0]));
            } else {
                assert(tips.drop_first()[k - 1] == tips[k]);
            }
        }
    }
}

/// Where nothing is left to do along any history, the walks change nothing.
pub proof fn lemma_settled_tips<R: Repo>(graph: GraphView, repo: &R, tips: Seq<Oid>)
    requires
        graph.wf(),
        all_settled(graph, repo, tips),
    ensures
        protect_tips(graph, repo, tips) == graph,
    decreases tips.len(),
{
    if tips.len() > 0 {
        assert(tips[0] == tips[0]);
        if above_root(repo, graph.root_id, tips[0]) {
            lemma_settled_walk(graph, repo.history(tips[0]));
        }
        assert forall|k: int|
            0 <= k < tips.drop_first().len() && above_root(
                repo,
                graph.root_id,
                #[trigger] tips.drop_first()[k],
            ) implies settled(graph, repo.history(tips.drop_first()[k])) by {
            assert(tips[k + 1] == tips.drop_first()[k]);
        }
        lemma_settled_tips(graph, repo, tips.drop_first());
    }
}

/// Protecting what upstream holds a second time changes nothing.
pub proof fn lemma_protect_tips_twice<R: Repo>(graph: GraphView, repo: &R, tips: Seq<Oid>)
    requires
        graph.wf(),
    ensures
        protect_tips(protect_tips(graph, repo, tips), repo, tips) == protect_tips(
            graph,
            repo,
            tips,
        ),
{
    lemma_tips_settle(graph, repo, tips);
    lemma_settled_tips(protect_tips(graph, repo, tips), repo, tips);
}

/// Where the histories agree with the graph, every node that got protected
/// is a tip or reaches one: it is an ancestor of a protected branch's tip.
pub proof fn lemma_protected_reach_tips<R: Repo>(
    before: GraphView,
    after: GraphView,
    repo: &R,
    tips: Seq<Oid>,
)
    requires
        protected_from(before, after, repo, tips),
        forall|k: int, id: Oid|
            0 <= k < tips.len() && before.contains(id) && #[trigger] repo.history(tips[k]).contains(
                id,
            ) ==> before.reaches(id, tips[k]),
    ensures
        forall|id: Oid|
            #[trigger] after.is_protected(id) && !before.is_protected(id) && before.contains(id)
                ==> exists|k: int| 0 <= k < tips.len() && before.reaches(id, #[trigger] tips[k]),
{
    assert forall|id: Oid|
        #[trigger] after.is_protected(id) && !before.is_protected(id) && before.contains(
            id,
        ) implies exists|k: int| 0 <= k < tips.len() && before.reaches(id, #[trigger] tips[k]) by {
        assert(upstream(repo, before.root_id, tips, id));
        let k = choose|k: int|
            0 <= k < tips.len() && above_root(repo, before.root_id, #[trigger] tips[k])
                && repo.history(tips[k]).contains(id);
        assert(before.reaches(id, tips[k]));
    }
}

/// Protects the commits of `commits` that the graph holds, in order, until
/// one is met that is protected already or the root has had its turn.
pub fn protect_history(graph: &mut Graph, commits: &Vec<Commit>)
    requires
        old(graph).wf(),
    ensures
        final(graph).wf(),
        old(graph)@.same_shape(final(graph)@),
        old(graph)@.only_protected_by(final(graph)@),
        final(graph)@ == walk_protect(old(graph)@, commit_ids(commits@)),
        forall|id: Oid|
            #[trigger] final(graph)@.is_protected(id) && !old(graph)@.is_protected(id)
                ==> commit_ids(commits@).contains(id),
{
    let root_id = graph.root_id();
    let ghost history = commit_ids(commits@);
    let ghost goal = walk_protect(graph@, history);
    let mut i: usize = 0;
    assert(history.skip(0) =~= history);
    while i < commits.len()
        invariant
            i <= commits.len(),
            graph.wf(),
            root_id == graph@.root_id,
            history == commit_ids(commits@),
            goal == walk_protect(old(graph)@, history),
            old(graph)@.same_shape(graph@),
            old(graph)@.only_protected_by(graph@),
            walk_protect(graph@, history.skip(i as int)) == goal,
            forall|id: Oid|
                #[trigger] graph@.is_protected(id) && !old(graph)@.is_protected(id)
                    ==> history.contains(id),
        decreases commits.len() - i,
    {
        let id = commits[i].id;
        let ghost before = graph@;
        proof {
            assert(history.skip(i as int).drop_first() =~= history.skip(i as int + 1));
            assert(history.skip(i as int)[0] == id);
            assert(history[i as int] == id);
        }
        let known = match graph.get(id) {
            Some(node) => Some(node.action),
            None => None,
        };
        match known {
            Some(action) => {
                if action.is_protected() {
                    return ;
                }
                proof {
                    lemma_with_action(graph@, id, Action::Protected);
                }
                graph.set_action(id, Action::Protected);
            },
            None => {},
        }
        proof {
            assert(history.contains(id));
            assert forall|x: Oid|
                #[trigger] graph@.is_protected(x) && !old(graph)@.is_protected(x) implies history.contains(
                x,
            ) by {
                if x != id {
                    assert(before.is_protected(x));
                }
            }
        }
        if id == root_id {
            return ;
        }
        i += 1;
    }
}

/// Protects what upstream holds: for each branch of `protected_branches`
/// whose tip lies above the root of the graph, the commits of its history that
/// the graph holds, from the tip down to the first that is protected already
/// or to the root. The tip of a branch is what the remote offers for it, or
/// else the local commit.
pub fn protect_branches<R: Repo>(graph: &mut Graph, repo: &R, protected_branches: &Branches)
    requires
        old(graph).wf(),
    ensures
        final(graph).wf(),
        old(graph)@.same_shape(final(graph)@),
        old(graph)@.only_protected_by(final(graph)@),
        old(graph)@.protection_kept_by(final(graph)@),
        old(graph)@.tree() ==> final(graph)@.tree(),
        old(graph)@.tree() && protected_above(old(graph)@) && histories_follow(
            old(graph)@,
            repo,
            branch_tips(protected_branches@),
        ) ==> protected_above(final(graph)@),
        final(graph)@ == protect_tips(old(graph)@, repo, branch_tips(protected_branches@)),
        protected_from(old(graph)@, final(graph)@, repo, branch_tips(protected_branches@)),
{
    let root_id = graph.root_id();
    let protected_oids = protected_branches.tips();
    let ghost tips = protected_oids@;
    let ghost goal = protect_tips(graph@, repo, tips);
    let mut i: usize = 0;
    assert(tips.skip(0) =~= tips);
    while i < protected_oids.len()
        invariant
            i <= protected_oids.len(),
            graph.wf(),
            root_id == graph@.root_id,
            tips == protected_oids@,
            old(graph)@.same_shape(graph@),
            old(graph)@.only_protected_by(graph@),
            protect_tips(graph@, repo, tips.skip(i as int)) == goal,
            forall|id: Oid|
                #[trigger] graph@.is_protected(id) && !old(graph)@.is_protected(id) ==> upstream(
                    repo,
                    root_id,
                    tips.take(i as int),
                    id,
                ),
        decreases protected_oids.len() - i,
    {
        let protected_oid = protected_oids[i];
        let ghost before = graph@;
        proof {
            assert(tips.skip(i as int).drop_first() =~= tips.skip(i as int + 1));
            assert(tips.skip(i as int)[0] == protected_oid);
        }
        let above = match repo.merge_base(root_id, protected_oid) {
            Some(merge_base_oid) => merge_base_oid == root_id,
            None => false,
        };
        if above {
            let commits = repo.commits_from(protected_oid);
            protect_history(graph, &commits);
        }
        proof {
            assert forall|id: Oid|
                #[trigger] graph@.is_protected(id) && !old(graph)@.is_protected(id) implies upstream(
                    repo,
                    root_id,
                    tips.take(i as int + 1),
                    id,
                ) by {
                let longer = tips.take(i as int + 1);
                if before.is_protected(id) {
                    let k = choose|k: int|
                        0 <= k < tips.take(i as int).len() && above_root(
                            repo,
                            root_id,
                            #[trigger] tips.take(i as int)[k],
                        ) && repo.history(tips.take(i as int)[k]).contains(id);
                    assert(longer[k] == tips.take(i as int)[k]);
                } else {
                    assert(longer[i as int] == protected_oid);
                }
            }
        }
        i += 1;
    }
    assert(tips.take(tips.len() as int) =~= tips);
    proof {
        if old(graph)@.tree() {
            lemma_same_shape_tree(old(graph)@, graph@);
            if protected_above(old(graph)@) && histories_follow(old(graph)@, repo, tips) {
                lemma_tips_guard(old(graph)@, repo, tips);
            }
        }
    }
}

} // verus!
