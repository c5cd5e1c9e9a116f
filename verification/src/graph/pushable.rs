//! The pass that finds the branches that are ready to be pushed.
use vstd::prelude::*;
use crate::git::branch::{branch_views, Branch, BranchView};
use crate::git::oid::Oid;
use crate::graph::model::{lemma_with_pushable, GraphView};
use crate::graph::node::{Action, NodeView};
use crate::graph::store::Graph;
use crate::graph::tree::lemma_same_but_pushable_tree;

verus! {

/// Why the first branch of a stack is not pushed.
#[derive(Clone, Copy, Debug, PartialEq, Eq, Structural)]
pub enum Cause {
    /// The remote holds every branch at the commit already.
    AlreadyPushed,
    /// A commit on the way is marked as work in progress.
    ContainsWip,
}

impl Cause {
    /// The cause in words.
    pub open spec fn words(self) -> Seq<char> {
        match self {
            Cause::AlreadyPushed => "already pushed"@,
            Cause::ContainsWip => "contains WIP commit"@,
        }
    }

    /// The cause in words.
    pub fn text(self) -> (r: &'static str)
        ensures
            r@ == self.words(),
    {
        match self {
            Cause::AlreadyPushed => "already pushed",
            Cause::ContainsWip => "contains WIP commit",
        }
    }
}

/// What the pass finds of the first branch of a stack: that it is fit for
/// pushing, or why it is not.
#[derive(Clone, Debug, PartialEq, Eq)]
pub struct Verdict {
    /// The name of the branch.
    pub branch: String,
    /// Why the branch is not pushed; nothing where it is fit for pushing.
    pub cause: Option<Cause>,
}

/// A verdict as a value.
pub struct VerdictView {
    pub branch: Seq<char>,
    pub cause: Option<Cause>,
}

impl View for Verdict {
    type V = VerdictView;

    open spec fn view(&self) -> VerdictView {
        VerdictView { branch: self.branch@, cause: self.cause }
    }
}

/// The views of a list of verdicts, in order.
pub open spec fn verdict_views(verdicts: Seq<Verdict>) -> Seq<VerdictView> {
    verdicts.map_values(|v: Verdict| v@)
}

/// Whether the remote holds each of `branches` as it is locally. True of no
/// branches at all.
pub open spec fn all_pushed(branches: Seq<BranchView>) -> bool {
    forall|i: int| 0 <= i < branches.len() ==> (#[trigger] branches[i]).is_pushed()
}

/// The cause that holds at `node`, reached with the cause `inherited`: a
/// protected node hands on what it got; at any other node, that its branches
/// are all pushed, else that it is work in progress, else what it got.
pub open spec fn cause_at(node: NodeView, inherited: Option<Cause>) -> Option<Cause> {
    if node.action == Action::Protected {
        inherited
    } else if all_pushed(node.branches) {
        Some(Cause::AlreadyPushed)
    } else if node.commit.is_wip() {
        Some(Cause::ContainsWip)
    } else {
        inherited
    }
}

/// Where the walk of the pass stands: the graph by now, the nodes put aside
/// for the next level, each with the cause it is reached with, and the
/// verdicts given so far.
pub struct PushSweep {
    pub graph: GraphView,
    pub next: Seq<(Oid, Option<Cause>)>,
    pub found: Seq<VerdictView>,
}

/// `children`, each with `cause`.
pub open spec fn with_cause(children: Seq<Oid>, cause: Option<Cause>) -> Seq<(Oid, Option<Cause>)> {
    children.map_values(|c: Oid| (c, cause))
}

/// One node of the walk. An unprotected node with a branch ends its line:
/// a verdict is given of its first branch, and it is marked as fit for pushing
/// unless a cause holds at it. At any other node the children are put aside
/// with the cause that holds at it.
pub open spec fn push_one(s: PushSweep, id: Oid, inherited: Option<Cause>) -> PushSweep {
    let node = s.graph.nodes[id];
    let cause = cause_at(node, inherited);
    if node.action != Action::Protected && node.branches.len() > 0 {
        let found = s.found.push(VerdictView { branch: node.branches[0].name, cause });
        if cause is None {
            PushSweep { graph: s.graph.with_pushable(id, true), found, ..s }
        } else {
            PushSweep { found, ..s }
        }
    } else {
        PushSweep { next: s.next + with_cause(node.children, cause), ..s }
    }
}

/// Each node of `level` in turn, with the cause it was put aside with.
pub open spec fn push_level(s: PushSweep, level: Seq<(Oid, Option<Cause>)>) -> PushSweep
    decreases level.len(),
{
    if level.len() == 0 {
        s
    } else {
        push_level(push_one(s, level[0].0, level[0].1), level.drop_first())
    }
}

/// Level after level, starting with the nodes put aside in `s`, until a
/// level is empty or `left` levels are done.
pub open spec fn push_levels(s: PushSweep, left: nat) -> PushSweep
    decreases left,
{
    if left == 0 || s.next.len() == 0 {
        s
    } else {
        push_levels(push_level(PushSweep { next: Seq::empty(), ..s }, s.next), (left - 1) as nat)
    }
}

/// Where the walk starts: at the root, if it is protected, with no cause.
pub open spec fn push_start(graph: GraphView) -> PushSweep {
    PushSweep {
        graph,
        next: if graph.is_protected(graph.root_id) {
            seq![(graph.root_id, None::<Cause>)]
        } else {
            Seq::empty()
        },
        found: Seq::empty(),
    }
}

/// What `pushable` makes of `graph`.
pub open spec fn marked_pushable(graph: GraphView) -> GraphView {
    push_levels(push_start(graph), graph.size()).graph
}

/// The verdicts that `pushable` gives, in the order of the walk.
pub open spec fn verdicts(graph: GraphView) -> Seq<VerdictView> {
    push_levels(push_start(graph), graph.size()).found
}

/// Whether the graph holds each of the nodes put aside.
pub open spec fn holds_each(graph: GraphView, level: Seq<(Oid, Option<Cause>)>) -> bool {
    forall|i: int| 0 <= i < level.len() ==> graph.contains((#[trigger] level[i]).0)
}

/// Whether the remote holds each of `branches` as it is locally.
pub fn all_branches_pushed(branches: &Vec<Branch>) -> (r: bool)
    ensures
        r == all_pushed(branch_views(branches@)),
{
    let mut i: usize = 0;
    while i < branches.len()
        invariant
            i <= branches.len(),
            forall|j: int| 0 <= j < i ==> (#[trigger] branch_views(branches@)[j]).is_pushed(),
        decreases branches.len() - i,
    {
        if !branches[i].is_pushed() {
            assert(!branch_views(branches@)[i as int].is_pushed());
            return false;
        }
        i += 1;
    }
    true
}

/// Marks the first branch of each stack as fit for pushing, unless the
/// remote has it already or a commit up to it is work in progress. Only the
/// first branch of a stack is considered. Returns what was found of each such
/// branch, in the order of the walk.
pub fn pushable(graph: &mut Graph) -> (found: Vec<Verdict>)
    requires
        old(graph).wf(),
    ensures
        final(graph).wf(),
        old(graph)@.same_but_pushable(final(graph)@),
        old(graph)@.tree() ==> final(graph)@.tree(),
        final(graph)@ == marked_pushable(old(graph)@),
        verdict_views(found@) == verdicts(old(graph)@),
{
    let limit = graph.len();
    let ghost goal = push_levels(push_start(old(graph)@), old(graph)@.size());
    let mut found: Vec<Verdict> = Vec::new();
    assert(verdict_views(found@) =~= Seq::<VerdictView>::empty());
    let mut level: Vec<(Oid, Option<Cause>)> = Vec::new();
    // whether a commit further up spoils the result is not known
    if graph.root().action.is_protected() {
        level.push((graph.root_id(), None));
        assert(level@ =~= seq![(graph@.root_id, None::<Cause>)]);
    } else {
        assert(level@ =~= Seq::<(Oid, Option<Cause>)>::empty());
    }
    let mut left = limit;
    while left > 0 && level.len() > 0
        invariant
            graph.wf(),
            holds_each(graph@, level@),
            old(graph)@.same_but_pushable(graph@),
            push_levels(
                PushSweep { graph: graph@, next: level@, found: verdict_views(found@) },
                left as nat,
            ) == goal,
        ensures
            graph.wf(),
            old(graph)@.same_but_pushable(graph@),
            graph@ == goal.graph,
            verdict_views(found@) == goal.found,
        decreases left,
    {
        let ghost level_goal = push_level(
            PushSweep { graph: graph@, next: Seq::empty(), found: verdict_views(found@) },
            level@,
        );
        let mut next: Vec<(Oid, Option<Cause>)> = Vec::new();
        let mut i: usize = 0;
        assert(level@.skip(0) =~= level@);
        assert(next@ =~= Seq::<(Oid, Option<Cause>)>::empty());
        while i < level.len()
            invariant
                i <= level.len(),
                graph.wf(),
                holds_each(graph@, level@),
                holds_each(graph@, next@),
                old(graph)@.same_but_pushable(graph@),
                push_level(
                    PushSweep { graph: graph@, next: next@, found: verdict_views(found@) },
                    level@.skip(i as int),
                ) == level_goal,
            decreases level.len() - i,
        {
            let current_id = level[i].0;
            let mut cause = level[i].1;
            let ghost before = PushSweep {
                graph: graph@,
                next: next@,
                found: verdict_views(found@),
            };
            proof {
                assert(level@.skip(i as int).drop_first() =~= level@.skip(i as int + 1));
                assert(level@.skip(i as int)[0] == level@[i as int]);
                assert(graph@.contains(level@[i as int].0));
            }
            let current = graph.node(current_id);
            let mut descend = true;
            let mut fit = false;
            if !current.action.is_protected() {
                if all_branches_pushed(&current.branches) {
                    cause = Some(Cause::AlreadyPushed);
                } else if current.commit.wip_summary().is_some() {
                    cause = Some(Cause::ContainsWip);
                }
                if current.branches.len() > 0 {
                    fit = cause.is_none();
                    // only the first branch of a stack is considered
                    descend = false;
                    let ghost said = found@;
                    found.push(Verdict { branch: current.branches[0].name.clone(), cause });
                    assert(verdict_views(found@) =~= verdict_views(said).push(
                        VerdictView { branch: current@.branches[0].name, cause },
                    ));
                }
            }
            assert(cause == cause_at(graph@.nodes[current_id], level@[i as int].1));
            if descend {
                let mut j: usize = 0;
                let ghost kids = current.children@;
                let ghost start = next@;
                assert(with_cause(kids, cause).take(0) =~= Seq::<(Oid, Option<Cause>)>::empty());
                while j < current.children.len()
                    invariant
                        j <= current.children.len(),
                        graph.wf(),
                        graph@.contains(current_id),
                        current@ == graph@.nodes[current_id],
                        kids == current.children@,
                        holds_each(graph@, next@),
                        next@ == start + with_cause(kids, cause).take(j as int),
                    decreases current.children.len() - j,
                {
                    assert(graph@.contains(graph@.nodes[current_id].children[j as int]));
                    next.push((current.children[j], cause));
                    assert(next@ =~= start + with_cause(kids, cause).take(j as int + 1));
                    j += 1;
                }
                assert(with_cause(kids, cause).take(kids.len() as int) =~= with_cause(kids, cause));
            } else if fit {
                proof {
                    lemma_with_pushable(graph@, current_id, true);
                }
                graph.set_pushable(current_id, true);
            }
            assert((PushSweep { graph: graph@, next: next@, found: verdict_views(found@) })
                == push_one(before, current_id, level@[i as int].1));
            i += 1;
        }
        level = next;
        left -= 1;
    }
    proof {
        if old(graph)@.tree() {
            lemma_same_but_pushable_tree(old(graph)@, graph@);
        }
    }
    found
}

} // verus!
