//! The pass that moves what may be rewritten onto a new base.
use vstd::prelude::*;
use crate::git::oid::{lemma_with_ids, lemma_without_all, with_ids, without_all, without_id, Oid};
use crate::graph::acyclic::lemma_path_short;
use crate::graph::model::{lemma_pick, pick, GraphView};
use crate::graph::node::Action;
use crate::graph::store::Graph;
use crate::graph::sweep::{first_level, Sweep};

verus! {

/// The graph with the unprotected children of the node `id` taken from it
/// and added to the children of `new_base`.
pub open spec fn rebase_node(graph: GraphView, id: Oid, new_base: Oid) -> GraphView {
    let moved = pick(graph, graph.children(id), false);
    if moved.len() == 0 {
        graph
    } else {
        let cut = graph.with_children(id, without_all(graph.children(id), moved));
        cut.with_children(new_base, with_ids(cut.nodes[new_base].children, moved))
    }
}

/// One protected node of the walk: its unprotected children move to
/// `new_base`, its protected children are put aside for the next level, and
/// the node is noted as walked.
pub open spec fn rebase_one(s: Sweep<Seq<Oid>>, id: Oid, new_base: Oid) -> Sweep<Seq<Oid>> {
    Sweep {
        graph: rebase_node(s.graph, id, new_base),
        acc: s.acc.push(id),
        next: s.next + pick(s.graph, s.graph.children(id), true),
    }
}

/// Each node of `level` in turn.
pub open spec fn rebase_level(s: Sweep<Seq<Oid>>, level: Seq<Oid>, new_base: Oid) -> Sweep<
    Seq<Oid>,
>
    decreases level.len(),
{
    if level.len() == 0 {
        s
    } else {
        rebase_level(rebase_one(s, level[0], new_base), level.drop_first(), new_base)
    }
}

/// Level after level, starting with the nodes put aside in `s`, until a
/// level is empty or `left` levels are done.
pub open spec fn rebase_levels(s: Sweep<Seq<Oid>>, left: nat, new_base: Oid) -> Sweep<Seq<Oid>>
    decreases left,
{
    if left == 0 || s.next.len() == 0 {
        s
    } else {
        rebase_levels(
            rebase_level(Sweep { next: Seq::empty(), ..s }, s.next, new_base),
            (left - 1) as nat,
            new_base,
        )
    }
}

/// What `rebase_branches` makes of `graph`, and the protected nodes it
/// walked, in order.
pub open spec fn rebased(graph: GraphView, new_base: Oid) -> Sweep<Seq<Oid>> {
    rebase_levels(
        Sweep { graph, acc: Seq::empty(), next: first_level(graph) },
        graph.size(),
        new_base,
    )
}

/// Whether each node of `walked` other than `new_base` has only protected
/// children.
pub open spec fn placed(graph: GraphView, walked: Seq<Oid>, new_base: Oid) -> bool {
    forall|i: int|
        0 <= i < walked.len() && walked[i] != new_base ==> graph.children_protected(
            #[trigger] walked[i],
        )
}

/// Whether protection comes from above: a node with a protected child is
/// protected.
pub open spec fn protected_above(graph: GraphView) -> bool {
    forall|id: Oid, i: int|
        graph.contains(id) && 0 <= i < graph.nodes[id].children.len() && graph.nodes[#[trigger] graph.nodes[id].children[i]].action
            == Action::Protected ==> graph.nodes[id].action == Action::Protected
}

/// A number above the rank of each of `ids`.
pub open spec fn above(rank: Map<Oid, nat>, ids: Seq<Oid>) -> nat
    decreases ids.len(),
{
    if ids.len() == 0 {
        0
    } else if rank[ids.last()] + 1 > above(rank, ids.drop_last()) {
        rank[ids.last()] + 1
    } else {
        above(rank, ids.drop_last())
    }
}

/// `above` is above the rank of each of the ids.
pub proof fn lemma_above(rank: Map<Oid, nat>, ids: Seq<Oid>)
    ensures
        forall|i: int| 0 <= i < ids.len() ==> rank[#[trigger] ids[i]] < above(rank, ids),
    decreases ids.len(),
{
    if ids.len() > 0 {
        lemma_above(rank, ids.drop_last());
        assert forall|i: int| 0 <= i < ids.len() implies rank[#[trigger] ids[i]] < above(rank, ids) by {
            if i < ids.len() - 1 {
                assert(ids.drop_last()[i] == ids[i]);
            }
        }
    }
}

/// Where protection comes from above, moving the unprotected children of a
/// node to a protected node makes no cycle, and protection still comes from
/// above.
pub proof fn lemma_rebase_node_acyclic(graph: GraphView, id: Oid, new_base: Oid)
    requires
        graph.wf(),
        graph.acyclic(),
        protected_above(graph),
        graph.contains(id),
        graph.is_protected(new_base),
    ensures
        rebase_node(graph, id, new_base).acyclic(),
        protected_above(rebase_node(graph, id, new_base)),
{
    let kids = graph.children(id);
    let moved = pick(graph, kids, false);
    let after = rebase_node(graph, id, new_base);
    if moved.len() > 0 {
        let cut = graph.with_children(id, without_all(kids, moved));
        let old_rank = choose|rank: Map<Oid, nat>| graph.ranked_by(rank);
        let lift = above(old_rank, moved);
        let rank = Map::<Oid, nat>::total(
            |x: Oid|
                if graph.nodes[x].action == Action::Protected {
                    old_rank[x] + lift
                } else {
                    old_rank[x]
                },
        );
        lemma_above(old_rank, moved);
        lemma_pick(graph, kids, false);
        lemma_without_all(kids, moved);
        lemma_with_ids(cut.nodes[new_base].children, moved);
        assert(after.nodes.dom() =~= graph.nodes.dom());
        assert forall|x: Oid| graph.contains(x) implies (#[trigger] after.nodes[x]).action
            == graph.nodes[x].action by {}
        assert forall|x: Oid, i: int|
            after.contains(x) && 0 <= i < after.nodes[x].children.len() implies rank[#[trigger] after.nodes[x].children[i]]
            < rank[x] && (graph.nodes[after.nodes[x].children[i]].action == Action::Protected
            ==> graph.nodes[x].action == Action::Protected) by {
            let c = after.nodes[x].children[i];
            assert(after.nodes[x].children.contains(c));
            if x == new_base && moved.contains(c) {
                let m = choose|m: int| 0 <= m < moved.len() && moved[m] == c;
                assert(old_rank[moved[m]] < lift);
                assert(graph.nodes[c].action != Action::Protected);
            } else {
                assert(graph.nodes[x].children.contains(c)) by {
                    if x == new_base {
                        assert(cut.nodes[new_base].children.contains(c));
                        if new_base == id {
                            assert(kids.contains(c));
                        }
                    } else if x == id {
                        assert(kids.contains(c));
                    } else {
                        assert(after.nodes[x].children == graph.nodes[x].children);
                    }
                }
                let k = choose|k: int| 0 <= k < graph.nodes[x].children.len() && graph.nodes[x].children[k] == c;
                assert(old_rank[graph.nodes[x].children[k]] < old_rank[x]);
                assert(graph.nodes[graph.nodes[x].children[k]].action == Action::Protected
                    ==> graph.nodes[x].action == Action::Protected);
            }
        }
        assert(after.ranked_by(rank));
        assert(protected_above(after)) by {
            assert forall|x: Oid, i: int|
                after.contains(x) && 0 <= i < after.nodes[x].children.len() && after.nodes[#[trigger] after.nodes[x].children[i]].action
                    == Action::Protected implies after.nodes[x].action == Action::Protected by {
                let c = after.nodes[x].children[i];
                assert(after.nodes[x].children.contains(c));
                assert(graph.contains(c)) by {
                    if x == new_base && moved.contains(c) {
                        assert(kids.contains(c));
                        let k = choose|k: int| 0 <= k < kids.len() && kids[k] == c;
                        assert(graph.contains(graph.nodes[id].children[k]));
                    } else {
                        assert(graph.nodes[x].children.contains(c)) by {
                            if x == new_base {
                                assert(cut.nodes[new_base].children.contains(c));
                                if new_base == id {
                                    assert(kids.contains(c));
                                }
                            } else if x == id {
                                assert(kids.contains(c));
                            } else {
                                assert(after.nodes[x].children == graph.nodes[x].children);
                            }
                        }
                        let k = choose|k: int|
                            0 <= k < graph.nodes[x].children.len() && graph.nodes[x].children[k] == c;
                        assert(graph.contains(graph.nodes[x].children[k]));
                    }
                }
                assert(after.nodes[c].action == graph.nodes[c].action);
            }
        }
    }
}

/// Whether `path` leads from the root over protected nodes only.
pub open spec fn protected_path(graph: GraphView, path: Seq<Oid>) -> bool {
    &&& graph.is_path(path)
    &&& path[0] == graph.root_id
    &&& forall|i: int| 0 <= i < path.len() ==> graph.is_protected(#[trigger] path[i])
}

/// Whether `id` is reached from the root over protected nodes only.
pub open spec fn on_frontier(graph: GraphView, id: Oid) -> bool {
    exists|path: Seq<Oid>| #[trigger] protected_path(graph, path) && path.last() == id
}

/// Whether `graph` is `origin` with some unprotected children moved: the
/// same nodes with the same actions, each with the protected children it has
/// in `origin`.
pub open spec fn moved_from(origin: GraphView, graph: GraphView) -> bool {
    &&& graph.closed()
    &&& graph.root_id == origin.root_id
    &&& graph.nodes.dom() == origin.nodes.dom()
    &&& forall|id: Oid| origin.contains(id) ==> (#[trigger] graph.nodes[id]).action == origin.nodes[id].action
    &&& forall|id: Oid, child: Oid|
        #![trigger graph.nodes[id].children.contains(child)]
        #![trigger origin.nodes[id].children.contains(child)]
        origin.contains(id) && origin.nodes[child].action == Action::Protected ==> (
        graph.nodes[id].children.contains(child) <==> origin.nodes[id].children.contains(child))
}

/// Moving the unprotected children of a node to the new base keeps to
/// every node its protected children.
pub proof fn lemma_rebase_node_moves(origin: GraphView, graph: GraphView, id: Oid, new_base: Oid)
    requires
        moved_from(origin, graph),
        graph.contains(id),
        graph.contains(new_base),
    ensures
        moved_from(origin, rebase_node(graph, id, new_base)),
{
    let kids = graph.children(id);
    let moved = pick(graph, kids, false);
    let after = rebase_node(graph, id, new_base);
    if moved.len() > 0 {
        let cut = graph.with_children(id, without_all(kids, moved));
        lemma_pick(graph, kids, false);
        lemma_without_all(kids, moved);
        lemma_with_ids(cut.nodes[new_base].children, moved);
        assert(after.nodes.dom() =~= origin.nodes.dom());
        assert forall|x: Oid, i: int|
            after.contains(x) && 0 <= i < after.nodes[x].children.len() implies after.contains(
            #[trigger] after.nodes[x].children[i],
        ) by {
            let c = after.nodes[x].children[i];
            assert(after.nodes[x].children.contains(c));
            if x == new_base {
                if moved.contains(c) {
                    assert(kids.contains(c));
                    let k = choose|k: int| 0 <= k < kids.len() && kids[k] == c;
                    assert(graph.contains(graph.nodes[id].children[k]));
                } else {
                    assert(cut.nodes[new_base].children.contains(c));
                    if new_base == id {
                        assert(kids.contains(c));
                        let k = choose|k: int| 0 <= k < kids.len() && kids[k] == c;
                        assert(graph.contains(graph.nodes[id].children[k]));
                    } else {
                        let k = choose|k: int|
                            0 <= k < graph.nodes[new_base].children.len() && graph.nodes[new_base].children[k] == c;
                        assert(graph.contains(graph.nodes[new_base].children[k]));
                    }
                }
            } else if x == id {
                assert(kids.contains(c));
                let k = choose|k: int| 0 <= k < kids.len() && kids[k] == c;
                assert(graph.contains(graph.nodes[id].children[k]));
            } else {
                assert(graph.contains(graph.nodes[x].children[i]));
            }
        }
        assert forall|x: Oid, child: Oid|
            #![trigger after.nodes[x].children.contains(child)]
            #![trigger origin.nodes[x].children.contains(child)]
            origin.contains(x) && origin.nodes[child].action == Action::Protected implies (
            after.nodes[x].children.contains(child) <==> origin.nodes[x].children.contains(child)) by {
            assert(graph.nodes[x].children.contains(child) <==> origin.nodes[x].children.contains(
                child,
            ));
            if origin.nodes[x].children.contains(child) {
                assert(origin.contains(x));
            }
            assert(!moved.contains(child)) by {
                if moved.contains(child) {
                    assert(kids.contains(child));
                    if graph.contains(child) {
                        assert(graph.nodes[child].action == origin.nodes[child].action);
                    }
                }
            }
        }
    }
}

/// Whether `graph` holds each of `ids` and protects it.
pub open spec fn all_protected(graph: GraphView, ids: Seq<Oid>) -> bool {
    forall|i: int| 0 <= i < ids.len() ==> graph.is_protected(#[trigger] ids[i])
}

/// One level of the walk notes each of its nodes as walked and puts aside
/// each protected child of each of them.
pub proof fn lemma_rebase_level_reaches(
    origin: GraphView,
    s: Sweep<Seq<Oid>>,
    level: Seq<Oid>,
    new_base: Oid,
)
    requires
        origin.sound(),
        origin.contains(new_base),
        moved_from(origin, s.graph),
        all_protected(origin, level),
        all_protected(origin, s.next),
    ensures
        moved_from(origin, rebase_level(s, level, new_base).graph),
        all_protected(origin, rebase_level(s, level, new_base).next),
        rebase_level(s, level, new_base).acc == s.acc + level,
        forall|x: Oid| s.next.contains(x) ==> rebase_level(s, level, new_base).next.contains(x),
        forall|j: int, child: Oid|
            0 <= j < level.len() && origin.is_protected(child) && #[trigger] origin.nodes[level[j]].children.contains(
                child,
            ) ==> rebase_level(s, level, new_base).next.contains(child),
    decreases level.len(),
{
    if level.len() == 0 {
        assert(s.acc + level =~= s.acc);
    } else {
        let id = level[0];
        let one = rebase_one(s, id, new_base);
        let rest = level.drop_first();
        let kids = s.graph.children(id);
        let aside = pick(s.graph, kids, true);
        assert(origin.is_protected(level[0]));
        lemma_rebase_node_moves(origin, s.graph, id, new_base);
        lemma_pick(s.graph, kids, true);
        assert forall|i: int| 0 <= i < one.next.len() implies origin.is_protected(#[trigger] one.next[i]) by {
            if i < s.next.len() {
                assert(one.next[i] == s.next[i]);
            } else {
                let c = aside[i - s.next.len()];
                assert(one.next[i] == c);
                assert(aside.contains(c));
                assert(s.graph.nodes[id].children.contains(c));
                let k = choose|k: int| 0 <= k < kids.len() && kids[k] == c;
                assert(s.graph.contains(s.graph.nodes[id].children[k]));
                assert(s.graph.nodes[c].action == origin.nodes[c].action);
            }
        }
        assert forall|i: int| 0 <= i < rest.len() implies origin.is_protected(#[trigger] rest[i]) by {
            assert(rest[i] == level[i + 1]);
        }
        lemma_rebase_level_reaches(origin, one, rest, new_base);
        let done = rebase_level(s, level, new_base);
        assert(done.acc =~= s.acc + level);
        assert forall|x: Oid| s.next.contains(x) implies done.next.contains(x) by {
            let i = choose|i: int| 0 <= i < s.next.len() && s.next[i] == x;
            assert(one.next[i] == x);
            assert(one.next.contains(x));
        }
        assert forall|j: int, child: Oid|
            0 <= j < level.len() && origin.is_protected(child) && #[trigger] origin.nodes[level[j]].children.contains(
                child,
            ) implies done.next.contains(child) by {
            if j == 0 {
                assert(s.graph.nodes[id].children.contains(child));
                assert(s.graph.nodes[child].action == Action::Protected);
                assert(aside.contains(child));
                let k = choose|k: int| 0 <= k < aside.len() && aside[k] == child;
                assert(one.next[s.next.len() + k] == child);
                assert(one.next.contains(child));
            } else {
                assert(rest[j - 1] == level[j]);
            }
        }
    }
}

/// What the walk has noted, it keeps.
pub proof fn lemma_rebase_levels_keep(
    origin: GraphView,
    s: Sweep<Seq<Oid>>,
    left: nat,
    new_base: Oid,
    id: Oid,
)
    requires
        origin.sound(),
        origin.contains(new_base),
        moved_from(origin, s.graph),
        all_protected(origin, s.next),
        s.acc.contains(id),
    ensures
        rebase_levels(s, left, new_base).acc.contains(id),
    decreases left,
{
    if left > 0 && s.next.len() > 0 {
        let cleared = Sweep { next: Seq::empty(), ..s };
        lemma_rebase_level_reaches(origin, cleared, s.next, new_base);
        let one = rebase_level(cleared, s.next, new_base);
        let i = choose|i: int| 0 <= i < s.acc.len() && s.acc[i] == id;
        assert(one.acc[i] == id);
        lemma_rebase_levels_keep(origin, one, (left - 1) as nat, new_base, id);
    }
}

/// The walk notes the end of every path over protected nodes that starts
/// at a node put aside, if it may go as many levels on as the path is long.
pub proof fn lemma_rebase_levels_reach(
    origin: GraphView,
    s: Sweep<Seq<Oid>>,
    left: nat,
    new_base: Oid,
    path: Seq<Oid>,
    j: int,
)
    requires
        origin.sound(),
        origin.contains(new_base),
        moved_from(origin, s.graph),
        all_protected(origin, s.next),
        origin.is_path(path),
        all_protected(origin, path),
        0 <= j < path.len(),
        s.next.contains(path[j]),
        left >= path.len() - j,
    ensures
        rebase_levels(s, left, new_base).acc.contains(path.last()),
    decreases left,
{
    let cleared = Sweep { next: Seq::empty(), ..s };
    lemma_rebase_level_reaches(origin, cleared, s.next, new_base);
    let one = rebase_level(cleared, s.next, new_base);
    let at = choose|at: int| 0 <= at < s.next.len() && s.next[at] == path[j];
    assert(one.acc[s.acc.len() + at] == path[j]);
    if j == path.len() - 1 {
        lemma_rebase_levels_keep(origin, one, (left - 1) as nat, new_base, path.last());
    } else {
        assert(origin.contains(path[j]) && origin.nodes[path[j]].children.contains(path[j + 1]));
        assert(origin.is_protected(path[j + 1]));
        assert(origin.nodes[s.next[at]].children.contains(path[j + 1]));
        assert(one.next.contains(path[j + 1]));
        lemma_rebase_levels_reach(origin, one, (left - 1) as nat, new_base, path, j + 1);
    }
}

/// In a graph without cycles the walk comes by every node that is reached
/// from the root over protected nodes.
pub proof fn lemma_walk_reaches_frontier(graph: GraphView, new_base: Oid, id: Oid)
    requires
        graph.wf(),
        graph.acyclic(),
        graph.contains(new_base),
        on_frontier(graph, id),
    ensures
        rebased(graph, new_base).acc.contains(id),
{
    let path = choose|path: Seq<Oid>| #[trigger] protected_path(graph, path) && path.last() == id;
    assert(graph.is_protected(path[0]));
    let start = Sweep { graph, acc: Seq::<Oid>::empty(), next: first_level(graph) };
    assert(start.next[0] == path[0]);
    lemma_path_short(graph, path);
    lemma_rebase_levels_reach(graph, start, graph.size(), new_base, path, 0);
}

/// Whether every protected node is reached from the root over protected
/// nodes only: below a node that is not protected, none is.
pub open spec fn protection_from_root(graph: GraphView) -> bool {
    forall|id: Oid| #[trigger] graph.is_protected(id) ==> on_frontier(graph, id)
}

/// Whether no protected node but `new_base` has a child that is not
/// protected.
pub open spec fn well_placed(graph: GraphView, new_base: Oid) -> bool {
    forall|id: Oid| #[trigger] graph.is_protected(id) && id != new_base ==> graph.children_protected(id)
}

/// Where the walk came by every protected node, no protected node but the
/// new base has a child that is not protected. In a graph without cycles whose
/// protection starts at the root, the walk came by every protected node.
pub proof fn lemma_rebase_placement(before: GraphView, after: GraphView, new_base: Oid)
    requires
        before.wf(),
        before.acyclic(),
        before.contains(new_base),
        protection_from_root(before),
        before.same_but_children(after),
        placed(after, rebased(before, new_base).acc, new_base),
    ensures
        well_placed(after, new_base),
{
    let walked = rebased(before, new_base).acc;
    assert forall|id: Oid| #[trigger] after.is_protected(id) && id != new_base implies after.children_protected(
        id,
    ) by {
        assert(before.is_protected(id));
        lemma_walk_reaches_frontier(before, new_base, id);
        let i = choose|i: int| 0 <= i < walked.len() && walked[i] == id;
        assert(after.children_protected(walked[i]));
    }
}

/// Moves every unprotected child of a protected node that the walk from the
/// root reaches over protected nodes to `new_base_id`. Afterwards such a
/// node, unless it is `new_base_id`, has only protected children.
pub fn rebase_branches(graph: &mut Graph, new_base_id: Oid)
    requires
        old(graph).wf(),
        old(graph)@.is_protected(new_base_id),
    ensures
        final(graph).wf(),
        old(graph)@.same_but_children(final(graph)@),
        final(graph)@ == rebased(old(graph)@, new_base_id).graph,
        placed(final(graph)@, rebased(old(graph)@, new_base_id).acc, new_base_id),
        old(graph)@.acyclic() && protection_from_root(old(graph)@) ==> well_placed(
            final(graph)@,
            new_base_id,
        ),
        old(graph)@.acyclic() && protected_above(old(graph)@) ==> final(graph)@.acyclic()
            && protected_above(final(graph)@),
        old(graph)@.tree() && protected_above(old(graph)@) ==> final(graph)@.tree() && well_placed(
            final(graph)@,
            new_base_id,
        ),
{
    let limit = graph.len();
    let ghost goal = rebased(old(graph)@, new_base_id);
    let ghost mut walked: Seq<Oid> = Seq::empty();
    let mut level: Vec<Oid> = Vec::new();
    if graph.root().action.is_protected() {
        level.push(graph.root_id());
    }
    assert(level@ =~= first_level(graph@));
    let mut left = limit;
    while left > 0 && level.len() > 0
        invariant
            graph.wf(),
            graph@.contains(new_base_id),
            graph@.contains_all(level@),
            old(graph)@.same_but_children(graph@),
            old(graph)@.is_protected(new_base_id),
            old(graph)@.acyclic() && protected_above(old(graph)@) ==> graph@.acyclic()
                && protected_above(graph@),
            old(graph)@.tree() && protected_above(old(graph)@) ==> graph@.tree(),
            placed(graph@, walked, new_base_id),
            rebase_levels(
                Sweep { graph: graph@, acc: walked, next: level@ },
                left as nat,
                new_base_id,
            ) == goal,
        ensures
            graph.wf(),
            old(graph)@.same_but_children(graph@),
            old(graph)@.acyclic() && protected_above(old(graph)@) ==> graph@.acyclic()
                && protected_above(graph@),
            old(graph)@.tree() && protected_above(old(graph)@) ==> graph@.tree(),
            placed(graph@, walked, new_base_id),
            (Sweep { graph: graph@, acc: walked, next: level@ }) == goal,
        decreases left,
    {
        let ghost level_goal = rebase_level(
            Sweep { graph: graph@, acc: walked, next: Seq::empty() },
            level@,
            new_base_id,
        );
        let mut next: Vec<Oid> = Vec::new();
        let mut i: usize = 0;
        assert(level@.skip(0) =~= level@);
        assert(next@ =~= Seq::<Oid>::empty());
        while i < level.len()
            invariant
                i <= level.len(),
                graph.wf(),
                graph@.contains(new_base_id),
                graph@.contains_all(level@),
                graph@.contains_all(next@),
                old(graph)@.same_but_children(graph@),
                old(graph)@.is_protected(new_base_id),
                old(graph)@.acyclic() && protected_above(old(graph)@) ==> graph@.acyclic()
                    && protected_above(graph@),
                old(graph)@.tree() && protected_above(old(graph)@) ==> graph@.tree(),
                placed(graph@, walked, new_base_id),
                rebase_level(
                    Sweep { graph: graph@, acc: walked, next: next@ },
                    level@.skip(i as int),
                    new_base_id,
                ) == level_goal,
            decreases level.len() - i,
        {
            let current_id = level[i];
            let ghost before = Sweep { graph: graph@, acc: walked, next: next@ };
            let ghost g0 = graph@;
            proof {
                assert(level@.skip(i as int).drop_first() =~= level@.skip(i as int + 1));
                assert(level@.skip(i as int)[0] == current_id);
                assert(graph@.contains(level@[i as int]));
            }
            let current_children = graph.node(current_id).children.clone();
            let ghost kids = current_children@;
            proof {
                assert forall|k: int| 0 <= k < kids.len() implies g0.contains(#[trigger] kids[k])
                    && kids[k] != g0.root_id by {
                    assert(g0.contains(g0.nodes[current_id].children[k]));
                }
                assert(kids.take(0) =~= Seq::<Oid>::empty());
            }
            let mut rebaseable: Vec<Oid> = Vec::new();
            let mut j: usize = 0;
            while j < current_children.len()
                invariant
                    j <= current_children.len(),
                    graph.wf(),
                    graph@ == g0,
                    kids == current_children@,
                    g0.contains_all(kids),
                    g0.contains_all(next@),
                    g0.contains_all(rebaseable@),
                    forall|k: int| 0 <= k < rebaseable@.len() ==> rebaseable@[k] != g0.root_id,
                    forall|k: int| 0 <= k < kids.len() ==> kids[k] != g0.root_id,
                    next@ == before.next + pick(g0, kids.take(j as int), true),
                    rebaseable@ == pick(g0, kids.take(j as int), false),
                decreases current_children.len() - j,
            {
                let child_id = current_children[j];
                proof {
                    assert(kids.take(j as int + 1).drop_last() =~= kids.take(j as int));
                    assert(kids.take(j as int + 1).last() == child_id);
                    assert(g0.contains(kids[j as int]));
                }
                let ghost next_before = next@;
                if graph.node(child_id).action.is_protected() {
                    next.push(child_id);
                    assert(next@ =~= before.next + pick(g0, kids.take(j as int + 1), true));
                } else {
                    rebaseable.push(child_id);
                }
                j += 1;
            }
            assert(kids.take(kids.len() as int) =~= kids);
            let ghost moved = rebaseable@;
            if rebaseable.len() > 0 {
                let ghost cut_goal = g0.with_children(current_id, without_all(kids, moved));
                let mut k: usize = 0;
                assert(moved.skip(0) =~= moved);
                while k < rebaseable.len()
                    invariant
                        k <= rebaseable.len(),
                        graph.wf(),
                        moved == rebaseable@,
                        graph@.contains(current_id),
                        graph@.contains(new_base_id),
                        graph@.nodes.dom() == g0.nodes.dom(),
                        graph@.root_id == g0.root_id,
                        graph@.with_children(
                            current_id,
                            without_all(graph@.nodes[current_id].children, moved.skip(k as int)),
                        ) == cut_goal,
                    decreases rebaseable.len() - k,
                {
                    let ghost g1 = graph@;
                    proof {
                        assert(moved.skip(k as int).drop_first() =~= moved.skip(k as int + 1));
                    }
                    graph.remove_edge(current_id, rebaseable[k]);
                    proof {
                        let c1 = without_id(g1.nodes[current_id].children, moved[k as int]);
                        assert(graph@.nodes[current_id].children == c1);
                        assert(graph@.with_children(
                            current_id,
                            without_all(c1, moved.skip(k as int + 1)),
                        ).nodes =~= g1.with_children(
                            current_id,
                            without_all(g1.nodes[current_id].children, moved.skip(k as int)),
                        ).nodes);
                        assert(graph@.nodes.dom() =~= g0.nodes.dom());
                    }
                    k += 1;
                }
                proof {
                    assert(graph@.nodes =~= cut_goal.nodes);
                    assert(graph@ == cut_goal);
                }
                graph.add_children(new_base_id, &rebaseable);
            }
            proof {
                assert(graph@ == rebase_node(g0, current_id, new_base_id));
                if g0.acyclic() && protected_above(g0) {
                    lemma_rebase_node_acyclic(g0, current_id, new_base_id);
                }
                if g0.tree() && protected_above(g0) {
                    crate::graph::tree::lemma_rebase_node_tree(g0, current_id, new_base_id);
                }
                walked = walked.push(current_id);
                assert(graph@.nodes.dom() =~= g0.nodes.dom());
                lemma_pick(g0, kids, false);
                lemma_without_all(kids, moved);
                assert(placed(graph@, walked, new_base_id)) by {
                    assert forall|w: int|
                        0 <= w < walked.len() && walked[w] != new_base_id implies graph@.children_protected(
                        #[trigger] walked[w],
                    ) by {
                        let x = walked[w];
                        if x == current_id {
                            assert forall|c: int| 0 <= c < graph@.children(x).len() implies graph@.is_protected(
                                #[trigger] graph@.children(x)[c],
                            ) by {
                                let y = graph@.children(x)[c];
                                if moved.len() == 0 {
                                    assert(kids.contains(kids[c]));
                                    assert(!pick(g0, kids, false).contains(y));
                                } else {
                                    assert(without_all(kids, moved).contains(y));
                                }
                                assert(g0.contains(y));
                            }
                        } else {
                            assert(before.acc[w] == x);
                            assert(g0.children_protected(x));
                            assert(graph@.children(x) == g0.children(x));
                            assert forall|c: int| 0 <= c < graph@.children(x).len() implies graph@.is_protected(
                                #[trigger] graph@.children(x)[c],
                            ) by {
                                assert(g0.is_protected(g0.children(x)[c]));
                            }
                        }
                    }
                }
            }
            i += 1;
        }
        level = next;
        left -= 1;
    }
    proof {
        if old(graph)@.tree() && protected_above(old(graph)@) {
            crate::graph::guard::lemma_protection_from_root(old(graph)@);
        }
        if old(graph)@.acyclic() && protection_from_root(old(graph)@) {
            lemma_rebase_placement(old(graph)@, graph@, new_base_id);
        }
    }
}

} // verus!
