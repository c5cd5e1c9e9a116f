//! The pass that finds branches which upstream already holds in squashed
//! form: a branch whose tree is the tree of a protected commit has nothing
//! left to contribute.
use vstd::prelude::*;
use crate::git::oid::{contains_id, insert_id, with_id, Oid};
use crate::graph::model::{
    lemma_reaches_child, lemma_reaches_on, lemma_reaches_self, lemma_subpath, lemma_with_action,
    GraphView,
};
use crate::graph::node::Action;
use crate::graph::store::Graph;
use crate::graph::tree::lemma_same_shape_tree;

verus! {

/// Each node of `ids` marked for deletion, in turn.
pub open spec fn delete_all(graph: GraphView, ids: Seq<Oid>) -> GraphView
    decreases ids.len(),
{
    if ids.len() == 0 {
        graph
    } else {
        delete_all(graph.with_action(ids[0], Action::Delete), ids.drop_first())
    }
}

/// The search for the first branch below a protected node, at the node `id`
/// and reached over `path`. A revert ends the search on this line. At the
/// first node with a branch the search ends too: where that node's tree is
/// one of `trees`, it and every node of `path` are marked for deletion. At
/// any other node the search goes on in each child, `depth` steps down at
/// most.
pub open spec fn drop_first(
    graph: GraphView,
    id: Oid,
    path: Seq<Oid>,
    trees: Seq<Oid>,
    depth: nat,
) -> GraphView
    decreases depth, 0nat, 0nat,
{
    let node = graph.nodes[id];
    if node.commit.is_revert() {
        graph
    } else if node.branches.len() > 0 {
        if trees.contains(node.commit.tree_id) {
            delete_all(graph, with_id(path, id))
        } else {
            graph
        }
    } else if depth == 0 {
        graph
    } else {
        drop_below(graph, node.children, with_id(path, id), trees, (depth - 1) as nat)
    }
}

/// The search in each of `children` in turn.
pub open spec fn drop_below(
    graph: GraphView,
    children: Seq<Oid>,
    path: Seq<Oid>,
    trees: Seq<Oid>,
    depth: nat,
) -> GraphView
    decreases depth, 1nat, children.len(),
{
    if children.len() == 0 {
        graph
    } else {
        drop_below(
            drop_first(graph, children[0], path, trees, depth),
            children.drop_first(),
            path,
            trees,
            depth,
        )
    }
}

/// Whether a protected commit with the tree `tree` reaches the node `at`.
pub open spec fn from_upstream(graph: GraphView, tree: Oid, at: Oid) -> bool {
    exists|upstream: Oid|
        graph.is_protected(upstream) && graph.nodes[upstream].commit.tree_id == tree
            && #[trigger] graph.reaches(upstream, at)
}

/// Whether for each of `trees` a protected commit with that tree reaches `at`.
pub open spec fn all_from_upstream(graph: GraphView, trees: Seq<Oid>, at: Oid) -> bool {
    forall|k: int| 0 <= k < trees.len() ==> from_upstream(graph, #[trigger] trees[k], at)
}

/// Whether `path` leads to the first branch on its line: it ends at a node
/// with a branch, no node before that has one, and no node on it is a revert.
pub open spec fn leads_to_branch(graph: GraphView, path: Seq<Oid>) -> bool {
    &&& graph.is_path(path)
    &&& graph.contains(path.last())
    &&& graph.nodes[path.last()].branches.len() > 0
    &&& forall|i: int| 0 <= i < path.len() ==> !graph.nodes[#[trigger] path[i]].commit.is_revert()
    &&& forall|i: int| 0 <= i < path.len() - 1 ==> graph.nodes[#[trigger] path[i]].branches.len() == 0
}

/// Whether upstream holds what the node `id` leads to: a path without a
/// revert leads from `id` to the first branch on the line, and a protected
/// commit that reaches `id` has the tree that this branch has.
pub open spec fn squashed_upstream(graph: GraphView, id: Oid) -> bool {
    exists|path: Seq<Oid>|
        #[trigger] leads_to_branch(graph, path) && path[0] == id && from_upstream(
            graph,
            graph.nodes[path.last()].commit.tree_id,
            id,
        )
}

/// Whether `after` decides anew only of nodes of which `origin` shows that
/// upstream holds what they lead to.
pub open spec fn only_drops_squashed(origin: GraphView, before: GraphView, after: GraphView) -> bool {
    forall|id: Oid|
        before.contains(id) && (#[trigger] after.nodes[id]).action != before.nodes[id].action
            ==> squashed_upstream(origin, id)
}

/// Whether `line`, continued by `node`, is the way that a search has come:
/// a path on which no node before `node` is a revert or has a branch.
pub open spec fn searched(graph: GraphView, line: Seq<Oid>, node: Oid) -> bool {
    &&& graph.is_path(line.push(node))
    &&& forall|i: int| 0 <= i < line.len() ==> !graph.nodes[#[trigger] line[i]].commit.is_revert()
    &&& forall|i: int| 0 <= i < line.len() ==> graph.nodes[#[trigger] line[i]].branches.len() == 0
}

/// What a protected commit reaches, it reaches on.
pub proof fn lemma_upstream_on(graph: GraphView, tree: Oid, at: Oid, to: Oid)
    requires
        from_upstream(graph, tree, at),
        graph.reaches(at, to),
    ensures
        from_upstream(graph, tree, to),
{
    let upstream = choose|upstream: Oid|
        graph.is_protected(upstream) && graph.nodes[upstream].commit.tree_id == tree
            && #[trigger] graph.reaches(upstream, at);
    lemma_reaches_on(graph, upstream, at, to);
}

/// Where a search has come to a node with a branch whose tree is one of
/// `trees`, upstream holds what each node on its way leads to.
pub proof fn lemma_line_squashed(
    graph: GraphView,
    line: Seq<Oid>,
    node: Oid,
    trees: Seq<Oid>,
    id: Oid,
)
    requires
        searched(graph, line, node),
        graph.contains(node),
        graph.nodes[node].branches.len() > 0,
        !graph.nodes[node].commit.is_revert(),
        trees.contains(graph.nodes[node].commit.tree_id),
        all_from_upstream(graph, trees, line.push(node)[0]),
        id == node || line.contains(id),
    ensures
        squashed_upstream(graph, id),
{
    let full = line.push(node);
    let at = if id == node {
        line.len() as int
    } else {
        choose|i: int| 0 <= i < line.len() && line[i] == id
    };
    assert(full[at] == id);
    let path = full.skip(at);
    lemma_subpath(graph, full, at);
    assert(path.last() == node);
    assert forall|i: int| 0 <= i < path.len() implies !graph.nodes[#[trigger] path[i]].commit.is_revert() by {
        if at + i < line.len() {
            assert(path[i] == line[at + i]);
        }
    }
    assert forall|i: int| 0 <= i < path.len() - 1 implies graph.nodes[#[trigger] path[i]].branches.len()
        == 0 by {
        assert(path[i] == line[at + i]);
    }
    assert(leads_to_branch(graph, path));
    let tree = graph.nodes[node].commit.tree_id;
    let k = choose|k: int| 0 <= k < trees.len() && trees[k] == tree;
    assert(from_upstream(graph, trees[k], full[0]));
    lemma_upstream_on(graph, tree, full[0], id);
    assert(path[0] == id);
}

/// Where the walk of the pass stands: the graph by now, and the protected
/// nodes put aside for the next level, each with the trees of the protected
/// commits on the way to it.
pub struct TreeSweep {
    pub graph: GraphView,
    pub next: Seq<(Oid, Seq<Oid>)>,
}

/// What the pass does with the child `child` of a protected node that is
/// reached with `trees`: a protected child is put aside with them; in
/// another the search for the first branch starts.
pub open spec fn drop_visit(s: TreeSweep, trees: Seq<Oid>, child: Oid, depth: nat) -> TreeSweep {
    if s.graph.nodes[child].action == Action::Protected {
        TreeSweep { next: s.next.push((child, trees)), ..s }
    } else {
        TreeSweep { graph: drop_first(s.graph, child, Seq::empty(), trees, depth), ..s }
    }
}

/// The visits of `children` in turn, as children of a protected node that
/// is reached with `trees`.
pub open spec fn drop_visit_children(
    s: TreeSweep,
    trees: Seq<Oid>,
    children: Seq<Oid>,
    depth: nat,
) -> TreeSweep
    decreases children.len(),
{
    if children.len() == 0 {
        s
    } else {
        drop_visit_children(
            drop_visit(s, trees, children[0], depth),
            trees,
            children.drop_first(),
            depth,
        )
    }
}

/// Each protected node of `level` in turn: its own tree joins the trees it
/// was reached with, and its children are visited with them.
pub open spec fn drop_level(s: TreeSweep, level: Seq<(Oid, Seq<Oid>)>, depth: nat) -> TreeSweep
    decreases level.len(),
{
    if level.len() == 0 {
        s
    } else {
        let id = level[0].0;
        let trees = with_id(level[0].1, s.graph.nodes[id].commit.tree_id);
        drop_level(
            drop_visit_children(s, trees, s.graph.children(id), depth),
            level.drop_first(),
            depth,
        )
    }
}

/// Level after level, starting with the nodes put aside in `s`, until a
/// level is empty or `left` levels are done.
pub open spec fn drop_levels(s: TreeSweep, left: nat, depth: nat) -> TreeSweep
    decreases left,
{
    if left == 0 || s.next.len() == 0 {
        s
    } else {
        drop_levels(
            drop_level(TreeSweep { next: Seq::empty(), ..s }, s.next, depth),
            (left - 1) as nat,
            depth,
        )
    }
}

/// What `drop_by_tree_id` makes of `graph`.
pub open spec fn drop_by_tree(graph: GraphView) -> GraphView {
    let first = if graph.is_protected(graph.root_id) {
        seq![(graph.root_id, Seq::<Oid>::empty())]
    } else {
        Seq::empty()
    };
    drop_levels(TreeSweep { graph, next: first }, graph.size(), graph.size()).graph
}

/// The protected nodes put aside, as values.
pub open spec fn tagged(level: Seq<(Oid, Vec<Oid>)>) -> Seq<(Oid, Seq<Oid>)> {
    level.map_values(|item: (Oid, Vec<Oid>)| (item.0, item.1@))
}

/// Whether the graph holds each of the nodes put aside.
pub open spec fn holds_tagged(graph: GraphView, level: Seq<(Oid, Vec<Oid>)>) -> bool {
    forall|i: int| 0 <= i < level.len() ==> graph.contains((#[trigger] level[i]).0)
}

/// Whether each of the nodes put aside is protected in `origin`, and a
/// protected commit of each tree it was put aside with reaches it.
pub open spec fn tags_from_upstream(origin: GraphView, level: Seq<(Oid, Vec<Oid>)>) -> bool {
    forall|i: int|
        0 <= i < level.len() ==> origin.is_protected((#[trigger] level[i]).0) && all_from_upstream(
            origin,
            level[i].1@,
            level[i].0,
        )
}

fn drop_first_branch_by_tree_id(
    graph: &mut Graph,
    node_id: Oid,
    branch_ids: Vec<Oid>,
    protected_tree_ids: &Vec<Oid>,
    depth: usize,
    Ghost(origin): Ghost<GraphView>,
    Ghost(line): Ghost<Seq<Oid>>,
)
    requires
        old(graph).wf(),
        old(graph)@.contains(node_id),
        old(graph)@.contains_all(branch_ids@),
        origin.same_shape(old(graph)@),
        searched(origin, line, node_id),
        forall|k: int| 0 <= k < branch_ids@.len() ==> line.contains(#[trigger] branch_ids@[k]),
        all_from_upstream(origin, protected_tree_ids@, line.push(node_id)[0]),
    ensures
        final(graph).wf(),
        old(graph)@.same_shape(final(graph)@),
        old(graph)@.only_deleted_by(final(graph)@),
        only_drops_squashed(origin, old(graph)@, final(graph)@),
        final(graph)@ == drop_first(
            old(graph)@,
            node_id,
            branch_ids@,
            protected_tree_ids@,
            depth as nat,
        ),
    decreases depth,
{
    let ghost given = branch_ids@;
    let ghost path = with_id(branch_ids@, node_id);
    let mut branch_ids = branch_ids;
    insert_id(&mut branch_ids, node_id);
    assert(graph@.contains_all(branch_ids@)) by {
        assert forall|k: int| 0 <= k < branch_ids@.len() implies graph@.contains(#[trigger] branch_ids@[k]) by {
            if k < given.len() {
                assert(graph@.contains(given[k]));
            }
        }
    }
    proof {
        assert forall|k: int| 0 <= k < branch_ids@.len() implies branch_ids@[k] == node_id || line.contains(
            #[trigger] branch_ids@[k],
        ) by {
            if k < given.len() {
                assert(line.contains(given[k]));
            }
        }
    }
    let node = graph.node(node_id);
    if node.commit.revert_summary().is_some() {
        // It may not be a revert at all, or more may be going on: be cautious.
        return ;
    }
    let is_branch = node.branches.len() > 0;
    let node_tree_id = node.commit.tree_id;
    if is_branch {
        if contains_id(protected_tree_ids, node_tree_id) {
            let ghost goal = delete_all(graph@, path);
            let mut i: usize = 0;
            assert(branch_ids@.skip(0) =~= branch_ids@);
            proof {
                assert forall|k: int| 0 <= k < branch_ids@.len() implies squashed_upstream(
                    origin,
                    #[trigger] branch_ids@[k],
                ) by {
                    lemma_line_squashed(
                        origin,
                        line,
                        node_id,
                        protected_tree_ids@,
                        branch_ids@[k],
                    );
                }
            }
            while i < branch_ids.len()
                invariant
                    i <= branch_ids.len(),
                    graph.wf(),
                    graph@.contains_all(branch_ids@),
                    old(graph)@.same_shape(graph@),
                    old(graph)@.only_deleted_by(graph@),
                    only_drops_squashed(origin, old(graph)@, graph@),
                    forall|k: int|
                        0 <= k < branch_ids@.len() ==> squashed_upstream(
                            origin,
                            #[trigger] branch_ids@[k],
                        ),
                    delete_all(graph@, branch_ids@.skip(i as int)) == goal,
                decreases branch_ids.len() - i,
            {
                proof {
                    assert(branch_ids@.skip(i as int).drop_first() =~= branch_ids@.skip(i as int + 1));
                    assert(branch_ids@.skip(i as int)[0] == branch_ids@[i as int]);
                    assert(graph@.contains(branch_ids@[i as int]));
                    lemma_with_action(graph@, branch_ids@[i as int], Action::Delete);
                }
                graph.set_action(branch_ids[i], Action::Delete);
                i += 1;
            }
        }
    } else if depth > 0 {
        let children = node.children.clone();
        let ghost goal = drop_below(graph@, children@, path, protected_tree_ids@, (depth - 1) as nat);
        proof {
            assert forall|k: int| 0 <= k < children@.len() implies graph@.contains(#[trigger] children@[k]) by {
                assert(graph@.contains(graph@.nodes[node_id].children[k]));
            }
            assert(children@.skip(0) =~= children@);
        }
        let mut j: usize = 0;
        while j < children.len()
            invariant
                j <= children.len(),
                depth > 0,
                graph.wf(),
                graph@.contains_all(branch_ids@),
                graph@.contains_all(children@),
                branch_ids@ == path,
                origin.same_shape(old(graph)@),
                old(graph)@.same_shape(graph@),
                old(graph)@.only_deleted_by(graph@),
                only_drops_squashed(origin, old(graph)@, graph@),
                searched(origin, line, node_id),
                !origin.nodes[node_id].commit.is_revert(),
                origin.nodes[node_id].branches.len() == 0,
                origin.nodes[node_id].children == children@,
                origin.contains(node_id),
                forall|k: int|
                    0 <= k < branch_ids@.len() ==> branch_ids@[k] == node_id || line.contains(
                        #[trigger] branch_ids@[k],
                    ),
                all_from_upstream(origin, protected_tree_ids@, line.push(node_id)[0]),
                drop_below(
                    graph@,
                    children@.skip(j as int),
                    path,
                    protected_tree_ids@,
                    (depth - 1) as nat,
                ) == goal,
            decreases children.len() - j,
        {
            proof {
                assert(children@.skip(j as int).drop_first() =~= children@.skip(j as int + 1));
                assert(children@.skip(j as int)[0] == children@[j as int]);
                assert(graph@.contains(children@[j as int]));
            }
            let ghost longer = line.push(node_id);
            let ghost before = graph@;
            proof {
                let child = children@[j as int];
                let full = longer.push(child);
                assert forall|k: int| 0 <= k < full.len() - 1 implies origin.contains(#[trigger] full[k])
                    && origin.nodes[full[k]].children.contains(full[k + 1]) by {
                    if k < longer.len() - 1 {
                        assert(origin.contains(longer[k]));
                        assert(origin.nodes[longer[k]].children.contains(longer[k + 1]));
                        assert(full[k + 1] == longer[k + 1]);
                    } else {
                        assert(full[k] == node_id);
                        assert(full[k + 1] == child);
                    }
                }
                assert(origin.is_path(full));
                assert forall|k: int| 0 <= k < branch_ids@.len() implies longer.contains(
                    #[trigger] branch_ids@[k],
                ) by {
                    if branch_ids@[k] == node_id {
                        assert(longer[line.len() as int] == node_id);
                    } else {
                        let at = choose|at: int| 0 <= at < line.len() && line[at] == branch_ids@[k];
                        assert(longer[at] == branch_ids@[k]);
                    }
                }
                assert(full[0] == longer[0]);
            }
            drop_first_branch_by_tree_id(
                graph,
                children[j],
                branch_ids.clone(),
                protected_tree_ids,
                depth - 1,
                Ghost(origin),
                Ghost(longer),
            );
            j += 1;
        }
    }
}

/// Marks for deletion each first branch of a stack whose tree is the tree of
/// a protected commit on the way to it, together with the commits that lead to
/// that branch.
///
/// A branch gets into this state when upstream squashed it: the commit there
/// has another id, but the same tree if the branch was up to date. A revert
/// would look the same, so a line with a revert on it is left alone. Only the
/// first branch of each stack is looked at.
pub fn drop_by_tree_id(graph: &mut Graph)
    requires
        old(graph).wf(),
    ensures
        final(graph).wf(),
        old(graph)@.same_shape(final(graph)@),
        old(graph)@.only_deleted_by(final(graph)@),
        only_drops_squashed(old(graph)@, old(graph)@, final(graph)@),
        old(graph)@.tree() ==> final(graph)@.tree(),
        final(graph)@ == drop_by_tree(old(graph)@),
{
    let limit = graph.len();
    let ghost origin = graph@;
    let ghost goal = drop_by_tree(old(graph)@);
    let mut level: Vec<(Oid, Vec<Oid>)> = Vec::new();
    if graph.root().action.is_protected() {
        level.push((graph.root_id(), Vec::new()));
        assert(tagged(level@) =~= seq![(graph@.root_id, Seq::<Oid>::empty())]);
    } else {
        assert(tagged(level@) =~= Seq::<(Oid, Seq<Oid>)>::empty());
    }
    let mut left = limit;
    while left > 0 && level.len() > 0
        invariant
            graph.wf(),
            origin == old(graph)@,
            holds_tagged(graph@, level@),
            tags_from_upstream(origin, level@),
            old(graph)@.same_shape(graph@),
            old(graph)@.only_deleted_by(graph@),
            only_drops_squashed(origin, origin, graph@),
            drop_levels(
                TreeSweep { graph: graph@, next: tagged(level@) },
                left as nat,
                limit as nat,
            ).graph == goal,
        ensures
            graph.wf(),
            old(graph)@.same_shape(graph@),
            old(graph)@.only_deleted_by(graph@),
            only_drops_squashed(old(graph)@, old(graph)@, graph@),
            graph@ == goal,
        decreases left,
    {
        let ghost level_goal = drop_level(
            TreeSweep { graph: graph@, next: Seq::empty() },
            tagged(level@),
            limit as nat,
        );
        let mut next: Vec<(Oid, Vec<Oid>)> = Vec::new();
        let mut i: usize = 0;
        assert(tagged(level@).skip(0) =~= tagged(level@));
        assert(tagged(next@) =~= Seq::<(Oid, Seq<Oid>)>::empty());
        while i < level.len()
            invariant
                i <= level.len(),
                graph.wf(),
                origin == old(graph)@,
                holds_tagged(graph@, level@),
                holds_tagged(graph@, next@),
                tags_from_upstream(origin, level@),
                tags_from_upstream(origin, next@),
                old(graph)@.same_shape(graph@),
                old(graph)@.only_deleted_by(graph@),
                only_drops_squashed(origin, origin, graph@),
                drop_level(
                    TreeSweep { graph: graph@, next: tagged(next@) },
                    tagged(level@).skip(i as int),
                    limit as nat,
                ) == level_goal,
            decreases level.len() - i,
        {
            let protected_id = level[i].0;
            let mut protected_tree_ids = level[i].1.clone();
            proof {
                assert(tagged(level@).skip(i as int).drop_first() =~= tagged(level@).skip(
                    i as int + 1,
                ));
                assert(tagged(level@).skip(i as int)[0] == (protected_id, level@[i as int].1@));
                assert(graph@.contains(level@[i as int].0));
            }
            let tree_id = graph.node(protected_id).commit.tree_id;
            let ghost seen = protected_tree_ids@;
            insert_id(&mut protected_tree_ids, tree_id);
            proof {
                assert(origin.is_protected(level@[i as int].0));
                lemma_reaches_self(origin, protected_id);
                assert forall|k: int| 0 <= k < protected_tree_ids@.len() implies from_upstream(
                    origin,
                    #[trigger] protected_tree_ids@[k],
                    protected_id,
                ) by {
                    if k < seen.len() {
                        assert(from_upstream(origin, seen[k], protected_id));
                    }
                }
            }
            let protected_children = graph.node(protected_id).children.clone();
            let ghost children_goal = drop_visit_children(
                TreeSweep { graph: graph@, next: tagged(next@) },
                protected_tree_ids@,
                protected_children@,
                limit as nat,
            );
            proof {
                assert forall|k: int| 0 <= k < protected_children@.len() implies graph@.contains(
                    #[trigger] protected_children@[k],
                ) by {
                    assert(graph@.contains(graph@.nodes[protected_id].children[k]));
                }
                assert(protected_children@.skip(0) =~= protected_children@);
            }
            let mut j: usize = 0;
            while j < protected_children.len()
                invariant
                    j <= protected_children.len(),
                    graph.wf(),
                    origin == old(graph)@,
                    origin.contains(protected_id),
                    origin.nodes[protected_id].children == protected_children@,
                    holds_tagged(graph@, level@),
                    holds_tagged(graph@, next@),
                    tags_from_upstream(origin, level@),
                    tags_from_upstream(origin, next@),
                    all_from_upstream(origin, protected_tree_ids@, protected_id),
                    graph@.contains_all(protected_children@),
                    old(graph)@.same_shape(graph@),
                    old(graph)@.only_deleted_by(graph@),
                    only_drops_squashed(origin, origin, graph@),
                    drop_visit_children(
                        TreeSweep { graph: graph@, next: tagged(next@) },
                        protected_tree_ids@,
                        protected_children@.skip(j as int),
                        limit as nat,
                    ) == children_goal,
                decreases protected_children.len() - j,
            {
                let child_id = protected_children[j];
                let ghost before = TreeSweep { graph: graph@, next: tagged(next@) };
                proof {
                    assert(protected_children@.skip(j as int).drop_first()
                        =~= protected_children@.skip(j as int + 1));
                    assert(protected_children@.skip(j as int)[0] == child_id);
                    assert(graph@.contains(protected_children@[j as int]));
                }
                proof {
                    assert(origin.nodes[protected_id].children.contains(child_id));
                    assert forall|k: int| 0 <= k < protected_tree_ids@.len() implies from_upstream(
                        origin,
                        #[trigger] protected_tree_ids@[k],
                        child_id,
                    ) by {
                        assert(from_upstream(origin, protected_tree_ids@[k], protected_id));
                        lemma_reaches_self(origin, protected_id);
                        lemma_reaches_child(origin, protected_id, protected_id, child_id);
                        lemma_upstream_on(origin, protected_tree_ids@[k], protected_id, child_id);
                    }
                }
                if graph.node(child_id).action.is_protected() {
                    let ghost aside = next@;
                    next.push((child_id, protected_tree_ids.clone()));
                    assert(tagged(next@) =~= before.next.push((child_id, protected_tree_ids@)));
                    assert(tags_from_upstream(origin, next@)) by {
                        assert forall|k: int| 0 <= k < next@.len() implies origin.is_protected(
                            (#[trigger] next@[k]).0,
                        ) && all_from_upstream(origin, next@[k].1@, next@[k].0) by {
                            if k < aside.len() {
                                assert(next@[k] == aside[k]);
                            }
                        }
                    }
                } else {
                    let ghost line = Seq::<Oid>::empty();
                    proof {
                        assert(line.push(child_id) =~= seq![child_id]);
                        assert(origin.is_path(line.push(child_id)));
                    }
                    let ghost mid = graph@;
                    drop_first_branch_by_tree_id(
                        graph,
                        child_id,
                        Vec::new(),
                        &protected_tree_ids,
                        limit,
                        Ghost(origin),
                        Ghost(line),
                    );
                }
                assert((TreeSweep { graph: graph@, next: tagged(next@) }) == drop_visit(
                    before,
                    protected_tree_ids@,
                    child_id,
                    limit as nat,
                ));
                j += 1;
            }
            i += 1;
        }
        level = next;
        left -= 1;
    }
    proof {
        if old(graph)@.tree() {
            lemma_same_shape_tree(old(graph)@, graph@);
        }
    }
}

} // verus!
