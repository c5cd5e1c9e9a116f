//! The pass that removes stale subtrees.
use vstd::prelude::*;
use crate::git::branch::{branch_names, push_names, string_views};
use crate::git::oid::Oid;
use crate::graph::model::{lemma_trimmed_twice, GraphView};
use crate::graph::node::Action;
use crate::graph::protect::{is_branch_old, subtree_old};
use crate::graph::guard::lemma_trimmed_guarded;
use crate::graph::rebase::protected_above;
use crate::graph::store::Graph;
use crate::graph::tree::lemma_remaining_tree;
use crate::graph::sweep::{
    breadth_first, first_level, names_at, sweep, visit_children, visit_level, visit_levels, Names,
    Sweep,
};

verus! {

/// What the pass does with `child`, which was a child of the protected node
/// `parent` when the turn of `parent` came: nothing if it has left the graph
/// since; a protected child is put aside for the next level; another whose
/// whole subtree is old is taken out with that subtree, and the names of the
/// branches in it are collected breadth first.
pub open spec fn trim_visit(s: Sweep<Names>, parent: Oid, child: Oid, cutoff: i64, depth: nat) -> Sweep<
    Names,
> {
    if !s.graph.contains(child) {
        s
    } else if s.graph.nodes[child].action == Action::Protected {
        Sweep { next: s.next.push(child), ..s }
    } else if subtree_old(s.graph, child, cutoff, depth) && s.graph.contains(parent)
        && s.graph.nodes[parent].children.contains(child) {
        let removed = s.graph.detached(parent, child);
        Sweep {
            graph: s.graph.remaining(parent, child),
            acc: s.acc + names_at(removed, breadth_first(removed)),
            next: s.next,
        }
    } else {
        s
    }
}

/// `trim_visit` as a visit of a walk.
pub open spec fn trim_visitor(cutoff: i64, depth: nat) -> spec_fn(Sweep<Names>, Oid, Oid) -> Sweep<
    Names,
> {
    |s: Sweep<Names>, parent: Oid, child: Oid| trim_visit(s, parent, child, cutoff, depth)
}

/// What `trim_old_branches` makes of `graph`, and the names it returns.
pub open spec fn trimmed(graph: GraphView, cutoff: i64) -> Sweep<Names> {
    sweep(trim_visitor(cutoff, graph.size()), graph, Seq::empty())
}

/// Appends to `names` the names of the branches in `graph`, breadth first.
pub fn push_graph_names(graph: &Graph, names: &mut Vec<String>)
    requires
        graph.sound(),
    ensures
        string_views(final(names)@) == string_views(old(names)@) + names_at(
            graph@,
            breadth_first(graph@),
        ),
{
    let ids = graph.breadth_first();
    let ghost goal = string_views(names@) + names_at(graph@, ids@);
    let mut i: usize = 0;
    assert(ids@.skip(0) =~= ids@);
    while i < ids.len()
        invariant
            i <= ids.len(),
            graph.sound(),
            graph@.contains_all(ids@),
            string_views(names@) + names_at(graph@, ids@.skip(i as int)) == goal,
        decreases ids.len() - i,
    {
        proof {
            assert(ids@.skip(i as int).drop_first() =~= ids@.skip(i as int + 1));
            assert(ids@.skip(i as int)[0] == ids@[i as int]);
            assert(graph@.contains(ids@[i as int]));
            let part = branch_names(graph@.nodes[ids@[i as int]].branches);
            assert((string_views(names@) + part) + names_at(graph@, ids@.skip(i as int + 1))
                =~= string_views(names@) + (part + names_at(graph@, ids@.skip(i as int + 1))));
        }
        push_names(names, &graph.node(ids[i]).branches);
        i += 1;
    }
    assert(string_views(names@) + Seq::<Seq<char>>::empty() =~= string_views(names@));
}

/// Takes out of the graph every subtree below its protected part that holds
/// no commit written after `earlier_than`, and returns the names of the
/// branches in what it took out. The nodes that stay keep their commit, their
/// branches and what was decided of them.
pub fn trim_old_branches(graph: &mut Graph, earlier_than: i64) -> (names: Vec<String>)
    requires
        old(graph).wf(),
    ensures
        final(graph).wf(),
        old(graph)@.trimmed_to(final(graph)@),
        old(graph)@.protection_kept_by(final(graph)@),
        old(graph)@.tree() ==> final(graph)@.tree(),
        protected_above(old(graph)@) ==> protected_above(final(graph)@),
        final(graph)@ == trimmed(old(graph)@, earlier_than).graph,
        string_views(names@) == trimmed(old(graph)@, earlier_than).acc,
{
    let limit = graph.len();
    let ghost visit = trim_visitor(earlier_than, limit as nat);
    let ghost goal = trimmed(old(graph)@, earlier_than);
    let mut names: Vec<String> = Vec::new();
    let mut level: Vec<Oid> = Vec::new();
    if graph.root().action.is_protected() {
        level.push(graph.root_id());
    }
    assert(level@ =~= first_level(graph@));
    assert(string_views(names@) =~= Seq::<Seq<char>>::empty());
    let mut left = limit;
    while left > 0 && level.len() > 0
        invariant
            graph.wf(),
            old(graph)@.trimmed_to(graph@),
            old(graph)@.tree() ==> graph@.tree(),
            visit == trim_visitor(earlier_than, limit as nat),
            visit_levels(
                visit,
                Sweep { graph: graph@, acc: string_views(names@), next: level@ },
                left as nat,
            ) == goal,
        ensures
            graph.wf(),
            old(graph)@.trimmed_to(graph@),
            old(graph)@.tree() ==> graph@.tree(),
            (Sweep { graph: graph@, acc: string_views(names@), next: level@ }) == goal,
        decreases left,
    {
        let ghost level_goal = visit_level(
            visit,
            Sweep { graph: graph@, acc: string_views(names@), next: Seq::empty() },
            level@,
        );
        let mut next: Vec<Oid> = Vec::new();
        let mut i: usize = 0;
        assert(level@.skip(0) =~= level@);
        assert(next@ =~= Seq::<Oid>::empty());
        while i < level.len()
            invariant
                i <= level.len(),
                graph.wf(),
                old(graph)@.trimmed_to(graph@),
                old(graph)@.tree() ==> graph@.tree(),
                visit == trim_visitor(earlier_than, limit as nat),
                visit_level(
                    visit,
                    Sweep { graph: graph@, acc: string_views(names@), next: next@ },
                    level@.skip(i as int),
                ) == level_goal,
            decreases level.len() - i,
        {
            let current_id = level[i];
            proof {
                assert(level@.skip(i as int).drop_first() =~= level@.skip(i as int + 1));
                assert(level@.skip(i as int)[0] == current_id);
            }
            let current_children = match graph.get(current_id) {
                Some(current) => current.children.clone(),
                None => Vec::new(),
            };
            assert(current_children@ =~= graph@.children(current_id));
            let ghost children_goal = visit_children(
                visit,
                Sweep { graph: graph@, acc: string_views(names@), next: next@ },
                current_id,
                current_children@,
            );
            assert(current_children@.skip(0) =~= current_children@);
            let mut j: usize = 0;
            while j < current_children.len()
                invariant
                    j <= current_children.len(),
                    graph.wf(),
                    old(graph)@.trimmed_to(graph@),
                    old(graph)@.tree() ==> graph@.tree(),
                    visit == trim_visitor(earlier_than, limit as nat),
                    visit_children(
                        visit,
                        Sweep { graph: graph@, acc: string_views(names@), next: next@ },
                        current_id,
                        current_children@.skip(j as int),
                    ) == children_goal,
                decreases current_children.len() - j,
            {
                let child_id = current_children[j];
                let ghost before = Sweep { graph: graph@, acc: string_views(names@), next: next@ };
                proof {
                    assert(current_children@.skip(j as int).drop_first()
                        =~= current_children@.skip(j as int + 1));
                    assert(current_children@.skip(j as int)[0] == child_id);
                }
                let child_action = match graph.get(child_id) {
                    Some(child) => Some(child.action),
                    None => None,
                };
                match child_action {
                    None => {},
                    Some(action) => {
                        if action.is_protected() {
                            next.push(child_id);
                        } else if is_branch_old(graph, child_id, earlier_than, limit) {
                            match graph.remove_child(current_id, child_id) {
                                Some(removed) => {
                                    push_graph_names(&removed, &mut names);
                                    proof {
                                        lemma_trimmed_twice(old(graph)@, before.graph, graph@);
                                        if before.graph.tree() {
                                            lemma_remaining_tree(before.graph, current_id, child_id);
                                        }
                                    }
                                },
                                None => {},
                            }
                        }
                    },
                }
                assert((Sweep { graph: graph@, acc: string_views(names@), next: next@ }) == visit(
                    before,
                    current_id,
                    child_id,
                ));
                j += 1;
            }
            i += 1;
        }
        level = next;
        left -= 1;
    }
    proof {
        if protected_above(old(graph)@) {
            lemma_trimmed_guarded(old(graph)@, graph@);
        }
    }
    names
}

} // verus!
