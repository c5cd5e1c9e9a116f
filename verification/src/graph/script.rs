//! The last pass: the annotated graph becomes a script.
use vstd::prelude::*;
use crate::git::branch::{branch_views, BranchView};
use crate::git::oid::Oid;
use crate::git::script::{
    command_views, lemma_command_views_add, lemma_script_views_add, lemma_script_views_push,
    option_view, script_views, Command, CommandView, Script, ScriptView,
};
use crate::graph::model::GraphView;
use crate::graph::node::{Action, Node, NodeView};
use crate::graph::store::Graph;
use crate::graph::sweep::{first_level, sweep, visit_children, visit_level, visit_levels, Sweep};

verus! {

/// A command to create a branch for each of `branches`, in order.
pub open spec fn create_commands(branches: Seq<BranchView>) -> Seq<CommandView> {
    branches.map_values(|b: BranchView| CommandView::CreateBranch(b.name))
}

/// A command to delete the branch for each of `branches`, in order.
pub open spec fn delete_commands(branches: Seq<BranchView>) -> Seq<CommandView> {
    branches.map_values(|b: BranchView| CommandView::DeleteBranch(b.name))
}

/// What a node contributes by itself: its commit replayed or folded and its
/// branches created, or its branches deleted; nothing for a protected node.
pub open spec fn own_commands(node: NodeView) -> Seq<CommandView> {
    match node.action {
        Action::Pick => seq![CommandView::CherryPick(node.commit.id)] + create_commands(
            node.branches,
        ),
        Action::Squash => seq![CommandView::Squash(node.commit.id)] + create_commands(node.branches),
        Action::Protected => Seq::empty(),
        Action::Delete => delete_commands(node.branches),
    }
}

/// `script` set to start from the mark `mark`.
pub open spec fn from_mark(mark: Oid, script: ScriptView) -> ScriptView {
    ScriptView { commands: seq![CommandView::SwitchMark(mark)] + script.commands, ..script }
}

/// `script` set to start from the commit `id`.
pub open spec fn from_commit(id: Oid, script: ScriptView) -> ScriptView {
    ScriptView { commands: seq![CommandView::SwitchCommit(id)] + script.commands, ..script }
}

/// `script` followed by `dependents`. A lone dependent outside a transaction
/// is run as part of `script`. Otherwise `script` registers the mark `mark`
/// where it ends, and each dependent starts from that mark.
pub open spec fn extended(
    mark: Oid,
    script: ScriptView,
    dependents: Seq<ScriptView>,
    transaction: bool,
) -> ScriptView {
    if !transaction && dependents.len() == 1 {
        ScriptView {
            commands: script.commands + dependents[0].commands,
            dependents: script.dependents + dependents[0].dependents,
        }
    } else {
        ScriptView {
            commands: script.commands.push(CommandView::RegisterMark(mark)),
            dependents: script.dependents + dependents.map_values(
                |d: ScriptView| from_mark(mark, d),
            ),
        }
    }
}

/// The scripts of `children`, in order, those left out that are empty.
pub open spec fn child_scripts(graph: GraphView, children: Seq<Oid>, depth: nat) -> Seq<ScriptView>
    decreases depth, 1nat, children.len(),
{
    if children.len() == 0 {
        Seq::empty()
    } else {
        let before = child_scripts(graph, children.drop_last(), depth);
        match node_script(graph, children.last(), depth) {
            Some(script) => before.push(script),
            None => before,
        }
    }
}

/// The script of the node `id` and of what follows it, `depth` steps down at
/// most; none where that script would be empty. A node with a branch or with
/// two children or more ends a transaction: what follows it depends on it by
/// a mark. A protected node that has children contributes the place to start
/// from, and nothing else.
pub open spec fn node_script(graph: GraphView, id: Oid, depth: nat) -> Option<ScriptView>
    decreases depth, 0nat, 0nat,
{
    let node = graph.nodes[id];
    let dependents = if depth == 0 {
        Seq::empty()
    } else {
        child_scripts(graph, node.children, (depth - 1) as nat)
    };
    let head = ScriptView { commands: own_commands(node), dependents: Seq::empty() };
    let script = if node.action == Action::Protected {
        if node.children.len() == 0 {
            head
        } else if dependents.len() == 0 {
            from_commit(id, head)
        } else {
            extended(id, from_commit(id, head), dependents, false)
        }
    } else if dependents.len() == 0 {
        head
    } else {
        extended(id, head, dependents, node.branches.len() > 0 || node.children.len() >= 2)
    };
    if script.is_empty() {
        None
    } else {
        Some(script)
    }
}

/// What the script pass does with the child `child` of the protected node
/// `parent`: a protected child is put aside for the next level; the script of
/// another, unless empty, is collected, set to start from `parent`.
pub open spec fn script_visit(s: Sweep<Seq<ScriptView>>, parent: Oid, child: Oid, depth: nat) -> Sweep<
    Seq<ScriptView>,
> {
    if s.graph.nodes[child].action == Action::Protected {
        Sweep { next: s.next.push(child), ..s }
    } else {
        match node_script(s.graph, child, depth) {
            Some(script) => Sweep { acc: s.acc.push(from_commit(parent, script)), ..s },
            None => s,
        }
    }
}

/// `script_visit` as a visit of a walk.
pub open spec fn script_visitor(depth: nat) -> spec_fn(Sweep<Seq<ScriptView>>, Oid, Oid) -> Sweep<
    Seq<ScriptView>,
> {
    |s: Sweep<Seq<ScriptView>>, parent: Oid, child: Oid| script_visit(s, parent, child, depth)
}

/// The script of the whole graph: no commands of its own, and one dependent
/// for each unprotected child of a protected node that has anything to do, in
/// the order of the walk.
pub open spec fn graph_script(graph: GraphView) -> ScriptView {
    ScriptView {
        commands: Seq::empty(),
        dependents: sweep(script_visitor(graph.size()), graph, Seq::empty()).acc,
    }
}

/// Puts `dependents` behind `script`, which is the script of `node`.
pub fn extend_dependents(
    node: &Node,
    script: &mut Script,
    dependents: Vec<Script>,
    transaction: bool,
)
    ensures
        final(script)@ == extended(
            node@.commit.id,
            old(script)@,
            script_views(dependents@),
            transaction,
        ),
{
    let ghost given = script_views(dependents@);
    let mut dependents = dependents;
    if !transaction && dependents.len() == 1 {
        let mut dependent = dependents.remove(0);
        proof {
            assert(dependent@ == given[0]);
            lemma_command_views_add(script.commands@, dependent.commands@);
            lemma_script_views_add(script.dependents@, dependent.dependents@);
        }
        script.commands.append(&mut dependent.commands);
        script.dependents.append(&mut dependent.dependents);
    } else {
        let stack_mark = node.commit.id;
        script.commands.push(Command::RegisterMark(stack_mark));
        assert(command_views(script.commands@) =~= old(script)@.commands.push(
            CommandView::RegisterMark(stack_mark),
        ));
        let mut i: usize = 0;
        while i < dependents.len()
            invariant
                i <= dependents.len(),
                dependents.len() == given.len(),
                forall|k: int| 0 <= k < i ==> (#[trigger] dependents@[k])@ == from_mark(stack_mark, given[k]),
                forall|k: int| i <= k < dependents.len() ==> (#[trigger] dependents@[k])@ == given[k],
            decreases dependents.len() - i,
        {
            let ghost before = dependents@[i as int];
            dependents[i].commands.insert(0, Command::SwitchMark(stack_mark));
            proof {
                let after = dependents@[i as int];
                assert(after.dependents == before.dependents);
                assert(command_views(after.commands@) =~= seq![CommandView::SwitchMark(stack_mark)]
                    + command_views(before.commands@));
            }
            i += 1;
        }
        proof {
            assert(script_views(dependents@) =~= given.map_values(
                |d: ScriptView| from_mark(stack_mark, d),
            ));
            lemma_script_views_add(script.dependents@, dependents@);
        }
        script.dependents.append(&mut dependents);
    }
}

/// The script of the node `node_id` and of what follows it, `depth` steps down
/// at most.
pub fn node_to_script(graph: &Graph, node_id: Oid, depth: usize) -> (r: Option<Script>)
    requires
        graph.wf(),
        graph@.contains(node_id),
    ensures
        option_view(r) == node_script(graph@, node_id, depth as nat),
    decreases depth,
{
    let node = graph.node(node_id);
    let mut script = Script::new();
    match node.action {
        Action::Pick => {
            script.commands.push(Command::CherryPick(node.commit.id));
        },
        Action::Squash => {
            script.commands.push(Command::Squash(node.commit.id));
        },
        Action::Protected => {},
        Action::Delete => {},
    }
    let ghost first = command_views(script.commands@);
    let ghost names = node@.branches;
    if !node.action.is_protected() {
        let delete = node.action.is_delete();
        let mut i: usize = 0;
        while i < node.branches.len()
            invariant
                i <= node.branches.len(),
                names == branch_views(node.branches@),
                script.dependents@.len() == 0,
                delete ==> command_views(script.commands@) == first + delete_commands(names).take(
                    i as int,
                ),
                !delete ==> command_views(script.commands@) == first + create_commands(names).take(
                    i as int,
                ),
            decreases node.branches.len() - i,
        {
            let ghost before = script.commands@;
            let name = node.branches[i].name.clone();
            if delete {
                script.commands.push(Command::DeleteBranch(name));
                assert(command_views(script.commands@) =~= command_views(before).push(
                    CommandView::DeleteBranch(names[i as int].name),
                ));
                assert(delete_commands(names).take(i as int + 1) =~= delete_commands(names).take(
                    i as int,
                ).push(CommandView::DeleteBranch(names[i as int].name)));
            } else {
                script.commands.push(Command::CreateBranch(name));
                assert(command_views(script.commands@) =~= command_views(before).push(
                    CommandView::CreateBranch(names[i as int].name),
                ));
                assert(create_commands(names).take(i as int + 1) =~= create_commands(names).take(
                    i as int,
                ).push(CommandView::CreateBranch(names[i as int].name)));
            }
            i += 1;
        }
        proof {
            assert(delete_commands(names).take(names.len() as int) =~= delete_commands(names));
            assert(create_commands(names).take(names.len() as int) =~= create_commands(names));
        }
    }
    assert(command_views(script.commands@) =~= own_commands(node@));
    assert(script@.dependents =~= Seq::<ScriptView>::empty());

    let mut dependents: Vec<Script> = Vec::new();
    assert(script_views(dependents@) =~= Seq::<ScriptView>::empty());
    if depth > 0 {
        let mut j: usize = 0;
        assert(node.children@.take(0) =~= Seq::<Oid>::empty());
        while j < node.children.len()
            invariant
                j <= node.children.len(),
                graph.wf(),
                graph@.contains(node_id),
                node@ == graph@.nodes[node_id],
                depth > 0,
                script_views(dependents@) == child_scripts(
                    graph@,
                    node.children@.take(j as int),
                    (depth - 1) as nat,
                ),
            decreases node.children.len() - j,
        {
            proof {
                assert(graph@.contains(graph@.nodes[node_id].children[j as int]));
                assert(node.children@.take(j as int + 1).drop_last() =~= node.children@.take(
                    j as int,
                ));
                assert(node.children@.take(j as int + 1).last() == node.children@[j as int]);
            }
            match node_to_script(graph, node.children[j], depth - 1) {
                Some(dependent) => {
                    proof {
                        lemma_script_views_push(dependents@, dependent);
                    }
                    dependents.push(dependent);
                },
                None => {},
            }
            j += 1;
        }
        assert(node.children@.take(node.children.len() as int) =~= node.children@);
    }
    if node.action.is_protected() {
        if node.children.len() > 0 {
            script.commands.push(Command::SwitchCommit(node.commit.id));
            assert(command_views(script.commands@) =~= seq![
                CommandView::SwitchCommit(node.commit.id),
            ] + own_commands(node@));
            if dependents.len() > 0 {
                // protected commits need no transaction
                extend_dependents(node, &mut script, dependents, false);
            }
        }
    } else if dependents.len() > 0 {
        // a branch ends the transaction, and so does a fork
        let transaction = node.branches.len() > 0 || node.children.len() >= 2;
        extend_dependents(node, &mut script, dependents, transaction);
    }
    if script.is_empty() {
        None
    } else {
        Some(script)
    }
}

/// The script that brings about what the graph describes.
pub fn to_script(graph: &Graph) -> (script: Script)
    requires
        graph.wf(),
    ensures
        script@ == graph_script(graph@),
{
    let limit = graph.len();
    let ghost visit = script_visitor(limit as nat);
    let ghost goal = sweep(visit, graph@, Seq::<ScriptView>::empty());
    let mut script = Script::new();
    let mut level: Vec<Oid> = Vec::new();
    if graph.root().action.is_protected() {
        level.push(graph.root_id());
    }
    assert(level@ =~= first_level(graph@));
    let mut left = limit;
    while left > 0 && level.len() > 0
        invariant
            graph.wf(),
            graph@.contains_all(level@),
            visit == script_visitor(limit as nat),
            script@.commands == Seq::<CommandView>::empty(),
            visit_levels(
                visit,
                Sweep { graph: graph@, acc: script@.dependents, next: level@ },
                left as nat,
            ) == goal,
        ensures
            script@.commands == Seq::<CommandView>::empty(),
            (Sweep { graph: graph@, acc: script@.dependents, next: level@ }) == goal,
        decreases left,
    {
        let ghost level_goal = visit_level(
            visit,
            Sweep { graph: graph@, acc: script@.dependents, next: Seq::empty() },
            level@,
        );
        let mut next: Vec<Oid> = Vec::new();
        let mut i: usize = 0;
        assert(level@.skip(0) =~= level@);
        assert(next@ =~= Seq::<Oid>::empty());
        while i < level.len()
            invariant
                i <= level.len(),
                graph.wf(),
                graph@.contains_all(level@),
                graph@.contains_all(next@),
                visit == script_visitor(limit as nat),
                script@.commands == Seq::<CommandView>::empty(),
                visit_level(
                    visit,
                    Sweep { graph: graph@, acc: script@.dependents, next: next@ },
                    level@.skip(i as int),
                ) == level_goal,
            decreases level.len() - i,
        {
            let current_id = level[i];
            proof {
                assert(level@.skip(i as int).drop_first() =~= level@.skip(i as int + 1));
                assert(level@.skip(i as int)[0] == current_id);
                assert(graph@.contains(level@[i as int]));
            }
            let current = graph.node(current_id);
            let ghost children = current.children@;
            let ghost children_goal = visit_children(
                visit,
                Sweep { graph: graph@, acc: script@.dependents, next: next@ },
                current_id,
                children,
            );
            proof {
                assert forall|k: int| 0 <= k < children.len() implies graph@.contains(#[trigger] children[k]) by {
                    assert(graph@.contains(graph@.nodes[current_id].children[k]));
                }
                assert(children.skip(0) =~= children);
            }
            let mut j: usize = 0;
            while j < current.children.len()
                invariant
                    j <= current.children.len(),
                    graph.wf(),
                    graph@.contains_all(next@),
                    graph@.contains_all(children),
                    children == current.children@,
                    visit == script_visitor(limit as nat),
                    script@.commands == Seq::<CommandView>::empty(),
                    visit_children(
                        visit,
                        Sweep { graph: graph@, acc: script@.dependents, next: next@ },
                        current_id,
                        children.skip(j as int),
                    ) == children_goal,
                decreases current.children.len() - j,
            {
                let child_id = current.children[j];
                let ghost before = Sweep { graph: graph@, acc: script@.dependents, next: next@ };
                proof {
                    assert(children.skip(j as int).drop_first() =~= children.skip(j as int + 1));
                    assert(children.skip(j as int)[0] == child_id);
                    assert(graph@.contains(children[j as int]));
                }
                if graph.node(child_id).action.is_protected() {
                    next.push(child_id);
                } else {
                    match node_to_script(graph, child_id, limit) {
                        Some(dependent) => {
                            let mut dependent = dependent;
                            let ghost plain = dependent@;
                            dependent.commands.insert(0, Command::SwitchCommit(current_id));
                            proof {
                                assert(command_views(dependent.commands@) =~= seq![
                                    CommandView::SwitchCommit(current_id),
                                ] + plain.commands);
                                assert(dependent@ == from_commit(current_id, plain));
                                lemma_script_views_push(script.dependents@, dependent);
                            }
                            script.dependents.push(dependent);
                        },
                        None => {},
                    }
                }
                assert((Sweep { graph: graph@, acc: script@.dependents, next: next@ }) == visit(
                    before,
                    current_id,
                    child_id,
                ));
                j += 1;
            }
            i += 1;
        }
        level = next;
        left -= 1;
    }
    assert(script@ =~= graph_script(graph@)) by {
        assert(script@.dependents == goal.acc);
    }
    script
}

} // verus!
