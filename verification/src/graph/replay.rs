//! The script brings about what the graph shows. Played, it leaves each
//! branch of a stack at the commit that the graph has for it: the protected
//! commit that the stack starts from with the commits of the stack replayed
//! on it, down to the node of the branch.
use vstd::prelude::*;
use crate::git::branch::BranchView;
use crate::git::oid::Oid;
use crate::git::replay::{
    lemma_play_each_push, lemma_run_add, lemma_run_push, play, play_each, play_from, run, step,
    Replay,
};
use crate::git::script::{CommandView, ScriptView};
use crate::graph::acyclic::lemma_path_falls;
use crate::graph::model::{lemma_reaches_child, lemma_reaches_on, lemma_reaches_self, GraphView};
use crate::graph::node::{Action, NodeView};
use crate::graph::script::{
    child_scripts, create_commands, delete_commands, extended, from_commit, from_mark,
    graph_script, node_script, own_commands, script_visit, script_visitor,
};
use crate::graph::sweep::{first_level, sweep, visit_children, visit_level, visit_levels, Sweep};

verus! {

/// Where the branches stand: each at the commits replayed to make its
/// commit.
pub type Stands = Map<Seq<char>, Seq<Oid>>;

/// The commit that the children of `node` start from, where `node` is
/// reached at the commit `tip`: a commit that is picked or squashed is replayed
/// on `tip`, a protected commit is taken as it is, and a node to be deleted
/// adds nothing.
pub open spec fn tip_at(node: NodeView, tip: Seq<Oid>) -> Seq<Oid> {
    match node.action {
        Action::Pick => tip.push(node.commit.id),
        Action::Squash => tip.push(node.commit.id),
        Action::Protected => seq![node.commit.id],
        Action::Delete => tip,
    }
}

/// `stands` with each of `branches` at `tip`.
pub open spec fn created(stands: Stands, branches: Seq<BranchView>, tip: Seq<Oid>) -> Stands
    decreases branches.len(),
{
    if branches.len() == 0 {
        stands
    } else {
        created(stands.insert(branches[0].name, tip), branches.drop_first(), tip)
    }
}

/// `stands` without any of `branches`.
pub open spec fn deleted(stands: Stands, branches: Seq<BranchView>) -> Stands
    decreases branches.len(),
{
    if branches.len() == 0 {
        stands
    } else {
        deleted(stands.remove(branches[0].name), branches.drop_first())
    }
}

/// Where the branches stand once `node` is dealt with: its branches stand
/// at its commit, or are gone where it is to be deleted; the branches at a
/// protected node are left alone.
pub open spec fn labelled(node: NodeView, tip: Seq<Oid>, stands: Stands) -> Stands {
    match node.action {
        Action::Pick => created(stands, node.branches, tip_at(node, tip)),
        Action::Squash => created(stands, node.branches, tip_at(node, tip)),
        Action::Protected => stands,
        Action::Delete => deleted(stands, node.branches),
    }
}

/// Where the branches stand once the node `id`, reached at the commit
/// `tip`, and what follows it, `depth` steps down at most, are dealt with.
pub open spec fn planted(graph: GraphView, id: Oid, tip: Seq<Oid>, stands: Stands, depth: nat) -> Stands
    decreases depth, 0nat, 0nat,
{
    let node = graph.nodes[id];
    let own = labelled(node, tip, stands);
    if depth == 0 {
        own
    } else {
        planted_each(graph, node.children, tip_at(node, tip), own, (depth - 1) as nat)
    }
}

/// The same for each of `children` in turn, each reached at `tip`.
pub open spec fn planted_each(
    graph: GraphView,
    children: Seq<Oid>,
    tip: Seq<Oid>,
    stands: Stands,
    depth: nat,
) -> Stands
    decreases depth, 1nat, children.len(),
{
    if children.len() == 0 {
        stands
    } else {
        planted(
            graph,
            children.last(),
            tip,
            planted_each(graph, children.drop_last(), tip, stands, depth),
            depth,
        )
    }
}

/// The script played, if there is one.
pub open spec fn replayed(r: Replay, script: Option<ScriptView>) -> Replay {
    match script {
        Some(script) => play(r, script),
        None => r,
    }
}

/// Whether one of `from` reaches `id`.
pub open spec fn reached_from(graph: GraphView, from: Seq<Oid>, id: Oid) -> bool {
    exists|i: int| 0 <= i < from.len() && graph.reaches(#[trigger] from[i], id)
}

/// Whether a run from `before` to `after` left alone every mark but those
/// of the nodes that one of `from` reaches.
pub open spec fn marks_kept(graph: GraphView, from: Seq<Oid>, before: Replay, after: Replay) -> bool {
    forall|k: Oid| !reached_from(graph, from, k) ==> #[trigger] mark_kept(before, after, k)
}

/// Whether a run from `before` to `after` left the mark `k` alone.
pub open spec fn mark_kept(before: Replay, after: Replay, k: Oid) -> bool {
    &&& after.marks.dom().contains(k) == before.marks.dom().contains(k)
    &&& before.marks.dom().contains(k) ==> after.marks[k] == before.marks[k]
}

/// The commands that create branches put them at the commit checked out.
pub proof fn lemma_run_creates(r: Replay, branches: Seq<BranchView>)
    ensures
        run(r, create_commands(branches)) == (Replay {
            branches: created(r.branches, branches, r.tip),
            ..r
        }),
    decreases branches.len(),
{
    let commands = create_commands(branches);
    if branches.len() > 0 {
        assert(commands[0] == CommandView::CreateBranch(branches[0].name));
        assert(commands.drop_first() =~= create_commands(branches.drop_first()));
        lemma_run_creates(step(r, commands[0]), branches.drop_first());
    }
}

/// The commands that delete branches take them away.
pub proof fn lemma_run_deletes(r: Replay, branches: Seq<BranchView>)
    ensures
        run(r, delete_commands(branches)) == (Replay {
            branches: deleted(r.branches, branches),
            ..r
        }),
    decreases branches.len(),
{
    let commands = delete_commands(branches);
    if branches.len() > 0 {
        assert(commands[0] == CommandView::DeleteBranch(branches[0].name));
        assert(commands.drop_first() =~= delete_commands(branches.drop_first()));
        lemma_run_deletes(step(r, commands[0]), branches.drop_first());
    }
}

/// What a node contributes by itself deals with the node.
pub proof fn lemma_run_own(r: Replay, node: NodeView)
    ensures
        run(r, own_commands(node)).branches == labelled(node, r.tip, r.branches),
        run(r, own_commands(node)).marks == r.marks,
        node.action != Action::Protected ==> run(r, own_commands(node)).tip == tip_at(node, r.tip),
        node.action == Action::Protected ==> run(r, own_commands(node)) == r,
{
    match node.action {
        Action::Pick => {
            let first = seq![CommandView::CherryPick(node.commit.id)];
            lemma_run_add(r, first, create_commands(node.branches));
            assert(first.drop_first() =~= Seq::<CommandView>::empty());
            assert(run(r, first) == run(step(r, first[0]), first.drop_first()));
            lemma_run_creates(run(r, first), node.branches);
        },
        Action::Squash => {
            let first = seq![CommandView::Squash(node.commit.id)];
            lemma_run_add(r, first, create_commands(node.branches));
            assert(first.drop_first() =~= Seq::<CommandView>::empty());
            assert(run(r, first) == run(step(r, first[0]), first.drop_first()));
            lemma_run_creates(run(r, first), node.branches);
        },
        Action::Protected => {},
        Action::Delete => {
            lemma_run_deletes(r, node.branches);
        },
    }
}

/// In a graph without cycles no child reaches its parent.
proof fn lemma_child_apart(g: GraphView, parent: Oid, child: Oid)
    requires
        g.acyclic(),
        g.contains(parent),
        g.nodes[parent].children.contains(child),
    ensures
        !g.reaches(child, parent),
{
    let rank = choose|rank: Map<Oid, nat>| g.ranked_by(rank);
    let i = choose|i: int| 0 <= i < g.nodes[parent].children.len() && g.nodes[parent].children[i] == child;
    assert(rank[g.nodes[parent].children[i]] < rank[parent]);
    if g.reaches(child, parent) {
        let path = choose|path: Seq<Oid>| #[trigger] g.is_path(path) && path[0] == child && path.last() == parent;
        if path.len() > 1 {
            lemma_path_falls(g, rank, path, 0, path.len() - 1);
        }
    }
}

/// The script of a node, played from a commit, leaves the branches where
/// the graph has them, and leaves alone the marks of the nodes that the node
/// does not reach. Where there is no script, there is nothing to do.
pub proof fn lemma_node_replays(g: GraphView, id: Oid, depth: nat, r: Replay)
    requires
        g.sound(),
        g.acyclic(),
        g.contains(id),
    ensures
        replayed(r, node_script(g, id, depth)).branches == planted(
            g,
            id,
            r.tip,
            r.branches,
            depth,
        ),
        marks_kept(g, seq![id], r, replayed(r, node_script(g, id, depth))),
    decreases depth, 0nat, 0nat,
{
    let node = g.nodes[id];
    let kids = node.children;
    let dependents = if depth == 0 {
        Seq::empty()
    } else {
        child_scripts(g, kids, (depth - 1) as nat)
    };
    let head = ScriptView { commands: own_commands(node), dependents: Seq::empty() };
    let tip = tip_at(node, r.tip);
    let out = replayed(r, node_script(g, id, depth));
    let only = seq![id];
    lemma_run_own(r, node);
    lemma_reaches_self(g, id);
    assert(only[0] == id);
    assert(g.nodes[id].commit.id == id);
    let own = run(r, own_commands(node));
    assert forall|i: int| 0 <= i < kids.len() implies g.nodes[id].children.contains(#[trigger] kids[i]) by {}
    if dependents.len() == 0 {
        assert(play_each(own, Seq::<ScriptView>::empty()) == own);
        if node.action == Action::Protected && kids.len() > 0 {
            let first = seq![CommandView::SwitchCommit(id)];
            let begin = from_commit(id, head);
            assert(begin.commands =~= first);
            assert(first.drop_first() =~= Seq::<CommandView>::empty());
            assert(run(r, first) == run(step(r, first[0]), first.drop_first()));
            assert(!begin.is_empty());
            assert(play_each(run(r, first), Seq::<ScriptView>::empty()) == run(r, first));
            assert(out == (Replay { tip: seq![id], ..r }));
        } else {
            assert(out == own || (head.is_empty() && out == r));
            if head.is_empty() {
                assert(own == r);
            }
        }
        assert(out.branches == own.branches);
        if depth > 0 {
            let start = Replay { tip, ..own };
            lemma_children_replay(g, id, kids, (depth - 1) as nat, start, tip);
            assert(play_from(start, tip, dependents) == start);
        }
        assert(out.marks == r.marks);
        assert forall|k: Oid| !reached_from(g, only, k) implies #[trigger] mark_kept(r, out, k) by {}
    } else {
        let base = if node.action == Action::Protected {
            from_commit(id, head)
        } else {
            head
        };
        let transaction = node.action != Action::Protected && (node.branches.len() > 0
            || kids.len() >= 2);
        let script = extended(id, base, dependents, transaction);
        // what has run when the dependents begin
        let begun = run(r, base.commands);
        assert(begun.tip == tip && begun.branches == own.branches && begun.marks == r.marks) by {
            if node.action == Action::Protected {
                let first = seq![CommandView::SwitchCommit(id)];
                lemma_run_add(r, first, head.commands);
                assert(first.drop_first() =~= Seq::<CommandView>::empty());
                assert(run(r, first) == run(step(r, first[0]), first.drop_first()));
                lemma_run_own(run(r, first), node);
            }
        }
        assert(base.dependents =~= Seq::<ScriptView>::empty());
        if !transaction && dependents.len() == 1 {
            let dependent = dependents[0];
            assert(script.commands == base.commands + dependent.commands);
            assert(script.dependents =~= dependent.dependents);
            lemma_run_add(r, base.commands, dependent.commands);
            assert(play(r, script) == play(begun, dependent));
            assert(dependents.drop_last() =~= Seq::<ScriptView>::empty());
            assert(dependents.last() == dependent);
            assert(play_from(begun, tip, dependents) == play(
                Replay { tip, ..play_from(begun, tip, dependents.drop_last()) },
                dependents.last(),
            ));
            assert(play_from(begun, tip, dependents) == play(begun, dependent));
            lemma_children_replay(g, id, kids, (depth - 1) as nat, begun, tip);
            assert(!script.is_empty()) by {
                if script.is_empty() {
                    assert(dependent.commands.len() == 0);
                    assert(dependent.dependents.len() == 0);
                    lemma_scripts_full(g, kids, (depth - 1) as nat, 0);
                }
            }
            assert(out == play(begun, dependent));
            let done = play_from(begun, tip, dependents);
            assert(out == done);
            assert forall|k: Oid| !reached_from(g, only, k) implies #[trigger] mark_kept(r, out, k) by {
                lemma_below_apart(g, id, k);
                assert(mark_kept(begun, done, k));
            }

        } else {
            let marked = run(r, base.commands.push(CommandView::RegisterMark(id)));
            lemma_run_push(r, base.commands, CommandView::RegisterMark(id));
            assert(marked == step(begun, CommandView::RegisterMark(id)));
            let mapped = dependents.map_values(|d: ScriptView| from_mark(id, d));
            assert(script.commands == base.commands.push(CommandView::RegisterMark(id)));
            assert(script.dependents =~= mapped);
            assert(play(r, script) == play_each(marked, mapped));
            assert(!script.is_empty());
            lemma_children_replay(g, id, kids, (depth - 1) as nat, marked, tip);
            lemma_marked_replay(g, id, kids, (depth - 1) as nat, marked, tip);
            let done = play_from(marked, tip, dependents);
            assert(out == play_each(marked, mapped));
            assert(out.branches == done.branches && out.marks == done.marks);
            assert(marked.marks == r.marks.insert(id, tip));
            assert forall|k: Oid| !reached_from(g, only, k) implies #[trigger] mark_kept(r, out, k) by {
                lemma_below_apart(g, id, k);
                assert(k != id);
                assert(mark_kept(marked, done, k));
                assert(marked.marks.dom().contains(k) == r.marks.dom().contains(k));
                if r.marks.dom().contains(k) {
                    assert(marked.marks[k] == r.marks[k]);
                }
            }

        }
    }
}

/// What a node does not reach, none of its children reaches, and it is not
/// the node.
proof fn lemma_below_apart(g: GraphView, id: Oid, k: Oid)
    requires
        g.contains(id),
        !reached_from(g, seq![id], k),
    ensures
        k != id,
        !reached_from(g, g.nodes[id].children, k),
{
    let only = seq![id];
    let kids = g.nodes[id].children;
    lemma_reaches_self(g, id);
    assert(only[0] == id);
    assert(!g.reaches(only[0], k));
    if reached_from(g, kids, k) {
        let i = choose|i: int| 0 <= i < kids.len() && g.reaches(#[trigger] kids[i], k);
        assert(kids.contains(kids[i]));
        lemma_reaches_child(g, id, id, kids[i]);
        lemma_reaches_on(g, id, kids[i], k);
    }
}

/// No script among the scripts of children is empty.
proof fn lemma_scripts_full(g: GraphView, children: Seq<Oid>, depth: nat, i: int)
    requires
        0 <= i < child_scripts(g, children, depth).len(),
    ensures
        !child_scripts(g, children, depth)[i].is_empty(),
    decreases children.len(),
{
    if children.len() > 0 {
        let before = child_scripts(g, children.drop_last(), depth);
        if i < before.len() {
            lemma_scripts_full(g, children.drop_last(), depth, i);
        }
        match node_script(g, children.last(), depth) {
            Some(script) => {
                assert(!script.is_empty());
                assert(child_scripts(g, children, depth) == before.push(script));
            },
            None => {
                assert(child_scripts(g, children, depth) == before);
            },
        }
    }
}

/// The scripts of some children of a node, each played from the commit
/// `tip`, leave the branches where the graph has them, and leave alone the
/// marks of the nodes that none of the children reaches.
pub proof fn lemma_children_replay(
    g: GraphView,
    id: Oid,
    children: Seq<Oid>,
    depth: nat,
    r: Replay,
    tip: Seq<Oid>,
)
    requires
        g.sound(),
        g.acyclic(),
        g.contains(id),
        forall|i: int| 0 <= i < children.len() ==> g.nodes[id].children.contains(#[trigger] children[i]),
    ensures
        play_from(r, tip, child_scripts(g, children, depth)).branches == planted_each(
            g,
            children,
            tip,
            r.branches,
            depth,
        ),
        marks_kept(g, children, r, play_from(r, tip, child_scripts(g, children, depth))),
    decreases depth, 1nat, children.len(),
{
    if children.len() > 0 {
        let child = children.last();
        let earlier = children.drop_last();
        let before = child_scripts(g, earlier, depth);
        assert(children[children.len() - 1] == child);
        assert(g.nodes[id].children.contains(children[children.len() - 1]));
        let at = choose|i: int| 0 <= i < g.nodes[id].children.len() && g.nodes[id].children[i] == child;
        assert(g.contains(g.nodes[id].children[at]));
        assert forall|i: int| 0 <= i < earlier.len() implies g.nodes[id].children.contains(
            #[trigger] earlier[i],
        ) by {
            assert(earlier[i] == children[i]);
        }
        lemma_children_replay(g, id, earlier, depth, r, tip);
        let so_far = play_from(r, tip, before);
        let start = Replay { tip, ..so_far };
        lemma_node_replays(g, child, depth, start);
        let scripts = child_scripts(g, children, depth);
        let out = play_from(r, tip, scripts);
        match node_script(g, child, depth) {
            Some(script) => {
                assert(scripts == before.push(script));
                assert(scripts.drop_last() =~= before);
                assert(scripts.last() == script);
                assert(out == play(start, script));
            },
            None => {
                assert(scripts == before);
                assert(out == so_far);
            },
        }
        let last = seq![child];
        assert(last[0] == child);
        assert forall|k: Oid| !reached_from(g, children, k) implies #[trigger] mark_kept(r, out, k) by {
            if reached_from(g, earlier, k) {
                let i = choose|i: int| 0 <= i < earlier.len() && g.reaches(#[trigger] earlier[i], k);
                assert(g.reaches(children[i], k));
            }
            if reached_from(g, last, k) {
                let i = choose|i: int| 0 <= i < last.len() && g.reaches(#[trigger] last[i], k);
                assert(g.reaches(children[children.len() - 1], k));
            }
            assert(mark_kept(r, so_far, k));
            let played = replayed(start, node_script(g, child, depth));
            assert(mark_kept(start, played, k));
        }
    }
}

/// Played by way of a mark that holds the commit `tip`, the scripts of
/// some children of a node come to what they come to when played from `tip`.
pub proof fn lemma_marked_replay(
    g: GraphView,
    id: Oid,
    children: Seq<Oid>,
    depth: nat,
    r: Replay,
    tip: Seq<Oid>,
)
    requires
        g.sound(),
        g.acyclic(),
        g.contains(id),
        forall|i: int| 0 <= i < children.len() ==> g.nodes[id].children.contains(#[trigger] children[i]),
        r.marks.dom().contains(id),
        r.marks[id] == tip,
    ensures
        play_each(
            r,
            child_scripts(g, children, depth).map_values(|d: ScriptView| from_mark(id, d)),
        ).branches == play_from(r, tip, child_scripts(g, children, depth)).branches,
        play_each(
            r,
            child_scripts(g, children, depth).map_values(|d: ScriptView| from_mark(id, d)),
        ).marks == play_from(r, tip, child_scripts(g, children, depth)).marks,
    decreases depth, 1nat, children.len(),
{
    let scripts = child_scripts(g, children, depth);
    let mapped = scripts.map_values(|d: ScriptView| from_mark(id, d));
    if children.len() == 0 {
        assert(mapped =~= Seq::<ScriptView>::empty());
    } else {
        let child = children.last();
        let earlier = children.drop_last();
        let before = child_scripts(g, earlier, depth);
        let before_mapped = before.map_values(|d: ScriptView| from_mark(id, d));
        assert forall|i: int| 0 <= i < earlier.len() implies g.nodes[id].children.contains(
            #[trigger] earlier[i],
        ) by {
            assert(earlier[i] == children[i]);
        }
        lemma_marked_replay(g, id, earlier, depth, r, tip);
        lemma_children_replay(g, id, earlier, depth, r, tip);
        let by_mark = play_each(r, before_mapped);
        let by_tip = play_from(r, tip, before);
        // the mark still holds the commit
        assert(by_tip.marks.dom().contains(id) && by_tip.marks[id] == tip) by {
            if reached_from(g, earlier, id) {
                let i = choose|i: int| 0 <= i < earlier.len() && g.reaches(#[trigger] earlier[i], id);
                lemma_child_apart(g, id, earlier[i]);
            }
            assert(mark_kept(r, by_tip, id));
        }
        match node_script(g, child, depth) {
            Some(script) => {
                assert(scripts == before.push(script));
                assert(mapped =~= before_mapped.push(from_mark(id, script)));
                lemma_play_each_push(r, before_mapped, from_mark(id, script));
                let switch = seq![CommandView::SwitchMark(id)];
                lemma_run_add(by_mark, switch, script.commands);
                assert(switch.drop_first() =~= Seq::<CommandView>::empty());
                assert(run(by_mark, switch) == run(step(by_mark, switch[0]), switch.drop_first()));
                assert(run(by_mark, switch) == (Replay { tip, ..by_mark }));
                assert(play(by_mark, from_mark(id, script)) == play(
                    Replay { tip, ..by_mark },
                    script,
                ));
                assert((Replay { tip, ..by_mark }) == (Replay { tip, ..by_tip }));
                assert(scripts.drop_last() =~= before);
                assert(scripts.last() == script);
            },
            None => {
                assert(scripts == before);
            },
        }
    }
}

/// What the walk of the script pass makes of where the branches stand, at
/// the child `child` of the protected node `parent`: a protected child is put
/// aside for the next level; at any other a stack starts from the commit of
/// `parent`.
pub open spec fn plant_visit(s: Sweep<Stands>, parent: Oid, child: Oid, depth: nat) -> Sweep<Stands> {
    if s.graph.nodes[child].action == Action::Protected {
        Sweep { next: s.next.push(child), ..s }
    } else {
        Sweep { acc: planted(s.graph, child, seq![parent], s.acc, depth), ..s }
    }
}

/// `plant_visit` as a visit of a walk.
pub open spec fn plant_visitor(depth: nat) -> spec_fn(Sweep<Stands>, Oid, Oid) -> Sweep<Stands> {
    |s: Sweep<Stands>, parent: Oid, child: Oid| plant_visit(s, parent, child, depth)
}

/// Where the graph has the branches, seen from where they stand before: the
/// branches of each stack at the commits of the stack replayed on the
/// protected commit that the stack starts from, and no branch left at a node
/// that is to be deleted.
pub open spec fn replanted(graph: GraphView, stands: Stands) -> Stands {
    sweep(plant_visitor(graph.size()), graph, stands).acc
}

/// Whether the two walks stand at the same place, and the scripts
/// collected by the one, played, leave the branches where the other has them.
pub open spec fn in_step(
    g: GraphView,
    r: Replay,
    scripts: Sweep<Seq<ScriptView>>,
    stands: Sweep<Stands>,
) -> bool {
    &&& scripts.graph == g
    &&& stands.graph == g
    &&& scripts.next == stands.next
    &&& g.contains_all(scripts.next)
    &&& play_each(r, scripts.acc).branches == stands.acc
}

/// A script that starts from a commit, played, is the script played from
/// that commit.
pub proof fn lemma_play_from_commit(r: Replay, id: Oid, script: ScriptView)
    ensures
        play(r, from_commit(id, script)) == play(Replay { tip: seq![id], ..r }, script),
{
    let switch = seq![CommandView::SwitchCommit(id)];
    lemma_run_add(r, switch, script.commands);
    assert(switch.drop_first() =~= Seq::<CommandView>::empty());
    assert(run(r, switch) == run(step(r, switch[0]), switch.drop_first()));
}

/// The two walks stay in step over the children of a node.
pub proof fn lemma_children_in_step(
    g: GraphView,
    depth: nat,
    r: Replay,
    scripts: Sweep<Seq<ScriptView>>,
    stands: Sweep<Stands>,
    parent: Oid,
    children: Seq<Oid>,
)
    requires
        g.sound(),
        g.acyclic(),
        in_step(g, r, scripts, stands),
        g.contains(parent),
        forall|i: int| 0 <= i < children.len() ==> g.nodes[parent].children.contains(#[trigger] children[i]),
    ensures
        in_step(
            g,
            r,
            visit_children(script_visitor(depth), scripts, parent, children),
            visit_children(plant_visitor(depth), stands, parent, children),
        ),
    decreases children.len(),
{
    if children.len() > 0 {
        let child = children[0];
        assert(g.nodes[parent].children.contains(children[0]));
        let at = choose|i: int| 0 <= i < g.nodes[parent].children.len() && g.nodes[parent].children[i] == child;
        assert(g.contains(g.nodes[parent].children[at]));
        let one = script_visit(scripts, parent, child, depth);
        let two = plant_visit(stands, parent, child, depth);
        let so_far = play_each(r, scripts.acc);
        let start = Replay { tip: seq![parent], ..so_far };
        if g.nodes[child].action != Action::Protected {
            lemma_node_replays(g, child, depth, start);
            match node_script(g, child, depth) {
                Some(script) => {
                    lemma_play_each_push(r, scripts.acc, from_commit(parent, script));
                    lemma_play_from_commit(so_far, parent, script);
                },
                None => {},
            }
        }
        assert(g.contains_all(one.next)) by {
            assert forall|i: int| 0 <= i < one.next.len() implies g.contains(#[trigger] one.next[i]) by {
                if i < scripts.next.len() {
                    assert(g.contains(scripts.next[i]));
                }
            }
        }
        assert(in_step(g, r, one, two));
        assert forall|i: int| 0 <= i < children.drop_first().len() implies g.nodes[parent].children.contains(
            #[trigger] children.drop_first()[i],
        ) by {
            assert(children.drop_first()[i] == children[i + 1]);
        }
        lemma_children_in_step(g, depth, r, one, two, parent, children.drop_first());
    }
}

/// The two walks stay in step over a level.
pub proof fn lemma_level_in_step(
    g: GraphView,
    depth: nat,
    r: Replay,
    scripts: Sweep<Seq<ScriptView>>,
    stands: Sweep<Stands>,
    level: Seq<Oid>,
)
    requires
        g.sound(),
        g.acyclic(),
        in_step(g, r, scripts, stands),
        g.contains_all(level),
    ensures
        in_step(
            g,
            r,
            visit_level(script_visitor(depth), scripts, level),
            visit_level(plant_visitor(depth), stands, level),
        ),
    decreases level.len(),
{
    if level.len() > 0 {
        let parent = level[0];
        assert(g.contains(level[0]));
        let children = g.children(parent);
        assert forall|i: int| 0 <= i < children.len() implies g.nodes[parent].children.contains(
            #[trigger] children[i],
        ) by {}
        lemma_children_in_step(g, depth, r, scripts, stands, parent, children);
        assert forall|i: int| 0 <= i < level.drop_first().len() implies g.contains(
            #[trigger] level.drop_first()[i],
        ) by {
            assert(g.contains(level[i + 1]));
        }
        lemma_level_in_step(
            g,
            depth,
            r,
            visit_children(script_visitor(depth), scripts, parent, children),
            visit_children(plant_visitor(depth), stands, parent, children),
            level.drop_first(),
        );
    }
}

/// The two walks stay in step level after level.
pub proof fn lemma_levels_in_step(
    g: GraphView,
    depth: nat,
    r: Replay,
    scripts: Sweep<Seq<ScriptView>>,
    stands: Sweep<Stands>,
    left: nat,
)
    requires
        g.sound(),
        g.acyclic(),
        in_step(g, r, scripts, stands),
    ensures
        in_step(
            g,
            r,
            visit_levels(script_visitor(depth), scripts, left),
            visit_levels(plant_visitor(depth), stands, left),
        ),
    decreases left,
{
    if left > 0 && scripts.next.len() > 0 {
        let one = Sweep { next: Seq::empty(), ..scripts };
        let two = Sweep { next: Seq::empty(), ..stands };
        assert(g.contains_all(one.next));
        assert(in_step(g, r, one, two));
        lemma_level_in_step(g, depth, r, one, two, scripts.next);
        lemma_levels_in_step(
            g,
            depth,
            r,
            visit_level(script_visitor(depth), one, scripts.next),
            visit_level(plant_visitor(depth), two, stands.next),
            (left - 1) as nat,
        );
    }
}

/// The script of a graph without cycles, played, leaves the branches where
/// the graph has them: each branch of a stack at the commits of the stack
/// replayed, down to the node of the branch, on the protected commit that the
/// stack starts from; and no branch at a node that is to be deleted.
pub proof fn lemma_script_replays(graph: GraphView, r: Replay)
    requires
        graph.sound(),
        graph.acyclic(),
    ensures
        play(r, graph_script(graph)).branches == replanted(graph, r.branches),
{
    let scripts = Sweep { graph, acc: Seq::<ScriptView>::empty(), next: first_level(graph) };
    let stands = Sweep { graph, acc: r.branches, next: first_level(graph) };
    assert(graph.contains_all(scripts.next));
    assert(play_each(r, scripts.acc) == r);
    lemma_levels_in_step(graph, graph.size(), r, scripts, stands, graph.size());
    let script = graph_script(graph);
    assert(run(r, script.commands) == r);
}

} // verus!
