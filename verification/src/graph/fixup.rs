//! The pass that brings each fixup to the commit it amends.
use vstd::prelude::*;
use crate::config::Fixup;
use crate::git::commit::fixup_target;
use crate::git::oid::{with_id, with_ids, without_id, Oid};
use crate::graph::model::{lemma_with_node_frame, GraphView};
use crate::graph::node::{Action, NodeView};
use crate::graph::outstanding::{
    found, holds_key, id_lists, lemma_slot_bounds, recorded, slot_of, values, without_key, Entries,
    Outstanding,
};
use crate::graph::store::Graph;
use crate::graph::sweep::{first_level, sweep, visit_children, visit_level, visit_levels, Sweep};

verus! {

/// Whether `id` is a node of the graph other than the root.
pub open spec fn inner(graph: GraphView, id: Oid) -> bool {
    graph.contains(id) && id != graph.root_id
}

/// Whether each of `ids` is a node of the graph other than the root.
pub open spec fn all_inner(graph: GraphView, ids: Seq<Oid>) -> bool {
    forall|i: int| 0 <= i < ids.len() ==> inner(graph, #[trigger] ids[i])
}

/// Whether each of `ids` is the node of a fixup.
pub open spec fn all_fixups(graph: GraphView, ids: Seq<Oid>) -> bool {
    forall|i: int| 0 <= i < ids.len() ==> graph.nodes[#[trigger] ids[i]].commit.is_fixup()
}

/// Whether every fixup that waits is a node of the graph other than the
/// root, and the node of a fixup.
pub open spec fn known(graph: GraphView, entries: Entries) -> bool {
    forall|e: int|
        0 <= e < entries.len() ==> all_inner(graph, (#[trigger] entries[e]).1) && all_fixups(
            graph,
            entries[e].1,
        )
}

/// Each node of `ids` marked to be squashed, in turn.
pub open spec fn squash_all(graph: GraphView, ids: Seq<Oid>) -> GraphView
    decreases ids.len(),
{
    if ids.len() == 0 {
        graph
    } else {
        squash_all(graph.with_action(ids[0], Action::Squash), ids.drop_first())
    }
}

/// The nodes of `ids` hung below `last` as a chain, the last of `ids`
/// first. Gives the graph and the end of the chain.
pub open spec fn chained(graph: GraphView, last: Oid, ids: Seq<Oid>) -> (GraphView, Oid)
    decreases ids.len(),
{
    if ids.len() == 0 {
        (graph, last)
    } else {
        chained(
            graph.with_children(last, with_id(graph.nodes[last].children, ids.last())),
            ids.last(),
            ids.drop_last(),
        )
    }
}

/// The chain of `fixups` put directly behind the node `node`: the end of the
/// chain gets the children and the branches that `node` had.
pub open spec fn spliced_after(graph: GraphView, node: Oid, fixups: Seq<Oid>) -> GraphView {
    if fixups.len() == 0 {
        graph
    } else {
        let bare = graph.with_children(node, Seq::empty()).with_branches(node, Seq::empty());
        let (hung, last) = chained(bare, node, fixups);
        hung.with_children(last, graph.nodes[node].children).with_branches(
            last,
            graph.nodes[node].branches,
        )
    }
}

/// The nodes of `ids` stacked on `below`, the first of `ids` directly on it.
/// Gives the graph and the top of the stack.
pub open spec fn stacked(graph: GraphView, below: Oid, ids: Seq<Oid>) -> (GraphView, Oid)
    decreases ids.len(),
{
    if ids.len() == 0 {
        (graph, below)
    } else {
        stacked(
            graph.with_children(ids[0], with_id(graph.nodes[ids[0]].children, below)),
            ids[0],
            ids.drop_first(),
        )
    }
}

/// The chain of `ids` put on the edge from `parent` to `child`. Gives the
/// graph and the node that `parent` now has in place of `child`.
pub open spec fn spliced_between(graph: GraphView, parent: Oid, child: Oid, ids: Seq<Oid>) -> (
    GraphView,
    Oid,
) {
    let (piled, top) = stacked(graph, child, ids);
    let cut = piled.with_children(parent, without_id(piled.nodes[parent].children, child));
    (cut.with_children(parent, with_id(cut.nodes[parent].children, top)), top)
}

/// Where the work on one stack stands: the graph by now, and the fixups
/// that wait.
pub struct Fixing {
    pub graph: GraphView,
    pub outstanding: Entries,
}

/// The graph with the fixups `ids` brought behind the node `id`, marked to be
/// squashed where `squash` holds.
pub open spec fn settled(graph: GraphView, id: Oid, ids: Seq<Oid>, squash: bool) -> GraphView {
    spliced_after(
        if squash {
            squash_all(graph, ids)
        } else {
            graph
        },
        id,
        ids,
    )
}

/// The node `id` taken out from under `base`: its children and its branches
/// go to `base`, behind those that `base` has.
pub open spec fn unhooked(graph: GraphView, base: Oid, id: Oid) -> GraphView {
    let node = graph.nodes[id];
    let bare = graph.with_children(id, Seq::empty()).with_branches(id, Seq::empty());
    let cut = bare.with_children(base, without_id(bare.nodes[base].children, id));
    let joined = cut.with_children(base, with_ids(cut.nodes[base].children, node.children));
    joined.with_branches(base, joined.nodes[base].branches + node.branches)
}

/// The node `id`, a child of `base`, after what follows it, `depth` steps
/// down at most. A fixup is noted as waiting and taken out of the graph: its
/// children and branches go to `base`. Any other node gets behind it the
/// fixups that wait for its summary.
pub open spec fn fixed_node(s: Fixing, base: Oid, id: Oid, squash: bool, depth: nat) -> Fixing
    decreases depth, 0nat, 0nat,
{
    let below = if depth == 0 {
        s
    } else {
        fixed_below(s, id, s.graph.nodes[id].children, squash, (depth - 1) as nat)
    };
    let node = below.graph.nodes[id];
    match fixup_target(node.commit.summary) {
        Some(target) => Fixing {
            graph: unhooked(below.graph, base, id),
            outstanding: recorded(below.outstanding, target, id),
        },
        None => {
            let rest = without_key(below.outstanding, node.commit.summary);
            match found(below.outstanding, node.commit.summary) {
                Some(ids) => Fixing {
                    graph: settled(below.graph, id, ids, squash),
                    outstanding: rest,
                },
                None => Fixing { graph: below.graph, outstanding: rest },
            }
        },
    }
}

/// Each of `children`, children of `base`, in turn.
pub open spec fn fixed_below(
    s: Fixing,
    base: Oid,
    children: Seq<Oid>,
    squash: bool,
    depth: nat,
) -> Fixing
    decreases depth, 1nat, children.len(),
{
    if children.len() == 0 {
        s
    } else {
        fixed_below(
            fixed_node(s, base, children[0], squash, depth),
            base,
            children.drop_first(),
            squash,
            depth,
        )
    }
}

/// Each list of `lists` in turn put as a chain on the edge from `base` to
/// what by then stands in place of `id`.
pub open spec fn orphaned(graph: GraphView, base: Oid, id: Oid, lists: Seq<Seq<Oid>>) -> GraphView
    decreases lists.len(),
{
    if lists.len() == 0 {
        graph
    } else {
        let (put, top) = spliced_between(graph, base, id, lists[0]);
        orphaned(put, base, top, lists.drop_first())
    }
}

/// The stack that starts at the node `id`, a child of the protected node
/// `base`. Each fixup in it comes directly behind the commit of the stack
/// whose summary it names. The fixups that name the summary of `id` come behind
/// `id`. Those that name no summary of the stack come between `base` and `id`,
/// so that none is lost.
pub open spec fn fixed_branch(graph: GraphView, base: Oid, id: Oid, squash: bool, depth: nat) -> GraphView {
    let below = fixed_below(
        Fixing { graph, outstanding: Entries::empty() },
        id,
        graph.nodes[id].children,
        squash,
        depth,
    );
    if below.outstanding.len() == 0 {
        below.graph
    } else {
        let summary = below.graph.nodes[id].commit.summary;
        let own = match found(below.outstanding, summary) {
            Some(ids) => settled(below.graph, id, ids, squash),
            None => below.graph,
        };
        orphaned(own, base, id, values(without_key(below.outstanding, summary)))
    }
}

/// Whether the pass walks on through the node `id`: it is protected or to be
/// deleted.
pub open spec fn passed(graph: GraphView, id: Oid) -> bool {
    graph.nodes[id].action == Action::Protected || graph.nodes[id].action == Action::Delete
}

/// Whether the node `id` may stand inside a stack: it is neither protected
/// nor to be deleted, and where fixups are to be squashed and it is one, it is
/// still to be picked.
pub open spec fn plain(graph: GraphView, id: Oid, squash: bool) -> bool {
    &&& !passed(graph, id)
    &&& squash && graph.nodes[id].commit.is_fixup() ==> graph.nodes[id].action == Action::Pick
}

/// Whether every stack is plain: every child of a node that is neither
/// protected nor to be deleted may stand inside a stack. Nothing is asked
/// where the pass has nothing to do: with `Fixup::Ignore`, or where the root
/// is not protected.
pub open spec fn plain_stacks(graph: GraphView, effect: Fixup) -> bool {
    effect != Fixup::Ignore && graph.is_protected(graph.root_id) ==> forall|p: Oid, i: int|
        graph.contains(p) && !passed(graph, p) && 0 <= i < graph.nodes[p].children.len() ==> plain(
            graph,
            #[trigger] graph.nodes[p].children[i],
            effect == Fixup::Squash,
        )
}

/// Whether each of `ids` is to be picked.
pub open spec fn all_picks(graph: GraphView, ids: Seq<Oid>) -> bool {
    forall|i: int| 0 <= i < ids.len() ==> graph.nodes[#[trigger] ids[i]].action == Action::Pick
}

/// Whether the fixups that wait for the summary of the node `id` can be
/// brought behind it: where they are to be squashed, each is to be picked.
pub open spec fn settles(s: Fixing, id: Oid, squash: bool) -> bool {
    match found(s.outstanding, s.graph.nodes[id].commit.summary) {
        Some(ids) => squash ==> all_picks(s.graph, ids),
        None => true,
    }
}

/// Whether the work on the node `id`, a child of `base`, can be done: below
/// it and at it, no fixup that is not to be picked is to be squashed.
pub open spec fn fixable_node(s: Fixing, base: Oid, id: Oid, squash: bool, depth: nat) -> bool
    decreases depth, 0nat, 0nat,
{
    let below = if depth == 0 {
        s
    } else {
        fixed_below(s, id, s.graph.nodes[id].children, squash, (depth - 1) as nat)
    };
    &&& depth > 0 ==> fixable_below(s, id, s.graph.nodes[id].children, squash, (depth - 1) as nat)
    &&& fixup_target(below.graph.nodes[id].commit.summary) is None ==> settles(below, id, squash)
}

/// The same for each of `children`, children of `base`, in turn.
pub open spec fn fixable_below(
    s: Fixing,
    base: Oid,
    children: Seq<Oid>,
    squash: bool,
    depth: nat,
) -> bool
    decreases depth, 1nat, children.len(),
{
    children.len() == 0 || (fixable_node(s, base, children[0], squash, depth) && fixable_below(
        fixed_node(s, base, children[0], squash, depth),
        base,
        children.drop_first(),
        squash,
        depth,
    ))
}

/// What is made of a stack once the work below its first node `id` is
/// done: the fixups that name the summary of `id` come behind `id`, and those
/// that still wait come between `base` and `id`.
pub open spec fn finished(below: Fixing, base: Oid, id: Oid, squash: bool) -> GraphView {
    if below.outstanding.len() == 0 {
        below.graph
    } else {
        let summary = below.graph.nodes[id].commit.summary;
        let own = match found(below.outstanding, summary) {
            Some(ids) => settled(below.graph, id, ids, squash),
            None => below.graph,
        };
        orphaned(own, base, id, values(without_key(below.outstanding, summary)))
    }
}

/// Whether the work on the stack that starts at the node `id` can be done.
pub open spec fn fixable_branch(graph: GraphView, base: Oid, id: Oid, squash: bool, depth: nat) -> bool {
    let start = Fixing { graph, outstanding: Entries::empty() };
    let below = fixed_below(start, id, graph.nodes[id].children, squash, depth);
    &&& fixable_below(start, id, graph.nodes[id].children, squash, depth)
    &&& below.outstanding.len() > 0 ==> settles(below, id, squash)
}

/// Whether the work on each stack that starts at one of `children`,
/// children of `parent`, can be done, in turn.
pub open spec fn fixable_children(
    s: Sweep<()>,
    parent: Oid,
    children: Seq<Oid>,
    squash: bool,
    depth: nat,
) -> bool
    decreases children.len(),
{
    children.len() == 0 || ((passed(s.graph, children[0]) || fixable_branch(
        s.graph,
        parent,
        children[0],
        squash,
        depth,
    )) && fixable_children(
        fix_visit(s, parent, children[0], squash, depth),
        parent,
        children.drop_first(),
        squash,
        depth,
    ))
}

/// The same below each node of `level`, in turn.
pub open spec fn fixable_level(s: Sweep<()>, level: Seq<Oid>, squash: bool, depth: nat) -> bool
    decreases level.len(),
{
    level.len() == 0 || (fixable_children(s, level[0], s.graph.children(level[0]), squash, depth)
        && fixable_level(
        visit_children(fix_visitor(squash, depth), s, level[0], s.graph.children(level[0])),
        level.drop_first(),
        squash,
        depth,
    ))
}

/// The same level after level, `left` levels at most.
pub open spec fn fixable_levels(s: Sweep<()>, left: nat, squash: bool, depth: nat) -> bool
    decreases left,
{
    left == 0 || s.next.len() == 0 || (fixable_level(
        Sweep { next: Seq::empty(), ..s },
        s.next,
        squash,
        depth,
    ) && fixable_levels(
        visit_level(fix_visitor(squash, depth), Sweep { next: Seq::empty(), ..s }, s.next),
        (left - 1) as nat,
        squash,
        depth,
    ))
}

/// Whether the pass can work on the graph. No child of a node that is
/// neither protected nor to be deleted is protected or to be deleted: a stack
/// holds only commits to be replayed. And wherever the pass brings fixups
/// behind the commit they name in order to squash them, each of them is still
/// to be picked. Nothing is asked where the pass has nothing to do: with
/// `Fixup::Ignore`, or where the root is not protected.
pub open spec fn workable(graph: GraphView, effect: Fixup) -> bool {
    effect != Fixup::Ignore && graph.is_protected(graph.root_id) ==> {
        &&& forall|p: Oid, i: int|
            graph.contains(p) && !passed(graph, p) && 0 <= i < graph.nodes[p].children.len()
                ==> !passed(graph, #[trigger] graph.nodes[p].children[i])
        &&& fixable_levels(
            Sweep { graph, acc: (), next: first_level(graph) },
            graph.size(),
            effect == Fixup::Squash,
            graph.size(),
        )
    }
}

/// What the pass does with the child `child` of the node `parent`: a child
/// that is protected or marked for deletion is put aside for the next level;
/// at any other a stack starts.
pub open spec fn fix_visit(s: Sweep<()>, parent: Oid, child: Oid, squash: bool, depth: nat) -> Sweep<
    (),
> {
    let action = s.graph.nodes[child].action;
    if action == Action::Protected || action == Action::Delete {
        Sweep { next: s.next.push(child), ..s }
    } else {
        Sweep { graph: fixed_branch(s.graph, parent, child, squash, depth), ..s }
    }
}

/// `fix_visit` as a visit of a walk.
pub open spec fn fix_visitor(squash: bool, depth: nat) -> spec_fn(Sweep<()>, Oid, Oid) -> Sweep<()> {
    |s: Sweep<()>, parent: Oid, child: Oid| fix_visit(s, parent, child, squash, depth)
}

/// What `fixup` makes of `graph`.
pub open spec fn fixed(graph: GraphView, effect: Fixup) -> GraphView {
    if effect == Fixup::Ignore {
        graph
    } else {
        sweep(fix_visitor(effect == Fixup::Squash, graph.size()), graph, ()).graph
    }
}

/// A change of the children or branches of nodes keeps what waits known.
pub proof fn lemma_known_frame(before: GraphView, after: GraphView, entries: Entries)
    requires
        before.same_commits(after),
        known(before, entries),
    ensures
        known(after, entries),
{
    assert forall|e: int| 0 <= e < entries.len() implies all_inner(after, (#[trigger] entries[e]).1)
        && all_fixups(after, entries[e].1) by {
        assert(all_inner(before, entries[e].1));
        assert(all_fixups(before, entries[e].1));
        assert forall|i: int| 0 <= i < entries[e].1.len() implies inner(after, #[trigger] entries[e].1[i])
            && after.nodes[entries[e].1[i]].commit.is_fixup() by {
            assert(inner(before, entries[e].1[i]));
            assert(before.nodes[entries[e].1[i]].commit == after.nodes[entries[e].1[i]].commit);
        }
    }
}

/// Whether the nodes `ids` are loose: nodes of the graph without children,
/// none of them `node`, none named twice.
pub open spec fn loose(graph: GraphView, node: Oid, ids: Seq<Oid>) -> bool {
    &&& ids.no_duplicates()
    &&& forall|i: int|
        0 <= i < ids.len() ==> graph.contains(#[trigger] ids[i]) && ids[i] != node
            && graph.nodes[ids[i]].children.len() == 0
}

/// Whether `after` holds the nodes of `before`, each with the commit, the
/// branches, the action and the push mark it has there.
pub open spec fn relinked(before: GraphView, after: GraphView) -> bool {
    &&& after.root_id == before.root_id
    &&& after.nodes.dom() == before.nodes.dom()
    &&& forall|id: Oid|
        before.contains(id) ==> {
            &&& (#[trigger] after.nodes[id]).commit == before.nodes[id].commit
            &&& after.nodes[id].branches == before.nodes[id].branches
            &&& after.nodes[id].action == before.nodes[id].action
            &&& after.nodes[id].pushable == before.nodes[id].pushable
        }
}

/// Loose nodes hung below a node without children make a chain: the node
/// has the last of them as its one child, each of them the one before it, and
/// the first of them, where the chain ends, none.
pub proof fn lemma_chained(graph: GraphView, last: Oid, ids: Seq<Oid>)
    requires
        graph.contains(last),
        graph.nodes[last].children.len() == 0,
        loose(graph, last, ids),
    ensures
        relinked(graph, chained(graph, last, ids).0),
        chained(graph, last, ids).1 == (if ids.len() == 0 {
            last
        } else {
            ids[0]
        }),
        ids.len() > 0 ==> chained(graph, last, ids).0.nodes[last].children == seq![ids.last()],
        forall|i: int|
            0 < i < ids.len() ==> (#[trigger] chained(graph, last, ids).0.nodes[ids[i]]).children
                == seq![ids[i - 1]],
        chained(graph, last, ids).0.nodes[chained(graph, last, ids).1].children.len() == 0,
        forall|x: Oid|
            graph.contains(x) && x != last && !ids.contains(x) ==> #[trigger] chained(
                graph,
                last,
                ids,
            ).0.nodes[x] == graph.nodes[x],
    decreases ids.len(),
{
    if ids.len() > 0 {
        let f = ids.last();
        let rest = ids.drop_last();
        let one = graph.with_children(last, with_id(graph.nodes[last].children, f));
        assert(ids[ids.len() - 1] == f);
        assert(graph.contains(f) && f != last && graph.nodes[f].children.len() == 0);
        assert(one.nodes[last].children =~= seq![f]);
        assert(one.nodes.dom() =~= graph.nodes.dom());
        assert(rest.no_duplicates()) by {
            assert forall|i: int, j: int| 0 <= i < rest.len() && 0 <= j < rest.len() && i != j implies rest[i]
                != rest[j] by {
                assert(ids[i] != ids[j]);
            }
        }
        assert forall|i: int| 0 <= i < rest.len() implies one.contains(#[trigger] rest[i]) && rest[i]
            != f && one.nodes[rest[i]].children.len() == 0 by {
            assert(rest[i] == ids[i]);
            assert(ids[i] != ids[ids.len() - 1]);
        }
        lemma_chained(one, f, rest);
        let done = chained(one, f, rest);
        assert(done == chained(graph, last, ids));
        assert(!rest.contains(last)) by {
            if rest.contains(last) {
                let i = choose|i: int| 0 <= i < rest.len() && rest[i] == last;
                assert(ids[i] == last);
            }
        }
        assert(done.0.nodes[last] == one.nodes[last]);
        assert forall|i: int| 0 < i < ids.len() implies (#[trigger] done.0.nodes[ids[i]]).children
            == seq![ids[i - 1]] by {
            if i < ids.len() - 1 {
                assert(ids[i] == rest[i]);
                assert(done.0.nodes[rest[i]].children == seq![rest[i - 1]]);
            } else {
                assert(rest.last() == ids[i - 1]);
            }
        }
        assert forall|x: Oid| graph.contains(x) && x != last && !ids.contains(x) implies #[trigger] done.0.nodes[x]
            == graph.nodes[x] by {
            assert(x != f);
            if rest.contains(x) {
                let i = choose|i: int| 0 <= i < rest.len() && rest[i] == x;
                assert(ids[i] == x);
            }
            assert(done.0.nodes[x] == one.nodes[x]);
        }
        assert(relinked(graph, done.0)) by {
            assert forall|id: Oid| graph.contains(id) implies (#[trigger] done.0.nodes[id]).commit
                == graph.nodes[id].commit && done.0.nodes[id].branches == graph.nodes[id].branches
                && done.0.nodes[id].action == graph.nodes[id].action && done.0.nodes[id].pushable
                == graph.nodes[id].pushable by {
                assert(one.nodes[id].commit == graph.nodes[id].commit);
            }
        }
    }
}

/// A chain of loose nodes put behind a node stands between the node and what
/// followed it: the node has the head of the chain as its one child and no
/// branch, each node of the chain has the next as its one child, and the end of
/// the chain has the children and the branches that the node had. Nothing
/// else changes.
pub proof fn lemma_spliced_after(graph: GraphView, node: Oid, fixups: Seq<Oid>)
    requires
        graph.contains(node),
        loose(graph, node, fixups),
        fixups.len() > 0,
    ensures
        ({
            let after = spliced_after(graph, node, fixups);
            &&& after.nodes.dom() == graph.nodes.dom()
            &&& after.nodes[node].children == seq![fixups.last()]
            &&& after.nodes[node].branches.len() == 0
            &&& forall|i: int|
                0 < i < fixups.len() ==> (#[trigger] after.nodes[fixups[i]]).children
                    == seq![fixups[i - 1]]
            &&& forall|i: int|
                0 < i < fixups.len() ==> (#[trigger] after.nodes[fixups[i]]).branches
                    == graph.nodes[fixups[i]].branches
            &&& after.nodes[fixups[0]].children == graph.nodes[node].children
            &&& after.nodes[fixups[0]].branches == graph.nodes[node].branches
            &&& forall|x: Oid|
                graph.contains(x) && x != node && !fixups.contains(x) ==> #[trigger] after.nodes[x]
                    == graph.nodes[x]
            &&& graph.same_commits(after)
            &&& graph.same_actions(after)
        }),
{
    let bare = graph.with_children(node, Seq::empty()).with_branches(node, Seq::empty());
    assert(bare.nodes.dom() =~= graph.nodes.dom());
    assert forall|i: int| 0 <= i < fixups.len() implies bare.contains(#[trigger] fixups[i])
        && fixups[i] != node && bare.nodes[fixups[i]].children.len() == 0 by {
        assert(graph.contains(fixups[i]));
    }
    lemma_chained(bare, node, fixups);
    let hung = chained(bare, node, fixups).0;
    let last = fixups[0];
    let after = spliced_after(graph, node, fixups);
    assert(after == hung.with_children(last, graph.nodes[node].children).with_branches(
        last,
        graph.nodes[node].branches,
    ));
    assert(after.nodes.dom() =~= graph.nodes.dom());
    assert(graph.contains(fixups[0]) && fixups[0] != node);
    assert(fixups[fixups.len() - 1] == fixups.last());
    assert forall|i: int| 0 < i < fixups.len() implies (#[trigger] after.nodes[fixups[i]]).children
        == seq![fixups[i - 1]] && after.nodes[fixups[i]].branches == graph.nodes[fixups[i]].branches by {
        assert(fixups[i] != fixups[0]);
        assert(graph.contains(fixups[i]));
        assert(hung.nodes[fixups[i]].children == seq![fixups[i - 1]]);
        assert(hung.nodes[fixups[i]].branches == bare.nodes[fixups[i]].branches);
    }
    assert forall|x: Oid| graph.contains(x) && x != node && !fixups.contains(x) implies #[trigger] after.nodes[x]
        == graph.nodes[x] by {
        assert(x != last);
        assert(hung.nodes[x] == bare.nodes[x]);
    }
    assert(graph.same_commits(after) && graph.same_actions(after)) by {
        assert forall|id: Oid| graph.contains(id) implies (#[trigger] graph.nodes[id]).commit
            == after.nodes[id].commit && graph.nodes[id].pushable == after.nodes[id].pushable
            && after.nodes[id].action == graph.nodes[id].action by {
            assert(hung.nodes[id].commit == bare.nodes[id].commit);
        }
    }
    if fixups.len() > 1 {
        assert(hung.nodes[node].children == seq![fixups.last()]);
    } else {
        assert(hung.nodes[node].children == seq![fixups.last()]);
    }
}

/// Loose nodes stacked on a node make a chain: the first of them has that
/// node as its one child, each other the one before it, and the last of them
/// is the top.
pub proof fn lemma_stacked(graph: GraphView, below: Oid, ids: Seq<Oid>)
    requires
        loose(graph, below, ids),
    ensures
        relinked(graph, stacked(graph, below, ids).0),
        stacked(graph, below, ids).1 == (if ids.len() == 0 {
            below
        } else {
            ids.last()
        }),
        ids.len() > 0 ==> stacked(graph, below, ids).0.nodes[ids[0]].children == seq![below],
        forall|i: int|
            0 < i < ids.len() ==> (#[trigger] stacked(graph, below, ids).0.nodes[ids[i]]).children
                == seq![ids[i - 1]],
        forall|x: Oid|
            graph.contains(x) && !ids.contains(x) ==> #[trigger] stacked(graph, below, ids).0.nodes[x]
                == graph.nodes[x],
    decreases ids.len(),
{
    if ids.len() > 0 {
        let f = ids[0];
        let rest = ids.drop_first();
        let one = graph.with_children(f, with_id(graph.nodes[f].children, below));
        assert(graph.contains(ids[0]) && graph.nodes[ids[0]].children.len() == 0);
        assert(one.nodes[f].children =~= seq![below]);
        assert(one.nodes.dom() =~= graph.nodes.dom());
        assert(rest.no_duplicates()) by {
            assert forall|i: int, j: int| 0 <= i < rest.len() && 0 <= j < rest.len() && i != j implies rest[i]
                != rest[j] by {
                assert(ids[i + 1] != ids[j + 1]);
            }
        }
        assert forall|i: int| 0 <= i < rest.len() implies one.contains(#[trigger] rest[i]) && rest[i]
            != f && one.nodes[rest[i]].children.len() == 0 by {
            assert(rest[i] == ids[i + 1]);
            assert(ids[i + 1] != ids[0]);
            assert(graph.contains(ids[i + 1]));
        }
        lemma_stacked(one, f, rest);
        let done = stacked(one, f, rest);
        assert(done == stacked(graph, below, ids));
        assert(!rest.contains(f)) by {
            if rest.contains(f) {
                let i = choose|i: int| 0 <= i < rest.len() && rest[i] == f;
                assert(ids[i + 1] == ids[0]);
            }
        }
        assert(done.0.nodes[f] == one.nodes[f]);
        assert(done.1 == ids.last()) by {
            if rest.len() > 0 {
                assert(rest.last() == ids.last());
            }
        }
        assert forall|i: int| 0 < i < ids.len() implies (#[trigger] done.0.nodes[ids[i]]).children
            == seq![ids[i - 1]] by {
            assert(ids[i] == rest[i - 1]);
            if i > 1 {
                assert(done.0.nodes[rest[i - 1]].children == seq![rest[i - 1 - 1]]);
                assert(rest[i - 2] == ids[i - 1]);
            }
        }
        assert forall|x: Oid| graph.contains(x) && !ids.contains(x) implies #[trigger] done.0.nodes[x]
            == graph.nodes[x] by {
            assert(x != f);
            if rest.contains(x) {
                let i = choose|i: int| 0 <= i < rest.len() && rest[i] == x;
                assert(ids[i + 1] == x);
            }
            assert(done.0.nodes[x] == one.nodes[x]);
        }
        assert(relinked(graph, done.0)) by {
            assert forall|id: Oid| graph.contains(id) implies (#[trigger] done.0.nodes[id]).commit
                == graph.nodes[id].commit && done.0.nodes[id].branches == graph.nodes[id].branches
                && done.0.nodes[id].action == graph.nodes[id].action && done.0.nodes[id].pushable
                == graph.nodes[id].pushable by {
                assert(one.nodes[id].commit == graph.nodes[id].commit);
            }
        }
    }
}

/// A chain of loose nodes put on the edge from a node to a child of it stands
/// between the two: the node has the top of the chain in place of the child,
/// each node of the chain has the one below it as its one child, and the lowest
/// has the child. Branches stay where they are, and nothing else changes.
pub proof fn lemma_spliced_between(graph: GraphView, parent: Oid, child: Oid, ids: Seq<Oid>)
    requires
        graph.contains(parent),
        loose(graph, child, ids),
        !ids.contains(parent),
        ids.len() > 0,
    ensures
        ({
            let (after, top) = spliced_between(graph, parent, child, ids);
            &&& top == ids.last()
            &&& relinked(graph, after)
            &&& after.nodes[parent].children == with_id(
                without_id(graph.nodes[parent].children, child),
                top,
            )
            &&& after.nodes[ids[0]].children == seq![child]
            &&& forall|i: int|
                0 < i < ids.len() ==> (#[trigger] after.nodes[ids[i]]).children == seq![ids[i - 1]]
            &&& forall|x: Oid|
                graph.contains(x) && x != parent && !ids.contains(x) ==> #[trigger] after.nodes[x]
                    == graph.nodes[x]
        }),
{
    lemma_stacked(graph, child, ids);
    let (piled, top) = stacked(graph, child, ids);
    let cut = piled.with_children(parent, without_id(piled.nodes[parent].children, child));
    let after = cut.with_children(parent, with_id(cut.nodes[parent].children, top));
    assert(after.nodes.dom() =~= graph.nodes.dom());
    assert(piled.nodes[parent] == graph.nodes[parent]);
    assert forall|i: int| 0 <= i < ids.len() implies ids[i] != parent by {
        assert(ids.contains(ids[i]));
    }
    assert(after.nodes[ids[0]].children == seq![child]) by {
        assert(ids[0] != parent);
    }
    assert forall|i: int| 0 < i < ids.len() implies (#[trigger] after.nodes[ids[i]]).children
        == seq![ids[i - 1]] by {
        assert(ids[i] != parent);
        assert(piled.nodes[ids[i]].children == seq![ids[i - 1]]);
    }
    assert forall|x: Oid| graph.contains(x) && x != parent && !ids.contains(x) implies #[trigger] after.nodes[x]
        == graph.nodes[x] by {
        assert(piled.nodes[x] == graph.nodes[x]);
    }
    assert(relinked(graph, after)) by {
        assert forall|id: Oid| graph.contains(id) implies (#[trigger] after.nodes[id]).commit
            == graph.nodes[id].commit && after.nodes[id].branches == graph.nodes[id].branches
            && after.nodes[id].action == graph.nodes[id].action && after.nodes[id].pushable
            == graph.nodes[id].pushable by {
            assert(piled.nodes[id].commit == graph.nodes[id].commit);
        }
    }
}

/// One more fixup that waits keeps what waits known.
pub proof fn lemma_recorded_known(graph: GraphView, entries: Entries, key: Seq<u8>, id: Oid)
    requires
        known(graph, entries),
        inner(graph, id),
        graph.nodes[id].commit.is_fixup(),
    ensures
        known(graph, recorded(entries, key, id)),
{
    let after = recorded(entries, key, id);
    lemma_slot_bounds(entries, key, 0);
    let at = slot_of(entries, key);
    assert forall|e: int| 0 <= e < after.len() implies all_inner(graph, (#[trigger] after[e]).1)
        && all_fixups(graph, after[e].1) by {
        if holds_key(entries, key) {
            assert(all_inner(graph, entries[e].1));
            assert(all_fixups(graph, entries[e].1));
        } else {
            if e < at {
                assert(after[e] == entries[e]);
            } else if e > at {
                assert(after[e] == entries[e - 1]);
            }
        }
    }
}

/// The fixups taken out for a summary are known, and so are the rest.
pub proof fn lemma_taken_known(graph: GraphView, entries: Entries, key: Seq<u8>)
    requires
        known(graph, entries),
    ensures
        known(graph, without_key(entries, key)),
        found(entries, key) matches Some(ids) ==> all_inner(graph, ids) && all_fixups(graph, ids),
{
    lemma_slot_bounds(entries, key, 0);
    let at = slot_of(entries, key);
    let rest = without_key(entries, key);
    assert forall|e: int| 0 <= e < rest.len() implies all_inner(graph, (#[trigger] rest[e]).1)
        && all_fixups(graph, rest[e].1) by {
        if holds_key(entries, key) {
            if e < at {
                assert(rest[e] == entries[e]);
            } else {
                assert(rest[e] == entries[e + 1]);
            }
        }
    }
    if holds_key(entries, key) {
        assert(all_inner(graph, entries[at].1));
        assert(all_fixups(graph, entries[at].1));
    }
}

/// Whether each of `ids` is to be picked.
fn all_to_pick(graph: &Graph, ids: &Vec<Oid>) -> (r: bool)
    requires
        graph.sound(),
        graph@.contains_all(ids@),
    ensures
        r == all_picks(graph@, ids@),
{
    let mut i: usize = 0;
    while i < ids.len()
        invariant
            i <= ids.len(),
            graph.sound(),
            graph@.contains_all(ids@),
            forall|j: int| 0 <= j < i ==> graph@.nodes[#[trigger] ids@[j]].action == Action::Pick,
        decreases ids.len() - i,
    {
        assert(graph@.contains(ids@[i as int]));
        match graph.node(ids[i]).action {
            Action::Pick => {},
            _ => {
                return false;
            },
        }
        i += 1;
    }
    true
}

/// Marks each of `ids`, which are to be picked, to be squashed.
fn squash_fixups(graph: &mut Graph, ids: &Vec<Oid>)
    requires
        old(graph).wf(),
        all_inner(old(graph)@, ids@),
        all_fixups(old(graph)@, ids@),
        all_picks(old(graph)@, ids@),
    ensures
        final(graph).wf(),
        old(graph)@.same_commits(final(graph)@),
        old(graph)@.only_squashed_by(final(graph)@, true),
        final(graph)@ == squash_all(old(graph)@, ids@),
{
    let ghost goal = squash_all(graph@, ids@);
    let mut i: usize = 0;
    assert(ids@.skip(0) =~= ids@);
    while i < ids.len()
        invariant
            i <= ids.len(),
            graph.wf(),
            old(graph)@.same_commits(graph@),
            old(graph)@.only_squashed_by(graph@, true),
            all_inner(old(graph)@, ids@),
            all_fixups(old(graph)@, ids@),
            all_picks(old(graph)@, ids@),
            squash_all(graph@, ids@.skip(i as int)) == goal,
        decreases ids.len() - i,
    {
        proof {
            assert(ids@.skip(i as int).drop_first() =~= ids@.skip(i as int + 1));
            assert(ids@.skip(i as int)[0] == ids@[i as int]);
            assert(inner(old(graph)@, ids@[i as int]));
            assert(old(graph)@.nodes[ids@[i as int]].action == Action::Pick);
            let id = ids@[i as int];
            lemma_with_node_frame(
                graph@,
                id,
                NodeView { action: Action::Squash, ..graph@.nodes[id] },
            );
        }
        // the branches of the commit it is folded into stay where they are
        graph.set_action(ids[i], Action::Squash);
        i += 1;
    }
}

/// Puts the chain of `fixup_ids` directly behind the node `node_id`. The end
/// of the chain takes over its children and branches.
pub fn splice_after(graph: &mut Graph, node_id: Oid, fixup_ids: Vec<Oid>)
    requires
        old(graph).wf(),
        old(graph)@.contains(node_id),
        all_inner(old(graph)@, fixup_ids@),
    ensures
        final(graph).wf(),
        old(graph)@.same_commits(final(graph)@),
        old(graph)@.same_actions(final(graph)@),
        final(graph)@ == spliced_after(old(graph)@, node_id, fixup_ids@),
{
    if fixup_ids.len() == 0 {
        return ;
    }
    let ghost g0 = graph@;
    let new_children = graph.take_children(node_id);
    proof {
        lemma_with_node_frame(
            g0,
            node_id,
            NodeView { children: Seq::empty(), ..g0.nodes[node_id] },
        );
    }
    let ghost g1 = graph@;
    let new_branches = graph.take_branches(node_id);
    proof {
        lemma_with_node_frame(
            g1,
            node_id,
            NodeView { branches: Seq::empty(), ..g1.nodes[node_id] },
        );
    }
    let ghost bare = graph@;
    let ghost goal = chained(bare, node_id, fixup_ids@);
    let mut last_id = node_id;
    let mut i: usize = fixup_ids.len();
    assert(fixup_ids@.take(i as int) =~= fixup_ids@);
    while i > 0
        invariant
            i <= fixup_ids.len(),
            graph.wf(),
            graph@.contains(last_id),
            g0.same_commits(graph@),
            g0.same_actions(graph@),
            all_inner(g0, fixup_ids@),
            chained(graph@, last_id, fixup_ids@.take(i as int)) == goal,
        decreases i,
    {
        let fixup_id = fixup_ids[i - 1];
        proof {
            assert(fixup_ids@.take(i as int).drop_last() =~= fixup_ids@.take(i as int - 1));
            assert(fixup_ids@.take(i as int).last() == fixup_id);
            assert(inner(g0, fixup_ids@[i as int - 1]));
            lemma_with_node_frame(
                graph@,
                last_id,
                NodeView {
                    children: with_id(graph@.nodes[last_id].children, fixup_id),
                    ..graph@.nodes[last_id]
                },
            );
        }
        graph.add_child(last_id, fixup_id);
        last_id = fixup_id;
        i -= 1;
    }
    proof {
        assert forall|k: int| 0 <= k < new_children@.len() implies graph@.contains(
            #[trigger] new_children@[k],
        ) && new_children@[k] != graph@.root_id by {
            assert(g0.contains(g0.nodes[node_id].children[k]));
        }
        lemma_with_node_frame(
            graph@,
            last_id,
            NodeView { children: new_children@, ..graph@.nodes[last_id] },
        );
    }
    graph.set_children(last_id, new_children);
    proof {
        lemma_with_node_frame(
            graph@,
            last_id,
            NodeView {
                branches: g0.nodes[node_id].branches,
                ..graph@.nodes[last_id]
            },
        );
    }
    graph.set_branches(last_id, new_branches);
}

/// Puts the chain of `node_ids` on the edge from `parent_id` to `child_id`,
/// and returns the node that `parent_id` has in place of `child_id`. Branches
/// stay where they are.
pub fn splice_between(graph: &mut Graph, parent_id: Oid, child_id: Oid, node_ids: Vec<Oid>) -> (top: Oid)
    requires
        old(graph).wf(),
        old(graph)@.contains(parent_id),
        inner(old(graph)@, child_id),
        all_inner(old(graph)@, node_ids@),
    ensures
        final(graph).wf(),
        old(graph)@.same_commits(final(graph)@),
        old(graph)@.same_actions(final(graph)@),
        inner(final(graph)@, top),
        (final(graph)@, top) == spliced_between(old(graph)@, parent_id, child_id, node_ids@),
{
    let ghost g0 = graph@;
    let ghost goal = stacked(g0, child_id, node_ids@);
    let mut new_child_id = child_id;
    let mut i: usize = 0;
    assert(node_ids@.skip(0) =~= node_ids@);
    while i < node_ids.len()
        invariant
            i <= node_ids.len(),
            graph.wf(),
            inner(graph@, new_child_id),
            g0.same_commits(graph@),
            g0.same_actions(graph@),
            all_inner(g0, node_ids@),
            stacked(graph@, new_child_id, node_ids@.skip(i as int)) == goal,
        decreases node_ids.len() - i,
    {
        let node_id = node_ids[i];
        proof {
            assert(node_ids@.skip(i as int).drop_first() =~= node_ids@.skip(i as int + 1));
            assert(node_ids@.skip(i as int)[0] == node_id);
            assert(inner(g0, node_ids@[i as int]));
            lemma_with_node_frame(
                graph@,
                node_id,
                NodeView {
                    children: with_id(graph@.nodes[node_id].children, new_child_id),
                    ..graph@.nodes[node_id]
                },
            );
        }
        graph.add_child(node_id, new_child_id);
        new_child_id = node_id;
        i += 1;
    }
    proof {
        lemma_with_node_frame(
            graph@,
            parent_id,
            NodeView {
                children: without_id(graph@.nodes[parent_id].children, child_id),
                ..graph@.nodes[parent_id]
            },
        );
    }
    graph.remove_edge(parent_id, child_id);
    proof {
        lemma_with_node_frame(
            graph@,
            parent_id,
            NodeView {
                children: with_id(graph@.nodes[parent_id].children, new_child_id),
                ..graph@.nodes[parent_id]
            },
        );
    }
    graph.add_child(parent_id, new_child_id);
    new_child_id
}

/// Brings the fixups `fixup_ids` behind the node `node_id`. Where they are
/// to be squashed, each of them is to be picked.
fn settle(graph: &mut Graph, node_id: Oid, fixup_ids: Vec<Oid>, effect: Fixup)
    requires
        old(graph).wf(),
        old(graph)@.contains(node_id),
        all_inner(old(graph)@, fixup_ids@),
        all_fixups(old(graph)@, fixup_ids@),
        effect == Fixup::Squash ==> all_picks(old(graph)@, fixup_ids@),
    ensures
        final(graph).wf(),
        old(graph)@.same_commits(final(graph)@),
        old(graph)@.only_squashed_by(final(graph)@, effect == Fixup::Squash),
        final(graph)@ == settled(old(graph)@, node_id, fixup_ids@, effect == Fixup::Squash),
{
    if effect == Fixup::Squash {
        squash_fixups(graph, &fixup_ids);
    }
    assert(all_inner(graph@, fixup_ids@)) by {
        assert forall|i: int| 0 <= i < fixup_ids@.len() implies inner(graph@, #[trigger] fixup_ids@[i]) by {
            assert(inner(old(graph)@, fixup_ids@[i]));
        }
    }
    splice_after(graph, node_id, fixup_ids);
}

/// Works on the node `node_id`, a child of `base_id`, after what follows
/// it, `depth` steps down at most. A fixup is noted in `outstanding` and taken
/// out from under `base_id`, which gets its children and branches. Any other
/// node gets behind it the fixups that `outstanding` holds for its summary.
fn fixup_node(
    graph: &mut Graph,
    base_id: Oid,
    node_id: Oid,
    effect: Fixup,
    outstanding: &mut Outstanding,
    depth: usize,
)
    requires
        old(graph).wf(),
        old(graph)@.contains(base_id),
        inner(old(graph)@, node_id),
        known(old(graph)@, old(outstanding)@),
        effect != Fixup::Ignore,
        fixable_node(
            Fixing { graph: old(graph)@, outstanding: old(outstanding)@ },
            base_id,
            node_id,
            effect == Fixup::Squash,
            depth as nat,
        ),
    ensures
        final(graph).wf(),
        old(graph)@.same_commits(final(graph)@),
        old(graph)@.only_squashed_by(final(graph)@, effect == Fixup::Squash),
        known(final(graph)@, final(outstanding)@),
        (Fixing { graph: final(graph)@, outstanding: final(outstanding)@ }) == fixed_node(
            Fixing { graph: old(graph)@, outstanding: old(outstanding)@ },
            base_id,
            node_id,
            effect == Fixup::Squash,
            depth as nat,
        ),
    decreases depth,
{
    let ghost squash = effect == Fixup::Squash;
    if depth > 0 {
        let node_children = graph.node(node_id).children.clone();
        let ghost goal = fixed_below(
            Fixing { graph: graph@, outstanding: outstanding@ },
            node_id,
            node_children@,
            squash,
            (depth - 1) as nat,
        );
        proof {
            assert forall|k: int| 0 <= k < node_children@.len() implies inner(
                graph@,
                #[trigger] node_children@[k],
            ) by {
                assert(graph@.contains(graph@.nodes[node_id].children[k]));
            }
            assert(node_children@.skip(0) =~= node_children@);
        }
        let mut j: usize = 0;
        while j < node_children.len()
            invariant
                j <= node_children.len(),
                depth > 0,
                squash == (effect == Fixup::Squash),
                effect != Fixup::Ignore,
                graph.wf(),
                graph@.contains(node_id),
                graph@.contains(base_id),
                all_inner(graph@, node_children@),
                old(graph)@.same_commits(graph@),
                old(graph)@.only_squashed_by(graph@, squash),
                known(graph@, outstanding@),
                fixed_below(
                    Fixing { graph: graph@, outstanding: outstanding@ },
                    node_id,
                    node_children@.skip(j as int),
                    squash,
                    (depth - 1) as nat,
                ) == goal,
                fixable_below(
                    Fixing { graph: graph@, outstanding: outstanding@ },
                    node_id,
                    node_children@.skip(j as int),
                    squash,
                    (depth - 1) as nat,
                ),
            decreases node_children.len() - j,
        {
            let ghost before = graph@;
            proof {
                assert(node_children@.skip(j as int).drop_first() =~= node_children@.skip(
                    j as int + 1,
                ));
                assert(node_children@.skip(j as int)[0] == node_children@[j as int]);
                assert(inner(graph@, node_children@[j as int]));
            }
            fixup_node(graph, node_id, node_children[j], effect, outstanding, depth - 1);
            proof {
                assert forall|k: int| 0 <= k < node_children@.len() implies inner(
                    graph@,
                    #[trigger] node_children@[k],
                ) by {
                    assert(inner(before, node_children@[k]));
                }
            }
            j += 1;
        }
    }
    let ghost below = Fixing { graph: graph@, outstanding: outstanding@ };
    let node = graph.node(node_id);
    match node.commit.fixup_summary() {
        Some(summary) => {
            proof {
                lemma_recorded_known(below.graph, below.outstanding, summary@, node_id);
            }
            outstanding.record(summary, node_id);
            let children = graph.take_children(node_id);
            proof {
                lemma_with_node_frame(
                    below.graph,
                    node_id,
                    NodeView {
                        children: Seq::empty(),
                        ..below.graph.nodes[node_id]
                    },
                );
            }
            let ghost g1 = graph@;
            let branches = graph.take_branches(node_id);
            proof {
                lemma_with_node_frame(
                    g1,
                    node_id,
                    NodeView { branches: Seq::empty(), ..g1.nodes[node_id] },
                );
            }
            let ghost g2 = graph@;
            graph.remove_edge(base_id, node_id);
            proof {
                lemma_with_node_frame(
                    g2,
                    base_id,
                    NodeView {
                        children: without_id(g2.nodes[base_id].children, node_id),
                        ..g2.nodes[base_id]
                    },
                );
                assert forall|k: int| 0 <= k < children@.len() implies graph@.contains(
                    #[trigger] children@[k],
                ) && children@[k] != graph@.root_id by {
                    assert(below.graph.contains(below.graph.nodes[node_id].children[k]));
                }
            }
            let ghost g3 = graph@;
            graph.add_children(base_id, &children);
            proof {
                lemma_with_node_frame(
                    g3,
                    base_id,
                    NodeView {
                        children: with_ids(g3.nodes[base_id].children, children@),
                        ..g3.nodes[base_id]
                    },
                );
            }
            let ghost g4 = graph@;
            graph.add_branches(base_id, branches);
            proof {
                lemma_with_node_frame(
                    g4,
                    base_id,
                    NodeView {
                        branches: g4.nodes[base_id].branches + below.graph.nodes[node_id].branches,
                        ..g4.nodes[base_id]
                    },
                );
                lemma_known_frame(below.graph, graph@, outstanding@);
            }
        },
        None => {
            let taken = outstanding.take(&node.commit.summary);
            proof {
                lemma_taken_known(
                    below.graph,
                    below.outstanding,
                    below.graph.nodes[node_id].commit.summary,
                );
            }
            match taken {
                Some(fixup_ids) => {
                    settle(graph, node_id, fixup_ids, effect);
                    proof {
                        lemma_known_frame(below.graph, graph@, outstanding@);
                    }
                },
                None => {},
            }
        },
    }
}

/// Whether the fixups that wait for the summary of `node_id` can be brought
/// behind it.
fn can_settle(graph: &Graph, node_id: Oid, effect: Fixup, outstanding: &Outstanding) -> (r: bool)
    requires
        graph.wf(),
        graph@.contains(node_id),
        known(graph@, outstanding@),
    ensures
        r == settles(
            Fixing { graph: graph@, outstanding: outstanding@ },
            node_id,
            effect == Fixup::Squash,
        ),
{
    match outstanding.peek(&graph.node(node_id).commit.summary) {
        Some(ids) => {
            proof {
                lemma_taken_known(graph@, outstanding@, graph@.nodes[node_id].commit.summary);
                assert forall|i: int| 0 <= i < ids@.len() implies graph@.contains(#[trigger] ids@[i]) by {
                    assert(inner(graph@, ids@[i]));
                }
            }
            effect != Fixup::Squash || all_to_pick(graph, &ids)
        },
        None => true,
    }
}

/// Does what `fixup_node` does, if it can be done: tells whether it can,
/// and stops where it cannot.
fn try_node(
    graph: &mut Graph,
    base_id: Oid,
    node_id: Oid,
    effect: Fixup,
    outstanding: &mut Outstanding,
    depth: usize,
) -> (done: bool)
    requires
        old(graph).wf(),
        old(graph)@.contains(base_id),
        inner(old(graph)@, node_id),
        known(old(graph)@, old(outstanding)@),
        effect != Fixup::Ignore,
    ensures
        done == fixable_node(
            Fixing { graph: old(graph)@, outstanding: old(outstanding)@ },
            base_id,
            node_id,
            effect == Fixup::Squash,
            depth as nat,
        ),
        done ==> final(graph).wf() && known(final(graph)@, final(outstanding)@) && final(graph)@.contains(
            base_id,
        ) && old(graph)@.same_commits(final(graph)@) && (Fixing {
            graph: final(graph)@,
            outstanding: final(outstanding)@,
        }) == fixed_node(
            Fixing { graph: old(graph)@, outstanding: old(outstanding)@ },
            base_id,
            node_id,
            effect == Fixup::Squash,
            depth as nat,
        ),
    decreases depth,
{
    let ghost squash = effect == Fixup::Squash;
    let ghost start = Fixing { graph: graph@, outstanding: outstanding@ };
    if depth > 0 {
        let node_children = graph.node(node_id).children.clone();
        let ghost goal = fixed_below(start, node_id, node_children@, squash, (depth - 1) as nat);
        let ghost fine = fixable_below(start, node_id, node_children@, squash, (depth - 1) as nat);
        proof {
            assert forall|k: int| 0 <= k < node_children@.len() implies inner(
                graph@,
                #[trigger] node_children@[k],
            ) by {
                assert(graph@.contains(graph@.nodes[node_id].children[k]));
            }
            assert(node_children@.skip(0) =~= node_children@);
        }
        let mut j: usize = 0;
        while j < node_children.len()
            invariant
                j <= node_children.len(),
                depth > 0,
                squash == (effect == Fixup::Squash),
                effect != Fixup::Ignore,
                graph.wf(),
                graph@.contains(node_id),
                graph@.contains(base_id),
                all_inner(graph@, node_children@),
                old(graph)@.same_commits(graph@),
                known(graph@, outstanding@),
                fixed_below(
                    Fixing { graph: graph@, outstanding: outstanding@ },
                    node_id,
                    node_children@.skip(j as int),
                    squash,
                    (depth - 1) as nat,
                ) == goal,
                fixable_below(
                    Fixing { graph: graph@, outstanding: outstanding@ },
                    node_id,
                    node_children@.skip(j as int),
                    squash,
                    (depth - 1) as nat,
                ) == fine,
                fine == fixable_below(
                    Fixing { graph: old(graph)@, outstanding: old(outstanding)@ },
                    node_id,
                    old(graph)@.nodes[node_id].children,
                    squash,
                    (depth - 1) as nat,
                ),
            decreases node_children.len() - j,
        {
            let ghost before = graph@;
            proof {
                assert(node_children@.skip(j as int).drop_first() =~= node_children@.skip(
                    j as int + 1,
                ));
                assert(node_children@.skip(j as int)[0] == node_children@[j as int]);
                assert(inner(graph@, node_children@[j as int]));
            }
            if !try_node(graph, node_id, node_children[j], effect, outstanding, depth - 1) {
                assert(!fine);
                return false;
            }
            proof {
                assert forall|k: int| 0 <= k < node_children@.len() implies inner(
                    graph@,
                    #[trigger] node_children@[k],
                ) by {
                    assert(inner(before, node_children@[k]));
                }
            }
            j += 1;
        }
    }
    let ghost below = Fixing { graph: graph@, outstanding: outstanding@ };
    if graph.node(node_id).commit.fixup_summary().is_none() && !can_settle(
        graph,
        node_id,
        effect,
        outstanding,
    ) {
        return false;
    }
    assert(fixable_node(below, base_id, node_id, squash, 0));
    fixup_node(graph, base_id, node_id, effect, outstanding, 0);
    assert(fixed_node(start, base_id, node_id, squash, depth as nat) == fixed_node(
        below,
        base_id,
        node_id,
        squash,
        0,
    ));
    true
}

/// Does what `fixup_branch` does, if it can be done: tells whether it can,
/// and stops where it cannot.
fn try_branch(graph: &mut Graph, base_id: Oid, node_id: Oid, effect: Fixup, depth: usize) -> (done: bool)
    requires
        old(graph).wf(),
        old(graph)@.contains(base_id),
        inner(old(graph)@, node_id),
        effect != Fixup::Ignore,
    ensures
        done == fixable_branch(old(graph)@, base_id, node_id, effect == Fixup::Squash, depth as nat),
        done ==> final(graph).wf() && old(graph)@.same_commits(final(graph)@) && final(graph)@
            == fixed_branch(old(graph)@, base_id, node_id, effect == Fixup::Squash, depth as nat),
{
    let ghost squash = effect == Fixup::Squash;
    let mut outstanding = Outstanding::new();
    let ghost start = Fixing { graph: graph@, outstanding: outstanding@ };
    let node_children = graph.node(node_id).children.clone();
    let ghost goal = fixed_below(start, node_id, node_children@, squash, depth as nat);
    let ghost fine = fixable_below(start, node_id, node_children@, squash, depth as nat);
    proof {
        assert forall|k: int| 0 <= k < node_children@.len() implies inner(
            graph@,
            #[trigger] node_children@[k],
        ) by {
            assert(graph@.contains(graph@.nodes[node_id].children[k]));
        }
        assert(node_children@.skip(0) =~= node_children@);
    }
    let mut j: usize = 0;
    while j < node_children.len()
        invariant
            j <= node_children.len(),
            squash == (effect == Fixup::Squash),
            effect != Fixup::Ignore,
            graph.wf(),
            graph@.contains(node_id),
            graph@.contains(base_id),
            inner(graph@, node_id),
            all_inner(graph@, node_children@),
            old(graph)@.same_commits(graph@),
            known(graph@, outstanding@),
            fixed_below(
                Fixing { graph: graph@, outstanding: outstanding@ },
                node_id,
                node_children@.skip(j as int),
                squash,
                depth as nat,
            ) == goal,
            fixable_below(
                Fixing { graph: graph@, outstanding: outstanding@ },
                node_id,
                node_children@.skip(j as int),
                squash,
                depth as nat,
            ) == fine,
            fine == fixable_below(
                Fixing { graph: old(graph)@, outstanding: Entries::empty() },
                node_id,
                old(graph)@.nodes[node_id].children,
                squash,
                depth as nat,
            ),
        decreases node_children.len() - j,
    {
        let ghost before = graph@;
        proof {
            assert(node_children@.skip(j as int).drop_first() =~= node_children@.skip(j as int + 1));
            assert(node_children@.skip(j as int)[0] == node_children@[j as int]);
            assert(inner(graph@, node_children@[j as int]));
        }
        if !try_node(graph, node_id, node_children[j], effect, &mut outstanding, depth) {
            assert(!fine);
            return false;
        }
        proof {
            assert forall|k: int| 0 <= k < node_children@.len() implies inner(
                graph@,
                #[trigger] node_children@[k],
            ) by {
                assert(inner(before, node_children@[k]));
            }
        }
        j += 1;
    }
    let ghost mid = graph@;
    if !outstanding.is_empty() && !can_settle(graph, node_id, effect, &outstanding) {
        return false;
    }
    finish_branch(graph, base_id, node_id, effect, outstanding);
    proof {
        assert(old(graph)@.same_commits(graph@)) by {
            assert(old(graph)@.same_commits(mid));
            assert(mid.same_commits(graph@));
        }
    }
    true
}

/// Ends the work on the stack that starts at `node_id`: the fixups that
/// name the summary of `node_id` come behind it, and those that still wait come
/// between `base_id` and `node_id`.
fn finish_branch(
    graph: &mut Graph,
    base_id: Oid,
    node_id: Oid,
    effect: Fixup,
    outstanding: Outstanding,
)
    requires
        old(graph).wf(),
        old(graph)@.contains(base_id),
        inner(old(graph)@, node_id),
        known(old(graph)@, outstanding@),
        effect != Fixup::Ignore,
        outstanding@.len() > 0 ==> settles(
            Fixing { graph: old(graph)@, outstanding: outstanding@ },
            node_id,
            effect == Fixup::Squash,
        ),
    ensures
        final(graph).wf(),
        old(graph)@.same_commits(final(graph)@),
        old(graph)@.only_squashed_by(final(graph)@, effect == Fixup::Squash),
        final(graph)@ == finished(
            Fixing { graph: old(graph)@, outstanding: outstanding@ },
            base_id,
            node_id,
            effect == Fixup::Squash,
        ),
{
    let ghost squash = effect == Fixup::Squash;
    let mut outstanding = outstanding;
    if !outstanding.is_empty() {
        let ghost below = Fixing { graph: graph@, outstanding: outstanding@ };
        let node = graph.node(node_id);
        let taken = outstanding.take(&node.commit.summary);
        proof {
            lemma_taken_known(
                below.graph,
                below.outstanding,
                below.graph.nodes[node_id].commit.summary,
            );
        }
        match taken {
            Some(fixup_ids) => {
                settle(graph, node_id, fixup_ids, effect);
                proof {
                    lemma_known_frame(below.graph, graph@, outstanding@);
                }
            },
            None => {},
        }
        let ghost rest = outstanding@;
        let lists = outstanding.into_values();
        let ghost orphan_goal = orphaned(graph@, base_id, node_id, id_lists(lists@));
        let mut top = node_id;
        let mut k: usize = 0;
        assert(id_lists(lists@).skip(0) =~= id_lists(lists@));
        while k < lists.len()
            invariant
                k <= lists.len(),
                graph.wf(),
                graph@.contains(base_id),
                inner(graph@, top),
                old(graph)@.same_commits(graph@),
                old(graph)@.only_squashed_by(graph@, squash),
                known(graph@, rest),
                id_lists(lists@) == values(rest),
                orphaned(graph@, base_id, top, id_lists(lists@).skip(k as int)) == orphan_goal,
            decreases lists.len() - k,
        {
            let ghost before = graph@;
            proof {
                assert(id_lists(lists@).skip(k as int).drop_first() =~= id_lists(lists@).skip(
                    k as int + 1,
                ));
                assert(id_lists(lists@).skip(k as int)[0] == lists@[k as int]@);
                assert(values(rest)[k as int] == rest[k as int].1);
                assert(all_inner(graph@, rest[k as int].1));
            }
            top = splice_between(graph, base_id, top, lists[k].clone());
            proof {
                lemma_known_frame(before, graph@, rest);
            }
            k += 1;
        }
    }
}

/// Works on the stack that starts at `node_id`, a child of the protected
/// node `base_id`: each fixup in it comes behind the commit of the stack whose
/// summary it names, and those that name none come between `base_id` and
/// `node_id`.
fn fixup_branch(graph: &mut Graph, base_id: Oid, node_id: Oid, effect: Fixup, depth: usize)
    requires
        old(graph).wf(),
        old(graph)@.contains(base_id),
        inner(old(graph)@, node_id),
        effect != Fixup::Ignore,
        fixable_branch(old(graph)@, base_id, node_id, effect == Fixup::Squash, depth as nat),
    ensures
        final(graph).wf(),
        old(graph)@.same_commits(final(graph)@),
        old(graph)@.only_squashed_by(final(graph)@, effect == Fixup::Squash),
        final(graph)@ == fixed_branch(
            old(graph)@,
            base_id,
            node_id,
            effect == Fixup::Squash,
            depth as nat,
        ),
{
    let ghost squash = effect == Fixup::Squash;
    let mut outstanding = Outstanding::new();
    let node_children = graph.node(node_id).children.clone();
    let ghost goal = fixed_below(
        Fixing { graph: graph@, outstanding: outstanding@ },
        node_id,
        node_children@,
        squash,
        depth as nat,
    );
    proof {
        assert forall|k: int| 0 <= k < node_children@.len() implies inner(
            graph@,
            #[trigger] node_children@[k],
        ) by {
            assert(graph@.contains(graph@.nodes[node_id].children[k]));
        }
        assert(node_children@.skip(0) =~= node_children@);
    }
    let mut j: usize = 0;
    while j < node_children.len()
        invariant
            j <= node_children.len(),
            squash == (effect == Fixup::Squash),
            effect != Fixup::Ignore,
            graph.wf(),
            graph@.contains(node_id),
            graph@.contains(base_id),
            all_inner(graph@, node_children@),
            old(graph)@.same_commits(graph@),
            old(graph)@.only_squashed_by(graph@, squash),
            known(graph@, outstanding@),
            fixed_below(
                Fixing { graph: graph@, outstanding: outstanding@ },
                node_id,
                node_children@.skip(j as int),
                squash,
                depth as nat,
            ) == goal,
            fixable_below(
                Fixing { graph: graph@, outstanding: outstanding@ },
                node_id,
                node_children@.skip(j as int),
                squash,
                depth as nat,
            ),
        decreases node_children.len() - j,
    {
        let ghost before = graph@;
        proof {
            assert(node_children@.skip(j as int).drop_first() =~= node_children@.skip(j as int + 1));
            assert(node_children@.skip(j as int)[0] == node_children@[j as int]);
            assert(inner(graph@, node_children@[j as int]));
        }
        fixup_node(graph, node_id, node_children[j], effect, &mut outstanding, depth);
        proof {
            assert forall|k: int| 0 <= k < node_children@.len() implies inner(
                graph@,
                #[trigger] node_children@[k],
            ) by {
                assert(inner(before, node_children@[k]));
            }
        }
        j += 1;
    }
    finish_branch(graph, base_id, node_id, effect, outstanding);
}

/// Whether a stack holds only commits to be replayed: no child of a node
/// that is neither protected nor to be deleted is protected or to be deleted.
fn stacks_stand(graph: &Graph) -> (r: bool)
    requires
        graph.wf(),
    ensures
        r == (forall|p: Oid, i: int|
            graph@.contains(p) && !passed(graph@, p) && 0 <= i < graph@.nodes[p].children.len()
                ==> !passed(graph@, #[trigger] graph@.nodes[p].children[i])),
{
    let ids = graph.ids();
    let mut k: usize = 0;
    while k < ids.len()
        invariant
            k <= ids.len(),
            graph.wf(),
            forall|id: Oid| ids@.contains(id) <==> graph@.contains(id),
            forall|j: int, i: int|
                0 <= j < k && !passed(graph@, ids@[j]) && 0 <= i < graph@.nodes[ids@[j]].children.len()
                    ==> !passed(graph@, #[trigger] graph@.nodes[ids@[j]].children[i]),
        decreases ids.len() - k,
    {
        assert(ids@.contains(ids@[k as int]));
        let node = graph.node(ids[k]);
        if !(node.action.is_protected() || node.action.is_delete()) {
            let mut i: usize = 0;
            while i < node.children.len()
                invariant
                    i <= node.children.len(),
                    graph.wf(),
                    0 <= k < ids.len(),
                    graph@.contains(ids@[k as int]),
                    node@ == graph@.nodes[ids@[k as int]],
                    !passed(graph@, ids@[k as int]),
                    forall|m: int| 0 <= m < i ==> !passed(graph@, #[trigger] node@.children[m]),
                decreases node.children.len() - i,
            {
                assert(graph@.contains(graph@.nodes[ids@[k as int]].children[i as int]));
                let child = graph.node(node.children[i]);
                if child.action.is_protected() || child.action.is_delete() {
                    assert(passed(graph@, graph@.nodes[ids@[k as int]].children[i as int]));
                    return false;
                }
                i += 1;
            }
        }
        k += 1;
    }
    proof {
        assert forall|p: Oid, i: int|
            graph@.contains(p) && !passed(graph@, p) && 0 <= i < graph@.nodes[p].children.len() implies !passed(
            graph@,
            #[trigger] graph@.nodes[p].children[i],
        ) by {
            assert(ids@.contains(p));
            let j = choose|j: int| 0 <= j < ids@.len() && ids@[j] == p;
            assert(!passed(graph@, graph@.nodes[ids@[j]].children[i]));
        }
    }
    true
}

/// Does what `fixup` does with the stacks, if it can be done: tells whether
/// it can, and stops where it cannot.
fn try_stacks(graph: &mut Graph, effect: Fixup) -> (done: bool)
    requires
        old(graph).wf(),
        effect != Fixup::Ignore,
    ensures
        done == fixable_levels(
            Sweep { graph: old(graph)@, acc: (), next: first_level(old(graph)@) },
            old(graph)@.size(),
            effect == Fixup::Squash,
            old(graph)@.size(),
        ),
{
    let limit = graph.len();
    let ghost squash = effect == Fixup::Squash;
    let ghost visit = fix_visitor(squash, limit as nat);
    let ghost fine = fixable_levels(
        Sweep { graph: graph@, acc: (), next: first_level(graph@) },
        limit as nat,
        squash,
        limit as nat,
    );
    let mut level: Vec<Oid> = Vec::new();
    if graph.root().action.is_protected() {
        level.push(graph.root_id());
    }
    assert(level@ =~= first_level(graph@));
    let mut left = limit;
    while left > 0 && level.len() > 0
        invariant
            graph.wf(),
            graph@.contains_all(level@),
            squash == (effect == Fixup::Squash),
            effect != Fixup::Ignore,
            visit == fix_visitor(squash, limit as nat),
            fixable_levels(
                Sweep { graph: graph@, acc: (), next: level@ },
                left as nat,
                squash,
                limit as nat,
            ) == fine,
            fine == fixable_levels(
                Sweep { graph: old(graph)@, acc: (), next: first_level(old(graph)@) },
                old(graph)@.size(),
                effect == Fixup::Squash,
                old(graph)@.size(),
            ),
        decreases left,
    {
        let ghost cleared = Sweep { graph: graph@, acc: (), next: Seq::<Oid>::empty() };
        let ghost level_goal = visit_level(visit, cleared, level@);
        let ghost level_fine = fixable_level(cleared, level@, squash, limit as nat);
        assert(fine ==> level_fine);
        let mut next: Vec<Oid> = Vec::new();
        let mut i: usize = 0;
        assert(level@.skip(0) =~= level@);
        assert(next@ =~= Seq::<Oid>::empty());
        while i < level.len()
            invariant
                i <= level.len(),
                graph.wf(),
                graph@.contains_all(level@),
                graph@.contains_all(next@),
                squash == (effect == Fixup::Squash),
                effect != Fixup::Ignore,
                visit == fix_visitor(squash, limit as nat),
                visit_level(
                    visit,
                    Sweep { graph: graph@, acc: (), next: next@ },
                    level@.skip(i as int),
                ) == level_goal,
                fixable_level(
                    Sweep { graph: graph@, acc: (), next: next@ },
                    level@.skip(i as int),
                    squash,
                    limit as nat,
                ) == level_fine,
                fine ==> level_fine,
                fine == fixable_levels(
                    Sweep { graph: old(graph)@, acc: (), next: first_level(old(graph)@) },
                    old(graph)@.size(),
                    effect == Fixup::Squash,
                    old(graph)@.size(),
                ),
            decreases level.len() - i,
        {
            let current_id = level[i];
            proof {
                assert(level@.skip(i as int).drop_first() =~= level@.skip(i as int + 1));
                assert(level@.skip(i as int)[0] == current_id);
                assert(graph@.contains(level@[i as int]));
            }
            let current_children = graph.node(current_id).children.clone();
            let ghost here = Sweep { graph: graph@, acc: (), next: next@ };
            let ghost children_goal = visit_children(visit, here, current_id, current_children@);
            let ghost children_fine = fixable_children(
                here,
                current_id,
                current_children@,
                squash,
                limit as nat,
            );
            assert(level_fine ==> children_fine);
            proof {
                assert forall|k: int| 0 <= k < current_children@.len() implies inner(
                    graph@,
                    #[trigger] current_children@[k],
                ) by {
                    assert(graph@.contains(graph@.nodes[current_id].children[k]));
                }
                assert(current_children@.skip(0) =~= current_children@);
            }
            let mut j: usize = 0;
            while j < current_children.len()
                invariant
                    j <= current_children.len(),
                    graph.wf(),
                    graph@.contains(current_id),
                    graph@.contains_all(level@),
                    graph@.contains_all(next@),
                    all_inner(graph@, current_children@),
                    squash == (effect == Fixup::Squash),
                    effect != Fixup::Ignore,
                    visit == fix_visitor(squash, limit as nat),
                    visit_children(
                        visit,
                        Sweep { graph: graph@, acc: (), next: next@ },
                        current_id,
                        current_children@.skip(j as int),
                    ) == children_goal,
                    fixable_children(
                        Sweep { graph: graph@, acc: (), next: next@ },
                        current_id,
                        current_children@.skip(j as int),
                        squash,
                        limit as nat,
                    ) == children_fine,
                    fine ==> children_fine,
                    fine == fixable_levels(
                        Sweep { graph: old(graph)@, acc: (), next: first_level(old(graph)@) },
                        old(graph)@.size(),
                        effect == Fixup::Squash,
                        old(graph)@.size(),
                    ),
                decreases current_children.len() - j,
            {
                let child_id = current_children[j];
                let ghost before = Sweep { graph: graph@, acc: (), next: next@ };
                proof {
                    assert(current_children@.skip(j as int).drop_first()
                        =~= current_children@.skip(j as int + 1));
                    assert(current_children@.skip(j as int)[0] == child_id);
                    assert(inner(graph@, current_children@[j as int]));
                }
                let child_action = graph.node(child_id).action;
                if child_action.is_protected() || child_action.is_delete() {
                    next.push(child_id);
                } else if !try_branch(graph, current_id, child_id, effect, limit) {
                    assert(!children_fine);
                    return false;
                }
                proof {
                    assert forall|k: int| 0 <= k < current_children@.len() implies inner(
                        graph@,
                        #[trigger] current_children@[k],
                    ) by {
                        assert(inner(before.graph, current_children@[k]));
                    }
                    assert forall|k: int| 0 <= k < level@.len() implies graph@.contains(
                        #[trigger] level@[k],
                    ) by {
                        assert(before.graph.contains(level@[k]));
                    }
                    assert forall|k: int| 0 <= k < next@.len() implies graph@.contains(
                        #[trigger] next@[k],
                    ) by {
                        if k < before.next.len() {
                            assert(before.graph.contains(before.next[k]));
                        }
                    }
                }
                assert((Sweep { graph: graph@, acc: (), next: next@ }) == visit(
                    before,
                    current_id,
                    child_id,
                ));
                j += 1;
            }
            i += 1;
        }
        level = next;
        left -= 1;
    }
    true
}

/// Whether `fixup` can work on `graph` with `effect`. The answer comes from
/// doing the work on a copy.
pub fn can_fixup(graph: &Graph, effect: Fixup) -> (r: bool)
    requires
        graph.wf(),
    ensures
        r == workable(graph@, effect),
{
    if effect == Fixup::Ignore || !graph.root().action.is_protected() {
        return true;
    }
    if !stacks_stand(graph) {
        return false;
    }
    let mut copy = graph.duplicate();
    try_stacks(&mut copy, effect)
}

/// Brings each fixup behind the commit it amends: the first commit further
/// up in its stack whose summary it names. With `Fixup::Squash` the fixups
/// are marked to be squashed too; with `Fixup::Ignore` nothing is done. No
/// node enters or leaves the graph, and no commit changes.
///
/// A stack is to hold only commits to be replayed, and with `Fixup::Squash`
/// every fixup that finds the commit it names is still to be picked:
/// `can_fixup` tells.
pub fn fixup(graph: &mut Graph, effect: Fixup)
    requires
        old(graph).wf(),
        workable(old(graph)@, effect),
    ensures
        final(graph).wf(),
        old(graph)@.same_commits(final(graph)@),
        old(graph)@.only_squashed_by(final(graph)@, effect == Fixup::Squash),
        old(graph)@.tree() ==> final(graph)@.tree(),
        final(graph)@ == fixed(old(graph)@, effect),
{
    if effect == Fixup::Ignore {
        return ;
    }
    let limit = graph.len();
    let ghost squash = effect == Fixup::Squash;
    let ghost visit = fix_visitor(squash, limit as nat);
    let ghost goal = sweep(visit, old(graph)@, ());
    let mut level: Vec<Oid> = Vec::new();
    if graph.root().action.is_protected() {
        level.push(graph.root_id());
    }
    assert(level@ =~= first_level(graph@));
    let mut left = limit;
    while left > 0 && level.len() > 0
        invariant
            graph.wf(),
            graph@.contains_all(level@),
            squash == (effect == Fixup::Squash),
            effect != Fixup::Ignore,
            old(graph)@.same_commits(graph@),
            old(graph)@.only_squashed_by(graph@, squash),
            visit == fix_visitor(squash, limit as nat),
            visit_levels(visit, Sweep { graph: graph@, acc: (), next: level@ }, left as nat).graph
                == goal.graph,
            fixable_levels(
                Sweep { graph: graph@, acc: (), next: level@ },
                left as nat,
                squash,
                limit as nat,
            ),
        ensures
            graph.wf(),
            old(graph)@.same_commits(graph@),
            old(graph)@.only_squashed_by(graph@, squash),
            graph@ == goal.graph,
        decreases left,
    {
        let ghost level_goal = visit_level(
            visit,
            Sweep { graph: graph@, acc: (), next: Seq::empty() },
            level@,
        );
        let mut next: Vec<Oid> = Vec::new();
        let mut i: usize = 0;
        assert(level@.skip(0) =~= level@);
        assert(next@ =~= Seq::<Oid>::empty());
        while i < level.len()
            invariant
                i <= level.len(),
                graph.wf(),
                graph@.contains_all(level@),
                graph@.contains_all(next@),
                squash == (effect == Fixup::Squash),
                effect != Fixup::Ignore,
                old(graph)@.same_commits(graph@),
                old(graph)@.only_squashed_by(graph@, squash),
                visit == fix_visitor(squash, limit as nat),
                visit_level(
                    visit,
                    Sweep { graph: graph@, acc: (), next: next@ },
                    level@.skip(i as int),
                ) == level_goal,
                fixable_level(
                    Sweep { graph: graph@, acc: (), next: next@ },
                    level@.skip(i as int),
                    squash,
                    limit as nat,
                ),
            decreases level.len() - i,
        {
            let current_id = level[i];
            proof {
                assert(level@.skip(i as int).drop_first() =~= level@.skip(i as int + 1));
                assert(level@.skip(i as int)[0] == current_id);
                assert(graph@.contains(level@[i as int]));
            }
            let current_children = graph.node(current_id).children.clone();
            let ghost children_goal = visit_children(
                visit,
                Sweep { graph: graph@, acc: (), next: next@ },
                current_id,
                current_children@,
            );
            proof {
                assert forall|k: int| 0 <= k < current_children@.len() implies inner(
                    graph@,
                    #[trigger] current_children@[k],
                ) by {
                    assert(graph@.contains(graph@.nodes[current_id].children[k]));
                }
                assert(current_children@.skip(0) =~= current_children@);
            }
            let mut j: usize = 0;
            while j < current_children.len()
                invariant
                    j <= current_children.len(),
                    graph.wf(),
                    graph@.contains(current_id),
                    graph@.contains_all(level@),
                    graph@.contains_all(next@),
                    all_inner(graph@, current_children@),
                    squash == (effect == Fixup::Squash),
                    effect != Fixup::Ignore,
                    old(graph)@.same_commits(graph@),
                    old(graph)@.only_squashed_by(graph@, squash),
                    visit == fix_visitor(squash, limit as nat),
                    visit_children(
                        visit,
                        Sweep { graph: graph@, acc: (), next: next@ },
                        current_id,
                        current_children@.skip(j as int),
                    ) == children_goal,
                    fixable_children(
                        Sweep { graph: graph@, acc: (), next: next@ },
                        current_id,
                        current_children@.skip(j as int),
                        squash,
                        limit as nat,
                    ),
                decreases current_children.len() - j,
            {
                let child_id = current_children[j];
                let ghost before = Sweep { graph: graph@, acc: (), next: next@ };
                proof {
                    assert(current_children@.skip(j as int).drop_first()
                        =~= current_children@.skip(j as int + 1));
                    assert(current_children@.skip(j as int)[0] == child_id);
                    assert(inner(graph@, current_children@[j as int]));
                }
                let child_action = graph.node(child_id).action;
                if child_action.is_protected() || child_action.is_delete() {
                    next.push(child_id);
                } else {
                    fixup_branch(graph, current_id, child_id, effect, limit);
                }
                proof {
                    assert forall|k: int| 0 <= k < current_children@.len() implies inner(
                        graph@,
                        #[trigger] current_children@[k],
                    ) by {
                        assert(inner(before.graph, current_children@[k]));
                    }
                    assert forall|k: int| 0 <= k < level@.len() implies graph@.contains(
                        #[trigger] level@[k],
                    ) by {
                        assert(before.graph.contains(level@[k]));
                    }
                    assert forall|k: int| 0 <= k < next@.len() implies graph@.contains(
                        #[trigger] next@[k],
                    ) by {
                        if k < before.next.len() {
                            assert(before.graph.contains(before.next[k]));
                        }
                    }
                }
                assert((Sweep { graph: graph@, acc: (), next: next@ }) == visit(
                    before,
                    current_id,
                    child_id,
                ));
                j += 1;
            }
            i += 1;
        }
        level = next;
        left -= 1;
    }
    proof {
        if old(graph)@.tree() {
            crate::graph::graft::lemma_fixed_tree(old(graph)@, effect);
        }
    }
}

} // verus!
