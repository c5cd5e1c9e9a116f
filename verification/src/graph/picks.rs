//! What the fixup pass decides anew: nothing but that commits of a stack
//! which were to be picked are to be squashed.
use vstd::prelude::*;
use crate::config::Fixup;
use crate::git::commit::fixup_target;
use crate::git::oid::Oid;
use crate::graph::acyclic::lemma_path_within;
use crate::graph::fixup::{
    fix_visit, fix_visitor, fixed, fixed_below, fixed_branch, fixed_node, passed, settled,
    squash_all, workable, Fixing,
};
use crate::graph::graft::{lemma_fix_children, lemma_fixed_branch};
use crate::graph::model::{lemma_reaches_child, GraphView};
use crate::graph::node::Action;
use crate::graph::outstanding::{found, values, without_key, Entries};
use crate::graph::sweep::{first_level, visit_children, visit_level, visit_levels, Sweep};
use crate::graph::whole::{
    alike, lemma_chained_alike, lemma_fixed_branch_frame, lemma_orphaned_alike,
    lemma_unhooked_alike,
};

verus! {

/// Whether `after` decides of each node what `before` does, or, where
/// `squash` holds, that it is squashed.
pub open spec fn squashing(before: GraphView, after: GraphView, squash: bool) -> bool {
    forall|x: Oid|
        (#[trigger] after.nodes[x]).action == before.nodes[x].action || (squash && after.nodes[x].action
            == Action::Squash)
}

/// Marking nodes to be squashed decides nothing else.
pub proof fn lemma_squash_all_squashing(g: GraphView, ids: Seq<Oid>)
    ensures
        squashing(g, squash_all(g, ids), true),
    decreases ids.len(),
{
    if ids.len() > 0 {
        let one = g.with_action(ids[0], Action::Squash);
        lemma_squash_all_squashing(one, ids.drop_first());
        let done = squash_all(g, ids);
        assert forall|x: Oid| (#[trigger] done.nodes[x]).action == g.nodes[x].action || done.nodes[x].action
            == Action::Squash by {
            assert(one.nodes[x].action == g.nodes[x].action || one.nodes[x].action == Action::Squash);
        }
    }
}

/// Fixups brought behind a node: nothing else is decided.
pub proof fn lemma_settled_squashing(g: GraphView, id: Oid, ids: Seq<Oid>, squash: bool)
    ensures
        squashing(g, settled(g, id, ids, squash), squash),
{
    let marked = if squash {
        squash_all(g, ids)
    } else {
        g
    };
    if squash {
        lemma_squash_all_squashing(g, ids);
    }
    let done = settled(g, id, ids, squash);
    if ids.len() > 0 {
        let bare = marked.with_children(id, Seq::empty()).with_branches(id, Seq::empty());
        assert(alike(marked, bare));
        lemma_chained_alike(bare, id, ids);
        let hung = crate::graph::fixup::chained(bare, id, ids).0;
        assert(alike(hung, done));
        assert forall|x: Oid|
            (#[trigger] done.nodes[x]).action == g.nodes[x].action || (squash && done.nodes[x].action
                == Action::Squash) by {
            assert(hung.nodes[x].action == bare.nodes[x].action);
            assert(bare.nodes[x].action == marked.nodes[x].action);
        }
    }
}

/// Work on a node decides nothing but that nodes are squashed.
pub proof fn lemma_fixed_node_squashing(s: Fixing, base: Oid, id: Oid, squash: bool, depth: nat)
    ensures
        squashing(s.graph, fixed_node(s, base, id, squash, depth).graph, squash),
    decreases depth, 0nat, 0nat,
{
    let below = if depth == 0 {
        s
    } else {
        fixed_below(s, id, s.graph.nodes[id].children, squash, (depth - 1) as nat)
    };
    if depth > 0 {
        lemma_fixed_below_squashing(s, id, s.graph.nodes[id].children, squash, (depth - 1) as nat);
    }
    assert(squashing(s.graph, below.graph, squash));
    let node = below.graph.nodes[id];
    let t = fixed_node(s, base, id, squash, depth);
    match fixup_target(node.commit.summary) {
        Some(target) => {
            lemma_unhooked_alike(below.graph, base, id);
        },
        None => {
            match found(below.outstanding, node.commit.summary) {
                Some(ids) => {
                    lemma_settled_squashing(below.graph, id, ids, squash);
                },
                None => {},
            }
        },
    }
    assert forall|x: Oid|
        (#[trigger] t.graph.nodes[x]).action == s.graph.nodes[x].action || (squash && t.graph.nodes[x].action
            == Action::Squash) by {
        assert(below.graph.nodes[x].action == s.graph.nodes[x].action || (squash && below.graph.nodes[x].action
            == Action::Squash));
        assert(t.graph.nodes[x].action == below.graph.nodes[x].action || (squash && t.graph.nodes[x].action
            == Action::Squash));
    }
}

/// The same for each of some children in turn.
pub proof fn lemma_fixed_below_squashing(
    s: Fixing,
    node: Oid,
    rest: Seq<Oid>,
    squash: bool,
    depth: nat,
)
    ensures
        squashing(s.graph, fixed_below(s, node, rest, squash, depth).graph, squash),
    decreases depth, 1nat, rest.len(),
{
    if rest.len() > 0 {
        let t = fixed_node(s, node, rest[0], squash, depth);
        lemma_fixed_node_squashing(s, node, rest[0], squash, depth);
        lemma_fixed_below_squashing(t, node, rest.drop_first(), squash, depth);
        let done = fixed_below(s, node, rest, squash, depth);
        assert forall|x: Oid|
            (#[trigger] done.graph.nodes[x]).action == s.graph.nodes[x].action || (squash
                && done.graph.nodes[x].action == Action::Squash) by {
            assert(t.graph.nodes[x].action == s.graph.nodes[x].action || (squash && t.graph.nodes[x].action
                == Action::Squash));
        }
    }
}

/// Work on a stack decides nothing but that nodes are squashed.
pub proof fn lemma_fixed_branch_squashing(g: GraphView, base: Oid, id: Oid, squash: bool, depth: nat)
    ensures
        squashing(g, fixed_branch(g, base, id, squash, depth), squash),
{
    let s = Fixing { graph: g, outstanding: Entries::empty() };
    lemma_fixed_below_squashing(s, id, g.nodes[id].children, squash, depth);
    let below = fixed_below(s, id, g.nodes[id].children, squash, depth);
    let after = fixed_branch(g, base, id, squash, depth);
    if below.outstanding.len() > 0 {
        let summary = below.graph.nodes[id].commit.summary;
        let own = match found(below.outstanding, summary) {
            Some(ids) => settled(below.graph, id, ids, squash),
            None => below.graph,
        };
        match found(below.outstanding, summary) {
            Some(ids) => {
                lemma_settled_squashing(below.graph, id, ids, squash);
            },
            None => {},
        }
        lemma_orphaned_alike(own, base, id, values(without_key(below.outstanding, summary)));
        assert forall|x: Oid|
            (#[trigger] after.nodes[x]).action == g.nodes[x].action || (squash && after.nodes[x].action
                == Action::Squash) by {
            assert(below.graph.nodes[x].action == g.nodes[x].action || (squash && below.graph.nodes[x].action
                == Action::Squash));
            assert(own.nodes[x].action == below.graph.nodes[x].action || (squash && own.nodes[x].action
                == Action::Squash));
            assert(after.nodes[x].action == own.nodes[x].action);
        }
    }
}

/// Whether nothing is protected or to be deleted below a node that is
/// neither.
pub open spec fn stacks_apart(g: GraphView) -> bool {
    forall|p: Oid, i: int|
        g.contains(p) && !passed(g, p) && 0 <= i < g.nodes[p].children.len() ==> !passed(
            g,
            #[trigger] g.nodes[p].children[i],
        )
}

/// Whether `after` decides of each node what `before` does, or, where
/// `squash` holds, that a node which was to be picked is squashed.
pub open spec fn squashing_picks(before: GraphView, after: GraphView, squash: bool) -> bool {
    forall|x: Oid|
        (#[trigger] after.nodes[x]).action == before.nodes[x].action || (squash && before.nodes[x].action
            == Action::Pick && after.nodes[x].action == Action::Squash)
}

/// Where nothing is protected or to be deleted below a node that is neither,
/// a path from such a node holds only such nodes.
pub proof fn lemma_stack_along(g: GraphView, path: Seq<Oid>, k: int)
    requires
        g.closed(),
        stacks_apart(g),
        g.is_path(path),
        g.contains(path[0]),
        !passed(g, path[0]),
        0 <= k < path.len(),
    ensures
        !passed(g, path[k]),
    decreases k,
{
    if k > 0 {
        lemma_stack_along(g, path, k - 1);
        lemma_path_within(g, path, k - 1);
        let p = path[k - 1];
        assert(g.contains(p) && g.nodes[p].children.contains(path[k - 1 + 1]));
        let at = choose|i: int| 0 <= i < g.nodes[p].children.len() && g.nodes[p].children[i] == path[k];
        assert(!passed(g, g.nodes[p].children[at]));
    }
}

/// Work on a stack that hangs on a node which is protected or to be deleted
/// decides of no node anew but of nodes of the stack that were to be picked,
/// and leaves nothing protected or to be deleted below a node that is neither.
pub proof fn lemma_fixed_branch_picks(g: GraphView, base: Oid, id: Oid, squash: bool, depth: nat)
    requires
        g.tree(),
        g.contains(base),
        passed(g, base),
        g.nodes[base].children.contains(id),
        !passed(g, id),
        stacks_apart(g),
    ensures
        squashing_picks(g, fixed_branch(g, base, id, squash, depth), squash),
        stacks_apart(fixed_branch(g, base, id, squash, depth)),
{
    let after = fixed_branch(g, base, id, squash, depth);
    lemma_fixed_branch(g, base, id, squash, depth);
    lemma_fixed_branch_frame(g, base, id, squash, depth);
    lemma_fixed_branch_squashing(g, base, id, squash, depth);
    let at = choose|i: int| 0 <= i < g.nodes[base].children.len() && g.nodes[base].children[i] == id;
    assert(g.contains(g.nodes[base].children[at]));
    assert forall|x: Oid| g.reaches(id, x) implies !passed(g, x) by {
        let path = choose|path: Seq<Oid>| #[trigger] g.is_path(path) && path[0] == id && path.last() == x;
        lemma_stack_along(g, path, path.len() - 1);
    }
    assert forall|x: Oid|
        (#[trigger] after.nodes[x]).action == g.nodes[x].action || (squash && g.nodes[x].action
            == Action::Pick && after.nodes[x].action == Action::Squash) by {
        if after.nodes[x].action != g.nodes[x].action {
            assert(g.reaches(id, x));
            assert(!passed(g, x));
        }
    }
    assert forall|p: Oid, i: int|
        after.contains(p) && !passed(after, p) && 0 <= i < after.nodes[p].children.len() implies !passed(
        after,
        #[trigger] after.nodes[p].children[i],
    ) by {
        let c = after.nodes[p].children[i];
        assert(after.nodes[p].children.contains(c));
        assert(after.contains(c));
        assert(after.nodes[c].action == g.nodes[c].action || (g.nodes[c].action == Action::Pick
            && after.nodes[c].action == Action::Squash));
        assert(after.nodes[p].action == g.nodes[p].action || (g.nodes[p].action == Action::Pick
            && after.nodes[p].action == Action::Squash));
        if passed(g, c) {
            assert(!g.reaches(id, c));
            assert(c != g.root_id) by {
                assert(after.nodes[p].children[i] != after.root_id);
            }
            assert(g.has_parent(c));
            let up = choose|up: Oid| g.contains(up) && #[trigger] g.nodes[up].children.contains(c);
            if up == base {
                assert(after.nodes[base].children.contains(c));
                assert(p == base);
            } else {
                if g.reaches(id, up) {
                    lemma_reaches_child(g, id, up, c);
                }
                assert(after.nodes[up].children == g.nodes[up].children);
                assert(p == up);
                let k = choose|k: int| 0 <= k < g.nodes[up].children.len() && g.nodes[up].children[k] == c;
                assert(!passed(g, g.nodes[up].children[k]));
            }
        }
    }
}

/// Whether each of `ids` is protected or to be deleted.
pub open spec fn all_passed(g: GraphView, ids: Seq<Oid>) -> bool {
    forall|i: int| 0 <= i < ids.len() ==> passed(g, #[trigger] ids[i])
}

/// Passing on a decision but for picks that are squashed keeps what is
/// protected or to be deleted.
pub proof fn lemma_passed_kept(before: GraphView, after: GraphView, squash: bool, ids: Seq<Oid>)
    requires
        squashing_picks(before, after, squash),
        all_passed(before, ids),
    ensures
        all_passed(after, ids),
{
    assert forall|i: int| 0 <= i < ids.len() implies passed(after, #[trigger] ids[i]) by {
        assert(passed(before, ids[i]));
        assert(after.nodes[ids[i]].action == before.nodes[ids[i]].action);
    }
}

/// The visits of some children of a node keep to the same.
pub proof fn lemma_fix_children_picks(
    g: GraphView,
    s: Sweep<()>,
    parent: Oid,
    children: Seq<Oid>,
    squash: bool,
    depth: nat,
    level: Seq<Oid>,
)
    requires
        s.graph.tree(),
        s.graph.contains(parent),
        passed(s.graph, parent),
        s.graph.contains_all(s.next),
        children.no_duplicates(),
        forall|i: int| 0 <= i < children.len() ==> s.graph.nodes[parent].children.contains(#[trigger] children[i]),
        squashing_picks(g, s.graph, squash),
        stacks_apart(s.graph),
        all_passed(s.graph, s.next),
        all_passed(s.graph, level),
    ensures
        squashing_picks(g, visit_children(fix_visitor(squash, depth), s, parent, children).graph, squash),
        stacks_apart(visit_children(fix_visitor(squash, depth), s, parent, children).graph),
        all_passed(
            visit_children(fix_visitor(squash, depth), s, parent, children).graph,
            visit_children(fix_visitor(squash, depth), s, parent, children).next,
        ),
        all_passed(visit_children(fix_visitor(squash, depth), s, parent, children).graph, level),
    decreases children.len(),
{
    if children.len() > 0 {
        let h = s.graph;
        let child = children[0];
        let t = fix_visit(s, parent, child, squash, depth);
        assert(h.nodes[parent].children.contains(children[0]));
        let at = choose|i: int| 0 <= i < h.nodes[parent].children.len() && h.nodes[parent].children[i] == child;
        assert(h.contains(h.nodes[parent].children[at]));
        if passed(h, child) {
            assert forall|i: int| 0 <= i < t.next.len() implies passed(t.graph, #[trigger] t.next[i]) by {
                if i < s.next.len() {
                    assert(passed(h, s.next[i]));
                }
            }
        } else {
            lemma_fixed_branch(h, parent, child, squash, depth);
            lemma_fixed_branch_picks(h, parent, child, squash, depth);
            lemma_passed_kept(h, t.graph, squash, s.next);
            lemma_passed_kept(h, t.graph, squash, level);
            lemma_passed_kept(h, t.graph, squash, seq![parent]);
            assert(seq![parent][0] == parent);
            assert forall|x: Oid|
                (#[trigger] t.graph.nodes[x]).action == g.nodes[x].action || (squash && g.nodes[x].action
                    == Action::Pick && t.graph.nodes[x].action == Action::Squash) by {
                assert(h.nodes[x].action == g.nodes[x].action || (squash && g.nodes[x].action
                    == Action::Pick && h.nodes[x].action == Action::Squash));
                assert(t.graph.nodes[x].action == h.nodes[x].action || (squash && h.nodes[x].action
                    == Action::Pick && t.graph.nodes[x].action == Action::Squash));
            }
        }
        assert(t.graph.contains_all(t.next)) by {
            assert forall|i: int| 0 <= i < t.next.len() implies t.graph.contains(#[trigger] t.next[i]) by {
                if i < s.next.len() {
                    assert(h.contains(s.next[i]));
                }
            }
        }
        let later = children.drop_first();
        assert(later.no_duplicates()) by {
            assert forall|i: int, j: int| 0 <= i < later.len() && 0 <= j < later.len() && i != j implies later[i]
                != later[j] by {
                assert(children[i + 1] != children[j + 1]);
            }
        }
        assert forall|i: int| 0 <= i < later.len() implies t.graph.nodes[parent].children.contains(
            #[trigger] later[i],
        ) by {
            assert(later[i] == children[i + 1]);
            assert(children[i + 1] != children[0]);
            assert(h.nodes[parent].children.contains(children[i + 1]));
        }
        lemma_fix_children_picks(g, t, parent, later, squash, depth, level);
    }
}

/// One level of the walk keeps to the same.
pub proof fn lemma_fix_level_picks(
    g: GraphView,
    s: Sweep<()>,
    level: Seq<Oid>,
    squash: bool,
    depth: nat,
)
    requires
        s.graph.tree(),
        s.graph.contains_all(level),
        s.graph.contains_all(s.next),
        squashing_picks(g, s.graph, squash),
        stacks_apart(s.graph),
        all_passed(s.graph, s.next),
        all_passed(s.graph, level),
    ensures
        visit_level(fix_visitor(squash, depth), s, level).graph.tree(),
        visit_level(fix_visitor(squash, depth), s, level).graph.contains_all(
            visit_level(fix_visitor(squash, depth), s, level).next,
        ),
        squashing_picks(g, visit_level(fix_visitor(squash, depth), s, level).graph, squash),
        stacks_apart(visit_level(fix_visitor(squash, depth), s, level).graph),
        all_passed(
            visit_level(fix_visitor(squash, depth), s, level).graph,
            visit_level(fix_visitor(squash, depth), s, level).next,
        ),
    decreases level.len(),
{
    if level.len() > 0 {
        let parent = level[0];
        assert(s.graph.contains(level[0]));
        assert(passed(s.graph, level[0]));
        let children = s.graph.children(parent);
        assert forall|i: int| 0 <= i < children.len() implies s.graph.nodes[parent].children.contains(
            #[trigger] children[i],
        ) by {}
        let later = level.drop_first();
        assert forall|i: int| 0 <= i < later.len() implies passed(s.graph, #[trigger] later[i]) by {
            assert(later[i] == level[i + 1]);
        }
        lemma_fix_children(s, parent, children, squash, depth);
        lemma_fix_children_picks(g, s, parent, children, squash, depth, later);
        let t = visit_children(fix_visitor(squash, depth), s, parent, children);
        assert forall|i: int| 0 <= i < later.len() implies t.graph.contains(#[trigger] later[i]) by {
            assert(s.graph.contains(level[i + 1]));
        }
        lemma_fix_level_picks(g, t, later, squash, depth);
    }
}

/// The walk, level after level, keeps to the same.
pub proof fn lemma_fix_levels_picks(g: GraphView, s: Sweep<()>, left: nat, squash: bool, depth: nat)
    requires
        s.graph.tree(),
        s.graph.contains_all(s.next),
        squashing_picks(g, s.graph, squash),
        stacks_apart(s.graph),
        all_passed(s.graph, s.next),
    ensures
        squashing_picks(g, visit_levels(fix_visitor(squash, depth), s, left).graph, squash),
        stacks_apart(visit_levels(fix_visitor(squash, depth), s, left).graph),
    decreases left,
{
    if left > 0 && s.next.len() > 0 {
        let cleared = Sweep { next: Seq::empty(), ..s };
        assert(cleared.graph.contains_all(cleared.next));
        assert(all_passed(cleared.graph, cleared.next));
        lemma_fix_level_picks(g, cleared, s.next, squash, depth);
        lemma_fix_levels_picks(
            g,
            visit_level(fix_visitor(squash, depth), cleared, s.next),
            (left - 1) as nat,
            squash,
            depth,
        );
    }
}

/// On a tree that the fixup pass can work on, the pass decides of no node
/// anew, with one exception: with `Fixup::Squash`, nodes that were to be
/// picked are to be squashed.
pub proof fn lemma_fixed_squashes_picks(graph: GraphView, effect: Fixup)
    requires
        graph.tree(),
        workable(graph, effect),
    ensures
        squashing_picks(graph, fixed(graph, effect), effect == Fixup::Squash),
{
    if effect != Fixup::Ignore && graph.is_protected(graph.root_id) {
        let squash = effect == Fixup::Squash;
        assert(stacks_apart(graph)) by {
            assert forall|p: Oid, i: int|
                graph.contains(p) && !passed(graph, p) && 0 <= i < graph.nodes[p].children.len() implies !passed(
                graph,
                #[trigger] graph.nodes[p].children[i],
            ) by {
            }
        }
        let start = Sweep { graph, acc: (), next: first_level(graph) };
        assert(graph.contains_all(start.next));
        assert(all_passed(graph, start.next));
        lemma_fix_levels_picks(graph, start, graph.size(), squash, graph.size());
    } else if effect != Fixup::Ignore {
        let start = Sweep { graph, acc: (), next: first_level(graph) };
        assert(visit_levels(fix_visitor(effect == Fixup::Squash, graph.size()), start, graph.size()) == start);
    }
}

} // verus!
