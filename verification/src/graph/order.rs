//! The passes in their order: the pass that drops squashed branches leaves
//! every stack plain, with nothing in it but commits to be picked; and the
//! fixup pass can move fixups wherever a stack holds only commits to be
//! replayed.
use vstd::prelude::*;
use crate::config::Fixup;
use crate::git::oid::{with_id, Oid};
use crate::graph::acyclic::{lemma_path_falls, lemma_path_on};
use crate::graph::depth::lemma_delete_all_shape;
use crate::graph::drop::{
    delete_all, drop_below, drop_by_tree, drop_first, drop_level, drop_levels, drop_visit,
    drop_visit_children, TreeSweep,
};
use crate::graph::fixup::{
    fix_visit, fix_visitor, fixable_below, fixable_branch, fixable_children, fixable_level,
    fixable_levels, fixable_node, fixed_node, passed, plain_stacks, workable, Fixing,
};
use crate::graph::sweep::{first_level, visit_children, visit_level, Sweep};
use crate::graph::model::GraphView;
use crate::graph::node::Action;
use crate::graph::picks::stacks_apart;
use crate::graph::rebase::protected_above;

verus! {

/// Whether the stacks stand upright: no child of a node that is neither
/// protected nor to be deleted is protected or to be deleted, and nothing is
/// marked to be squashed yet.
pub open spec fn upright(g: GraphView) -> bool {
    &&& stacks_apart(g)
    &&& forall|x: Oid| g.contains(x) ==> (#[trigger] g.nodes[x]).action != Action::Squash
}

/// In a graph whose stacks stand upright every stack is plain.
pub proof fn lemma_upright_plain(g: GraphView, effect: Fixup)
    requires
        upright(g),
        g.closed(),
    ensures
        plain_stacks(g, effect),
{
    assert forall|p: Oid, i: int|
        g.contains(p) && !passed(g, p) && 0 <= i < g.nodes[p].children.len() implies crate::graph::fixup::plain(
        g,
        #[trigger] g.nodes[p].children[i],
        effect == Fixup::Squash,
    ) by {
        let c = g.nodes[p].children[i];
        assert(g.contains(c));
        assert(!passed(g, c));
        assert(g.nodes[c].action != Action::Squash);
    }
}

/// Where protection comes from above and no node is decided on but to be
/// picked or protected, the stacks stand upright.
pub proof fn lemma_fresh_upright(g: GraphView)
    requires
        protected_above(g),
        forall|x: Oid|
            g.contains(x) ==> (#[trigger] g.nodes[x]).action == Action::Pick || g.nodes[x].action
                == Action::Protected,
        g.closed(),
    ensures
        upright(g),
{
    assert forall|p: Oid, i: int|
        g.contains(p) && !passed(g, p) && 0 <= i < g.nodes[p].children.len() implies !passed(
        g,
        #[trigger] g.nodes[p].children[i],
    ) by {
        let c = g.nodes[p].children[i];
        assert(g.contains(c));
        assert(g.nodes[c].action == Action::Pick || g.nodes[c].action == Action::Protected);
    }
}

/// Whether `h` is what the search for squashed branches may have made of
/// `g` by now: the same graph with some unprotected nodes marked for deletion,
/// its stacks upright.
pub open spec fn dropping(g: GraphView, h: GraphView) -> bool {
    &&& h.sound()
    &&& g.same_shape(h)
    &&& forall|x: Oid| (#[trigger] h.nodes[x]).action == Action::Protected <==> g.nodes[x].action == Action::Protected
    &&& upright(h)
}

/// Whether `line` is the way that a search has come from the start of a
/// stack: a path whose first node is the child of a protected node, with no
/// protected node on it.
pub open spec fn hanging(g: GraphView, line: Seq<Oid>) -> bool {
    &&& g.is_path(line)
    &&& g.contains(line.last())
    &&& exists|q: Oid|
        g.contains(q) && g.nodes[q].action == Action::Protected && #[trigger] g.nodes[q].children.contains(line[0])
    &&& forall|i: int| 0 <= i < line.len() ==> g.nodes[#[trigger] line[i]].action != Action::Protected
}

/// Nodes marked for deletion are to be deleted, and no other node is
/// decided on anew.
pub proof fn lemma_delete_all_acts(g: GraphView, ids: Seq<Oid>)
    ensures
        forall|x: Oid|
            ids.contains(x) ==> (#[trigger] delete_all(g, ids).nodes[x]).action == Action::Delete,
        forall|x: Oid|
            !ids.contains(x) ==> (#[trigger] delete_all(g, ids).nodes[x]).action == g.nodes[x].action,
    decreases ids.len(),
{
    if ids.len() > 0 {
        let one = g.with_action(ids[0], Action::Delete);
        let rest = ids.drop_first();
        lemma_delete_all_acts(one, rest);
        let done = delete_all(g, ids);
        assert forall|x: Oid| ids.contains(x) implies (#[trigger] done.nodes[x]).action == Action::Delete by {
            let k = choose|k: int| 0 <= k < ids.len() && ids[k] == x;
            if k > 0 {
                assert(rest[k - 1] == x);
                assert(rest.contains(x));
            } else if !rest.contains(x) {
                assert(one.nodes[x].action == Action::Delete);
            }
        }
        assert forall|x: Oid| !ids.contains(x) implies (#[trigger] done.nodes[x]).action == g.nodes[x].action by {
            assert(x != ids[0]);
            if rest.contains(x) {
                let k = choose|k: int| 0 <= k < rest.len() && rest[k] == x;
                assert(ids[k + 1] == x);
            }
            assert(one.nodes[x].action == g.nodes[x].action);
        }
    }
}

/// The way that a search has come, marked for deletion, leaves the stacks
/// upright.
pub proof fn lemma_delete_line(g: GraphView, h: GraphView, line: Seq<Oid>)
    requires
        g.tree(),
        dropping(g, h),
        hanging(g, line),
    ensures
        dropping(g, delete_all(h, line)),
{
    let after = delete_all(h, line);
    assert(g.contains_all(line)) by {
        assert forall|i: int| 0 <= i < line.len() implies g.contains(#[trigger] line[i]) by {
            if i < line.len() - 1 {
                assert(g.contains(line[i]));
            }
        }
    }
    lemma_delete_all_shape(h, line);
    lemma_delete_all_acts(h, line);
    assert forall|x: Oid| (#[trigger] after.nodes[x]).action == Action::Protected <==> g.nodes[x].action
        == Action::Protected by {
        if line.contains(x) {
            let k = choose|k: int| 0 <= k < line.len() && line[k] == x;
            assert(g.nodes[line[k]].action != Action::Protected);
        } else {
            assert(h.nodes[x].action == Action::Protected <==> g.nodes[x].action == Action::Protected);
        }
    }
    let q = choose|q: Oid|
        g.contains(q) && g.nodes[q].action == Action::Protected && #[trigger] g.nodes[q].children.contains(
            line[0],
        );
    assert forall|p: Oid, i: int|
        after.contains(p) && !passed(after, p) && 0 <= i < after.nodes[p].children.len() implies !passed(
        after,
        #[trigger] after.nodes[p].children[i],
    ) by {
        let c = after.nodes[p].children[i];
        assert(!line.contains(p));
        assert(after.nodes[p].action == h.nodes[p].action);
        assert(h.nodes[p].children == after.nodes[p].children);
        assert(g.nodes[p].children == h.nodes[p].children);
        assert(!passed(h, h.nodes[p].children[i]));
        if line.contains(c) {
            let k = choose|k: int| 0 <= k < line.len() && line[k] == c;
            assert(g.nodes[p].children.contains(g.nodes[p].children[i]));
            if k > 0 {
                let up = line[k - 1];
                assert(g.contains(up) && g.nodes[up].children.contains(line[k - 1 + 1]));
                assert(p == up);
                assert(line.contains(line[k - 1]));
            } else {
                assert(p == q);
                assert(h.nodes[q].action == Action::Protected);
            }
        }
    }
    assert forall|x: Oid| after.contains(x) implies (#[trigger] after.nodes[x]).action != Action::Squash by {
        if !line.contains(x) {
            assert(h.nodes[x].action != Action::Squash);
        }
    }
}

/// The search for the first branch leaves the stacks upright.
pub proof fn lemma_drop_first_upright(
    g: GraphView,
    h: GraphView,
    line: Seq<Oid>,
    id: Oid,
    trees: Seq<Oid>,
    depth: nat,
)
    requires
        g.tree(),
        protected_above(g),
        dropping(g, h),
        hanging(g, line.push(id)),
    ensures
        dropping(g, drop_first(h, id, line, trees, depth)),
    decreases depth, 0nat, 0nat,
{
    let full = line.push(id);
    assert(full.last() == id);
    let rank = choose|rank: Map<Oid, nat>| g.ranked_by(rank);
    assert(!line.contains(id)) by {
        if line.contains(id) {
            let k = choose|k: int| 0 <= k < line.len() && line[k] == id;
            lemma_path_falls(g, rank, full, k, full.len() - 1);
            assert(full[k] == id);
        }
    }
    assert(with_id(line, id) == full);
    let node = h.nodes[id];
    if node.commit.is_revert() {
    } else if node.branches.len() > 0 {
        if trees.contains(node.commit.tree_id) {
            lemma_delete_line(g, h, full);
        }
    } else if depth > 0 {
        assert(node.children == g.nodes[id].children);
        assert forall|i: int| 0 <= i < node.children.len() implies g.nodes[full.last()].children.contains(
            #[trigger] node.children[i],
        ) by {}
        lemma_drop_below_upright(g, h, full, node.children, trees, (depth - 1) as nat);
    }
}

/// The same for the search in each of some children of the node that the
/// search has come to.
pub proof fn lemma_drop_below_upright(
    g: GraphView,
    h: GraphView,
    line: Seq<Oid>,
    children: Seq<Oid>,
    trees: Seq<Oid>,
    depth: nat,
)
    requires
        g.tree(),
        protected_above(g),
        dropping(g, h),
        hanging(g, line),
        forall|i: int| 0 <= i < children.len() ==> g.nodes[line.last()].children.contains(#[trigger] children[i]),
    ensures
        dropping(g, drop_below(h, children, line, trees, depth)),
    decreases depth, 1nat, children.len(),
{
    if children.len() > 0 {
        let child = children[0];
        let last = line.last();
        assert(g.nodes[last].children.contains(children[0]));
        let at = choose|i: int| 0 <= i < g.nodes[last].children.len() && g.nodes[last].children[i] == child;
        assert(g.contains(g.nodes[last].children[at]));
        lemma_path_on(g, line, child);
        let full = line.push(child);
        assert(hanging(g, full)) by {
            let q = choose|q: Oid|
                g.contains(q) && g.nodes[q].action == Action::Protected && #[trigger] g.nodes[q].children.contains(
                    line[0],
                );
            assert(g.nodes[q].children.contains(full[0]));
            assert(g.nodes[line[line.len() - 1]].action != Action::Protected);
            assert(g.nodes[g.nodes[last].children[at]].action != Action::Protected);
            assert forall|i: int| 0 <= i < full.len() implies g.nodes[#[trigger] full[i]].action
                != Action::Protected by {
                if i < line.len() {
                    assert(full[i] == line[i]);
                }
            }
        }
        lemma_drop_first_upright(g, h, line, child, trees, depth);
        assert forall|i: int| 0 <= i < children.drop_first().len() implies g.nodes[line.last()].children.contains(
            #[trigger] children.drop_first()[i],
        ) by {
            assert(children.drop_first()[i] == children[i + 1]);
        }
        lemma_drop_below_upright(
            g,
            drop_first(h, child, line, trees, depth),
            line,
            children.drop_first(),
            trees,
            depth,
        );
    }
}

/// Whether each of the nodes put aside is a protected node of `g`.
pub open spec fn aside_protected(g: GraphView, next: Seq<(Oid, Seq<Oid>)>) -> bool {
    forall|i: int|
        0 <= i < next.len() ==> g.contains((#[trigger] next[i]).0) && g.nodes[next[i].0].action
            == Action::Protected
}

/// The visits of some children of a protected node leave the stacks
/// upright.
pub proof fn lemma_drop_children_upright(
    g: GraphView,
    s: TreeSweep,
    parent: Oid,
    trees: Seq<Oid>,
    children: Seq<Oid>,
    depth: nat,
)
    requires
        g.tree(),
        protected_above(g),
        dropping(g, s.graph),
        g.contains(parent),
        g.nodes[parent].action == Action::Protected,
        forall|i: int| 0 <= i < children.len() ==> g.nodes[parent].children.contains(#[trigger] children[i]),
        aside_protected(g, s.next),
    ensures
        dropping(g, drop_visit_children(s, trees, children, depth).graph),
        aside_protected(g, drop_visit_children(s, trees, children, depth).next),
    decreases children.len(),
{
    if children.len() > 0 {
        let child = children[0];
        assert(g.nodes[parent].children.contains(children[0]));
        let at = choose|i: int| 0 <= i < g.nodes[parent].children.len() && g.nodes[parent].children[i] == child;
        assert(g.contains(g.nodes[parent].children[at]));
        let t = drop_visit(s, trees, child, depth);
        if s.graph.nodes[child].action == Action::Protected {
            assert forall|i: int| 0 <= i < t.next.len() implies g.contains((#[trigger] t.next[i]).0)
                && g.nodes[t.next[i].0].action == Action::Protected by {
                if i < s.next.len() {
                    assert(t.next[i] == s.next[i]);
                }
            }
        } else {
            let none = Seq::<Oid>::empty();
            let full = none.push(child);
            assert(g.is_path(full));
            assert(full.last() == child);
            assert(hanging(g, full));
            lemma_drop_first_upright(g, s.graph, none, child, trees, depth);
        }
        assert forall|i: int| 0 <= i < children.drop_first().len() implies g.nodes[parent].children.contains(
            #[trigger] children.drop_first()[i],
        ) by {
            assert(children.drop_first()[i] == children[i + 1]);
        }
        lemma_drop_children_upright(g, t, parent, trees, children.drop_first(), depth);
    }
}

/// One level of the walk leaves the stacks upright.
pub proof fn lemma_drop_level_upright(
    g: GraphView,
    s: TreeSweep,
    level: Seq<(Oid, Seq<Oid>)>,
    depth: nat,
)
    requires
        g.tree(),
        protected_above(g),
        dropping(g, s.graph),
        aside_protected(g, level),
        aside_protected(g, s.next),
    ensures
        dropping(g, drop_level(s, level, depth).graph),
        aside_protected(g, drop_level(s, level, depth).next),
    decreases level.len(),
{
    if level.len() > 0 {
        let id = level[0].0;
        let trees = with_id(level[0].1, s.graph.nodes[id].commit.tree_id);
        assert(g.contains(level[0].0) && g.nodes[level[0].0].action == Action::Protected);
        let children = s.graph.children(id);
        assert(children == g.nodes[id].children);
        assert forall|i: int| 0 <= i < children.len() implies g.nodes[id].children.contains(
            #[trigger] children[i],
        ) by {}
        lemma_drop_children_upright(g, s, id, trees, children, depth);
        assert forall|i: int| 0 <= i < level.drop_first().len() implies g.contains(
            (#[trigger] level.drop_first()[i]).0,
        ) && g.nodes[level.drop_first()[i].0].action == Action::Protected by {
            assert(level.drop_first()[i] == level[i + 1]);
        }
        lemma_drop_level_upright(
            g,
            drop_visit_children(s, trees, children, depth),
            level.drop_first(),
            depth,
        );
    }
}

/// The walk, level after level, leaves the stacks upright.
pub proof fn lemma_drop_levels_upright(g: GraphView, s: TreeSweep, left: nat, depth: nat)
    requires
        g.tree(),
        protected_above(g),
        dropping(g, s.graph),
        aside_protected(g, s.next),
    ensures
        dropping(g, drop_levels(s, left, depth).graph),
    decreases left,
{
    if left > 0 && s.next.len() > 0 {
        let cleared = TreeSweep { next: Seq::empty(), ..s };
        lemma_drop_level_upright(g, cleared, s.next, depth);
        lemma_drop_levels_upright(g, drop_level(cleared, s.next, depth), (left - 1) as nat, depth);
    }
}

/// In a tree in which protection comes from above and the stacks stand
/// upright, the pass that drops what upstream has squashed marks no protected
/// node and leaves the stacks upright and plain.
pub proof fn lemma_drop_leaves_plain(g: GraphView, effect: Fixup)
    requires
        g.tree(),
        protected_above(g),
        upright(g),
    ensures
        upright(drop_by_tree(g)),
        protected_above(drop_by_tree(g)),
        forall|x: Oid| (#[trigger] drop_by_tree(g).nodes[x]).action == Action::Protected <==> g.nodes[x].action == Action::Protected,
        plain_stacks(drop_by_tree(g), effect),
{
    let first = if g.is_protected(g.root_id) {
        seq![(g.root_id, Seq::<Oid>::empty())]
    } else {
        Seq::empty()
    };
    let start = TreeSweep { graph: g, next: first };
    lemma_drop_levels_upright(g, start, g.size(), g.size());
    let after = drop_by_tree(g);
    assert(protected_above(after)) by {
        assert forall|id: Oid, i: int|
            after.contains(id) && 0 <= i < after.nodes[id].children.len() && after.nodes[#[trigger] after.nodes[id].children[i]].action
                == Action::Protected implies after.nodes[id].action == Action::Protected by {
            assert(after.nodes[id].children == g.nodes[id].children);
            assert(g.nodes[g.nodes[id].children[i]].action == Action::Protected);
        }
    }
    lemma_upright_plain(after, effect);
}

/// Where fixups are only moved, the work on a node can always be done.
pub proof fn lemma_move_node(s: Fixing, base: Oid, id: Oid, depth: nat)
    ensures
        fixable_node(s, base, id, false, depth),
    decreases depth, 0nat, 0nat,
{
    if depth > 0 {
        lemma_move_below(s, id, s.graph.nodes[id].children, (depth - 1) as nat);
    }
}

/// The same for each of some children in turn.
pub proof fn lemma_move_below(s: Fixing, base: Oid, children: Seq<Oid>, depth: nat)
    ensures
        fixable_below(s, base, children, false, depth),
    decreases depth, 1nat, children.len(),
{
    if children.len() > 0 {
        lemma_move_node(s, base, children[0], depth);
        lemma_move_below(fixed_node(s, base, children[0], false, depth), base, children.drop_first(), depth);
    }
}

/// The same for the stacks below some children of a node.
pub proof fn lemma_move_children(s: Sweep<()>, parent: Oid, children: Seq<Oid>, depth: nat)
    ensures
        fixable_children(s, parent, children, false, depth),
    decreases children.len(),
{
    if children.len() > 0 {
        let start = Fixing { graph: s.graph, outstanding: crate::graph::outstanding::Entries::empty() };
        lemma_move_below(start, children[0], s.graph.nodes[children[0]].children, depth);
        assert(fixable_branch(s.graph, parent, children[0], false, depth));
        lemma_move_children(fix_visit(s, parent, children[0], false, depth), parent, children.drop_first(), depth);
    }
}

/// The same for a level.
pub proof fn lemma_move_level(s: Sweep<()>, level: Seq<Oid>, depth: nat)
    ensures
        fixable_level(s, level, false, depth),
    decreases level.len(),
{
    if level.len() > 0 {
        let children = s.graph.children(level[0]);
        lemma_move_children(s, level[0], children, depth);
        lemma_move_level(
            visit_children(fix_visitor(false, depth), s, level[0], children),
            level.drop_first(),
            depth,
        );
    }
}

/// The same level after level.
pub proof fn lemma_move_levels(s: Sweep<()>, left: nat, depth: nat)
    ensures
        fixable_levels(s, left, false, depth),
    decreases left,
{
    if left > 0 && s.next.len() > 0 {
        let cleared = Sweep { next: Seq::empty(), ..s };
        lemma_move_level(cleared, s.next, depth);
        lemma_move_levels(visit_level(fix_visitor(false, depth), cleared, s.next), (left - 1) as nat, depth);
    }
}

/// The fixup pass can move fixups in every graph in which no child of a
/// node that is neither protected nor to be deleted is protected or to be
/// deleted.
pub proof fn lemma_move_workable(g: GraphView)
    requires
        stacks_apart(g),
    ensures
        workable(g, Fixup::Move),
{
    lemma_move_levels(Sweep { graph: g, acc: (), next: first_level(g) }, g.size(), g.size());
}

} // verus!
