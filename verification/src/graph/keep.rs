//! What trimming keeps: in a tree, every node that is reached from the root
//! over protected nodes stays where it is.
use vstd::prelude::*;
use crate::git::oid::{lemma_without_id, Oid};
use crate::graph::model::{lemma_kept, GraphView};
use crate::graph::node::Action;
use crate::graph::rebase::{on_frontier, protected_path};
use crate::graph::sweep::{first_level, visit_children, visit_level, visit_levels, Names, Sweep};
use crate::graph::tree::lemma_remaining_tree;
use crate::graph::trim::{trim_visit, trim_visitor, trimmed};
use crate::graph::whole::lemma_on_the_way;

verus! {

/// Whether every node that is reached from the root of `g` over protected
/// nodes is so reached in `h`.
pub open spec fn frontier_kept(g: GraphView, h: GraphView) -> bool {
    forall|x: Oid| #[trigger] on_frontier(g, x) ==> on_frontier(h, x)
}

/// Taking the subtree of an unprotected node out of a tree leaves every
/// path from the root over protected nodes as it is.
pub proof fn lemma_trim_keeps_path(h: GraphView, parent: Oid, child: Oid, path: Seq<Oid>)
    requires
        h.tree(),
        h.contains(parent),
        h.nodes[parent].children.contains(child),
        h.nodes[child].action != Action::Protected,
        protected_path(h, path),
    ensures
        protected_path(h.remaining(parent, child), path),
{
    let kids = h.nodes[parent].children;
    let cut = h.cut(parent, child);
    let gone = cut.below(child);
    let left = h.remaining(parent, child);
    lemma_without_id(kids, child);
    assert(cut.nodes.dom() =~= h.nodes.dom());
    assert forall|k: int| 0 <= k < path.len() implies !gone.contains(#[trigger] path[k]) by {
        if gone.contains(path[k]) {
            let way = choose|way: Seq<Oid>| #[trigger] cut.is_path(way) && way[0] == child && way.last() == path[k];
            assert forall|i: int| 0 <= i < way.len() - 1 implies h.contains(#[trigger] way[i])
                && h.nodes[way[i]].children.contains(way[i + 1]) by {
                assert(cut.contains(way[i]) && cut.nodes[way[i]].children.contains(way[i + 1]));
            }
            assert(h.is_path(way));
            lemma_on_the_way(h, path, k, way);
            let j = choose|j: int| 0 <= j <= k && #[trigger] path[j] == way[0];
            assert(h.is_protected(path[j]));
        }
    }
    assert forall|k: int| 0 <= k < path.len() implies left.is_protected(#[trigger] path[k]) by {
        assert(h.is_protected(path[k]));
        assert(!gone.contains(path[k]));
        assert(cut.contains(path[k]));
    }
    assert forall|k: int| 0 <= k < path.len() - 1 implies left.contains(#[trigger] path[k])
        && left.nodes[path[k]].children.contains(path[k + 1]) by {
        let x = path[k];
        let y = path[k + 1];
        assert(left.is_protected(path[k]));
        assert(h.contains(x) && h.nodes[x].children.contains(y));
        assert(h.is_protected(path[k + 1]));
        assert(y != child);
        assert(cut.nodes[x].children.contains(y));
        assert(!gone.contains(path[k + 1]));
        lemma_kept(cut.nodes[x].children, gone);
    }
}

/// One visit of the pass keeps the tree and the nodes reached from the
/// root over protected nodes.
pub proof fn lemma_trim_visit_keeps(
    g: GraphView,
    s: Sweep<Names>,
    parent: Oid,
    child: Oid,
    cutoff: i64,
    depth: nat,
)
    requires
        s.graph.tree(),
        frontier_kept(g, s.graph),
    ensures
        trim_visit(s, parent, child, cutoff, depth).graph.tree(),
        frontier_kept(g, trim_visit(s, parent, child, cutoff, depth).graph),
{
    let t = trim_visit(s, parent, child, cutoff, depth);
    let h = s.graph;
    if t.graph != h {
        lemma_remaining_tree(h, parent, child);
        assert forall|x: Oid| #[trigger] on_frontier(g, x) implies on_frontier(t.graph, x) by {
            assert(on_frontier(h, x));
            let path = choose|path: Seq<Oid>| #[trigger] protected_path(h, path) && path.last() == x;
            lemma_trim_keeps_path(h, parent, child, path);
        }
    }
}

/// The visits of some children keep the same.
pub proof fn lemma_trim_children_keep(
    g: GraphView,
    s: Sweep<Names>,
    parent: Oid,
    children: Seq<Oid>,
    cutoff: i64,
    depth: nat,
)
    requires
        s.graph.tree(),
        frontier_kept(g, s.graph),
    ensures
        visit_children(trim_visitor(cutoff, depth), s, parent, children).graph.tree(),
        frontier_kept(g, visit_children(trim_visitor(cutoff, depth), s, parent, children).graph),
    decreases children.len(),
{
    if children.len() > 0 {
        lemma_trim_visit_keeps(g, s, parent, children[0], cutoff, depth);
        lemma_trim_children_keep(
            g,
            trim_visit(s, parent, children[0], cutoff, depth),
            parent,
            children.drop_first(),
            cutoff,
            depth,
        );
    }
}

/// One level keeps the same.
pub proof fn lemma_trim_level_keeps(g: GraphView, s: Sweep<Names>, level: Seq<Oid>, cutoff: i64, depth: nat)
    requires
        s.graph.tree(),
        frontier_kept(g, s.graph),
    ensures
        visit_level(trim_visitor(cutoff, depth), s, level).graph.tree(),
        frontier_kept(g, visit_level(trim_visitor(cutoff, depth), s, level).graph),
    decreases level.len(),
{
    if level.len() > 0 {
        let children = s.graph.children(level[0]);
        lemma_trim_children_keep(g, s, level[0], children, cutoff, depth);
        lemma_trim_level_keeps(
            g,
            visit_children(trim_visitor(cutoff, depth), s, level[0], children),
            level.drop_first(),
            cutoff,
            depth,
        );
    }
}

/// The walk keeps the same, level after level.
pub proof fn lemma_trim_levels_keep(g: GraphView, s: Sweep<Names>, left: nat, cutoff: i64, depth: nat)
    requires
        s.graph.tree(),
        frontier_kept(g, s.graph),
    ensures
        visit_levels(trim_visitor(cutoff, depth), s, left).graph.tree(),
        frontier_kept(g, visit_levels(trim_visitor(cutoff, depth), s, left).graph),
    decreases left,
{
    if left > 0 && s.next.len() > 0 {
        let cleared = Sweep { next: Seq::empty(), ..s };
        lemma_trim_level_keeps(g, cleared, s.next, cutoff, depth);
        lemma_trim_levels_keep(
            g,
            visit_level(trim_visitor(cutoff, depth), cleared, s.next),
            (left - 1) as nat,
            cutoff,
            depth,
        );
    }
}

/// Trimming a tree takes out no node that is reached from the root over
/// protected nodes: each of them stays, protected, and reached as before.
pub proof fn lemma_trim_keeps_frontier(g: GraphView, cutoff: i64)
    requires
        g.tree(),
    ensures
        forall|x: Oid|
            #[trigger] on_frontier(g, x) ==> trimmed(g, cutoff).graph.is_protected(x) && on_frontier(
                trimmed(g, cutoff).graph,
                x,
            ),
{
    let start = Sweep { graph: g, acc: Seq::<Seq<char>>::empty(), next: first_level(g) };
    lemma_trim_levels_keep(g, start, g.size(), cutoff, g.size());
    let after = trimmed(g, cutoff).graph;
    assert forall|x: Oid| #[trigger] on_frontier(g, x) implies after.is_protected(x) && on_frontier(after, x) by {
        assert(on_frontier(after, x));
        let path = choose|path: Seq<Oid>| #[trigger] protected_path(after, path) && path.last() == x;
        assert(after.is_protected(path[path.len() - 1]));
    }
}

} // verus!
