//! The order in which the passes walk the graph: level by level from the
//! root, each node's children in the order the node names them. This is the
//! order in which a first-in-first-out queue would hand the nodes out.
use vstd::prelude::*;
use crate::git::branch::branch_names;
use crate::git::oid::Oid;
use crate::graph::model::GraphView;

verus! {

/// Where a walk stands: the graph as it is by now, what has been collected,
/// and the nodes put aside for the next level.
pub struct Sweep<A> {
    pub graph: GraphView,
    pub acc: A,
    pub next: Seq<Oid>,
}

/// Branch names.
pub type Names = Seq<Seq<char>>;

/// `visit` applied to each of `children` in turn, as children of `parent`.
pub open spec fn visit_children<A>(
    visit: spec_fn(Sweep<A>, Oid, Oid) -> Sweep<A>,
    s: Sweep<A>,
    parent: Oid,
    children: Seq<Oid>,
) -> Sweep<A>
    decreases children.len(),
{
    if children.len() == 0 {
        s
    } else {
        visit_children(visit, visit(s, parent, children[0]), parent, children.drop_first())
    }
}

/// Each node of `level` in turn: `visit` applied to the children it has
/// when its turn comes.
pub open spec fn visit_level<A>(
    visit: spec_fn(Sweep<A>, Oid, Oid) -> Sweep<A>,
    s: Sweep<A>,
    level: Seq<Oid>,
) -> Sweep<A>
    decreases level.len(),
{
    if level.len() == 0 {
        s
    } else {
        visit_level(
            visit,
            visit_children(visit, s, level[0], s.graph.children(level[0])),
            level.drop_first(),
        )
    }
}

/// Level after level, starting with the nodes put aside in `s`, until a
/// level is empty or `depth` levels are done.
pub open spec fn visit_levels<A>(
    visit: spec_fn(Sweep<A>, Oid, Oid) -> Sweep<A>,
    s: Sweep<A>,
    depth: nat,
) -> Sweep<A>
    decreases depth,
{
    if depth == 0 || s.next.len() == 0 {
        s
    } else {
        visit_levels(
            visit,
            visit_level(visit, Sweep { next: Seq::empty(), ..s }, s.next),
            (depth - 1) as nat,
        )
    }
}

/// The children of the nodes of `level`, in order.
pub open spec fn level_below(graph: GraphView, level: Seq<Oid>) -> Seq<Oid>
    decreases level.len(),
{
    if level.len() == 0 {
        Seq::empty()
    } else {
        graph.children(level[0]) + level_below(graph, level.drop_first())
    }
}

/// The nodes of `level`, then their children, then theirs, `depth` levels
/// at most.
pub open spec fn breadth_first_from(graph: GraphView, level: Seq<Oid>, depth: nat) -> Seq<Oid>
    decreases depth,
{
    if depth == 0 || level.len() == 0 {
        Seq::empty()
    } else {
        level + breadth_first_from(graph, level_below(graph, level), (depth - 1) as nat)
    }
}

/// The nodes of `graph` breadth first: the root, then its children, then
/// theirs, through as many levels as the graph has nodes.
pub open spec fn breadth_first(graph: GraphView) -> Seq<Oid> {
    breadth_first_from(graph, seq![graph.root_id], graph.size())
}

/// The names of the branches at the nodes `ids`, in order.
pub open spec fn names_at(graph: GraphView, ids: Seq<Oid>) -> Names
    decreases ids.len(),
{
    if ids.len() == 0 {
        Seq::empty()
    } else {
        branch_names(graph.nodes[ids[0]].branches) + names_at(graph, ids.drop_first())
    }
}

/// The level that a walk over the protected part of `graph` starts with: the
/// root if it is protected, else nothing.
pub open spec fn first_level(graph: GraphView) -> Seq<Oid> {
    if graph.is_protected(graph.root_id) {
        seq![graph.root_id]
    } else {
        Seq::empty()
    }
}

/// A whole walk from the root of `graph`, through as many levels as the graph
/// has nodes: no path without a cycle is longer.
pub open spec fn sweep<A>(
    visit: spec_fn(Sweep<A>, Oid, Oid) -> Sweep<A>,
    graph: GraphView,
    acc: A,
) -> Sweep<A> {
    visit_levels(visit, Sweep { graph, acc, next: first_level(graph) }, graph.size())
}

} // verus!
