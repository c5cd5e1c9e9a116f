//! Graphs without cycles. The walks of the passes go no deeper than the
//! graph has nodes; in a graph without cycles no path is longer than that, so
//! there they see all there is to see.
use vstd::prelude::*;
use crate::git::oid::Oid;
use crate::graph::model::{
    lemma_detach, lemma_reaches_child, lemma_reaches_on, lemma_reaches_self, lemma_subpath,
    GraphView,
};
use crate::graph::trim::{trim_visitor, trimmed};
use crate::graph::node::NodeView;
use crate::graph::protect::{
    foreign_visitor, grown, large_visitor, lemma_grown_shape, lemma_mark_levels_shape,
    mark_protected, old_visitor, protect_foreign, protect_large, protect_old, subtree_old,
    subtree_personal,
};
use crate::graph::script::script_visitor;
use crate::graph::sweep::Names;
use crate::graph::script::{child_scripts, node_script};
use crate::graph::sweep::{first_level, sweep, visit_children, visit_level, visit_levels, Sweep};

verus! {

impl GraphView {
    /// Whether `rank` falls along every edge.
    pub open spec fn ranked_by(self, rank: Map<Oid, nat>) -> bool {
        forall|id: Oid, i: int|
            self.contains(id) && 0 <= i < self.nodes[id].children.len() ==> rank[#[trigger] self.nodes[id].children[i]]
                < rank[id]
    }

    /// Whether the graph has no cycle: its nodes can be ranked so that each
    /// node ranks above its children.
    pub open spec fn acyclic(self) -> bool {
        exists|rank: Map<Oid, nat>| self.ranked_by(rank)
    }
}

/// A graph of one node without children has no cycle.
pub proof fn lemma_single_acyclic(g: GraphView)
    requires
        forall|id: Oid| g.contains(id) ==> (#[trigger] g.nodes[id]).children.len() == 0,
    ensures
        g.acyclic(),
{
    let rank = Map::<Oid, nat>::total(|id: Oid| 0nat);
    assert(g.ranked_by(rank));
}

/// A new leaf makes no cycle.
pub proof fn lemma_leaf_acyclic(g: GraphView, node: NodeView, parent: Oid)
    requires
        g.sound(),
        g.acyclic(),
        g.contains(parent),
        !g.contains(node.commit.id),
        node.children.len() == 0,
    ensures
        g.with_node(node.commit.id, node).with_children(
            parent,
            g.nodes[parent].children.push(node.commit.id),
        ).acyclic(),
{
    let id = node.commit.id;
    let after = g.with_node(id, node).with_children(parent, g.nodes[parent].children.push(id));
    let old_rank = choose|rank: Map<Oid, nat>| g.ranked_by(rank);
    let rank = Map::<Oid, nat>::total(
        |x: Oid|
            if x == id {
                0nat
            } else {
                old_rank[x] + 1
            },
    );
    assert forall|x: Oid, i: int|
        after.contains(x) && 0 <= i < after.nodes[x].children.len() implies rank[#[trigger] after.nodes[x].children[i]]
        < rank[x] by {
        let c = after.nodes[x].children[i];
        if x == parent {
            if i < g.nodes[parent].children.len() {
                assert(c == g.nodes[parent].children[i]);
                assert(g.contains(g.nodes[parent].children[i]));
                assert(old_rank[g.nodes[parent].children[i]] < old_rank[parent]);
            }
        } else {
            assert(x != id);
            assert(c == g.nodes[x].children[i]);
            assert(g.contains(g.nodes[x].children[i]));
            assert(old_rank[g.nodes[x].children[i]] < old_rank[x]);
        }
    }
    assert(after.ranked_by(rank));
}

/// A graph with the edges of one without cycles has none.
pub proof fn lemma_same_shape_acyclic(before: GraphView, after: GraphView)
    requires
        before.acyclic(),
        before.same_shape(after),
    ensures
        after.acyclic(),
{
    let rank = choose|rank: Map<Oid, nat>| before.ranked_by(rank);
    assert forall|x: Oid, i: int|
        after.contains(x) && 0 <= i < after.nodes[x].children.len() implies rank[#[trigger] after.nodes[x].children[i]]
        < rank[x] by {
        assert(before.nodes[x].children == after.nodes[x].children);
        assert(rank[before.nodes[x].children[i]] < rank[x]);
    }
    assert(after.ranked_by(rank));
}

/// A part of a graph without cycles has none.
pub proof fn lemma_trimmed_acyclic(before: GraphView, after: GraphView)
    requires
        before.acyclic(),
        before.trimmed_to(after),
    ensures
        after.acyclic(),
{
    let rank = choose|rank: Map<Oid, nat>| before.ranked_by(rank);
    assert forall|x: Oid, i: int|
        after.contains(x) && 0 <= i < after.nodes[x].children.len() implies rank[#[trigger] after.nodes[x].children[i]]
        < rank[x] by {
        let c = after.nodes[x].children[i];
        assert(before.nodes[x].children.contains(c));
        let j = choose|j: int| 0 <= j < before.nodes[x].children.len() && before.nodes[x].children[j] == c;
        assert(rank[before.nodes[x].children[j]] < rank[x]);
    }
    assert(after.ranked_by(rank));
}

/// Along a path the rank falls.
pub proof fn lemma_path_falls(g: GraphView, rank: Map<Oid, nat>, path: Seq<Oid>, i: int, j: int)
    requires
        g.ranked_by(rank),
        g.is_path(path),
        0 <= i < j < path.len(),
    ensures
        rank[path[j]] < rank[path[i]],
    decreases j - i,
{
    let x = path[j - 1];
    assert(g.contains(x) && g.nodes[x].children.contains(path[j - 1 + 1]));
    let k = choose|k: int| 0 <= k < g.nodes[x].children.len() && g.nodes[x].children[k] == path[j];
    assert(rank[g.nodes[x].children[k]] < rank[x]);
    if i < j - 1 {
        lemma_path_falls(g, rank, path, i, j - 1);
    }
}

/// A path that starts in the graph stays in it.
pub proof fn lemma_path_within(g: GraphView, path: Seq<Oid>, i: int)
    requires
        g.closed(),
        g.is_path(path),
        g.contains(path[0]),
        0 <= i < path.len(),
    ensures
        g.contains(path[i]),
    decreases i,
{
    if i > 0 {
        lemma_path_within(g, path, i - 1);
        let x = path[i - 1];
        assert(g.nodes[x].children.contains(path[i - 1 + 1]));
        let k = choose|k: int| 0 <= k < g.nodes[x].children.len() && g.nodes[x].children[k] == path[i];
        assert(g.contains(g.nodes[x].children[k]));
    }
}

/// In a graph without cycles no path has more nodes than the graph.
pub proof fn lemma_path_short(g: GraphView, path: Seq<Oid>)
    requires
        g.sound(),
        g.acyclic(),
        g.is_path(path),
        g.contains(path[0]),
    ensures
        path.len() <= g.size(),
{
    let rank = choose|rank: Map<Oid, nat>| g.ranked_by(rank);
    assert forall|i: int, j: int| 0 <= i < path.len() && 0 <= j < path.len() && i != j implies path[i]
        != path[j] by {
        if i < j {
            lemma_path_falls(g, rank, path, i, j);
        } else {
            lemma_path_falls(g, rank, path, j, i);
        }
    }
    path.unique_seq_to_set();
    assert forall|x: Oid| path.to_set().contains(x) implies g.nodes.dom().contains(x) by {
        let i = choose|i: int| 0 <= i < path.len() && path[i] == x;
        lemma_path_within(g, path, i);
    }
    vstd::set_lib::lemma_len_subset(path.to_set(), g.nodes.dom());
}

/// A path goes on to a child of its last node.
pub proof fn lemma_path_on(g: GraphView, path: Seq<Oid>, child: Oid)
    requires
        g.is_path(path),
        g.contains(path.last()),
        g.nodes[path.last()].children.contains(child),
    ensures
        g.is_path(path.push(child)),
        path.push(child)[0] == path[0],
        path.push(child).last() == child,
{
    let longer = path.push(child);
    assert forall|i: int| 0 <= i < longer.len() - 1 implies g.contains(#[trigger] longer[i])
        && g.nodes[longer[i]].children.contains(longer[i + 1]) by {
        if i < path.len() - 1 {
            assert(g.contains(path[i]));
            assert(longer[i + 1] == path[i + 1]);
        }
    }
}

/// What a node reaches besides itself, one of its children reaches.
pub proof fn lemma_reached_by_child(g: GraphView, id: Oid, x: Oid)
    requires
        g.reaches(id, x),
        x != id,
    ensures
        g.contains(id),
        exists|i: int|
            0 <= i < g.nodes[id].children.len() && g.reaches(#[trigger] g.nodes[id].children[i], x),
{
    let path = choose|path: Seq<Oid>| #[trigger] g.is_path(path) && path[0] == id && path.last() == x;
    assert(path.len() > 1);
    assert(g.contains(path[0]) && g.nodes[path[0]].children.contains(path[0int + 1]));
    let i = choose|i: int| 0 <= i < g.nodes[id].children.len() && g.nodes[id].children[i] == path[1];
    lemma_subpath(g, path, 1);
    assert(g.reaches(g.nodes[id].children[i], x));
}

/// At the end of a path that is as long as can be, `depth` steps are as
/// good as any: a subtree counts as old exactly when every commit in it is.
proof fn lemma_old_along(g: GraphView, path: Seq<Oid>, cutoff: i64, depth: nat)
    requires
        g.sound(),
        g.acyclic(),
        g.is_path(path),
        g.contains(path[0]),
        depth + path.len() >= g.size(),
    ensures
        subtree_old(g, path.last(), cutoff, depth) <==> forall|x: Oid|
            g.below(path.last()).contains(x) ==> g.nodes[x].commit.time <= cutoff,
    decreases depth,
{
    let id = path.last();
    let kids = g.nodes[id].children;
    lemma_path_within(g, path, path.len() - 1);
    lemma_reaches_self(g, id);
    assert(g.below(id).contains(id));
    if depth == 0 {
        lemma_path_short(g, path);
        if kids.len() > 0 {
            assert(kids.contains(kids[0]));
            lemma_path_on(g, path, kids[0]);
            lemma_path_short(g, path.push(kids[0]));
        }
        assert forall|x: Oid| g.below(id).contains(x) implies x == id by {
            if x != id {
                lemma_reached_by_child(g, id, x);
            }
        }
    } else {
        assert forall|i: int| 0 <= i < kids.len() implies (subtree_old(
            g,
            #[trigger] kids[i],
            cutoff,
            (depth - 1) as nat,
        ) <==> forall|x: Oid| g.below(kids[i]).contains(x) ==> g.nodes[x].commit.time <= cutoff) by {
            assert(kids.contains(kids[i]));
            lemma_path_on(g, path, kids[i]);
            lemma_old_along(g, path.push(kids[i]), cutoff, (depth - 1) as nat);
        }
        if subtree_old(g, id, cutoff, depth) {
            assert forall|x: Oid| g.below(id).contains(x) implies g.nodes[x].commit.time <= cutoff by {
                if x != id {
                    lemma_reached_by_child(g, id, x);
                    let i = choose|i: int|
                        0 <= i < kids.len() && g.reaches(#[trigger] g.nodes[id].children[i], x);
                    assert(subtree_old(g, kids[i], cutoff, (depth - 1) as nat));
                    assert(g.below(kids[i]).contains(x));
                }
            }
        }
        if forall|x: Oid| g.below(id).contains(x) ==> g.nodes[x].commit.time <= cutoff {
            assert forall|i: int| 0 <= i < kids.len() implies subtree_old(
                g,
                #[trigger] g.nodes[id].children[i],
                cutoff,
                (depth - 1) as nat,
            ) by {
                assert forall|x: Oid| g.below(kids[i]).contains(x) implies g.nodes[x].commit.time
                    <= cutoff by {
                    assert(kids.contains(kids[i]));
                    lemma_reaches_child(g, id, id, kids[i]);
                    lemma_reaches_on(g, id, kids[i], x);
                    assert(g.below(id).contains(x));
                }
            }
        }
    }
}

/// In a graph without cycles, a look as deep as the graph has nodes sees the
/// whole subtree: the subtree counts as old exactly when every commit in it is
/// of the cutoff or before.
pub proof fn lemma_subtree_old_everywhere(g: GraphView, id: Oid, cutoff: i64, depth: nat)
    requires
        g.sound(),
        g.acyclic(),
        g.contains(id),
        depth + 1 >= g.size(),
    ensures
        subtree_old(g, id, cutoff, depth) <==> forall|x: Oid|
            g.below(id).contains(x) ==> g.nodes[x].commit.time <= cutoff,
{
    let path = seq![id];
    assert(g.is_path(path));
    assert(path.last() == id);
    lemma_old_along(g, path, cutoff, depth);
}

proof fn lemma_personal_along(g: GraphView, path: Seq<Oid>, user: Seq<char>, depth: nat)
    requires
        g.sound(),
        g.acyclic(),
        g.is_path(path),
        g.contains(path[0]),
        depth + path.len() >= g.size(),
    ensures
        subtree_personal(g, path.last(), user, depth) <==> exists|x: Oid|
            #[trigger] g.below(path.last()).contains(x) && g.nodes[x].commit.is_by(user),
    decreases depth,
{
    let id = path.last();
    let kids = g.nodes[id].children;
    lemma_path_within(g, path, path.len() - 1);
    lemma_reaches_self(g, id);
    assert(g.below(id).contains(id));
    if depth == 0 {
        lemma_path_short(g, path);
        if kids.len() > 0 {
            assert(kids.contains(kids[0]));
            lemma_path_on(g, path, kids[0]);
            lemma_path_short(g, path.push(kids[0]));
        }
        assert forall|x: Oid| g.below(id).contains(x) implies x == id by {
            if x != id {
                lemma_reached_by_child(g, id, x);
            }
        }
    } else {
        assert forall|i: int| 0 <= i < kids.len() implies (subtree_personal(
            g,
            #[trigger] kids[i],
            user,
            (depth - 1) as nat,
        ) <==> exists|x: Oid| #[trigger] g.below(kids[i]).contains(x) && g.nodes[x].commit.is_by(user)) by {
            assert(kids.contains(kids[i]));
            lemma_path_on(g, path, kids[i]);
            lemma_personal_along(g, path.push(kids[i]), user, (depth - 1) as nat);
        }
        if subtree_personal(g, id, user, depth) {
            if !g.nodes[id].commit.is_by(user) {
                let i = choose|i: int|
                    0 <= i < kids.len() && subtree_personal(
                        g,
                        #[trigger] g.nodes[id].children[i],
                        user,
                        (depth - 1) as nat,
                    );
                assert(subtree_personal(g, kids[i], user, (depth - 1) as nat));
                let x = choose|x: Oid| #[trigger] g.below(kids[i]).contains(x) && g.nodes[x].commit.is_by(user);
                assert(kids.contains(kids[i]));
                lemma_reaches_child(g, id, id, kids[i]);
                lemma_reaches_on(g, id, kids[i], x);
                assert(g.below(id).contains(x));
            }
        }
        if exists|x: Oid| #[trigger] g.below(id).contains(x) && g.nodes[x].commit.is_by(user) {
            let x = choose|x: Oid| #[trigger] g.below(id).contains(x) && g.nodes[x].commit.is_by(user);
            if x != id {
                lemma_reached_by_child(g, id, x);
                let i = choose|i: int|
                    0 <= i < kids.len() && g.reaches(#[trigger] g.nodes[id].children[i], x);
                assert(g.below(kids[i]).contains(x));
                assert(subtree_personal(g, g.nodes[id].children[i], user, (depth - 1) as nat));
            }
        }
    }
}

/// In a graph without cycles, a look as deep as the graph has nodes sees the
/// whole subtree: the subtree counts as personal exactly when `user` wrote or
/// committed some commit in it.
pub proof fn lemma_subtree_personal_somewhere(g: GraphView, id: Oid, user: Seq<char>, depth: nat)
    requires
        g.sound(),
        g.acyclic(),
        g.contains(id),
        depth + 1 >= g.size(),
    ensures
        subtree_personal(g, id, user, depth) <==> exists|x: Oid|
            #[trigger] g.below(id).contains(x) && g.nodes[x].commit.is_by(user),
{
    let path = seq![id];
    assert(g.is_path(path));
    assert(path.last() == id);
    lemma_personal_along(g, path, user, depth);
}

impl GraphView {
    /// Whether the graph is a part of `whole`: it has the same root, its
    /// nodes are nodes of `whole`, and each names as children only what it names
    /// there.
    pub open spec fn part_of(self, whole: GraphView) -> bool {
        &&& self.root_id == whole.root_id
        &&& self.nodes.dom().subset_of(whole.nodes.dom())
        &&& forall|id: Oid, i: int|
            self.contains(id) && 0 <= i < self.nodes[id].children.len() ==> whole.nodes[id].children.contains(
                #[trigger] self.nodes[id].children[i],
            )
    }

    /// Whether some path of `count` nodes ends at `id`.
    pub open spec fn ends_path(self, id: Oid, count: nat) -> bool {
        exists|path: Seq<Oid>|
            #[trigger] self.is_path(path) && self.contains(path[0]) && path.len() == count
                && path.last() == id
    }

    /// Whether some path of `count` nodes ends at each of `ids`.
    pub open spec fn end_paths(self, ids: Seq<Oid>, count: nat) -> bool {
        forall|i: int| 0 <= i < ids.len() ==> self.ends_path(#[trigger] ids[i], count)
    }
}

/// A part of a part is a part.
pub proof fn lemma_part_of_part(a: GraphView, b: GraphView, c: GraphView)
    requires
        a.part_of(b),
        b.part_of(c),
    ensures
        a.part_of(c),
{
    assert forall|id: Oid, i: int|
        a.contains(id) && 0 <= i < a.nodes[id].children.len() implies c.nodes[id].children.contains(
        #[trigger] a.nodes[id].children[i],
    ) by {
        let x = a.nodes[id].children[i];
        assert(b.nodes[id].children.contains(x));
        let j = choose|j: int| 0 <= j < b.nodes[id].children.len() && b.nodes[id].children[j] == x;
        assert(c.nodes[id].children.contains(b.nodes[id].children[j]));
    }
}

/// Whether `visit` adds no edge: of a well-formed graph it makes a
/// well-formed part of it, and it puts aside at most the child. Unless
/// `lenient`, this is asked only where the graph holds the child, and then
/// `visit` is to keep every node.
pub open spec fn quiet<A>(visit: spec_fn(Sweep<A>, Oid, Oid) -> Sweep<A>, lenient: bool) -> bool {
    forall|s: Sweep<A>, parent: Oid, child: Oid|
        s.graph.wf() && (lenient || s.graph.contains(child)) ==> {
            let t = #[trigger] visit(s, parent, child);
            &&& t.graph.wf()
            &&& t.graph.part_of(s.graph)
            &&& (lenient || t.graph.nodes.dom() == s.graph.nodes.dom())
            &&& (t.next == s.next || t.next == s.next.push(child))
        }
}

/// A path of one node more ends at a child of the end of a path.
pub proof fn lemma_ends_path_on(g: GraphView, id: Oid, child: Oid, count: nat)
    requires
        g.closed(),
        g.ends_path(id, count),
        g.contains(id),
        g.nodes[id].children.contains(child),
    ensures
        g.ends_path(child, count + 1),
{
    let path = choose|path: Seq<Oid>|
        #[trigger] g.is_path(path) && g.contains(path[0]) && path.len() == count && path.last() == id;
    lemma_path_on(g, path, child);
    assert(g.is_path(path.push(child)));
}

/// The visits of the children of one node put aside only ends of paths.
pub proof fn lemma_children_quiet<A>(
    visit: spec_fn(Sweep<A>, Oid, Oid) -> Sweep<A>,
    lenient: bool,
    origin: GraphView,
    s: Sweep<A>,
    parent: Oid,
    children: Seq<Oid>,
    count: nat,
)
    requires
        quiet(visit, lenient),
        origin.sound(),
        s.graph.wf(),
        s.graph.part_of(origin),
        origin.contains(parent),
        origin.ends_path(parent, count),
        forall|i: int| 0 <= i < children.len() ==> origin.nodes[parent].children.contains(#[trigger] children[i]),
        lenient || s.graph.contains_all(children),
        origin.end_paths(s.next, count + 1),
    ensures
        visit_children(visit, s, parent, children).graph.wf(),
        visit_children(visit, s, parent, children).graph.part_of(origin),
        lenient || visit_children(visit, s, parent, children).graph.nodes.dom() == s.graph.nodes.dom(),
        origin.end_paths(visit_children(visit, s, parent, children).next, count + 1),
    decreases children.len(),
{
    if children.len() > 0 {
        let child = children[0];
        let t = visit(s, parent, child);
        assert(origin.nodes[parent].children.contains(children[0]));
        assert(lenient || s.graph.contains(children[0]));
        lemma_ends_path_on(origin, parent, child, count);
        lemma_part_of_part(t.graph, s.graph, origin);
        assert(origin.end_paths(t.next, count + 1)) by {
            assert forall|i: int| 0 <= i < t.next.len() implies origin.ends_path(
                #[trigger] t.next[i],
                count + 1,
            ) by {
                if i < s.next.len() {
                    assert(t.next[i] == s.next[i]);
                }
            }
        }
        assert forall|i: int| 0 <= i < children.drop_first().len() implies origin.nodes[parent].children.contains(
            #[trigger] children.drop_first()[i],
        ) && (lenient || t.graph.contains(children.drop_first()[i])) by {
            assert(children.drop_first()[i] == children[i + 1]);
            assert(lenient || s.graph.contains(children[i + 1]));
        }
        lemma_children_quiet(visit, lenient, origin, t, parent, children.drop_first(), count);
    }
}

/// The visits of one level put aside only ends of paths.
pub proof fn lemma_level_quiet<A>(
    visit: spec_fn(Sweep<A>, Oid, Oid) -> Sweep<A>,
    lenient: bool,
    origin: GraphView,
    s: Sweep<A>,
    level: Seq<Oid>,
    count: nat,
)
    requires
        quiet(visit, lenient),
        origin.sound(),
        s.graph.wf(),
        s.graph.part_of(origin),
        origin.contains_all(level),
        origin.end_paths(level, count),
        origin.end_paths(s.next, count + 1),
    ensures
        visit_level(visit, s, level).graph.wf(),
        visit_level(visit, s, level).graph.part_of(origin),
        origin.end_paths(visit_level(visit, s, level).next, count + 1),
    decreases level.len(),
{
    if level.len() > 0 {
        let parent = level[0];
        assert(origin.contains(level[0]));
        assert(origin.ends_path(level[0], count));
        let children = s.graph.children(parent);
        assert forall|i: int| 0 <= i < children.len() implies origin.nodes[parent].children.contains(
            #[trigger] children[i],
        ) && s.graph.contains(children[i]) by {
            assert(s.graph.contains(parent));
            assert(children[i] == s.graph.nodes[parent].children[i]);
            assert(s.graph.contains(s.graph.nodes[parent].children[i]));
        }
        lemma_children_quiet(visit, lenient, origin, s, parent, children, count);
        let t = visit_children(visit, s, parent, children);
        assert forall|i: int| 0 <= i < level.drop_first().len() implies origin.contains(
            #[trigger] level.drop_first()[i],
        ) && origin.ends_path(level.drop_first()[i], count) by {
            assert(level.drop_first()[i] == level[i + 1]);
        }
        lemma_level_quiet(visit, lenient, origin, t, level.drop_first(), count);
    }
}

/// In a graph without cycles, a walk whose visits add no edge ends with
/// nothing put aside, if it may go on for as many levels as the longest path
/// can still have nodes.
pub proof fn lemma_levels_quiet<A>(
    visit: spec_fn(Sweep<A>, Oid, Oid) -> Sweep<A>,
    lenient: bool,
    origin: GraphView,
    s: Sweep<A>,
    depth: nat,
    count: nat,
)
    requires
        quiet(visit, lenient),
        origin.sound(),
        origin.acyclic(),
        s.graph.wf(),
        s.graph.part_of(origin),
        origin.end_paths(s.next, count),
        count >= 1,
        depth + count > origin.size(),
    ensures
        visit_levels(visit, s, depth).next.len() == 0,
        visit_levels(visit, s, depth).graph.wf(),
        visit_levels(visit, s, depth).graph.part_of(origin),
    decreases depth,
{
    if s.next.len() > 0 {
        assert(origin.ends_path(s.next[0], count));
        let path = choose|path: Seq<Oid>|
            #[trigger] origin.is_path(path) && origin.contains(path[0]) && path.len() == count
                && path.last() == s.next[0];
        lemma_path_short(origin, path);
        assert(depth > 0);
        assert forall|i: int| 0 <= i < s.next.len() implies origin.contains(#[trigger] s.next[i]) by {
            assert(origin.ends_path(s.next[i], count));
            let p = choose|p: Seq<Oid>|
                #[trigger] origin.is_path(p) && origin.contains(p[0]) && p.len() == count && p.last()
                    == s.next[i];
            lemma_path_within(origin, p, p.len() - 1);
        }
        let cleared = Sweep { next: Seq::empty(), ..s };
        lemma_level_quiet(visit, lenient, origin, cleared, s.next, count);
        lemma_levels_quiet(
            visit,
            lenient,
            origin,
            visit_level(visit, cleared, s.next),
            (depth - 1) as nat,
            count + 1,
        );
    }
}

/// In a graph without cycles, a walk from the root whose visits add no edge
/// comes to its end: no node is left aside for want of levels.
pub proof fn lemma_sweep_ends<A>(
    visit: spec_fn(Sweep<A>, Oid, Oid) -> Sweep<A>,
    lenient: bool,
    graph: GraphView,
    acc: A,
)
    requires
        quiet(visit, lenient),
        graph.wf(),
        graph.acyclic(),
    ensures
        sweep(visit, graph, acc).next.len() == 0,
        sweep(visit, graph, acc).graph.wf(),
        sweep(visit, graph, acc).graph.part_of(graph),
{
    let start = Sweep { graph, acc, next: first_level(graph) };
    assert(graph.end_paths(start.next, 1)) by {
        assert forall|i: int| 0 <= i < start.next.len() implies graph.ends_path(
            #[trigger] start.next[i],
            1,
        ) by {
            let path = seq![graph.root_id];
            assert(graph.is_path(path));
            assert(path.last() == graph.root_id);
        }
    }
    assert(graph.part_of(graph)) by {
        assert forall|id: Oid, i: int|
            graph.contains(id) && 0 <= i < graph.nodes[id].children.len() implies graph.nodes[id].children.contains(
            #[trigger] graph.nodes[id].children[i],
        ) by {}
    }
    lemma_levels_quiet(visit, lenient, graph, start, graph.size(), 1);
}

/// A graph with the shape of another is a part of it.
pub proof fn lemma_same_shape_part(before: GraphView, after: GraphView)
    requires
        before.same_shape(after),
    ensures
        after.part_of(before),
        after.nodes.dom() == before.nodes.dom(),
{
    assert forall|id: Oid, i: int|
        after.contains(id) && 0 <= i < after.nodes[id].children.len() implies before.nodes[id].children.contains(
        #[trigger] after.nodes[id].children[i],
    ) by {
        assert(before.nodes[id].children == after.nodes[id].children);
    }
}

/// At the end of a path that is as long as can be, there is nothing below.
pub proof fn lemma_path_ends(g: GraphView, path: Seq<Oid>)
    requires
        g.sound(),
        g.acyclic(),
        g.is_path(path),
        g.contains(path[0]),
        path.len() >= g.size(),
    ensures
        g.contains(path.last()),
        g.nodes[path.last()].children.len() == 0,
{
    let kids = g.nodes[path.last()].children;
    lemma_path_within(g, path, path.len() - 1);
    if kids.len() > 0 {
        assert(kids.contains(kids[0]));
        lemma_path_on(g, path, kids[0]);
        lemma_path_short(g, path.push(kids[0]));
    }
}

/// At the end of a path, the script of a node is the same for every depth
/// that leaves room for the longest path there can be.
pub proof fn lemma_node_script_deep(g: GraphView, path: Seq<Oid>, one: nat, two: nat)
    requires
        g.sound(),
        g.acyclic(),
        g.is_path(path),
        g.contains(path[0]),
        one + path.len() >= g.size(),
        two + path.len() >= g.size(),
    ensures
        node_script(g, path.last(), one) == node_script(g, path.last(), two),
    decreases one, 0nat, 0nat,
{
    let id = path.last();
    let kids = g.nodes[id].children;
    lemma_path_within(g, path, path.len() - 1);
    if one == 0 || two == 0 {
        lemma_path_ends(g, path);
        assert(child_scripts(g, kids, 0) =~= Seq::empty());
        if one > 0 {
            assert(child_scripts(g, kids, (one - 1) as nat) =~= Seq::empty());
        }
        if two > 0 {
            assert(child_scripts(g, kids, (two - 1) as nat) =~= Seq::empty());
        }
    } else {
        lemma_child_scripts_deep(g, path, kids, (one - 1) as nat, (two - 1) as nat);
    }
}

/// The same for the scripts of some children of the node at the end.
pub proof fn lemma_child_scripts_deep(
    g: GraphView,
    path: Seq<Oid>,
    children: Seq<Oid>,
    one: nat,
    two: nat,
)
    requires
        g.sound(),
        g.acyclic(),
        g.is_path(path),
        g.contains(path[0]),
        g.contains(path.last()),
        forall|i: int|
            0 <= i < children.len() ==> g.nodes[path.last()].children.contains(#[trigger] children[i]),
        one + path.len() + 1 >= g.size(),
        two + path.len() + 1 >= g.size(),
    ensures
        child_scripts(g, children, one) == child_scripts(g, children, two),
    decreases one, 1nat, children.len(),
{
    if children.len() > 0 {
        let child = children.last();
        assert(children[children.len() - 1] == child);
        assert forall|i: int| 0 <= i < children.drop_last().len() implies g.nodes[path.last()].children.contains(
            #[trigger] children.drop_last()[i],
        ) by {
            assert(children.drop_last()[i] == children[i]);
        }
        lemma_child_scripts_deep(g, path, children.drop_last(), one, two);
        lemma_path_on(g, path, child);
        lemma_node_script_deep(g, path.push(child), one, two);
    }
}

/// The walk that makes the script changes nothing in the graph.
pub proof fn lemma_script_quiet(depth: nat)
    ensures
        quiet(script_visitor(depth), false),
{
    let visit = script_visitor(depth);
    assert forall|s: Sweep<Seq<crate::git::script::ScriptView>>, parent: Oid, child: Oid|
        s.graph.wf() && s.graph.contains(child) implies ({
        let t = #[trigger] visit(s, parent, child);
        &&& t.graph.wf()
        &&& t.graph.part_of(s.graph)
        &&& t.graph.nodes.dom() == s.graph.nodes.dom()
        &&& (t.next == s.next || t.next == s.next.push(child))
    }) by {
        lemma_same_shape_part(s.graph, s.graph);
    }
}

/// In a graph without cycles the walk that makes the script comes to its
/// end: no stack is left out for want of levels.
pub proof fn lemma_script_walk_ends(graph: GraphView)
    requires
        graph.wf(),
        graph.acyclic(),
    ensures
        sweep(script_visitor(graph.size()), graph, Seq::empty()).next.len() == 0,
{
    lemma_script_quiet(graph.size());
    lemma_sweep_ends(script_visitor(graph.size()), false, graph, Seq::empty());
}

/// A marking adds no edge.
proof fn lemma_mark_quiet(graph: GraphView, names: Names, id: Oid, depth: nat)
    requires
        graph.wf(),
        graph.contains(id),
    ensures
        mark_protected(graph, names, id, depth).graph.wf(),
        mark_protected(graph, names, id, depth).graph.part_of(graph),
        mark_protected(graph, names, id, depth).graph.nodes.dom() == graph.nodes.dom(),
{
    let start = Sweep { graph, acc: names, next: seq![id] };
    assert(graph.contains_all(start.next));
    lemma_mark_levels_shape(start, depth);
    let after = mark_protected(graph, names, id, depth).graph;
    lemma_same_shape_part(graph, after);
    lemma_same_shape_wf(graph, after);
}

/// A graph with the shape of a well-formed graph is well formed, if it is
/// sound.
pub proof fn lemma_same_shape_wf(before: GraphView, after: GraphView)
    requires
        before.wf(),
        before.same_shape(after),
        after.sound(),
    ensures
        after.wf(),
{
    assert forall|id: Oid, i: int|
        after.contains(id) && 0 <= i < after.nodes[id].children.len() implies #[trigger] after.nodes[id].children[i]
        != after.root_id by {
        assert(before.nodes[id].children == after.nodes[id].children);
        assert(before.nodes[id].children[i] != before.root_id);
    }
}

/// The walks that protect old, foreign and large branches add no edge.
pub proof fn lemma_protect_quiet(cutoff: i64, user: Seq<char>, max: nat, depth: nat)
    ensures
        quiet(old_visitor(cutoff, depth), false),
        quiet(foreign_visitor(user, depth), false),
        quiet(large_visitor(max, depth), false),
{
    let aged = old_visitor(cutoff, depth);
    assert forall|s: Sweep<Names>, parent: Oid, child: Oid|
        s.graph.wf() && s.graph.contains(child) implies ({
        let t = #[trigger] aged(s, parent, child);
        &&& t.graph.wf()
        &&& t.graph.part_of(s.graph)
        &&& t.graph.nodes.dom() == s.graph.nodes.dom()
        &&& (t.next == s.next || t.next == s.next.push(child))
    }) by {
        lemma_mark_quiet(s.graph, s.acc, child, depth);
        lemma_same_shape_part(s.graph, s.graph);
    }
    let foreign = foreign_visitor(user, depth);
    assert forall|s: Sweep<Names>, parent: Oid, child: Oid|
        s.graph.wf() && s.graph.contains(child) implies ({
        let t = #[trigger] foreign(s, parent, child);
        &&& t.graph.wf()
        &&& t.graph.part_of(s.graph)
        &&& t.graph.nodes.dom() == s.graph.nodes.dom()
        &&& (t.next == s.next || t.next == s.next.push(child))
    }) by {
        lemma_mark_quiet(s.graph, s.acc, child, depth);
        lemma_same_shape_part(s.graph, s.graph);
    }
    let large = large_visitor(max, depth);
    assert forall|s: Sweep<Names>, parent: Oid, child: Oid|
        s.graph.wf() && s.graph.contains(child) implies ({
        let t = #[trigger] large(s, parent, child);
        &&& t.graph.wf()
        &&& t.graph.part_of(s.graph)
        &&& t.graph.nodes.dom() == s.graph.nodes.dom()
        &&& (t.next == s.next || t.next == s.next.push(child))
    }) by {
        lemma_grown_shape(s.graph, s.acc, child, 0, max, depth, depth);
        let found = grown(s.graph, s.acc, child, 0, max, depth, depth);
        lemma_same_shape_part(s.graph, found.graph);
        lemma_same_shape_wf(s.graph, found.graph);
        lemma_same_shape_part(s.graph, s.graph);
    }
}

/// The walk that trims old branches adds no edge.
pub proof fn lemma_trim_quiet(cutoff: i64, depth: nat)
    ensures
        quiet(trim_visitor(cutoff, depth), true),
{
    let visit = trim_visitor(cutoff, depth);
    assert forall|s: Sweep<Names>, parent: Oid, child: Oid| s.graph.wf() implies ({
        let t = #[trigger] visit(s, parent, child);
        &&& t.graph.wf()
        &&& t.graph.part_of(s.graph)
        &&& (t.next == s.next || t.next == s.next.push(child))
    }) by {
        lemma_same_shape_part(s.graph, s.graph);
        if s.graph.contains(child) && s.graph.contains(parent) && s.graph.nodes[parent].children.contains(
            child,
        ) {
            lemma_detach(s.graph, parent, child);
        }
    }
}

/// In a graph without cycles the walks that protect old, foreign and large
/// branches and the walk that trims old branches come to their end: no stack
/// is left out for want of levels.
pub proof fn lemma_protect_walks_end(graph: GraphView, cutoff: i64, user: Seq<char>, max: nat)
    requires
        graph.wf(),
        graph.acyclic(),
    ensures
        protect_old(graph, cutoff).next.len() == 0,
        protect_foreign(graph, user).next.len() == 0,
        protect_large(graph, max).next.len() == 0,
        trimmed(graph, cutoff).next.len() == 0,
{
    lemma_protect_quiet(cutoff, user, max, graph.size());
    lemma_trim_quiet(cutoff, graph.size());
    lemma_sweep_ends(old_visitor(cutoff, graph.size()), false, graph, Seq::empty());
    lemma_sweep_ends(foreign_visitor(user, graph.size()), false, graph, Seq::empty());
    lemma_sweep_ends(large_visitor(max, graph.size()), false, graph, Seq::empty());
    lemma_sweep_ends(trim_visitor(cutoff, graph.size()), true, graph, Seq::empty());
}

/// In a graph without cycles, the script of a node is the same for every
/// depth from the number of nodes on: nothing is left out for want of depth.
pub proof fn lemma_node_script_whole(g: GraphView, id: Oid, depth: nat)
    requires
        g.sound(),
        g.acyclic(),
        g.contains(id),
        depth >= g.size(),
    ensures
        node_script(g, id, depth) == node_script(g, id, g.size()),
{
    let path = seq![id];
    assert(g.is_path(path));
    assert(path.last() == id);
    lemma_node_script_deep(g, path, depth, g.size());
}

} // verus!
