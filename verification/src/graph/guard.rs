//! Protection that comes from above: a node with a protected child is
//! protected. In a tree this says that the protected nodes are those that
//! the root reaches over protected nodes. The passes that protect keep it so.
use vstd::prelude::*;
use crate::git::oid::Oid;
use crate::graph::acyclic::lemma_path_on;
use crate::graph::model::{lemma_with_action_sound, GraphView};
use crate::graph::node::Action;
use crate::graph::protect::{
    foreign_visitor, grown, grown_below, large_visitor, lemma_grown_below_shape, lemma_grown_shape,
    lemma_mark_level_shape, lemma_mark_levels_shape, mark_level, mark_levels, mark_one,
    mark_protected, old_visitor, protect_foreign, protect_large, protect_old,
};
use crate::graph::rebase::{on_frontier, protected_above, protected_path, protection_from_root};
use crate::git::repo::Repo;
use crate::graph::model::lemma_with_action;
use crate::graph::sweep::{first_level, sweep, visit_children, visit_level, visit_levels, Names, Sweep};
use crate::graph::upstream::{above_root, protect_tips, walk_protect};
use crate::graph::tree::lemma_same_shape_tree;

verus! {

/// Whether a node with a protected child is protected, but for the children
/// in `exempt`.
pub open spec fn guarded(graph: GraphView, exempt: Set<Oid>) -> bool {
    forall|id: Oid, i: int|
        graph.contains(id) && 0 <= i < graph.nodes[id].children.len() && graph.nodes[#[trigger] graph.nodes[id].children[i]].action
            == Action::Protected && !exempt.contains(graph.nodes[id].children[i]) ==> graph.nodes[id].action
            == Action::Protected
}

/// Whether every parent of `id` is protected.
pub open spec fn parents_protected(graph: GraphView, id: Oid) -> bool {
    forall|p: Oid|
        graph.contains(p) && #[trigger] graph.nodes[p].children.contains(id) ==> graph.nodes[p].action
            == Action::Protected
}

/// Whether each of `ids` is exempt or has only protected parents.
pub open spec fn covered(graph: GraphView, ids: Seq<Oid>, exempt: Set<Oid>) -> bool {
    forall|i: int|
        0 <= i < ids.len() ==> exempt.contains(#[trigger] ids[i]) || parents_protected(graph, ids[i])
}

/// In a tree whose protection comes from above, every protected node is
/// reached from the root over protected nodes.
pub proof fn lemma_protection_from_root(g: GraphView)
    requires
        g.tree(),
        protected_above(g),
    ensures
        protection_from_root(g),
{
    let rank = choose|rank: Map<Oid, nat>| g.ranked_by(rank);
    assert forall|id: Oid| #[trigger] g.is_protected(id) implies on_frontier(g, id) by {
        lemma_on_frontier(g, rank, id);
    }
}

proof fn lemma_on_frontier(g: GraphView, rank: Map<Oid, nat>, id: Oid)
    requires
        g.tree(),
        g.ranked_by(rank),
        protected_above(g),
        g.is_protected(id),
    ensures
        on_frontier(g, id),
    decreases g.above_in(rank, id).len(),
{
    if id == g.root_id {
        let path = seq![id];
        assert(protected_path(g, path));
        assert(path.last() == id);
    } else {
        assert(g.has_parent(id));
        let p = choose|p: Oid| g.contains(p) && #[trigger] g.nodes[p].children.contains(id);
        let i = choose|i: int| 0 <= i < g.nodes[p].children.len() && g.nodes[p].children[i] == id;
        assert(rank[g.nodes[p].children[i]] < rank[p]);
        assert(g.nodes[g.nodes[p].children[i]].action == Action::Protected);
        assert(g.is_protected(p));
        let mine = g.above_in(rank, id);
        let theirs = g.above_in(rank, p);
        assert(mine.subset_of(g.nodes.dom()));
        vstd::set_lib::lemma_len_subset(mine, g.nodes.dom());
        assert(theirs.subset_of(mine.remove(p)));
        assert(mine.contains(p));
        vstd::set_lib::lemma_len_subset(theirs, mine.remove(p));
        lemma_on_frontier(g, rank, p);
        let path = choose|path: Seq<Oid>| #[trigger] protected_path(g, path) && path.last() == p;
        lemma_path_on(g, path, id);
        let longer = path.push(id);
        assert forall|k: int| 0 <= k < longer.len() implies g.is_protected(#[trigger] longer[k]) by {
            if k < path.len() {
                assert(g.is_protected(path[k]));
            }
        }
        assert(protected_path(g, longer));
        assert(longer.last() == id);
    }
}

/// A part of a graph whose protection comes from above is such a graph.
pub proof fn lemma_trimmed_guarded(before: GraphView, after: GraphView)
    requires
        protected_above(before),
        before.trimmed_to(after),
        after.closed(),
    ensures
        protected_above(after),
{
    assert forall|x: Oid, i: int|
        after.contains(x) && 0 <= i < after.nodes[x].children.len() && after.nodes[#[trigger] after.nodes[x].children[i]].action
            == Action::Protected implies after.nodes[x].action == Action::Protected by {
        let c = after.nodes[x].children[i];
        assert(after.contains(c));
        assert(before.nodes[x].children.contains(c));
        let j = choose|j: int| 0 <= j < before.nodes[x].children.len() && before.nodes[x].children[j] == c;
        assert(before.nodes[before.nodes[x].children[j]].action == Action::Protected);
    }
}

/// One level of a marking keeps protection coming from above.
pub proof fn lemma_mark_level_guard(s: Sweep<Names>, level: Seq<Oid>, exempt: Set<Oid>)
    requires
        s.graph.sound(),
        s.graph.forest(),
        s.graph.contains_all(level),
        s.graph.contains_all(s.next),
        guarded(s.graph, exempt),
        covered(s.graph, level, exempt),
        covered(s.graph, s.next, exempt),
    ensures
        guarded(mark_level(s, level).graph, exempt),
        covered(mark_level(s, level).graph, mark_level(s, level).next, exempt),
    decreases level.len(),
{
    if level.len() > 0 {
        let id = level[0];
        let one = mark_one(s, id);
        assert(s.graph.contains(level[0]));
        assert(exempt.contains(level[0]) || parents_protected(s.graph, level[0]));
        lemma_with_action_sound(s.graph, id, Action::Protected);
        assert(one.graph.forest()) by {
            assert forall|p: Oid, q: Oid, c: Oid|
                #![trigger one.graph.nodes[p].children.contains(c), one.graph.nodes[q].children.contains(c)]
                one.graph.contains(p) && one.graph.contains(q) && one.graph.nodes[p].children.contains(
                    c,
                ) && one.graph.nodes[q].children.contains(c) implies p == q by {
                assert(s.graph.nodes[p].children == one.graph.nodes[p].children);
                assert(s.graph.nodes[q].children == one.graph.nodes[q].children);
                assert(s.graph.nodes[p].children.contains(c) && s.graph.nodes[q].children.contains(c));
            }
        }
        assert(guarded(one.graph, exempt)) by {
            assert forall|x: Oid, i: int|
                one.graph.contains(x) && 0 <= i < one.graph.nodes[x].children.len() && one.graph.nodes[#[trigger] one.graph.nodes[x].children[i]].action
                    == Action::Protected && !exempt.contains(
                    one.graph.nodes[x].children[i],
                ) implies one.graph.nodes[x].action == Action::Protected by {
                let c = one.graph.nodes[x].children[i];
                assert(s.graph.nodes[x].children == one.graph.nodes[x].children);
                assert(s.graph.contains(s.graph.nodes[x].children[i]));
                if c == id {
                    assert(s.graph.nodes[x].children.contains(id));
                } else {
                    assert(s.graph.nodes[c].action == Action::Protected);
                    assert(s.graph.nodes[s.graph.nodes[x].children[i]].action == Action::Protected);
                }
            }
        }
        assert forall|i: int| 0 <= i < one.next.len() implies (exempt.contains(#[trigger] one.next[i])
            || parents_protected(one.graph, one.next[i])) && one.graph.contains(one.next[i]) by {
            if i < s.next.len() {
                assert(one.next[i] == s.next[i]);
                assert(s.graph.contains(s.next[i]));
                if !exempt.contains(s.next[i]) {
                    assert(parents_protected(s.graph, s.next[i]));
                    assert forall|p: Oid|
                        one.graph.contains(p) && #[trigger] one.graph.nodes[p].children.contains(
                            s.next[i],
                        ) implies one.graph.nodes[p].action == Action::Protected by {
                        assert(s.graph.nodes[p].children == one.graph.nodes[p].children);
                        assert(s.graph.nodes[p].children.contains(s.next[i]));
                    }
                }
            } else {
                let c = s.graph.nodes[id].children[i - s.next.len()];
                assert(one.next[i] == c);
                assert(s.graph.contains(s.graph.nodes[id].children[i - s.next.len()]));
                assert(s.graph.nodes[id].children.contains(c));
                assert forall|p: Oid|
                    one.graph.contains(p) && #[trigger] one.graph.nodes[p].children.contains(c) implies one.graph.nodes[p].action
                    == Action::Protected by {
                    assert(s.graph.nodes[p].children == one.graph.nodes[p].children);
                    assert(s.graph.nodes[p].children.contains(c) && s.graph.nodes[id].children.contains(
                        c,
                    ));
                }
            }
        }
        let later = level.drop_first();
        assert forall|i: int| 0 <= i < later.len() implies (exempt.contains(#[trigger] later[i])
            || parents_protected(one.graph, later[i])) && one.graph.contains(later[i]) by {
            assert(later[i] == level[i + 1]);
            assert(s.graph.contains(level[i + 1]));
            if !exempt.contains(level[i + 1]) {
                assert(parents_protected(s.graph, level[i + 1]));
                assert forall|p: Oid|
                    one.graph.contains(p) && #[trigger] one.graph.nodes[p].children.contains(
                        level[i + 1],
                    ) implies one.graph.nodes[p].action == Action::Protected by {
                    assert(s.graph.nodes[p].children == one.graph.nodes[p].children);
                    assert(s.graph.nodes[p].children.contains(level[i + 1]));
                }
            }
        }
        lemma_mark_level_guard(one, later, exempt);
    }
}

/// A graph with the shape of one in which no node has two parents is such
/// a graph.
pub proof fn lemma_same_shape_forest(before: GraphView, after: GraphView)
    requires
        before.forest(),
        before.same_shape(after),
    ensures
        after.forest(),
{
    assert forall|p: Oid, q: Oid, c: Oid|
        #![trigger after.nodes[p].children.contains(c), after.nodes[q].children.contains(c)]
        after.contains(p) && after.contains(q) && after.nodes[p].children.contains(c)
            && after.nodes[q].children.contains(c) implies p == q by {
        assert(before.nodes[p].children == after.nodes[p].children);
        assert(before.nodes[q].children == after.nodes[q].children);
        assert(before.nodes[p].children.contains(c) && before.nodes[q].children.contains(c));
    }
}

/// A marking keeps protection coming from above.
pub proof fn lemma_mark_levels_guard(s: Sweep<Names>, depth: nat, exempt: Set<Oid>)
    requires
        s.graph.sound(),
        s.graph.forest(),
        s.graph.contains_all(s.next),
        guarded(s.graph, exempt),
        covered(s.graph, s.next, exempt),
    ensures
        guarded(mark_levels(s, depth).graph, exempt),
    decreases depth,
{
    if depth > 0 && s.next.len() > 0 {
        let cleared = Sweep { next: Seq::empty(), ..s };
        assert(cleared.graph.contains_all(cleared.next));
        assert(covered(cleared.graph, cleared.next, exempt));
        lemma_mark_level_guard(cleared, s.next, exempt);
        lemma_mark_level_shape(cleared, s.next);
        let one = mark_level(cleared, s.next);
        lemma_same_shape_forest(s.graph, one.graph);
        lemma_mark_levels_guard(one, (depth - 1) as nat, exempt);
    }
}

/// A marking that starts at a node which is exempt or has only protected
/// parents keeps protection coming from above. With a depth it protects the
/// node.
pub proof fn lemma_mark_protected_guard(
    g: GraphView,
    names: Names,
    id: Oid,
    depth: nat,
    exempt: Set<Oid>,
)
    requires
        g.sound(),
        g.forest(),
        g.contains(id),
        guarded(g, exempt),
        exempt.contains(id) || parents_protected(g, id),
    ensures
        guarded(mark_protected(g, names, id, depth).graph, exempt),
        depth > 0 ==> mark_protected(g, names, id, depth).graph.nodes[id].action == Action::Protected,
{
    let start = Sweep { graph: g, acc: names, next: seq![id] };
    assert(g.contains_all(start.next));
    assert(covered(g, start.next, exempt));
    lemma_mark_levels_guard(start, depth, exempt);
    if depth > 0 {
        let cleared = Sweep { next: Seq::empty(), ..start };
        let one = mark_level(cleared, start.next);
        assert(cleared.graph.contains_all(cleared.next));
        lemma_mark_level_shape(cleared, start.next);
        assert(start.next.drop_first() =~= Seq::<Oid>::empty());
        assert(start.next[0] == id);
        assert(mark_level(mark_one(cleared, id), Seq::<Oid>::empty()) == mark_one(cleared, id));
        assert(one == mark_level(mark_one(cleared, id), start.next.drop_first()));
        assert(one == mark_one(cleared, id));
        assert(one.graph.nodes[id].action == Action::Protected);
        lemma_mark_levels_shape(one, (depth - 1) as nat);
        assert(one.graph.only_protected_by(mark_levels(one, (depth - 1) as nat).graph));
    }
}

/// A search for long lines at an exempt node keeps protection coming from
/// above but for what is exempt. It protects the node if it finds that it
/// needs protection, and changes nothing if it does not.
pub proof fn lemma_grown_guard(
    g: GraphView,
    names: Names,
    id: Oid,
    count: nat,
    max: nat,
    depth: nat,
    limit: nat,
    exempt: Set<Oid>,
)
    requires
        g.sound(),
        g.forest(),
        g.contains(id),
        guarded(g, exempt),
        exempt.contains(id),
        limit > 0,
    ensures
        guarded(grown(g, names, id, count, max, depth, limit).graph, exempt),
        grown(g, names, id, count, max, depth, limit).needed ==> grown(
            g,
            names,
            id,
            count,
            max,
            depth,
            limit,
        ).graph.nodes[id].action == Action::Protected,
        !grown(g, names, id, count, max, depth, limit).needed ==> grown(
            g,
            names,
            id,
            count,
            max,
            depth,
            limit,
        ).graph == g,
    decreases depth, 0nat, 0nat,
{
    if g.nodes[id].branches.len() > 0 {
    } else if count <= max {
        if depth > 0 {
            let kids = g.nodes[id].children;
            let wider = exempt.union(kids.to_set());
            assert forall|i: int| 0 <= i < kids.len() implies g.contains(#[trigger] kids[i])
                && wider.contains(kids[i]) by {
                assert(g.contains(g.nodes[id].children[i]));
                assert(kids.to_set().contains(kids[i]));
            }
            assert(guarded(g, wider));
            lemma_grown_below_guard(g, names, kids, count + 1, max, (depth - 1) as nat, limit, wider);
            lemma_grown_below_shape(g, names, kids, count + 1, max, (depth - 1) as nat, limit);
            let below = grown_below(g, names, kids, count + 1, max, (depth - 1) as nat, limit);
            if below.needed {
                let after = below.graph.with_action(id, Action::Protected);
                lemma_with_action_sound(below.graph, id, Action::Protected);
                lemma_same_shape_forest(g, below.graph);
                assert forall|x: Oid, i: int|
                    after.contains(x) && 0 <= i < after.nodes[x].children.len() && after.nodes[#[trigger] after.nodes[x].children[i]].action
                        == Action::Protected && !exempt.contains(
                        after.nodes[x].children[i],
                    ) implies after.nodes[x].action == Action::Protected by {
                    let c = after.nodes[x].children[i];
                    assert(below.graph.nodes[x].children == after.nodes[x].children);
                    assert(below.graph.contains(below.graph.nodes[x].children[i]));
                    assert(c != id);
                    assert(below.graph.nodes[below.graph.nodes[x].children[i]].action
                        == Action::Protected);
                    if kids.to_set().contains(c) {
                        assert(kids.contains(c));
                        assert(below.graph.nodes[id].children == g.nodes[id].children);
                        assert(below.graph.nodes[x].children.contains(c)
                            && below.graph.nodes[id].children.contains(c));
                        assert(x == id);
                    } else {
                        assert(!wider.contains(c));
                    }
                }
            }
        }
    } else {
        lemma_mark_protected_guard(g, names, id, limit, exempt);
    }
}

/// The same for the search in each of some exempt nodes in turn.
pub proof fn lemma_grown_below_guard(
    g: GraphView,
    names: Names,
    children: Seq<Oid>,
    count: nat,
    max: nat,
    depth: nat,
    limit: nat,
    exempt: Set<Oid>,
)
    requires
        g.sound(),
        g.forest(),
        g.contains_all(children),
        guarded(g, exempt),
        forall|i: int| 0 <= i < children.len() ==> exempt.contains(#[trigger] children[i]),
        limit > 0,
    ensures
        guarded(grown_below(g, names, children, count, max, depth, limit).graph, exempt),
        !grown_below(g, names, children, count, max, depth, limit).needed ==> grown_below(
            g,
            names,
            children,
            count,
            max,
            depth,
            limit,
        ).graph == g,
    decreases depth, 1nat, children.len(),
{
    if children.len() > 0 {
        assert(g.contains(children[0]) && exempt.contains(children[0]));
        lemma_grown_guard(g, names, children[0], count, max, depth, limit, exempt);
        lemma_grown_shape(g, names, children[0], count, max, depth, limit);
        let first = grown(g, names, children[0], count, max, depth, limit);
        lemma_same_shape_forest(g, first.graph);
        assert forall|i: int| 0 <= i < children.drop_first().len() implies first.graph.contains(
            #[trigger] children.drop_first()[i],
        ) && exempt.contains(children.drop_first()[i]) by {
            assert(children.drop_first()[i] == children[i + 1]);
            assert(g.contains(children[i + 1]));
        }
        lemma_grown_below_guard(
            first.graph,
            first.names,
            children.drop_first(),
            count,
            max,
            depth,
            limit,
            exempt,
        );
    }
}

/// Whether `visit` keeps a tree a tree of the same shape whose protection
/// comes from above, where it visits a child of a protected node, and puts
/// the child aside only if it is protected then.
pub open spec fn guarding<A>(visit: spec_fn(Sweep<A>, Oid, Oid) -> Sweep<A>) -> bool {
    forall|s: Sweep<A>, parent: Oid, child: Oid|
        s.graph.tree() && protected_above(s.graph) && s.graph.is_protected(parent)
            && s.graph.nodes[parent].children.contains(child) ==> {
            let t = #[trigger] visit(s, parent, child);
            &&& t.graph.tree()
            &&& protected_above(t.graph)
            &&& s.graph.same_shape(t.graph)
            &&& s.graph.only_protected_by(t.graph)
            &&& (t.next == s.next || (t.next == s.next.push(child) && t.graph.is_protected(child)))
        }
}

/// Whether the graph holds each of `ids` and protects it.
pub open spec fn each_protected(graph: GraphView, ids: Seq<Oid>) -> bool {
    forall|i: int| 0 <= i < ids.len() ==> graph.is_protected(#[trigger] ids[i])
}

/// The visits of some children of a protected node keep a tree whose
/// protection comes from above such a tree.
pub proof fn lemma_guard_children<A>(
    visit: spec_fn(Sweep<A>, Oid, Oid) -> Sweep<A>,
    s: Sweep<A>,
    parent: Oid,
    children: Seq<Oid>,
)
    requires
        guarding(visit),
        s.graph.tree(),
        protected_above(s.graph),
        s.graph.is_protected(parent),
        each_protected(s.graph, s.next),
        forall|i: int| 0 <= i < children.len() ==> s.graph.nodes[parent].children.contains(#[trigger] children[i]),
    ensures
        visit_children(visit, s, parent, children).graph.tree(),
        protected_above(visit_children(visit, s, parent, children).graph),
        s.graph.same_shape(visit_children(visit, s, parent, children).graph),
        s.graph.only_protected_by(visit_children(visit, s, parent, children).graph),
        each_protected(
            visit_children(visit, s, parent, children).graph,
            visit_children(visit, s, parent, children).next,
        ),
    decreases children.len(),
{
    if children.len() > 0 {
        let child = children[0];
        assert(s.graph.nodes[parent].children.contains(children[0]));
        let t = visit(s, parent, child);
        assert forall|i: int| 0 <= i < t.next.len() implies t.graph.is_protected(#[trigger] t.next[i]) by {
            if i < s.next.len() {
                assert(t.next[i] == s.next[i]);
                assert(s.graph.is_protected(s.next[i]));
            }
        }
        assert forall|i: int| 0 <= i < children.drop_first().len() implies t.graph.nodes[parent].children.contains(
            #[trigger] children.drop_first()[i],
        ) by {
            assert(children.drop_first()[i] == children[i + 1]);
            assert(s.graph.nodes[parent].children == t.graph.nodes[parent].children);
        }
        lemma_guard_children(visit, t, parent, children.drop_first());
    }
}

/// The visits of one level of protected nodes keep a tree whose protection
/// comes from above such a tree.
pub proof fn lemma_guard_level<A>(
    visit: spec_fn(Sweep<A>, Oid, Oid) -> Sweep<A>,
    s: Sweep<A>,
    level: Seq<Oid>,
)
    requires
        guarding(visit),
        s.graph.tree(),
        protected_above(s.graph),
        each_protected(s.graph, level),
        each_protected(s.graph, s.next),
    ensures
        visit_level(visit, s, level).graph.tree(),
        protected_above(visit_level(visit, s, level).graph),
        each_protected(visit_level(visit, s, level).graph, visit_level(visit, s, level).next),
    decreases level.len(),
{
    if level.len() > 0 {
        let parent = level[0];
        assert(s.graph.is_protected(level[0]));
        let children = s.graph.children(parent);
        assert forall|i: int| 0 <= i < children.len() implies s.graph.nodes[parent].children.contains(
            #[trigger] children[i],
        ) by {}
        lemma_guard_children(visit, s, parent, children);
        let t = visit_children(visit, s, parent, children);
        assert forall|i: int| 0 <= i < level.drop_first().len() implies t.graph.is_protected(
            #[trigger] level.drop_first()[i],
        ) by {
            assert(s.graph.is_protected(level[i + 1]));
        }
        lemma_guard_level(visit, t, level.drop_first());
    }
}

/// The levels of a walk keep a tree whose protection comes from above
/// such a tree.
pub proof fn lemma_guard_levels<A>(
    visit: spec_fn(Sweep<A>, Oid, Oid) -> Sweep<A>,
    s: Sweep<A>,
    depth: nat,
)
    requires
        guarding(visit),
        s.graph.tree(),
        protected_above(s.graph),
        each_protected(s.graph, s.next),
    ensures
        visit_levels(visit, s, depth).graph.tree(),
        protected_above(visit_levels(visit, s, depth).graph),
    decreases depth,
{
    if depth > 0 && s.next.len() > 0 {
        let cleared = Sweep { next: Seq::empty(), ..s };
        assert(each_protected(cleared.graph, cleared.next));
        lemma_guard_level(visit, cleared, s.next);
        lemma_guard_levels(visit, visit_level(visit, cleared, s.next), (depth - 1) as nat);
    }
}

/// A walk from the root whose visits keep protection coming from above
/// makes of a tree with such protection another.
pub proof fn lemma_guard_sweep<A>(
    visit: spec_fn(Sweep<A>, Oid, Oid) -> Sweep<A>,
    graph: GraphView,
    acc: A,
)
    requires
        guarding(visit),
        graph.tree(),
        protected_above(graph),
    ensures
        sweep(visit, graph, acc).graph.tree(),
        protected_above(sweep(visit, graph, acc).graph),
{
    let start = Sweep { graph, acc, next: first_level(graph) };
    assert(each_protected(graph, start.next));
    lemma_guard_levels(visit, start, graph.size());
}

/// In a tree the child of a protected node has only protected parents.
proof fn lemma_only_parent(g: GraphView, parent: Oid, child: Oid)
    requires
        g.forest(),
        g.is_protected(parent),
        g.nodes[parent].children.contains(child),
    ensures
        parents_protected(g, child),
{
    assert forall|p: Oid| g.contains(p) && #[trigger] g.nodes[p].children.contains(child) implies g.nodes[p].action
        == Action::Protected by {
        assert(g.nodes[parent].children.contains(child));
    }
}

/// What is guarded but for a node with only protected parents is guarded.
proof fn lemma_guarded_all(g: GraphView, id: Oid)
    requires
        g.closed(),
        guarded(g, Set::empty().insert(id)),
        parents_protected(g, id),
    ensures
        protected_above(g),
{
    assert forall|x: Oid, i: int|
        g.contains(x) && 0 <= i < g.nodes[x].children.len() && g.nodes[#[trigger] g.nodes[x].children[i]].action
            == Action::Protected implies g.nodes[x].action == Action::Protected by {
        let c = g.nodes[x].children[i];
        if c == id {
            assert(g.nodes[x].children.contains(id));
        } else {
            assert(!Set::<Oid>::empty().insert(id).contains(c));
        }
    }
}

/// The walks that protect old, foreign and large branches keep protection
/// coming from above.
pub proof fn lemma_protect_guarding(cutoff: i64, user: Seq<char>, max: nat, depth: nat)
    requires
        depth > 0,
    ensures
        guarding(old_visitor(cutoff, depth)),
        guarding(foreign_visitor(user, depth)),
        guarding(large_visitor(max, depth)),
{
    let aged = old_visitor(cutoff, depth);
    assert forall|s: Sweep<Names>, parent: Oid, child: Oid|
        s.graph.tree() && protected_above(s.graph) && s.graph.is_protected(parent)
            && s.graph.nodes[parent].children.contains(child) implies ({
        let t = #[trigger] aged(s, parent, child);
        &&& t.graph.tree()
        &&& protected_above(t.graph)
        &&& s.graph.same_shape(t.graph)
        &&& s.graph.only_protected_by(t.graph)
        &&& (t.next == s.next || (t.next == s.next.push(child) && t.graph.is_protected(child)))
    }) by {
        lemma_marked_child(s.graph, s.acc, parent, child, depth);
    }
    let foreign = foreign_visitor(user, depth);
    assert forall|s: Sweep<Names>, parent: Oid, child: Oid|
        s.graph.tree() && protected_above(s.graph) && s.graph.is_protected(parent)
            && s.graph.nodes[parent].children.contains(child) implies ({
        let t = #[trigger] foreign(s, parent, child);
        &&& t.graph.tree()
        &&& protected_above(t.graph)
        &&& s.graph.same_shape(t.graph)
        &&& s.graph.only_protected_by(t.graph)
        &&& (t.next == s.next || (t.next == s.next.push(child) && t.graph.is_protected(child)))
    }) by {
        lemma_marked_child(s.graph, s.acc, parent, child, depth);
    }
    let large = large_visitor(max, depth);
    assert forall|s: Sweep<Names>, parent: Oid, child: Oid|
        s.graph.tree() && protected_above(s.graph) && s.graph.is_protected(parent)
            && s.graph.nodes[parent].children.contains(child) implies ({
        let t = #[trigger] large(s, parent, child);
        &&& t.graph.tree()
        &&& protected_above(t.graph)
        &&& s.graph.same_shape(t.graph)
        &&& s.graph.only_protected_by(t.graph)
        &&& (t.next == s.next || (t.next == s.next.push(child) && t.graph.is_protected(child)))
    }) by {
        let g = s.graph;
        let at = choose|i: int| 0 <= i < g.nodes[parent].children.len() && g.nodes[parent].children[i] == child;
        assert(g.contains(g.nodes[parent].children[at]));
        let only = Set::<Oid>::empty().insert(child);
        assert(guarded(g, only));
        lemma_grown_guard(g, s.acc, child, 0, max, depth, depth, only);
        lemma_grown_shape(g, s.acc, child, 0, max, depth, depth);
        let found = grown(g, s.acc, child, 0, max, depth, depth);
        crate::graph::acyclic::lemma_same_shape_wf(g, found.graph);
        lemma_same_shape_tree(g, found.graph);
        lemma_only_parent(g, parent, child);
        assert(parents_protected(found.graph, child)) by {
            assert forall|p: Oid|
                found.graph.contains(p) && #[trigger] found.graph.nodes[p].children.contains(
                    child,
                ) implies found.graph.nodes[p].action == Action::Protected by {
                assert(g.nodes[p].children == found.graph.nodes[p].children);
                assert(g.nodes[p].children.contains(child));
            }
        }
        lemma_guarded_all(found.graph, child);
    }
}

/// Marking the child of a protected node in a tree whose protection comes
/// from above leaves such a tree.
proof fn lemma_marked_child(g: GraphView, names: Names, parent: Oid, child: Oid, depth: nat)
    requires
        g.tree(),
        protected_above(g),
        g.is_protected(parent),
        g.nodes[parent].children.contains(child),
    ensures
        mark_protected(g, names, child, depth).graph.tree(),
        protected_above(mark_protected(g, names, child, depth).graph),
        g.same_shape(mark_protected(g, names, child, depth).graph),
        g.only_protected_by(mark_protected(g, names, child, depth).graph),
{
    let at = choose|i: int| 0 <= i < g.nodes[parent].children.len() && g.nodes[parent].children[i] == child;
    assert(g.contains(g.nodes[parent].children[at]));
    lemma_only_parent(g, parent, child);
    assert(guarded(g, Set::empty()));
    lemma_mark_protected_guard(g, names, child, depth, Set::empty());
    let start = Sweep { graph: g, acc: names, next: seq![child] };
    assert(g.contains_all(start.next));
    lemma_mark_levels_shape(start, depth);
    let after = mark_protected(g, names, child, depth).graph;
    crate::graph::acyclic::lemma_same_shape_wf(g, after);
    lemma_same_shape_tree(g, after);
    assert(protected_above(after)) by {
        assert forall|x: Oid, i: int|
            after.contains(x) && 0 <= i < after.nodes[x].children.len() && after.nodes[#[trigger] after.nodes[x].children[i]].action
                == Action::Protected implies after.nodes[x].action == Action::Protected by {
            assert(!Set::<Oid>::empty().contains(after.nodes[x].children[i]));
        }
    }
}

/// On a tree whose protection comes from above, the passes that protect
/// old, foreign and large branches leave such a tree.
pub proof fn lemma_protect_guards(graph: GraphView, cutoff: i64, user: Seq<char>, max: nat)
    requires
        graph.tree(),
        protected_above(graph),
    ensures
        protected_above(protect_old(graph, cutoff).graph),
        protected_above(protect_foreign(graph, user).graph),
        protected_above(protect_large(graph, max).graph),
{
    assert(graph.size() > 0) by {
        assert(graph.nodes.dom().contains(graph.root_id));
        if graph.nodes.dom().len() == 0 {
            assert(graph.nodes.dom() =~= Set::<Oid>::empty());
        }
    }
    lemma_protect_guarding(cutoff, user, max, graph.size());
    lemma_guard_sweep(old_visitor(cutoff, graph.size()), graph, Seq::empty());
    lemma_guard_sweep(foreign_visitor(user, graph.size()), graph, Seq::empty());
    lemma_guard_sweep(large_visitor(max, graph.size()), graph, Seq::empty());
}

/// Whether the first commit of `history` that the graph holds is a parent
/// of `id`.
pub open spec fn rises_from(graph: GraphView, history: Seq<Oid>, id: Oid) -> bool {
    exists|j: int|
        0 <= j < history.len() && graph.contains(#[trigger] history[j]) && graph.nodes[history[j]].children.contains(
            id,
        ) && forall|k: int| 0 <= k < j ==> !graph.contains(#[trigger] history[k])
}

/// Whether `history` goes up through the graph: after each commit that
/// the graph holds, but the root, the next that it holds is a parent of it.
pub open spec fn follows(graph: GraphView, history: Seq<Oid>) -> bool {
    forall|i: int|
        0 <= i < history.len() && graph.contains(#[trigger] history[i]) && history[i] != graph.root_id
            ==> rises_from(graph, history.skip(i + 1), history[i])
}

/// Without its first commit, a history that goes up through the graph
/// still does.
pub proof fn lemma_follows_on(graph: GraphView, history: Seq<Oid>)
    requires
        follows(graph, history),
        history.len() > 0,
    ensures
        follows(graph, history.drop_first()),
{
    let rest = history.drop_first();
    assert forall|i: int|
        0 <= i < rest.len() && graph.contains(#[trigger] rest[i]) && rest[i] != graph.root_id implies rises_from(
        graph,
        rest.skip(i + 1),
        rest[i],
    ) by {
        assert(rest[i] == history[i + 1]);
        assert(rest.skip(i + 1) =~= history.skip(i + 1 + 1));
    }
}

/// A walk along a history that goes up through a tree keeps protection
/// coming from above, where it starts behind a node that waits for its parent
/// to be protected.
proof fn lemma_walk_guards_on(g: GraphView, history: Seq<Oid>, pending: Option<Oid>)
    requires
        g.wf(),
        g.forest(),
        follows(g, history),
        match pending {
            Some(x) => guarded(g, Set::empty().insert(x)) && rises_from(g, history, x),
            None => protected_above(g),
        },
    ensures
        protected_above(walk_protect(g, history)),
    decreases history.len(),
{
    if history.len() == 0 {
    } else {
        let first = history[0];
        let rest = history.drop_first();
        lemma_follows_on(g, history);
        if g.contains(first) {
            // where a node waits, this is its parent
            match pending {
                Some(x) => {
                    let j = choose|j: int|
                        0 <= j < history.len() && g.contains(#[trigger] history[j]) && g.nodes[history[j]].children.contains(
                            x,
                        ) && forall|k: int| 0 <= k < j ==> !g.contains(#[trigger] history[k]);
                    if j > 0 {
                        assert(!g.contains(history[0]));
                    }
                    assert(g.nodes[first].children.contains(x));
                },
                None => {},
            }
            if g.is_protected(first) {
                match pending {
                    Some(x) => {
                        assert forall|p: Oid, i: int|
                            g.contains(p) && 0 <= i < g.nodes[p].children.len() && g.nodes[#[trigger] g.nodes[p].children[i]].action
                                == Action::Protected implies g.nodes[p].action == Action::Protected by {
                            let c = g.nodes[p].children[i];
                            if c == x {
                                assert(g.nodes[p].children.contains(x) && g.nodes[first].children.contains(
                                    x,
                                ));
                            } else {
                                assert(!Set::<Oid>::empty().insert(x).contains(c));
                            }
                        }
                    },
                    None => {},
                }
            } else {
                let marked = g.with_action(first, Action::Protected);
                lemma_with_action(g, first, Action::Protected);
                lemma_same_shape_forest(g, marked);
                let only = Set::<Oid>::empty().insert(first);
                assert(guarded(marked, only)) by {
                    assert forall|p: Oid, i: int|
                        marked.contains(p) && 0 <= i < marked.nodes[p].children.len() && marked.nodes[#[trigger] marked.nodes[p].children[i]].action
                            == Action::Protected && !only.contains(
                            marked.nodes[p].children[i],
                        ) implies marked.nodes[p].action == Action::Protected by {
                        let c = marked.nodes[p].children[i];
                        assert(g.nodes[p].children == marked.nodes[p].children);
                        assert(g.contains(g.nodes[p].children[i]));
                        assert(g.nodes[g.nodes[p].children[i]].action == Action::Protected);
                        match pending {
                            Some(x) => {
                                if c == x {
                                    assert(g.nodes[p].children.contains(x)
                                        && g.nodes[first].children.contains(x));
                                } else {
                                    assert(!Set::<Oid>::empty().insert(x).contains(c));
                                }
                            },
                            None => {},
                        }
                    }
                }
                if first == g.root_id {
                    assert forall|p: Oid, i: int|
                        marked.contains(p) && 0 <= i < marked.nodes[p].children.len() && marked.nodes[#[trigger] marked.nodes[p].children[i]].action
                            == Action::Protected implies marked.nodes[p].action == Action::Protected by {
                        assert(marked.nodes[p].children[i] != marked.root_id);
                        assert(!only.contains(marked.nodes[p].children[i]));
                    }
                } else {
                    assert(rises_from(g, history.skip(0int + 1), history[0]));
                    assert(history.skip(1) =~= rest);
                    let j = choose|j: int|
                        0 <= j < rest.len() && g.contains(#[trigger] rest[j]) && g.nodes[rest[j]].children.contains(
                            first,
                        ) && forall|k: int| 0 <= k < j ==> !g.contains(#[trigger] rest[k]);
                    assert(marked.contains(rest[j]) && marked.nodes[rest[j]].children.contains(first));
                    assert(rises_from(marked, rest, first));
                    assert(follows(marked, rest)) by {
                        assert forall|i: int|
                            0 <= i < rest.len() && marked.contains(#[trigger] rest[i]) && rest[i]
                                != marked.root_id implies rises_from(marked, rest.skip(i + 1), rest[i]) by {
                            assert(rises_from(g, rest.skip(i + 1), rest[i]));
                            let tail = rest.skip(i + 1);
                            let m = choose|m: int|
                                0 <= m < tail.len() && g.contains(#[trigger] tail[m]) && g.nodes[tail[m]].children.contains(
                                    rest[i],
                                ) && forall|k: int| 0 <= k < m ==> !g.contains(#[trigger] tail[k]);
                            assert(marked.contains(tail[m]) && marked.nodes[tail[m]].children.contains(
                                rest[i],
                            ));
                        }
                    }
                    lemma_walk_guards_on(marked, rest, Some(first));
                }
            }
        } else {
            match pending {
                Some(x) => {
                    let j = choose|j: int|
                        0 <= j < history.len() && g.contains(#[trigger] history[j]) && g.nodes[history[j]].children.contains(
                            x,
                        ) && forall|k: int| 0 <= k < j ==> !g.contains(#[trigger] history[k]);
                    assert(j > 0);
                    assert(rest[j - 1] == history[j]);
                    assert forall|k: int| 0 <= k < j - 1 implies !g.contains(#[trigger] rest[k]) by {
                        assert(rest[k] == history[k + 1]);
                    }
                    assert(rises_from(g, rest, x));
                },
                None => {},
            }
            assert(first != g.root_id);
            lemma_walk_guards_on(g, rest, pending);
        }
    }
}

/// A walk along a history that goes up through a tree whose protection
/// comes from above leaves such a tree.
pub proof fn lemma_walk_guards(g: GraphView, history: Seq<Oid>)
    requires
        g.tree(),
        protected_above(g),
        follows(g, history),
    ensures
        protected_above(walk_protect(g, history)),
        walk_protect(g, history).tree(),
        g.same_shape(walk_protect(g, history)),
{
    lemma_walk_guards_on(g, history, None);
    crate::graph::upstream::lemma_walk_settles(g, history);
    lemma_same_shape_tree(g, walk_protect(g, history));
}

/// Whether the history of each of `tips` that lies above the root goes up
/// through the graph.
pub open spec fn histories_follow<R: Repo>(graph: GraphView, repo: &R, tips: Seq<Oid>) -> bool {
    forall|k: int|
        0 <= k < tips.len() && above_root(repo, graph.root_id, #[trigger] tips[k]) ==> follows(
            graph,
            repo.history(tips[k]),
        )
}

/// A history that goes up through a graph goes up through every graph of
/// the same shape.
pub proof fn lemma_follows_same_shape(before: GraphView, after: GraphView, history: Seq<Oid>)
    requires
        before.same_shape(after),
        follows(before, history),
    ensures
        follows(after, history),
{
    assert forall|i: int|
        0 <= i < history.len() && after.contains(#[trigger] history[i]) && history[i] != after.root_id implies rises_from(
        after,
        history.skip(i + 1),
        history[i],
    ) by {
        assert(rises_from(before, history.skip(i + 1), history[i]));
        let tail = history.skip(i + 1);
        let m = choose|m: int|
            0 <= m < tail.len() && before.contains(#[trigger] tail[m]) && before.nodes[tail[m]].children.contains(
                history[i],
            ) && forall|k: int| 0 <= k < m ==> !before.contains(#[trigger] tail[k]);
        assert(before.nodes[tail[m]].children == after.nodes[tail[m]].children);
        assert(after.contains(tail[m]) && after.nodes[tail[m]].children.contains(history[i]));
    }
}

/// Where the histories of upstream go up through a tree whose protection
/// comes from above, protecting upstream leaves such a tree.
pub proof fn lemma_tips_guard<R: Repo>(graph: GraphView, repo: &R, tips: Seq<Oid>)
    requires
        graph.tree(),
        protected_above(graph),
        histories_follow(graph, repo, tips),
    ensures
        protected_above(protect_tips(graph, repo, tips)),
        protect_tips(graph, repo, tips).tree(),
    decreases tips.len(),
{
    if tips.len() > 0 {
        assert(tips[0] == tips[0]);
        let first = if above_root(repo, graph.root_id, tips[0]) {
            walk_protect(graph, repo.history(tips[0]))
        } else {
            graph
        };
        if above_root(repo, graph.root_id, tips[0]) {
            lemma_walk_guards(graph, repo.history(tips[0]));
        }
        assert forall|k: int|
            0 <= k < tips.drop_first().len() && above_root(
                repo,
                first.root_id,
                #[trigger] tips.drop_first()[k],
            ) implies follows(first, repo.history(tips.drop_first()[k])) by {
            assert(tips.drop_first()[k] == tips[k + 1]);
            assert(follows(graph, repo.history(tips[k + 1])));
            if above_root(repo, graph.root_id, tips[0]) {
                lemma_follows_same_shape(graph, first, repo.history(tips[k + 1]));
            }
        }
        lemma_tips_guard(first, repo, tips.drop_first());
    }
}

} // verus!
