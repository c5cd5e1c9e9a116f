//! What a marking and the passes for old and foreign branches come to: a
//! marking takes the whole subtree, and a pass run a second time finds
//! nothing left to do.
use vstd::prelude::*;
use crate::git::branch::branch_names;
use crate::git::oid::Oid;
use crate::graph::acyclic::{
    lemma_path_on, lemma_protect_quiet, lemma_reached_by_child, lemma_same_shape_acyclic,
    lemma_sweep_ends, quiet,
};
use crate::graph::depth::{lemma_marking_ends, lemma_path_same_shape};
use crate::graph::model::{
    lemma_reaches_child, lemma_reaches_on, lemma_reaches_self, lemma_with_action_sound, GraphView,
};
use crate::graph::node::Action;
use crate::graph::protect::{
    foreign_visitor, mark_level, mark_levels, mark_one, mark_protected, old_visitor,
    protect_foreign, protect_old, subtree_old, subtree_personal,
};
use crate::graph::rebase::{on_frontier, protected_path};
use crate::graph::replay::reached_from;
use crate::graph::sweep::{first_level, sweep, visit_children, visit_level, visit_levels, Names, Sweep};

verus! {

/// Whether `names` hold the name of each branch at the node `x`.
pub open spec fn collected(g: GraphView, names: Names, x: Oid) -> bool {
    forall|j: int| 0 <= j < g.nodes[x].branches.len() ==> names.contains((#[trigger] g.nodes[x].branches[j]).name)
}

/// Whether the node `x` is protected and the names of its branches are
/// collected.
pub open spec fn taken(s: Sweep<Names>, x: Oid) -> bool {
    s.graph.nodes[x].action == Action::Protected && collected(s.graph, s.acc, x)
}

/// Whether `after` holds every name that `before` holds.
pub open spec fn names_kept(before: Names, after: Names) -> bool {
    forall|n: Seq<char>| before.contains(n) ==> after.contains(n)
}

/// Where a marking of the subtree of `c` in `h` stands, with the nodes of
/// `level` still to come on the level at hand: whatever `c` reaches is taken,
/// or reached from a node that is still to come; nothing else has changed.
pub open spec fn marking(h: GraphView, c: Oid, s: Sweep<Names>, level: Seq<Oid>) -> bool {
    &&& s.graph.sound()
    &&& h.same_shape(s.graph)
    &&& h.contains_all(level)
    &&& h.contains_all(s.next)
    &&& forall|i: int| 0 <= i < level.len() ==> h.reaches(c, #[trigger] level[i])
    &&& forall|i: int| 0 <= i < s.next.len() ==> h.reaches(c, #[trigger] s.next[i])
    &&& forall|x: Oid|
        #[trigger] h.reaches(c, x) ==> taken(s, x) || reached_from(h, level, x) || reached_from(
            h,
            s.next,
            x,
        )
    &&& forall|x: Oid| !h.reaches(c, x) ==> (#[trigger] s.graph.nodes[x]) == h.nodes[x]
}

/// One level of a marking goes on as a marking does, and drops no name.
pub proof fn lemma_mark_level_covers(h: GraphView, c: Oid, s: Sweep<Names>, level: Seq<Oid>)
    requires
        h.sound(),
        marking(h, c, s, level),
    ensures
        marking(h, c, mark_level(s, level), Seq::empty()),
        names_kept(s.acc, mark_level(s, level).acc),
    decreases level.len(),
{
    if level.len() == 0 {
        assert(level =~= Seq::<Oid>::empty());
    } else {
        let id = level[0];
        let rest = level.drop_first();
        let one = mark_one(s, id);
        let kids = s.graph.nodes[id].children;
        assert(h.contains(level[0]));
        assert(h.reaches(c, level[0]));
        assert(kids == h.nodes[id].children);
        lemma_with_action_sound(s.graph, id, Action::Protected);
        assert(names_kept(s.acc, one.acc)) by {
            assert forall|n: Seq<char>| s.acc.contains(n) implies one.acc.contains(n) by {
                let k = choose|k: int| 0 <= k < s.acc.len() && s.acc[k] == n;
                assert(one.acc[k] == n);
            }
        }
        assert forall|i: int| 0 <= i < one.next.len() implies h.contains(#[trigger] one.next[i])
            && h.reaches(c, one.next[i]) by {
            if i < s.next.len() {
                assert(h.contains(s.next[i]));
                assert(h.reaches(c, s.next[i]));
            } else {
                let k = i - s.next.len();
                assert(one.next[i] == kids[k]);
                assert(h.contains(h.nodes[id].children[k]));
                assert(h.nodes[id].children.contains(kids[k]));
                lemma_reaches_child(h, c, id, kids[k]);
            }
        }
        assert forall|i: int| 0 <= i < rest.len() implies h.contains(#[trigger] rest[i]) && h.reaches(
            c,
            rest[i],
        ) by {
            assert(rest[i] == level[i + 1]);
            assert(h.contains(level[i + 1]));
        }
        assert forall|x: Oid| #[trigger] h.reaches(c, x) implies taken(one, x) || reached_from(h, rest, x)
            || reached_from(h, one.next, x) by {
            if taken(s, x) {
                assert forall|j: int| 0 <= j < one.graph.nodes[x].branches.len() implies one.acc.contains(
                    (#[trigger] one.graph.nodes[x].branches[j]).name,
                ) by {
                    assert(one.graph.nodes[x].branches == s.graph.nodes[x].branches);
                    assert(s.acc.contains(s.graph.nodes[x].branches[j].name));
                }
            } else if reached_from(h, level, x) {
                let i = choose|i: int| 0 <= i < level.len() && h.reaches(#[trigger] level[i], x);
                if i > 0 {
                    assert(rest[i - 1] == level[i]);
                    assert(h.reaches(rest[i - 1], x));
                } else if x == id {
                    let names = branch_names(s.graph.nodes[id].branches);
                    assert forall|j: int| 0 <= j < one.graph.nodes[x].branches.len() implies one.acc.contains(
                        (#[trigger] one.graph.nodes[x].branches[j]).name,
                    ) by {
                        assert(one.graph.nodes[x].branches == s.graph.nodes[x].branches);
                        assert(names[j] == s.graph.nodes[x].branches[j].name);
                        assert(one.acc[s.acc.len() + j] == names[j]);
                    }
                } else {
                    lemma_reached_by_child(h, id, x);
                    let k = choose|k: int|
                        0 <= k < h.nodes[id].children.len() && h.reaches(#[trigger] h.nodes[id].children[k], x);
                    assert(one.next[s.next.len() + k] == kids[k]);
                    assert(h.reaches(one.next[s.next.len() + k], x));
                }
            } else {
                let i = choose|i: int| 0 <= i < s.next.len() && h.reaches(#[trigger] s.next[i], x);
                assert(one.next[i] == s.next[i]);
                assert(h.reaches(one.next[i], x));
            }
        }
        assert forall|x: Oid| !h.reaches(c, x) implies (#[trigger] one.graph.nodes[x]) == h.nodes[x] by {
            assert(x != id);
            assert(s.graph.nodes[x] == h.nodes[x]);
        }
        assert(marking(h, c, one, rest));
        lemma_mark_level_covers(h, c, one, rest);
        let done = mark_level(s, level);
        assert forall|n: Seq<char>| s.acc.contains(n) implies done.acc.contains(n) by {
            assert(one.acc.contains(n));
        }
    }
}

/// A marking goes on as a marking does, level after level, and drops no
/// name.
pub proof fn lemma_mark_levels_cover(h: GraphView, c: Oid, s: Sweep<Names>, depth: nat)
    requires
        h.sound(),
        marking(h, c, s, Seq::empty()),
    ensures
        marking(h, c, mark_levels(s, depth), Seq::empty()),
        names_kept(s.acc, mark_levels(s, depth).acc),
    decreases depth,
{
    if depth > 0 && s.next.len() > 0 {
        let cleared = Sweep { next: Seq::empty(), ..s };
        let none = Seq::<Oid>::empty();
        assert forall|x: Oid| #[trigger] h.reaches(c, x) implies taken(cleared, x) || reached_from(
            h,
            s.next,
            x,
        ) || reached_from(h, cleared.next, x) by {
            assert(taken(s, x) || reached_from(h, none, x) || reached_from(h, s.next, x));
        }
        assert(marking(h, c, cleared, s.next));
        lemma_mark_level_covers(h, c, cleared, s.next);
        let one = mark_level(cleared, s.next);
        lemma_mark_levels_cover(h, c, one, (depth - 1) as nat);
        let done = mark_levels(s, depth);
        assert forall|n: Seq<char>| s.acc.contains(n) implies done.acc.contains(n) by {
            assert(one.acc.contains(n));
        }
    }
}

/// In a graph without cycles a marking takes the whole subtree: every node
/// that the node reaches is protected in the end, the name of every branch in
/// the subtree is collected, and no other node is touched.
pub proof fn lemma_marking_covers(h: GraphView, names: Names, c: Oid, depth: nat)
    requires
        h.sound(),
        h.acyclic(),
        h.contains(c),
        depth >= h.size(),
    ensures
        mark_protected(h, names, c, depth).graph.sound(),
        h.same_shape(mark_protected(h, names, c, depth).graph),
        forall|x: Oid| #[trigger] h.reaches(c, x) ==> taken(mark_protected(h, names, c, depth), x),
        forall|x: Oid| !h.reaches(c, x) ==> (#[trigger] mark_protected(h, names, c, depth).graph.nodes[x]) == h.nodes[x],
        names_kept(names, mark_protected(h, names, c, depth).acc),
{
    let start = Sweep { graph: h, acc: names, next: seq![c] };
    let none = Seq::<Oid>::empty();
    lemma_reaches_self(h, c);
    assert forall|x: Oid| #[trigger] h.reaches(c, x) implies taken(start, x) || reached_from(h, none, x)
        || reached_from(h, start.next, x) by {
        assert(h.reaches(start.next[0], x));
    }
    assert(marking(h, c, start, none));
    lemma_mark_levels_cover(h, c, start, depth);
    lemma_marking_ends(h, names, c, depth);
    let done = mark_protected(h, names, c, depth);
    assert forall|x: Oid| #[trigger] h.reaches(c, x) implies taken(done, x) by {
        assert(!reached_from(h, none, x));
        assert(!reached_from(h, done.next, x));
    }
}

/// What a pass that protects chosen subtrees does with a child of a
/// protected node: a protected child is put aside for the next level; another
/// that is `fit` is marked with its whole subtree.
pub open spec fn pick_visit(s: Sweep<Names>, child: Oid, fit: spec_fn(Oid) -> bool, depth: nat) -> Sweep<
    Names,
> {
    if s.graph.nodes[child].action == Action::Protected {
        Sweep { next: s.next.push(child), ..s }
    } else if fit(child) {
        let marked = mark_protected(s.graph, s.acc, child, depth);
        Sweep { graph: marked.graph, acc: marked.acc, next: s.next }
    } else {
        s
    }
}

/// Whether `visit` is such a visit wherever the graph has the shape of `g`.
pub open spec fn choosing(
    visit: spec_fn(Sweep<Names>, Oid, Oid) -> Sweep<Names>,
    g: GraphView,
    fit: spec_fn(Oid) -> bool,
    depth: nat,
) -> bool {
    forall|s: Sweep<Names>, parent: Oid, child: Oid|
        g.same_shape(s.graph) && g.contains(child) ==> #[trigger] visit(s, parent, child) == pick_visit(
            s,
            child,
            fit,
            depth,
        )
}

/// Whether `visit` rests where nothing is fit: wherever the graph has the
/// shape of `g`, it puts a protected child aside for the next level and does
/// nothing with a child that is neither protected nor fit.
pub open spec fn resting(
    visit: spec_fn(Sweep<Names>, Oid, Oid) -> Sweep<Names>,
    g: GraphView,
    fit: spec_fn(Oid) -> bool,
) -> bool {
    forall|s: Sweep<Names>, parent: Oid, child: Oid|
        g.same_shape(s.graph) && g.contains(child) ==> #[trigger] visit(s, parent, child) == (if s.graph.nodes[child].action
            == Action::Protected {
            Sweep { next: s.next.push(child), ..s }
        } else if fit(child) {
            visit(s, parent, child)
        } else {
            s
        })
}

/// Whether every child of `p` is protected or not fit.
pub open spec fn settled_at(h: GraphView, fit: spec_fn(Oid) -> bool, p: Oid) -> bool {
    forall|i: int|
        0 <= i < h.nodes[p].children.len() ==> h.nodes[#[trigger] h.nodes[p].children[i]].action
            == Action::Protected || !fit(h.nodes[p].children[i])
}

/// Whether nothing is left to protect: every child of a node that is reached
/// from the root over protected nodes is protected or not fit.
pub open spec fn stable(h: GraphView, fit: spec_fn(Oid) -> bool) -> bool {
    forall|p: Oid| #[trigger] on_frontier(h, p) && h.contains(p) ==> settled_at(h, fit, p)
}

/// Whether each of `ids` is a node reached from the root over protected
/// nodes.
pub open spec fn all_on_frontier(h: GraphView, ids: Seq<Oid>) -> bool {
    forall|i: int| 0 <= i < ids.len() ==> h.contains(#[trigger] ids[i]) && on_frontier(h, ids[i])
}

/// Where nothing is left to protect, the visits of some children of a node
/// change nothing.
pub proof fn lemma_children_still(
    visit: spec_fn(Sweep<Names>, Oid, Oid) -> Sweep<Names>,
    g: GraphView,
    fit: spec_fn(Oid) -> bool,
    s: Sweep<Names>,
    parent: Oid,
    children: Seq<Oid>,
)
    requires
        resting(visit, g, fit),
        g.same_shape(s.graph),
        s.graph.closed(),
        stable(s.graph, fit),
        s.graph.contains(parent),
        on_frontier(s.graph, parent),
        forall|i: int| 0 <= i < children.len() ==> s.graph.nodes[parent].children.contains(#[trigger] children[i]),
        all_on_frontier(s.graph, s.next),
    ensures
        visit_children(visit, s, parent, children).graph == s.graph,
        visit_children(visit, s, parent, children).acc == s.acc,
        all_on_frontier(s.graph, visit_children(visit, s, parent, children).next),
    decreases children.len(),
{
    if children.len() > 0 {
        let h = s.graph;
        let child = children[0];
        assert(h.nodes[parent].children.contains(children[0]));
        let k = choose|k: int| 0 <= k < h.nodes[parent].children.len() && h.nodes[parent].children[k] == child;
        assert(h.contains(h.nodes[parent].children[k]));
        assert(settled_at(h, fit, parent));
        assert(h.nodes[h.nodes[parent].children[k]].action == Action::Protected || !fit(
            h.nodes[parent].children[k],
        ));
        let t = visit(s, parent, child);
        if h.nodes[child].action == Action::Protected {
            let path = choose|path: Seq<Oid>| #[trigger] protected_path(h, path) && path.last() == parent;
            lemma_path_on(h, path, child);
            let longer = path.push(child);
            assert forall|i: int| 0 <= i < longer.len() implies h.is_protected(#[trigger] longer[i]) by {
                if i < path.len() {
                    assert(longer[i] == path[i]);
                    assert(h.is_protected(path[i]));
                }
            }
            assert(protected_path(h, longer));
            assert(on_frontier(h, child));
        }
        assert forall|i: int| 0 <= i < t.next.len() implies h.contains(#[trigger] t.next[i]) && on_frontier(
            h,
            t.next[i],
        ) by {
            if i < s.next.len() {
                assert(h.contains(s.next[i]));
            }
        }
        assert forall|i: int| 0 <= i < children.drop_first().len() implies h.nodes[parent].children.contains(
            #[trigger] children.drop_first()[i],
        ) by {
            assert(children.drop_first()[i] == children[i + 1]);
        }
        lemma_children_still(visit, g, fit, t, parent, children.drop_first());
    }
}

/// The same for a level.
pub proof fn lemma_level_still(
    visit: spec_fn(Sweep<Names>, Oid, Oid) -> Sweep<Names>,
    g: GraphView,
    fit: spec_fn(Oid) -> bool,
    s: Sweep<Names>,
    level: Seq<Oid>,
)
    requires
        resting(visit, g, fit),
        g.same_shape(s.graph),
        s.graph.closed(),
        stable(s.graph, fit),
        all_on_frontier(s.graph, level),
        all_on_frontier(s.graph, s.next),
    ensures
        visit_level(visit, s, level).graph == s.graph,
        visit_level(visit, s, level).acc == s.acc,
        all_on_frontier(s.graph, visit_level(visit, s, level).next),
    decreases level.len(),
{
    if level.len() > 0 {
        let parent = level[0];
        assert(s.graph.contains(level[0]) && on_frontier(s.graph, level[0]));
        let children = s.graph.children(parent);
        assert forall|i: int| 0 <= i < children.len() implies s.graph.nodes[parent].children.contains(
            #[trigger] children[i],
        ) by {}
        lemma_children_still(visit, g, fit, s, parent, children);
        assert forall|i: int| 0 <= i < level.drop_first().len() implies s.graph.contains(
            #[trigger] level.drop_first()[i],
        ) && on_frontier(s.graph, level.drop_first()[i]) by {
            assert(level.drop_first()[i] == level[i + 1]);
        }
        lemma_level_still(
            visit,
            g,
            fit,
            visit_children(visit, s, parent, children),
            level.drop_first(),
        );
    }
}

/// The same level after level.
pub proof fn lemma_levels_still(
    visit: spec_fn(Sweep<Names>, Oid, Oid) -> Sweep<Names>,
    g: GraphView,
    fit: spec_fn(Oid) -> bool,
    s: Sweep<Names>,
    left: nat,
)
    requires
        resting(visit, g, fit),
        g.same_shape(s.graph),
        s.graph.closed(),
        stable(s.graph, fit),
        all_on_frontier(s.graph, s.next),
    ensures
        visit_levels(visit, s, left).graph == s.graph,
        visit_levels(visit, s, left).acc == s.acc,
    decreases left,
{
    if left > 0 && s.next.len() > 0 {
        let cleared = Sweep { next: Seq::empty(), ..s };
        assert(all_on_frontier(cleared.graph, cleared.next));
        lemma_level_still(visit, g, fit, cleared, s.next);
        lemma_levels_still(visit, g, fit, visit_level(visit, cleared, s.next), (left - 1) as nat);
    }
}

/// Where nothing is left to protect, a pass changes nothing and returns no
/// name.
pub proof fn lemma_sweep_still(
    visit: spec_fn(Sweep<Names>, Oid, Oid) -> Sweep<Names>,
    g: GraphView,
    fit: spec_fn(Oid) -> bool,
    h: GraphView,
)
    requires
        resting(visit, g, fit),
        g.same_shape(h),
        h.closed(),
        h.contains(h.root_id),
        stable(h, fit),
    ensures
        sweep(visit, h, Seq::empty()).graph == h,
        sweep(visit, h, Seq::empty()).acc == Seq::<Seq<char>>::empty(),
{
    let start = Sweep { graph: h, acc: Seq::<Seq<char>>::empty(), next: first_level(h) };
    assert forall|i: int| 0 <= i < start.next.len() implies h.contains(#[trigger] start.next[i]) && on_frontier(
        h,
        start.next[i],
    ) by {
        let path = seq![h.root_id];
        assert(h.is_path(path));
        assert(protected_path(h, path));
        assert(path.last() == h.root_id);
    }
    lemma_levels_still(visit, g, fit, start, h.size());
}

/// Graphs of the same shape have the same paths.
pub proof fn lemma_reaches_same_shape(g: GraphView, h: GraphView, a: Oid, b: Oid)
    requires
        g.same_shape(h),
    ensures
        g.reaches(a, b) == h.reaches(a, b),
{
    if g.reaches(a, b) {
        let path = choose|path: Seq<Oid>| #[trigger] g.is_path(path) && path[0] == a && path.last() == b;
        lemma_path_same_shape(g, h, path);
    }
    if h.reaches(a, b) {
        let path = choose|path: Seq<Oid>| #[trigger] h.is_path(path) && path[0] == a && path.last() == b;
        assert(h.same_shape(g));
        lemma_path_same_shape(h, g, path);
    }
}

/// Whether the whole subtree of `m` is taken: every node that `m` reaches
/// is protected, and the names of its branches are collected.
pub open spec fn deep(g: GraphView, s: Sweep<Names>, m: Oid) -> bool {
    forall|x: Oid| #[trigger] g.reaches(m, x) ==> taken(s, x)
}

/// Whether the walk is done with the node `c` as a child: if it is
/// protected, the walk has come by it, will come by it, or its whole subtree is
/// taken; if it is not, it is not fit.
pub open spec fn handled(
    g: GraphView,
    fit: spec_fn(Oid) -> bool,
    s: Sweep<Names>,
    seen: Set<Oid>,
    level: Seq<Oid>,
    c: Oid,
) -> bool {
    &&& s.graph.nodes[c].action == Action::Protected ==> seen.contains(c) || level.contains(c)
        || s.next.contains(c) || deep(g, s, c)
    &&& s.graph.nodes[c].action != Action::Protected ==> !fit(c)
}

/// Whether the walk is done with every child of `p`.
pub open spec fn visited(
    g: GraphView,
    fit: spec_fn(Oid) -> bool,
    s: Sweep<Names>,
    seen: Set<Oid>,
    level: Seq<Oid>,
    p: Oid,
) -> bool {
    forall|i: int|
        0 <= i < g.nodes[p].children.len() ==> handled(g, fit, s, seen, level, #[trigger] g.nodes[p].children[i])
}

/// Whether `x` lies within a fit subtree below the protected part of `g`:
/// an unprotected, fit child of a node that is reached from the root over
/// protected nodes reaches it.
pub open spec fn within(g: GraphView, fit: spec_fn(Oid) -> bool, x: Oid) -> bool {
    exists|p: Oid, i: int|
        on_frontier(g, p) && g.contains(p) && 0 <= i < g.nodes[p].children.len() && g.nodes[g.nodes[p].children[i]].action
            != Action::Protected && fit(g.nodes[p].children[i]) && #[trigger] g.reaches(
            g.nodes[p].children[i],
            x,
        )
}

/// Whether each of `ids` is reached from the root of `g` over protected
/// nodes, or its whole subtree is taken.
pub open spec fn all_reached(g: GraphView, s: Sweep<Names>, ids: Seq<Oid>) -> bool {
    forall|i: int| 0 <= i < ids.len() ==> on_frontier(g, #[trigger] ids[i]) || deep(g, s, ids[i])
}

/// Where a pass over `g` stands, with the nodes `seen` done and the nodes
/// of `level` still to come on the level at hand.
pub open spec fn walking(
    g: GraphView,
    fit: spec_fn(Oid) -> bool,
    s: Sweep<Names>,
    seen: Set<Oid>,
    level: Seq<Oid>,
) -> bool {
    &&& s.graph.sound()
    &&& g.same_shape(s.graph)
    &&& forall|i: int| 0 <= i < level.len() ==> s.graph.is_protected(#[trigger] level[i])
    &&& forall|i: int| 0 <= i < s.next.len() ==> s.graph.is_protected(#[trigger] s.next[i])
    &&& forall|x: Oid| g.nodes[x].action == Action::Protected ==> (#[trigger] s.graph.nodes[x]).action == Action::Protected
    &&& forall|m: Oid|
        g.contains(m) && (#[trigger] s.graph.nodes[m]).action == Action::Protected && g.nodes[m].action
            != Action::Protected ==> deep(g, s, m)
    &&& forall|p: Oid| #[trigger] seen.contains(p) ==> s.graph.is_protected(p) && visited(g, fit, s, seen, level, p)
    &&& all_reached(g, s, level)
    &&& all_reached(g, s, s.next)
    &&& forall|x: Oid| (#[trigger] s.graph.nodes[x]) != g.nodes[x] ==> within(g, fit, x)
}

/// Whether the pass has gone on from `s` to `t`: what was protected is,
/// what was collected is, and what was done is.
pub open spec fn gone_on(
    g: GraphView,
    fit: spec_fn(Oid) -> bool,
    s: Sweep<Names>,
    t: Sweep<Names>,
    seen: Set<Oid>,
    level: Seq<Oid>,
) -> bool {
    &&& names_kept(s.acc, t.acc)
    &&& forall|c: Oid| handled(g, fit, s, seen, level, c) ==> #[trigger] handled(g, fit, t, seen, level, c)
}

/// One visit goes on as the pass does, and is done with the child.
pub proof fn lemma_visit_walks(
    g: GraphView,
    fit: spec_fn(Oid) -> bool,
    depth: nat,
    s: Sweep<Names>,
    seen: Set<Oid>,
    level: Seq<Oid>,
    child: Oid,
)
    requires
        g.sound(),
        g.acyclic(),
        depth >= g.size(),
        walking(g, fit, s, seen, level),
        g.contains(child),
        level.len() > 0,
        g.contains(level[0]),
        g.nodes[level[0]].children.contains(child),
    ensures
        walking(g, fit, pick_visit(s, child, fit, depth), seen, level),
        handled(g, fit, pick_visit(s, child, fit, depth), seen, level, child),
        gone_on(g, fit, s, pick_visit(s, child, fit, depth), seen, level),
{
    let t = pick_visit(s, child, fit, depth);
    let h = s.graph;
    let parent = level[0];
    let at = choose|k: int| 0 <= k < g.nodes[parent].children.len() && g.nodes[parent].children[k] == child;
    assert(on_frontier(g, level[0]) || deep(g, s, level[0]));
    lemma_reaches_self(g, parent);
    lemma_reaches_child(g, parent, parent, child);
    if h.nodes[child].action == Action::Protected {
        assert(t.next[s.next.len() as int] == child);
        assert(t.next.contains(child));
        assert(on_frontier(g, child) || deep(g, t, child)) by {
            if g.nodes[child].action != Action::Protected {
                assert(deep(g, s, child));
                assert forall|x: Oid| #[trigger] g.reaches(child, x) implies taken(t, x) by {
                    assert(taken(s, x));
                }
            } else if on_frontier(g, parent) {
                let path = choose|path: Seq<Oid>| #[trigger] protected_path(g, path) && path.last() == parent;
                lemma_path_on(g, path, child);
                let longer = path.push(child);
                assert forall|i: int| 0 <= i < longer.len() implies g.is_protected(#[trigger] longer[i]) by {
                    if i < path.len() {
                        assert(longer[i] == path[i]);
                        assert(g.is_protected(path[i]));
                    }
                }
                assert(protected_path(g, longer));
            } else {
                assert forall|x: Oid| #[trigger] g.reaches(child, x) implies taken(t, x) by {
                    lemma_reaches_on(g, parent, child, x);
                    assert(taken(s, x));
                }
            }
        }
        assert forall|i: int| 0 <= i < level.len() implies on_frontier(g, #[trigger] level[i]) || deep(
            g,
            t,
            level[i],
        ) by {
            if deep(g, s, level[i]) {
                assert forall|x: Oid| #[trigger] g.reaches(level[i], x) implies taken(t, x) by {
                    assert(taken(s, x));
                }
            }
        }
        assert forall|i: int| 0 <= i < t.next.len() implies on_frontier(g, #[trigger] t.next[i]) || deep(
            g,
            t,
            t.next[i],
        ) by {
            if i < s.next.len() {
                assert(t.next[i] == s.next[i]);
                if deep(g, s, s.next[i]) {
                    assert forall|x: Oid| #[trigger] g.reaches(s.next[i], x) implies taken(t, x) by {
                        assert(taken(s, x));
                    }
                }
            }
        }
        assert forall|c: Oid| handled(g, fit, s, seen, level, c) implies #[trigger] handled(
            g,
            fit,
            t,
            seen,
            level,
            c,
        ) by {
            if s.next.contains(c) {
                let k = choose|k: int| 0 <= k < s.next.len() && s.next[k] == c;
                assert(t.next[k] == c);
            }
            if deep(g, s, c) {
                assert forall|x: Oid| #[trigger] g.reaches(c, x) implies taken(t, x) by {
                    assert(taken(s, x));
                }
            }
        }
        assert forall|i: int| 0 <= i < t.next.len() implies t.graph.is_protected(#[trigger] t.next[i]) by {
            if i < s.next.len() {
                assert(s.graph.is_protected(s.next[i]));
            }
        }
        assert forall|m: Oid|
            g.contains(m) && (#[trigger] t.graph.nodes[m]).action == Action::Protected && g.nodes[m].action
                != Action::Protected implies deep(g, t, m) by {
            assert(deep(g, s, m));
            assert forall|x: Oid| #[trigger] g.reaches(m, x) implies taken(t, x) by {
                assert(taken(s, x));
            }
        }
        assert forall|p: Oid| #[trigger] seen.contains(p) implies t.graph.is_protected(p) && visited(
            g,
            fit,
            t,
            seen,
            level,
            p,
        ) by {
            assert(visited(g, fit, s, seen, level, p));
            assert forall|i: int| 0 <= i < g.nodes[p].children.len() implies handled(
                g,
                fit,
                t,
                seen,
                level,
                #[trigger] g.nodes[p].children[i],
            ) by {
                assert(handled(g, fit, s, seen, level, g.nodes[p].children[i]));
            }
        }
    } else if fit(child) {
        lemma_same_shape_acyclic(g, h);
        assert(h.size() == g.size());
        lemma_marking_covers(h, s.acc, child, depth);
        let m = mark_protected(h, s.acc, child, depth);
        assert(t.graph == m.graph && t.acc == m.acc && t.next == s.next);
        assert forall|x: Oid| taken(s, x) implies taken(t, x) by {
            lemma_reaches_same_shape(g, h, child, x);
            if !h.reaches(child, x) {
                assert(t.graph.nodes[x] == h.nodes[x]);
                assert forall|j: int| 0 <= j < t.graph.nodes[x].branches.len() implies t.acc.contains(
                    (#[trigger] t.graph.nodes[x].branches[j]).name,
                ) by {
                    assert(s.acc.contains(h.nodes[x].branches[j].name));
                }
            }
        }
        assert forall|c: Oid| deep(g, s, c) implies deep(g, t, c) by {
            assert forall|x: Oid| #[trigger] g.reaches(c, x) implies taken(t, x) by {
                assert(taken(s, x));
            }
        }
        // what is newly protected lies in the subtree, which is taken as a whole
        assert forall|c: Oid|
            t.graph.nodes[c].action == Action::Protected && h.nodes[c].action != Action::Protected implies deep(
            g,
            t,
            c,
        ) by {
            assert(h.reaches(child, c)) by {
                if !h.reaches(child, c) {
                    assert(t.graph.nodes[c] == h.nodes[c]);
                }
            }
            assert forall|x: Oid| #[trigger] g.reaches(c, x) implies taken(t, x) by {
                lemma_reaches_same_shape(g, h, child, c);
                lemma_reaches_on(g, child, c, x);
                lemma_reaches_same_shape(g, h, child, x);
            }
        }
        assert forall|x: Oid| h.nodes[x].action == Action::Protected implies (#[trigger] t.graph.nodes[x]).action
            == Action::Protected by {
            if !h.reaches(child, x) {
                assert(t.graph.nodes[x] == h.nodes[x]);
            }
        }
        assert forall|c: Oid| handled(g, fit, s, seen, level, c) implies #[trigger] handled(
            g,
            fit,
            t,
            seen,
            level,
            c,
        ) by {
            if t.graph.nodes[c].action != Action::Protected {
                assert(h.nodes[c].action != Action::Protected);
            }
        }
        assert(handled(g, fit, t, seen, level, child)) by {
            lemma_reaches_self(h, child);
        }
        assert forall|i: int| 0 <= i < level.len() implies t.graph.is_protected(#[trigger] level[i]) by {
            assert(h.is_protected(level[i]));
        }
        assert forall|i: int| 0 <= i < t.next.len() implies t.graph.is_protected(#[trigger] t.next[i]) by {
            assert(h.is_protected(s.next[i]));
        }
        assert forall|x: Oid| g.nodes[x].action == Action::Protected implies (#[trigger] t.graph.nodes[x]).action
            == Action::Protected by {
            assert(h.nodes[x].action == Action::Protected);
        }
        assert forall|m2: Oid|
            g.contains(m2) && (#[trigger] t.graph.nodes[m2]).action == Action::Protected && g.nodes[m2].action
                != Action::Protected implies deep(g, t, m2) by {
            if h.nodes[m2].action == Action::Protected {
                assert(deep(g, s, m2));
            }
        }
        assert forall|p: Oid| #[trigger] seen.contains(p) implies t.graph.is_protected(p) && visited(
            g,
            fit,
            t,
            seen,
            level,
            p,
        ) by {
            assert(h.is_protected(p));
            assert(visited(g, fit, s, seen, level, p));
            assert forall|i: int| 0 <= i < g.nodes[p].children.len() implies handled(
                g,
                fit,
                t,
                seen,
                level,
                #[trigger] g.nodes[p].children[i],
            ) by {
                assert(handled(g, fit, s, seen, level, g.nodes[p].children[i]));
            }
        }
        assert(g.same_shape(t.graph));
        assert forall|i: int| 0 <= i < level.len() implies on_frontier(g, #[trigger] level[i]) || deep(
            g,
            t,
            level[i],
        ) by {
            assert(on_frontier(g, level[i]) || deep(g, s, level[i]));
        }
        assert forall|i: int| 0 <= i < t.next.len() implies on_frontier(g, #[trigger] t.next[i]) || deep(
            g,
            t,
            t.next[i],
        ) by {
            assert(on_frontier(g, s.next[i]) || deep(g, s, s.next[i]));
        }
        // what changes lies in the subtree of the child, which hangs on the
        // protected part
        assert forall|x: Oid| (#[trigger] t.graph.nodes[x]) != g.nodes[x] implies within(g, fit, x) by {
            if h.nodes[x] == g.nodes[x] {
                assert(h.reaches(child, x)) by {
                    if !h.reaches(child, x) {
                        assert(t.graph.nodes[x] == h.nodes[x]);
                    }
                }
                lemma_reaches_same_shape(g, h, child, x);
                assert(on_frontier(g, parent)) by {
                    if deep(g, s, parent) {
                        assert(taken(s, child));
                    }
                }
                assert(g.nodes[child].action != Action::Protected);
                assert(g.reaches(g.nodes[parent].children[at], x));
            }
        }
    } else {
    }
}

/// The visits of some children of a node go on as the pass does, and are
/// done with each of them.
pub proof fn lemma_children_walk(
    visit: spec_fn(Sweep<Names>, Oid, Oid) -> Sweep<Names>,
    g: GraphView,
    fit: spec_fn(Oid) -> bool,
    depth: nat,
    s: Sweep<Names>,
    seen: Set<Oid>,
    level: Seq<Oid>,
    parent: Oid,
    children: Seq<Oid>,
)
    requires
        g.sound(),
        g.acyclic(),
        depth >= g.size(),
        choosing(visit, g, fit, depth),
        walking(g, fit, s, seen, level),
        g.contains(parent),
        level.len() > 0,
        level[0] == parent,
        forall|i: int| 0 <= i < children.len() ==> g.nodes[parent].children.contains(#[trigger] children[i]),
    ensures
        walking(g, fit, visit_children(visit, s, parent, children), seen, level),
        gone_on(g, fit, s, visit_children(visit, s, parent, children), seen, level),
        forall|i: int|
            0 <= i < children.len() ==> handled(
                g,
                fit,
                visit_children(visit, s, parent, children),
                seen,
                level,
                #[trigger] children[i],
            ),
    decreases children.len(),
{
    if children.len() > 0 {
        let child = children[0];
        let rest = children.drop_first();
        assert(g.nodes[parent].children.contains(children[0]));
        let k = choose|k: int| 0 <= k < g.nodes[parent].children.len() && g.nodes[parent].children[k] == child;
        assert(g.contains(g.nodes[parent].children[k]));
        let t = visit(s, parent, child);
        assert(t == pick_visit(s, child, fit, depth));
        lemma_visit_walks(g, fit, depth, s, seen, level, child);
        assert forall|i: int| 0 <= i < rest.len() implies g.nodes[parent].children.contains(#[trigger] rest[i]) by {
            assert(rest[i] == children[i + 1]);
        }
        lemma_children_walk(visit, g, fit, depth, t, seen, level, parent, rest);
        let done = visit_children(visit, s, parent, children);
        assert(done == visit_children(visit, t, parent, rest));
        assert forall|n: Seq<char>| s.acc.contains(n) implies done.acc.contains(n) by {
            assert(t.acc.contains(n));
        }
        assert forall|c: Oid| handled(g, fit, s, seen, level, c) implies #[trigger] handled(
            g,
            fit,
            done,
            seen,
            level,
            c,
        ) by {
            assert(handled(g, fit, t, seen, level, c));
        }
        assert forall|i: int| 0 <= i < children.len() implies handled(
            g,
            fit,
            done,
            seen,
            level,
            #[trigger] children[i],
        ) by {
            if i == 0 {
                assert(handled(g, fit, t, seen, level, child));
            } else {
                assert(rest[i - 1] == children[i]);
            }
        }
    }
}

/// One level goes on as the pass does: in the end every node of the level
/// is done.
pub proof fn lemma_level_walk(
    visit: spec_fn(Sweep<Names>, Oid, Oid) -> Sweep<Names>,
    g: GraphView,
    fit: spec_fn(Oid) -> bool,
    depth: nat,
    s: Sweep<Names>,
    seen: Set<Oid>,
    level: Seq<Oid>,
)
    requires
        g.sound(),
        g.acyclic(),
        depth >= g.size(),
        choosing(visit, g, fit, depth),
        walking(g, fit, s, seen, level),
    ensures
        walking(
            g,
            fit,
            visit_level(visit, s, level),
            Set::new(|x: Oid| seen.contains(x) || level.contains(x)),
            Seq::empty(),
        ),
        names_kept(s.acc, visit_level(visit, s, level).acc),
    decreases level.len(),
{
    let all = Set::new(|x: Oid| seen.contains(x) || level.contains(x));
    let none = Seq::<Oid>::empty();
    if level.len() == 0 {
        assert(level =~= none);
        assert(all =~= seen);
    } else {
        let parent = level[0];
        let rest = level.drop_first();
        assert(s.graph.is_protected(level[0]));
        let children = s.graph.children(parent);
        assert(children == g.nodes[parent].children);
        assert forall|i: int| 0 <= i < children.len() implies g.nodes[parent].children.contains(
            #[trigger] children[i],
        ) by {}
        lemma_children_walk(visit, g, fit, depth, s, seen, level, parent, children);
        let t = visit_children(visit, s, parent, children);
        let more = seen.insert(parent);
        // the node is done: it goes over to the nodes seen
        assert forall|c: Oid| handled(g, fit, t, seen, level, c) implies handled(g, fit, t, more, rest, c) by {
            if level.contains(c) {
                let k = choose|k: int| 0 <= k < level.len() && level[k] == c;
                if k > 0 {
                    assert(rest[k - 1] == c);
                }
            }
        }
        assert forall|p: Oid| #[trigger] more.contains(p) implies t.graph.is_protected(p) && visited(
            g,
            fit,
            t,
            more,
            rest,
            p,
        ) by {
            if p == parent {
                assert(t.graph.nodes[parent].action == Action::Protected);
                assert forall|i: int| 0 <= i < g.nodes[p].children.len() implies handled(
                    g,
                    fit,
                    t,
                    more,
                    rest,
                    #[trigger] g.nodes[p].children[i],
                ) by {
                    assert(handled(g, fit, t, seen, level, children[i]));
                }
            } else {
                assert(seen.contains(p));
                assert(visited(g, fit, t, seen, level, p));
                assert forall|i: int| 0 <= i < g.nodes[p].children.len() implies handled(
                    g,
                    fit,
                    t,
                    more,
                    rest,
                    #[trigger] g.nodes[p].children[i],
                ) by {
                    assert(handled(g, fit, t, seen, level, g.nodes[p].children[i]));
                }
            }
        }
        assert forall|i: int| 0 <= i < rest.len() implies t.graph.is_protected(#[trigger] rest[i]) by {
            assert(rest[i] == level[i + 1]);
            assert(t.graph.is_protected(level[i + 1]));
        }
        assert(walking(g, fit, t, more, rest));
        lemma_level_walk(visit, g, fit, depth, t, more, rest);
        let done = visit_level(visit, s, level);
        assert(done == visit_level(visit, t, rest));
        assert(Set::new(|x: Oid| more.contains(x) || rest.contains(x)) =~= all) by {
            assert forall|x: Oid| (more.contains(x) || rest.contains(x)) == (seen.contains(x) || level.contains(
                x,
            )) by {
                if rest.contains(x) {
                    let k = choose|k: int| 0 <= k < rest.len() && rest[k] == x;
                    assert(level[k + 1] == x);
                }
                if level.contains(x) {
                    let k = choose|k: int| 0 <= k < level.len() && level[k] == x;
                    if k > 0 {
                        assert(rest[k - 1] == x);
                    }
                }
            }
        }
        assert forall|n: Seq<char>| s.acc.contains(n) implies done.acc.contains(n) by {
            assert(t.acc.contains(n));
        }
    }
}

/// Whether the pass has taken every fit subtree below the protected part
/// of `g`: the whole subtree of each unprotected, fit child of a node that is
/// reached from the root over protected nodes.
pub open spec fn covering(g: GraphView, fit: spec_fn(Oid) -> bool, s: Sweep<Names>) -> bool {
    forall|p: Oid, i: int|
        on_frontier(g, p) && g.contains(p) && 0 <= i < g.nodes[p].children.len() && g.nodes[#[trigger] g.nodes[p].children[i]].action
            != Action::Protected && fit(g.nodes[p].children[i]) ==> deep(g, s, g.nodes[p].children[i])
}

/// At the end of the pass, each node on a path from the root over protected
/// nodes is done, or its whole subtree is taken.
pub proof fn lemma_frontier_seen(
    g: GraphView,
    fit: spec_fn(Oid) -> bool,
    s: Sweep<Names>,
    seen: Set<Oid>,
    path: Seq<Oid>,
    k: int,
)
    requires
        g.sound(),
        walking(g, fit, s, seen, Seq::empty()),
        s.next.len() == 0,
        g.is_protected(g.root_id) ==> seen.contains(g.root_id),
        protected_path(s.graph, path),
        0 <= k < path.len(),
    ensures
        seen.contains(path[k]) || deep(g, s, path[k]),
        g.contains(path[k]),
    decreases k,
{
    let none = Seq::<Oid>::empty();
    assert(s.graph.is_protected(path[k]));
    if k == 0 {
        assert(s.graph.is_protected(path[0]));
        if g.nodes[path[0]].action != Action::Protected {
            assert(deep(g, s, path[0]));
        }
    } else {
        lemma_frontier_seen(g, fit, s, seen, path, k - 1);
        let prev = path[k - 1];
        let x = path[k];
        assert(s.graph.contains(prev) && s.graph.nodes[prev].children.contains(path[k - 1 + 1]));
        assert(g.nodes[prev].children == s.graph.nodes[prev].children);
        let i = choose|i: int| 0 <= i < g.nodes[prev].children.len() && g.nodes[prev].children[i] == x;
        if seen.contains(prev) {
            assert(visited(g, fit, s, seen, none, prev));
            assert(handled(g, fit, s, seen, none, g.nodes[prev].children[i]));
            assert(!none.contains(x));
            assert(!s.next.contains(x));
        } else {
            lemma_reaches_self(g, prev);
            lemma_reaches_child(g, prev, prev, x);
            assert forall|y: Oid| #[trigger] g.reaches(x, y) implies taken(s, y) by {
                lemma_reaches_on(g, prev, x, y);
            }
        }
    }
}

/// At the end of the pass nothing is left to protect, and every fit subtree
/// below the protected part is taken as a whole.
pub proof fn lemma_walk_done(g: GraphView, fit: spec_fn(Oid) -> bool, s: Sweep<Names>, seen: Set<Oid>)
    requires
        g.sound(),
        walking(g, fit, s, seen, Seq::empty()),
        s.next.len() == 0,
        g.is_protected(g.root_id) ==> seen.contains(g.root_id),
    ensures
        stable(s.graph, fit),
        covering(g, fit, s),
{
    let none = Seq::<Oid>::empty();
    let h = s.graph;
    assert forall|p: Oid| #[trigger] on_frontier(h, p) && h.contains(p) implies settled_at(h, fit, p) by {
        let path = choose|path: Seq<Oid>| #[trigger] protected_path(h, path) && path.last() == p;
        lemma_frontier_seen(g, fit, s, seen, path, path.len() - 1);
        assert(g.nodes[p].children == h.nodes[p].children);
        assert forall|i: int| 0 <= i < h.nodes[p].children.len() implies h.nodes[#[trigger] h.nodes[p].children[i]].action
            == Action::Protected || !fit(h.nodes[p].children[i]) by {
            let c = h.nodes[p].children[i];
            if seen.contains(p) {
                assert(visited(g, fit, s, seen, none, p));
                assert(handled(g, fit, s, seen, none, g.nodes[p].children[i]));
            } else {
                lemma_reaches_self(g, p);
                assert(g.nodes[p].children.contains(c));
                lemma_reaches_child(g, p, p, c);
                assert(taken(s, c));
            }
        }
    }
    assert forall|p: Oid, i: int|
        on_frontier(g, p) && g.contains(p) && 0 <= i < g.nodes[p].children.len() && g.nodes[#[trigger] g.nodes[p].children[i]].action
            != Action::Protected && fit(g.nodes[p].children[i]) implies deep(
        g,
        s,
        g.nodes[p].children[i],
    ) by {
        let c = g.nodes[p].children[i];
        let path = choose|path: Seq<Oid>| #[trigger] protected_path(g, path) && path.last() == p;
        lemma_path_same_shape(g, h, path);
        assert forall|k: int| 0 <= k < path.len() implies h.is_protected(#[trigger] path[k]) by {
            assert(g.is_protected(path[k]));
        }
        assert(protected_path(h, path));
        lemma_frontier_seen(g, fit, s, seen, path, path.len() - 1);
        assert(g.contains(g.nodes[p].children[i]));
        assert(g.nodes[p].children.contains(c));
        if seen.contains(p) {
            assert(visited(g, fit, s, seen, none, p));
            assert(handled(g, fit, s, seen, none, g.nodes[p].children[i]));
            assert(h.nodes[c].action == Action::Protected);
            assert(deep(g, s, c));
        } else {
            lemma_reaches_self(g, p);
            lemma_reaches_child(g, p, p, c);
            assert forall|y: Oid| #[trigger] g.reaches(c, y) implies taken(s, y) by {
                lemma_reaches_on(g, p, c, y);
            }
        }
    }
}

/// The pass goes on level after level; where it comes to its end, nothing is
/// left to protect, and every fit subtree below the protected part is taken.
pub proof fn lemma_levels_walk(
    visit: spec_fn(Sweep<Names>, Oid, Oid) -> Sweep<Names>,
    g: GraphView,
    fit: spec_fn(Oid) -> bool,
    depth: nat,
    s: Sweep<Names>,
    seen: Set<Oid>,
    left: nat,
)
    requires
        g.sound(),
        g.acyclic(),
        depth >= g.size(),
        choosing(visit, g, fit, depth),
        walking(g, fit, s, seen, Seq::empty()),
        g.is_protected(g.root_id) ==> seen.contains(g.root_id) || s.next.contains(g.root_id),
    ensures
        g.same_shape(visit_levels(visit, s, left).graph),
        visit_levels(visit, s, left).graph.sound(),
        forall|x: Oid| (#[trigger] visit_levels(visit, s, left).graph.nodes[x]) != g.nodes[x] ==> within(g, fit, x),
        visit_levels(visit, s, left).next.len() == 0 ==> stable(
            visit_levels(visit, s, left).graph,
            fit,
        ) && covering(g, fit, visit_levels(visit, s, left)),
    decreases left,
{
    let none = Seq::<Oid>::empty();
    if left == 0 || s.next.len() == 0 {
        if s.next.len() == 0 {
            assert(!s.next.contains(g.root_id));
            lemma_walk_done(g, fit, s, seen);
        }
    } else {
        let cleared = Sweep { next: none, ..s };
        assert forall|c: Oid| handled(g, fit, s, seen, none, c) implies handled(
            g,
            fit,
            cleared,
            seen,
            s.next,
            c,
        ) by {
            if deep(g, s, c) {
                assert forall|x: Oid| #[trigger] g.reaches(c, x) implies taken(cleared, x) by {
                    assert(taken(s, x));
                }
            }
        }
        assert forall|m: Oid|
            g.contains(m) && (#[trigger] cleared.graph.nodes[m]).action == Action::Protected && g.nodes[m].action
                != Action::Protected implies deep(g, cleared, m) by {
            assert(deep(g, s, m));
            assert forall|x: Oid| #[trigger] g.reaches(m, x) implies taken(cleared, x) by {
                assert(taken(s, x));
            }
        }
        assert forall|p: Oid| #[trigger] seen.contains(p) implies cleared.graph.is_protected(p) && visited(
            g,
            fit,
            cleared,
            seen,
            s.next,
            p,
        ) by {
            assert(visited(g, fit, s, seen, none, p));
            assert forall|i: int| 0 <= i < g.nodes[p].children.len() implies handled(
                g,
                fit,
                cleared,
                seen,
                s.next,
                #[trigger] g.nodes[p].children[i],
            ) by {
                assert(handled(g, fit, s, seen, none, g.nodes[p].children[i]));
            }
        }
        assert(walking(g, fit, cleared, seen, s.next));
        lemma_level_walk(visit, g, fit, depth, cleared, seen, s.next);
        let more = Set::new(|x: Oid| seen.contains(x) || s.next.contains(x));
        lemma_levels_walk(
            visit,
            g,
            fit,
            depth,
            visit_level(visit, cleared, s.next),
            more,
            (left - 1) as nat,
        );
    }
}

/// A pass that protects chosen subtrees of a graph without cycles, run a
/// second time, changes nothing; and one run takes the whole subtree of every
/// fit, unprotected child of a node that is reached from the root over
/// protected nodes.
pub proof fn lemma_pass_twice(
    visit: spec_fn(Sweep<Names>, Oid, Oid) -> Sweep<Names>,
    g: GraphView,
    fit: spec_fn(Oid) -> bool,
)
    requires
        g.wf(),
        g.acyclic(),
        choosing(visit, g, fit, g.size()),
        quiet(visit, false),
    ensures
        sweep(visit, sweep(visit, g, Seq::empty()).graph, Seq::empty()).graph == sweep(
            visit,
            g,
            Seq::empty(),
        ).graph,
        g.same_shape(sweep(visit, g, Seq::empty()).graph),
        covering(g, fit, sweep(visit, g, Seq::empty())),
        forall|x: Oid| (#[trigger] sweep(visit, g, Seq::empty()).graph.nodes[x]) != g.nodes[x] ==> within(g, fit, x),
{
    let start = Sweep { graph: g, acc: Seq::<Seq<char>>::empty(), next: first_level(g) };
    let none_seen = Set::<Oid>::empty();
    let none = Seq::<Oid>::empty();
    assert forall|i: int| 0 <= i < start.next.len() implies on_frontier(g, #[trigger] start.next[i]) by {
        let path = seq![g.root_id];
        assert(g.is_path(path));
        assert(protected_path(g, path));
        assert(path.last() == g.root_id);
    }
    assert(walking(g, fit, start, none_seen, none));
    if g.is_protected(g.root_id) {
        assert(start.next[0] == g.root_id);
    }
    lemma_levels_walk(visit, g, fit, g.size(), start, none_seen, g.size());
    lemma_sweep_ends(visit, false, g, Seq::<Seq<char>>::empty());
    let once = sweep(visit, g, Seq::empty());
    assert(resting(visit, g, fit)) by {
        assert forall|s: Sweep<Names>, parent: Oid, child: Oid|
            g.same_shape(s.graph) && g.contains(child) implies #[trigger] visit(s, parent, child) == (if s.graph.nodes[child].action
                == Action::Protected {
                Sweep { next: s.next.push(child), ..s }
            } else if fit(child) {
                visit(s, parent, child)
            } else {
                s
            }) by {
            assert(visit(s, parent, child) == pick_visit(s, child, fit, g.size()));
        }
    }
    lemma_sweep_still(visit, g, fit, once.graph);
    assert(once.graph.size() == g.size());
}

/// Whether a subtree is old does not depend on what is decided of its
/// nodes.
pub proof fn lemma_subtree_old_shape(g: GraphView, h: GraphView, id: Oid, cutoff: i64, depth: nat)
    requires
        g.closed(),
        g.same_shape(h),
        g.contains(id),
    ensures
        subtree_old(h, id, cutoff, depth) == subtree_old(g, id, cutoff, depth),
    decreases depth,
{
    assert(g.nodes[id].commit == h.nodes[id].commit);
    assert(g.nodes[id].children == h.nodes[id].children);
    if depth > 0 {
        assert forall|i: int| 0 <= i < g.nodes[id].children.len() implies subtree_old(
            h,
            #[trigger] h.nodes[id].children[i],
            cutoff,
            (depth - 1) as nat,
        ) == subtree_old(g, g.nodes[id].children[i], cutoff, (depth - 1) as nat) by {
            assert(g.contains(g.nodes[id].children[i]));
            lemma_subtree_old_shape(g, h, g.nodes[id].children[i], cutoff, (depth - 1) as nat);
        }
    }
}

/// Whether a subtree holds a commit of the user does not depend on what is
/// decided of its nodes.
pub proof fn lemma_subtree_personal_shape(
    g: GraphView,
    h: GraphView,
    id: Oid,
    user: Seq<char>,
    depth: nat,
)
    requires
        g.closed(),
        g.same_shape(h),
        g.contains(id),
    ensures
        subtree_personal(h, id, user, depth) == subtree_personal(g, id, user, depth),
    decreases depth,
{
    assert(g.nodes[id].commit == h.nodes[id].commit);
    assert(g.nodes[id].children == h.nodes[id].children);
    if depth > 0 {
        assert forall|i: int| 0 <= i < g.nodes[id].children.len() implies subtree_personal(
            h,
            #[trigger] h.nodes[id].children[i],
            user,
            (depth - 1) as nat,
        ) == subtree_personal(g, g.nodes[id].children[i], user, (depth - 1) as nat) by {
            assert(g.contains(g.nodes[id].children[i]));
            lemma_subtree_personal_shape(g, h, g.nodes[id].children[i], user, (depth - 1) as nat);
        }
    }
}

/// Whether the subtree of `id` in `g` is old, looked at as deep as the graph
/// has nodes.
pub open spec fn old_in(g: GraphView, cutoff: i64) -> spec_fn(Oid) -> bool {
    |id: Oid| subtree_old(g, id, cutoff, g.size())
}

/// Whether nothing in the subtree of `id` in `g` is by `user`, looked at as
/// deep as the graph has nodes.
pub open spec fn foreign_in(g: GraphView, user: Seq<char>) -> spec_fn(Oid) -> bool {
    |id: Oid| !subtree_personal(g, id, user, g.size())
}

/// The pass for old branches, run a second time on a graph without cycles,
/// changes nothing. One run protects the whole subtree of every unprotected
/// child of a node reached from the root over protected nodes, if the subtree
/// is old, and collects the name of every branch in it; it changes no node
/// outside these subtrees.
pub proof fn lemma_protect_old_twice(g: GraphView, cutoff: i64)
    requires
        g.wf(),
        g.acyclic(),
    ensures
        protect_old(protect_old(g, cutoff).graph, cutoff).graph == protect_old(g, cutoff).graph,
        covering(g, old_in(g, cutoff), protect_old(g, cutoff)),
        forall|x: Oid|
            (#[trigger] protect_old(g, cutoff).graph.nodes[x]) != g.nodes[x] ==> within(
                g,
                old_in(g, cutoff),
                x,
            ),
{
    let depth = g.size();
    let visit = old_visitor(cutoff, depth);
    let fit = old_in(g, cutoff);
    assert forall|s: Sweep<Names>, parent: Oid, child: Oid|
        g.same_shape(s.graph) && g.contains(child) implies #[trigger] visit(s, parent, child) == pick_visit(
        s,
        child,
        fit,
        depth,
    ) by {
        lemma_subtree_old_shape(g, s.graph, child, cutoff, depth);
    }
    lemma_protect_quiet(cutoff, Seq::empty(), 0, depth);
    lemma_pass_twice(visit, g, fit);
    assert(protect_old(g, cutoff).graph.size() == g.size());
}

/// The pass for foreign branches, run a second time on a graph without
/// cycles, changes nothing. One run protects the whole subtree of every
/// unprotected child of a node reached from the root over protected nodes, if
/// nothing in the subtree is by the user, and collects the name of every branch
/// in it; it changes no node outside these subtrees.
pub proof fn lemma_protect_foreign_twice(g: GraphView, user: Seq<char>)
    requires
        g.wf(),
        g.acyclic(),
    ensures
        protect_foreign(protect_foreign(g, user).graph, user).graph == protect_foreign(g, user).graph,
        covering(g, foreign_in(g, user), protect_foreign(g, user)),
        forall|x: Oid|
            (#[trigger] protect_foreign(g, user).graph.nodes[x]) != g.nodes[x] ==> within(
                g,
                foreign_in(g, user),
                x,
            ),
{
    let depth = g.size();
    let visit = foreign_visitor(user, depth);
    let fit = foreign_in(g, user);
    assert forall|s: Sweep<Names>, parent: Oid, child: Oid|
        g.same_shape(s.graph) && g.contains(child) implies #[trigger] visit(s, parent, child) == pick_visit(
        s,
        child,
        fit,
        depth,
    ) by {
        lemma_subtree_personal_shape(g, s.graph, child, user, depth);
    }
    lemma_protect_quiet(0, user, 0, depth);
    lemma_pass_twice(visit, g, fit);
    assert(protect_foreign(g, user).graph.size() == g.size());
}

} // verus!
