//! The pass for large branches, run a second time on a tree, finds nothing
//! left to do.
use vstd::prelude::*;
use crate::git::oid::Oid;
use crate::graph::acyclic::{
    lemma_path_on, lemma_protect_quiet, lemma_same_shape_acyclic, lemma_same_shape_wf,
    lemma_sweep_ends,
};
use crate::graph::again::{
    all_on_frontier, lemma_marking_covers, lemma_reaches_same_shape, lemma_sweep_still, resting,
    settled_at, stable,
};
use crate::graph::depth::lemma_path_same_shape;
use crate::graph::model::{lemma_reaches_child, lemma_reaches_self, GraphView};
use crate::graph::node::Action;
use crate::graph::protect::{
    grown, grown_below, large_visit, large_visitor, lemma_grown_shape, protect_large,
};
use crate::graph::rebase::{on_frontier, protected_path};
use crate::graph::sweep::{first_level, sweep, visit_children, visit_level, visit_levels, Names, Sweep};
use crate::graph::tree::lemma_same_shape_tree;
use crate::graph::whole::lemma_on_the_way;

verus! {

/// Whether a search finds a long line does not depend on what is decided of
/// the nodes, nor on the names collected so far.
pub proof fn lemma_grown_needed(
    g: GraphView,
    h: GraphView,
    one: Names,
    two: Names,
    id: Oid,
    count: nat,
    max: nat,
    depth: nat,
    limit: nat,
)
    requires
        g.sound(),
        h.sound(),
        g.same_shape(h),
        g.contains(id),
    ensures
        grown(g, one, id, count, max, depth, limit).needed == grown(
            h,
            two,
            id,
            count,
            max,
            depth,
            limit,
        ).needed,
    decreases depth, 0nat, 0nat,
{
    assert(g.nodes[id].branches == h.nodes[id].branches);
    assert(g.nodes[id].children == h.nodes[id].children);
    if g.nodes[id].branches.len() == 0 && count <= max && depth > 0 {
        let kids = g.nodes[id].children;
        assert forall|i: int| 0 <= i < kids.len() implies g.contains(#[trigger] kids[i]) by {
            assert(g.contains(g.nodes[id].children[i]));
        }
        lemma_grown_below_needed(g, h, one, two, kids, count + 1, max, (depth - 1) as nat, limit);
    }
}

/// The same for the search in each of some nodes in turn.
pub proof fn lemma_grown_below_needed(
    g: GraphView,
    h: GraphView,
    one: Names,
    two: Names,
    children: Seq<Oid>,
    count: nat,
    max: nat,
    depth: nat,
    limit: nat,
)
    requires
        g.sound(),
        h.sound(),
        g.same_shape(h),
        g.contains_all(children),
    ensures
        grown_below(g, one, children, count, max, depth, limit).needed == grown_below(
            h,
            two,
            children,
            count,
            max,
            depth,
            limit,
        ).needed,
    decreases depth, 1nat, children.len(),
{
    if children.len() > 0 {
        assert(g.contains(children[0]));
        lemma_grown_needed(g, h, one, two, children[0], count, max, depth, limit);
        let first = grown(g, one, children[0], count, max, depth, limit);
        let other = grown(h, two, children[0], count, max, depth, limit);
        lemma_grown_shape(g, one, children[0], count, max, depth, limit);
        lemma_grown_shape(h, two, children[0], count, max, depth, limit);
        assert forall|i: int| 0 <= i < children.drop_first().len() implies first.graph.contains(
            #[trigger] children.drop_first()[i],
        ) by {
            assert(g.contains(children[i + 1]));
        }
        assert(first.graph.same_shape(other.graph));
        lemma_grown_below_needed(
            first.graph,
            other.graph,
            first.names,
            other.names,
            children.drop_first(),
            count,
            max,
            depth,
            limit,
        );
    }
}

/// A search that finds no long line changes nothing.
pub proof fn lemma_grown_idle(
    g: GraphView,
    names: Names,
    id: Oid,
    count: nat,
    max: nat,
    depth: nat,
    limit: nat,
)
    requires
        !grown(g, names, id, count, max, depth, limit).needed,
    ensures
        grown(g, names, id, count, max, depth, limit).graph == g,
        grown(g, names, id, count, max, depth, limit).names == names,
    decreases depth, 0nat, 0nat,
{
    if g.nodes[id].branches.len() == 0 && count <= max && depth > 0 {
        lemma_grown_below_idle(g, names, g.nodes[id].children, count + 1, max, (depth - 1) as nat, limit);
    }
}

/// The same for the search in each of some nodes in turn.
pub proof fn lemma_grown_below_idle(
    g: GraphView,
    names: Names,
    children: Seq<Oid>,
    count: nat,
    max: nat,
    depth: nat,
    limit: nat,
)
    requires
        !grown_below(g, names, children, count, max, depth, limit).needed,
    ensures
        grown_below(g, names, children, count, max, depth, limit).graph == g,
        grown_below(g, names, children, count, max, depth, limit).names == names,
    decreases depth, 1nat, children.len(),
{
    if children.len() > 0 {
        lemma_grown_idle(g, names, children[0], count, max, depth, limit);
        lemma_grown_below_idle(g, names, children.drop_first(), count, max, depth, limit);
    }
}

/// A search changes no node but what the node reaches, and where it finds a
/// long line, the node is protected.
pub proof fn lemma_grown_frame(
    g: GraphView,
    names: Names,
    id: Oid,
    count: nat,
    max: nat,
    depth: nat,
    limit: nat,
)
    requires
        g.sound(),
        g.acyclic(),
        g.contains(id),
        limit >= g.size(),
    ensures
        forall|x: Oid| !g.reaches(id, x) ==> (#[trigger] grown(g, names, id, count, max, depth, limit).graph.nodes[x]) == g.nodes[x],
        grown(g, names, id, count, max, depth, limit).needed ==> grown(
            g,
            names,
            id,
            count,
            max,
            depth,
            limit,
        ).graph.nodes[id].action == Action::Protected,
    decreases depth, 0nat, 0nat,
{
    let done = grown(g, names, id, count, max, depth, limit);
    lemma_reaches_self(g, id);
    if g.nodes[id].branches.len() > 0 {
    } else if count <= max {
        if depth > 0 {
            let kids = g.nodes[id].children;
            assert forall|i: int| 0 <= i < kids.len() implies g.contains(#[trigger] kids[i]) by {
                assert(g.contains(g.nodes[id].children[i]));
            }
            lemma_grown_below_frame(g, names, kids, count + 1, max, (depth - 1) as nat, limit);
            let below = grown_below(g, names, kids, count + 1, max, (depth - 1) as nat, limit);
            assert forall|x: Oid| !g.reaches(id, x) implies (#[trigger] done.graph.nodes[x]) == g.nodes[x] by {
                assert forall|i: int| 0 <= i < kids.len() implies !g.reaches(#[trigger] kids[i], x) by {
                    if g.reaches(kids[i], x) {
                        assert(g.nodes[id].children.contains(kids[i]));
                        lemma_reaches_child(g, id, id, kids[i]);
                        crate::graph::model::lemma_reaches_on(g, id, kids[i], x);
                    }
                }
                assert(below.graph.nodes[x] == g.nodes[x]);
            }
        }
    } else {
        lemma_marking_covers(g, names, id, limit);
        assert(crate::graph::again::taken(crate::graph::protect::mark_protected(g, names, id, limit), id));
    }
}

/// The same for the search in each of some nodes in turn.
pub proof fn lemma_grown_below_frame(
    g: GraphView,
    names: Names,
    children: Seq<Oid>,
    count: nat,
    max: nat,
    depth: nat,
    limit: nat,
)
    requires
        g.sound(),
        g.acyclic(),
        g.contains_all(children),
        limit >= g.size(),
    ensures
        forall|x: Oid|
            (forall|i: int| 0 <= i < children.len() ==> !g.reaches(#[trigger] children[i], x))
                ==> (#[trigger] grown_below(g, names, children, count, max, depth, limit).graph.nodes[x])
                == g.nodes[x],
    decreases depth, 1nat, children.len(),
{
    if children.len() > 0 {
        let rest = children.drop_first();
        assert(g.contains(children[0]));
        lemma_grown_frame(g, names, children[0], count, max, depth, limit);
        lemma_grown_shape(g, names, children[0], count, max, depth, limit);
        let first = grown(g, names, children[0], count, max, depth, limit);
        lemma_same_shape_acyclic(g, first.graph);
        assert(first.graph.size() == g.size());
        assert forall|i: int| 0 <= i < rest.len() implies first.graph.contains(#[trigger] rest[i]) by {
            assert(g.contains(children[i + 1]));
        }
        lemma_grown_below_frame(first.graph, first.names, rest, count, max, depth, limit);
        let done = grown_below(g, names, children, count, max, depth, limit);
        assert forall|x: Oid|
            (forall|i: int| 0 <= i < children.len() ==> !g.reaches(#[trigger] children[i], x)) implies (
        #[trigger] done.graph.nodes[x]) == g.nodes[x] by {
            assert(!g.reaches(children[0], x));
            assert forall|i: int| 0 <= i < rest.len() implies !first.graph.reaches(#[trigger] rest[i], x) by {
                assert(rest[i] == children[i + 1]);
                assert(!g.reaches(children[i + 1], x));
                lemma_reaches_same_shape(g, first.graph, rest[i], x);
            }
            assert(first.graph.nodes[x] == g.nodes[x]);
            let later = grown_below(first.graph, first.names, rest, count, max, depth, limit);
            assert(later.graph.nodes[x] == first.graph.nodes[x]);
            assert(done.graph == later.graph);
        }
    }
}

/// Whether a search that starts at `id` in `g` finds a long line.
pub open spec fn long_in(g: GraphView, max: nat) -> spec_fn(Oid) -> bool {
    |id: Oid| grown(g, Seq::empty(), id, 0, max, g.size(), g.size()).needed
}

/// Whether the walk is done with the node `c` as a child: if it is
/// protected, the walk has come by it or will come by it; if it is not, no
/// long line starts at it.
pub open spec fn met(
    fit: spec_fn(Oid) -> bool,
    s: Sweep<Names>,
    seen: Set<Oid>,
    level: Seq<Oid>,
    c: Oid,
) -> bool {
    &&& s.graph.nodes[c].action == Action::Protected ==> seen.contains(c) || level.contains(c)
        || s.next.contains(c)
    &&& s.graph.nodes[c].action != Action::Protected ==> !fit(c)
}

/// Whether the walk is done with every child of `p`.
pub open spec fn all_met(
    g: GraphView,
    fit: spec_fn(Oid) -> bool,
    s: Sweep<Names>,
    seen: Set<Oid>,
    level: Seq<Oid>,
    p: Oid,
) -> bool {
    forall|i: int| 0 <= i < g.nodes[p].children.len() ==> met(fit, s, seen, level, #[trigger] g.nodes[p].children[i])
}

/// Whether `c` is the child of a node that is reached from the root over
/// protected nodes.
pub open spec fn hangs(h: GraphView, c: Oid) -> bool {
    exists|p: Oid| h.contains(p) && on_frontier(h, p) && #[trigger] h.nodes[p].children.contains(c)
}

/// Where the pass over the tree `g` stands, with the nodes `seen` done and
/// the nodes of `level` still to come on the level at hand.
pub open spec fn searching(
    g: GraphView,
    fit: spec_fn(Oid) -> bool,
    s: Sweep<Names>,
    seen: Set<Oid>,
    level: Seq<Oid>,
) -> bool {
    &&& s.graph.sound()
    &&& g.same_shape(s.graph)
    &&& all_on_frontier(s.graph, level)
    &&& all_on_frontier(s.graph, s.next)
    &&& forall|p: Oid|
        #[trigger] seen.contains(p) ==> s.graph.contains(p) && on_frontier(s.graph, p) && all_met(
            g,
            fit,
            s,
            seen,
            level,
            p,
        )
}

/// A node that is reached from the root over protected nodes stays so
/// where the graph keeps its shape and its protection.
pub proof fn lemma_frontier_on(h: GraphView, after: GraphView, x: Oid)
    requires
        h.same_shape(after),
        h.only_protected_by(after),
        on_frontier(h, x),
    ensures
        on_frontier(after, x),
{
    let path = choose|path: Seq<Oid>| #[trigger] protected_path(h, path) && path.last() == x;
    lemma_path_same_shape(h, after, path);
    assert forall|i: int| 0 <= i < path.len() implies after.is_protected(#[trigger] path[i]) by {
        assert(h.is_protected(path[i]));
        assert(after.nodes[path[i]].action == h.nodes[path[i]].action || after.nodes[path[i]].action
            == Action::Protected);
    }
    assert(protected_path(after, path));
}

/// A child of a node that is reached from the root over protected nodes is
/// so reached if it is protected.
pub proof fn lemma_frontier_child(h: GraphView, parent: Oid, child: Oid)
    requires
        on_frontier(h, parent),
        h.contains(parent),
        h.nodes[parent].children.contains(child),
        h.is_protected(child),
    ensures
        on_frontier(h, child),
{
    let path = choose|path: Seq<Oid>| #[trigger] protected_path(h, path) && path.last() == parent;
    lemma_path_on(h, path, child);
    let longer = path.push(child);
    assert forall|i: int| 0 <= i < longer.len() implies h.is_protected(#[trigger] longer[i]) by {
        if i < path.len() {
            assert(longer[i] == path[i]);
            assert(h.is_protected(path[i]));
        }
    }
    assert(protected_path(h, longer));
}

/// One visit goes on as the pass does, and is done with the child.
pub proof fn lemma_large_visit_walks(
    g: GraphView,
    max: nat,
    s: Sweep<Names>,
    seen: Set<Oid>,
    level: Seq<Oid>,
    child: Oid,
)
    requires
        g.tree(),
        searching(g, long_in(g, max), s, seen, level),
        level.len() > 0,
        g.contains(level[0]),
        g.nodes[level[0]].children.contains(child),
    ensures
        searching(g, long_in(g, max), large_visit(s, child, max, g.size()), seen, level),
        met(long_in(g, max), large_visit(s, child, max, g.size()), seen, level, child),
        forall|c: Oid|
            hangs(s.graph, c) && met(long_in(g, max), s, seen, level, c) ==> #[trigger] met(
                long_in(g, max),
                large_visit(s, child, max, g.size()),
                seen,
                level,
                c,
            ),
{
    let fit = long_in(g, max);
    let size = g.size();
    let t = large_visit(s, child, max, size);
    let h = s.graph;
    let parent = level[0];
    let at = choose|k: int| 0 <= k < g.nodes[parent].children.len() && g.nodes[parent].children[k] == child;
    assert(g.contains(g.nodes[parent].children[at]));
    assert(h.contains(level[0]) && on_frontier(h, level[0]));
    assert(h.nodes[parent].children == g.nodes[parent].children);
    if h.nodes[child].action == Action::Protected {
        lemma_frontier_child(h, parent, child);
        assert(t.next[s.next.len() as int] == child);
        assert forall|i: int| 0 <= i < t.next.len() implies h.contains(#[trigger] t.next[i]) && on_frontier(
            h,
            t.next[i],
        ) by {
            if i < s.next.len() {
                assert(h.contains(s.next[i]));
            }
        }
        assert forall|c: Oid| hangs(h, c) && met(fit, s, seen, level, c) implies #[trigger] met(
            fit,
            t,
            seen,
            level,
            c,
        ) by {
            if s.next.contains(c) {
                let k = choose|k: int| 0 <= k < s.next.len() && s.next[k] == c;
                assert(t.next[k] == c);
            }
        }
        assert forall|p: Oid| #[trigger] seen.contains(p) implies all_met(g, fit, t, seen, level, p) by {
            assert(all_met(g, fit, s, seen, level, p));
            assert forall|i: int| 0 <= i < g.nodes[p].children.len() implies met(
                fit,
                t,
                seen,
                level,
                #[trigger] g.nodes[p].children[i],
            ) by {
                let c = g.nodes[p].children[i];
                assert(met(fit, s, seen, level, c));
                if s.next.contains(c) {
                    let k = choose|k: int| 0 <= k < s.next.len() && s.next[k] == c;
                    assert(t.next[k] == c);
                }
            }
        }
    } else {
        let found = grown(h, s.acc, child, 0, max, size, size);
        lemma_grown_shape(h, s.acc, child, 0, max, size, size);
        lemma_grown_needed(g, h, Seq::empty(), s.acc, child, 0, max, size, size);
        assert(found.needed == fit(child));
        if !found.needed {
            lemma_grown_idle(h, s.acc, child, 0, max, size, size);
            assert(t.graph == h && t.acc == s.acc && t.next == s.next);
            assert forall|p: Oid| #[trigger] seen.contains(p) implies all_met(g, fit, t, seen, level, p) by {
                assert(all_met(g, fit, s, seen, level, p));
                assert forall|i: int| 0 <= i < g.nodes[p].children.len() implies met(
                    fit,
                    t,
                    seen,
                    level,
                    #[trigger] g.nodes[p].children[i],
                ) by {
                    assert(met(fit, s, seen, level, g.nodes[p].children[i]));
                }
            }
        } else {
            lemma_same_shape_acyclic(g, h);
            lemma_same_shape_wf(g, h);
            lemma_same_shape_tree(g, h);
            assert(h.size() == g.size());
            lemma_grown_frame(h, s.acc, child, 0, max, size, size);
            let after = found.graph;
            assert(t.graph == after);
            assert(t.next[s.next.len() as int] == child);
            assert(after.is_protected(child));
            assert forall|x: Oid| #[trigger] on_frontier(h, x) implies on_frontier(after, x) by {
                lemma_frontier_on(h, after, x);
            }
            assert(after.nodes[parent].children == h.nodes[parent].children);
            lemma_frontier_child(after, parent, child);
            assert forall|i: int| 0 <= i < level.len() implies after.contains(#[trigger] level[i]) && on_frontier(
                after,
                level[i],
            ) by {
                assert(h.contains(level[i]) && on_frontier(h, level[i]));
            }
            assert forall|i: int| 0 <= i < t.next.len() implies after.contains(#[trigger] t.next[i])
                && on_frontier(after, t.next[i]) by {
                if i < s.next.len() {
                    assert(h.contains(s.next[i]) && on_frontier(h, s.next[i]));
                }
            }
            // in a tree nothing below the child is the child of a node that the
            // walk has come by
            assert forall|c: Oid| hangs(h, c) && (#[trigger] after.nodes[c]).action != h.nodes[c].action implies c
                == child by {
                let p = choose|p: Oid| h.contains(p) && on_frontier(h, p) && #[trigger] h.nodes[p].children.contains(c);
                assert(h.reaches(child, c)) by {
                    if !h.reaches(child, c) {
                        assert(after.nodes[c] == h.nodes[c]);
                    }
                }
                if c != child {
                    let way = choose|way: Seq<Oid>| #[trigger] h.is_path(way) && way[0] == child && way.last() == c;
                    let n = way.len() as int;
                    assert(n > 1);
                    let q = way[n - 2];
                    assert(h.contains(q) && h.nodes[q].children.contains(way[n - 2 + 1]));
                    assert(h.contains(p));
                    assert(p == q);
                    let shorter = way.drop_last();
                    assert forall|i: int| 0 <= i < shorter.len() - 1 implies h.contains(#[trigger] shorter[i])
                        && h.nodes[shorter[i]].children.contains(shorter[i + 1]) by {
                        assert(shorter[i] == way[i]);
                        assert(shorter[i + 1] == way[i + 1]);
                    }
                    assert(h.is_path(shorter));
                    assert(on_frontier(h, p));
                    let path = choose|path: Seq<Oid>| #[trigger] protected_path(h, path) && path.last() == p;
                    lemma_on_the_way(h, path, path.len() - 1, shorter);
                    let j = choose|j: int| 0 <= j <= path.len() - 1 && #[trigger] path[j] == shorter[0];
                    assert(h.is_protected(path[j]));
                }
            }
            assert forall|c: Oid| hangs(h, c) && met(fit, s, seen, level, c) implies #[trigger] met(
                fit,
                t,
                seen,
                level,
                c,
            ) by {
                if s.next.contains(c) {
                    let k = choose|k: int| 0 <= k < s.next.len() && s.next[k] == c;
                    assert(t.next[k] == c);
                }
                if after.nodes[c].action != h.nodes[c].action {
                    assert(c == child);
                }
            }
            assert forall|p: Oid| #[trigger] seen.contains(p) implies after.contains(p) && on_frontier(
                after,
                p,
            ) && all_met(g, fit, t, seen, level, p) by {
                assert(h.contains(p) && on_frontier(h, p));
                assert(all_met(g, fit, s, seen, level, p));
                assert(g.nodes[p].children == h.nodes[p].children);
                assert forall|i: int| 0 <= i < g.nodes[p].children.len() implies met(
                    fit,
                    t,
                    seen,
                    level,
                    #[trigger] g.nodes[p].children[i],
                ) by {
                    let c = g.nodes[p].children[i];
                    assert(met(fit, s, seen, level, c));
                    assert(h.nodes[p].children.contains(c));
                    assert(hangs(h, c));
                }
            }
        }
    }
}

/// The visits of some children of a node go on as the pass does, and are
/// done with each of them.
pub proof fn lemma_large_children_walk(
    g: GraphView,
    max: nat,
    s: Sweep<Names>,
    seen: Set<Oid>,
    level: Seq<Oid>,
    children: Seq<Oid>,
)
    requires
        g.tree(),
        searching(g, long_in(g, max), s, seen, level),
        level.len() > 0,
        g.contains(level[0]),
        forall|i: int| 0 <= i < children.len() ==> g.nodes[level[0]].children.contains(#[trigger] children[i]),
    ensures
        searching(
            g,
            long_in(g, max),
            visit_children(large_visitor(max, g.size()), s, level[0], children),
            seen,
            level,
        ),
        forall|i: int|
            0 <= i < children.len() ==> met(
                long_in(g, max),
                visit_children(large_visitor(max, g.size()), s, level[0], children),
                seen,
                level,
                #[trigger] children[i],
            ),
        forall|c: Oid|
            g.nodes[level[0]].children.contains(c) && met(long_in(g, max), s, seen, level, c) ==> #[trigger] met(
                long_in(g, max),
                visit_children(large_visitor(max, g.size()), s, level[0], children),
                seen,
                level,
                c,
            ),
    decreases children.len(),
{
    if children.len() > 0 {
        let fit = long_in(g, max);
        let visit = large_visitor(max, g.size());
        let parent = level[0];
        let child = children[0];
        let rest = children.drop_first();
        assert(g.nodes[parent].children.contains(children[0]));
        let t = visit(s, parent, child);
        assert(t == large_visit(s, child, max, g.size()));
        lemma_large_visit_walks(g, max, s, seen, level, child);
        assert forall|i: int| 0 <= i < rest.len() implies g.nodes[parent].children.contains(#[trigger] rest[i]) by {
            assert(rest[i] == children[i + 1]);
        }
        lemma_large_children_walk(g, max, t, seen, level, rest);
        let done = visit_children(visit, s, parent, children);
        assert(done == visit_children(visit, t, parent, rest));
        assert(s.graph.contains(level[0]) && on_frontier(s.graph, level[0]));
        assert(s.graph.nodes[parent].children == g.nodes[parent].children);
        assert forall|c: Oid| g.nodes[parent].children.contains(c) && met(fit, s, seen, level, c) implies #[trigger] met(
            fit,
            done,
            seen,
            level,
            c,
        ) by {
            assert(hangs(s.graph, c));
            assert(met(fit, t, seen, level, c));
        }
        assert forall|i: int| 0 <= i < children.len() implies met(fit, done, seen, level, #[trigger] children[i]) by {
            if i == 0 {
                assert(met(fit, t, seen, level, child));
            } else {
                assert(rest[i - 1] == children[i]);
            }
        }
    }
}

/// One level goes on as the pass does: in the end every node of the level
/// is done.
pub proof fn lemma_large_level_walk(
    g: GraphView,
    max: nat,
    s: Sweep<Names>,
    seen: Set<Oid>,
    level: Seq<Oid>,
)
    requires
        g.tree(),
        searching(g, long_in(g, max), s, seen, level),
    ensures
        searching(
            g,
            long_in(g, max),
            visit_level(large_visitor(max, g.size()), s, level),
            Set::new(|x: Oid| seen.contains(x) || level.contains(x)),
            Seq::empty(),
        ),
    decreases level.len(),
{
    let fit = long_in(g, max);
    let visit = large_visitor(max, g.size());
    let all = Set::new(|x: Oid| seen.contains(x) || level.contains(x));
    let none = Seq::<Oid>::empty();
    if level.len() == 0 {
        assert(level =~= none);
        assert(all =~= seen);
    } else {
        let parent = level[0];
        let rest = level.drop_first();
        assert(s.graph.contains(level[0]) && on_frontier(s.graph, level[0]));
        let children = s.graph.children(parent);
        assert(children == g.nodes[parent].children);
        assert forall|i: int| 0 <= i < children.len() implies g.nodes[parent].children.contains(
            #[trigger] children[i],
        ) by {}
        lemma_large_children_walk(g, max, s, seen, level, children);
        let t = visit_children(visit, s, parent, children);
        let more = seen.insert(parent);
        assert forall|c: Oid| met(fit, t, seen, level, c) implies met(fit, t, more, rest, c) by {
            if level.contains(c) {
                let k = choose|k: int| 0 <= k < level.len() && level[k] == c;
                if k > 0 {
                    assert(rest[k - 1] == c);
                }
            }
        }
        assert forall|p: Oid| #[trigger] more.contains(p) implies t.graph.contains(p) && on_frontier(t.graph, p)
            && all_met(g, fit, t, more, rest, p) by {
            if p == parent {
                assert(t.graph.contains(level[0]) && on_frontier(t.graph, level[0]));
                assert forall|i: int| 0 <= i < g.nodes[p].children.len() implies met(
                    fit,
                    t,
                    more,
                    rest,
                    #[trigger] g.nodes[p].children[i],
                ) by {
                    assert(met(fit, t, seen, level, children[i]));
                }
            } else {
                assert(seen.contains(p));
                assert(all_met(g, fit, t, seen, level, p));
                assert forall|i: int| 0 <= i < g.nodes[p].children.len() implies met(
                    fit,
                    t,
                    more,
                    rest,
                    #[trigger] g.nodes[p].children[i],
                ) by {
                    assert(met(fit, t, seen, level, g.nodes[p].children[i]));
                }
            }
        }
        assert forall|i: int| 0 <= i < rest.len() implies t.graph.contains(#[trigger] rest[i]) && on_frontier(
            t.graph,
            rest[i],
        ) by {
            assert(rest[i] == level[i + 1]);
            assert(t.graph.contains(level[i + 1]) && on_frontier(t.graph, level[i + 1]));
        }
        assert(searching(g, fit, t, more, rest));
        lemma_large_level_walk(g, max, t, more, rest);
        assert(Set::new(|x: Oid| more.contains(x) || rest.contains(x)) =~= all) by {
            assert forall|x: Oid| (more.contains(x) || rest.contains(x)) == (seen.contains(x) || level.contains(
                x,
            )) by {
                if rest.contains(x) {
                    let k = choose|k: int| 0 <= k < rest.len() && rest[k] == x;
                    assert(level[k + 1] == x);
                }
                if level.contains(x) {
                    let k = choose|k: int| 0 <= k < level.len() && level[k] == x;
                    if k > 0 {
                        assert(rest[k - 1] == x);
                    }
                }
            }
        }
    }
}

/// At the end of the pass each node on a path from the root over protected
/// nodes is done.
pub proof fn lemma_large_frontier_seen(
    g: GraphView,
    fit: spec_fn(Oid) -> bool,
    s: Sweep<Names>,
    seen: Set<Oid>,
    path: Seq<Oid>,
    k: int,
)
    requires
        searching(g, fit, s, seen, Seq::empty()),
        s.next.len() == 0,
        seen.contains(g.root_id),
        protected_path(s.graph, path),
        0 <= k < path.len(),
    ensures
        seen.contains(path[k]),
    decreases k,
{
    let none = Seq::<Oid>::empty();
    if k > 0 {
        lemma_large_frontier_seen(g, fit, s, seen, path, k - 1);
        let prev = path[k - 1];
        let x = path[k];
        assert(s.graph.contains(prev) && s.graph.nodes[prev].children.contains(path[k - 1 + 1]));
        assert(g.nodes[prev].children == s.graph.nodes[prev].children);
        let i = choose|i: int| 0 <= i < g.nodes[prev].children.len() && g.nodes[prev].children[i] == x;
        assert(all_met(g, fit, s, seen, none, prev));
        assert(met(fit, s, seen, none, g.nodes[prev].children[i]));
        assert(s.graph.is_protected(path[k]));
        assert(!none.contains(x));
        assert(!s.next.contains(x));
    }
}

/// The pass goes on level after level; where it comes to its end, no long
/// line is left below the protected part.
pub proof fn lemma_large_levels_walk(g: GraphView, max: nat, s: Sweep<Names>, seen: Set<Oid>, left: nat)
    requires
        g.tree(),
        searching(g, long_in(g, max), s, seen, Seq::empty()),
        seen.contains(g.root_id) || s.next.contains(g.root_id),
    ensures
        g.same_shape(visit_levels(large_visitor(max, g.size()), s, left).graph),
        visit_levels(large_visitor(max, g.size()), s, left).graph.sound(),
        visit_levels(large_visitor(max, g.size()), s, left).next.len() == 0 ==> stable(
            visit_levels(large_visitor(max, g.size()), s, left).graph,
            long_in(g, max),
        ),
    decreases left,
{
    let fit = long_in(g, max);
    let visit = large_visitor(max, g.size());
    let none = Seq::<Oid>::empty();
    if left == 0 || s.next.len() == 0 {
        if s.next.len() == 0 {
            let h = s.graph;
            assert(!s.next.contains(g.root_id));
            assert forall|p: Oid| #[trigger] on_frontier(h, p) && h.contains(p) implies settled_at(h, fit, p) by {
                let path = choose|path: Seq<Oid>| #[trigger] protected_path(h, path) && path.last() == p;
                lemma_large_frontier_seen(g, fit, s, seen, path, path.len() - 1);
                assert(all_met(g, fit, s, seen, none, p));
                assert(g.nodes[p].children == h.nodes[p].children);
                assert forall|i: int| 0 <= i < h.nodes[p].children.len() implies h.nodes[#[trigger] h.nodes[p].children[i]].action
                    == Action::Protected || !fit(h.nodes[p].children[i]) by {
                    assert(met(fit, s, seen, none, g.nodes[p].children[i]));
                }
            }
        }
    } else {
        let cleared = Sweep { next: none, ..s };
        assert forall|c: Oid| met(fit, s, seen, none, c) implies met(fit, cleared, seen, s.next, c) by {}
        assert forall|p: Oid| #[trigger] seen.contains(p) implies cleared.graph.contains(p) && on_frontier(
            cleared.graph,
            p,
        ) && all_met(g, fit, cleared, seen, s.next, p) by {
            assert(all_met(g, fit, s, seen, none, p));
            assert forall|i: int| 0 <= i < g.nodes[p].children.len() implies met(
                fit,
                cleared,
                seen,
                s.next,
                #[trigger] g.nodes[p].children[i],
            ) by {
                assert(met(fit, s, seen, none, g.nodes[p].children[i]));
            }
        }
        assert(all_on_frontier(cleared.graph, cleared.next));
        assert(searching(g, fit, cleared, seen, s.next));
        lemma_large_level_walk(g, max, cleared, seen, s.next);
        let more = Set::new(|x: Oid| seen.contains(x) || s.next.contains(x));
        lemma_large_levels_walk(g, max, visit_level(visit, cleared, s.next), more, (left - 1) as nat);
    }
}

/// The pass for large branches, run a second time on a tree, changes
/// nothing.
pub proof fn lemma_protect_large_twice(g: GraphView, max: nat)
    requires
        g.tree(),
    ensures
        protect_large(protect_large(g, max).graph, max).graph == protect_large(g, max).graph,
{
    let size = g.size();
    let visit = large_visitor(max, size);
    let fit = long_in(g, max);
    let start = Sweep { graph: g, acc: Seq::<Seq<char>>::empty(), next: first_level(g) };
    if !g.is_protected(g.root_id) {
        assert(visit_levels(visit, start, size) == start);
    } else {
        let none_seen = Set::<Oid>::empty();
        let none = Seq::<Oid>::empty();
        assert forall|i: int| 0 <= i < start.next.len() implies g.contains(#[trigger] start.next[i]) && on_frontier(
            g,
            start.next[i],
        ) by {
            let path = seq![g.root_id];
            assert(g.is_path(path));
            assert(protected_path(g, path));
            assert(path.last() == g.root_id);
        }
        assert(searching(g, fit, start, none_seen, none));
        assert(start.next[0] == g.root_id);
        lemma_large_levels_walk(g, max, start, none_seen, size);
        lemma_protect_quiet(0, Seq::empty(), max, size);
        lemma_sweep_ends(visit, false, g, Seq::<Seq<char>>::empty());
        let once = sweep(visit, g, Seq::empty());
        assert(resting(visit, g, fit)) by {
            assert forall|s: Sweep<Names>, parent: Oid, child: Oid|
                g.same_shape(s.graph) && g.contains(child) implies #[trigger] visit(s, parent, child) == (if s.graph.nodes[child].action
                    == Action::Protected {
                    Sweep { next: s.next.push(child), ..s }
                } else if fit(child) {
                    visit(s, parent, child)
                } else {
                    s
                }) by {
                if s.graph.nodes[child].action != Action::Protected && !fit(child) {
                    lemma_resting_large(g, s, child, max);
                }
            }
        }
        lemma_sweep_still(visit, g, fit, once.graph);
        assert(once.graph.size() == g.size());
    }
}

/// What has the shape of a sound graph is sound.
pub proof fn lemma_same_shape_sound(g: GraphView, h: GraphView)
    requires
        g.sound(),
        g.same_shape(h),
    ensures
        h.sound(),
{
    assert forall|id: Oid| h.contains(id) implies (#[trigger] h.nodes[id]).commit.id == id
        && h.nodes[id].children.no_duplicates() by {
        assert(g.nodes[id].commit == h.nodes[id].commit);
        assert(g.nodes[id].children == h.nodes[id].children);
    }
    assert forall|id: Oid, i: int| h.contains(id) && 0 <= i < h.nodes[id].children.len() implies h.contains(
        #[trigger] h.nodes[id].children[i],
    ) by {
        assert(g.nodes[id].children == h.nodes[id].children);
        assert(g.contains(g.nodes[id].children[i]));
    }
}

/// Where no long line starts at a child, the visit does nothing.
pub proof fn lemma_resting_large(g: GraphView, s: Sweep<Names>, child: Oid, max: nat)
    requires
        g.sound(),
        g.same_shape(s.graph),
        g.contains(child),
        s.graph.nodes[child].action != Action::Protected,
        !long_in(g, max)(child),
    ensures
        large_visit(s, child, max, g.size()) == s,
{
    let size = g.size();
    lemma_same_shape_sound(g, s.graph);
    lemma_grown_needed(g, s.graph, Seq::empty(), s.acc, child, 0, max, size, size);
    lemma_grown_idle(s.graph, s.acc, child, 0, max, size, size);
}

} // verus!
