//! On a tree the fixup pass is not cut short: a stack is worked through to
//! its ends, whatever room the walk down is given beyond the size of the graph.
use vstd::prelude::*;
use crate::git::oid::Oid;
use crate::graph::acyclic::{lemma_path_on, lemma_path_short, lemma_path_within};
use crate::graph::fixup::{
    chained, fix_visit, fix_visitor, fixed_below, fixed_branch, fixed_node, orphaned, passed,
    settled, spliced_between, squash_all, stacked, unhooked, Fixing,
};
use crate::git::commit::fixup_target;
use crate::graph::graft::{
    floating, grafting, lemma_between, lemma_drop_first_waits, lemma_fix_children,
    lemma_fixed_below, lemma_fixed_branch,
    lemma_grafting_tree, lemma_no_way_back, lemma_same_subtree, lemma_same_subtree_along,
    lemma_settle, lemma_taken_waits, lemma_working_on, lemma_working_starts, waits, working,
};
use crate::graph::model::{lemma_reaches_child, lemma_reaches_on, lemma_reaches_self, GraphView};
use crate::graph::node::Action;
use crate::graph::outstanding::{found, values, without_key, Entries};
use crate::graph::sweep::{first_level, sweep, visit_children, visit_level, visit_levels, Sweep};

verus! {

/// Whether no path from `id` has more than `room` nodes behind `id`.
pub open spec fn shallow(g: GraphView, id: Oid, room: nat) -> bool {
    forall|path: Seq<Oid>| #[trigger] g.is_path(path) && path[0] == id ==> path.len() <= room + 1
}

/// Each of `ids` is shallow.
pub open spec fn all_shallow(g: GraphView, ids: Seq<Oid>, room: nat) -> bool {
    forall|i: int| 0 <= i < ids.len() ==> shallow(g, #[trigger] ids[i], room)
}

/// Below a shallow node that has a child there is room, and the child is
/// shallower by one.
pub proof fn lemma_shallow_child(g: GraphView, id: Oid, child: Oid, room: nat)
    requires
        shallow(g, id, room),
        g.contains(id),
        g.nodes[id].children.contains(child),
    ensures
        room > 0,
        shallow(g, child, (room - 1) as nat),
{
    let edge = seq![id, child];
    assert(g.is_path(edge)) by {
        assert forall|i: int| 0 <= i < edge.len() - 1 implies g.contains(#[trigger] edge[i])
            && g.nodes[edge[i]].children.contains(edge[i + 1]) by {}
    }
    assert(edge[0] == id);
    assert forall|path: Seq<Oid>| #[trigger] g.is_path(path) && path[0] == child implies path.len()
        <= room by {
        let longer = seq![id] + path;
        assert forall|i: int| 0 <= i < longer.len() - 1 implies g.contains(#[trigger] longer[i])
            && g.nodes[longer[i]].children.contains(longer[i + 1]) by {
            if i > 0 {
                assert(longer[i] == path[i - 1]);
                assert(longer[i + 1] == path[i - 1 + 1]);
                assert(g.contains(path[i - 1]));
            } else {
                assert(longer[1] == path[0]);
            }
        }
        assert(g.is_path(longer));
        assert(longer[0] == id);
    }
}

/// A node whose subtree is as it was is as shallow as it was.
pub proof fn lemma_shallow_same(before: GraphView, after: GraphView, from: Oid, room: nat)
    requires
        before.closed(),
        before.contains(from),
        before.nodes.dom() == after.nodes.dom(),
        forall|x: Oid|
            #[trigger] before.reaches(from, x) && before.contains(x) ==> after.nodes[x].children
                == before.nodes[x].children,
        shallow(before, from, room),
    ensures
        shallow(after, from, room),
{
    assert forall|path: Seq<Oid>| #[trigger] after.is_path(path) && path[0] == from implies path.len()
        <= room + 1 by {
        assert forall|i: int| 0 <= i < path.len() - 1 implies before.contains(#[trigger] path[i])
            && before.nodes[path[i]].children.contains(path[i + 1]) by {
            lemma_same_subtree_along(before, after, from, path, i);
            assert(after.nodes[path[i]].children.contains(path[i + 1]));
        }
        assert(before.is_path(path));
    }
}

/// Work on a shallow node comes to the same with any room that it does not
/// exceed.
pub proof fn lemma_fixed_node_whole(
    s: Fixing,
    base: Oid,
    id: Oid,
    squash: bool,
    room: nat,
    one: nat,
    two: nat,
)
    requires
        grafting(s.graph, s.outstanding),
        s.graph.contains(base),
        s.graph.nodes[base].children.contains(id),
        shallow(s.graph, id, room),
        one >= room,
        two >= room,
    ensures
        fixed_node(s, base, id, squash, one) == fixed_node(s, base, id, squash, two),
    decreases room, 0nat, 0nat,
{
    let g = s.graph;
    let at = choose|i: int| 0 <= i < g.nodes[base].children.len() && g.nodes[base].children[i] == id;
    assert(g.contains(g.nodes[base].children[at]));
    let kids = g.nodes[id].children;
    if kids.len() == 0 {
        if one > 0 {
            assert(fixed_below(s, id, kids, squash, (one - 1) as nat) == s);
        }
        if two > 0 {
            assert(fixed_below(s, id, kids, squash, (two - 1) as nat) == s);
        }
    } else {
        assert(kids.contains(kids[0]));
        lemma_shallow_child(g, id, kids[0], room);
        assert forall|i: int| 0 <= i < kids.len() implies shallow(g, #[trigger] kids[i], (room - 1) as nat) by {
            assert(kids.contains(kids[i]));
            lemma_shallow_child(g, id, kids[i], room);
        }
        lemma_working_starts(s, id);
        lemma_fixed_below_whole(
            s,
            s,
            id,
            kids,
            squash,
            (room - 1) as nat,
            (one - 1) as nat,
            (two - 1) as nat,
        );
    }
}

/// The same for the children of a node that are still to come.
pub proof fn lemma_fixed_below_whole(
    origin: Fixing,
    s: Fixing,
    node: Oid,
    rest: Seq<Oid>,
    squash: bool,
    room: nat,
    one: nat,
    two: nat,
)
    requires
        grafting(origin.graph, origin.outstanding),
        origin.graph.contains(node),
        working(origin, s, node, rest),
        all_shallow(origin.graph, rest, room),
        one >= room,
        two >= room,
    ensures
        fixed_below(s, node, rest, squash, one) == fixed_below(s, node, rest, squash, two),
    decreases room, 1nat, rest.len(),
{
    if rest.len() > 0 {
        let child = rest[0];
        let later = rest.drop_first();
        assert(s.graph.nodes[node].children.contains(rest[0]));
        assert(origin.graph.nodes[node].children.contains(rest[0]));
        let at = choose|i: int|
            0 <= i < origin.graph.nodes[node].children.len() && origin.graph.nodes[node].children[i]
                == child;
        assert(origin.graph.contains(origin.graph.nodes[node].children[at]));
        assert forall|x: Oid|
            #[trigger] origin.graph.reaches(child, x) && origin.graph.contains(x) implies s.graph.nodes[x].children
            == origin.graph.nodes[x].children by {
            assert(origin.graph.reaches(rest[0], x));
        }
        assert(shallow(origin.graph, rest[0], room));
        lemma_shallow_same(origin.graph, s.graph, child, room);
        lemma_fixed_node_whole(s, node, child, squash, room, one, two);
        lemma_working_on(origin, s, node, rest, squash, one);
        assert forall|i: int| 0 <= i < later.len() implies shallow(origin.graph, #[trigger] later[i], room) by {
            assert(later[i] == rest[i + 1]);
        }
        lemma_fixed_below_whole(
            origin,
            fixed_node(s, node, child, squash, one),
            node,
            later,
            squash,
            room,
            one,
            two,
        );
    }
}

/// On a tree a stack is worked through in full: what becomes of it is the
/// same with any room for the way down that is not less than the size of the
/// graph.
pub proof fn lemma_fixed_branch_whole(
    g: GraphView,
    base: Oid,
    id: Oid,
    squash: bool,
    one: nat,
    two: nat,
)
    requires
        g.tree(),
        g.contains(base),
        g.nodes[base].children.contains(id),
        one >= g.size(),
        two >= g.size(),
    ensures
        fixed_branch(g, base, id, squash, one) == fixed_branch(g, base, id, squash, two),
{
    let s = Fixing { graph: g, outstanding: Entries::empty() };
    let at = choose|i: int| 0 <= i < g.nodes[base].children.len() && g.nodes[base].children[i] == id;
    assert(g.contains(g.nodes[base].children[at]));
    let kids = g.nodes[id].children;
    lemma_grafting_tree(g);
    lemma_working_starts(s, id);
    assert forall|i: int| 0 <= i < kids.len() implies shallow(g, #[trigger] kids[i], g.size()) by {
        assert(g.contains(kids[i]));
        assert forall|path: Seq<Oid>| #[trigger] g.is_path(path) && path[0] == kids[i] implies path.len()
            <= g.size() + 1 by {
            lemma_path_short(g, path);
        }
    }
    lemma_fixed_below_whole(s, s, id, kids, squash, g.size(), one, two);
}

/// Whether `after` decides of every node what `before` does.
pub open spec fn alike(before: GraphView, after: GraphView) -> bool {
    forall|x: Oid| (#[trigger] after.nodes[x]).action == before.nodes[x].action
}

/// A chain hung below a node changes no decision.
pub proof fn lemma_chained_alike(g: GraphView, last: Oid, ids: Seq<Oid>)
    ensures
        alike(g, chained(g, last, ids).0),
    decreases ids.len(),
{
    if ids.len() > 0 {
        let hung = g.with_children(last, crate::git::oid::with_id(g.nodes[last].children, ids.last()));
        assert(alike(g, hung));
        lemma_chained_alike(hung, ids.last(), ids.drop_last());
        let done = chained(g, last, ids).0;
        assert forall|x: Oid| (#[trigger] done.nodes[x]).action == g.nodes[x].action by {
            assert(hung.nodes[x].action == g.nodes[x].action);
        }
    }
}

/// A stack put on a node changes no decision.
pub proof fn lemma_stacked_alike(g: GraphView, below: Oid, ids: Seq<Oid>)
    ensures
        alike(g, stacked(g, below, ids).0),
    decreases ids.len(),
{
    if ids.len() > 0 {
        let piled = g.with_children(ids[0], crate::git::oid::with_id(g.nodes[ids[0]].children, below));
        assert(alike(g, piled));
        lemma_stacked_alike(piled, ids[0], ids.drop_first());
        let done = stacked(g, below, ids).0;
        assert forall|x: Oid| (#[trigger] done.nodes[x]).action == g.nodes[x].action by {
            assert(piled.nodes[x].action == g.nodes[x].action);
        }
    }
}

/// Marking nodes to be squashed changes the decision of no other node.
pub proof fn lemma_squash_all_alike(g: GraphView, ids: Seq<Oid>)
    ensures
        forall|x: Oid| !ids.contains(x) ==> (#[trigger] squash_all(g, ids).nodes[x]).action == g.nodes[x].action,
    decreases ids.len(),
{
    if ids.len() > 0 {
        let one = g.with_action(ids[0], Action::Squash);
        lemma_squash_all_alike(one, ids.drop_first());
        let done = squash_all(g, ids);
        assert forall|x: Oid| !ids.contains(x) implies (#[trigger] done.nodes[x]).action == g.nodes[x].action by {
            assert(x != ids[0]);
            assert(!ids.drop_first().contains(x)) by {
                if ids.drop_first().contains(x) {
                    let k = choose|k: int| 0 <= k < ids.drop_first().len() && ids.drop_first()[k] == x;
                    assert(ids[k + 1] == x);
                }
            }
            assert(one.nodes[x].action == g.nodes[x].action);
        }
    }
}

/// Fixups brought behind a node change the decision of none but
/// themselves.
pub proof fn lemma_settled_alike(g: GraphView, id: Oid, ids: Seq<Oid>, squash: bool)
    ensures
        forall|x: Oid| !ids.contains(x) ==> (#[trigger] settled(g, id, ids, squash).nodes[x]).action == g.nodes[x].action,
{
    let marked = if squash {
        squash_all(g, ids)
    } else {
        g
    };
    lemma_squash_all_alike(g, ids);
    let done = settled(g, id, ids, squash);
    if ids.len() > 0 {
        let bare = marked.with_children(id, Seq::empty()).with_branches(id, Seq::empty());
        assert(alike(marked, bare));
        lemma_chained_alike(bare, id, ids);
        let (hung, last) = chained(bare, id, ids);
        assert(alike(hung, done));
        assert forall|x: Oid| !ids.contains(x) implies (#[trigger] done.nodes[x]).action == g.nodes[x].action by {
            assert(hung.nodes[x].action == bare.nodes[x].action);
            assert(bare.nodes[x].action == marked.nodes[x].action);
            assert(marked.nodes[x].action == g.nodes[x].action);
        }
    }
}

/// A node taken out from under another changes no decision.
pub proof fn lemma_unhooked_alike(g: GraphView, base: Oid, id: Oid)
    ensures
        alike(g, unhooked(g, base, id)),
{
    let node = g.nodes[id];
    let bare = g.with_children(id, Seq::empty()).with_branches(id, Seq::empty());
    let cut = bare.with_children(base, crate::git::oid::without_id(bare.nodes[base].children, id));
    let joined = cut.with_children(base, crate::git::oid::with_ids(cut.nodes[base].children, node.children));
    let done = unhooked(g, base, id);
    assert(alike(g, bare));
    assert(alike(bare, cut));
    assert(alike(cut, joined));
    assert(alike(joined, done));
    assert forall|x: Oid| (#[trigger] done.nodes[x]).action == g.nodes[x].action by {
        assert(joined.nodes[x].action == cut.nodes[x].action);
        assert(cut.nodes[x].action == bare.nodes[x].action);
        assert(bare.nodes[x].action == g.nodes[x].action);
    }
}

/// Chains put on an edge change no decision.
pub proof fn lemma_orphaned_alike(g: GraphView, base: Oid, id: Oid, lists: Seq<Seq<Oid>>)
    ensures
        alike(g, orphaned(g, base, id, lists)),
    decreases lists.len(),
{
    if lists.len() > 0 {
        let (put, top) = spliced_between(g, base, id, lists[0]);
        let (piled, above) = stacked(g, id, lists[0]);
        lemma_stacked_alike(g, id, lists[0]);
        let cut = piled.with_children(base, crate::git::oid::without_id(piled.nodes[base].children, id));
        assert(alike(piled, cut));
        assert(alike(cut, put));
        lemma_orphaned_alike(put, base, top, lists.drop_first());
        let done = orphaned(g, base, id, lists);
        assert forall|x: Oid| (#[trigger] done.nodes[x]).action == g.nodes[x].action by {
            assert(put.nodes[x].action == cut.nodes[x].action);
            assert(cut.nodes[x].action == piled.nodes[x].action);
            assert(piled.nodes[x].action == g.nodes[x].action);
        }
    }
}

/// Whether `after` decides of each node what `before` does, but for the
/// fixups that waited and the nodes that `id` reached.
pub open spec fn kept_apart(before: Fixing, after: GraphView, id: Oid) -> bool {
    forall|x: Oid|
        !before.graph.reaches(id, x) && !waits(before.outstanding, x) ==> (#[trigger] after.nodes[x]).action
            == before.graph.nodes[x].action
}

/// Work on a node changes the decision only of fixups that waited and of
/// nodes that it reached.
pub proof fn lemma_fixed_node_apart(s: Fixing, base: Oid, id: Oid, squash: bool, depth: nat)
    requires
        grafting(s.graph, s.outstanding),
        s.graph.contains(base),
        s.graph.nodes[base].children.contains(id),
    ensures
        kept_apart(s, fixed_node(s, base, id, squash, depth).graph, id),
    decreases depth, 0nat, 0nat,
{
    let g = s.graph;
    let at = choose|i: int| 0 <= i < g.nodes[base].children.len() && g.nodes[base].children[i] == id;
    assert(g.contains(g.nodes[base].children[at]));
    lemma_working_starts(s, id);
    let below = if depth == 0 {
        s
    } else {
        fixed_below(s, id, g.nodes[id].children, squash, (depth - 1) as nat)
    };
    if depth > 0 {
        lemma_fixed_below(s, s, id, g.nodes[id].children, squash, (depth - 1) as nat);
        lemma_fixed_below_apart(s, s, id, g.nodes[id].children, squash, (depth - 1) as nat);
    }
    assert(working(s, below, id, Seq::empty()));
    assert(kept_apart(s, below.graph, id));
    let node = below.graph.nodes[id];
    let t = fixed_node(s, base, id, squash, depth);
    match fixup_target(node.commit.summary) {
        Some(target) => {
            lemma_unhooked_alike(below.graph, base, id);
            assert forall|x: Oid| !g.reaches(id, x) && !waits(s.outstanding, x) implies (#[trigger] t.graph.nodes[x]).action
                == g.nodes[x].action by {
                assert(t.graph.nodes[x].action == below.graph.nodes[x].action);
            }
        },
        None => {
            match found(below.outstanding, node.commit.summary) {
                Some(ids) => {
                    lemma_settled_alike(below.graph, id, ids, squash);
                    lemma_taken_waits(below.outstanding, node.commit.summary);
                    assert forall|x: Oid| !g.reaches(id, x) && !waits(s.outstanding, x) implies (
                    #[trigger] t.graph.nodes[x]).action == g.nodes[x].action by {
                        if ids.contains(x) {
                            let k = choose|k: int| 0 <= k < ids.len() && ids[k] == x;
                            assert(waits(below.outstanding, ids[k]));
                        }
                        assert(t.graph.nodes[x].action == below.graph.nodes[x].action);
                    }
                },
                None => {},
            }
        },
    }
}

/// The same for the children of a node that are still to come.
pub proof fn lemma_fixed_below_apart(
    origin: Fixing,
    s: Fixing,
    node: Oid,
    rest: Seq<Oid>,
    squash: bool,
    depth: nat,
)
    requires
        grafting(origin.graph, origin.outstanding),
        origin.graph.contains(node),
        working(origin, s, node, rest),
        kept_apart(origin, s.graph, node),
    ensures
        kept_apart(origin, fixed_below(s, node, rest, squash, depth).graph, node),
    decreases depth, 1nat, rest.len(),
{
    if rest.len() > 0 {
        let child = rest[0];
        assert(s.graph.nodes[node].children.contains(rest[0]));
        assert(origin.graph.nodes[node].children.contains(rest[0]));
        let at = choose|i: int|
            0 <= i < origin.graph.nodes[node].children.len() && origin.graph.nodes[node].children[i]
                == child;
        assert(origin.graph.contains(origin.graph.nodes[node].children[at]));
        assert forall|y: Oid|
            #[trigger] origin.graph.reaches(child, y) && origin.graph.contains(y) implies s.graph.nodes[y].children
            == origin.graph.nodes[y].children by {
            assert(origin.graph.reaches(rest[0], y));
        }
        lemma_reaches_self(origin.graph, node);
        lemma_reaches_child(origin.graph, node, node, child);
        lemma_fixed_node_apart(s, node, child, squash, depth);
        let t = fixed_node(s, node, child, squash, depth);
        assert forall|x: Oid| !origin.graph.reaches(node, x) && !waits(origin.outstanding, x) implies (
        #[trigger] t.graph.nodes[x]).action == origin.graph.nodes[x].action by {
            if s.graph.reaches(child, x) {
                lemma_same_subtree(origin.graph, s.graph, child, x);
                lemma_reaches_on(origin.graph, node, child, x);
            }
            assert(!waits(s.outstanding, x));
            assert(t.graph.nodes[x].action == s.graph.nodes[x].action);
            assert(s.graph.nodes[x].action == origin.graph.nodes[x].action);
        }
        lemma_working_on(origin, s, node, rest, squash, depth);
        lemma_fixed_below_apart(origin, t, node, rest.drop_first(), squash, depth);
    }
}

/// Chains of waiting fixups put on an edge below a node leave the children
/// of every other node that did not wait as they were.
pub proof fn lemma_orphaned_frame(g: GraphView, entries: Entries, base: Oid, top: Oid)
    requires
        grafting(g, entries),
        g.contains(base),
        g.nodes[base].children.contains(top),
    ensures
        forall|x: Oid|
            g.contains(x) && x != base && !waits(entries, x) ==> (#[trigger] orphaned(
                g,
                base,
                top,
                values(entries),
            ).nodes[x]).children == g.nodes[x].children,
    decreases entries.len(),
{
    if entries.len() > 0 {
        let ids = entries[0].1;
        let (put, above) = spliced_between(g, base, top, ids);
        lemma_between(g, entries, base, top);
        lemma_drop_first_waits(entries);
        assert(values(entries).drop_first() =~= values(entries.drop_first()));
        assert(values(entries)[0] == ids);
        lemma_orphaned_frame(put, entries.drop_first(), base, above);
        let done = orphaned(g, base, top, values(entries));
        assert(done == orphaned(put, base, above, values(entries.drop_first())));
        assert forall|x: Oid| g.contains(x) && x != base && !waits(entries, x) implies (#[trigger] done.nodes[x]).children
            == g.nodes[x].children by {
            assert(!waits(entries.drop_first(), x));
            assert(put.nodes[x].children == g.nodes[x].children);
        }
    }
}

/// Work on a stack of a tree changes nothing outside the stack but the
/// children of the node that the stack hangs on: every node that the stack
/// does not reach keeps its decision, and but for that one node its children.
pub proof fn lemma_fixed_branch_frame(g: GraphView, base: Oid, id: Oid, squash: bool, depth: nat)
    requires
        g.tree(),
        g.contains(base),
        g.nodes[base].children.contains(id),
    ensures
        forall|x: Oid|
            !g.reaches(id, x) ==> (#[trigger] fixed_branch(g, base, id, squash, depth).nodes[x]).action
                == g.nodes[x].action,
        forall|x: Oid|
            g.contains(x) && x != base && !g.reaches(id, x) ==> (#[trigger] fixed_branch(
                g,
                base,
                id,
                squash,
                depth,
            ).nodes[x]).children == g.nodes[x].children,
{
    let s = Fixing { graph: g, outstanding: Entries::empty() };
    lemma_grafting_tree(g);
    let at = choose|i: int| 0 <= i < g.nodes[base].children.len() && g.nodes[base].children[i] == id;
    assert(g.contains(g.nodes[base].children[at]));
    lemma_no_way_back(g, base, id);
    lemma_reaches_self(g, id);
    lemma_working_starts(s, id);
    lemma_fixed_below(s, s, id, g.nodes[id].children, squash, depth);
    assert(kept_apart(s, g, id));
    lemma_fixed_below_apart(s, s, id, g.nodes[id].children, squash, depth);
    let below = fixed_below(s, id, g.nodes[id].children, squash, depth);
    assert(working(s, below, id, Seq::empty()));
    assert(forall|x: Oid| !waits(s.outstanding, x));
    assert(below.graph.nodes[base].children == g.nodes[base].children);
    assert(below.graph.has_parent(id));
    assert(!waits(below.outstanding, id));
    let after = fixed_branch(g, base, id, squash, depth);
    if below.outstanding.len() > 0 {
        let summary = below.graph.nodes[id].commit.summary;
        let rest = without_key(below.outstanding, summary);
        lemma_taken_waits(below.outstanding, summary);
        let own = match found(below.outstanding, summary) {
            Some(ids) => settled(below.graph, id, ids, squash),
            None => below.graph,
        };
        assert(!waits(below.outstanding, base)) by {
            if waits(below.outstanding, base) {
                assert(floating(below.graph, base));
            }
        }
        match found(below.outstanding, summary) {
            Some(ids) => {
                lemma_settle(below.graph, below.outstanding, summary, id, squash);
                lemma_settled_alike(below.graph, id, ids, squash);
                assert(own.nodes[base].children == below.graph.nodes[base].children);
                assert forall|x: Oid| !g.reaches(id, x) implies (#[trigger] own.nodes[x]).action
                    == below.graph.nodes[x].action by {
                    if ids.contains(x) {
                        let k = choose|k: int| 0 <= k < ids.len() && ids[k] == x;
                        assert(waits(below.outstanding, ids[k]));
                    }
                }
            },
            None => {},
        }
        assert(grafting(own, rest));
        assert(own.nodes[base].children.contains(id));
        lemma_orphaned_frame(own, rest, base, id);
        lemma_orphaned_alike(own, base, id, values(rest));
        assert forall|x: Oid| !g.reaches(id, x) implies (#[trigger] after.nodes[x]).action
            == g.nodes[x].action by {
            assert(after.nodes[x].action == own.nodes[x].action);
            assert(own.nodes[x].action == below.graph.nodes[x].action);
            assert(below.graph.nodes[x].action == g.nodes[x].action);
        }
        assert forall|x: Oid| g.contains(x) && x != base && !g.reaches(id, x) implies (#[trigger] after.nodes[x]).children
            == g.nodes[x].children by {
            assert(!waits(below.outstanding, x));
            assert(!waits(rest, x));
            assert(x != id);
            assert(own.nodes[x].children == below.graph.nodes[x].children);
            assert(below.graph.nodes[x].children == g.nodes[x].children);
            assert(after.nodes[x].children == own.nodes[x].children);
        }
    } else {
        assert forall|x: Oid| g.contains(x) && x != base && !g.reaches(id, x) implies (#[trigger] after.nodes[x]).children
            == g.nodes[x].children by {
            assert(x != id);
            assert(below.graph.nodes[x].children == g.nodes[x].children);
        }
    }
}

/// In a tree, what reaches a node on a path from the root is on that path.
pub proof fn lemma_on_the_way(g: GraphView, path: Seq<Oid>, k: int, way: Seq<Oid>)
    requires
        g.tree(),
        g.is_path(path),
        path[0] == g.root_id,
        0 <= k < path.len(),
        g.is_path(way),
        way.last() == path[k],
    ensures
        exists|j: int| 0 <= j <= k && #[trigger] path[j] == way[0],
    decreases way.len(),
{
    if way.len() == 1 {
        assert(path[k] == way[0]);
    } else {
        let m = way.len() as int;
        let p = way[m - 2];
        assert(g.contains(p) && g.nodes[p].children.contains(way[m - 2 + 1]));
        let at = choose|i: int| 0 <= i < g.nodes[p].children.len() && g.nodes[p].children[i] == path[k];
        if k == 0 {
            assert(g.nodes[p].children[at] != g.root_id);
        } else {
            let q = path[k - 1];
            assert(g.contains(q) && g.nodes[q].children.contains(path[k - 1 + 1]));
            assert(p == q);
            let shorter = way.drop_last();
            assert forall|i: int| 0 <= i < shorter.len() - 1 implies g.contains(#[trigger] shorter[i])
                && g.nodes[shorter[i]].children.contains(shorter[i + 1]) by {
                assert(shorter[i] == way[i]);
                assert(shorter[i + 1] == way[i + 1]);
            }
            lemma_on_the_way(g, path, k - 1, shorter);
            let j = choose|j: int| 0 <= j <= k - 1 && #[trigger] path[j] == shorter[0];
            assert(path[j] == way[0]);
        }
    }
}

/// Whether `path` leads from the root through nodes that the pass walks on
/// through.
pub open spec fn leads(g: GraphView, path: Seq<Oid>) -> bool {
    &&& g.is_path(path)
    &&& path[0] == g.root_id
    &&& forall|i: int| 0 <= i < path.len() ==> passed(g, #[trigger] path[i])
}

/// Whether such a path of `count` nodes leads to `id`.
pub open spec fn led_to(g: GraphView, id: Oid, count: nat) -> bool {
    exists|path: Seq<Oid>| #[trigger] leads(g, path) && path.len() == count && path.last() == id
}

/// Whether such a path of `count` nodes leads to each of `ids`.
pub open spec fn all_led_to(g: GraphView, ids: Seq<Oid>, count: nat) -> bool {
    forall|i: int| 0 <= i < ids.len() ==> led_to(g, #[trigger] ids[i], count)
}

/// Work on a stack leaves the paths on which the pass walks as they are.
pub proof fn lemma_leads_kept(
    g: GraphView,
    base: Oid,
    id: Oid,
    squash: bool,
    depth: nat,
    path: Seq<Oid>,
)
    requires
        g.tree(),
        g.contains(base),
        g.nodes[base].children.contains(id),
        !passed(g, id),
        leads(g, path),
    ensures
        leads(fixed_branch(g, base, id, squash, depth), path),
{
    let after = fixed_branch(g, base, id, squash, depth);
    lemma_fixed_branch(g, base, id, squash, depth);
    lemma_fixed_branch_frame(g, base, id, squash, depth);
    assert forall|i: int| 0 <= i < path.len() implies !g.reaches(id, #[trigger] path[i]) by {
        if g.reaches(id, path[i]) {
            let way = choose|way: Seq<Oid>| #[trigger] g.is_path(way) && way[0] == id && way.last() == path[i];
            lemma_on_the_way(g, path, i, way);
            let j = choose|j: int| 0 <= j <= i && #[trigger] path[j] == way[0];
            assert(passed(g, path[j]));
        }
    }
    assert forall|i: int| 0 <= i < path.len() implies passed(after, #[trigger] path[i]) by {
        assert(!g.reaches(id, path[i]));
        assert(passed(g, path[i]));
        assert(after.nodes[path[i]].action == g.nodes[path[i]].action);
    }
    assert forall|i: int| 0 <= i < path.len() - 1 implies after.contains(#[trigger] path[i])
        && after.nodes[path[i]].children.contains(path[i + 1]) by {
        let x = path[i];
        assert(g.contains(x) && g.nodes[x].children.contains(path[i + 1]));
        assert(!g.reaches(id, path[i]));
        if x == base {
            assert(passed(g, path[i + 1]));
            assert(path[i + 1] != id);
        } else {
            assert(after.nodes[x].children == g.nodes[x].children);
        }
    }
}

/// The same for the path to each of some nodes.
pub proof fn lemma_all_led_kept(
    g: GraphView,
    base: Oid,
    id: Oid,
    squash: bool,
    depth: nat,
    ids: Seq<Oid>,
    count: nat,
)
    requires
        g.tree(),
        g.contains(base),
        g.nodes[base].children.contains(id),
        !passed(g, id),
        all_led_to(g, ids, count),
    ensures
        all_led_to(fixed_branch(g, base, id, squash, depth), ids, count),
{
    let after = fixed_branch(g, base, id, squash, depth);
    assert forall|i: int| 0 <= i < ids.len() implies led_to(after, #[trigger] ids[i], count) by {
        assert(led_to(g, ids[i], count));
        let path = choose|path: Seq<Oid>| #[trigger] leads(g, path) && path.len() == count && path.last() == ids[i];
        lemma_leads_kept(g, base, id, squash, depth, path);
    }
}

/// Over the children of a node of a tree, the pass does the same with any
/// room for the way down that is not less than the size of the graph, and the
/// nodes that it puts aside lie one step further from the root.
pub proof fn lemma_fix_children_whole(
    s: Sweep<()>,
    parent: Oid,
    children: Seq<Oid>,
    squash: bool,
    one: nat,
    two: nat,
    level: Seq<Oid>,
    count: nat,
)
    requires
        s.graph.tree(),
        s.graph.contains(parent),
        s.graph.contains_all(s.next),
        children.no_duplicates(),
        forall|i: int| 0 <= i < children.len() ==> s.graph.nodes[parent].children.contains(#[trigger] children[i]),
        one >= s.graph.size(),
        two >= s.graph.size(),
        led_to(s.graph, parent, count),
        all_led_to(s.graph, level, count),
        all_led_to(s.graph, s.next, count + 1),
    ensures
        visit_children(fix_visitor(squash, one), s, parent, children) == visit_children(
            fix_visitor(squash, two),
            s,
            parent,
            children,
        ),
        all_led_to(
            visit_children(fix_visitor(squash, one), s, parent, children).graph,
            level,
            count,
        ),
        all_led_to(
            visit_children(fix_visitor(squash, one), s, parent, children).graph,
            visit_children(fix_visitor(squash, one), s, parent, children).next,
            count + 1,
        ),
    decreases children.len(),
{
    if children.len() > 0 {
        let g = s.graph;
        let child = children[0];
        let t = fix_visit(s, parent, child, squash, one);
        assert(g.nodes[parent].children.contains(children[0]));
        let at = choose|i: int| 0 <= i < g.nodes[parent].children.len() && g.nodes[parent].children[i] == child;
        assert(g.contains(g.nodes[parent].children[at]));
        if passed(g, child) {
            let path = choose|path: Seq<Oid>| #[trigger] leads(g, path) && path.len() == count && path.last() == parent;
            lemma_path_on(g, path, child);
            let longer = path.push(child);
            assert forall|i: int| 0 <= i < longer.len() implies passed(g, #[trigger] longer[i]) by {
                if i < path.len() {
                    assert(longer[i] == path[i]);
                }
            }
            assert(leads(g, longer));
            assert(led_to(g, child, count + 1));
            assert forall|i: int| 0 <= i < t.next.len() implies led_to(t.graph, #[trigger] t.next[i], count + 1) by {
                if i < s.next.len() {
                    assert(led_to(g, s.next[i], count + 1));
                }
            }
        } else {
            lemma_fixed_branch(g, parent, child, squash, one);
            lemma_fixed_branch_whole(g, parent, child, squash, one, two);
            lemma_all_led_kept(g, parent, child, squash, one, level, count);
            lemma_all_led_kept(g, parent, child, squash, one, s.next, count + 1);
            lemma_all_led_kept(g, parent, child, squash, one, seq![parent], count);
            assert(seq![parent][0] == parent);
        }
        assert(t == fix_visit(s, parent, child, squash, two));
        assert(t.graph.contains_all(t.next)) by {
            assert forall|i: int| 0 <= i < t.next.len() implies t.graph.contains(#[trigger] t.next[i]) by {
                if i < s.next.len() {
                    assert(g.contains(s.next[i]));
                }
            }
        }
        let later = children.drop_first();
        assert(later.no_duplicates()) by {
            assert forall|i: int, j: int| 0 <= i < later.len() && 0 <= j < later.len() && i != j implies later[i]
                != later[j] by {
                assert(children[i + 1] != children[j + 1]);
            }
        }
        assert forall|i: int| 0 <= i < later.len() implies t.graph.nodes[parent].children.contains(
            #[trigger] later[i],
        ) by {
            assert(later[i] == children[i + 1]);
            assert(children[i + 1] != children[0]);
            assert(g.nodes[parent].children.contains(children[i + 1]));
        }
        lemma_fix_children_whole(t, parent, later, squash, one, two, level, count);
    }
}

/// The same over a level.
pub proof fn lemma_fix_level_whole(
    s: Sweep<()>,
    level: Seq<Oid>,
    squash: bool,
    one: nat,
    two: nat,
    count: nat,
)
    requires
        s.graph.tree(),
        s.graph.contains_all(s.next),
        one >= s.graph.size(),
        two >= s.graph.size(),
        all_led_to(s.graph, level, count),
        all_led_to(s.graph, s.next, count + 1),
    ensures
        visit_level(fix_visitor(squash, one), s, level) == visit_level(
            fix_visitor(squash, two),
            s,
            level,
        ),
        visit_level(fix_visitor(squash, one), s, level).graph.tree(),
        visit_level(fix_visitor(squash, one), s, level).graph.nodes.dom() == s.graph.nodes.dom(),
        visit_level(fix_visitor(squash, one), s, level).graph.contains_all(
            visit_level(fix_visitor(squash, one), s, level).next,
        ),
        all_led_to(
            visit_level(fix_visitor(squash, one), s, level).graph,
            visit_level(fix_visitor(squash, one), s, level).next,
            count + 1,
        ),
    decreases level.len(),
{
    if level.len() > 0 {
        let g = s.graph;
        let parent = level[0];
        assert(led_to(g, level[0], count));
        let path = choose|path: Seq<Oid>| #[trigger] leads(g, path) && path.len() == count && path.last() == parent;
        lemma_path_within(g, path, path.len() - 1);
        let children = g.children(parent);
        assert forall|i: int| 0 <= i < children.len() implies g.nodes[parent].children.contains(
            #[trigger] children[i],
        ) by {}
        let later = level.drop_first();
        assert forall|i: int| 0 <= i < later.len() implies led_to(g, #[trigger] later[i], count) by {
            assert(later[i] == level[i + 1]);
        }
        lemma_fix_children(s, parent, children, squash, one);
        lemma_fix_children_whole(s, parent, children, squash, one, two, later, count);
        lemma_fix_level_whole(
            visit_children(fix_visitor(squash, one), s, parent, children),
            later,
            squash,
            one,
            two,
            count,
        );
    }
}

/// The same level after level: with levels enough for the longest path
/// there can be, the walk comes to its end.
pub proof fn lemma_fix_levels_whole(
    s: Sweep<()>,
    squash: bool,
    one: nat,
    two: nat,
    left: nat,
    right: nat,
    count: nat,
)
    requires
        s.graph.tree(),
        s.graph.contains_all(s.next),
        one >= s.graph.size(),
        two >= s.graph.size(),
        all_led_to(s.graph, s.next, count),
        left + count > s.graph.size(),
        right + count > s.graph.size(),
    ensures
        visit_levels(fix_visitor(squash, one), s, left) == visit_levels(
            fix_visitor(squash, two),
            s,
            right,
        ),
        visit_levels(fix_visitor(squash, one), s, left).next.len() == 0,
    decreases left,
{
    if s.next.len() > 0 {
        let g = s.graph;
        assert(led_to(g, s.next[0], count));
        let path = choose|path: Seq<Oid>| #[trigger] leads(g, path) && path.len() == count && path.last() == s.next[0];
        lemma_path_short(g, path);
        assert(left > 0 && right > 0);
        let cleared = Sweep { next: Seq::empty(), ..s };
        assert(cleared.graph.contains_all(cleared.next));
        assert(all_led_to(g, cleared.next, count + 1));
        lemma_fix_level_whole(cleared, s.next, squash, one, two, count);
        let t = visit_level(fix_visitor(squash, one), cleared, s.next);
        assert(t.graph.size() == g.size());
        lemma_fix_levels_whole(
            t,
            squash,
            one,
            two,
            (left - 1) as nat,
            (right - 1) as nat,
            count + 1,
        );
    }
}

/// On a tree the fixup pass is not cut short. The walk comes to its end: no
/// node is left aside for want of levels. And what the pass makes of the graph
/// is what it would make of it with any more room, for the walk and for the
/// way down each stack.
pub proof fn lemma_fixed_whole(graph: GraphView, squash: bool, room: nat, levels: nat)
    requires
        graph.tree(),
        room >= graph.size(),
        levels >= graph.size(),
    ensures
        sweep(fix_visitor(squash, graph.size()), graph, ()).next.len() == 0,
        visit_levels(
            fix_visitor(squash, room),
            Sweep { graph, acc: (), next: first_level(graph) },
            levels,
        ) == sweep(fix_visitor(squash, graph.size()), graph, ()),
{
    let start = Sweep { graph, acc: (), next: first_level(graph) };
    assert(all_led_to(graph, start.next, 1)) by {
        assert forall|i: int| 0 <= i < start.next.len() implies led_to(graph, #[trigger] start.next[i], 1) by {
            let path = seq![graph.root_id];
            assert(graph.is_path(path));
            assert(leads(graph, path));
            assert(path.last() == graph.root_id);
        }
    }
    assert(graph.contains_all(start.next));
    lemma_fix_levels_whole(start, squash, graph.size(), room, graph.size(), levels, 1);
}

} // verus!
