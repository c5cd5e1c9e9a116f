//! The searches within a stack go no deeper than asked, and the passes ask
//! for the number of nodes. In a graph without cycles that is deep enough:
//! what is found is the same for every greater depth.
use vstd::prelude::*;
use crate::git::oid::{with_id, Oid};
use crate::graph::acyclic::{
    lemma_ends_path_on, lemma_path_ends, lemma_path_on, lemma_path_short, lemma_path_within,
    lemma_same_shape_acyclic,
};
use crate::graph::drop::{
    delete_all, drop_below, drop_first, drop_level, drop_levels, drop_visit, drop_visit_children,
    TreeSweep,
};
use crate::graph::model::{lemma_with_action_sound, lemma_with_pushable, GraphView};
use crate::graph::pushable::{push_level, push_levels, push_one, push_start, Cause, PushSweep};
use crate::graph::node::Action;
use crate::graph::protect::{
    grown, grown_below, lemma_grown_shape, mark_level, mark_levels, mark_one, mark_protected,
};
use crate::graph::sweep::{Names, Sweep};

verus! {

/// A path in a graph is a path in every graph of the same shape.
pub proof fn lemma_path_same_shape(before: GraphView, after: GraphView, path: Seq<Oid>)
    requires
        before.same_shape(after),
        before.is_path(path),
    ensures
        after.is_path(path),
{
    assert forall|i: int| 0 <= i < path.len() - 1 implies after.contains(#[trigger] path[i])
        && after.nodes[path[i]].children.contains(path[i + 1]) by {
        assert(before.contains(path[i]));
        assert(before.nodes[path[i]].children == after.nodes[path[i]].children);
    }
}

/// One level of a marking puts aside only ends of paths.
pub proof fn lemma_mark_level_ends(origin: GraphView, s: Sweep<Names>, level: Seq<Oid>, count: nat)
    requires
        origin.sound(),
        s.graph.sound(),
        origin.same_shape(s.graph),
        origin.contains_all(level),
        origin.contains_all(s.next),
        origin.end_paths(level, count),
        origin.end_paths(s.next, count + 1),
    ensures
        mark_level(s, level).graph.sound(),
        origin.same_shape(mark_level(s, level).graph),
        origin.contains_all(mark_level(s, level).next),
        origin.end_paths(mark_level(s, level).next, count + 1),
    decreases level.len(),
{
    if level.len() > 0 {
        let id = level[0];
        let one = mark_one(s, id);
        assert(origin.contains(level[0]));
        assert(origin.ends_path(level[0], count));
        lemma_with_action_sound(s.graph, id, Action::Protected);
        assert forall|i: int| 0 <= i < one.next.len() implies origin.contains(#[trigger] one.next[i])
            && origin.ends_path(one.next[i], count + 1) by {
            if i < s.next.len() {
                assert(one.next[i] == s.next[i]);
                assert(origin.contains(s.next[i]));
                assert(origin.ends_path(s.next[i], count + 1));
            } else {
                let c = s.graph.nodes[id].children[i - s.next.len()];
                assert(one.next[i] == c);
                assert(origin.nodes[id].children == s.graph.nodes[id].children);
                assert(origin.contains(origin.nodes[id].children[i - s.next.len()]));
                assert(origin.nodes[id].children.contains(c));
                lemma_ends_path_on(origin, id, c, count);
            }
        }
        assert forall|i: int| 0 <= i < level.drop_first().len() implies origin.contains(
            #[trigger] level.drop_first()[i],
        ) && origin.ends_path(level.drop_first()[i], count) by {
            assert(level.drop_first()[i] == level[i + 1]);
        }
        lemma_mark_level_ends(origin, one, level.drop_first(), count);
    }
}

/// In a graph without cycles a marking ends with nothing put aside, if it
/// may go on for as many levels as the longest path can still have nodes.
pub proof fn lemma_mark_levels_end(origin: GraphView, s: Sweep<Names>, depth: nat, count: nat)
    requires
        origin.sound(),
        origin.acyclic(),
        s.graph.sound(),
        origin.same_shape(s.graph),
        origin.contains_all(s.next),
        origin.end_paths(s.next, count),
        count >= 1,
        depth + count > origin.size(),
    ensures
        mark_levels(s, depth).next.len() == 0,
    decreases depth,
{
    if s.next.len() > 0 {
        assert(origin.ends_path(s.next[0], count));
        let path = choose|path: Seq<Oid>|
            #[trigger] origin.is_path(path) && origin.contains(path[0]) && path.len() == count
                && path.last() == s.next[0];
        lemma_path_short(origin, path);
        let cleared = Sweep { next: Seq::empty(), ..s };
        lemma_mark_level_ends(origin, cleared, s.next, count);
        lemma_mark_levels_end(origin, mark_level(cleared, s.next), (depth - 1) as nat, count + 1);
    }
}

/// In a graph without cycles a marking comes to its end: nothing is left
/// unmarked for want of levels.
pub proof fn lemma_marking_ends(graph: GraphView, names: Names, id: Oid, depth: nat)
    requires
        graph.sound(),
        graph.acyclic(),
        graph.contains(id),
        depth >= graph.size(),
    ensures
        mark_protected(graph, names, id, depth).next.len() == 0,
{
    let start = Sweep { graph, acc: names, next: seq![id] };
    assert(graph.end_paths(start.next, 1)) by {
        assert forall|i: int| 0 <= i < start.next.len() implies graph.ends_path(
            #[trigger] start.next[i],
            1,
        ) by {
            let path = seq![id];
            assert(graph.is_path(path));
            assert(path.last() == id);
        }
    }
    assert(graph.contains_all(start.next));
    lemma_mark_levels_end(graph, start, depth, 1);
}

/// At the end of a path, a search for long lines finds the same for every
/// depth that leaves room for the longest path there can be.
pub proof fn lemma_grown_deep(
    g: GraphView,
    names: Names,
    path: Seq<Oid>,
    count: nat,
    max: nat,
    one: nat,
    two: nat,
    limit: nat,
)
    requires
        g.sound(),
        g.acyclic(),
        g.is_path(path),
        g.contains(path[0]),
        one + path.len() >= g.size(),
        two + path.len() >= g.size(),
    ensures
        grown(g, names, path.last(), count, max, one, limit) == grown(
            g,
            names,
            path.last(),
            count,
            max,
            two,
            limit,
        ),
    decreases one, 0nat, 0nat,
{
    let id = path.last();
    let kids = g.nodes[id].children;
    lemma_path_within(g, path, path.len() - 1);
    if g.nodes[id].branches.len() == 0 && count <= max {
        if one == 0 || two == 0 {
            lemma_path_ends(g, path);
        } else {
            lemma_grown_below_deep(
                g,
                names,
                path,
                kids,
                count + 1,
                max,
                (one - 1) as nat,
                (two - 1) as nat,
                limit,
            );
        }
    }
}

/// The same for the search in some children of the node at the end.
pub proof fn lemma_grown_below_deep(
    g: GraphView,
    names: Names,
    path: Seq<Oid>,
    children: Seq<Oid>,
    count: nat,
    max: nat,
    one: nat,
    two: nat,
    limit: nat,
)
    requires
        g.sound(),
        g.acyclic(),
        g.is_path(path),
        g.contains(path[0]),
        g.contains(path.last()),
        forall|i: int|
            0 <= i < children.len() ==> g.nodes[path.last()].children.contains(#[trigger] children[i]),
        one + path.len() + 1 >= g.size(),
        two + path.len() + 1 >= g.size(),
    ensures
        grown_below(g, names, children, count, max, one, limit) == grown_below(
            g,
            names,
            children,
            count,
            max,
            two,
            limit,
        ),
    decreases one, 1nat, children.len(),
{
    if children.len() > 0 {
        let child = children[0];
        assert(g.nodes[path.last()].children.contains(children[0]));
        let k = choose|k: int|
            0 <= k < g.nodes[path.last()].children.len() && g.nodes[path.last()].children[k] == child;
        assert(g.contains(g.nodes[path.last()].children[k]));
        lemma_path_on(g, path, child);
        lemma_grown_deep(g, names, path.push(child), count, max, one, two, limit);
        let first = grown(g, names, child, count, max, one, limit);
        lemma_grown_shape(g, names, child, count, max, one, limit);
        lemma_same_shape_acyclic(g, first.graph);
        lemma_path_same_shape(g, first.graph, path);
        assert(first.graph.nodes.dom() =~= g.nodes.dom());
        assert forall|i: int| 0 <= i < children.drop_first().len() implies first.graph.nodes[path.last()].children.contains(
            #[trigger] children.drop_first()[i],
        ) by {
            assert(children.drop_first()[i] == children[i + 1]);
            assert(g.nodes[path.last()].children == first.graph.nodes[path.last()].children);
        }
        lemma_grown_below_deep(
            first.graph,
            first.names,
            path,
            children.drop_first(),
            count,
            max,
            one,
            two,
            limit,
        );
    }
}

/// In a graph without cycles, a search for long lines finds the same for
/// every depth from the number of nodes on.
pub proof fn lemma_grown_whole(
    g: GraphView,
    names: Names,
    id: Oid,
    count: nat,
    max: nat,
    depth: nat,
    limit: nat,
)
    requires
        g.sound(),
        g.acyclic(),
        g.contains(id),
        depth >= g.size(),
    ensures
        grown(g, names, id, count, max, depth, limit) == grown(
            g,
            names,
            id,
            count,
            max,
            g.size(),
            limit,
        ),
{
    let path = seq![id];
    assert(g.is_path(path));
    assert(path.last() == id);
    lemma_grown_deep(g, names, path, count, max, depth, g.size(), limit);
}

/// Marking nodes of the graph for deletion keeps it sound and its shape.
pub proof fn lemma_delete_all_shape(g: GraphView, ids: Seq<Oid>)
    requires
        g.sound(),
        g.contains_all(ids),
    ensures
        delete_all(g, ids).sound(),
        g.same_shape(delete_all(g, ids)),
    decreases ids.len(),
{
    if ids.len() > 0 {
        assert(g.contains(ids[0]));
        lemma_with_action_sound(g, ids[0], Action::Delete);
        let one = g.with_action(ids[0], Action::Delete);
        assert forall|i: int| 0 <= i < ids.drop_first().len() implies one.contains(
            #[trigger] ids.drop_first()[i],
        ) by {
            assert(g.contains(ids[i + 1]));
        }
        lemma_delete_all_shape(one, ids.drop_first());
    }
}

/// The search for the first branch keeps the graph sound and its shape.
pub proof fn lemma_drop_first_shape(
    g: GraphView,
    id: Oid,
    line: Seq<Oid>,
    trees: Seq<Oid>,
    depth: nat,
)
    requires
        g.sound(),
        g.contains(id),
        g.contains_all(line),
    ensures
        drop_first(g, id, line, trees, depth).sound(),
        g.same_shape(drop_first(g, id, line, trees, depth)),
    decreases depth, 0nat, 0nat,
{
    let node = g.nodes[id];
    let longer = with_id(line, id);
    assert(g.contains_all(longer)) by {
        assert forall|i: int| 0 <= i < longer.len() implies g.contains(#[trigger] longer[i]) by {
            if i < line.len() {
                assert(g.contains(line[i]));
            }
        }
    }
    if node.commit.is_revert() {
    } else if node.branches.len() > 0 {
        if trees.contains(node.commit.tree_id) {
            lemma_delete_all_shape(g, longer);
        }
    } else if depth > 0 {
        assert forall|i: int| 0 <= i < node.children.len() implies g.contains(#[trigger] node.children[i]) by {
            assert(g.contains(g.nodes[id].children[i]));
        }
        lemma_drop_below_shape(g, node.children, longer, trees, (depth - 1) as nat);
    }
}

/// The same for the search in each of some nodes in turn.
pub proof fn lemma_drop_below_shape(
    g: GraphView,
    children: Seq<Oid>,
    line: Seq<Oid>,
    trees: Seq<Oid>,
    depth: nat,
)
    requires
        g.sound(),
        g.contains_all(children),
        g.contains_all(line),
    ensures
        drop_below(g, children, line, trees, depth).sound(),
        g.same_shape(drop_below(g, children, line, trees, depth)),
    decreases depth, 1nat, children.len(),
{
    if children.len() > 0 {
        assert(g.contains(children[0]));
        lemma_drop_first_shape(g, children[0], line, trees, depth);
        let first = drop_first(g, children[0], line, trees, depth);
        assert forall|i: int| 0 <= i < children.drop_first().len() implies first.contains(
            #[trigger] children.drop_first()[i],
        ) by {
            assert(g.contains(children[i + 1]));
        }
        assert forall|i: int| 0 <= i < line.len() implies first.contains(#[trigger] line[i]) by {
            assert(g.contains(line[i]));
        }
        lemma_drop_below_shape(first, children.drop_first(), line, trees, depth);
    }
}

/// At the end of a path, the search for the first branch finds the same for
/// every depth that leaves room for the longest path there can be.
pub proof fn lemma_drop_first_deep(
    g: GraphView,
    path: Seq<Oid>,
    line: Seq<Oid>,
    trees: Seq<Oid>,
    one: nat,
    two: nat,
)
    requires
        g.sound(),
        g.acyclic(),
        g.is_path(path),
        g.contains(path[0]),
        g.contains_all(line),
        one + path.len() >= g.size(),
        two + path.len() >= g.size(),
    ensures
        drop_first(g, path.last(), line, trees, one) == drop_first(g, path.last(), line, trees, two),
    decreases one, 0nat, 0nat,
{
    let id = path.last();
    let node = g.nodes[id];
    lemma_path_within(g, path, path.len() - 1);
    if !node.commit.is_revert() && node.branches.len() == 0 {
        if one == 0 || two == 0 {
            lemma_path_ends(g, path);
        } else {
            let longer = with_id(line, id);
            assert(g.contains_all(longer)) by {
                assert forall|i: int| 0 <= i < longer.len() implies g.contains(#[trigger] longer[i]) by {
                    if i < line.len() {
                        assert(g.contains(line[i]));
                    }
                }
            }
            lemma_drop_below_deep(
                g,
                path,
                node.children,
                longer,
                trees,
                (one - 1) as nat,
                (two - 1) as nat,
            );
        }
    }
}

/// The same for the search in some children of the node at the end.
pub proof fn lemma_drop_below_deep(
    g: GraphView,
    path: Seq<Oid>,
    children: Seq<Oid>,
    line: Seq<Oid>,
    trees: Seq<Oid>,
    one: nat,
    two: nat,
)
    requires
        g.sound(),
        g.acyclic(),
        g.is_path(path),
        g.contains(path[0]),
        g.contains(path.last()),
        g.contains_all(line),
        forall|i: int|
            0 <= i < children.len() ==> g.nodes[path.last()].children.contains(#[trigger] children[i]),
        one + path.len() + 1 >= g.size(),
        two + path.len() + 1 >= g.size(),
    ensures
        drop_below(g, children, line, trees, one) == drop_below(g, children, line, trees, two),
    decreases one, 1nat, children.len(),
{
    if children.len() > 0 {
        let child = children[0];
        assert(g.nodes[path.last()].children.contains(children[0]));
        let k = choose|k: int|
            0 <= k < g.nodes[path.last()].children.len() && g.nodes[path.last()].children[k] == child;
        assert(g.contains(g.nodes[path.last()].children[k]));
        lemma_path_on(g, path, child);
        lemma_drop_first_deep(g, path.push(child), line, trees, one, two);
        let first = drop_first(g, child, line, trees, one);
        lemma_drop_first_shape(g, child, line, trees, one);
        lemma_same_shape_acyclic(g, first);
        lemma_path_same_shape(g, first, path);
        assert(first.nodes.dom() =~= g.nodes.dom());
        assert forall|i: int| 0 <= i < line.len() implies first.contains(#[trigger] line[i]) by {
            assert(g.contains(line[i]));
        }
        assert forall|i: int| 0 <= i < children.drop_first().len() implies first.nodes[path.last()].children.contains(
            #[trigger] children.drop_first()[i],
        ) by {
            assert(children.drop_first()[i] == children[i + 1]);
            assert(g.nodes[path.last()].children == first.nodes[path.last()].children);
        }
        lemma_drop_below_deep(first, path, children.drop_first(), line, trees, one, two);
    }
}

/// In a graph without cycles, the search for the first branch of a stack
/// finds the same for every depth from the number of nodes on.
pub proof fn lemma_drop_first_whole(g: GraphView, id: Oid, trees: Seq<Oid>, depth: nat)
    requires
        g.sound(),
        g.acyclic(),
        g.contains(id),
        depth >= g.size(),
    ensures
        drop_first(g, id, Seq::empty(), trees, depth) == drop_first(
            g,
            id,
            Seq::empty(),
            trees,
            g.size(),
        ),
{
    let path = seq![id];
    assert(g.is_path(path));
    assert(path.last() == id);
    lemma_drop_first_deep(g, path, Seq::empty(), trees, depth, g.size());
}

/// Whether the graph holds the node of each of `items`, and some path of
/// `count` nodes ends at it.
pub open spec fn tagged_end_paths<T>(graph: GraphView, items: Seq<(Oid, T)>, count: nat) -> bool {
    forall|i: int|
        0 <= i < items.len() ==> graph.contains((#[trigger] items[i]).0) && graph.ends_path(
            items[i].0,
            count,
        )
}

/// The visits of some children of a protected node keep the graph sound
/// and its shape, and put aside only ends of paths.
pub proof fn lemma_drop_children_end(
    origin: GraphView,
    s: TreeSweep,
    parent: Oid,
    trees: Seq<Oid>,
    children: Seq<Oid>,
    depth: nat,
    count: nat,
)
    requires
        origin.sound(),
        s.graph.sound(),
        origin.same_shape(s.graph),
        origin.contains(parent),
        origin.ends_path(parent, count),
        forall|i: int| 0 <= i < children.len() ==> origin.nodes[parent].children.contains(#[trigger] children[i]),
        tagged_end_paths(origin, s.next, count + 1),
    ensures
        drop_visit_children(s, trees, children, depth).graph.sound(),
        origin.same_shape(drop_visit_children(s, trees, children, depth).graph),
        tagged_end_paths(origin, drop_visit_children(s, trees, children, depth).next, count + 1),
    decreases children.len(),
{
    if children.len() > 0 {
        let child = children[0];
        assert(origin.nodes[parent].children.contains(children[0]));
        let k = choose|k: int| 0 <= k < origin.nodes[parent].children.len() && origin.nodes[parent].children[k] == child;
        assert(origin.contains(origin.nodes[parent].children[k]));
        lemma_ends_path_on(origin, parent, child, count);
        let t = drop_visit(s, trees, child, depth);
        assert(s.graph.contains_all(Seq::<Oid>::empty()));
        lemma_drop_first_shape(s.graph, child, Seq::empty(), trees, depth);
        assert forall|i: int| 0 <= i < t.next.len() implies origin.contains((#[trigger] t.next[i]).0)
            && origin.ends_path(t.next[i].0, count + 1) by {
            if i < s.next.len() {
                assert(t.next[i] == s.next[i]);
            }
        }
        assert forall|i: int| 0 <= i < children.drop_first().len() implies origin.nodes[parent].children.contains(
            #[trigger] children.drop_first()[i],
        ) by {
            assert(children.drop_first()[i] == children[i + 1]);
        }
        lemma_drop_children_end(origin, t, parent, trees, children.drop_first(), depth, count);
    }
}

/// One level of the walk that seeks what upstream has squashed keeps the
/// graph sound and its shape, and puts aside only ends of paths.
pub proof fn lemma_drop_level_end(
    origin: GraphView,
    s: TreeSweep,
    level: Seq<(Oid, Seq<Oid>)>,
    depth: nat,
    count: nat,
)
    requires
        origin.sound(),
        s.graph.sound(),
        origin.same_shape(s.graph),
        tagged_end_paths(origin, level, count),
        tagged_end_paths(origin, s.next, count + 1),
    ensures
        drop_level(s, level, depth).graph.sound(),
        origin.same_shape(drop_level(s, level, depth).graph),
        tagged_end_paths(origin, drop_level(s, level, depth).next, count + 1),
    decreases level.len(),
{
    if level.len() > 0 {
        let id = level[0].0;
        let trees = with_id(level[0].1, s.graph.nodes[id].commit.tree_id);
        assert(origin.contains(level[0].0) && origin.ends_path(level[0].0, count));
        let children = s.graph.children(id);
        assert(children == origin.nodes[id].children);
        assert forall|i: int| 0 <= i < children.len() implies origin.nodes[id].children.contains(
            #[trigger] children[i],
        ) by {}
        lemma_drop_children_end(origin, s, id, trees, children, depth, count);
        assert forall|i: int| 0 <= i < level.drop_first().len() implies origin.contains(
            (#[trigger] level.drop_first()[i]).0,
        ) && origin.ends_path(level.drop_first()[i].0, count) by {
            assert(level.drop_first()[i] == level[i + 1]);
        }
        lemma_drop_level_end(
            origin,
            drop_visit_children(s, trees, children, depth),
            level.drop_first(),
            depth,
            count,
        );
    }
}

/// In a graph without cycles the walk that seeks what upstream has squashed
/// ends with nothing put aside, if it may go on for as many levels as the
/// longest path can still have nodes.
pub proof fn lemma_drop_levels_end(origin: GraphView, s: TreeSweep, left: nat, depth: nat, count: nat)
    requires
        origin.sound(),
        origin.acyclic(),
        s.graph.sound(),
        origin.same_shape(s.graph),
        tagged_end_paths(origin, s.next, count),
        count >= 1,
        left + count > origin.size(),
    ensures
        drop_levels(s, left, depth).next.len() == 0,
    decreases left,
{
    if s.next.len() > 0 {
        assert(origin.ends_path(s.next[0].0, count));
        let path = choose|path: Seq<Oid>|
            #[trigger] origin.is_path(path) && origin.contains(path[0]) && path.len() == count
                && path.last() == s.next[0].0;
        lemma_path_short(origin, path);
        let cleared = TreeSweep { next: Seq::empty(), ..s };
        lemma_drop_level_end(origin, cleared, s.next, depth, count);
        lemma_drop_levels_end(
            origin,
            drop_level(cleared, s.next, depth),
            (left - 1) as nat,
            depth,
            count + 1,
        );
    }
}

/// In a graph without cycles the walk that seeks what upstream has squashed
/// comes to its end: no stack is left out for want of levels.
pub proof fn lemma_drop_walk_ends(graph: GraphView)
    requires
        graph.sound(),
        graph.acyclic(),
    ensures
        drop_levels(
            TreeSweep {
                graph,
                next: if graph.is_protected(graph.root_id) {
                    seq![(graph.root_id, Seq::<Oid>::empty())]
                } else {
                    Seq::empty()
                },
            },
            graph.size(),
            graph.size(),
        ).next.len() == 0,
{
    let first = if graph.is_protected(graph.root_id) {
        seq![(graph.root_id, Seq::<Oid>::empty())]
    } else {
        Seq::empty()
    };
    let start = TreeSweep { graph, next: first };
    assert forall|i: int| 0 <= i < start.next.len() implies graph.contains((#[trigger] start.next[i]).0)
        && graph.ends_path(start.next[i].0, 1) by {
        let path = seq![graph.root_id];
        assert(graph.is_path(path));
        assert(path.last() == graph.root_id);
    }
    lemma_drop_levels_end(graph, start, graph.size(), graph.size(), 1);
}

/// One level of the walk that seeks what may be pushed keeps the graph well
/// formed and its edges, and puts aside only ends of paths.
pub proof fn lemma_push_level_end(
    origin: GraphView,
    s: PushSweep,
    level: Seq<(Oid, Option<Cause>)>,
    count: nat,
)
    requires
        origin.sound(),
        s.graph.wf(),
        origin.same_but_pushable(s.graph),
        tagged_end_paths(origin, level, count),
        tagged_end_paths(origin, s.next, count + 1),
    ensures
        push_level(s, level).graph.wf(),
        origin.same_but_pushable(push_level(s, level).graph),
        tagged_end_paths(origin, push_level(s, level).next, count + 1),
    decreases level.len(),
{
    if level.len() > 0 {
        let id = level[0].0;
        let one = push_one(s, id, level[0].1);
        assert(origin.contains(level[0].0) && origin.ends_path(level[0].0, count));
        lemma_with_pushable(s.graph, id, true);
        assert(origin.same_but_pushable(one.graph));
        assert forall|i: int| 0 <= i < one.next.len() implies origin.contains((#[trigger] one.next[i]).0)
            && origin.ends_path(one.next[i].0, count + 1) by {
            if i < s.next.len() {
                assert(one.next[i] == s.next[i]);
            } else {
                let c = s.graph.nodes[id].children[i - s.next.len()];
                assert(one.next[i].0 == c);
                assert(origin.nodes[id].children == s.graph.nodes[id].children);
                assert(origin.contains(origin.nodes[id].children[i - s.next.len()]));
                assert(origin.nodes[id].children.contains(c));
                lemma_ends_path_on(origin, id, c, count);
            }
        }
        assert forall|i: int| 0 <= i < level.drop_first().len() implies origin.contains(
            (#[trigger] level.drop_first()[i]).0,
        ) && origin.ends_path(level.drop_first()[i].0, count) by {
            assert(level.drop_first()[i] == level[i + 1]);
        }
        lemma_push_level_end(origin, one, level.drop_first(), count);
    }
}

/// In a graph without cycles the walk that seeks what may be pushed ends
/// with nothing put aside, if it may go on for as many levels as the longest
/// path can still have nodes.
pub proof fn lemma_push_levels_end(origin: GraphView, s: PushSweep, left: nat, count: nat)
    requires
        origin.sound(),
        origin.acyclic(),
        s.graph.wf(),
        origin.same_but_pushable(s.graph),
        tagged_end_paths(origin, s.next, count),
        count >= 1,
        left + count > origin.size(),
    ensures
        push_levels(s, left).next.len() == 0,
    decreases left,
{
    if s.next.len() > 0 {
        assert(origin.ends_path(s.next[0].0, count));
        let path = choose|path: Seq<Oid>|
            #[trigger] origin.is_path(path) && origin.contains(path[0]) && path.len() == count
                && path.last() == s.next[0].0;
        lemma_path_short(origin, path);
        let cleared = PushSweep { next: Seq::empty(), ..s };
        lemma_push_level_end(origin, cleared, s.next, count);
        lemma_push_levels_end(origin, push_level(cleared, s.next), (left - 1) as nat, count + 1);
    }
}

/// In a graph without cycles the walk that seeks what may be pushed comes
/// to its end: no stack is left out for want of levels.
pub proof fn lemma_push_walk_ends(graph: GraphView)
    requires
        graph.wf(),
        graph.acyclic(),
    ensures
        push_levels(push_start(graph), graph.size()).next.len() == 0,
{
    let start = push_start(graph);
    assert forall|i: int| 0 <= i < start.next.len() implies graph.contains((#[trigger] start.next[i]).0)
        && graph.ends_path(start.next[i].0, 1) by {
        let path = seq![graph.root_id];
        assert(graph.is_path(path));
        assert(path.last() == graph.root_id);
    }
    lemma_push_levels_end(graph, start, graph.size(), 1);
}

} // verus!
