//! The passes that protect parts of the graph from being rewritten.
use vstd::prelude::*;
use crate::git::branch::{branch_names, push_names, string_views};
use crate::git::oid::Oid;
use crate::graph::model::{lemma_with_action, lemma_with_action_sound, GraphView};
use crate::graph::node::Action;
use crate::graph::store::Graph;
use crate::graph::sweep::{first_level, sweep, visit_children, visit_level, visit_levels, Names, Sweep};
use crate::graph::guard::lemma_protect_guards;
use crate::graph::rebase::protected_above;
use crate::graph::tree::lemma_same_shape_tree;

verus! {

/// One node of a marking: it becomes protected, the names of its branches
/// are collected, and its children are put aside.
pub open spec fn mark_one(s: Sweep<Names>, id: Oid) -> Sweep<Names> {
    Sweep {
        graph: s.graph.with_action(id, Action::Protected),
        acc: s.acc + branch_names(s.graph.nodes[id].branches),
        next: s.next + s.graph.nodes[id].children,
    }
}

/// Each node of `level` in turn.
pub open spec fn mark_level(s: Sweep<Names>, level: Seq<Oid>) -> Sweep<Names>
    decreases level.len(),
{
    if level.len() == 0 {
        s
    } else {
        mark_level(mark_one(s, level[0]), level.drop_first())
    }
}

/// Level after level, starting with the nodes put aside in `s`, until a
/// level is empty or `depth` levels are done.
pub open spec fn mark_levels(s: Sweep<Names>, depth: nat) -> Sweep<Names>
    decreases depth,
{
    if depth == 0 || s.next.len() == 0 {
        s
    } else {
        mark_levels(mark_level(Sweep { next: Seq::empty(), ..s }, s.next), (depth - 1) as nat)
    }
}

/// The marking that starts at `id`: `id` and what follows it become
/// protected, level by level, `depth` levels at most. The names of the
/// branches met are added to `names`.
pub open spec fn mark_protected(graph: GraphView, names: Names, id: Oid, depth: nat) -> Sweep<Names> {
    mark_levels(Sweep { graph, acc: names, next: seq![id] }, depth)
}

/// One level of a marking keeps the graph sound and its shape, and only
/// protects.
pub proof fn lemma_mark_level_shape(s: Sweep<Names>, level: Seq<Oid>)
    requires
        s.graph.sound(),
        s.graph.contains_all(level),
        s.graph.contains_all(s.next),
    ensures
        mark_level(s, level).graph.sound(),
        s.graph.same_shape(mark_level(s, level).graph),
        s.graph.only_protected_by(mark_level(s, level).graph),
        mark_level(s, level).graph.contains_all(mark_level(s, level).next),
    decreases level.len(),
{
    if level.len() > 0 {
        let id = level[0];
        let one = mark_one(s, id);
        assert(s.graph.contains(level[0]));
        lemma_with_action_sound(s.graph, id, Action::Protected);
        assert forall|i: int| 0 <= i < one.next.len() implies one.graph.contains(#[trigger] one.next[i]) by {
            if i < s.next.len() {
                assert(s.graph.contains(s.next[i]));
            } else {
                assert(s.graph.contains(s.graph.nodes[id].children[i - s.next.len()]));
            }
        }
        assert forall|i: int| 0 <= i < level.drop_first().len() implies one.graph.contains(
            #[trigger] level.drop_first()[i],
        ) by {
            assert(s.graph.contains(level[i + 1]));
        }
        lemma_mark_level_shape(one, level.drop_first());
    }
}

/// A marking keeps the graph sound and its shape, and only protects.
pub proof fn lemma_mark_levels_shape(s: Sweep<Names>, depth: nat)
    requires
        s.graph.sound(),
        s.graph.contains_all(s.next),
    ensures
        mark_levels(s, depth).graph.sound(),
        s.graph.same_shape(mark_levels(s, depth).graph),
        s.graph.only_protected_by(mark_levels(s, depth).graph),
    decreases depth,
{
    if depth > 0 && s.next.len() > 0 {
        let cleared = Sweep { next: Seq::empty(), ..s };
        lemma_mark_level_shape(cleared, s.next);
        lemma_mark_levels_shape(mark_level(cleared, s.next), (depth - 1) as nat);
    }
}

/// Whether `id` and every node within `depth` steps below it was written at
/// `cutoff` or before.
pub open spec fn subtree_old(graph: GraphView, id: Oid, cutoff: i64, depth: nat) -> bool
    decreases depth,
{
    &&& graph.nodes[id].commit.time <= cutoff
    &&& depth > 0 ==> forall|i: int|
        0 <= i < graph.nodes[id].children.len() ==> subtree_old(
            graph,
            #[trigger] graph.nodes[id].children[i],
            cutoff,
            (depth - 1) as nat,
        )
}

/// What the pass for old branches does with the child `child` of a protected
/// node: a protected child is put aside for the next level; another whose
/// whole subtree is old is marked.
pub open spec fn old_visit(s: Sweep<Names>, child: Oid, cutoff: i64, depth: nat) -> Sweep<Names> {
    if s.graph.nodes[child].action == Action::Protected {
        Sweep { next: s.next.push(child), ..s }
    } else if subtree_old(s.graph, child, cutoff, depth) {
        let marked = mark_protected(s.graph, s.acc, child, depth);
        Sweep { graph: marked.graph, acc: marked.acc, next: s.next }
    } else {
        s
    }
}

/// `old_visit` as a visit of a walk.
pub open spec fn old_visitor(cutoff: i64, depth: nat) -> spec_fn(Sweep<Names>, Oid, Oid) -> Sweep<
    Names,
> {
    |s: Sweep<Names>, parent: Oid, child: Oid| old_visit(s, child, cutoff, depth)
}

/// What `protect_old_branches` makes of `graph`, and the names it returns.
pub open spec fn protect_old(graph: GraphView, cutoff: i64) -> Sweep<Names> {
    sweep(old_visitor(cutoff, graph.size()), graph, Seq::empty())
}

/// Protects `node_id` and what follows it, level by level, `depth` levels at
/// most, and adds the names of the branches met to `branches`.
pub fn mark_branch_protected(
    graph: &mut Graph,
    node_id: Oid,
    branches: &mut Vec<String>,
    depth: usize,
)
    requires
        old(graph).wf(),
        old(graph)@.contains(node_id),
    ensures
        final(graph).wf(),
        old(graph)@.same_shape(final(graph)@),
        old(graph)@.only_protected_by(final(graph)@),
        final(graph)@ == mark_protected(
            old(graph)@,
            string_views(old(branches)@),
            node_id,
            depth as nat,
        ).graph,
        string_views(final(branches)@) == mark_protected(
            old(graph)@,
            string_views(old(branches)@),
            node_id,
            depth as nat,
        ).acc,
{
    let ghost goal = mark_protected(old(graph)@, string_views(old(branches)@), node_id, depth as nat);
    let mut level: Vec<Oid> = Vec::new();
    level.push(node_id);
    assert(level@ =~= seq![node_id]);
    let mut left = depth;
    while left > 0 && level.len() > 0
        invariant
            graph.wf(),
            graph@.contains_all(level@),
            old(graph)@.same_shape(graph@),
            old(graph)@.only_protected_by(graph@),
            mark_levels(
                Sweep { graph: graph@, acc: string_views(branches@), next: level@ },
                left as nat,
            ) == goal,
        ensures
            graph.wf(),
            old(graph)@.same_shape(graph@),
            old(graph)@.only_protected_by(graph@),
            (Sweep { graph: graph@, acc: string_views(branches@), next: level@ }) == goal,
        decreases left,
    {
        let ghost level_goal = mark_level(
            Sweep { graph: graph@, acc: string_views(branches@), next: Seq::empty() },
            level@,
        );
        let mut next: Vec<Oid> = Vec::new();
        let mut i: usize = 0;
        assert(level@.skip(0) =~= level@);
        assert(next@ =~= Seq::<Oid>::empty());
        while i < level.len()
            invariant
                i <= level.len(),
                graph.wf(),
                graph@.contains_all(level@),
                graph@.contains_all(next@),
                old(graph)@.same_shape(graph@),
                old(graph)@.only_protected_by(graph@),
                mark_level(
                    Sweep { graph: graph@, acc: string_views(branches@), next: next@ },
                    level@.skip(i as int),
                ) == level_goal,
            decreases level.len() - i,
        {
            let id = level[i];
            let ghost before = Sweep { graph: graph@, acc: string_views(branches@), next: next@ };
            proof {
                assert(level@.skip(i as int).drop_first() =~= level@.skip(i as int + 1));
                assert(level@.skip(i as int)[0] == id);
                assert(graph@.contains(level@[i as int]));
                lemma_with_action(graph@, id, Action::Protected);
            }
            graph.set_action(id, Action::Protected);
            let node = graph.node(id);
            let mut kids = node.children.clone();
            proof {
                assert forall|k: int| 0 <= k < kids@.len() implies graph@.contains(#[trigger] kids@[k]) by {
                    assert(graph@.contains(graph@.nodes[id].children[k]));
                }
            }
            next.append(&mut kids);
            push_names(branches, &node.branches);
            assert((Sweep { graph: graph@, acc: string_views(branches@), next: next@ }) == mark_one(
                before,
                id,
            ));
            i += 1;
        }
        level = next;
        left -= 1;
    }
}

/// Whether `node_id` and every node within `depth` steps below it was
/// written at `earlier_than` or before.
pub fn is_branch_old(graph: &Graph, node_id: Oid, earlier_than: i64, depth: usize) -> (r: bool)
    requires
        graph.wf(),
        graph@.contains(node_id),
    ensures
        r == subtree_old(graph@, node_id, earlier_than, depth as nat),
    decreases depth,
{
    let current = graph.node(node_id);
    if earlier_than < current.commit.time {
        return false;
    }
    if depth == 0 {
        return true;
    }
    let mut i: usize = 0;
    while i < current.children.len()
        invariant
            i <= current.children.len(),
            graph.wf(),
            graph@.contains(node_id),
            current@ == graph@.nodes[node_id],
            depth > 0,
            forall|j: int|
                0 <= j < i ==> subtree_old(
                    graph@,
                    #[trigger] graph@.nodes[node_id].children[j],
                    earlier_than,
                    (depth - 1) as nat,
                ),
        decreases current.children.len() - i,
    {
        assert(graph@.contains(graph@.nodes[node_id].children[i as int]));
        if !is_branch_old(graph, current.children[i], earlier_than, depth - 1) {
            return false;
        }
        i += 1;
    }
    true
}

/// Protects every subtree below the protected part of the graph that holds
/// no commit written after `earlier_than`, and returns the names of the
/// branches in what it protected.
pub fn protect_old_branches(graph: &mut Graph, earlier_than: i64) -> (names: Vec<String>)
    requires
        old(graph).wf(),
    ensures
        final(graph).wf(),
        old(graph)@.same_shape(final(graph)@),
        old(graph)@.only_protected_by(final(graph)@),
        old(graph)@.protection_kept_by(final(graph)@),
        old(graph)@.tree() ==> final(graph)@.tree(),
        old(graph)@.tree() && protected_above(old(graph)@) ==> protected_above(final(graph)@),
        final(graph)@ == protect_old(old(graph)@, earlier_than).graph,
        string_views(names@) == protect_old(old(graph)@, earlier_than).acc,
{
    let limit = graph.len();
    let ghost visit = old_visitor(earlier_than, limit as nat);
    let ghost goal = protect_old(old(graph)@, earlier_than);
    let mut names: Vec<String> = Vec::new();
    let mut level: Vec<Oid> = Vec::new();
    if graph.root().action.is_protected() {
        level.push(graph.root_id());
    }
    assert(level@ =~= first_level(graph@));
    assert(string_views(names@) =~= Seq::<Seq<char>>::empty());
    let mut left = limit;
    while left > 0 && level.len() > 0
        invariant
            graph.wf(),
            graph@.contains_all(level@),
            old(graph)@.same_shape(graph@),
            old(graph)@.only_protected_by(graph@),
            visit == old_visitor(earlier_than, limit as nat),
            visit_levels(
                visit,
                Sweep { graph: graph@, acc: string_views(names@), next: level@ },
                left as nat,
            ) == goal,
        ensures
            graph.wf(),
            old(graph)@.same_shape(graph@),
            old(graph)@.only_protected_by(graph@),
            (Sweep { graph: graph@, acc: string_views(names@), next: level@ }) == goal,
        decreases left,
    {
        let ghost level_goal = visit_level(
            visit,
            Sweep { graph: graph@, acc: string_views(names@), next: Seq::empty() },
            level@,
        );
        let mut next: Vec<Oid> = Vec::new();
        let mut i: usize = 0;
        assert(level@.skip(0) =~= level@);
        assert(next@ =~= Seq::<Oid>::empty());
        while i < level.len()
            invariant
                i <= level.len(),
                graph.wf(),
                graph@.contains_all(level@),
                graph@.contains_all(next@),
                old(graph)@.same_shape(graph@),
                old(graph)@.only_protected_by(graph@),
                visit == old_visitor(earlier_than, limit as nat),
                visit_level(
                    visit,
                    Sweep { graph: graph@, acc: string_views(names@), next: next@ },
                    level@.skip(i as int),
                ) == level_goal,
            decreases level.len() - i,
        {
            let current = level[i];
            proof {
                assert(level@.skip(i as int).drop_first() =~= level@.skip(i as int + 1));
                assert(level@.skip(i as int)[0] == current);
                assert(graph@.contains(level@[i as int]));
            }
            let children = graph.node(current).children.clone();
            let ghost children_goal = visit_children(
                visit,
                Sweep { graph: graph@, acc: string_views(names@), next: next@ },
                current,
                children@,
            );
            proof {
                assert forall|k: int| 0 <= k < children@.len() implies graph@.contains(#[trigger] children@[k]) by {
                    assert(graph@.contains(graph@.nodes[current].children[k]));
                }
                assert(children@.skip(0) =~= children@);
            }
            let mut j: usize = 0;
            while j < children.len()
                invariant
                    j <= children.len(),
                    graph.wf(),
                    graph@.contains_all(level@),
                    graph@.contains_all(next@),
                    graph@.contains_all(children@),
                    old(graph)@.same_shape(graph@),
                    old(graph)@.only_protected_by(graph@),
                    visit == old_visitor(earlier_than, limit as nat),
                    visit_children(
                        visit,
                        Sweep { graph: graph@, acc: string_views(names@), next: next@ },
                        current,
                        children@.skip(j as int),
                    ) == children_goal,
                decreases children.len() - j,
            {
                let child = children[j];
                let ghost before = Sweep { graph: graph@, acc: string_views(names@), next: next@ };
                proof {
                    assert(children@.skip(j as int).drop_first() =~= children@.skip(j as int + 1));
                    assert(children@.skip(j as int)[0] == child);
                    assert(graph@.contains(children@[j as int]));
                }
                if graph.node(child).action.is_protected() {
                    next.push(child);
                } else if is_branch_old(graph, child, earlier_than, limit) {
                    mark_branch_protected(graph, child, &mut names, limit);
                }
                assert((Sweep { graph: graph@, acc: string_views(names@), next: next@ }) == visit(
                    before,
                    current,
                    child,
                ));
                j += 1;
            }
            i += 1;
        }
        level = next;
        left -= 1;
    }
    proof {
        if old(graph)@.tree() {
            lemma_same_shape_tree(old(graph)@, graph@);
            if protected_above(old(graph)@) {
                lemma_protect_guards(old(graph)@, earlier_than, Seq::empty(), 0);
            }
        }
    }
    names
}

/// Whether `user` wrote or committed `id` or a node within `depth` steps
/// below it.
pub open spec fn subtree_personal(graph: GraphView, id: Oid, user: Seq<char>, depth: nat) -> bool
    decreases depth,
{
    ||| graph.nodes[id].commit.is_by(user)
    ||| depth > 0 && exists|i: int|
        0 <= i < graph.nodes[id].children.len() && subtree_personal(
            graph,
            #[trigger] graph.nodes[id].children[i],
            user,
            (depth - 1) as nat,
        )
}

/// What the pass for foreign branches does with the child `child` of a
/// protected node: a protected child is put aside for the next level; another
/// in whose subtree nothing is by `user` is marked.
pub open spec fn foreign_visit(s: Sweep<Names>, child: Oid, user: Seq<char>, depth: nat) -> Sweep<
    Names,
> {
    if s.graph.nodes[child].action == Action::Protected {
        Sweep { next: s.next.push(child), ..s }
    } else if !subtree_personal(s.graph, child, user, depth) {
        let marked = mark_protected(s.graph, s.acc, child, depth);
        Sweep { graph: marked.graph, acc: marked.acc, next: s.next }
    } else {
        s
    }
}

/// `foreign_visit` as a visit of a walk.
pub open spec fn foreign_visitor(user: Seq<char>, depth: nat) -> spec_fn(
    Sweep<Names>,
    Oid,
    Oid,
) -> Sweep<Names> {
    |s: Sweep<Names>, parent: Oid, child: Oid| foreign_visit(s, child, user, depth)
}

/// What `protect_foreign_branches` makes of `graph`, and the names it returns.
pub open spec fn protect_foreign(graph: GraphView, user: Seq<char>) -> Sweep<Names> {
    sweep(foreign_visitor(user, graph.size()), graph, Seq::empty())
}

/// Whether `user` wrote or committed `node_id` or a node within `depth`
/// steps below it.
pub fn is_personal_branch(graph: &Graph, node_id: Oid, user: &String, depth: usize) -> (r: bool)
    requires
        graph.wf(),
        graph@.contains(node_id),
    ensures
        r == subtree_personal(graph@, node_id, user@, depth as nat),
    decreases depth,
{
    let current = graph.node(node_id);
    if current.commit.is_by(user) {
        return true;
    }
    if depth == 0 {
        return false;
    }
    let mut i: usize = 0;
    while i < current.children.len()
        invariant
            i <= current.children.len(),
            graph.wf(),
            graph@.contains(node_id),
            current@ == graph@.nodes[node_id],
            depth > 0,
            forall|j: int|
                0 <= j < i ==> !subtree_personal(
                    graph@,
                    #[trigger] graph@.nodes[node_id].children[j],
                    user@,
                    (depth - 1) as nat,
                ),
        decreases current.children.len() - i,
    {
        assert(graph@.contains(graph@.nodes[node_id].children[i as int]));
        if is_personal_branch(graph, current.children[i], user, depth - 1) {
            return true;
        }
        i += 1;
    }
    false
}

/// Protects every subtree below the protected part of the graph in which
/// `user` neither wrote nor committed anything, and returns the names of the
/// branches in what it protected.
pub fn protect_foreign_branches(graph: &mut Graph, user: &str) -> (names: Vec<String>)
    requires
        old(graph).wf(),
    ensures
        final(graph).wf(),
        old(graph)@.same_shape(final(graph)@),
        old(graph)@.only_protected_by(final(graph)@),
        old(graph)@.protection_kept_by(final(graph)@),
        old(graph)@.tree() ==> final(graph)@.tree(),
        old(graph)@.tree() && protected_above(old(graph)@) ==> protected_above(final(graph)@),
        final(graph)@ == protect_foreign(old(graph)@, user@).graph,
        string_views(names@) == protect_foreign(old(graph)@, user@).acc,
{
    let limit = graph.len();
    let name = user.to_owned();
    let ghost visit = foreign_visitor(user@, limit as nat);
    let ghost goal = protect_foreign(old(graph)@, user@);
    let mut names: Vec<String> = Vec::new();
    let mut level: Vec<Oid> = Vec::new();
    if graph.root().action.is_protected() {
        level.push(graph.root_id());
    }
    assert(level@ =~= first_level(graph@));
    assert(string_views(names@) =~= Seq::<Seq<char>>::empty());
    let mut left = limit;
    while left > 0 && level.len() > 0
        invariant
            graph.wf(),
            graph@.contains_all(level@),
            old(graph)@.same_shape(graph@),
            old(graph)@.only_protected_by(graph@),
            visit == foreign_visitor(user@, limit as nat),
            name@ == user@,
            visit_levels(
                visit,
                Sweep { graph: graph@, acc: string_views(names@), next: level@ },
                left as nat,
            ) == goal,
        ensures
            graph.wf(),
            old(graph)@.same_shape(graph@),
            old(graph)@.only_protected_by(graph@),
            (Sweep { graph: graph@, acc: string_views(names@), next: level@ }) == goal,
        decreases left,
    {
        let ghost level_goal = visit_level(
            visit,
            Sweep { graph: graph@, acc: string_views(names@), next: Seq::empty() },
            level@,
        );
        let mut next: Vec<Oid> = Vec::new();
        let mut i: usize = 0;
        assert(level@.skip(0) =~= level@);
        assert(next@ =~= Seq::<Oid>::empty());
        while i < level.len()
            invariant
                i <= level.len(),
                graph.wf(),
                graph@.contains_all(level@),
                graph@.contains_all(next@),
                old(graph)@.same_shape(graph@),
                old(graph)@.only_protected_by(graph@),
                visit == foreign_visitor(user@, limit as nat),
                name@ == user@,
            name@ == user@,
                visit_level(
                    visit,
                    Sweep { graph: graph@, acc: string_views(names@), next: next@ },
                    level@.skip(i as int),
                ) == level_goal,
            decreases level.len() - i,
        {
            let current = level[i];
            proof {
                assert(level@.skip(i as int).drop_first() =~= level@.skip(i as int + 1));
                assert(level@.skip(i as int)[0] == current);
                assert(graph@.contains(level@[i as int]));
            }
            let children = graph.node(current).children.clone();
            let ghost children_goal = visit_children(
                visit,
                Sweep { graph: graph@, acc: string_views(names@), next: next@ },
                current,
                children@,
            );
            proof {
                assert forall|k: int| 0 <= k < children@.len() implies graph@.contains(#[trigger] children@[k]) by {
                    assert(graph@.contains(graph@.nodes[current].children[k]));
                }
                assert(children@.skip(0) =~= children@);
            }
            let mut j: usize = 0;
            while j < children.len()
                invariant
                    j <= children.len(),
                    graph.wf(),
                    graph@.contains_all(level@),
                    graph@.contains_all(next@),
                    graph@.contains_all(children@),
                    old(graph)@.same_shape(graph@),
                    old(graph)@.only_protected_by(graph@),
                    visit == foreign_visitor(user@, limit as nat),
                    name@ == user@,
                name@ == user@,
            name@ == user@,
                    visit_children(
                        visit,
                        Sweep { graph: graph@, acc: string_views(names@), next: next@ },
                        current,
                        children@.skip(j as int),
                    ) == children_goal,
                decreases children.len() - j,
            {
                let child = children[j];
                let ghost before = Sweep { graph: graph@, acc: string_views(names@), next: next@ };
                proof {
                    assert(children@.skip(j as int).drop_first() =~= children@.skip(j as int + 1));
                    assert(children@.skip(j as int)[0] == child);
                    assert(graph@.contains(children@[j as int]));
                }
                if graph.node(child).action.is_protected() {
                    next.push(child);
                } else if !is_personal_branch(graph, child, &name, limit) {
                    mark_branch_protected(graph, child, &mut names, limit);
                }
                assert((Sweep { graph: graph@, acc: string_views(names@), next: next@ }) == visit(
                    before,
                    current,
                    child,
                ));
                j += 1;
            }
            i += 1;
        }
        level = next;
        left -= 1;
    }
    proof {
        if old(graph)@.tree() {
            lemma_same_shape_tree(old(graph)@, graph@);
            if protected_above(old(graph)@) {
                lemma_protect_guards(old(graph)@, 0, user@, 0);
            }
        }
    }
    names
}

/// What a search for long lines has come to: the graph and the names by
/// now, and whether the node searched needs protection.
pub struct Growth {
    pub graph: GraphView,
    pub names: Names,
    pub needed: bool,
}

/// The search at the node `id`, which lies `count` steps below the protected
/// part. A node with a branch ends the line in time. A node more than `max`
/// steps down starts a marking. At any other node the search goes on in each
/// child, `depth` steps down at most, and the node becomes protected if one
/// of them needs it.
pub open spec fn grown(
    graph: GraphView,
    names: Names,
    id: Oid,
    count: nat,
    max: nat,
    depth: nat,
    limit: nat,
) -> Growth
    decreases depth, 0nat, 0nat,
{
    if graph.nodes[id].branches.len() > 0 {
        Growth { graph, names, needed: false }
    } else if count <= max {
        if depth == 0 {
            Growth { graph, names, needed: false }
        } else {
            let below = grown_below(
                graph,
                names,
                graph.nodes[id].children,
                count + 1,
                max,
                (depth - 1) as nat,
                limit,
            );
            if below.needed {
                Growth { graph: below.graph.with_action(id, Action::Protected), ..below }
            } else {
                below
            }
        }
    } else {
        let marked = mark_protected(graph, names, id, limit);
        Growth { graph: marked.graph, names: marked.acc, needed: true }
    }
}

/// A search for long lines keeps the graph sound and its shape, and only
/// protects.
pub proof fn lemma_grown_shape(
    graph: GraphView,
    names: Names,
    id: Oid,
    count: nat,
    max: nat,
    depth: nat,
    limit: nat,
)
    requires
        graph.sound(),
        graph.contains(id),
    ensures
        grown(graph, names, id, count, max, depth, limit).graph.sound(),
        graph.same_shape(grown(graph, names, id, count, max, depth, limit).graph),
        graph.only_protected_by(grown(graph, names, id, count, max, depth, limit).graph),
    decreases depth, 0nat, 0nat,
{
    if graph.nodes[id].branches.len() > 0 {
    } else if count <= max {
        if depth > 0 {
            let kids = graph.nodes[id].children;
            assert forall|i: int| 0 <= i < kids.len() implies graph.contains(#[trigger] kids[i]) by {
                assert(graph.contains(graph.nodes[id].children[i]));
            }
            lemma_grown_below_shape(graph, names, kids, count + 1, max, (depth - 1) as nat, limit);
            let below = grown_below(graph, names, kids, count + 1, max, (depth - 1) as nat, limit);
            if below.needed {
                lemma_with_action_sound(below.graph, id, Action::Protected);
            }
        }
    } else {
        let start = Sweep { graph, acc: names, next: seq![id] };
        assert(graph.contains_all(start.next));
        lemma_mark_levels_shape(start, limit);
    }
}

/// The same for the search in each of some nodes in turn.
pub proof fn lemma_grown_below_shape(
    graph: GraphView,
    names: Names,
    children: Seq<Oid>,
    count: nat,
    max: nat,
    depth: nat,
    limit: nat,
)
    requires
        graph.sound(),
        graph.contains_all(children),
    ensures
        grown_below(graph, names, children, count, max, depth, limit).graph.sound(),
        graph.same_shape(grown_below(graph, names, children, count, max, depth, limit).graph),
        graph.only_protected_by(grown_below(graph, names, children, count, max, depth, limit).graph),
    decreases depth, 1nat, children.len(),
{
    if children.len() > 0 {
        assert(graph.contains(children[0]));
        lemma_grown_shape(graph, names, children[0], count, max, depth, limit);
        let first = grown(graph, names, children[0], count, max, depth, limit);
        assert forall|i: int| 0 <= i < children.drop_first().len() implies first.graph.contains(
            #[trigger] children.drop_first()[i],
        ) by {
            assert(graph.contains(children[i + 1]));
        }
        lemma_grown_below_shape(
            first.graph,
            first.names,
            children.drop_first(),
            count,
            max,
            depth,
            limit,
        );
    }
}

/// The search in each of `children` in turn.
pub open spec fn grown_below(
    graph: GraphView,
    names: Names,
    children: Seq<Oid>,
    count: nat,
    max: nat,
    depth: nat,
    limit: nat,
) -> Growth
    decreases depth, 1nat, children.len(),
{
    if children.len() == 0 {
        Growth { graph, names, needed: false }
    } else {
        let first = grown(graph, names, children[0], count, max, depth, limit);
        let rest = grown_below(
            first.graph,
            first.names,
            children.drop_first(),
            count,
            max,
            depth,
            limit,
        );
        Growth { needed: first.needed || rest.needed, ..rest }
    }
}

/// What the pass for large branches does with the child `child` of a
/// protected node: a protected child is put aside for the next level; in
/// another the search for long lines starts, and it is put aside too if it got
/// protected.
pub open spec fn large_visit(s: Sweep<Names>, child: Oid, max: nat, limit: nat) -> Sweep<Names> {
    if s.graph.nodes[child].action == Action::Protected {
        Sweep { next: s.next.push(child), ..s }
    } else {
        let found = grown(s.graph, s.acc, child, 0, max, limit, limit);
        Sweep {
            graph: found.graph,
            acc: found.names,
            next: if found.needed {
                s.next.push(child)
            } else {
                s.next
            },
        }
    }
}

/// `large_visit` as a visit of a walk.
pub open spec fn large_visitor(max: nat, limit: nat) -> spec_fn(Sweep<Names>, Oid, Oid) -> Sweep<
    Names,
> {
    |s: Sweep<Names>, parent: Oid, child: Oid| large_visit(s, child, max, limit)
}

/// What `protect_large_branches` makes of `graph`, and the names it returns.
pub open spec fn protect_large(graph: GraphView, max: nat) -> Sweep<Names> {
    sweep(large_visitor(max, graph.size()), graph, Seq::empty())
}

/// Searches for a line of more than `max` commits without a branch, at
/// the node `node_id`, which lies `count` steps below the protected part, and
/// `depth` steps further down at most. Protects what lies on such a line, adds
/// the names of the branches at its end to `large_branches`, and tells whether
/// the node needs protection. Markings go `limit` levels deep.
pub fn protect_large_branches_recursive(
    graph: &mut Graph,
    node_id: Oid,
    count: usize,
    max: usize,
    large_branches: &mut Vec<String>,
    depth: usize,
    limit: usize,
) -> (needs_protection: bool)
    requires
        old(graph).wf(),
        old(graph)@.contains(node_id),
        count + depth <= usize::MAX,
    ensures
        final(graph).wf(),
        old(graph)@.same_shape(final(graph)@),
        old(graph)@.only_protected_by(final(graph)@),
        grown(
            old(graph)@,
            string_views(old(large_branches)@),
            node_id,
            count as nat,
            max as nat,
            depth as nat,
            limit as nat,
        ) == (Growth {
            graph: final(graph)@,
            names: string_views(final(large_branches)@),
            needed: needs_protection,
        }),
    decreases depth,
{
    let mut needs_protection = false;
    let node = graph.node(node_id);
    if node.branches.len() > 0 {
    } else if count <= max {
        if depth > 0 {
            let children = node.children.clone();
            let ghost goal = grown_below(
                graph@,
                string_views(large_branches@),
                children@,
                (count + 1) as nat,
                max as nat,
                (depth - 1) as nat,
                limit as nat,
            );
            proof {
                assert forall|k: int| 0 <= k < children@.len() implies graph@.contains(#[trigger] children@[k]) by {
                    assert(graph@.contains(graph@.nodes[node_id].children[k]));
                }
                assert(children@.skip(0) =~= children@);
            }
            let mut j: usize = 0;
            while j < children.len()
                invariant
                    j <= children.len(),
                    depth > 0,
                    count + depth <= usize::MAX,
                    graph.wf(),
                    graph@.contains(node_id),
                    graph@.contains_all(children@),
                    old(graph)@.same_shape(graph@),
                    old(graph)@.only_protected_by(graph@),
                    ({
                        let rest = grown_below(
                            graph@,
                            string_views(large_branches@),
                            children@.skip(j as int),
                            (count + 1) as nat,
                            max as nat,
                            (depth - 1) as nat,
                            limit as nat,
                        );
                        &&& rest.graph == goal.graph
                        &&& rest.names == goal.names
                        &&& (needs_protection || rest.needed) == goal.needed
                    }),
                decreases children.len() - j,
            {
                proof {
                    assert(children@.skip(j as int).drop_first() =~= children@.skip(j as int + 1));
                    assert(children@.skip(j as int)[0] == children@[j as int]);
                    assert(graph@.contains(children@[j as int]));
                }
                let needed = protect_large_branches_recursive(
                    graph,
                    children[j],
                    count + 1,
                    max,
                    large_branches,
                    depth - 1,
                    limit,
                );
                needs_protection = needs_protection || needed;
                j += 1;
            }
            if needs_protection {
                proof {
                    lemma_with_action(graph@, node_id, Action::Protected);
                }
                graph.set_action(node_id, Action::Protected);
            }
        }
    } else {
        mark_branch_protected(graph, node_id, large_branches, limit);
        needs_protection = true;
    }
    needs_protection
}

/// Protects what lies on a line of more than `max` commits without a branch
/// below the protected part of the graph, and returns the names of the
/// branches at the end of such lines. What got protected is walked in turn.
pub fn protect_large_branches(graph: &mut Graph, max: usize) -> (names: Vec<String>)
    requires
        old(graph).wf(),
    ensures
        final(graph).wf(),
        old(graph)@.same_shape(final(graph)@),
        old(graph)@.only_protected_by(final(graph)@),
        old(graph)@.protection_kept_by(final(graph)@),
        old(graph)@.tree() ==> final(graph)@.tree(),
        old(graph)@.tree() && protected_above(old(graph)@) ==> protected_above(final(graph)@),
        final(graph)@ == protect_large(old(graph)@, max as nat).graph,
        string_views(names@) == protect_large(old(graph)@, max as nat).acc,
{
    let limit = graph.len();
    let ghost visit = large_visitor(max as nat, limit as nat);
    let ghost goal = protect_large(old(graph)@, max as nat);
    let mut names: Vec<String> = Vec::new();
    let mut level: Vec<Oid> = Vec::new();
    if graph.root().action.is_protected() {
        level.push(graph.root_id());
    }
    assert(level@ =~= first_level(graph@));
    assert(string_views(names@) =~= Seq::<Seq<char>>::empty());
    let mut left = limit;
    while left > 0 && level.len() > 0
        invariant
            graph.wf(),
            graph@.contains_all(level@),
            old(graph)@.same_shape(graph@),
            old(graph)@.only_protected_by(graph@),
            visit == large_visitor(max as nat, limit as nat),
            visit_levels(
                visit,
                Sweep { graph: graph@, acc: string_views(names@), next: level@ },
                left as nat,
            ) == goal,
        ensures
            graph.wf(),
            old(graph)@.same_shape(graph@),
            old(graph)@.only_protected_by(graph@),
            (Sweep { graph: graph@, acc: string_views(names@), next: level@ }) == goal,
        decreases left,
    {
        let ghost level_goal = visit_level(
            visit,
            Sweep { graph: graph@, acc: string_views(names@), next: Seq::empty() },
            level@,
        );
        let mut next: Vec<Oid> = Vec::new();
        let mut i: usize = 0;
        assert(level@.skip(0) =~= level@);
        assert(next@ =~= Seq::<Oid>::empty());
        while i < level.len()
            invariant
                i <= level.len(),
                graph.wf(),
                graph@.contains_all(level@),
                graph@.contains_all(next@),
                old(graph)@.same_shape(graph@),
                old(graph)@.only_protected_by(graph@),
                visit == large_visitor(max as nat, limit as nat),
                visit_level(
                    visit,
                    Sweep { graph: graph@, acc: string_views(names@), next: next@ },
                    level@.skip(i as int),
                ) == level_goal,
            decreases level.len() - i,
        {
            let current = level[i];
            proof {
                assert(level@.skip(i as int).drop_first() =~= level@.skip(i as int + 1));
                assert(level@.skip(i as int)[0] == current);
                assert(graph@.contains(level@[i as int]));
            }
            let children = graph.node(current).children.clone();
            let ghost children_goal = visit_children(
                visit,
                Sweep { graph: graph@, acc: string_views(names@), next: next@ },
                current,
                children@,
            );
            proof {
                assert forall|k: int| 0 <= k < children@.len() implies graph@.contains(#[trigger] children@[k]) by {
                    assert(graph@.contains(graph@.nodes[current].children[k]));
                }
                assert(children@.skip(0) =~= children@);
            }
            let mut j: usize = 0;
            while j < children.len()
                invariant
                    j <= children.len(),
                    graph.wf(),
                    graph@.contains_all(level@),
                    graph@.contains_all(next@),
                    graph@.contains_all(children@),
                    old(graph)@.same_shape(graph@),
                    old(graph)@.only_protected_by(graph@),
                    visit == large_visitor(max as nat, limit as nat),
                    visit_children(
                        visit,
                        Sweep { graph: graph@, acc: string_views(names@), next: next@ },
                        current,
                        children@.skip(j as int),
                    ) == children_goal,
                decreases children.len() - j,
            {
                let child = children[j];
                let ghost before = Sweep { graph: graph@, acc: string_views(names@), next: next@ };
                proof {
                    assert(children@.skip(j as int).drop_first() =~= children@.skip(j as int + 1));
                    assert(children@.skip(j as int)[0] == child);
                    assert(graph@.contains(children@[j as int]));
                }
                if graph.node(child).action.is_protected() {
                    next.push(child);
                } else {
                    let protected = protect_large_branches_recursive(
                        graph,
                        child,
                        0,
                        max,
                        &mut names,
                        limit,
                        limit,
                    );
                    if protected {
                        next.push(child);
                    }
                }
                assert((Sweep { graph: graph@, acc: string_views(names@), next: next@ }) == visit(
                    before,
                    current,
                    child,
                ));
                j += 1;
            }
            i += 1;
        }
        level = next;
        left -= 1;
    }
    proof {
        if old(graph)@.tree() {
            lemma_same_shape_tree(old(graph)@, graph@);
            if protected_above(old(graph)@) {
                lemma_protect_guards(old(graph)@, 0, Seq::empty(), max as nat);
            }
        }
    }
    names
}

} // verus!
