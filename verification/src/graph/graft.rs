//! The fixup pass keeps a tree a tree. While it works on a stack, the
//! fixups that wait are out of the tree: each of them hangs on no node and no
//! node hangs on it. Everything else is a tree all the time.
use vstd::prelude::*;
use crate::git::oid::{lemma_with_id, lemma_with_ids, lemma_without_id, with_ids, without_id, Oid};
use crate::git::commit::fixup_target;
use crate::config::Fixup;
use crate::graph::fixup::{
    fix_visit, fix_visitor, fixed, fixed_below, fixed_branch, fixed_node, orphaned, Fixing,
};
use crate::graph::sweep::{first_level, visit_children, visit_level, visit_levels, Sweep};
use crate::graph::outstanding::values;
use crate::graph::acyclic::{lemma_path_falls, lemma_path_within};
use crate::graph::fixup::{
    lemma_spliced_after, lemma_spliced_between, loose, settled, spliced_after, spliced_between,
    squash_all, unhooked,
};
use crate::graph::model::lemma_with_action;
use crate::graph::node::Action;
use crate::graph::model::{lemma_reaches_child, lemma_reaches_self, lemma_subpath, GraphView};
use crate::graph::node::NodeView;
use crate::graph::outstanding::{
    found, holds_key, lemma_slot_bounds, recorded, slot_of, without_key, Entries,
};

verus! {

/// Whether `id` is one of the fixups that wait.
pub open spec fn waits(entries: Entries, id: Oid) -> bool {
    exists|e: int, k: int|
        0 <= e < entries.len() && 0 <= k < entries[e].1.len() && #[trigger] entries[e].1[k] == id
}

/// Whether no fixup waits twice.
pub open spec fn apart(entries: Entries) -> bool {
    forall|e1: int, k1: int, e2: int, k2: int|
        0 <= e1 < entries.len() && 0 <= k1 < entries[e1].1.len() && 0 <= e2 < entries.len() && 0
            <= k2 < entries[e2].1.len() && (e1 != e2 || k1 != k2) ==> #[trigger] entries[e1].1[k1]
            != #[trigger] entries[e2].1[k2]
}

/// Whether the node `id` is out of the tree: no root, without children, and
/// the child of no node.
pub open spec fn floating(graph: GraphView, id: Oid) -> bool {
    graph.contains(id) && id != graph.root_id && graph.nodes[id].children.len() == 0
        && !graph.has_parent(id)
}

/// What holds while the pass works on a stack: the graph is well formed
/// and has no cycle, no node has two parents, the fixups that wait are out of
/// the tree, each once, and every other node but the root has a parent.
pub open spec fn grafting(graph: GraphView, entries: Entries) -> bool {
    &&& graph.wf()
    &&& graph.acyclic()
    &&& graph.forest()
    &&& apart(entries)
    &&& forall|e: int| 0 <= e < entries.len() ==> (#[trigger] entries[e]).1.len() > 0
    &&& forall|id: Oid| #[trigger] waits(entries, id) ==> floating(graph, id)
    &&& forall|id: Oid|
        graph.contains(id) && id != graph.root_id && !waits(entries, id) ==> #[trigger] graph.has_parent(
            id,
        )
}

/// With no fixup waiting, what holds is that the graph is a tree.
pub proof fn lemma_grafting_tree(graph: GraphView)
    ensures
        grafting(graph, Entries::empty()) <==> graph.tree(),
{
    let none = Entries::empty();
    assert(forall|id: Oid| !waits(none, id));
    if graph.tree() {
        assert forall|id: Oid| graph.contains(id) && id != graph.root_id && !waits(none, id) implies #[trigger] graph.has_parent(
            id,
        ) by {}
    }
    if grafting(graph, none) {
        assert forall|id: Oid| graph.contains(id) && id != graph.root_id implies #[trigger] graph.has_parent(
            id,
        ) by {
            assert(!waits(none, id));
        }
    }
}

/// One more fixup waits: those that waited and the new one.
pub proof fn lemma_recorded_waits(entries: Entries, key: Seq<u8>, id: Oid)
    requires
        apart(entries),
        !waits(entries, id),
    ensures
        apart(recorded(entries, key, id)),
        forall|x: Oid| #[trigger] waits(recorded(entries, key, id), x) <==> (waits(entries, x) || x == id),
{
    let after = recorded(entries, key, id);
    lemma_slot_bounds(entries, key, 0);
    let at = slot_of(entries, key);
    let held = holds_key(entries, key);
    // where an entry of the new list comes from
    let from = |e: int|
        if held || e < at {
            e
        } else {
            e - 1
        };
    assert forall|e: int, k: int| 0 <= e < after.len() && 0 <= k < after[e].1.len() implies (e == at
        && k == after[e].1.len() - 1 && #[trigger] after[e].1[k] == id) || (0 <= from(e) < entries.len()
        && 0 <= k < entries[from(e)].1.len() && after[e].1[k] == entries[from(e)].1[k] && (held || e
        != at)) by {}
    assert forall|e: int, k: int| 0 <= e < entries.len() && 0 <= k < entries[e].1.len() implies ({
        let to = if held || e < at {
            e
        } else {
            e + 1
        };
        0 <= to < after.len() && 0 <= k < after[to].1.len() && after[to].1[k] == #[trigger] entries[e].1[k]
    }) by {}
    assert forall|x: Oid| #[trigger] waits(after, x) <==> (waits(entries, x) || x == id) by {
        if waits(after, x) {
            let (e, k) = choose|e: int, k: int|
                0 <= e < after.len() && 0 <= k < after[e].1.len() && #[trigger] after[e].1[k] == x;
            if x != id {
                assert(entries[from(e)].1[k] == x);
            }
        }
        if waits(entries, x) {
            let (e, k) = choose|e: int, k: int|
                0 <= e < entries.len() && 0 <= k < entries[e].1.len() && #[trigger] entries[e].1[k] == x;
            let to = if held || e < at {
                e
            } else {
                e + 1
            };
            assert(after[to].1[k] == x);
        }
        if x == id {
            assert(after[at].1[after[at].1.len() - 1] == id);
        }
    }
    assert forall|e1: int, k1: int, e2: int, k2: int|
        0 <= e1 < after.len() && 0 <= k1 < after[e1].1.len() && 0 <= e2 < after.len() && 0 <= k2
            < after[e2].1.len() && (e1 != e2 || k1 != k2) implies #[trigger] after[e1].1[k1]
        != #[trigger] after[e2].1[k2] by {
        let new1 = e1 == at && k1 == after[e1].1.len() - 1 && after[e1].1[k1] == id && !(0 <= from(e1)
            < entries.len() && 0 <= k1 < entries[from(e1)].1.len() && after[e1].1[k1] == entries[from(
            e1,
        )].1[k1] && (held || e1 != at));
        let new2 = e2 == at && k2 == after[e2].1.len() - 1 && after[e2].1[k2] == id && !(0 <= from(e2)
            < entries.len() && 0 <= k2 < entries[from(e2)].1.len() && after[e2].1[k2] == entries[from(
            e2,
        )].1[k2] && (held || e2 != at));
        if !new1 && !new2 {
            assert(entries[from(e1)].1[k1] != entries[from(e2)].1[k2]);
        } else if !new1 {
            assert(entries[from(e1)].1[k1] == after[e1].1[k1]);
            assert(waits(entries, entries[from(e1)].1[k1]));
        } else if !new2 {
            assert(entries[from(e2)].1[k2] == after[e2].1[k2]);
            assert(waits(entries, entries[from(e2)].1[k2]));
        }
    }
}

/// The fixups taken out for a summary waited, each once, and no longer
/// wait; the others wait on.
pub proof fn lemma_taken_waits(entries: Entries, key: Seq<u8>)
    requires
        apart(entries),
    ensures
        apart(without_key(entries, key)),
        found(entries, key) is None ==> without_key(entries, key) == entries,
        found(entries, key) matches Some(ids) ==> {
            &&& ids.no_duplicates()
            &&& forall|k: int| 0 <= k < ids.len() ==> waits(entries, #[trigger] ids[k])
            &&& forall|x: Oid|
                #[trigger] waits(without_key(entries, key), x) <==> (waits(entries, x) && !ids.contains(
                    x,
                ))
        },
{
    let rest = without_key(entries, key);
    lemma_slot_bounds(entries, key, 0);
    let at = slot_of(entries, key);
    if holds_key(entries, key) {
        let ids = entries[at].1;
        assert forall|i: int, j: int| 0 <= i < ids.len() && 0 <= j < ids.len() && i != j implies ids[i]
            != ids[j] by {
            assert(entries[at].1[i] != entries[at].1[j]);
        }
        assert forall|k: int| 0 <= k < ids.len() implies waits(entries, #[trigger] ids[k]) by {
            assert(entries[at].1[k] == ids[k]);
        }
        let from = |e: int|
            if e < at {
                e
            } else {
                e + 1
            };
        assert forall|e: int| 0 <= e < rest.len() implies #[trigger] rest[e] == entries[from(e)] by {}
        assert forall|x: Oid| #[trigger] waits(rest, x) <==> (waits(entries, x) && !ids.contains(x)) by {
            if waits(rest, x) {
                let (e, k) = choose|e: int, k: int|
                    0 <= e < rest.len() && 0 <= k < rest[e].1.len() && #[trigger] rest[e].1[k] == x;
                assert(rest[e] == entries[from(e)]);
                assert(entries[from(e)].1[k] == x);
                if ids.contains(x) {
                    let j = choose|j: int| 0 <= j < ids.len() && ids[j] == x;
                    assert(entries[at].1[j] != entries[from(e)].1[k]);
                }
            }
            if waits(entries, x) && !ids.contains(x) {
                let (e, k) = choose|e: int, k: int|
                    0 <= e < entries.len() && 0 <= k < entries[e].1.len() && #[trigger] entries[e].1[k] == x;
                if e == at {
                    assert(ids[k] == x);
                }
                let to = if e < at {
                    e
                } else {
                    e - 1
                };
                assert(rest[to] == entries[from(to)]);
                assert(rest[to].1[k] == x);
            }
        }
        assert forall|e1: int, k1: int, e2: int, k2: int|
            0 <= e1 < rest.len() && 0 <= k1 < rest[e1].1.len() && 0 <= e2 < rest.len() && 0 <= k2
                < rest[e2].1.len() && (e1 != e2 || k1 != k2) implies #[trigger] rest[e1].1[k1]
            != #[trigger] rest[e2].1[k2] by {
            assert(rest[e1] == entries[from(e1)]);
            assert(rest[e2] == entries[from(e2)]);
            assert(entries[from(e1)].1[k1] != entries[from(e2)].1[k2]);
        }
    }
}

/// What taking a node out from under its parent makes of the graph: the
/// node has neither children nor branches left, the parent has the node's
/// children in place of the node, and its branches too; nothing else changes.
pub proof fn lemma_unhooked(g: GraphView, base: Oid, id: Oid)
    requires
        g.contains(base),
        g.contains(id),
        base != id,
    ensures
        ({
            let after = unhooked(g, base, id);
            &&& after.root_id == g.root_id
            &&& after.nodes.dom() == g.nodes.dom()
            &&& after.nodes[id] == (NodeView {
                children: Seq::empty(),
                branches: Seq::empty(),
                ..g.nodes[id]
            })
            &&& after.nodes[base] == (NodeView {
                children: with_ids(
                    without_id(g.nodes[base].children, id),
                    g.nodes[id].children,
                ),
                branches: g.nodes[base].branches + g.nodes[id].branches,
                ..g.nodes[base]
            })
            &&& forall|x: Oid|
                g.contains(x) && x != base && x != id ==> #[trigger] after.nodes[x] == g.nodes[x]
        }),
{
    let after = unhooked(g, base, id);
    assert(after.nodes.dom() =~= g.nodes.dom());
}

/// Taking a node out from under its parent, to wait, keeps what holds while
/// the pass works on a stack.
pub proof fn lemma_unhook(g: GraphView, entries: Entries, base: Oid, id: Oid, key: Seq<u8>)
    requires
        grafting(g, entries),
        g.contains(base),
        g.nodes[base].children.contains(id),
    ensures
        grafting(unhooked(g, base, id), recorded(entries, key, id)),
{
    let after = unhooked(g, base, id);
    let waiting = recorded(entries, key, id);
    let kb = g.nodes[base].children;
    let ki = g.nodes[id].children;
    let kids = with_ids(without_id(kb, id), ki);
    let at = choose|i: int| 0 <= i < kb.len() && kb[i] == id;
    assert(g.contains(kb[at]) && kb[at] != g.root_id);
    lemma_no_way_back(g, base, id);
    lemma_unhooked(g, base, id);
    lemma_without_id(kb, id);
    lemma_with_ids(without_id(kb, id), ki);
    assert(g.has_parent(id));
    assert(!waits(entries, id));
    lemma_recorded_waits(entries, key, id);
    assert(!ki.contains(id)) by {
        if ki.contains(id) {
            lemma_no_way_back(g, id, id);
        }
    }
    // the edges of the new graph
    assert forall|p: Oid, c: Oid| after.contains(p) && #[trigger] after.nodes[p].children.contains(c) implies c
        != id && g.contains(c) && c != g.root_id && ((p == base && ki.contains(c)) || (p != id
        && g.nodes[p].children.contains(c))) by {
        if p == base {
            assert(kids.contains(c));
            if ki.contains(c) {
                let k = choose|k: int| 0 <= k < ki.len() && ki[k] == c;
                assert(g.contains(g.nodes[id].children[k]) && g.nodes[id].children[k] != g.root_id);
            } else {
                let k = choose|k: int| 0 <= k < kb.len() && kb[k] == c;
                assert(g.contains(g.nodes[base].children[k]) && g.nodes[base].children[k] != g.root_id);
            }
        } else if p != id {
            let k = choose|k: int| 0 <= k < g.nodes[p].children.len() && g.nodes[p].children[k] == c;
            assert(g.contains(g.nodes[p].children[k]) && g.nodes[p].children[k] != g.root_id);
            if c == id {
                assert(g.nodes[base].children.contains(id) && g.nodes[p].children.contains(id));
            }
        }
    }
    assert(after.wf()) by {
        assert forall|x: Oid| after.contains(x) implies (#[trigger] after.nodes[x]).commit.id == x
            && after.nodes[x].children.no_duplicates() by {
            assert(g.nodes[x].commit.id == x);
        }
        assert forall|x: Oid, i: int|
            after.contains(x) && 0 <= i < after.nodes[x].children.len() implies after.contains(
            #[trigger] after.nodes[x].children[i],
        ) && after.nodes[x].children[i] != after.root_id by {
            assert(after.nodes[x].children.contains(after.nodes[x].children[i]));
        }
    }
    assert(after.acyclic()) by {
        let rank = choose|rank: Map<Oid, nat>| g.ranked_by(rank);
        assert(rank[kb[at]] < rank[base]);
        assert forall|x: Oid, i: int|
            after.contains(x) && 0 <= i < after.nodes[x].children.len() implies rank[#[trigger] after.nodes[x].children[i]]
            < rank[x] by {
            let c = after.nodes[x].children[i];
            assert(after.nodes[x].children.contains(c));
            if x == base && ki.contains(c) {
                let k = choose|k: int| 0 <= k < ki.len() && ki[k] == c;
                assert(rank[g.nodes[id].children[k]] < rank[id]);
            } else {
                let k = choose|k: int| 0 <= k < g.nodes[x].children.len() && g.nodes[x].children[k] == c;
                assert(rank[g.nodes[x].children[k]] < rank[x]);
            }
        }
        assert(after.ranked_by(rank));
    }
    assert(after.forest()) by {
        assert forall|p: Oid, q: Oid, c: Oid|
            #![trigger after.nodes[p].children.contains(c), after.nodes[q].children.contains(c)]
            after.contains(p) && after.contains(q) && after.nodes[p].children.contains(c)
                && after.nodes[q].children.contains(c) implies p == q by {
            if ki.contains(c) {
                assert(g.nodes[id].children.contains(c));
                if p != base {
                    assert(g.nodes[p].children.contains(c));
                }
                if q != base {
                    assert(g.nodes[q].children.contains(c));
                }
            } else {
                assert(g.nodes[p].children.contains(c) && g.nodes[q].children.contains(c));
            }
        }
    }
    assert forall|x: Oid| #[trigger] waits(waiting, x) implies floating(after, x) by {
        if x == id {
            if after.has_parent(id) {
                let p = choose|p: Oid| after.contains(p) && #[trigger] after.nodes[p].children.contains(id);
            }
        } else {
            assert(floating(g, x));
            assert(x != base) by {
                if x == base {
                    assert(g.nodes[base].children.len() > 0);
                }
            }
            if after.has_parent(x) {
                let p = choose|p: Oid| after.contains(p) && #[trigger] after.nodes[p].children.contains(x);
                if p == base && ki.contains(x) {
                    assert(g.nodes[id].children.contains(x));
                    assert(g.has_parent(x));
                } else {
                    assert(g.nodes[p].children.contains(x));
                    assert(g.has_parent(x));
                }
            }
        }
    }
    assert forall|x: Oid| after.contains(x) && x != after.root_id && !waits(waiting, x) implies #[trigger] after.has_parent(
        x,
    ) by {
        assert(!waits(entries, x) && x != id);
        assert(g.has_parent(x));
        let p = choose|p: Oid| g.contains(p) && #[trigger] g.nodes[p].children.contains(x);
        if p == id {
            assert(kids.contains(x));
            assert(after.nodes[base].children.contains(x));
        } else if p == base {
            assert(without_id(kb, id).contains(x));
            assert(kids.contains(x));
            assert(after.nodes[base].children.contains(x));
        } else {
            assert(after.nodes[p].children.contains(x));
        }
    }
    assert forall|e: int| 0 <= e < waiting.len() implies (#[trigger] waiting[e]).1.len() > 0 by {
        lemma_slot_bounds(entries, key, 0);
        let slot = slot_of(entries, key);
        if holds_key(entries, key) {
            if e != slot {
                assert(waiting[e] == entries[e]);
            }
        } else {
            if e < slot {
                assert(waiting[e] == entries[e]);
            } else if e > slot {
                assert(waiting[e] == entries[e - 1]);
            }
        }
    }
}

/// Marking nodes of the graph to be squashed keeps it well formed, with
/// the same nodes, commits, branches and children.
pub proof fn lemma_squash_all_shape(g: GraphView, ids: Seq<Oid>)
    requires
        g.wf(),
        g.contains_all(ids),
    ensures
        squash_all(g, ids).wf(),
        g.same_shape(squash_all(g, ids)),
    decreases ids.len(),
{
    if ids.len() > 0 {
        assert(g.contains(ids[0]));
        lemma_with_action(g, ids[0], Action::Squash);
        let one = g.with_action(ids[0], Action::Squash);
        assert forall|i: int| 0 <= i < ids.drop_first().len() implies one.contains(
            #[trigger] ids.drop_first()[i],
        ) by {
            assert(g.contains(ids[i + 1]));
        }
        lemma_squash_all_shape(one, ids.drop_first());
    }
}

/// Where each of `ids` stands in `ids`.
pub open spec fn place(ids: Seq<Oid>, id: Oid) -> int {
    choose|i: int| 0 <= i < ids.len() && ids[i] == id
}

/// Bringing the fixups that wait for a summary behind a node keeps what
/// holds while the pass works on a stack.
pub proof fn lemma_settle(g: GraphView, entries: Entries, key: Seq<u8>, id: Oid, squash: bool)
    requires
        grafting(g, entries),
        g.contains(id),
        !waits(entries, id),
        found(entries, key) is Some,
    ensures
        grafting(settled(g, id, found(entries, key)->0, squash), without_key(entries, key)),
        settled(g, id, found(entries, key)->0, squash).root_id == g.root_id,
        settled(g, id, found(entries, key)->0, squash).nodes.dom() == g.nodes.dom(),
        forall|x: Oid|
            g.contains(x) && x != id && !waits(entries, x) ==> (#[trigger] settled(
                g,
                id,
                found(entries, key)->0,
                squash,
            ).nodes[x]).children == g.nodes[x].children,
        forall|c: Oid|
            #[trigger] settled(g, id, found(entries, key)->0, squash).nodes[id].children.contains(c)
                ==> waits(entries, c),
{
    let ids = found(entries, key)->0;
    let rest = without_key(entries, key);
    let after = settled(g, id, ids, squash);
    let k = ids.len();
    lemma_taken_waits(entries, key);
    lemma_slot_bounds(entries, key, 0);
    assert(k > 0) by {
        assert(entries[slot_of(entries, key)].1.len() > 0);
    }
    assert forall|i: int| 0 <= i < k implies floating(g, #[trigger] ids[i]) && ids[i] != id by {
        assert(waits(entries, ids[i]));
    }
    let marked = if squash {
        squash_all(g, ids)
    } else {
        g
    };
    assert(g.contains_all(ids));
    if squash {
        lemma_squash_all_shape(g, ids);
    }
    assert(g.same_shape(marked));
    assert(marked.nodes.dom() == g.nodes.dom());
    assert(loose(marked, id, ids)) by {
        assert forall|i: int| 0 <= i < ids.len() implies marked.contains(#[trigger] ids[i]) && ids[i]
            != id && marked.nodes[ids[i]].children.len() == 0 by {
            assert(floating(g, ids[i]));
            assert(g.nodes[ids[i]].children == marked.nodes[ids[i]].children);
        }
    }
    lemma_spliced_after(marked, id, ids);
    assert(after == spliced_after(marked, id, ids));
    assert(ids[k - 1] == ids.last());
    let kids = g.nodes[id].children;
    assert(marked.nodes[id].children == kids);
    assert forall|i: int| 0 <= i < k implies place(ids, #[trigger] ids[i]) == i by {
        let j = place(ids, ids[i]);
        if j != i {
            assert(ids[j] != ids[i]);
        }
    }
    // the edges of the new graph
    assert forall|p: Oid, c: Oid| after.contains(p) && #[trigger] after.nodes[p].children.contains(c) implies (
    p == id && c == ids[k - 1]) || (ids.contains(p) && place(ids, p) > 0 && c == ids[place(ids, p) - 1])
        || (p == ids[0] && kids.contains(c) && !ids.contains(c)) || (p != id && !ids.contains(p)
        && g.nodes[p].children.contains(c) && !ids.contains(c)) by {
        if p == id {
            assert(after.nodes[id].children[0] == ids[k - 1]);
        } else if ids.contains(p) {
            let i = place(ids, p);
            if i > 0 {
                assert(after.nodes[ids[i]].children == seq![ids[i - 1]]);
                assert(after.nodes[p].children[0] == ids[i - 1]);
            } else {
                assert(g.nodes[id].children.contains(c));
                if ids.contains(c) {
                    assert(floating(g, ids[place(ids, c)]));
                    assert(g.has_parent(c));
                }
            }
        } else {
            assert(after.nodes[p] == marked.nodes[p]);
            assert(g.nodes[p].children == marked.nodes[p].children);
            if ids.contains(c) {
                assert(floating(g, ids[place(ids, c)]));
                assert(g.has_parent(c));
            }
        }
    }
    assert(after.wf()) by {
        assert forall|x: Oid| after.contains(x) implies (#[trigger] after.nodes[x]).commit.id == x
            && after.nodes[x].children.no_duplicates() by {
            assert(marked.nodes[x].commit == after.nodes[x].commit);
            assert(g.nodes[x].commit == marked.nodes[x].commit);
            assert(g.nodes[x].commit.id == x);
            if x == id {
            } else if ids.contains(x) {
                let i = place(ids, x);
                if i > 0 {
                    assert(after.nodes[ids[i]].children == seq![ids[i - 1]]);
                } else {
                    assert(g.nodes[id].children.no_duplicates());
                }
            } else {
                assert(after.nodes[x] == marked.nodes[x]);
                assert(g.nodes[x].children == marked.nodes[x].children);
                assert(g.nodes[x].children.no_duplicates());
            }
        }
        assert forall|x: Oid, i: int|
            after.contains(x) && 0 <= i < after.nodes[x].children.len() implies after.contains(
            #[trigger] after.nodes[x].children[i],
        ) && after.nodes[x].children[i] != after.root_id by {
            let c = after.nodes[x].children[i];
            assert(after.nodes[x].children.contains(c));
            if ids.contains(c) {
                assert(floating(g, ids[place(ids, c)]));
            } else {
                let p = if x == ids[0] && kids.contains(c) {
                    id
                } else {
                    x
                };
                assert(g.nodes[p].children.contains(c));
                let j = choose|j: int| 0 <= j < g.nodes[p].children.len() && g.nodes[p].children[j] == c;
                assert(g.contains(g.nodes[p].children[j]) && g.nodes[p].children[j] != g.root_id);
            }
        }
        assert(after.nodes.dom().finite());
        assert(after.root_id == g.root_id);
    }
    assert(after.acyclic()) by {
        let old_rank = choose|rank: Map<Oid, nat>| g.ranked_by(rank);
        let room = (k + 1) as nat;
        let top = (old_rank[id] + 1) * room;
        assert(top >= room) by (nonlinear_arith)
            requires
                top == (old_rank[id] + 1) * room,
        ;
        let rank = Map::<Oid, nat>::total(
            |x: Oid|
                if ids.contains(x) {
                    (top - (k - place(ids, x))) as nat
                } else {
                    (old_rank[x] + 1) * room
                },
        );
        assert forall|x: Oid, i: int|
            after.contains(x) && 0 <= i < after.nodes[x].children.len() implies rank[#[trigger] after.nodes[x].children[i]]
            < rank[x] by {
            let c = after.nodes[x].children[i];
            assert(after.nodes[x].children.contains(c));
            if x == id && c == ids[k - 1] {
                assert(place(ids, ids[k - 1]) == k - 1);
            } else if ids.contains(x) && place(ids, x) > 0 && c == ids[place(ids, x) - 1] {
                assert(place(ids, ids[place(ids, x) - 1]) == place(ids, x) - 1);
            } else if x == ids[0] && kids.contains(c) && !ids.contains(c) {
                assert(place(ids, ids[0]) == 0);
                let j = choose|j: int| 0 <= j < kids.len() && kids[j] == c;
                assert(old_rank[g.nodes[id].children[j]] < old_rank[id]);
                lemma_scaled(old_rank[c], old_rank[id], room);
            } else {
                let j = choose|j: int| 0 <= j < g.nodes[x].children.len() && g.nodes[x].children[j] == c;
                assert(old_rank[g.nodes[x].children[j]] < old_rank[x]);
                lemma_scaled(old_rank[c], old_rank[x], room);
            }
        }
        assert(after.ranked_by(rank));
    }
    assert(after.forest()) by {
        assert forall|p: Oid, q: Oid, c: Oid|
            #![trigger after.nodes[p].children.contains(c), after.nodes[q].children.contains(c)]
            after.contains(p) && after.contains(q) && after.nodes[p].children.contains(c)
                && after.nodes[q].children.contains(c) implies p == q by {
            if ids.contains(c) {
                let j = place(ids, c);
                let parent_of = |x: Oid|
                    if x == id {
                        k as int
                    } else {
                        place(ids, x)
                    };
                assert(parent_of(p) - 1 == j);
                assert(parent_of(q) - 1 == j);
                if p != id && q != id {
                    assert(ids[place(ids, p)] == p && ids[place(ids, q)] == q);
                }
            } else if kids.contains(c) {
                if p != ids[0] {
                    assert(g.nodes[p].children.contains(c) && g.nodes[id].children.contains(c));
                }
                if q != ids[0] {
                    assert(g.nodes[q].children.contains(c) && g.nodes[id].children.contains(c));
                }
            } else {
                assert(g.nodes[p].children.contains(c) && g.nodes[q].children.contains(c));
            }
        }
    }
    assert forall|x: Oid| #[trigger] waits(rest, x) implies floating(after, x) by {
        assert(waits(entries, x) && !ids.contains(x));
        assert(floating(g, x));
        assert(after.nodes[x] == marked.nodes[x]);
        assert(g.nodes[x].children == marked.nodes[x].children);
        if after.has_parent(x) {
            let p = choose|p: Oid| after.contains(p) && #[trigger] after.nodes[p].children.contains(x);
            if p == ids[0] && kids.contains(x) {
                assert(g.nodes[id].children.contains(x));
            } else {
                assert(g.nodes[p].children.contains(x));
            }
            assert(g.has_parent(x));
        }
    }
    assert forall|x: Oid| after.contains(x) && x != after.root_id && !waits(rest, x) implies #[trigger] after.has_parent(
        x,
    ) by {
        if ids.contains(x) {
            let i = place(ids, x);
            if i == k - 1 {
                assert(after.nodes[id].children[0] == x);
                assert(after.nodes[id].children.contains(x));
            } else {
                assert(after.nodes[ids[i + 1]].children == seq![ids[i + 1 - 1]]);
                assert(after.nodes[ids[i + 1]].children[0] == x);
                assert(after.contains(ids[i + 1]));
                assert(after.nodes[ids[i + 1]].children.contains(x));
            }
        } else {
            assert(!waits(entries, x));
            assert(g.has_parent(x));
            let p = choose|p: Oid| g.contains(p) && #[trigger] g.nodes[p].children.contains(x);
            if p == id {
                assert(after.nodes[ids[0]].children.contains(x));
                assert(after.contains(ids[0]));
            } else {
                assert(!ids.contains(p)) by {
                    if ids.contains(p) {
                        assert(floating(g, ids[place(ids, p)]));
                    }
                }
                assert(after.nodes[p] == marked.nodes[p]);
                assert(g.nodes[p].children == marked.nodes[p].children);
                assert(after.nodes[p].children.contains(x));
            }
        }
    }
    assert forall|e: int| 0 <= e < rest.len() implies (#[trigger] rest[e]).1.len() > 0 by {
        let slot = slot_of(entries, key);
        if e < slot {
            assert(rest[e] == entries[e]);
        } else {
            assert(rest[e] == entries[e + 1]);
        }
    }
    assert forall|x: Oid| g.contains(x) && x != id && !waits(entries, x) implies (#[trigger] after.nodes[x]).children
        == g.nodes[x].children by {
        assert(!ids.contains(x)) by {
            if ids.contains(x) {
                assert(waits(entries, ids[place(ids, x)]));
            }
        }
        assert(after.nodes[x] == marked.nodes[x]);
        assert(g.nodes[x].children == marked.nodes[x].children);
    }
    assert forall|c: Oid| #[trigger] after.nodes[id].children.contains(c) implies waits(entries, c) by {
        assert(after.nodes[id].children[0] == ids[k - 1]);
        assert(waits(entries, ids[k - 1]));
    }
}

/// Without the first entry, the fixups of the other entries wait on.
pub proof fn lemma_drop_first_waits(entries: Entries)
    requires
        apart(entries),
        entries.len() > 0,
    ensures
        apart(entries.drop_first()),
        entries[0].1.no_duplicates(),
        forall|k: int| 0 <= k < entries[0].1.len() ==> waits(entries, #[trigger] entries[0].1[k]),
        forall|x: Oid|
            #[trigger] waits(entries.drop_first(), x) <==> (waits(entries, x) && !entries[0].1.contains(
                x,
            )),
{
    let rest = entries.drop_first();
    let ids = entries[0].1;
    assert forall|i: int, j: int| 0 <= i < ids.len() && 0 <= j < ids.len() && i != j implies ids[i]
        != ids[j] by {
        assert(entries[0].1[i] != entries[0].1[j]);
    }
    assert forall|k: int| 0 <= k < ids.len() implies waits(entries, #[trigger] ids[k]) by {
        assert(entries[0].1[k] == ids[k]);
    }
    assert forall|e: int| 0 <= e < rest.len() implies #[trigger] rest[e] == entries[e + 1] by {}
    assert forall|x: Oid| #[trigger] waits(rest, x) <==> (waits(entries, x) && !ids.contains(x)) by {
        if waits(rest, x) {
            let (e, k) = choose|e: int, k: int|
                0 <= e < rest.len() && 0 <= k < rest[e].1.len() && #[trigger] rest[e].1[k] == x;
            assert(rest[e] == entries[e + 1]);
            assert(entries[e + 1].1[k] == x);
            if ids.contains(x) {
                let j = choose|j: int| 0 <= j < ids.len() && ids[j] == x;
                assert(entries[0].1[j] != entries[e + 1].1[k]);
            }
        }
        if waits(entries, x) && !ids.contains(x) {
            let (e, k) = choose|e: int, k: int|
                0 <= e < entries.len() && 0 <= k < entries[e].1.len() && #[trigger] entries[e].1[k] == x;
            if e == 0 {
                assert(ids[k] == x);
            }
            assert(rest[e - 1] == entries[e - 1 + 1]);
            assert(rest[e - 1].1[k] == x);
        }
    }
    assert forall|e1: int, k1: int, e2: int, k2: int|
        0 <= e1 < rest.len() && 0 <= k1 < rest[e1].1.len() && 0 <= e2 < rest.len() && 0 <= k2
            < rest[e2].1.len() && (e1 != e2 || k1 != k2) implies #[trigger] rest[e1].1[k1]
        != #[trigger] rest[e2].1[k2] by {
        assert(rest[e1] == entries[e1 + 1]);
        assert(rest[e2] == entries[e2 + 1]);
        assert(entries[e1 + 1].1[k1] != entries[e2 + 1].1[k2]);
    }
}

/// Putting the fixups of the first entry between a node and a child of it
/// keeps what holds while the pass works on a stack.
pub proof fn lemma_between(g: GraphView, entries: Entries, base: Oid, top: Oid)
    requires
        grafting(g, entries),
        entries.len() > 0,
        g.contains(base),
        g.nodes[base].children.contains(top),
    ensures
        grafting(spliced_between(g, base, top, entries[0].1).0, entries.drop_first()),
        spliced_between(g, base, top, entries[0].1).1 == entries[0].1.last(),
        spliced_between(g, base, top, entries[0].1).0.root_id == g.root_id,
        spliced_between(g, base, top, entries[0].1).0.nodes.dom() == g.nodes.dom(),
        spliced_between(g, base, top, entries[0].1).0.nodes[base].children.contains(
            entries[0].1.last(),
        ),
        forall|x: Oid|
            g.contains(x) && x != base && !waits(entries, x) ==> (#[trigger] spliced_between(
                g,
                base,
                top,
                entries[0].1,
            ).0.nodes[x]).children == g.nodes[x].children,
        forall|c: Oid|
            c != top && g.nodes[base].children.contains(c) ==> #[trigger] spliced_between(
                g,
                base,
                top,
                entries[0].1,
            ).0.nodes[base].children.contains(c),
        forall|c: Oid|
            #[trigger] spliced_between(g, base, top, entries[0].1).0.nodes[base].children.contains(c)
                ==> g.nodes[base].children.contains(c) || waits(entries, c),
{
    let ids = entries[0].1;
    let rest = entries.drop_first();
    let (after, last) = spliced_between(g, base, top, ids);
    let m = ids.len();
    let kb = g.nodes[base].children;
    lemma_drop_first_waits(entries);
    assert(m > 0);
    assert(ids[m - 1] == ids.last());
    let at = choose|i: int| 0 <= i < kb.len() && kb[i] == top;
    assert(g.contains(kb[at]) && kb[at] != g.root_id);
    assert(g.has_parent(top));
    assert(g.nodes[base].children.len() > 0);
    assert forall|i: int| 0 <= i < m implies floating(g, #[trigger] ids[i]) && ids[i] != top && ids[i]
        != base by {
        assert(waits(entries, ids[i]));
    }
    assert(loose(g, top, ids));
    assert(!ids.contains(base)) by {
        if ids.contains(base) {
            assert(floating(g, ids[place(ids, base)]));
        }
    }
    lemma_spliced_between(g, base, top, ids);
    assert forall|i: int| 0 <= i < m implies place(ids, #[trigger] ids[i]) == i by {
        let j = place(ids, ids[i]);
        if j != i {
            assert(ids[j] != ids[i]);
        }
    }
    let cut = without_id(kb, top);
    lemma_without_id(kb, top);
    lemma_with_id(cut, last);
    // the edges of the new graph
    assert forall|p: Oid, c: Oid| after.contains(p) && #[trigger] after.nodes[p].children.contains(c) implies (
    p == base && c == ids[m - 1]) || (p == base && kb.contains(c) && c != top && !ids.contains(c)) || (
    p == ids[0] && c == top) || (ids.contains(p) && place(ids, p) > 0 && c == ids[place(ids, p) - 1])
        || (p != base && !ids.contains(p) && g.nodes[p].children.contains(c) && !ids.contains(c)) by {
        if p == base {
            if c != ids[m - 1] {
                assert(cut.contains(c));
                if ids.contains(c) {
                    assert(floating(g, ids[place(ids, c)]));
                }
            }
        } else if ids.contains(p) {
            let i = place(ids, p);
            if i > 0 {
                assert(after.nodes[ids[i]].children == seq![ids[i - 1]]);
                assert(after.nodes[p].children[0] == ids[i - 1]);
            } else {
                assert(after.nodes[p].children[0] == top);
            }
        } else {
            assert(after.nodes[p] == g.nodes[p]);
            if ids.contains(c) {
                assert(floating(g, ids[place(ids, c)]));
                assert(g.has_parent(c));
            }
        }
    }
    assert(after.wf()) by {
        assert forall|x: Oid| after.contains(x) implies (#[trigger] after.nodes[x]).commit.id == x
            && after.nodes[x].children.no_duplicates() by {
            assert(g.nodes[x].commit.id == x);
            if x == base {
            } else if ids.contains(x) {
                let i = place(ids, x);
                if i > 0 {
                    assert(after.nodes[ids[i]].children == seq![ids[i - 1]]);
                }
            } else {
                assert(after.nodes[x] == g.nodes[x]);
            }
        }
        assert forall|x: Oid, i: int|
            after.contains(x) && 0 <= i < after.nodes[x].children.len() implies after.contains(
            #[trigger] after.nodes[x].children[i],
        ) && after.nodes[x].children[i] != after.root_id by {
            let c = after.nodes[x].children[i];
            assert(after.nodes[x].children.contains(c));
            if ids.contains(c) {
                assert(floating(g, ids[place(ids, c)]));
            } else if c != top {
                assert(g.nodes[x].children.contains(c));
                let j = choose|j: int| 0 <= j < g.nodes[x].children.len() && g.nodes[x].children[j] == c;
                assert(g.contains(g.nodes[x].children[j]) && g.nodes[x].children[j] != g.root_id);
            }
        }
    }
    assert(after.acyclic()) by {
        let old_rank = choose|rank: Map<Oid, nat>| g.ranked_by(rank);
        let room = (m + 1) as nat;
        let low = (old_rank[top] + 1) * room;
        assert(old_rank[kb[at]] < old_rank[base]);
        let rank = Map::<Oid, nat>::total(
            |x: Oid|
                if ids.contains(x) {
                    (low + place(ids, x) + 1) as nat
                } else {
                    (old_rank[x] + 1) * room
                },
        );
        assert forall|x: Oid, i: int|
            after.contains(x) && 0 <= i < after.nodes[x].children.len() implies rank[#[trigger] after.nodes[x].children[i]]
            < rank[x] by {
            let c = after.nodes[x].children[i];
            assert(after.nodes[x].children.contains(c));
            if x == base && c == ids[m - 1] {
                assert(place(ids, ids[m - 1]) == m - 1);
                lemma_scaled(old_rank[top], old_rank[base], room);
            } else if x == ids[0] && c == top {
                assert(place(ids, ids[0]) == 0);
                assert(!ids.contains(top)) by {
                    if ids.contains(top) {
                        assert(floating(g, ids[place(ids, top)]));
                    }
                }
            } else if ids.contains(x) && place(ids, x) > 0 && c == ids[place(ids, x) - 1] {
                assert(place(ids, ids[place(ids, x) - 1]) == place(ids, x) - 1);
            } else {
                let j = choose|j: int| 0 <= j < g.nodes[x].children.len() && g.nodes[x].children[j] == c;
                assert(old_rank[g.nodes[x].children[j]] < old_rank[x]);
                lemma_scaled(old_rank[c], old_rank[x], room);
            }
        }
        assert(after.ranked_by(rank));
    }
    assert(after.forest()) by {
        assert forall|p: Oid, q: Oid, c: Oid|
            #![trigger after.nodes[p].children.contains(c), after.nodes[q].children.contains(c)]
            after.contains(p) && after.contains(q) && after.nodes[p].children.contains(c)
                && after.nodes[q].children.contains(c) implies p == q by {
            if ids.contains(c) {
                let j = place(ids, c);
                let parent_of = |x: Oid|
                    if x == base {
                        m as int
                    } else {
                        place(ids, x)
                    };
                assert(parent_of(p) - 1 == j);
                assert(parent_of(q) - 1 == j);
                if p != base && q != base {
                    assert(ids[place(ids, p)] == p && ids[place(ids, q)] == q);
                }
            } else if c == top {
                if p != ids[0] {
                    assert(g.nodes[p].children.contains(top) && g.nodes[base].children.contains(top));
                }
                if q != ids[0] {
                    assert(g.nodes[q].children.contains(top) && g.nodes[base].children.contains(top));
                }
            } else {
                assert(g.nodes[p].children.contains(c) && g.nodes[q].children.contains(c));
            }
        }
    }
    assert forall|x: Oid| #[trigger] waits(rest, x) implies floating(after, x) by {
        assert(waits(entries, x) && !ids.contains(x));
        assert(floating(g, x));
        assert(x != base);
        assert(after.nodes[x] == g.nodes[x]);
        if after.has_parent(x) {
            let p = choose|p: Oid| after.contains(p) && #[trigger] after.nodes[p].children.contains(x);
            if p == ids[0] && x == top {
            } else {
                assert(g.nodes[p].children.contains(x));
            }
            assert(g.has_parent(x));
        }
    }
    assert forall|x: Oid| after.contains(x) && x != after.root_id && !waits(rest, x) implies #[trigger] after.has_parent(
        x,
    ) by {
        if ids.contains(x) {
            let i = place(ids, x);
            if i == m - 1 {
                assert(after.nodes[base].children.contains(x));
            } else {
                assert(after.nodes[ids[i + 1]].children == seq![ids[i + 1 - 1]]);
                assert(after.nodes[ids[i + 1]].children[0] == x);
                assert(after.contains(ids[i + 1]));
                assert(after.nodes[ids[i + 1]].children.contains(x));
            }
        } else if x == top {
            assert(after.nodes[ids[0]].children[0] == top);
            assert(after.contains(ids[0]));
            assert(after.nodes[ids[0]].children.contains(top));
        } else {
            assert(!waits(entries, x));
            assert(g.has_parent(x));
            let p = choose|p: Oid| g.contains(p) && #[trigger] g.nodes[p].children.contains(x);
            if p == base {
                assert(cut.contains(x));
                assert(after.nodes[base].children.contains(x));
            } else {
                assert(!ids.contains(p)) by {
                    if ids.contains(p) {
                        assert(floating(g, ids[place(ids, p)]));
                    }
                }
                assert(after.nodes[p] == g.nodes[p]);
                assert(after.nodes[p].children.contains(x));
            }
        }
    }
    assert forall|e: int| 0 <= e < rest.len() implies (#[trigger] rest[e]).1.len() > 0 by {
        assert(rest[e] == entries[e + 1]);
    }
    assert forall|x: Oid| g.contains(x) && x != base && !waits(entries, x) implies (#[trigger] after.nodes[x]).children
        == g.nodes[x].children by {
        assert(!ids.contains(x)) by {
            if ids.contains(x) {
                assert(waits(entries, ids[place(ids, x)]));
            }
        }
        assert(after.nodes[x] == g.nodes[x]);
    }
    assert forall|c: Oid| c != top && g.nodes[base].children.contains(c) implies #[trigger] after.nodes[base].children.contains(
        c,
    ) by {
        assert(cut.contains(c));
    }
    assert forall|c: Oid| #[trigger] after.nodes[base].children.contains(c) implies g.nodes[base].children.contains(
        c,
    ) || waits(entries, c) by {
        if c == ids[m - 1] {
            assert(waits(entries, ids[m - 1]));
        } else {
            assert(cut.contains(c));
        }
    }
    assert(after.nodes[base].children.contains(ids[m - 1]));
}

/// In a graph without cycles no node reaches its parent.
pub proof fn lemma_no_way_back(g: GraphView, parent: Oid, child: Oid)
    requires
        g.acyclic(),
        g.contains(parent),
        g.nodes[parent].children.contains(child),
    ensures
        !g.reaches(child, parent),
        parent != child,
{
    let rank = choose|rank: Map<Oid, nat>| g.ranked_by(rank);
    let i = choose|i: int| 0 <= i < g.nodes[parent].children.len() && g.nodes[parent].children[i] == child;
    assert(rank[g.nodes[parent].children[i]] < rank[parent]);
    if g.reaches(child, parent) {
        let path = choose|path: Seq<Oid>| #[trigger] g.is_path(path) && path[0] == child && path.last() == parent;
        if path.len() > 1 {
            lemma_path_falls(g, rank, path, 0, path.len() - 1);
        }
    }
}

/// What a node reaches besides itself has a parent that the node reaches.
pub proof fn lemma_reached_through(g: GraphView, from: Oid, to: Oid)
    requires
        g.reaches(from, to),
        from != to,
    ensures
        exists|p: Oid| g.contains(p) && #[trigger] g.nodes[p].children.contains(to) && g.reaches(from, p),
{
    let path = choose|path: Seq<Oid>| #[trigger] g.is_path(path) && path[0] == from && path.last() == to;
    let n = path.len() as int;
    assert(n > 1);
    let p = path[n - 2];
    assert(g.contains(path[n - 2]) && g.nodes[path[n - 2]].children.contains(path[n - 2 + 1]));
    lemma_subpath(g, path, n - 2);
    assert(g.nodes[p].children.contains(to) && g.reaches(from, p));
}

/// In a tree the subtrees of two children of a node share no node.
pub proof fn lemma_subtrees_apart(g: GraphView, parent: Oid, one: Oid, two: Oid, x: Oid)
    requires
        g.acyclic(),
        g.forest(),
        g.contains(parent),
        g.nodes[parent].children.contains(one),
        g.nodes[parent].children.contains(two),
        one != two,
        g.reaches(one, x),
    ensures
        !g.reaches(two, x),
{
    let rank = choose|rank: Map<Oid, nat>| g.ranked_by(rank);
    lemma_rank_below(g, rank, one, x);
    lemma_subtrees_apart_by(g, rank, parent, one, two, x);
}

proof fn lemma_subtrees_apart_by(
    g: GraphView,
    rank: Map<Oid, nat>,
    parent: Oid,
    one: Oid,
    two: Oid,
    x: Oid,
)
    requires
        g.acyclic(),
        g.ranked_by(rank),
        g.forest(),
        g.contains(parent),
        g.nodes[parent].children.contains(one),
        g.nodes[parent].children.contains(two),
        one != two,
        g.reaches(one, x),
        rank[x] <= rank[one],
    ensures
        !g.reaches(two, x),
    decreases rank[one] - rank[x],
{
    if g.reaches(two, x) {
        if x == one {
            // `two` reaches `one`, so it reaches a parent of `one`: the parent
            lemma_reached_through(g, two, one);
            let p = choose|p: Oid| g.contains(p) && #[trigger] g.nodes[p].children.contains(one) && g.reaches(two, p);
            assert(p == parent);
            lemma_no_way_back(g, parent, two);
        } else if x == two {
            lemma_reached_through(g, one, two);
            let p = choose|p: Oid| g.contains(p) && #[trigger] g.nodes[p].children.contains(two) && g.reaches(one, p);
            assert(p == parent);
            lemma_no_way_back(g, parent, one);
        } else {
            lemma_reached_through(g, one, x);
            let p = choose|p: Oid| g.contains(p) && #[trigger] g.nodes[p].children.contains(x) && g.reaches(one, p);
            lemma_reached_through(g, two, x);
            let q = choose|q: Oid| g.contains(q) && #[trigger] g.nodes[q].children.contains(x) && g.reaches(two, q);
            assert(p == q);
            let i = choose|i: int| 0 <= i < g.nodes[p].children.len() && g.nodes[p].children[i] == x;
            assert(rank[g.nodes[p].children[i]] < rank[p]);
            lemma_rank_below(g, rank, one, p);
            lemma_subtrees_apart_by(g, rank, parent, one, two, p);
        }
    }
}

/// What a node reaches ranks no higher than the node.
pub proof fn lemma_rank_below(g: GraphView, rank: Map<Oid, nat>, from: Oid, to: Oid)
    requires
        g.ranked_by(rank),
        g.reaches(from, to),
    ensures
        rank[to] <= rank[from],
{
    let path = choose|path: Seq<Oid>| #[trigger] g.is_path(path) && path[0] == from && path.last() == to;
    if path.len() > 1 {
        lemma_path_falls(g, rank, path, 0, path.len() - 1);
    }
}

/// Where two graphs give the same children to every node that `from`
/// reaches in the first, `from` reaches the same nodes in both.
pub proof fn lemma_same_subtree(before: GraphView, after: GraphView, from: Oid, to: Oid)
    requires
        before.closed(),
        before.contains(from),
        before.nodes.dom() == after.nodes.dom(),
        forall|x: Oid|
            #[trigger] before.reaches(from, x) && before.contains(x) ==> after.nodes[x].children
                == before.nodes[x].children,
    ensures
        before.reaches(from, to) <==> after.reaches(from, to),
{
    if before.reaches(from, to) {
        let path = choose|path: Seq<Oid>| #[trigger] before.is_path(path) && path[0] == from && path.last() == to;
        assert forall|i: int| 0 <= i < path.len() - 1 implies after.contains(#[trigger] path[i])
            && after.nodes[path[i]].children.contains(path[i + 1]) by {
            lemma_subpath(before, path, i);
            lemma_path_within(before, path, i);
            assert(before.contains(path[i]));
        }
        assert(after.is_path(path));
    }
    if after.reaches(from, to) {
        let path = choose|path: Seq<Oid>| #[trigger] after.is_path(path) && path[0] == from && path.last() == to;
        lemma_same_subtree_along(before, after, from, path, path.len() - 1);
    }
}

/// Along a path from a node whose subtree is as it was, each node is one that
/// the node reached before.
pub proof fn lemma_same_subtree_along(
    before: GraphView,
    after: GraphView,
    from: Oid,
    path: Seq<Oid>,
    i: int,
)
    requires
        before.closed(),
        before.contains(from),
        before.nodes.dom() == after.nodes.dom(),
        forall|x: Oid|
            #[trigger] before.reaches(from, x) && before.contains(x) ==> after.nodes[x].children
                == before.nodes[x].children,
        after.is_path(path),
        path[0] == from,
        0 <= i < path.len(),
    ensures
        before.reaches(from, path[i]),
        before.contains(path[i]),
    decreases i,
{
    if i == 0 {
        lemma_reaches_self(before, from);
    } else {
        lemma_same_subtree_along(before, after, from, path, i - 1);
        let x = path[i - 1];
        assert(after.contains(x) && after.nodes[x].children.contains(path[i - 1 + 1]));
        assert(before.nodes[x].children.contains(path[i]));
        lemma_reaches_child(before, from, x, path[i]);
        let k = choose|k: int| 0 <= k < before.nodes[x].children.len() && before.nodes[x].children[k] == path[i];
        assert(before.contains(before.nodes[x].children[k]));
    }
}

/// Between the scaled ranks of two nodes of different rank there is room
/// for a chain.
pub proof fn lemma_scaled(low: nat, high: nat, room: nat)
    requires
        low < high,
    ensures
        (low + 1) * room + room <= (high + 1) * room,
{
    assert((low + 1) * room + room == (low + 2) * room) by (nonlinear_arith);
    assert((low + 2) * room <= (high + 1) * room) by (nonlinear_arith)
        requires
            low + 2 <= high + 1,
    ;
}

/// What work on the subtree of `id`, a child of `base`, may change: the
/// children of `base`, of the nodes that `id` reaches and of fixups that
/// waited, and nothing else. `base` keeps its other children and gets new ones
/// only out of the subtree, and what comes to wait comes out of the subtree.
pub open spec fn grafted(before: Fixing, after: Fixing, base: Oid, id: Oid) -> bool {
    &&& after.graph.root_id == before.graph.root_id
    &&& after.graph.nodes.dom() == before.graph.nodes.dom()
    &&& forall|x: Oid|
        before.graph.contains(x) && x != base && !before.graph.reaches(id, x) && !waits(
            before.outstanding,
            x,
        ) ==> (#[trigger] after.graph.nodes[x]).children == before.graph.nodes[x].children
    &&& forall|c: Oid|
        c != id && before.graph.nodes[base].children.contains(c) ==> #[trigger] after.graph.nodes[base].children.contains(
            c,
        )
    &&& forall|c: Oid|
        #[trigger] after.graph.nodes[base].children.contains(c) ==> before.graph.nodes[base].children.contains(
            c,
        ) || before.graph.reaches(id, c)
    &&& forall|x: Oid|
        #[trigger] waits(after.outstanding, x) ==> waits(before.outstanding, x) || before.graph.reaches(
            id,
            x,
        )
}

/// What holds between the children of `node`: since the work on them began
/// at `origin`, the children `rest` that are still to come hang on `node` with
/// their subtrees as they were, and nothing has changed but in the subtree of
/// `node` and among the fixups that waited.
pub open spec fn working(origin: Fixing, s: Fixing, node: Oid, rest: Seq<Oid>) -> bool {
    &&& grafting(s.graph, s.outstanding)
    &&& s.graph.root_id == origin.graph.root_id
    &&& s.graph.nodes.dom() == origin.graph.nodes.dom()
    &&& rest.no_duplicates()
    &&& forall|i: int|
        0 <= i < rest.len() ==> s.graph.nodes[node].children.contains(#[trigger] rest[i])
            && origin.graph.nodes[node].children.contains(rest[i])
    &&& forall|i: int, x: Oid|
        0 <= i < rest.len() && #[trigger] origin.graph.reaches(rest[i], x) && origin.graph.contains(x)
            ==> s.graph.nodes[x].children == origin.graph.nodes[x].children && !waits(
            s.outstanding,
            x,
        )
    &&& forall|x: Oid|
        origin.graph.contains(x) && x != node && !origin.graph.reaches(node, x) && !waits(
            origin.outstanding,
            x,
        ) ==> (#[trigger] s.graph.nodes[x]).children == origin.graph.nodes[x].children
    &&& forall|x: Oid|
        #[trigger] waits(s.outstanding, x) ==> waits(origin.outstanding, x) || origin.graph.reaches(
            node,
            x,
        )
    &&& forall|c: Oid|
        #[trigger] s.graph.nodes[node].children.contains(c) ==> origin.graph.reaches(node, c)
}

/// What a node reaches besides itself hangs on a node, so it does not wait.
pub proof fn lemma_reached_not_waiting(g: GraphView, entries: Entries, parent: Oid, child: Oid, x: Oid)
    requires
        grafting(g, entries),
        g.contains(parent),
        g.nodes[parent].children.contains(child),
        g.reaches(child, x),
    ensures
        !waits(entries, x),
        g.contains(x),
{
    if x == child {
        assert(g.has_parent(x));
    } else {
        lemma_reached_through(g, child, x);
        assert(g.has_parent(x));
    }
    let path = choose|path: Seq<Oid>| #[trigger] g.is_path(path) && path[0] == child && path.last() == x;
    let i = choose|i: int| 0 <= i < g.nodes[parent].children.len() && g.nodes[parent].children[i] == child;
    assert(g.contains(g.nodes[parent].children[i]));
    lemma_path_within(g, path, path.len() - 1);
}

/// Before the work on the children of a node begins, all holds that is to
/// hold between them.
pub proof fn lemma_working_starts(s: Fixing, node: Oid)
    requires
        grafting(s.graph, s.outstanding),
        s.graph.contains(node),
    ensures
        working(s, s, node, s.graph.nodes[node].children),
        working(s, s, node, Seq::empty()),
{
    let kids = s.graph.nodes[node].children;
    assert forall|i: int, x: Oid|
        0 <= i < kids.len() && #[trigger] s.graph.reaches(kids[i], x) && s.graph.contains(x) implies !waits(
        s.outstanding,
        x,
    ) by {
        assert(kids.contains(kids[i]));
        lemma_reached_not_waiting(s.graph, s.outstanding, node, kids[i], x);
    }
    assert forall|c: Oid| #[trigger] s.graph.nodes[node].children.contains(c) implies s.graph.reaches(
        node,
        c,
    ) by {
        lemma_reaches_self(s.graph, node);
        lemma_reaches_child(s.graph, node, node, c);
    }
    assert forall|i: int| 0 <= i < kids.len() implies s.graph.nodes[node].children.contains(
        #[trigger] kids[i],
    ) by {}
}

/// The work on a node that hangs on `base` keeps what holds while the pass
/// works on a stack, and changes only what it may.
pub proof fn lemma_fixed_node(s: Fixing, base: Oid, id: Oid, squash: bool, depth: nat)
    requires
        grafting(s.graph, s.outstanding),
        s.graph.contains(base),
        s.graph.nodes[base].children.contains(id),
    ensures
        grafting(
            fixed_node(s, base, id, squash, depth).graph,
            fixed_node(s, base, id, squash, depth).outstanding,
        ),
        grafted(s, fixed_node(s, base, id, squash, depth), base, id),
    decreases depth, 0nat, 0nat,
{
    let g = s.graph;
    let at = choose|i: int| 0 <= i < g.nodes[base].children.len() && g.nodes[base].children[i] == id;
    assert(g.contains(g.nodes[base].children[at]));
    lemma_no_way_back(g, base, id);
    lemma_reaches_self(g, id);
    lemma_working_starts(s, id);
    let below = if depth == 0 {
        s
    } else {
        fixed_below(s, id, g.nodes[id].children, squash, (depth - 1) as nat)
    };
    if depth > 0 {
        lemma_fixed_below(s, s, id, g.nodes[id].children, squash, (depth - 1) as nat);
    }
    assert(working(s, below, id, Seq::empty()));
    // the parent is as it was
    assert(!waits(s.outstanding, base)) by {
        if waits(s.outstanding, base) {
            assert(floating(g, base));
        }
    }
    assert(below.graph.nodes[base].children == g.nodes[base].children);
    assert(below.graph.has_parent(id));
    assert(!waits(below.outstanding, id));
    assert(!waits(below.outstanding, base)) by {
        if waits(below.outstanding, base) {
            assert(floating(below.graph, base));
        }
    }
    let node = below.graph.nodes[id];
    let t = fixed_node(s, base, id, squash, depth);
    match fixup_target(node.commit.summary) {
        Some(target) => {
            lemma_unhook(below.graph, below.outstanding, base, id, target);
            lemma_unhooked(below.graph, base, id);
            lemma_recorded_waits(below.outstanding, target, id);
            lemma_without_id(g.nodes[base].children, id);
            lemma_with_ids(without_id(g.nodes[base].children, id), node.children);
            assert(t.graph == unhooked(below.graph, base, id));
            assert(t.outstanding == recorded(below.outstanding, target, id));
            assert forall|x: Oid|
                g.contains(x) && x != base && !g.reaches(id, x) && !waits(s.outstanding, x) implies (
            #[trigger] t.graph.nodes[x]).children == g.nodes[x].children by {
                assert(x != id);
                assert(t.graph.nodes[x] == below.graph.nodes[x]);
                assert(below.graph.nodes[x].children == g.nodes[x].children);
            }
            assert forall|c: Oid|
                c != id && g.nodes[base].children.contains(c) implies #[trigger] t.graph.nodes[base].children.contains(
                c,
            ) by {
                assert(without_id(g.nodes[base].children, id).contains(c));
            }
            assert forall|c: Oid| #[trigger] t.graph.nodes[base].children.contains(c) implies g.nodes[base].children.contains(
                c,
            ) || g.reaches(id, c) by {
                if node.children.contains(c) {
                    assert(below.graph.nodes[id].children.contains(c));
                } else {
                    assert(without_id(g.nodes[base].children, id).contains(c));
                }
            }
            assert forall|x: Oid| #[trigger] waits(t.outstanding, x) implies waits(s.outstanding, x)
                || g.reaches(id, x) by {
                if x != id {
                    assert(waits(below.outstanding, x));
                }
            }
            assert(grafted(s, t, base, id));
        },
        None => {
            lemma_taken_waits(below.outstanding, node.commit.summary);
            match found(below.outstanding, node.commit.summary) {
                Some(ids) => {
                    lemma_settle(below.graph, below.outstanding, node.commit.summary, id, squash);
                    assert(t.graph == settled(below.graph, id, ids, squash));
                    assert(t.outstanding == without_key(below.outstanding, node.commit.summary));
                    assert forall|x: Oid|
                        g.contains(x) && x != base && !g.reaches(id, x) && !waits(
                            s.outstanding,
                            x,
                        ) implies (#[trigger] t.graph.nodes[x]).children == g.nodes[x].children by {
                        assert(x != id);
                        assert(!waits(below.outstanding, x));
                        assert(below.graph.nodes[x].children == g.nodes[x].children);
                    }
                    assert(t.graph.nodes[base].children == below.graph.nodes[base].children);
                    assert forall|x: Oid| #[trigger] waits(t.outstanding, x) implies waits(
                        s.outstanding,
                        x,
                    ) || g.reaches(id, x) by {
                        assert(waits(below.outstanding, x));
                    }
                    assert(grafted(s, t, base, id));
                },
                None => {
                    assert(t.graph == below.graph);
                    assert(t.outstanding == below.outstanding);
                    assert forall|x: Oid|
                        g.contains(x) && x != base && !g.reaches(id, x) && !waits(
                            s.outstanding,
                            x,
                        ) implies (#[trigger] t.graph.nodes[x]).children == g.nodes[x].children by {
                        assert(x != id);
                    }
                    assert(grafted(s, t, base, id));
                },
            }
        },
    }
}

/// One child further: once the first of the children that are still to
/// come is worked on, the same holds between the children with the others
/// still to come.
pub proof fn lemma_working_on(
    origin: Fixing,
    s: Fixing,
    node: Oid,
    rest: Seq<Oid>,
    squash: bool,
    depth: nat,
)
    requires
        grafting(origin.graph, origin.outstanding),
        origin.graph.contains(node),
        working(origin, s, node, rest),
        rest.len() > 0,
    ensures
        working(origin, fixed_node(s, node, rest[0], squash, depth), node, rest.drop_first()),
    decreases depth, 1nat, 0nat,
{
    let child = rest[0];
    let later = rest.drop_first();
    assert(s.graph.nodes[node].children.contains(rest[0]));
    assert(origin.graph.nodes[node].children.contains(rest[0]));
    lemma_fixed_node(s, node, child, squash, depth);
    let t = fixed_node(s, node, child, squash, depth);
    lemma_reaches_self(origin.graph, node);
    lemma_reaches_child(origin.graph, node, node, child);
    // the subtree of the child is as it was when the work began
    assert forall|x: Oid| #[trigger] s.graph.reaches(child, x) implies origin.graph.reaches(child, x) by {
        let at = choose|i: int|
            0 <= i < origin.graph.nodes[node].children.len() && origin.graph.nodes[node].children[i]
                == child;
        assert(origin.graph.contains(origin.graph.nodes[node].children[at]));
        assert forall|y: Oid|
            #[trigger] origin.graph.reaches(child, y) && origin.graph.contains(y) implies s.graph.nodes[y].children
            == origin.graph.nodes[y].children by {
            assert(origin.graph.reaches(rest[0], y));
        }
        lemma_same_subtree(origin.graph, s.graph, child, x);
    }
    assert(later.no_duplicates()) by {
        assert forall|i: int, j: int| 0 <= i < later.len() && 0 <= j < later.len() && i != j implies later[i]
            != later[j] by {
            assert(rest[i + 1] != rest[j + 1]);
        }
    }
    assert forall|i: int| 0 <= i < later.len() implies t.graph.nodes[node].children.contains(
        #[trigger] later[i],
    ) && origin.graph.nodes[node].children.contains(later[i]) by {
        assert(later[i] == rest[i + 1]);
        assert(rest[i + 1] != rest[0]);
        assert(s.graph.nodes[node].children.contains(rest[i + 1]));
    }
    assert forall|i: int, x: Oid|
        0 <= i < later.len() && #[trigger] origin.graph.reaches(later[i], x)
            && origin.graph.contains(x) implies t.graph.nodes[x].children
        == origin.graph.nodes[x].children && !waits(t.outstanding, x) by {
        let other = later[i];
        assert(other == rest[i + 1]);
        assert(rest[i + 1] != rest[0]);
        assert(origin.graph.reaches(rest[i + 1], x));
        assert(s.graph.nodes[x].children == origin.graph.nodes[x].children && !waits(
            s.outstanding,
            x,
        ));
        // the other child reaches it now as it did
        let at = choose|k: int|
            0 <= k < origin.graph.nodes[node].children.len() && origin.graph.nodes[node].children[k]
                == other;
        assert(origin.graph.contains(origin.graph.nodes[node].children[at]));
        assert forall|y: Oid|
            #[trigger] origin.graph.reaches(other, y) && origin.graph.contains(y) implies s.graph.nodes[y].children
            == origin.graph.nodes[y].children by {
            assert(origin.graph.reaches(rest[i + 1], y));
        }
        lemma_same_subtree(origin.graph, s.graph, other, x);
        assert(s.graph.nodes[node].children.contains(rest[i + 1]));
        lemma_subtrees_apart(s.graph, node, other, child, x);
        lemma_no_way_back(origin.graph, node, other);
        assert(x != node);
        assert(t.graph.nodes[x].children == s.graph.nodes[x].children);
    }
    assert forall|x: Oid|
        origin.graph.contains(x) && x != node && !origin.graph.reaches(node, x) && !waits(
            origin.outstanding,
            x,
        ) implies (#[trigger] t.graph.nodes[x]).children == origin.graph.nodes[x].children by {
        if s.graph.reaches(child, x) {
            assert(origin.graph.reaches(child, x));
            crate::graph::model::lemma_reaches_on(origin.graph, node, child, x);
        }
        assert(!waits(s.outstanding, x));
        assert(s.graph.nodes[x].children == origin.graph.nodes[x].children);
    }
    assert forall|x: Oid| #[trigger] waits(t.outstanding, x) implies waits(origin.outstanding, x)
        || origin.graph.reaches(node, x) by {
        if s.graph.reaches(child, x) {
            assert(origin.graph.reaches(child, x));
            crate::graph::model::lemma_reaches_on(origin.graph, node, child, x);
        }
    }
    assert forall|c: Oid| #[trigger] t.graph.nodes[node].children.contains(c) implies origin.graph.reaches(
        node,
        c,
    ) by {
        if s.graph.reaches(child, c) {
            assert(origin.graph.reaches(child, c));
            crate::graph::model::lemma_reaches_on(origin.graph, node, child, c);
        }
    }
}

/// The work on the children of a node that are still to come keeps what
/// holds between them.
pub proof fn lemma_fixed_below(
    origin: Fixing,
    s: Fixing,
    node: Oid,
    rest: Seq<Oid>,
    squash: bool,
    depth: nat,
)
    requires
        grafting(origin.graph, origin.outstanding),
        origin.graph.contains(node),
        working(origin, s, node, rest),
    ensures
        working(origin, fixed_below(s, node, rest, squash, depth), node, Seq::empty()),
    decreases depth, 1nat, rest.len(),
{
    if rest.len() > 0 {
        lemma_working_on(origin, s, node, rest, squash, depth);
        lemma_fixed_below(
            origin,
            fixed_node(s, node, rest[0], squash, depth),
            node,
            rest.drop_first(),
            squash,
            depth,
        );
    }
}

/// Putting the fixups that still wait between a node and a child of it,
/// entry by entry, leaves a tree, and the node keeps its other children.
pub proof fn lemma_orphaned(g: GraphView, entries: Entries, base: Oid, top: Oid)
    requires
        grafting(g, entries),
        g.contains(base),
        g.nodes[base].children.contains(top),
    ensures
        orphaned(g, base, top, values(entries)).tree(),
        orphaned(g, base, top, values(entries)).root_id == g.root_id,
        orphaned(g, base, top, values(entries)).nodes.dom() == g.nodes.dom(),
        forall|c: Oid|
            c != top && g.nodes[base].children.contains(c) ==> #[trigger] orphaned(
                g,
                base,
                top,
                values(entries),
            ).nodes[base].children.contains(c),
    decreases entries.len(),
{
    if entries.len() == 0 {
        assert(entries =~= Entries::empty());
        lemma_grafting_tree(g);
    } else {
        let ids = entries[0].1;
        let (put, above) = spliced_between(g, base, top, ids);
        lemma_between(g, entries, base, top);
        lemma_drop_first_waits(entries);
        assert(values(entries).drop_first() =~= values(entries.drop_first()));
        assert(values(entries)[0] == ids);
        lemma_orphaned(put, entries.drop_first(), base, above);
        let done = orphaned(g, base, top, values(entries));
        assert(done == orphaned(put, base, above, values(entries.drop_first())));
        assert forall|c: Oid| c != top && g.nodes[base].children.contains(c) implies #[trigger] done.nodes[base].children.contains(
            c,
        ) by {
            assert(put.nodes[base].children.contains(c));
            assert(c != above) by {
                assert(ids[ids.len() - 1] == above);
                assert(waits(entries, ids[ids.len() - 1]));
                assert(floating(g, above));
                assert(g.has_parent(c));
            }
        }
    }
}

/// The work on a stack that hangs on `base` makes a tree of a tree, and
/// `base` keeps its other children.
pub proof fn lemma_fixed_branch(g: GraphView, base: Oid, id: Oid, squash: bool, depth: nat)
    requires
        g.tree(),
        g.contains(base),
        g.nodes[base].children.contains(id),
    ensures
        fixed_branch(g, base, id, squash, depth).tree(),
        fixed_branch(g, base, id, squash, depth).root_id == g.root_id,
        fixed_branch(g, base, id, squash, depth).nodes.dom() == g.nodes.dom(),
        forall|c: Oid|
            c != id && g.nodes[base].children.contains(c) ==> #[trigger] fixed_branch(
                g,
                base,
                id,
                squash,
                depth,
            ).nodes[base].children.contains(c),
{
    let s = Fixing { graph: g, outstanding: Entries::empty() };
    lemma_grafting_tree(g);
    let at = choose|i: int| 0 <= i < g.nodes[base].children.len() && g.nodes[base].children[i] == id;
    assert(g.contains(g.nodes[base].children[at]));
    lemma_no_way_back(g, base, id);
    lemma_working_starts(s, id);
    lemma_fixed_below(s, s, id, g.nodes[id].children, squash, depth);
    let below = fixed_below(s, id, g.nodes[id].children, squash, depth);
    assert(working(s, below, id, Seq::empty()));
    assert(!waits(s.outstanding, base));
    assert(below.graph.nodes[base].children == g.nodes[base].children);
    assert(below.graph.has_parent(id));
    assert(!waits(below.outstanding, id));
    let after = fixed_branch(g, base, id, squash, depth);
    if below.outstanding.len() == 0 {
        assert(below.outstanding =~= Entries::empty());
        lemma_grafting_tree(below.graph);
    } else {
        let summary = below.graph.nodes[id].commit.summary;
        let rest = without_key(below.outstanding, summary);
        lemma_taken_waits(below.outstanding, summary);
        let own = match found(below.outstanding, summary) {
            Some(ids) => settled(below.graph, id, ids, squash),
            None => below.graph,
        };
        assert(!waits(below.outstanding, base)) by {
            if waits(below.outstanding, base) {
                assert(floating(below.graph, base));
            }
        }
        if found(below.outstanding, summary) is Some {
            lemma_settle(below.graph, below.outstanding, summary, id, squash);
            assert(own.nodes[base].children == below.graph.nodes[base].children);
        }
        assert(grafting(own, rest));
        assert(own.nodes[base].children.contains(id));
        lemma_orphaned(own, rest, base, id);
    }
}

/// The visits of some children of a node, in the pass that brings fixups
/// to their targets, make a tree of a tree.
pub proof fn lemma_fix_children(
    s: Sweep<()>,
    parent: Oid,
    children: Seq<Oid>,
    squash: bool,
    depth: nat,
)
    requires
        s.graph.tree(),
        s.graph.contains(parent),
        s.graph.contains_all(s.next),
        children.no_duplicates(),
        forall|i: int| 0 <= i < children.len() ==> s.graph.nodes[parent].children.contains(#[trigger] children[i]),
    ensures
        visit_children(fix_visitor(squash, depth), s, parent, children).graph.tree(),
        visit_children(fix_visitor(squash, depth), s, parent, children).graph.root_id
            == s.graph.root_id,
        visit_children(fix_visitor(squash, depth), s, parent, children).graph.nodes.dom()
            == s.graph.nodes.dom(),
        visit_children(fix_visitor(squash, depth), s, parent, children).graph.contains_all(
            visit_children(fix_visitor(squash, depth), s, parent, children).next,
        ),
    decreases children.len(),
{
    if children.len() > 0 {
        let child = children[0];
        let t = fix_visit(s, parent, child, squash, depth);
        assert(s.graph.nodes[parent].children.contains(children[0]));
        let at = choose|i: int|
            0 <= i < s.graph.nodes[parent].children.len() && s.graph.nodes[parent].children[i] == child;
        assert(s.graph.contains(s.graph.nodes[parent].children[at]));
        let action = s.graph.nodes[child].action;
        if !(action == Action::Protected || action == Action::Delete) {
            lemma_fixed_branch(s.graph, parent, child, squash, depth);
        }
        assert(t.graph.contains_all(t.next)) by {
            assert forall|i: int| 0 <= i < t.next.len() implies t.graph.contains(#[trigger] t.next[i]) by {
                if i < s.next.len() {
                    assert(s.graph.contains(s.next[i]));
                }
            }
        }
        let later = children.drop_first();
        assert(later.no_duplicates()) by {
            assert forall|i: int, j: int| 0 <= i < later.len() && 0 <= j < later.len() && i != j implies later[i]
                != later[j] by {
                assert(children[i + 1] != children[j + 1]);
            }
        }
        assert forall|i: int| 0 <= i < later.len() implies t.graph.nodes[parent].children.contains(
            #[trigger] later[i],
        ) by {
            assert(later[i] == children[i + 1]);
            assert(children[i + 1] != children[0]);
            assert(s.graph.nodes[parent].children.contains(children[i + 1]));
        }
        lemma_fix_children(t, parent, later, squash, depth);
    }
}

/// The visits of one level make a tree of a tree.
pub proof fn lemma_fix_level(s: Sweep<()>, level: Seq<Oid>, squash: bool, depth: nat)
    requires
        s.graph.tree(),
        s.graph.contains_all(level),
        s.graph.contains_all(s.next),
    ensures
        visit_level(fix_visitor(squash, depth), s, level).graph.tree(),
        visit_level(fix_visitor(squash, depth), s, level).graph.contains_all(
            visit_level(fix_visitor(squash, depth), s, level).next,
        ),
    decreases level.len(),
{
    if level.len() > 0 {
        let parent = level[0];
        assert(s.graph.contains(level[0]));
        let children = s.graph.children(parent);
        assert forall|i: int| 0 <= i < children.len() implies s.graph.nodes[parent].children.contains(
            #[trigger] children[i],
        ) by {}
        lemma_fix_children(s, parent, children, squash, depth);
        let t = visit_children(fix_visitor(squash, depth), s, parent, children);
        assert forall|i: int| 0 <= i < level.drop_first().len() implies t.graph.contains(
            #[trigger] level.drop_first()[i],
        ) by {
            assert(s.graph.contains(level[i + 1]));
        }
        lemma_fix_level(t, level.drop_first(), squash, depth);
    }
}

/// The levels of the walk make a tree of a tree.
pub proof fn lemma_fix_levels(s: Sweep<()>, left: nat, squash: bool, depth: nat)
    requires
        s.graph.tree(),
        s.graph.contains_all(s.next),
    ensures
        visit_levels(fix_visitor(squash, depth), s, left).graph.tree(),
    decreases left,
{
    if left > 0 && s.next.len() > 0 {
        let cleared = Sweep { next: Seq::empty(), ..s };
        assert(cleared.graph.contains_all(cleared.next));
        lemma_fix_level(cleared, s.next, squash, depth);
        lemma_fix_levels(
            visit_level(fix_visitor(squash, depth), cleared, s.next),
            (left - 1) as nat,
            squash,
            depth,
        );
    }
}

/// Bringing the fixups to their targets makes a tree of a tree: there is
/// still no cycle, still no node with two parents, and no node has come
/// loose.
pub proof fn lemma_fixed_tree(graph: GraphView, effect: Fixup)
    requires
        graph.tree(),
    ensures
        fixed(graph, effect).tree(),
{
    if effect != Fixup::Ignore {
        let start = Sweep { graph, acc: (), next: first_level(graph) };
        assert(graph.contains_all(start.next));
        lemma_fix_levels(start, graph.size(), effect == Fixup::Squash, graph.size());
    }
}

} // verus!
