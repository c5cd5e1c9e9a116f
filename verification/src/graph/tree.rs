//! Trees. A graph built node by node is a tree: it has no cycle, no node
//! has two parents, and every node but the root has one. The passes that
//! only change what is decided of the nodes keep it so.
use vstd::prelude::*;
use crate::git::oid::{lemma_with_ids, lemma_without_all, lemma_without_id, without_all, Oid};
use crate::graph::acyclic::lemma_trimmed_acyclic;
use crate::graph::model::{
    lemma_detach, lemma_kept, lemma_pick, lemma_reaches_child, lemma_reaches_self, pick, GraphView,
};
use crate::graph::node::NodeView;
use crate::graph::rebase::{lemma_rebase_node_acyclic, protected_above, rebase_node};

verus! {

impl GraphView {
    /// Whether no node has two parents.
    pub open spec fn forest(self) -> bool {
        forall|p: Oid, q: Oid, c: Oid|
            #![trigger self.nodes[p].children.contains(c), self.nodes[q].children.contains(c)]
            self.contains(p) && self.contains(q) && self.nodes[p].children.contains(c)
                && self.nodes[q].children.contains(c) ==> p == q
    }

    /// Whether `id` is the child of a node.
    pub open spec fn has_parent(self, id: Oid) -> bool {
        exists|p: Oid| self.contains(p) && #[trigger] self.nodes[p].children.contains(id)
    }

    /// Whether every node but the root is the child of a node.
    pub open spec fn rooted(self) -> bool {
        forall|id: Oid| self.contains(id) && id != self.root_id ==> #[trigger] self.has_parent(id)
    }

    /// Whether the graph is a tree: well formed, without a cycle, and every
    /// node but the root the child of exactly one node.
    pub open spec fn tree(self) -> bool {
        self.wf() && self.acyclic() && self.forest() && self.rooted()
    }

    /// The nodes that rank above `id`.
    pub open spec fn above_in(self, rank: Map<Oid, nat>, id: Oid) -> Set<Oid> {
        Set::new(|x: Oid| self.contains(x) && rank[x] > rank[id])
    }
}

/// A graph of one node without children is a tree.
pub proof fn lemma_single_tree(g: GraphView)
    requires
        g.wf(),
        g.acyclic(),
        g.nodes.dom() == Set::<Oid>::empty().insert(g.root_id),
        g.nodes[g.root_id].children.len() == 0,
    ensures
        g.tree(),
{
    assert forall|p: Oid, q: Oid, c: Oid|
        #![trigger g.nodes[p].children.contains(c), g.nodes[q].children.contains(c)]
        g.contains(p) && g.contains(q) && g.nodes[p].children.contains(c) && g.nodes[q].children.contains(
            c,
        ) implies p == q by {}
}

/// A new leaf keeps a tree a tree.
pub proof fn lemma_leaf_tree(g: GraphView, node: NodeView, parent: Oid)
    requires
        g.tree(),
        g.contains(parent),
        !g.contains(node.commit.id),
        node.children.len() == 0,
        g.with_node(node.commit.id, node).with_children(
            parent,
            g.nodes[parent].children.push(node.commit.id),
        ).wf(),
        g.with_node(node.commit.id, node).with_children(
            parent,
            g.nodes[parent].children.push(node.commit.id),
        ).acyclic(),
    ensures
        g.with_node(node.commit.id, node).with_children(
            parent,
            g.nodes[parent].children.push(node.commit.id),
        ).tree(),
{
    let id = node.commit.id;
    let kids = g.nodes[parent].children.push(id);
    let after = g.with_node(id, node).with_children(parent, kids);
    assert(after.nodes.dom() =~= g.nodes.dom().insert(id));
    assert forall|p: Oid, c: Oid| after.contains(p) && #[trigger] after.nodes[p].children.contains(c) implies (
    c == id && p == parent) || (g.contains(p) && g.nodes[p].children.contains(c) && c != id) by {
        if p == parent {
            let i = choose|i: int| 0 <= i < kids.len() && kids[i] == c;
            if i < kids.len() - 1 {
                assert(g.nodes[parent].children[i] == c);
                assert(g.contains(g.nodes[parent].children[i]));
            }
        } else if p != id {
            let i = choose|i: int| 0 <= i < g.nodes[p].children.len() && g.nodes[p].children[i] == c;
            assert(g.contains(g.nodes[p].children[i]));
        }
    }
    assert forall|p: Oid, q: Oid, c: Oid|
        #![trigger after.nodes[p].children.contains(c), after.nodes[q].children.contains(c)]
        after.contains(p) && after.contains(q) && after.nodes[p].children.contains(c)
            && after.nodes[q].children.contains(c) implies p == q by {}
    assert forall|x: Oid| after.contains(x) && x != after.root_id implies #[trigger] after.has_parent(
        x,
    ) by {
        if x == id {
            assert(kids[kids.len() - 1] == id);
            assert(after.nodes[parent].children.contains(id));
        } else {
            assert(g.has_parent(x));
            let p = choose|p: Oid| g.contains(p) && #[trigger] g.nodes[p].children.contains(x);
            if p == parent {
                let i = choose|i: int| 0 <= i < g.nodes[p].children.len() && g.nodes[p].children[i] == x;
                assert(kids[i] == x);
            }
            assert(after.nodes[p].children.contains(x));
        }
    }
}

/// Whether the two graphs hold the same nodes with the same children.
pub open spec fn same_links(before: GraphView, after: GraphView) -> bool {
    &&& before.root_id == after.root_id
    &&& before.nodes.dom() == after.nodes.dom()
    &&& forall|id: Oid| before.contains(id) ==> (#[trigger] before.nodes[id]).children == after.nodes[id].children
}

/// A graph with the nodes and the children of a tree is a tree, if it is
/// well formed.
pub proof fn lemma_same_links_tree(before: GraphView, after: GraphView)
    requires
        before.tree(),
        same_links(before, after),
        after.wf(),
    ensures
        after.tree(),
{
    let rank = choose|rank: Map<Oid, nat>| before.ranked_by(rank);
    assert forall|x: Oid, i: int|
        after.contains(x) && 0 <= i < after.nodes[x].children.len() implies rank[#[trigger] after.nodes[x].children[i]]
        < rank[x] by {
        assert(before.nodes[x].children == after.nodes[x].children);
        assert(rank[before.nodes[x].children[i]] < rank[x]);
    }
    assert(after.ranked_by(rank));
    assert forall|p: Oid, q: Oid, c: Oid|
        #![trigger after.nodes[p].children.contains(c), after.nodes[q].children.contains(c)]
        after.contains(p) && after.contains(q) && after.nodes[p].children.contains(c)
            && after.nodes[q].children.contains(c) implies p == q by {
        assert(before.nodes[p].children == after.nodes[p].children);
        assert(before.nodes[q].children == after.nodes[q].children);
        assert(before.nodes[p].children.contains(c) && before.nodes[q].children.contains(c));
    }
    assert forall|x: Oid| after.contains(x) && x != after.root_id implies #[trigger] after.has_parent(
        x,
    ) by {
        assert(before.has_parent(x));
        let p = choose|p: Oid| before.contains(p) && #[trigger] before.nodes[p].children.contains(x);
        assert(before.nodes[p].children == after.nodes[p].children);
        assert(after.nodes[p].children.contains(x));
    }
}

/// A graph with the shape of a tree is a tree, if it is well formed.
pub proof fn lemma_same_shape_tree(before: GraphView, after: GraphView)
    requires
        before.tree(),
        before.same_shape(after),
        after.wf(),
    ensures
        after.tree(),
{
    lemma_same_links_tree(before, after);
}

/// A tree with more branches marked as fit for pushing is a tree.
pub proof fn lemma_same_but_pushable_tree(before: GraphView, after: GraphView)
    requires
        before.tree(),
        before.same_but_pushable(after),
        after.wf(),
    ensures
        after.tree(),
{
    lemma_same_links_tree(before, after);
}

/// What is left of a tree when a subtree is taken out is a tree.
pub proof fn lemma_remaining_tree(g: GraphView, parent: Oid, child: Oid)
    requires
        g.tree(),
        g.contains(parent),
        g.nodes[parent].children.contains(child),
    ensures
        g.remaining(parent, child).tree(),
{
    let cut = g.cut(parent, child);
    let gone = cut.below(child);
    let left = g.remaining(parent, child);
    lemma_detach(g, parent, child);
    lemma_trimmed_acyclic(g, left);
    lemma_without_id(g.nodes[parent].children, child);
    assert(cut.nodes.dom() =~= g.nodes.dom());
    lemma_reaches_self(cut, child);
    assert forall|p: Oid, c: Oid| left.contains(p) && #[trigger] left.nodes[p].children.contains(c) implies g.nodes[p].children.contains(
        c,
    ) by {
        let i = choose|i: int| 0 <= i < left.nodes[p].children.len() && left.nodes[p].children[i] == c;
        assert(g.nodes[p].children.contains(left.nodes[p].children[i]));
    }
    assert forall|p: Oid, q: Oid, c: Oid|
        #![trigger left.nodes[p].children.contains(c), left.nodes[q].children.contains(c)]
        left.contains(p) && left.contains(q) && left.nodes[p].children.contains(c)
            && left.nodes[q].children.contains(c) implies p == q by {
        assert(g.nodes[p].children.contains(c) && g.nodes[q].children.contains(c));
    }
    assert forall|x: Oid| left.contains(x) && x != left.root_id implies #[trigger] left.has_parent(x) by {
        assert(g.has_parent(x));
        let p = choose|p: Oid| g.contains(p) && #[trigger] g.nodes[p].children.contains(x);
        assert(x != child) by {
            assert(gone.contains(child));
        }
        assert(cut.nodes[p].children.contains(x));
        if gone.contains(p) {
            lemma_reaches_child(cut, child, p, x);
        }
        assert(left.contains(p));
        lemma_kept(cut.nodes[p].children, gone);
        assert(left.nodes[p].children.contains(x));
    }
}

/// Where protection comes from above, moving the unprotected children of a
/// node of a tree to a protected node leaves a tree.
pub proof fn lemma_rebase_node_tree(g: GraphView, id: Oid, new_base: Oid)
    requires
        g.tree(),
        protected_above(g),
        g.contains(id),
        g.is_protected(new_base),
        rebase_node(g, id, new_base).wf(),
    ensures
        rebase_node(g, id, new_base).tree(),
        protected_above(rebase_node(g, id, new_base)),
{
    let kids = g.children(id);
    let moved = pick(g, kids, false);
    let after = rebase_node(g, id, new_base);
    lemma_rebase_node_acyclic(g, id, new_base);
    if moved.len() > 0 {
        let cut = g.with_children(id, without_all(kids, moved));
        lemma_pick(g, kids, false);
        lemma_without_all(kids, moved);
        lemma_with_ids(cut.nodes[new_base].children, moved);
        assert(after.nodes.dom() =~= g.nodes.dom());
        // an edge of the new graph is the edge from the new base to a node
        // that moved, or an edge of the old graph to a node that did not
        assert forall|p: Oid, c: Oid| after.contains(p) && #[trigger] after.nodes[p].children.contains(c) implies (
        p == new_base && moved.contains(c)) || (g.nodes[p].children.contains(c) && !moved.contains(
            c,
        )) by {
            if p == new_base {
                if !moved.contains(c) {
                    assert(cut.nodes[new_base].children.contains(c));
                }
            } else if p == id {
            } else {
                assert(after.nodes[p].children == g.nodes[p].children);
                if moved.contains(c) {
                    assert(kids.contains(c));
                    assert(g.nodes[id].children.contains(c) && g.nodes[p].children.contains(c));
                }
            }
        }
        assert forall|p: Oid, q: Oid, c: Oid|
            #![trigger after.nodes[p].children.contains(c), after.nodes[q].children.contains(c)]
            after.contains(p) && after.contains(q) && after.nodes[p].children.contains(c)
                && after.nodes[q].children.contains(c) implies p == q by {
            if !moved.contains(c) {
                assert(g.nodes[p].children.contains(c) && g.nodes[q].children.contains(c));
            }
        }
        assert forall|x: Oid| after.contains(x) && x != after.root_id implies #[trigger] after.has_parent(
            x,
        ) by {
            if moved.contains(x) {
                assert(after.nodes[new_base].children.contains(x));
            } else {
                assert(g.has_parent(x));
                let p = choose|p: Oid| g.contains(p) && #[trigger] g.nodes[p].children.contains(x);
                if p == new_base {
                    assert(cut.nodes[new_base].children.contains(x)) by {
                        if new_base == id {
                            assert(without_all(kids, moved).contains(x));
                        }
                    }
                    assert(after.nodes[new_base].children.contains(x));
                } else if p == id {
                    assert(without_all(kids, moved).contains(x));
                    assert(after.nodes[id].children.contains(x));
                } else {
                    assert(after.nodes[p].children == g.nodes[p].children);
                }
            }
        }
    }
}

/// In a tree the root reaches every node.
pub proof fn lemma_tree_connected(g: GraphView, id: Oid)
    requires
        g.tree(),
        g.contains(id),
    ensures
        g.reaches(g.root_id, id),
{
    let rank = choose|rank: Map<Oid, nat>| g.ranked_by(rank);
    lemma_connected_by_rank(g, rank, id);
}

proof fn lemma_connected_by_rank(g: GraphView, rank: Map<Oid, nat>, id: Oid)
    requires
        g.tree(),
        g.ranked_by(rank),
        g.contains(id),
    ensures
        g.reaches(g.root_id, id),
    decreases g.above_in(rank, id).len(),
{
    if id == g.root_id {
        lemma_reaches_self(g, id);
    } else {
        assert(g.has_parent(id));
        let p = choose|p: Oid| g.contains(p) && #[trigger] g.nodes[p].children.contains(id);
        let i = choose|i: int| 0 <= i < g.nodes[p].children.len() && g.nodes[p].children[i] == id;
        assert(rank[g.nodes[p].children[i]] < rank[p]);
        let mine = g.above_in(rank, id);
        let theirs = g.above_in(rank, p);
        assert(mine.subset_of(g.nodes.dom()));
        vstd::set_lib::lemma_len_subset(mine, g.nodes.dom());
        assert(theirs.subset_of(mine.remove(p)));
        assert(mine.contains(p));
        vstd::set_lib::lemma_len_subset(theirs, mine.remove(p));
        lemma_connected_by_rank(g, rank, p);
        lemma_reaches_child(g, g.root_id, p, id);
    }
}

} // verus!
