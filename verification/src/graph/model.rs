//! The graph as a mathematical value: a map from ids to nodes and a root.
use vstd::prelude::*;
use crate::git::branch::BranchView;
use crate::git::oid::{lemma_without_id, without_id, Oid};
use crate::graph::node::{Action, NodeView};

verus! {

/// A graph as a value: its nodes by the id of their commit, and which of
/// them is the root.
pub struct GraphView {
    pub root_id: Oid,
    pub nodes: Map<Oid, NodeView>,
}

impl GraphView {
    /// Whether the graph holds a node of the commit `id`.
    pub open spec fn contains(self, id: Oid) -> bool {
        self.nodes.dom().contains(id)
    }

    /// The node of the commit `id`.
    pub open spec fn node(self, id: Oid) -> NodeView {
        self.nodes[id]
    }

    /// The ids that follow `id`; none where the graph does not hold `id`.
    pub open spec fn children(self, id: Oid) -> Seq<Oid> {
        if self.contains(id) {
            self.nodes[id].children
        } else {
            Seq::empty()
        }
    }

    /// What is decided of the node `id`.
    pub open spec fn action(self, id: Oid) -> Action {
        self.nodes[id].action
    }

    /// Whether the graph holds the node `id` and protects it.
    pub open spec fn is_protected(self, id: Oid) -> bool {
        self.contains(id) && self.nodes[id].action == Action::Protected
    }

    /// How many nodes the graph holds.
    pub open spec fn size(self) -> nat {
        self.nodes.dom().len()
    }

    /// Every id that a node names as a child is a node of the graph.
    pub open spec fn closed(self) -> bool {
        forall|id: Oid, i: int|
            self.contains(id) && 0 <= i < self.nodes[id].children.len() ==> self.contains(
                #[trigger] self.nodes[id].children[i],
            )
    }

    /// No node names the root as a child.
    pub open spec fn root_is_base(self) -> bool {
        forall|id: Oid, i: int|
            self.contains(id) && 0 <= i < self.nodes[id].children.len()
                ==> #[trigger] self.nodes[id].children[i] != self.root_id
    }

    /// What a walk needs: the graph is finite, holds its root, keys each node
    /// by its commit's id, names no child twice under one node, and names only
    /// its own nodes as children.
    pub open spec fn sound(self) -> bool {
        &&& self.nodes.dom().finite()
        &&& self.contains(self.root_id)
        &&& forall|id: Oid| self.contains(id) ==> (#[trigger] self.nodes[id]).commit.id == id
        &&& forall|id: Oid| self.contains(id) ==> (#[trigger] self.nodes[id]).children.no_duplicates()
        &&& self.closed()
    }

    /// What the passes keep: the graph is sound and its root is the base of
    /// all, the child of no node.
    pub open spec fn wf(self) -> bool {
        self.sound() && self.root_is_base()
    }

    /// Whether `path` leads from node to child.
    pub open spec fn is_path(self, path: Seq<Oid>) -> bool {
        &&& path.len() > 0
        &&& forall|i: int|
            0 <= i < path.len() - 1 ==> self.contains(#[trigger] path[i])
                && self.nodes[path[i]].children.contains(path[i + 1])
    }

    /// Whether a path leads from `from` to `to`. Every id reaches itself.
    pub open spec fn reaches(self, from: Oid, to: Oid) -> bool {
        exists|path: Seq<Oid>| #[trigger] self.is_path(path) && path[0] == from && path.last() == to
    }

    /// The nodes that `id` reaches.
    pub open spec fn below(self, id: Oid) -> Set<Oid> {
        Set::new(|x: Oid| self.contains(x) && self.reaches(id, x))
    }

    /// The graph without the edge from `parent` to `child`.
    pub open spec fn cut(self, parent: Oid, child: Oid) -> GraphView {
        self.with_children(parent, without_id(self.nodes[parent].children, child))
    }

    /// What leaves the graph when the edge from `parent` to `child` is cut and
    /// the subtree of `child` taken out: the nodes that `child` then reaches,
    /// as they are, with `child` as root.
    pub open spec fn detached(self, parent: Oid, child: Oid) -> GraphView {
        let g = self.cut(parent, child);
        GraphView { root_id: child, nodes: g.nodes.restrict(g.below(child)) }
    }

    /// What is left of the graph then: the other nodes, each without the
    /// children that left.
    pub open spec fn remaining(self, parent: Oid, child: Oid) -> GraphView {
        let g = self.cut(parent, child);
        let gone = g.below(child);
        GraphView {
            root_id: self.root_id,
            nodes: Map::new(
                |x: Oid| g.contains(x) && !gone.contains(x),
                |x: Oid| NodeView { children: kept(g.nodes[x].children, gone), ..g.nodes[x] },
            ),
        }
    }

    /// Whether `other` holds some of the nodes of `self` and nothing else,
    /// each with the commit, branches, action and push mark it has in `self`
    /// and with some of its children.
    pub open spec fn trimmed_to(self, other: GraphView) -> bool {
        &&& self.root_id == other.root_id
        &&& other.nodes.dom().subset_of(self.nodes.dom())
        &&& forall|id: Oid|
            other.contains(id) ==> {
                &&& (#[trigger] other.nodes[id]).commit == self.nodes[id].commit
                &&& other.nodes[id].branches == self.nodes[id].branches
                &&& other.nodes[id].action == self.nodes[id].action
                &&& other.nodes[id].pushable == self.nodes[id].pushable
                &&& forall|i: int|
                    0 <= i < other.nodes[id].children.len() ==> self.nodes[id].children.contains(
                        #[trigger] other.nodes[id].children[i],
                    )
            }
    }

    /// The graph with `node` as the node of `id`.
    pub open spec fn with_node(self, id: Oid, node: NodeView) -> GraphView {
        GraphView { nodes: self.nodes.insert(id, node), ..self }
    }

    /// The graph with `action` decided of the node `id`.
    pub open spec fn with_action(self, id: Oid, action: Action) -> GraphView {
        self.with_node(id, NodeView { action, ..self.nodes[id] })
    }

    /// The graph with the push mark of the node `id` set to `pushable`.
    pub open spec fn with_pushable(self, id: Oid, pushable: bool) -> GraphView {
        self.with_node(id, NodeView { pushable, ..self.nodes[id] })
    }

    /// The graph with `children` as the children of the node `id`.
    pub open spec fn with_children(self, id: Oid, children: Seq<Oid>) -> GraphView {
        self.with_node(id, NodeView { children, ..self.nodes[id] })
    }

    /// The graph with `branches` as the branches at the node `id`.
    pub open spec fn with_branches(self, id: Oid, branches: Seq<BranchView>) -> GraphView {
        self.with_node(id, NodeView { branches, ..self.nodes[id] })
    }

    /// Whether each id of `ids` is a node of the graph.
    pub open spec fn contains_all(self, ids: Seq<Oid>) -> bool {
        forall|i: int| 0 <= i < ids.len() ==> self.contains(#[trigger] ids[i])
    }

    /// Whether the two graphs hold the same nodes with the same commits,
    /// branches, children and push marks: they differ at most in the actions.
    pub open spec fn same_shape(self, other: GraphView) -> bool {
        &&& self.root_id == other.root_id
        &&& self.nodes.dom() == other.nodes.dom()
        &&& forall|id: Oid|
            self.contains(id) ==> {
                &&& (#[trigger] self.nodes[id]).commit == other.nodes[id].commit
                &&& self.nodes[id].branches == other.nodes[id].branches
                &&& self.nodes[id].children == other.nodes[id].children
                &&& self.nodes[id].pushable == other.nodes[id].pushable
            }
    }

    /// Whether `other` decides of each node what `self` does, or protects it.
    pub open spec fn only_protected_by(self, other: GraphView) -> bool {
        forall|id: Oid|
            self.contains(id) ==> (#[trigger] other.nodes[id]).action == self.nodes[id].action
                || other.nodes[id].action == Action::Protected
    }

    /// Whether the two graphs hold the same nodes with the same commits,
    /// branches, actions and push marks: they differ at most in the children.
    pub open spec fn same_but_children(self, other: GraphView) -> bool {
        &&& self.root_id == other.root_id
        &&& self.nodes.dom() == other.nodes.dom()
        &&& forall|id: Oid|
            self.contains(id) ==> {
                &&& (#[trigger] self.nodes[id]).commit == other.nodes[id].commit
                &&& self.nodes[id].branches == other.nodes[id].branches
                &&& self.nodes[id].action == other.nodes[id].action
                &&& self.nodes[id].pushable == other.nodes[id].pushable
            }
    }

    /// Whether the two graphs hold the same nodes with the same commits,
    /// branches, children and actions, and `other` marks as fit for pushing
    /// what `self` does, and maybe more.
    pub open spec fn same_but_pushable(self, other: GraphView) -> bool {
        &&& self.root_id == other.root_id
        &&& self.nodes.dom() == other.nodes.dom()
        &&& forall|id: Oid|
            self.contains(id) ==> {
                &&& (#[trigger] self.nodes[id]).commit == other.nodes[id].commit
                &&& self.nodes[id].branches == other.nodes[id].branches
                &&& self.nodes[id].children == other.nodes[id].children
                &&& self.nodes[id].action == other.nodes[id].action
                &&& self.nodes[id].pushable ==> other.nodes[id].pushable
            }
    }

    /// Whether the two graphs hold the same nodes with the same commits and
    /// push marks: they differ at most in children, branches and actions.
    pub open spec fn same_commits(self, other: GraphView) -> bool {
        &&& self.root_id == other.root_id
        &&& self.nodes.dom() == other.nodes.dom()
        &&& forall|id: Oid|
            self.contains(id) ==> {
                &&& (#[trigger] self.nodes[id]).commit == other.nodes[id].commit
                &&& self.nodes[id].pushable == other.nodes[id].pushable
            }
    }

    /// Whether `other` decides of each node what `self` does.
    pub open spec fn same_actions(self, other: GraphView) -> bool {
        forall|id: Oid| self.contains(id) ==> (#[trigger] other.nodes[id]).action == self.nodes[id].action
    }

    /// Whether `other` decides of each node what `self` does, or, where
    /// `squash` holds and the node's commit is a fixup that was to be picked,
    /// that it is squashed.
    pub open spec fn only_squashed_by(self, other: GraphView, squash: bool) -> bool {
        forall|id: Oid|
            self.contains(id) ==> (#[trigger] other.nodes[id]).action == self.nodes[id].action || (
            squash && self.nodes[id].action == Action::Pick && other.nodes[id].action
                == Action::Squash && self.nodes[id].commit.is_fixup())
    }

    /// Whether every child of `id` is protected.
    pub open spec fn children_protected(self, id: Oid) -> bool {
        forall|i: int|
            0 <= i < self.children(id).len() ==> self.is_protected(#[trigger] self.children(id)[i])
    }

    /// Whether `other` decides of each node what `self` does, or deletes it.
    pub open spec fn only_deleted_by(self, other: GraphView) -> bool {
        forall|id: Oid|
            self.contains(id) ==> (#[trigger] other.nodes[id]).action == self.nodes[id].action
                || other.nodes[id].action == Action::Delete
    }

    /// Whether every node that is protected in `self` is protected in `other`.
    pub open spec fn protection_kept_by(self, other: GraphView) -> bool {
        forall|id: Oid| #[trigger] self.is_protected(id) && other.contains(id) ==> other.is_protected(id)
    }
}

/// Those of `ids`, in order, that are not in `gone`.
pub open spec fn kept(ids: Seq<Oid>, gone: Set<Oid>) -> Seq<Oid>
    decreases ids.len(),
{
    if ids.len() == 0 {
        ids
    } else if gone.contains(ids.last()) {
        kept(ids.drop_last(), gone)
    } else {
        kept(ids.drop_last(), gone).push(ids.last())
    }
}

/// `kept` keeps exactly the ids that are not gone, none of them twice if
/// none was there twice.
pub proof fn lemma_kept(ids: Seq<Oid>, gone: Set<Oid>)
    ensures
        forall|x: Oid|
            #![trigger kept(ids, gone).contains(x)]
            kept(ids, gone).contains(x) <==> (ids.contains(x) && !gone.contains(x)),
        ids.no_duplicates() ==> kept(ids, gone).no_duplicates(),
    decreases ids.len(),
{
    if ids.len() > 0 {
        let rest = ids.drop_last();
        let last = ids.last();
        let sub = kept(rest, gone);
        let out = kept(ids, gone);
        lemma_kept(rest, gone);
        assert(ids[ids.len() - 1] == last);
        assert forall|x: Oid| ids.contains(x) <==> (rest.contains(x) || x == last) by {
            if ids.contains(x) {
                let j = choose|j: int| 0 <= j < ids.len() && ids[j] == x;
                if j < rest.len() {
                    assert(rest[j] == x);
                }
            }
            if rest.contains(x) {
                let j = choose|j: int| 0 <= j < rest.len() && rest[j] == x;
                assert(ids[j] == x);
            }
        }
        assert forall|x: Oid|
            #![trigger out.contains(x)]
            out.contains(x) <==> (ids.contains(x) && !gone.contains(x)) by {
            assert(sub.contains(x) <==> (rest.contains(x) && !gone.contains(x)));
            if !gone.contains(last) {
                assert(out[sub.len() as int] == last);
                if sub.contains(x) {
                    let j = choose|j: int| 0 <= j < sub.len() && sub[j] == x;
                    assert(out[j] == x);
                }
                if out.contains(x) {
                    let j = choose|j: int| 0 <= j < out.len() && out[j] == x;
                    if j < sub.len() {
                        assert(sub[j] == x);
                    }
                }
            }
        }
        if ids.no_duplicates() {
            assert(rest.no_duplicates()) by {
                assert forall|i: int, j: int| 0 <= i < rest.len() && 0 <= j < rest.len() && i != j implies rest[i] != rest[j] by {
                    assert(ids[i] != ids[j]);
                }
            }
            if rest.contains(last) {
                let j = choose|j: int| 0 <= j < rest.len() && rest[j] == last;
                assert(ids[j] == ids[ids.len() - 1]);
            }
            assert(!sub.contains(last));
        }
    }
}

/// Every node reaches itself.
pub proof fn lemma_reaches_self(g: GraphView, id: Oid)
    ensures
        g.reaches(id, id),
{
    let path = seq![id];
    assert(g.is_path(path));
    assert(path[0] == id && path.last() == id);
}

/// What a node reaches, reaches its children too.
pub proof fn lemma_reaches_child(g: GraphView, from: Oid, node: Oid, child: Oid)
    requires
        g.reaches(from, node),
        g.contains(node),
        g.nodes[node].children.contains(child),
    ensures
        g.reaches(from, child),
{
    let path = choose|path: Seq<Oid>| #[trigger] g.is_path(path) && path[0] == from && path.last() == node;
    let longer = path.push(child);
    assert forall|i: int| 0 <= i < longer.len() - 1 implies g.contains(#[trigger] longer[i])
        && g.nodes[longer[i]].children.contains(longer[i + 1]) by {
        if i < path.len() - 1 {
            assert(g.contains(path[i]));
            assert(longer[i + 1] == path[i + 1]);
        }
    }
    assert(g.is_path(longer));
    assert(longer[0] == from && longer.last() == child);
}

/// The part of a path from its `i`th node on is a path, and so is the part
/// up to that node.
pub proof fn lemma_subpath(g: GraphView, path: Seq<Oid>, i: int)
    requires
        g.is_path(path),
        0 <= i < path.len(),
    ensures
        g.is_path(path.skip(i)),
        g.is_path(path.take(i + 1)),
        g.reaches(path[0], path[i]),
        g.reaches(path[i], path.last()),
{
    let tail = path.skip(i);
    let head = path.take(i + 1);
    assert forall|k: int| 0 <= k < tail.len() - 1 implies g.contains(#[trigger] tail[k])
        && g.nodes[tail[k]].children.contains(tail[k + 1]) by {
        assert(g.contains(path[i + k]));
        assert(tail[k + 1] == path[i + k + 1]);
    }
    assert forall|k: int| 0 <= k < head.len() - 1 implies g.contains(#[trigger] head[k])
        && g.nodes[head[k]].children.contains(head[k + 1]) by {
        assert(g.contains(path[k]));
        assert(head[k + 1] == path[k + 1]);
    }
    assert(g.is_path(tail));
    assert(g.is_path(head));
    assert(head[0] == path[0] && head.last() == path[i]);
    assert(tail[0] == path[i] && tail.last() == path.last());
}

/// What is reached from what a node reaches, the node reaches.
pub proof fn lemma_reaches_on(g: GraphView, a: Oid, b: Oid, c: Oid)
    requires
        g.reaches(a, b),
        g.reaches(b, c),
    ensures
        g.reaches(a, c),
{
    let one = choose|path: Seq<Oid>| #[trigger] g.is_path(path) && path[0] == a && path.last() == b;
    let two = choose|path: Seq<Oid>| #[trigger] g.is_path(path) && path[0] == b && path.last() == c;
    let all = one.drop_last() + two;
    assert forall|k: int| 0 <= k < all.len() - 1 implies g.contains(#[trigger] all[k])
        && g.nodes[all[k]].children.contains(all[k + 1]) by {
        if k < one.len() - 1 {
            assert(g.contains(one[k]));
            assert(all[k] == one[k]);
            if k + 1 < one.len() - 1 {
                assert(all[k + 1] == one[k + 1]);
            } else {
                assert(all[k + 1] == two[0]);
                assert(one[k + 1] == b);
            }
        } else {
            let j = k - (one.len() - 1);
            assert(all[k] == two[j]);
            assert(all[k + 1] == two[j + 1]);
            assert(g.contains(two[j]));
        }
    }
    assert(g.is_path(all));
    assert(all[0] == a) by {
        if one.len() == 1 {
            assert(all[0] == two[0]);
        } else {
            assert(all[0] == one[0]);
        }
    }
    assert(all.last() == c) by {
        assert(all[all.len() - 1] == two[two.len() - 1]);
    }
}

/// A set that holds the node at the start of a path and, with each node of
/// the graph, that node's children, holds every node on the path.
pub proof fn lemma_path_stays(g: GraphView, path: Seq<Oid>, set: Set<Oid>, i: int)
    requires
        g.is_path(path),
        set.contains(path[0]),
        forall|x: Oid, k: int|
            set.contains(x) && g.contains(x) && 0 <= k < g.nodes[x].children.len() ==> set.contains(
                #[trigger] g.nodes[x].children[k],
            ),
        0 <= i < path.len(),
    ensures
        set.contains(path[i]),
    decreases i,
{
    if i > 0 {
        lemma_path_stays(g, path, set, i - 1);
        let x = path[i - 1];
        assert(g.contains(x) && g.nodes[x].children.contains(path[i - 1 + 1]));
        let k = choose|k: int| 0 <= k < g.nodes[x].children.len() && g.nodes[x].children[k] == path[i];
        assert(set.contains(g.nodes[x].children[k]));
    }
}

/// No node but the root itself reaches the root.
pub proof fn lemma_root_unreached(g: GraphView, from: Oid)
    requires
        g.wf(),
        from != g.root_id,
    ensures
        !g.reaches(from, g.root_id),
{
    if g.reaches(from, g.root_id) {
        let path = choose|path: Seq<Oid>| #[trigger] g.is_path(path) && path[0] == from && path.last() == g.root_id;
        let n = path.len() as int;
        assert(n > 1);
        let x = path[n - 2];
        assert(g.contains(x) && g.nodes[x].children.contains(path[n - 2 + 1]));
        let k = choose|k: int| 0 <= k < g.nodes[x].children.len() && g.nodes[x].children[k] == g.root_id;
        assert(g.nodes[x].children[k] != g.root_id);
    }
}

/// Cutting an edge and taking out the subtree below it leaves a well-formed
/// graph that is a part of the old one, and takes out a sound one.
pub proof fn lemma_detach(g0: GraphView, parent: Oid, child: Oid)
    requires
        g0.wf(),
        g0.contains(parent),
        g0.nodes[parent].children.contains(child),
    ensures
        g0.remaining(parent, child).wf(),
        g0.detached(parent, child).sound(),
        g0.trimmed_to(g0.remaining(parent, child)),
{
    let kids0 = g0.nodes[parent].children;
    let g = g0.cut(parent, child);
    let gone = g.below(child);
    let left = g0.remaining(parent, child);
    let sub = g0.detached(parent, child);
    lemma_without_id(kids0, child);
    let at = choose|j: int| 0 <= j < kids0.len() && kids0[j] == child;
    assert(g0.contains(kids0[at]));
    assert(kids0[at] != g0.root_id);
    assert forall|i: int| 0 <= i < without_id(kids0, child).len() implies g0.contains(
        #[trigger] without_id(kids0, child)[i],
    ) && without_id(kids0, child)[i] != g0.root_id by {
        let c = without_id(kids0, child)[i];
        assert(without_id(kids0, child).contains(c));
        let j = choose|j: int| 0 <= j < kids0.len() && kids0[j] == c;
        assert(g0.contains(kids0[j]));
    }
    lemma_with_children(g0, parent, without_id(kids0, child));
    assert(g.nodes.dom() =~= g0.nodes.dom());
    lemma_reaches_self(g, child);
    lemma_root_unreached(g, child);
    vstd::set_lib::lemma_len_subset(left.nodes.dom(), g.nodes.dom());
    vstd::set_lib::lemma_len_subset(sub.nodes.dom(), g.nodes.dom());
    assert forall|x: Oid| left.contains(x) implies (#[trigger] left.nodes[x]).children.no_duplicates() by {
        lemma_kept(g.nodes[x].children, gone);
    }
    assert forall|x: Oid, k: int|
        left.contains(x) && 0 <= k < left.nodes[x].children.len() implies left.contains(
            #[trigger] left.nodes[x].children[k],
        ) && left.nodes[x].children[k] != left.root_id by {
        let c = left.nodes[x].children[k];
        lemma_kept(g.nodes[x].children, gone);
        assert(kept(g.nodes[x].children, gone).contains(c));
        let j = choose|j: int| 0 <= j < g.nodes[x].children.len() && g.nodes[x].children[j] == c;
        assert(g.contains(g.nodes[x].children[j]));
        assert(g.nodes[x].children[j] != g.root_id);
    }
    assert forall|x: Oid, k: int|
        sub.contains(x) && 0 <= k < sub.nodes[x].children.len() implies sub.contains(
            #[trigger] sub.nodes[x].children[k],
        ) by {
        let c = g.nodes[x].children[k];
        assert(g.contains(c));
        assert(g.nodes[x].children.contains(c));
        lemma_reaches_child(g, child, x, c);
    }
    assert forall|x: Oid| left.contains(x) implies forall|k: int|
        0 <= k < (#[trigger] left.nodes[x]).children.len() ==> g0.nodes[x].children.contains(
            #[trigger] left.nodes[x].children[k],
        ) by {
        lemma_kept(g.nodes[x].children, gone);
        assert forall|k: int| 0 <= k < left.nodes[x].children.len() implies g0.nodes[x].children.contains(
            #[trigger] left.nodes[x].children[k],
        ) by {
            assert(kept(g.nodes[x].children, gone).contains(left.nodes[x].children[k]));
        }
    }
}

/// A part of a part is a part.
pub proof fn lemma_trimmed_twice(a: GraphView, b: GraphView, c: GraphView)
    requires
        a.trimmed_to(b),
        b.trimmed_to(c),
    ensures
        a.trimmed_to(c),
{
    assert forall|id: Oid| c.contains(id) implies {
        &&& (#[trigger] c.nodes[id]).commit == a.nodes[id].commit
        &&& c.nodes[id].branches == a.nodes[id].branches
        &&& c.nodes[id].action == a.nodes[id].action
        &&& c.nodes[id].pushable == a.nodes[id].pushable
        &&& forall|i: int|
            0 <= i < c.nodes[id].children.len() ==> a.nodes[id].children.contains(
                #[trigger] c.nodes[id].children[i],
            )
    } by {
        assert(b.contains(id));
        assert(b.nodes[id].commit == a.nodes[id].commit);
        assert forall|i: int| 0 <= i < c.nodes[id].children.len() implies a.nodes[id].children.contains(
            #[trigger] c.nodes[id].children[i],
        ) by {
            let x = c.nodes[id].children[i];
            assert(b.nodes[id].children.contains(x));
            let j = choose|j: int| 0 <= j < b.nodes[id].children.len() && b.nodes[id].children[j] == x;
            assert(a.nodes[id].children.contains(b.nodes[id].children[j]));
        }
    }
}

/// A node replaced by one of the same commit and push mark leaves every
/// other node as it is.
pub proof fn lemma_with_node_frame(g: GraphView, id: Oid, node: NodeView)
    requires
        g.contains(id),
        node.commit == g.nodes[id].commit,
        node.pushable == g.nodes[id].pushable,
    ensures
        g.same_commits(g.with_node(id, node)),
        g.with_node(id, node).nodes.dom() == g.nodes.dom(),
        node.action == g.nodes[id].action ==> g.same_actions(g.with_node(id, node)),
{
    assert(g.with_node(id, node).nodes.dom() =~= g.nodes.dom());
}

/// Those of `ids`, in order, that are protected in `graph`, or, with
/// `protected` false, those that are not.
pub open spec fn pick(graph: GraphView, ids: Seq<Oid>, protected: bool) -> Seq<Oid>
    decreases ids.len(),
{
    if ids.len() == 0 {
        ids
    } else {
        let before = pick(graph, ids.drop_last(), protected);
        if (graph.nodes[ids.last()].action == Action::Protected) == protected {
            before.push(ids.last())
        } else {
            before
        }
    }
}

/// `pick` picks exactly the ids that are as asked.
pub proof fn lemma_pick(graph: GraphView, ids: Seq<Oid>, protected: bool)
    ensures
        forall|x: Oid|
            #![trigger pick(graph, ids, protected).contains(x)]
            pick(graph, ids, protected).contains(x) <==> (ids.contains(x) && (graph.nodes[x].action
                == Action::Protected) == protected),
    decreases ids.len(),
{
    if ids.len() > 0 {
        let rest = ids.drop_last();
        let last = ids.last();
        let sub = pick(graph, rest, protected);
        let out = pick(graph, ids, protected);
        lemma_pick(graph, rest, protected);
        assert(ids[ids.len() - 1] == last);
        assert forall|x: Oid|
            #![trigger out.contains(x)]
            out.contains(x) <==> (ids.contains(x) && (graph.nodes[x].action == Action::Protected)
                == protected) by {
            if ids.contains(x) {
                let j = choose|j: int| 0 <= j < ids.len() && ids[j] == x;
                if j < rest.len() {
                    assert(rest[j] == x);
                }
            }
            if rest.contains(x) {
                let j = choose|j: int| 0 <= j < rest.len() && rest[j] == x;
                assert(ids[j] == x);
            }
            if sub.contains(x) {
                let j = choose|j: int| 0 <= j < sub.len() && sub[j] == x;
                assert(out[j] == x);
            }
            if out.contains(x) {
                let j = choose|j: int| 0 <= j < out.len() && out[j] == x;
                if j < sub.len() {
                    assert(sub[j] == x);
                }
            }
            if (graph.nodes[last].action == Action::Protected) == protected {
                assert(out[sub.len() as int] == last);
            }
        }
    }
}

/// A change of what is decided of one node keeps a graph well formed and its
/// shape.
pub proof fn lemma_with_action(g: GraphView, id: Oid, action: Action)
    requires
        g.wf(),
        g.contains(id),
    ensures
        g.with_action(id, action).wf(),
        g.same_shape(g.with_action(id, action)),
        g.with_action(id, action).same_shape(g),
        g.with_action(id, action).size() == g.size(),
{
    let h = g.with_action(id, action);
    assert(h.nodes.dom() =~= g.nodes.dom());
    assert forall|x: Oid, i: int| h.contains(x) && 0 <= i < h.nodes[x].children.len() implies h.contains(
        #[trigger] h.nodes[x].children[i],
    ) && h.nodes[x].children[i] != h.root_id by {
        assert(h.nodes[x].children == g.nodes[x].children);
        assert(g.contains(g.nodes[x].children[i]));
    }
}

/// As `lemma_with_action`, of a graph that is sound.
pub proof fn lemma_with_action_sound(g: GraphView, id: Oid, action: Action)
    requires
        g.sound(),
        g.contains(id),
    ensures
        g.with_action(id, action).sound(),
        g.same_shape(g.with_action(id, action)),
        g.with_action(id, action).size() == g.size(),
{
    let h = g.with_action(id, action);
    assert(h.nodes.dom() =~= g.nodes.dom());
    assert forall|x: Oid, i: int| h.contains(x) && 0 <= i < h.nodes[x].children.len() implies h.contains(
        #[trigger] h.nodes[x].children[i],
    ) by {
        assert(h.nodes[x].children == g.nodes[x].children);
        assert(g.contains(g.nodes[x].children[i]));
    }
}

/// As `lemma_with_action`, for the mark that a node's branch may be pushed.
pub proof fn lemma_with_pushable(g: GraphView, id: Oid, pushable: bool)
    requires
        g.wf(),
        g.contains(id),
    ensures
        g.with_pushable(id, pushable).wf(),
        g.with_pushable(id, pushable).size() == g.size(),
        pushable ==> g.same_but_pushable(g.with_pushable(id, pushable)),
{
    let h = g.with_pushable(id, pushable);
    assert(h.nodes.dom() =~= g.nodes.dom());
    assert forall|x: Oid, i: int| h.contains(x) && 0 <= i < h.nodes[x].children.len() implies h.contains(
        #[trigger] h.nodes[x].children[i],
    ) && h.nodes[x].children[i] != h.root_id by {
        assert(h.nodes[x].children == g.nodes[x].children);
        assert(g.contains(g.nodes[x].children[i]));
    }
}

/// As `lemma_with_action`, for the branches at a node.
pub proof fn lemma_with_branches(g: GraphView, id: Oid, branches: Seq<BranchView>)
    requires
        g.wf(),
        g.contains(id),
    ensures
        g.with_branches(id, branches).wf(),
        g.with_branches(id, branches).size() == g.size(),
{
    let h = g.with_branches(id, branches);
    assert(h.nodes.dom() =~= g.nodes.dom());
    assert forall|x: Oid, i: int| h.contains(x) && 0 <= i < h.nodes[x].children.len() implies h.contains(
        #[trigger] h.nodes[x].children[i],
    ) && h.nodes[x].children[i] != h.root_id by {
        assert(h.nodes[x].children == g.nodes[x].children);
        assert(g.contains(g.nodes[x].children[i]));
    }
}

/// New children for a node keep a graph well formed where they are nodes of
/// the graph, none of them the root, none named twice.
pub proof fn lemma_with_children(g: GraphView, id: Oid, children: Seq<Oid>)
    requires
        g.wf(),
        g.contains(id),
        children.no_duplicates(),
        g.contains_all(children),
        forall|i: int| 0 <= i < children.len() ==> children[i] != g.root_id,
    ensures
        g.with_children(id, children).wf(),
        g.with_children(id, children).size() == g.size(),
{
    let h = g.with_children(id, children);
    assert(h.nodes.dom() =~= g.nodes.dom());
    assert forall|x: Oid, i: int| h.contains(x) && 0 <= i < h.nodes[x].children.len() implies h.contains(
        #[trigger] h.nodes[x].children[i],
    ) && h.nodes[x].children[i] != h.root_id by {
        if x == id {
            assert(g.contains(children[i]));
        } else {
            assert(h.nodes[x].children == g.nodes[x].children);
            assert(g.contains(g.nodes[x].children[i]));
        }
    }
}

} // verus!
