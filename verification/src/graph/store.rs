//! The store that owns the nodes.
use vstd::prelude::*;
use crate::git::branch::{branch_views, Branch};
use crate::git::oid::{
    contains_id, extend_ids, insert_id, lemma_with_id, lemma_with_ids, lemma_without_id, remove_id,
    with_id, with_ids, without_id, Oid,
};
use crate::graph::model::{
    kept, lemma_detach, lemma_path_stays, lemma_reaches_child, lemma_reaches_self,
    lemma_with_action, lemma_with_branches, lemma_with_children,
    lemma_with_pushable, GraphView,
};
use crate::graph::acyclic::{lemma_leaf_acyclic, lemma_single_acyclic};
use crate::graph::sweep::{breadth_first, breadth_first_from, level_below};
use crate::graph::tree::{lemma_leaf_tree, lemma_remaining_tree, lemma_single_tree};
use crate::graph::node::{Action, Node, NodeView};

verus! {

/// Whether no two of `nodes` are of the same commit.
pub open spec fn distinct(nodes: Seq<Node>) -> bool {
    forall|i: int, j: int|
        0 <= i < j < nodes.len() ==> (#[trigger] nodes[i]).commit.id != (#[trigger] nodes[j]).commit.id
}

/// Whether one of `nodes` is of the commit `id`.
pub open spec fn stored(nodes: Seq<Node>, id: Oid) -> bool {
    exists|i: int| 0 <= i < nodes.len() && (#[trigger] nodes[i]).commit.id == id
}

/// Where in `nodes` the node of commit `id` stands.
pub open spec fn slot(nodes: Seq<Node>, id: Oid) -> int {
    choose|i: int| 0 <= i < nodes.len() && (#[trigger] nodes[i]).commit.id == id
}

/// The nodes by the id of their commit.
pub open spec fn by_id(nodes: Seq<Node>) -> Map<Oid, NodeView> {
    Map::new(|id: Oid| stored(nodes, id), |id: Oid| nodes[slot(nodes, id)]@)
}

/// The node at a place is the node of its commit.
pub proof fn lemma_lookup(nodes: Seq<Node>, i: int)
    requires
        distinct(nodes),
        0 <= i < nodes.len(),
    ensures
        by_id(nodes).dom().contains(nodes[i].commit.id),
        by_id(nodes)[nodes[i].commit.id] == nodes[i]@,
        slot(nodes, nodes[i].commit.id) == i,
{
    let id = nodes[i].commit.id;
    assert(stored(nodes, id));
    let j = slot(nodes, id);
    assert(0 <= j < nodes.len() && nodes[j].commit.id == id);
    if j < i {
        assert(nodes[j].commit.id != nodes[i].commit.id);
    }
    if i < j {
        assert(nodes[i].commit.id != nodes[j].commit.id);
    }
}

/// A node replaced by another of the same commit replaces it under its id.
pub proof fn lemma_update(nodes: Seq<Node>, i: int, node: Node)
    requires
        distinct(nodes),
        0 <= i < nodes.len(),
        node.commit.id == nodes[i].commit.id,
    ensures
        distinct(nodes.update(i, node)),
        by_id(nodes.update(i, node)) == by_id(nodes).insert(node.commit.id, node@),
{
    let after = nodes.update(i, node);
    assert forall|a: int, b: int| 0 <= a < b < after.len() implies (#[trigger] after[a]).commit.id != (
    #[trigger] after[b]).commit.id by {
        assert(nodes[a].commit.id != nodes[b].commit.id);
    }
    assert forall|id: Oid| stored(after, id) == stored(nodes, id) by {
        if stored(nodes, id) {
            let j = slot(nodes, id);
            assert(after[j].commit.id == id);
        }
        if stored(after, id) {
            let j = slot(after, id);
            assert(nodes[j].commit.id == id);
        }
    }
    assert forall|id: Oid| stored(after, id) implies #[trigger] by_id(after)[id] == by_id(nodes).insert(
        node.commit.id,
        node@,
    )[id] by {
        let j = slot(after, id);
        lemma_lookup(after, j);
        lemma_lookup(nodes, j);
    }
    assert(by_id(after) =~= by_id(nodes).insert(node.commit.id, node@));
}

/// A node of a new commit, added, is added under its id.
pub proof fn lemma_push(nodes: Seq<Node>, node: Node)
    requires
        distinct(nodes),
        !stored(nodes, node.commit.id),
    ensures
        distinct(nodes.push(node)),
        by_id(nodes.push(node)) == by_id(nodes).insert(node.commit.id, node@),
{
    let after = nodes.push(node);
    assert forall|a: int, b: int| 0 <= a < b < after.len() implies (#[trigger] after[a]).commit.id != (
    #[trigger] after[b]).commit.id by {
        if b < nodes.len() {
            assert(nodes[a].commit.id != nodes[b].commit.id);
        } else {
            assert(nodes[a].commit.id != node.commit.id);
        }
    }
    assert forall|id: Oid| stored(after, id) == (stored(nodes, id) || id == node.commit.id) by {
        if stored(nodes, id) {
            let j = slot(nodes, id);
            assert(after[j].commit.id == id);
        }
        if id == node.commit.id {
            assert(after[nodes.len() as int].commit.id == id);
        }
        if stored(after, id) {
            let j = slot(after, id);
            if j < nodes.len() {
                assert(nodes[j].commit.id == id);
            }
        }
    }
    assert forall|id: Oid| stored(after, id) implies #[trigger] by_id(after)[id] == by_id(nodes).insert(
        node.commit.id,
        node@,
    )[id] by {
        let j = slot(after, id);
        lemma_lookup(after, j);
        if j < nodes.len() {
            lemma_lookup(nodes, j);
        }
    }
    assert(by_id(after) =~= by_id(nodes).insert(node.commit.id, node@));
}

/// A node taken out is taken out under its id.
pub proof fn lemma_remove(nodes: Seq<Node>, i: int)
    requires
        distinct(nodes),
        0 <= i < nodes.len(),
    ensures
        distinct(nodes.remove(i)),
        by_id(nodes.remove(i)) == by_id(nodes).remove(nodes[i].commit.id),
{
    let after = nodes.remove(i);
    let gone = nodes[i].commit.id;
    assert forall|a: int, b: int| 0 <= a < b < after.len() implies (#[trigger] after[a]).commit.id != (
    #[trigger] after[b]).commit.id by {
        let a0 = if a < i { a } else { a + 1 };
        let b0 = if b < i { b } else { b + 1 };
        assert(nodes[a0].commit.id != nodes[b0].commit.id);
    }
    assert forall|id: Oid| stored(after, id) == (stored(nodes, id) && id != gone) by {
        if stored(nodes, id) && id != gone {
            let j = slot(nodes, id);
            lemma_lookup(nodes, j);
            let k = if j < i { j } else { j - 1 };
            assert(after[k].commit.id == id);
        }
        if stored(after, id) {
            let k = slot(after, id);
            let j = if k < i { k } else { k + 1 };
            assert(nodes[j].commit.id == id);
            lemma_lookup(nodes, j);
            lemma_lookup(nodes, i);
        }
    }
    assert forall|id: Oid| stored(after, id) implies #[trigger] by_id(after)[id] == by_id(nodes).remove(
        gone,
    )[id] by {
        let k = slot(after, id);
        lemma_lookup(after, k);
        let j = if k < i { k } else { k + 1 };
        lemma_lookup(nodes, j);
    }
    assert(by_id(after) =~= by_id(nodes).remove(gone));
}

/// As many ids as nodes.
pub proof fn lemma_by_id_finite(nodes: Seq<Node>)
    requires
        distinct(nodes),
    ensures
        by_id(nodes).dom().finite(),
        by_id(nodes).dom().len() == nodes.len(),
    decreases nodes.len(),
{
    if nodes.len() == 0 {
        assert(by_id(nodes).dom() =~= Set::<Oid>::empty());
    } else {
        let rest = nodes.drop_last();
        let last = nodes.last();
        assert forall|a: int, b: int| 0 <= a < b < rest.len() implies (#[trigger] rest[a]).commit.id != (
        #[trigger] rest[b]).commit.id by {
            assert(nodes[a].commit.id != nodes[b].commit.id);
        }
        if stored(rest, last.commit.id) {
            let j = slot(rest, last.commit.id);
            assert(nodes[j].commit.id != nodes[nodes.len() - 1].commit.id);
        }
        lemma_by_id_finite(rest);
        lemma_push(rest, last);
        assert(rest.push(last) =~= nodes);
        assert(by_id(nodes).dom() =~= by_id(rest).dom().insert(last.commit.id));
    }
}

/// What holds while a subtree leaves the store: `rest` and `moved` share
/// the nodes of `g` between them; what has moved and what waits in `queue` is
/// reached from `child`; and each child of what has moved has moved or waits.
#[verifier::opaque]
pub open spec fn extracting(
    g: GraphView,
    child: Oid,
    rest: Seq<Node>,
    moved: Seq<Node>,
    queue: Seq<Oid>,
) -> bool {
    &&& distinct(rest)
    &&& distinct(moved)
    &&& forall|id: Oid|
        #![trigger stored(rest, id)]
        #![trigger stored(moved, id)]
        g.contains(id) <==> (stored(rest, id) || stored(moved, id))
    &&& forall|id: Oid|
        #![trigger stored(rest, id)]
        #![trigger stored(moved, id)]
        !(stored(rest, id) && stored(moved, id))
    &&& forall|id: Oid| #[trigger] stored(rest, id) ==> by_id(rest)[id] == g.nodes[id]
    &&& forall|id: Oid|
        #[trigger] stored(moved, id) ==> by_id(moved)[id] == g.nodes[id] && g.reaches(child, id)
    &&& forall|k: int|
        0 <= k < queue.len() ==> g.contains(#[trigger] queue[k]) && g.reaches(child, queue[k])
    &&& forall|id: Oid, k: int|
        stored(moved, id) && 0 <= k < g.nodes[id].children.len() ==> stored(
            moved,
            #[trigger] g.nodes[id].children[k],
        ) || queue.contains(g.nodes[id].children[k])
    &&& stored(moved, child) || queue.contains(child)
}

proof fn lemma_extract_start(g: GraphView, child: Oid, rest: Seq<Node>)
    requires
        distinct(rest),
        by_id(rest) == g.nodes,
        g.contains(child),
    ensures
        extracting(g, child, rest, Seq::empty(), seq![child]),
{
    reveal(extracting);
    let queue = seq![child];
    lemma_reaches_self(g, child);
    assert(queue[0] == child);
    assert forall|id: Oid| g.contains(id) <==> (#[trigger] stored(rest, id) || stored(
        Seq::<Node>::empty(),
        id,
    )) by {
        assert(by_id(rest).dom().contains(id) == stored(rest, id));
    }
}

proof fn lemma_extract_move(
    g: GraphView,
    child: Oid,
    rest: Seq<Node>,
    moved: Seq<Node>,
    queue: Seq<Oid>,
    i: int,
)
    requires
        g.wf(),
        extracting(g, child, rest, moved, queue),
        queue.len() > 0,
        0 <= i < rest.len(),
        rest[i].commit.id == queue.last(),
    ensures
        extracting(
            g,
            child,
            rest.remove(i),
            moved.push(rest[i]),
            queue.drop_last() + rest[i].children@,
        ),
{
    reveal(extracting);
    let id = queue.last();
    let node = rest[i];
    let rest2 = rest.remove(i);
    let moved2 = moved.push(node);
    let queue2 = queue.drop_last() + node.children@;
    lemma_lookup(rest, i);
    lemma_remove(rest, i);
    assert(stored(rest, id));
    assert(!stored(moved, id));
    lemma_push(moved, node);
    assert(node@ == g.nodes[id]);
    assert forall|x: Oid| stored(rest2, x) == (stored(rest, x) && x != id) by {
        assert(by_id(rest2).dom().contains(x) == stored(rest2, x));
        assert(by_id(rest).dom().contains(x) == stored(rest, x));
    }
    assert forall|x: Oid| stored(moved2, x) == (stored(moved, x) || x == id) by {
        assert(by_id(moved2).dom().contains(x) == stored(moved2, x));
        assert(by_id(moved).dom().contains(x) == stored(moved, x));
    }
    assert(g.contains(queue[queue.len() - 1]) && g.reaches(child, queue[queue.len() - 1]));
    assert forall|k: int| 0 <= k < queue2.len() implies g.contains(#[trigger] queue2[k]) && g.reaches(
        child,
        queue2[k],
    ) by {
        if k < queue.len() - 1 {
            assert(queue2[k] == queue[k]);
        } else {
            let c = node.children@[k - (queue.len() - 1)];
            assert(queue2[k] == c);
            assert(g.contains(g.nodes[id].children[k - (queue.len() - 1)]));
            assert(g.nodes[id].children.contains(c));
            lemma_reaches_child(g, child, id, c);
        }
    }
    assert forall|x: Oid| queue.contains(x) implies queue2.contains(x) || x == id by {
        let j = choose|j: int| 0 <= j < queue.len() && queue[j] == x;
        if j < queue.len() - 1 {
            assert(queue2[j] == x);
        }
    }
    assert forall|x: Oid, k: int|
        stored(moved2, x) && 0 <= k < g.nodes[x].children.len() implies stored(
            moved2,
            #[trigger] g.nodes[x].children[k],
        ) || queue2.contains(g.nodes[x].children[k]) by {
        let c = g.nodes[x].children[k];
        if x == id {
            assert(queue2[queue.len() - 1 + k] == c);
        } else {
            assert(stored(moved, x));
            assert(stored(moved, g.nodes[x].children[k]) || queue.contains(g.nodes[x].children[k]));
        }
    }
    assert forall|x: Oid| #[trigger] stored(rest2, x) implies by_id(rest2)[x] == g.nodes[x] by {
        assert(stored(rest, x));
    }
    assert forall|x: Oid| #[trigger] stored(moved2, x) implies by_id(moved2)[x] == g.nodes[x]
        && g.reaches(child, x) by {
        if x != id {
            assert(stored(moved, x));
        }
    }
    assert forall|x: Oid| g.contains(x) <==> (#[trigger] stored(rest2, x) || stored(moved2, x)) by {
        assert(g.contains(x) <==> (stored(rest, x) || stored(moved, x)));
    }
    assert forall|x: Oid| !(#[trigger] stored(rest2, x) && stored(moved2, x)) by {
        assert(!(stored(rest, x) && stored(moved, x)));
    }
}

proof fn lemma_extract_skip(g: GraphView, child: Oid, rest: Seq<Node>, moved: Seq<Node>, queue: Seq<Oid>)
    requires
        extracting(g, child, rest, moved, queue),
        queue.len() > 0,
        !by_id(rest).dom().contains(queue.last()),
    ensures
        extracting(g, child, rest, moved, queue.drop_last()),
{
    reveal(extracting);
    let id = queue.last();
    let queue2 = queue.drop_last();
    assert(g.contains(queue[queue.len() - 1]));
    assert(!stored(rest, id));
    assert(g.contains(id) <==> (stored(rest, id) || stored(moved, id)));
    assert(stored(moved, id));
    assert forall|x: Oid| queue.contains(x) implies queue2.contains(x) || x == id by {
        let j = choose|j: int| 0 <= j < queue.len() && queue[j] == x;
        if j < queue.len() - 1 {
            assert(queue2[j] == x);
        }
    }
    assert forall|k: int| 0 <= k < queue2.len() implies g.contains(#[trigger] queue2[k]) && g.reaches(
        child,
        queue2[k],
    ) by {
        assert(queue2[k] == queue[k]);
    }
    assert forall|x: Oid, k: int|
        stored(moved, x) && 0 <= k < g.nodes[x].children.len() implies stored(
            moved,
            #[trigger] g.nodes[x].children[k],
        ) || queue2.contains(g.nodes[x].children[k]) by {
        assert(stored(moved, g.nodes[x].children[k]) || queue.contains(g.nodes[x].children[k]));
    }
}

proof fn lemma_extract_done(g: GraphView, child: Oid, rest: Seq<Node>, moved: Seq<Node>)
    requires
        extracting(g, child, rest, moved, Seq::empty()),
    ensures
        distinct(rest),
        distinct(moved),
        by_id(moved) == g.nodes.restrict(g.below(child)),
        by_id(rest) == g.nodes.remove_keys(g.below(child)),
{
    reveal(extracting);
    let gone = g.below(child);
    let out = by_id(moved).dom();
    let queue = Seq::<Oid>::empty();
    assert(!queue.contains(child));
    assert(stored(moved, child));
    assert forall|x: Oid| gone.contains(x) implies out.contains(x) by {
        let path = choose|path: Seq<Oid>| #[trigger] g.is_path(path) && path[0] == child && path.last() == x;
        assert forall|y: Oid, k: int|
            out.contains(y) && g.contains(y) && 0 <= k < g.nodes[y].children.len() implies out.contains(
                #[trigger] g.nodes[y].children[k],
            ) by {
            assert(stored(moved, y));
            assert(!queue.contains(g.nodes[y].children[k]));
        }
        lemma_path_stays(g, path, out, path.len() - 1);
    }
    assert forall|x: Oid| out.contains(x) implies gone.contains(x) by {
        assert(stored(moved, x));
        assert(g.contains(x) <==> (stored(rest, x) || stored(moved, x)));
    }
    assert(out =~= gone);
    assert forall|x: Oid| by_id(rest).dom().contains(x) <==> (g.contains(x) && !gone.contains(x)) by {
        assert(g.contains(x) <==> (stored(rest, x) || stored(moved, x)));
        assert(!(stored(rest, x) && stored(moved, x)));
        assert(out.contains(x) == stored(moved, x));
    }
    assert forall|x: Oid| #[trigger] by_id(moved).dom().contains(x) implies by_id(moved)[x] == g.nodes[x] by {
        assert(stored(moved, x));
    }
    assert forall|x: Oid| #[trigger] by_id(rest).dom().contains(x) implies by_id(rest)[x] == g.nodes[x] by {
        assert(stored(rest, x));
    }
    assert(by_id(moved) =~= g.nodes.restrict(gone));
    assert(by_id(rest) =~= g.nodes.remove_keys(gone));
}

/// The nodes of `g` that are not in `gone`, each without the children that
/// are.
#[verifier::opaque]
pub open spec fn cleaned(g: GraphView, gone: Set<Oid>) -> Map<Oid, NodeView> {
    Map::new(
        |x: Oid| g.contains(x) && !gone.contains(x),
        |x: Oid| NodeView { children: kept(g.nodes[x].children, gone), ..g.nodes[x] },
    )
}

/// What holds while the edges to what left are dropped: the nodes before
/// `i` are done, the others are as they were.
#[verifier::opaque]
pub open spec fn cleaning(g: GraphView, gone: Set<Oid>, start: Seq<Node>, nodes: Seq<Node>, i: int) -> bool {
    &&& nodes.len() == start.len()
    &&& forall|k: int| 0 <= k < nodes.len() ==> (#[trigger] nodes[k]).commit.id == start[k].commit.id
    &&& forall|k: int|
        0 <= k < i && k < nodes.len() ==> (#[trigger] nodes[k])@ == (NodeView {
            children: kept(start[k]@.children, gone),
            ..start[k]@
        })
    &&& forall|k: int| i <= k < nodes.len() ==> (#[trigger] nodes[k])@ == start[k]@
}

proof fn lemma_cleaning_step(g: GraphView, gone: Set<Oid>, start: Seq<Node>, nodes: Seq<Node>, i: int)
    requires
        g.closed(),
        distinct(start),
        by_id(start) == g.nodes.remove_keys(gone),
        cleaning(g, gone, start, nodes, i),
        0 <= i < nodes.len(),
    ensures
        distinct(nodes),
        forall|k: int|
            0 <= k < nodes[i].children@.len() ==> (by_id(nodes).dom().contains(
                #[trigger] nodes[i].children@[k],
            ) <==> !gone.contains(nodes[i].children@[k])),
{
    reveal(cleaning);
    assert forall|a: int, b: int| 0 <= a < b < nodes.len() implies (#[trigger] nodes[a]).commit.id != (
    #[trigger] nodes[b]).commit.id by {
        assert(start[a].commit.id != start[b].commit.id);
    }
    assert forall|x: Oid| stored(nodes, x) == stored(start, x) by {
        if stored(start, x) {
            let j = slot(start, x);
            assert(nodes[j].commit.id == x);
        }
        if stored(nodes, x) {
            let j = slot(nodes, x);
            assert(start[j].commit.id == x);
        }
    }
    lemma_lookup(start, i);
    let id = start[i].commit.id;
    assert(by_id(start).dom().contains(id));
    assert(g.contains(id));
    assert(nodes[i]@ == start[i]@);
    assert(start[i]@ == g.nodes[id]);
    assert forall|k: int| 0 <= k < nodes[i].children@.len() implies (by_id(nodes).dom().contains(
        #[trigger] nodes[i].children@[k],
    ) <==> !gone.contains(nodes[i].children@[k])) by {
        let c = nodes[i].children@[k];
        assert(g.contains(g.nodes[id].children[k]));
        assert(by_id(nodes).dom().contains(c) == stored(nodes, c));
        assert(by_id(start).dom().contains(c) == stored(start, c));
    }
}

proof fn lemma_cleaning_next(
    g: GraphView,
    gone: Set<Oid>,
    start: Seq<Node>,
    nodes: Seq<Node>,
    node: Node,
    i: int,
)
    requires
        cleaning(g, gone, start, nodes, i),
        0 <= i < nodes.len(),
        node.commit == nodes[i].commit,
        node.branches == nodes[i].branches,
        node.action == nodes[i].action,
        node.pushable == nodes[i].pushable,
        node.children@ == kept(nodes[i].children@, gone),
    ensures
        cleaning(g, gone, start, nodes.update(i, node), i + 1),
{
    reveal(cleaning);
    let after = nodes.update(i, node);
    assert(nodes[i]@ == start[i]@);
    assert forall|k: int| 0 <= k < i + 1 && k < after.len() implies (#[trigger] after[k])@ == (NodeView {
        children: kept(start[k]@.children, gone),
        ..start[k]@
    }) by {
        if k < i {
            assert(after[k] == nodes[k]);
        }
    }
    assert forall|k: int| i + 1 <= k < after.len() implies (#[trigger] after[k])@ == start[k]@ by {
        assert(after[k] == nodes[k]);
    }
    assert forall|k: int| 0 <= k < after.len() implies (#[trigger] after[k]).commit.id == start[k].commit.id by {
        if k != i {
            assert(after[k] == nodes[k]);
        }
    }
}

proof fn lemma_cleaning_done(g: GraphView, gone: Set<Oid>, start: Seq<Node>, nodes: Seq<Node>)
    requires
        distinct(start),
        by_id(start) == g.nodes.remove_keys(gone),
        cleaning(g, gone, start, nodes, nodes.len() as int),
    ensures
        distinct(nodes),
        by_id(nodes) == cleaned(g, gone),
{
    reveal(cleaning);
    reveal(cleaned);
    assert forall|a: int, b: int| 0 <= a < b < nodes.len() implies (#[trigger] nodes[a]).commit.id != (
    #[trigger] nodes[b]).commit.id by {
        assert(start[a].commit.id != start[b].commit.id);
    }
    assert forall|x: Oid| stored(nodes, x) == stored(start, x) by {
        if stored(start, x) {
            let j = slot(start, x);
            assert(nodes[j].commit.id == x);
        }
        if stored(nodes, x) {
            let j = slot(nodes, x);
            assert(start[j].commit.id == x);
        }
    }
    assert forall|x: Oid| #[trigger] by_id(nodes).dom().contains(x) implies cleaned(g, gone).dom().contains(x)
        && by_id(nodes)[x] == cleaned(g, gone)[x] by {
        let j = slot(nodes, x);
        lemma_lookup(nodes, j);
        lemma_lookup(start, j);
        assert(by_id(start).dom().contains(x));
    }
    assert forall|x: Oid| cleaned(g, gone).dom().contains(x) implies by_id(nodes).dom().contains(x) by {
        assert(by_id(start).dom().contains(x));
        assert(stored(start, x));
    }
    assert(by_id(nodes) =~= cleaned(g, gone));
}

/// The store of a commit graph: it owns every node, and a node names its
/// children by id.
#[derive(Debug)]
pub struct Graph {
    root_id: Oid,
    nodes: Vec<Node>,
}

impl View for Graph {
    type V = GraphView;

    closed spec fn view(&self) -> GraphView {
        GraphView { root_id: self.root_id, nodes: by_id(self.nodes@) }
    }
}

impl Graph {
    /// What the store keeps of itself: no two nodes of the same commit.
    pub closed spec fn inv(&self) -> bool {
        distinct(self.nodes@)
    }

    /// The store is in order and the graph it holds is sound.
    pub open spec fn sound(&self) -> bool {
        self.inv() && self@.sound()
    }

    /// The store is in order and the graph it holds is well formed.
    pub open spec fn wf(&self) -> bool {
        self.inv() && self@.wf()
    }

    /// A graph of one node, its root.
    pub fn new(root: Node) -> (r: Graph)
        requires
            root@.children.len() == 0,
        ensures
            r.wf(),
            r@.tree(),
            r@.root_id == root@.commit.id,
            r@.nodes == Map::<Oid, NodeView>::empty().insert(root@.commit.id, root@),
    {
        let root_id = root.commit.id;
        let mut nodes: Vec<Node> = Vec::new();
        proof {
            assert(by_id(nodes@) =~= Map::<Oid, NodeView>::empty());
            lemma_push(nodes@, root);
        }
        nodes.push(root);
        let r = Graph { root_id, nodes };
        proof {
            lemma_by_id_finite(r.nodes@);
            lemma_single_acyclic(r@);
            assert(r@.nodes.dom() =~= Set::<Oid>::empty().insert(r@.root_id));
            lemma_single_tree(r@);
        }
        r
    }

    fn find(&self, id: Oid) -> (r: Option<usize>)
        requires
            self.inv(),
        ensures
            match r {
                Some(i) => i < self.nodes.len() && self.nodes[i as int].commit.id == id
                    && self@.contains(id) && self@.nodes[id] == self.nodes[i as int]@,
                None => !self@.contains(id),
            },
    {
        let mut i: usize = 0;
        while i < self.nodes.len()
            invariant
                i <= self.nodes.len(),
                distinct(self.nodes@),
                forall|j: int| 0 <= j < i ==> (#[trigger] self.nodes[j]).commit.id != id,
            decreases self.nodes.len() - i,
        {
            if self.nodes[i].commit.id == id {
                proof {
                    lemma_lookup(self.nodes@, i as int);
                }
                return Some(i);
            }
            i += 1;
        }
        proof {
            if stored(self.nodes@, id) {
                let j = slot(self.nodes@, id);
                assert(self.nodes[j].commit.id != id);
            }
        }
        None
    }

    /// The id of the root.
    pub fn root_id(&self) -> (r: Oid)
        ensures
            r == self@.root_id,
    {
        self.root_id
    }

    /// How many nodes the store holds.
    pub fn len(&self) -> (n: usize)
        requires
            self.sound(),
        ensures
            n == self@.size(),
    {
        proof {
            lemma_by_id_finite(self.nodes@);
        }
        self.nodes.len()
    }

    /// A graph equal to this one.
    pub fn duplicate(&self) -> (r: Graph)
        requires
            self.inv(),
        ensures
            r.inv(),
            r@ == self@,
    {
        let mut nodes: Vec<Node> = Vec::new();
        let mut i: usize = 0;
        while i < self.nodes.len()
            invariant
                i <= self.nodes.len(),
                nodes@.len() == i,
                forall|j: int|
                    0 <= j < i ==> (#[trigger] nodes@[j])@ == self.nodes@[j]@ && nodes@[j].commit.id
                        == self.nodes@[j].commit.id,
            decreases self.nodes.len() - i,
        {
            nodes.push(self.nodes[i].duplicate());
            i += 1;
        }
        let r = Graph { root_id: self.root_id, nodes };
        proof {
            let a = self.nodes@;
            let b = r.nodes@;
            assert forall|x: int, y: int| 0 <= x < y < b.len() implies (#[trigger] b[x]).commit.id != (
            #[trigger] b[y]).commit.id by {
                assert(a[x].commit.id != a[y].commit.id);
            }
            assert forall|id: Oid| stored(b, id) == stored(a, id) by {
                if stored(a, id) {
                    let j = slot(a, id);
                    assert(b[j].commit.id == id);
                }
                if stored(b, id) {
                    let j = slot(b, id);
                    assert(a[j].commit.id == id);
                }
            }
            assert forall|id: Oid| stored(b, id) implies #[trigger] by_id(b)[id] == by_id(a)[id] by {
                let j = slot(b, id);
                lemma_lookup(b, j);
                lemma_lookup(a, j);
            }
            assert(by_id(b) =~= by_id(a));
        }
        r
    }

    /// The ids of the nodes, each once.
    pub fn ids(&self) -> (r: Vec<Oid>)
        requires
            self.sound(),
        ensures
            r@.no_duplicates(),
            forall|id: Oid| r@.contains(id) <==> self@.contains(id),
    {
        let mut out: Vec<Oid> = Vec::new();
        let mut i: usize = 0;
        while i < self.nodes.len()
            invariant
                i <= self.nodes.len(),
                out@.len() == i,
                forall|j: int| 0 <= j < i ==> out@[j] == (#[trigger] self.nodes[j]).commit.id,
            decreases self.nodes.len() - i,
        {
            out.push(self.nodes[i].commit.id);
            i += 1;
        }
        proof {
            assert forall|a: int, b: int| 0 <= a < out@.len() && 0 <= b < out@.len() && a != b implies out@[a]
                != out@[b] by {
                if a < b {
                    assert(self.nodes[a].commit.id != self.nodes[b].commit.id);
                } else {
                    assert(self.nodes[b].commit.id != self.nodes[a].commit.id);
                }
            }
            assert forall|id: Oid| out@.contains(id) <==> self@.contains(id) by {
                if out@.contains(id) {
                    let j = choose|j: int| 0 <= j < out@.len() && out@[j] == id;
                    assert(self.nodes[j].commit.id == id);
                    lemma_lookup(self.nodes@, j);
                }
                if self@.contains(id) {
                    let j = slot(self.nodes@, id);
                    assert(out@[j] == self.nodes[j].commit.id);
                }
            }
        }
        out
    }

    /// Whether the graph holds a node of the commit `id`.
    pub fn contains(&self, id: Oid) -> (r: bool)
        requires
            self.sound(),
        ensures
            r == self@.contains(id),
    {
        self.find(id).is_some()
    }

    /// The node of `id`, if the graph holds it.
    pub fn get(&self, id: Oid) -> (r: Option<&Node>)
        requires
            self.sound(),
        ensures
            match r {
                Some(node) => self@.contains(id) && node@ == self@.nodes[id],
                None => !self@.contains(id),
            },
    {
        match self.find(id) {
            Some(i) => Some(&self.nodes[i]),
            None => None,
        }
    }

    /// The node of `id` to work on, if the graph holds it. The graph follows
    /// the work as long as the node stays the node of its commit; that the
    /// graph stays well formed is then up to the one who works on the node.
    pub fn get_mut(&mut self, id: Oid) -> (r: Option<&mut Node>)
        requires
            old(self).sound(),
        ensures
            match r {
                Some(node) => {
                    &&& old(self)@.contains(id)
                    &&& node@ == old(self)@.nodes[id]
                    &&& final(node)@.commit.id == id ==> final(self).inv() && final(self)@ == old(
                        self,
                    )@.with_node(id, final(node)@)
                },
                None => !old(self)@.contains(id) && final(self)@ == old(self)@ && final(self).inv(),
            },
    {
        match self.find(id) {
            Some(i) => {
                proof {
                    assert forall|node: Node| node.commit.id == id implies distinct(
                        #[trigger] self.nodes@.update(i as int, node),
                    ) && by_id(self.nodes@.update(i as int, node)) == by_id(self.nodes@).insert(
                        id,
                        node@,
                    ) by {
                        lemma_update(self.nodes@, i as int, node);
                    }
                }
                Some(&mut self.nodes[i])
            },
            None => None,
        }
    }

    /// The node of `id`, which the graph holds.
    pub fn node(&self, id: Oid) -> (r: &Node)
        requires
            self.sound(),
            self@.contains(id),
        ensures
            r@ == self@.nodes[id],
    {
        match self.find(id) {
            Some(i) => &self.nodes[i],
            None => &self.nodes[0],
        }
    }

    /// The root.
    pub fn root(&self) -> (r: &Node)
        requires
            self.sound(),
        ensures
            r@ == self@.nodes[self@.root_id],
    {
        self.node(self.root_id)
    }

    /// Adds `node`, which is new to the graph, as the last child of `parent_id`.
    pub fn insert(&mut self, node: Node, parent_id: Oid)
        requires
            old(self).wf(),
            old(self)@.contains(parent_id),
            !old(self)@.contains(node@.commit.id),
            node@.children.len() == 0,
        ensures
            final(self).wf(),
            old(self)@.acyclic() ==> final(self)@.acyclic(),
            old(self)@.tree() ==> final(self)@.tree(),
            final(self)@ == old(self)@.with_node(node@.commit.id, node@).with_children(
                parent_id,
                old(self)@.nodes[parent_id].children.push(node@.commit.id),
            ),
    {
        let id = node.commit.id;
        let p = match self.find(parent_id) {
            Some(p) => p,
            None => 0,
        };
        let ghost g0 = self@;
        let ghost g1 = g0.with_node(id, node@);
        proof {
            if g0.acyclic() {
                lemma_leaf_acyclic(g0, node@, parent_id);
            }
            lemma_push(self.nodes@, node);
            assert(g1.nodes.dom() =~= g0.nodes.dom().insert(id));
            assert(g1.wf()) by {
                assert forall|x: Oid, i: int| g1.contains(x) && 0 <= i < g1.nodes[x].children.len() implies g1.contains(
                    #[trigger] g1.nodes[x].children[i],
                ) && g1.nodes[x].children[i] != g1.root_id by {
                    assert(g0.contains(g0.nodes[x].children[i]));
                }
            }
        }
        self.nodes.push(node);
        assert(self@ == g1);
        let ghost before = self.nodes@;
        self.nodes[p].children.push(id);
        proof {
            let kids = g0.nodes[parent_id].children.push(id);
            lemma_lookup(before, p as int);
            lemma_update(before, p as int, self.nodes@[p as int]);
            assert(self.nodes@ =~= before.update(p as int, self.nodes@[p as int]));
            assert(self@.nodes =~= g1.with_children(parent_id, kids).nodes);
            assert(kids.no_duplicates()) by {
                if g0.nodes[parent_id].children.contains(id) {
                    let j = choose|j: int| 0 <= j < g0.nodes[parent_id].children.len() && g0.nodes[parent_id].children[j] == id;
                    assert(g0.contains(g0.nodes[parent_id].children[j]));
                }
            }
            assert forall|i: int| 0 <= i < kids.len() implies g1.contains(#[trigger] kids[i]) && kids[i] != g1.root_id by {
                if i < kids.len() - 1 {
                    assert(g0.contains(g0.nodes[parent_id].children[i]));
                    assert(g0.nodes[parent_id].children[i] != g0.root_id);
                }
            }
            lemma_with_children(g1, parent_id, kids);
            if g0.tree() {
                lemma_leaf_tree(g0, node@, parent_id);
            }
        }
    }

    /// Decides `action` of the node `id`.
    pub fn set_action(&mut self, id: Oid, action: Action)
        requires
            old(self).wf(),
            old(self)@.contains(id),
        ensures
            final(self).wf(),
            final(self)@ == old(self)@.with_action(id, action),
    {
        let i = match self.find(id) {
            Some(i) => i,
            None => 0,
        };
        self.nodes[i].action = action;
        proof {
            lemma_update(old(self).nodes@, i as int, self.nodes@[i as int]);
            assert(self.nodes@ =~= old(self).nodes@.update(i as int, self.nodes@[i as int]));
            assert(self@.nodes =~= old(self)@.with_action(id, action).nodes);
            lemma_with_action(old(self)@, id, action);
        }
    }

    /// Marks whether the first branch at the node `id` may be pushed.
    pub fn set_pushable(&mut self, id: Oid, pushable: bool)
        requires
            old(self).wf(),
            old(self)@.contains(id),
        ensures
            final(self).wf(),
            final(self)@ == old(self)@.with_pushable(id, pushable),
    {
        let i = match self.find(id) {
            Some(i) => i,
            None => 0,
        };
        self.nodes[i].pushable = pushable;
        proof {
            lemma_update(old(self).nodes@, i as int, self.nodes@[i as int]);
            assert(self.nodes@ =~= old(self).nodes@.update(i as int, self.nodes@[i as int]));
            assert(self@.nodes =~= old(self)@.with_pushable(id, pushable).nodes);
            lemma_with_pushable(old(self)@, id, pushable);
        }
    }

    /// Adds `child` to the children of `parent` unless it is one already.
    pub fn add_child(&mut self, parent: Oid, child: Oid)
        requires
            old(self).wf(),
            old(self)@.contains(parent),
            old(self)@.contains(child),
            child != old(self)@.root_id,
        ensures
            final(self).wf(),
            final(self)@ == old(self)@.with_children(
                parent,
                with_id(old(self)@.nodes[parent].children, child),
            ),
    {
        let i = match self.find(parent) {
            Some(i) => i,
            None => 0,
        };
        insert_id(&mut self.nodes[i].children, child);
        proof {
            let g0 = old(self)@;
            let kids = with_id(g0.nodes[parent].children, child);
            lemma_update(old(self).nodes@, i as int, self.nodes@[i as int]);
            assert(self.nodes@ =~= old(self).nodes@.update(i as int, self.nodes@[i as int]));
            assert(self@.nodes =~= g0.with_children(parent, kids).nodes);
            lemma_with_id(g0.nodes[parent].children, child);
            assert forall|k: int| 0 <= k < kids.len() implies g0.contains(#[trigger] kids[k]) && kids[k] != g0.root_id by {
                assert(kids.contains(kids[k]));
                if kids[k] != child {
                    let j = choose|j: int| 0 <= j < g0.nodes[parent].children.len() && g0.nodes[parent].children[j] == kids[k];
                    assert(g0.contains(g0.nodes[parent].children[j]));
                }
            }
            lemma_with_children(g0, parent, kids);
        }
    }

    /// Adds each of `children` in turn to the children of `parent`, unless it
    /// is one already.
    pub fn add_children(&mut self, parent: Oid, children: &Vec<Oid>)
        requires
            old(self).wf(),
            old(self)@.contains(parent),
            old(self)@.contains_all(children@),
            forall|i: int| 0 <= i < children.len() ==> children[i] != old(self)@.root_id,
        ensures
            final(self).wf(),
            final(self)@ == old(self)@.with_children(
                parent,
                with_ids(old(self)@.nodes[parent].children, children@),
            ),
    {
        let i = match self.find(parent) {
            Some(i) => i,
            None => 0,
        };
        extend_ids(&mut self.nodes[i].children, children);
        proof {
            let g0 = old(self)@;
            let kids = with_ids(g0.nodes[parent].children, children@);
            lemma_update(old(self).nodes@, i as int, self.nodes@[i as int]);
            assert(self.nodes@ =~= old(self).nodes@.update(i as int, self.nodes@[i as int]));
            assert(self@.nodes =~= g0.with_children(parent, kids).nodes);
            lemma_with_ids(g0.nodes[parent].children, children@);
            assert forall|k: int| 0 <= k < kids.len() implies g0.contains(#[trigger] kids[k]) && kids[k] != g0.root_id by {
                assert(kids.contains(kids[k]));
                if children@.contains(kids[k]) {
                    let j = choose|j: int| 0 <= j < children.len() && children[j] == kids[k];
                    assert(g0.contains(children@[j]));
                } else {
                    let j = choose|j: int| 0 <= j < g0.nodes[parent].children.len() && g0.nodes[parent].children[j] == kids[k];
                    assert(g0.contains(g0.nodes[parent].children[j]));
                }
            }
            lemma_with_children(g0, parent, kids);
        }
    }

    /// Takes `child` out of the children of `parent`; tells whether it was one.
    pub fn remove_edge(&mut self, parent: Oid, child: Oid) -> (found: bool)
        requires
            old(self).wf(),
            old(self)@.contains(parent),
        ensures
            final(self).wf(),
            final(self)@ == old(self)@.with_children(
                parent,
                without_id(old(self)@.nodes[parent].children, child),
            ),
            found == old(self)@.nodes[parent].children.contains(child),
    {
        let i = match self.find(parent) {
            Some(i) => i,
            None => 0,
        };
        let found = remove_id(&mut self.nodes[i].children, child);
        proof {
            let g0 = old(self)@;
            let kids = without_id(g0.nodes[parent].children, child);
            lemma_update(old(self).nodes@, i as int, self.nodes@[i as int]);
            assert(self.nodes@ =~= old(self).nodes@.update(i as int, self.nodes@[i as int]));
            assert(self@.nodes =~= g0.with_children(parent, kids).nodes);
            lemma_without_id(g0.nodes[parent].children, child);
            assert forall|k: int| 0 <= k < kids.len() implies g0.contains(#[trigger] kids[k]) && kids[k] != g0.root_id by {
                assert(kids.contains(kids[k]));
                let j = choose|j: int| 0 <= j < g0.nodes[parent].children.len() && g0.nodes[parent].children[j] == kids[k];
                assert(g0.contains(g0.nodes[parent].children[j]));
            }
            lemma_with_children(g0, parent, kids);
        }
        found
    }

    /// Takes the children from the node `id`, leaving it none.
    pub fn take_children(&mut self, id: Oid) -> (children: Vec<Oid>)
        requires
            old(self).wf(),
            old(self)@.contains(id),
        ensures
            final(self).wf(),
            final(self)@ == old(self)@.with_children(id, Seq::empty()),
            children@ == old(self)@.nodes[id].children,
    {
        let i = match self.find(id) {
            Some(i) => i,
            None => 0,
        };
        let mut children: Vec<Oid> = Vec::new();
        std::mem::swap(&mut self.nodes[i].children, &mut children);
        proof {
            let g0 = old(self)@;
            lemma_update(old(self).nodes@, i as int, self.nodes@[i as int]);
            assert(self.nodes@ =~= old(self).nodes@.update(i as int, self.nodes@[i as int]));
            assert(self@.nodes =~= g0.with_children(id, Seq::empty()).nodes);
            lemma_with_children(g0, id, Seq::empty());
        }
        children
    }

    /// Takes the branches from the node `id`, leaving it none.
    pub fn take_branches(&mut self, id: Oid) -> (branches: Vec<Branch>)
        requires
            old(self).wf(),
            old(self)@.contains(id),
        ensures
            final(self).wf(),
            final(self)@ == old(self)@.with_branches(id, Seq::empty()),
            branch_views(branches@) == old(self)@.nodes[id].branches,
    {
        let i = match self.find(id) {
            Some(i) => i,
            None => 0,
        };
        let mut branches: Vec<Branch> = Vec::new();
        std::mem::swap(&mut self.nodes[i].branches, &mut branches);
        proof {
            let g0 = old(self)@;
            lemma_update(old(self).nodes@, i as int, self.nodes@[i as int]);
            assert(self.nodes@ =~= old(self).nodes@.update(i as int, self.nodes@[i as int]));
            assert(self.nodes@[i as int]@.branches =~= Seq::empty());
            assert(self@.nodes =~= g0.with_branches(id, Seq::empty()).nodes);
            lemma_with_branches(g0, id, Seq::empty());
        }
        branches
    }

    /// Gives the node `id` the children `children`.
    pub fn set_children(&mut self, id: Oid, children: Vec<Oid>)
        requires
            old(self).wf(),
            old(self)@.contains(id),
            children@.no_duplicates(),
            old(self)@.contains_all(children@),
            forall|i: int| 0 <= i < children.len() ==> children[i] != old(self)@.root_id,
        ensures
            final(self).wf(),
            final(self)@ == old(self)@.with_children(id, children@),
    {
        let i = match self.find(id) {
            Some(i) => i,
            None => 0,
        };
        self.nodes[i].children = children;
        proof {
            let g0 = old(self)@;
            lemma_update(old(self).nodes@, i as int, self.nodes@[i as int]);
            assert(self.nodes@ =~= old(self).nodes@.update(i as int, self.nodes@[i as int]));
            assert(self@.nodes =~= g0.with_children(id, children@).nodes);
            lemma_with_children(g0, id, children@);
        }
    }

    /// Gives the node `id` the branches `branches`.
    pub fn set_branches(&mut self, id: Oid, branches: Vec<Branch>)
        requires
            old(self).wf(),
            old(self)@.contains(id),
        ensures
            final(self).wf(),
            final(self)@ == old(self)@.with_branches(id, branch_views(branches@)),
    {
        let i = match self.find(id) {
            Some(i) => i,
            None => 0,
        };
        let ghost views = branch_views(branches@);
        self.nodes[i].branches = branches;
        proof {
            let g0 = old(self)@;
            lemma_update(old(self).nodes@, i as int, self.nodes@[i as int]);
            assert(self.nodes@ =~= old(self).nodes@.update(i as int, self.nodes@[i as int]));
            assert(self@.nodes =~= g0.with_branches(id, views).nodes);
            lemma_with_branches(g0, id, views);
        }
    }

    /// Appends `branches` to the branches at the node `id`.
    pub fn add_branches(&mut self, id: Oid, branches: Vec<Branch>)
        requires
            old(self).wf(),
            old(self)@.contains(id),
        ensures
            final(self).wf(),
            final(self)@ == old(self)@.with_branches(
                id,
                old(self)@.nodes[id].branches + branch_views(branches@),
            ),
    {
        let i = match self.find(id) {
            Some(i) => i,
            None => 0,
        };
        let ghost added = branch_views(branches@);
        let mut branches = branches;
        self.nodes[i].branches.append(&mut branches);
        proof {
            let g0 = old(self)@;
            let all = g0.nodes[id].branches + added;
            lemma_update(old(self).nodes@, i as int, self.nodes@[i as int]);
            assert(self.nodes@ =~= old(self).nodes@.update(i as int, self.nodes@[i as int]));
            assert(self.nodes@[i as int]@.branches =~= all);
            assert(self@.nodes =~= g0.with_branches(id, all).nodes);
            lemma_with_branches(g0, id, all);
        }
    }

    /// The nodes breadth first: the root, then its children, then theirs.
    pub fn breadth_first(&self) -> (ids: Vec<Oid>)
        requires
            self.sound(),
        ensures
            ids@ == breadth_first(self@),
            self@.contains_all(ids@),
    {
        let limit = self.len();
        let ghost goal = breadth_first(self@);
        let mut out: Vec<Oid> = Vec::new();
        let mut level: Vec<Oid> = Vec::new();
        level.push(self.root_id);
        assert(level@ =~= seq![self@.root_id]);
        assert(out@ + goal =~= goal);
        let mut left = limit;
        while left > 0 && level.len() > 0
            invariant
                self.sound(),
                self@.contains_all(level@),
                self@.contains_all(out@),
                out@ + breadth_first_from(self@, level@, left as nat) == goal,
            ensures
                self@.contains_all(out@),
                out@ == goal,
            decreases left,
        {
            let ghost under = level_below(self@, level@);
            let mut next: Vec<Oid> = Vec::new();
            let mut i: usize = 0;
            assert(level@.skip(0) =~= level@);
            assert(next@ + under =~= under);
            while i < level.len()
                invariant
                    i <= level.len(),
                    self.sound(),
                    self@.contains_all(level@),
                    self@.contains_all(next@),
                    next@ + level_below(self@, level@.skip(i as int)) == under,
                decreases level.len() - i,
            {
                proof {
                    assert(level@.skip(i as int).drop_first() =~= level@.skip(i as int + 1));
                    assert(level@.skip(i as int)[0] == level@[i as int]);
                    assert(self@.contains(level@[i as int]));
                }
                let ghost before = next@;
                let node = self.node(level[i]);
                let mut kids = node.children.clone();
                proof {
                    assert forall|k: int| 0 <= k < kids@.len() implies self@.contains(#[trigger] kids@[k]) by {
                        assert(self@.contains(self@.nodes[level@[i as int]].children[k]));
                    }
                    assert((before + kids@) + level_below(self@, level@.skip(i as int + 1))
                        =~= before + (kids@ + level_below(self@, level@.skip(i as int + 1))));
                }
                next.append(&mut kids);
                i += 1;
            }
            proof {
                assert(next@ =~= under);
                assert((out@ + level@) + breadth_first_from(self@, under, (left - 1) as nat) =~= out@
                    + (level@ + breadth_first_from(self@, under, (left - 1) as nat)));
            }
            let ghost done = out@;
            out.append(&mut level);
            level = next;
            left -= 1;
        }
        proof {
            assert(out@ + Seq::<Oid>::empty() =~= out@);
        }
        out
    }

    /// Those of `ids` that are nodes of the graph, in order.
    fn present(&self, ids: &Vec<Oid>, Ghost(gone): Ghost<Set<Oid>>) -> (r: Vec<Oid>)
        requires
            self.inv(),
            forall|k: int| 0 <= k < ids.len() ==> (self@.contains(#[trigger] ids@[k]) <==> !gone.contains(ids@[k])),
        ensures
            r@ == kept(ids@, gone),
    {
        let mut out: Vec<Oid> = Vec::new();
        let mut k: usize = 0;
        assert(ids@.take(0) =~= Seq::<Oid>::empty());
        while k < ids.len()
            invariant
                k <= ids.len(),
                self.inv(),
                forall|j: int| 0 <= j < ids.len() ==> (self@.contains(#[trigger] ids@[j]) <==> !gone.contains(ids@[j])),
                out@ == kept(ids@.take(k as int), gone),
            decreases ids.len() - k,
        {
            proof {
                assert(ids@.take(k as int + 1).drop_last() =~= ids@.take(k as int));
                assert(ids@.take(k as int + 1).last() == ids@[k as int]);
            }
            if self.find(ids[k]).is_some() {
                out.push(ids[k]);
            }
            k += 1;
        }
        assert(ids@.take(ids.len() as int) =~= ids@);
        out
    }

    /// Takes out of the store every node that `child_id` reaches.
    fn extract(&mut self, child_id: Oid, Ghost(g): Ghost<GraphView>) -> (moved: Vec<Node>)
        requires
            old(self).inv(),
            by_id(old(self).nodes@) == g.nodes,
            g.wf(),
            g.contains(child_id),
        ensures
            final(self).inv(),
            final(self).root_id == old(self).root_id,
            distinct(moved@),
            by_id(moved@) == g.nodes.restrict(g.below(child_id)),
            by_id(final(self).nodes@) == g.nodes.remove_keys(g.below(child_id)),
    {
        let mut moved: Vec<Node> = Vec::new();
        let mut queue: Vec<Oid> = Vec::new();
        queue.push(child_id);
        proof {
            assert(queue@ =~= seq![child_id]);
            lemma_extract_start(g, child_id, self.nodes@);
        }
        while queue.len() > 0
            invariant
                g.wf(),
                self.root_id == old(self).root_id,
                distinct(self.nodes@),
                extracting(g, child_id, self.nodes@, moved@, queue@),
            decreases self.nodes.len(), queue.len(),
        {
            let ghost queue_before = queue@;
            let ghost moved_before = moved@;
            let ghost nodes_before = self.nodes@;
            let id = queue.pop().unwrap();
            assert(queue@ =~= queue_before.drop_last());
            match self.find(id) {
                Some(i) => {
                    proof {
                        lemma_extract_move(g, child_id, nodes_before, moved_before, queue_before, i as int);
                    }
                    let node = self.nodes.remove(i);
                    let mut kids = node.children.clone();
                    queue.append(&mut kids);
                    moved.push(node);
                    assert(queue@ =~= queue_before.drop_last() + nodes_before[i as int].children@);
                },
                None => {
                    proof {
                        lemma_extract_skip(g, child_id, nodes_before, moved_before, queue_before);
                    }
                },
            }
        }
        proof {
            assert(queue@ =~= Seq::<Oid>::empty());
            lemma_extract_done(g, child_id, self.nodes@, moved@);
        }
        moved
    }

    /// Takes out of each node's children those that are no longer in the store.
    fn drop_edges(&mut self, Ghost(g): Ghost<GraphView>, Ghost(gone): Ghost<Set<Oid>>)
        requires
            old(self).inv(),
            g.closed(),
            by_id(old(self).nodes@) == g.nodes.remove_keys(gone),
        ensures
            final(self).inv(),
            final(self).root_id == old(self).root_id,
            by_id(final(self).nodes@) == cleaned(g, gone),
    {
        let ghost start = self.nodes@;
        let mut i: usize = 0;
        proof {
            reveal(cleaning);
        }
        while i < self.nodes.len()
            invariant
                i <= self.nodes.len(),
                g.closed(),
                distinct(start),
                by_id(start) == g.nodes.remove_keys(gone),
                self.root_id == old(self).root_id,
                cleaning(g, gone, start, self.nodes@, i as int),
            decreases self.nodes.len() - i,
        {
            let ghost before = self.nodes@;
            proof {
                lemma_cleaning_step(g, gone, start, before, i as int);
            }
            let keep = self.present(&self.nodes[i].children, Ghost(gone));
            self.nodes[i].children = keep;
            proof {
                assert(self.nodes@ =~= before.update(i as int, self.nodes@[i as int]));
                lemma_cleaning_next(g, gone, start, before, self.nodes@[i as int], i as int);
            }
            i += 1;
        }
        proof {
            lemma_cleaning_done(g, gone, start, self.nodes@);
        }
    }

    /// Cuts the edge from `parent_id` to `child_id` and takes out of the
    /// store the subtree of `child_id`: every node that `child_id` then
    /// reaches. What is left names none of them as a child any more. Where the
    /// graph has no such edge, nothing changes and nothing is returned.
    pub fn remove_child(&mut self, parent_id: Oid, child_id: Oid) -> (r: Option<Graph>)
        requires
            old(self).wf(),
        ensures
            final(self).wf(),
            old(self)@.trimmed_to(final(self)@),
            old(self)@.tree() ==> final(self)@.tree(),
            match r {
                None => !(old(self)@.contains(parent_id) && old(self)@.nodes[parent_id].children.contains(
                    child_id,
                )) && final(self)@ == old(self)@,
                Some(removed) => {
                    &&& old(self)@.contains(parent_id)
                    &&& old(self)@.nodes[parent_id].children.contains(child_id)
                    &&& removed.sound()
                    &&& removed@ == old(self)@.detached(parent_id, child_id)
                    &&& final(self)@ == old(self)@.remaining(parent_id, child_id)
                },
            },
    {
        let p = match self.find(parent_id) {
            Some(p) => p,
            None => {
                return None;
            },
        };
        if !contains_id(&self.nodes[p].children, child_id) {
            return None;
        }
        proof {
            let kids0 = old(self)@.nodes[parent_id].children;
            let j = choose|j: int| 0 <= j < kids0.len() && kids0[j] == child_id;
            assert(old(self)@.contains(kids0[j]));
            lemma_detach(old(self)@, parent_id, child_id);
            if old(self)@.tree() {
                lemma_remaining_tree(old(self)@, parent_id, child_id);
            }
        }
        self.remove_edge(parent_id, child_id);
        let ghost g = self@;
        assert(g.nodes.dom() =~= old(self)@.nodes.dom());
        let moved = self.extract(child_id, Ghost(g));
        self.drop_edges(Ghost(g), Ghost(g.below(child_id)));
        let removed = Graph { root_id: child_id, nodes: moved };
        proof {
            reveal(cleaned);
            assert(self@.nodes =~= old(self)@.remaining(parent_id, child_id).nodes);
            assert(removed@.nodes =~= old(self)@.detached(parent_id, child_id).nodes);
        }
        Some(removed)
    }
}

} // verus!
