use git_stack::git::branch::Branch;
use git_stack::git::commit::Commit;
use git_stack::git::oid::Oid;
use git_stack::graph::node::{Action, Node};
use git_stack::graph::store::Graph;

fn oid(n: u128) -> Oid {
    Oid::new(0, n)
}

fn commit(n: u128, summary: &str) -> Commit {
    Commit {
        id: oid(n),
        tree_id: oid(1000 + n),
        summary: summary.as_bytes().to_vec(),
        time: 100,
        author: None,
        committer: None,
    }
}

fn branch(name: &str, n: u128) -> Branch {
    Branch { name: name.to_string(), id: oid(n), push_id: None, pull_id: None }
}

fn node(n: u128) -> Node {
    Node::new(commit(n, "work"))
}

fn children(graph: &Graph, n: u128) -> Vec<Oid> {
    graph.get(oid(n)).unwrap().children.clone()
}

// 1 -> { 2 -> { 4, 5 -> 7 }, 3 -> 6 }
fn tree() -> Graph {
    let mut graph = Graph::new(node(1));
    graph.insert(node(2), oid(1));
    graph.insert(node(3), oid(1));
    graph.insert(node(4).with_branches(vec![branch("four", 4)]), oid(2));
    graph.insert(node(5), oid(2));
    graph.insert(node(6).with_branches(vec![branch("six", 6)]), oid(3));
    graph.insert(node(7).with_branches(vec![branch("seven", 7), branch("sept", 7)]), oid(5));
    graph
}

#[test]
fn insert_appends_children_in_order() {
    let graph = tree();
    assert_eq!(graph.len(), 7);
    assert_eq!(graph.root_id(), oid(1));
    assert_eq!(graph.root().commit, commit(1, "work"));
    assert_eq!(children(&graph, 1), vec![oid(2), oid(3)]);
    assert_eq!(children(&graph, 2), vec![oid(4), oid(5)]);
    assert_eq!(children(&graph, 7), Vec::<Oid>::new());
    assert!(graph.contains(oid(7)));
    assert!(!graph.contains(oid(8)));
    assert!(graph.get(oid(8)).is_none());
    assert_eq!(graph.node(oid(6)).branches, vec![branch("six", 6)]);
}

#[test]
fn breadth_first_goes_level_by_level() {
    let graph = tree();
    assert_eq!(
        graph.breadth_first(),
        vec![oid(1), oid(2), oid(3), oid(4), oid(5), oid(6), oid(7)]
    );
    assert_eq!(Graph::new(node(9)).breadth_first(), vec![oid(9)]);
}

#[test]
fn actions_and_push_marks_are_set() {
    let mut graph = tree();
    graph.set_action(oid(5), Action::Squash);
    graph.set_pushable(oid(4), true);
    assert_eq!(graph.node(oid(5)).action, Action::Squash);
    assert_eq!(graph.node(oid(4)).action, Action::Pick);
    assert!(graph.node(oid(4)).pushable);
    assert!(!graph.node(oid(5)).pushable);
    graph.set_pushable(oid(4), false);
    assert!(!graph.node(oid(4)).pushable);
}

#[test]
fn children_are_a_set() {
    let mut graph = tree();
    graph.add_child(oid(3), oid(7));
    graph.add_child(oid(3), oid(6));
    assert_eq!(children(&graph, 3), vec![oid(6), oid(7)]);

    graph.add_children(oid(3), &vec![oid(4), oid(7), oid(5)]);
    assert_eq!(children(&graph, 3), vec![oid(6), oid(7), oid(4), oid(5)]);

    assert!(graph.remove_edge(oid(3), oid(7)));
    assert!(!graph.remove_edge(oid(3), oid(7)));
    assert_eq!(children(&graph, 3), vec![oid(6), oid(4), oid(5)]);

    let taken = graph.take_children(oid(3));
    assert_eq!(taken, vec![oid(6), oid(4), oid(5)]);
    assert_eq!(children(&graph, 3), Vec::<Oid>::new());

    graph.set_children(oid(3), vec![oid(6)]);
    assert_eq!(children(&graph, 3), vec![oid(6)]);
}

#[test]
fn branches_move_between_nodes() {
    let mut graph = tree();
    let taken = graph.take_branches(oid(7));
    assert_eq!(taken, vec![branch("seven", 7), branch("sept", 7)]);
    assert!(graph.node(oid(7)).branches.is_empty());

    graph.add_branches(oid(4), taken);
    assert_eq!(
        graph.node(oid(4)).branches,
        vec![branch("four", 4), branch("seven", 7), branch("sept", 7)]
    );

    graph.set_branches(oid(4), vec![branch("only", 4)]);
    assert_eq!(graph.node(oid(4)).branches, vec![branch("only", 4)]);
}

#[test]
fn remove_child_takes_the_subtree_out() {
    let mut graph = tree();
    let removed = graph.remove_child(oid(1), oid(2)).unwrap();

    assert_eq!(removed.root_id(), oid(2));
    assert_eq!(removed.len(), 4);
    assert_eq!(removed.breadth_first(), vec![oid(2), oid(4), oid(5), oid(7)]);
    assert_eq!(removed.node(oid(5)).children, vec![oid(7)]);
    assert_eq!(removed.node(oid(4)).branches, vec![branch("four", 4)]);

    assert_eq!(graph.len(), 3);
    assert_eq!(children(&graph, 1), vec![oid(3)]);
    assert_eq!(graph.breadth_first(), vec![oid(1), oid(3), oid(6)]);
    assert!(!graph.contains(oid(2)));
    assert!(!graph.contains(oid(7)));
}

#[test]
fn remove_child_of_a_leaf() {
    let mut graph = tree();
    let removed = graph.remove_child(oid(5), oid(7)).unwrap();
    assert_eq!(removed.breadth_first(), vec![oid(7)]);
    assert_eq!(children(&graph, 5), Vec::<Oid>::new());
    assert_eq!(graph.len(), 6);
}

#[test]
fn remove_child_needs_the_edge() {
    let mut graph = tree();
    assert!(graph.remove_child(oid(1), oid(7)).is_none());
    assert!(graph.remove_child(oid(9), oid(2)).is_none());
    assert!(graph.remove_child(oid(2), oid(9)).is_none());
    assert!(graph.remove_child(oid(2), oid(1)).is_none());
    assert_eq!(graph.len(), 7);
    assert_eq!(children(&graph, 1), vec![oid(2), oid(3)]);
}

#[test]
fn remove_child_drops_other_edges_into_what_left() {
    // 7 gets a second parent: 3
    let mut graph = tree();
    graph.add_child(oid(3), oid(7));
    let removed = graph.remove_child(oid(1), oid(2)).unwrap();
    assert_eq!(removed.breadth_first(), vec![oid(2), oid(4), oid(5), oid(7)]);
    assert_eq!(children(&graph, 3), vec![oid(6)]);
    assert_eq!(graph.len(), 3);
}

#[test]
fn node_is_worked_on_in_place() {
    let mut graph = tree();
    {
        let found = graph.get_mut(oid(4)).unwrap();
        found.action = Action::Delete;
        found.pushable = true;
    }
    assert_eq!(graph.node(oid(4)).action, Action::Delete);
    assert!(graph.node(oid(4)).pushable);
    assert_eq!(children(&graph, 2), vec![oid(4), oid(5)]);
    assert!(graph.get_mut(oid(9)).is_none());
}

#[test]
fn ids_names_every_node_once() {
    let mut graph = tree();
    let mut all = graph.ids();
    all.sort_by_key(|id| id.tail);
    assert_eq!(all, vec![oid(1), oid(2), oid(3), oid(4), oid(5), oid(6), oid(7)]);
    graph.remove_child(oid(1), oid(2));
    let mut left = graph.ids();
    left.sort_by_key(|id| id.tail);
    assert_eq!(left, vec![oid(1), oid(3), oid(6)]);
}
