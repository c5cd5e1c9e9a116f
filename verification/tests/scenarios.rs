use git_stack::config::Fixup;
use git_stack::git::branch::{Branch, Branches};
use git_stack::git::commit::Commit;
use git_stack::git::oid::Oid;
use git_stack::git::repo::MemoryRepo;
use git_stack::graph::drop::drop_by_tree_id;
use git_stack::graph::fixup::fixup;
use git_stack::graph::node::{Action, Node};
use git_stack::graph::pushable::pushable;
use git_stack::graph::rebase::rebase_branches;
use git_stack::graph::store::Graph;
use git_stack::graph::upstream::protect_branches;

fn oid(n: u128) -> Oid {
    Oid::new(0, n)
}

fn commit(n: u128, summary: &str) -> Commit {
    Commit {
        id: oid(n),
        tree_id: oid(1000 + n),
        summary: summary.as_bytes().to_vec(),
        time: 100,
        author: None,
        committer: None,
    }
}

fn branch(name: &str, n: u128) -> Branch {
    Branch { name: name.to_string(), id: oid(n), push_id: None, pull_id: None }
}

fn node(n: u128, summary: &str) -> Node {
    Node::new(commit(n, summary))
}

fn protected(n: u128, summary: &str) -> Node {
    let mut made = node(n, summary);
    made.action = Action::Protected;
    made
}

fn action(graph: &Graph, n: u128) -> Action {
    graph.get(oid(n)).unwrap().action
}

fn children(graph: &Graph, n: u128) -> Vec<Oid> {
    graph.get(oid(n)).unwrap().children.clone()
}

fn names(graph: &Graph, n: u128) -> Vec<String> {
    graph.get(oid(n)).unwrap().branches.iter().map(|b| b.name.clone()).collect()
}

#[test]
fn new_graph_holds_its_root() {
    let graph = Graph::new(node(1, "root"));
    assert_eq!(graph.root_id(), oid(1));
    assert_eq!(graph.len(), 1);
    assert!(graph.contains(oid(1)));
    assert_eq!(graph.root().action, Action::Pick);
}

#[test]
fn simple_protect() {
    // A -> B -> C, `main` at C, `feature` at B
    let mut graph = Graph::new(node(1, "A"));
    graph.insert(node(2, "B").with_branches(vec![branch("feature", 2)]), oid(1));
    graph.insert(node(3, "C").with_branches(vec![branch("main", 3)]), oid(2));

    let mut repo = MemoryRepo::new();
    repo.push(commit(1, "A"), None);
    repo.push(commit(2, "B"), Some(oid(1)));
    repo.push(commit(3, "C"), Some(oid(2)));

    let mut upstream = Branches::new();
    upstream.insert(branch("main", 3));

    protect_branches(&mut graph, &repo, &upstream);

    assert_eq!(action(&graph, 1), Action::Protected);
    assert_eq!(action(&graph, 2), Action::Protected);
    assert_eq!(action(&graph, 3), Action::Protected);
}

#[test]
fn rebase_onto_new_base() {
    // A -> B (protected), A -> D (to be picked)
    let mut graph = Graph::new(protected(1, "A"));
    graph.insert(protected(2, "B"), oid(1));
    graph.insert(node(4, "D"), oid(1));

    rebase_branches(&mut graph, oid(2));

    assert_eq!(children(&graph, 1), vec![oid(2)]);
    assert_eq!(children(&graph, 2), vec![oid(4)]);
    assert_eq!(action(&graph, 4), Action::Pick);
}

fn squash_merged() -> Graph {
    // protected A (tree 0) -> B (tree 1); F (tree 1) with `feat` branched off A
    let mut a = protected(1, "A");
    a.commit.tree_id = oid(500);
    let mut b = protected(2, "B");
    b.commit.tree_id = oid(501);
    let mut f = node(6, "F").with_branches(vec![branch("feat", 6)]);
    f.commit.tree_id = oid(501);
    let mut graph = Graph::new(a);
    graph.insert(b, oid(1));
    graph.insert(f, oid(1));
    graph
}

#[test]
fn squash_merge_detection() {
    let mut graph = squash_merged();
    rebase_branches(&mut graph, oid(2));
    drop_by_tree_id(&mut graph);
    assert_eq!(action(&graph, 6), Action::Delete);
    assert_eq!(action(&graph, 1), Action::Protected);
    assert_eq!(action(&graph, 2), Action::Protected);
}

#[test]
fn squash_merge_is_sought_on_the_way_to_the_branch_only() {
    // not rebased: B is not on the way from the root to F
    let mut graph = squash_merged();
    drop_by_tree_id(&mut graph);
    assert_eq!(action(&graph, 6), Action::Pick);
}

fn with_fixup() -> Graph {
    // root -> X ("fix bug", branch `b`) -> { Y ("fixup! fix bug") -> W, Z }
    let mut graph = Graph::new(protected(1, "root"));
    graph.insert(node(2, "fix bug").with_branches(vec![branch("b", 2)]), oid(1));
    graph.insert(node(3, "fixup! fix bug"), oid(2));
    graph.insert(node(4, "Z"), oid(2));
    graph.insert(node(5, "W"), oid(3));
    graph
}

#[test]
fn fixup_move() {
    let mut graph = with_fixup();
    fixup(&mut graph, Fixup::Move);

    assert_eq!(children(&graph, 1), vec![oid(2)]);
    assert_eq!(children(&graph, 2), vec![oid(3)]);
    assert_eq!(children(&graph, 3), vec![oid(4), oid(5)]);
    assert_eq!(names(&graph, 2), Vec::<String>::new());
    assert_eq!(names(&graph, 3), vec!["b".to_string()]);
    assert_eq!(action(&graph, 3), Action::Pick);
    assert_eq!(action(&graph, 2), Action::Pick);
    assert_eq!(graph.len(), 5);
}

#[test]
fn fixup_squash() {
    let mut graph = with_fixup();
    fixup(&mut graph, Fixup::Squash);

    assert_eq!(children(&graph, 2), vec![oid(3)]);
    assert_eq!(children(&graph, 3), vec![oid(4), oid(5)]);
    assert_eq!(names(&graph, 3), vec!["b".to_string()]);
    assert_eq!(action(&graph, 3), Action::Squash);
    assert_eq!(action(&graph, 2), Action::Pick);
    assert_eq!(action(&graph, 4), Action::Pick);
}

#[test]
fn fixup_ignore() {
    let mut graph = with_fixup();
    fixup(&mut graph, Fixup::Ignore);
    assert_eq!(children(&graph, 2), vec![oid(3), oid(4)]);
    assert_eq!(children(&graph, 3), vec![oid(5)]);
    assert_eq!(names(&graph, 2), vec!["b".to_string()]);
}

#[test]
fn pushable_branch() {
    let mut graph = Graph::new(protected(1, "root"));
    let mut unpushed = branch("b1", 2);
    unpushed.push_id = Some(oid(77));
    graph.insert(node(2, "work").with_branches(vec![unpushed]), oid(1));

    pushable(&mut graph);

    assert!(graph.get(oid(2)).unwrap().pushable);
    assert!(!graph.get(oid(1)).unwrap().pushable);
}

#[test]
fn wip_is_not_pushable() {
    let mut graph = Graph::new(protected(1, "root"));
    let mut unpushed = branch("b1", 2);
    unpushed.push_id = Some(oid(77));
    graph.insert(node(2, "WIP: work").with_branches(vec![unpushed]), oid(1));

    pushable(&mut graph);

    assert!(!graph.get(oid(2)).unwrap().pushable);
}
