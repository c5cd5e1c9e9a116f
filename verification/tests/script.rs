use git_stack::git::branch::Branch;
use git_stack::git::commit::Commit;
use git_stack::git::oid::Oid;
use git_stack::git::script::{Command, Script};
use git_stack::graph::node::{Action, Node};
use git_stack::graph::script::{extend_dependents, node_to_script, to_script};
use git_stack::graph::store::Graph;

use Command::{
    CherryPick, CreateBranch, DeleteBranch, RegisterMark, Squash, SwitchCommit, SwitchMark,
};

fn oid(n: u128) -> Oid {
    Oid::new(0, n)
}

fn commit(n: u128) -> Commit {
    Commit {
        id: oid(n),
        tree_id: oid(1000 + n),
        summary: b"work".to_vec(),
        time: 100,
        author: None,
        committer: None,
    }
}

fn node(n: u128, action: Action, names: &[&str]) -> Node {
    let mut made = Node::new(commit(n)).with_branches(
        names
            .iter()
            .map(|name| Branch { name: name.to_string(), id: oid(n), push_id: None, pull_id: None })
            .collect(),
    );
    made.action = action;
    made
}

fn script(commands: Vec<Command>, dependents: Vec<Script>) -> Script {
    Script { commands, dependents }
}

fn create(name: &str) -> Command {
    CreateBranch(name.to_string())
}

fn delete(name: &str) -> Command {
    DeleteBranch(name.to_string())
}

#[test]
fn unprotected_graph_has_an_empty_script() {
    let mut graph = Graph::new(node(1, Action::Pick, &["main"]));
    graph.insert(node(2, Action::Pick, &["a"]), oid(1));
    let made = to_script(&graph);
    assert!(made.is_empty());
    assert_eq!(made, Script::new());
}

#[test]
fn protected_graph_has_an_empty_script() {
    let mut graph = Graph::new(node(1, Action::Protected, &["main"]));
    graph.insert(node(2, Action::Protected, &["a"]), oid(1));
    assert_eq!(to_script(&graph), Script::new());
}

#[test]
fn lone_child_is_run_in_one_go() {
    // 1 -> 2 -> 3 (`y`)
    let mut graph = Graph::new(node(1, Action::Protected, &[]));
    graph.insert(node(2, Action::Pick, &[]), oid(1));
    graph.insert(node(3, Action::Pick, &["y"]), oid(2));
    assert_eq!(
        to_script(&graph),
        script(
            vec![],
            vec![script(
                vec![SwitchCommit(oid(1)), CherryPick(oid(2)), CherryPick(oid(3)), create("y")],
                vec![]
            )]
        )
    );
}

#[test]
fn branch_ends_a_transaction() {
    // 1 -> 2 (`a`) -> 3
    let mut graph = Graph::new(node(1, Action::Protected, &[]));
    graph.insert(node(2, Action::Pick, &["a", "b"]), oid(1));
    graph.insert(node(3, Action::Pick, &[]), oid(2));
    assert_eq!(
        to_script(&graph),
        script(
            vec![],
            vec![script(
                vec![
                    SwitchCommit(oid(1)),
                    CherryPick(oid(2)),
                    create("a"),
                    create("b"),
                    RegisterMark(oid(2))
                ],
                vec![script(vec![SwitchMark(oid(2)), CherryPick(oid(3))], vec![])]
            )]
        )
    );
}

#[test]
fn fork_registers_a_mark() {
    // 1 -> 4 -> { 5 (`d`), 6 (`e`) }
    let mut graph = Graph::new(node(1, Action::Protected, &[]));
    graph.insert(node(4, Action::Pick, &[]), oid(1));
    graph.insert(node(5, Action::Pick, &["d"]), oid(4));
    graph.insert(node(6, Action::Squash, &["e"]), oid(4));
    assert_eq!(
        to_script(&graph),
        script(
            vec![],
            vec![script(
                vec![SwitchCommit(oid(1)), CherryPick(oid(4)), RegisterMark(oid(4))],
                vec![
                    script(vec![SwitchMark(oid(4)), CherryPick(oid(5)), create("d")], vec![]),
                    script(vec![SwitchMark(oid(4)), Squash(oid(6)), create("e")], vec![]),
                ]
            )]
        )
    );
}

#[test]
fn stacks_start_from_their_protected_parent() {
    // 1 -> { 2 (protected) -> 4, 3 }
    let mut graph = Graph::new(node(1, Action::Protected, &[]));
    graph.insert(node(2, Action::Protected, &["main"]), oid(1));
    graph.insert(node(3, Action::Pick, &[]), oid(1));
    graph.insert(node(4, Action::Pick, &[]), oid(2));
    assert_eq!(
        to_script(&graph),
        script(
            vec![],
            vec![
                script(vec![SwitchCommit(oid(1)), CherryPick(oid(3))], vec![]),
                script(vec![SwitchCommit(oid(2)), CherryPick(oid(4))], vec![]),
            ]
        )
    );
}

#[test]
fn deleted_node_deletes_its_branches() {
    // 1 -> 2 (delete, `old`, `older`) -> 3 (`kept`)
    let mut graph = Graph::new(node(1, Action::Protected, &[]));
    graph.insert(node(2, Action::Delete, &["old", "older"]), oid(1));
    graph.insert(node(3, Action::Pick, &["kept"]), oid(2));
    assert_eq!(
        to_script(&graph),
        script(
            vec![],
            vec![script(
                vec![SwitchCommit(oid(1)), delete("old"), delete("older"), RegisterMark(oid(2))],
                vec![script(vec![SwitchMark(oid(2)), CherryPick(oid(3)), create("kept")], vec![])]
            )]
        )
    );
}

#[test]
fn deleted_node_without_branch_is_skipped() {
    let mut graph = Graph::new(node(1, Action::Protected, &[]));
    graph.insert(node(2, Action::Delete, &[]), oid(1));
    assert_eq!(to_script(&graph), Script::new());
    assert!(node_to_script(&graph, oid(2), 2).is_none());

    graph.insert(node(3, Action::Pick, &[]), oid(2));
    assert_eq!(
        to_script(&graph),
        script(vec![], vec![script(vec![SwitchCommit(oid(1)), CherryPick(oid(3))], vec![])])
    );
}

#[test]
fn protected_node_below_a_stack_only_says_where_to_start() {
    // 2 -> 3 (protected) -> 4
    let mut graph = Graph::new(node(1, Action::Protected, &[]));
    graph.insert(node(2, Action::Pick, &[]), oid(1));
    graph.insert(node(3, Action::Protected, &["up"]), oid(2));
    graph.insert(node(4, Action::Pick, &[]), oid(3));
    assert_eq!(
        node_to_script(&graph, oid(3), 4),
        Some(script(vec![SwitchCommit(oid(3)), CherryPick(oid(4))], vec![]))
    );
    assert_eq!(
        node_to_script(&graph, oid(2), 4),
        Some(script(vec![CherryPick(oid(2)), SwitchCommit(oid(3)), CherryPick(oid(4))], vec![]))
    );
    // no further down than asked
    assert_eq!(node_to_script(&graph, oid(2), 0), Some(script(vec![CherryPick(oid(2))], vec![])));
    assert_eq!(
        node_to_script(&graph, oid(3), 0),
        Some(script(vec![SwitchCommit(oid(3))], vec![]))
    );
}

#[test]
fn lone_dependent_is_taken_in() {
    let at = node(7, Action::Pick, &[]);
    let mut made = script(vec![CherryPick(oid(7))], vec![script(vec![create("x")], vec![])]);
    let dependent =
        script(vec![CherryPick(oid(8))], vec![script(vec![CherryPick(oid(9))], vec![])]);
    extend_dependents(&at, &mut made, vec![dependent], false);
    assert_eq!(
        made,
        script(
            vec![CherryPick(oid(7)), CherryPick(oid(8))],
            vec![script(vec![create("x")], vec![]), script(vec![CherryPick(oid(9))], vec![])]
        )
    );
}

#[test]
fn dependents_in_a_transaction_start_from_a_mark() {
    let at = node(7, Action::Pick, &[]);
    let mut made = script(vec![CherryPick(oid(7))], vec![]);
    extend_dependents(&at, &mut made, vec![script(vec![CherryPick(oid(8))], vec![])], true);
    assert_eq!(
        made,
        script(
            vec![CherryPick(oid(7)), RegisterMark(oid(7))],
            vec![script(vec![SwitchMark(oid(7)), CherryPick(oid(8))], vec![])]
        )
    );

    let mut bare = script(vec![], vec![]);
    extend_dependents(&at, &mut bare, vec![], false);
    assert_eq!(bare, script(vec![RegisterMark(oid(7))], vec![]));
}

#[test]
fn fork_registers_a_mark_though_one_child_has_nothing_to_do() {
    // 2 -> { 3, 4 (to be deleted, no branch) }
    let mut graph = Graph::new(node(1, Action::Protected, &[]));
    graph.insert(node(2, Action::Pick, &[]), oid(1));
    graph.insert(node(3, Action::Pick, &[]), oid(2));
    graph.insert(node(4, Action::Delete, &[]), oid(2));
    assert_eq!(
        node_to_script(&graph, oid(2), 4),
        Some(script(
            vec![CherryPick(oid(2)), RegisterMark(oid(2))],
            vec![script(vec![SwitchMark(oid(2)), CherryPick(oid(3))], vec![])],
        ))
    );
}

#[test]
fn fork_without_work_below_registers_nothing() {
    let mut graph = Graph::new(node(1, Action::Protected, &[]));
    graph.insert(node(2, Action::Pick, &[]), oid(1));
    graph.insert(node(3, Action::Delete, &[]), oid(2));
    graph.insert(node(4, Action::Delete, &[]), oid(2));
    assert_eq!(
        node_to_script(&graph, oid(2), 4),
        Some(script(vec![CherryPick(oid(2))], vec![]))
    );
}

#[test]
fn protected_node_with_children_says_where_to_start() {
    // 2 (protected) -> 3 (to be deleted, no branch): nothing follows the switch
    let mut graph = Graph::new(node(1, Action::Pick, &[]));
    graph.insert(node(2, Action::Protected, &[]), oid(1));
    graph.insert(node(3, Action::Delete, &[]), oid(2));
    assert_eq!(
        node_to_script(&graph, oid(2), 4),
        Some(script(vec![SwitchCommit(oid(2))], vec![]))
    );
    // a protected node without children has nothing to say
    let mut graph = Graph::new(node(1, Action::Pick, &[]));
    graph.insert(node(2, Action::Protected, &["main"]), oid(1));
    assert_eq!(node_to_script(&graph, oid(2), 4), None);
}
