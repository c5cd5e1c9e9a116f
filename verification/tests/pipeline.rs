use git_stack::config::Fixup;
use git_stack::git::branch::{Branch, Branches};
use git_stack::git::commit::Commit;
use git_stack::git::oid::Oid;
use git_stack::git::repo::MemoryRepo;
use git_stack::git::script::{Command, Script};
use git_stack::graph::drop::drop_by_tree_id;
use git_stack::graph::fixup::{can_fixup, fixup};
use git_stack::graph::node::{Action, Node};
use git_stack::graph::protect::{
    protect_foreign_branches, protect_large_branches, protect_old_branches,
};
use git_stack::graph::pushable::pushable;
use git_stack::graph::rebase::rebase_branches;
use git_stack::graph::script::to_script;
use git_stack::graph::store::Graph;
use git_stack::graph::trim::trim_old_branches;
use git_stack::graph::upstream::protect_branches;

fn oid(n: u128) -> Oid {
    Oid::new(7, n)
}

fn commit(n: u128, summary: &str, time: i64, author: &str) -> Commit {
    Commit {
        id: oid(n),
        tree_id: oid(1000 + n),
        summary: summary.as_bytes().to_vec(),
        time,
        author: Some(author.to_string()),
        committer: Some(author.to_string()),
    }
}

fn branch(name: &str, n: u128) -> Branch {
    Branch { name: name.to_string(), id: oid(n), push_id: None, pull_id: None }
}

fn node(n: u128, summary: &str, time: i64, author: &str, names: &[&str]) -> Node {
    Node::new(commit(n, summary, time, author))
        .with_branches(names.iter().map(|name| branch(name, n)).collect())
}

// 1 -> 2 -> 3 (`main`) upstream;
// 1 -> 10 "feature" -> 11 "fixup! feature" -> 12 "more" (`mine`);
// 2 -> 20 (`theirs`, by another); 1 -> 30 (`stale`, old); 3 -> 40 "WIP" (`draft`)
fn repository() -> (Graph, MemoryRepo, Branches) {
    let mut graph = Graph::new(node(1, "base", 100, "me", &[]));
    graph.insert(node(2, "one", 100, "me", &[]), oid(1));
    graph.insert(node(3, "two", 100, "me", &["main"]), oid(2));
    graph.insert(node(10, "feature", 100, "me", &[]), oid(1));
    graph.insert(node(11, "fixup! feature", 100, "me", &[]), oid(10));
    graph.insert(node(12, "more", 100, "me", &["mine"]), oid(11));
    graph.insert(node(20, "other", 100, "you", &["theirs"]), oid(2));
    graph.insert(node(30, "long ago", 5, "me", &["stale"]), oid(1));
    graph.insert(node(40, "WIP", 100, "me", &["draft"]), oid(3));

    let mut repo = MemoryRepo::new();
    repo.push(commit(1, "base", 100, "me"), None);
    repo.push(commit(2, "one", 100, "me"), Some(oid(1)));
    repo.push(commit(3, "two", 100, "me"), Some(oid(2)));

    let mut upstream = Branches::new();
    upstream.insert(branch("main", 3));
    (graph, repo, upstream)
}

fn closed(graph: &Graph) -> bool {
    graph.breadth_first().iter().all(|id| {
        graph.node(*id).children.iter().all(|child| graph.contains(*child))
    })
}

fn reached(graph: &Graph) -> Vec<u128> {
    let mut ids: Vec<u128> = graph.breadth_first().iter().map(|id| id.tail).collect();
    ids.sort();
    ids
}

fn action(graph: &Graph, n: u128) -> Action {
    graph.node(oid(n)).action
}

#[test]
fn passes_in_their_order() {
    let (mut graph, repo, upstream) = repository();

    protect_branches(&mut graph, &repo, &upstream);
    assert!(closed(&graph));
    assert_eq!(action(&graph, 1), Action::Protected);
    assert_eq!(action(&graph, 2), Action::Protected);
    assert_eq!(action(&graph, 3), Action::Protected);
    assert_eq!(action(&graph, 10), Action::Pick);

    assert_eq!(protect_large_branches(&mut graph, 5), Vec::<String>::new());
    assert!(closed(&graph));

    assert_eq!(protect_foreign_branches(&mut graph, "me"), vec!["theirs".to_string()]);
    assert!(closed(&graph));
    assert_eq!(action(&graph, 20), Action::Protected);

    assert_eq!(trim_old_branches(&mut graph, 10), vec!["stale".to_string()]);
    assert!(closed(&graph));
    assert!(!graph.contains(oid(30)));
    assert_eq!(reached(&graph), vec![1, 2, 3, 10, 11, 12, 20, 40]);

    assert_eq!(protect_old_branches(&mut graph, 10), Vec::<String>::new());

    rebase_branches(&mut graph, oid(3));
    assert!(closed(&graph));
    assert_eq!(graph.node(oid(1)).children, vec![oid(2)]);
    assert_eq!(graph.node(oid(2)).children, vec![oid(3), oid(20)]);
    assert_eq!(graph.node(oid(3)).children, vec![oid(40), oid(10)]);
    // no protected node but the new base has a child that is not protected
    for id in graph.breadth_first() {
        let at = graph.node(id);
        if at.action.is_protected() && id != oid(3) {
            assert!(at.children.iter().all(|c| graph.node(*c).action.is_protected()));
        }
    }

    drop_by_tree_id(&mut graph);
    assert!(closed(&graph));
    assert_eq!(action(&graph, 10), Action::Pick);
    assert_eq!(action(&graph, 40), Action::Pick);

    assert!(can_fixup(&graph, Fixup::Squash));
    fixup(&mut graph, Fixup::Squash);
    assert!(closed(&graph));
    assert_eq!(reached(&graph), vec![1, 2, 3, 10, 11, 12, 20, 40]);
    assert_eq!(graph.node(oid(10)).children, vec![oid(11)]);
    assert_eq!(graph.node(oid(11)).children, vec![oid(12)]);
    assert_eq!(action(&graph, 11), Action::Squash);

    pushable(&mut graph);
    assert!(closed(&graph));
    assert!(!graph.node(oid(40)).pushable);
    assert!(!graph.node(oid(12)).pushable);
    assert!(!graph.node(oid(20)).pushable);

    let script = to_script(&graph);
    assert_eq!(
        script,
        Script {
            commands: vec![],
            dependents: vec![
                Script {
                    commands: vec![
                        Command::SwitchCommit(oid(3)),
                        Command::CherryPick(oid(40)),
                        Command::CreateBranch("draft".to_string()),
                    ],
                    dependents: vec![],
                },
                Script {
                    commands: vec![
                        Command::SwitchCommit(oid(3)),
                        Command::CherryPick(oid(10)),
                        Command::Squash(oid(11)),
                        Command::CherryPick(oid(12)),
                        Command::CreateBranch("mine".to_string()),
                    ],
                    dependents: vec![],
                },
            ],
        }
    );
}

#[test]
fn squashed_branch_is_deleted_by_the_script() {
    // upstream 1 -> 2 holds the tree of the branch `done` at 10
    let mut graph = Graph::new(node(1, "base", 100, "me", &[]));
    graph.insert(node(2, "squashed", 100, "me", &["main"]), oid(1));
    let mut finished = node(10, "work", 100, "me", &["done"]);
    finished.commit.tree_id = oid(1002);
    graph.insert(finished, oid(1));
    graph.insert(node(11, "next", 100, "me", &["next"]), oid(10));
    graph.set_action(oid(1), Action::Protected);
    graph.set_action(oid(2), Action::Protected);

    rebase_branches(&mut graph, oid(2));
    drop_by_tree_id(&mut graph);
    assert!(can_fixup(&graph, Fixup::Move));
    assert!(can_fixup(&graph, Fixup::Squash));
    fixup(&mut graph, Fixup::Move);
    pushable(&mut graph);

    assert_eq!(action(&graph, 10), Action::Delete);
    assert_eq!(action(&graph, 11), Action::Pick);
    assert_eq!(
        to_script(&graph),
        Script {
            commands: vec![],
            dependents: vec![Script {
                commands: vec![
                    Command::SwitchCommit(oid(2)),
                    Command::DeleteBranch("done".to_string()),
                    Command::RegisterMark(oid(10)),
                ],
                dependents: vec![Script {
                    commands: vec![
                        Command::SwitchMark(oid(10)),
                        Command::CherryPick(oid(11)),
                        Command::CreateBranch("next".to_string()),
                    ],
                    dependents: vec![],
                }],
            }],
        }
    );
}
