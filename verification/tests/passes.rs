use git_stack::config::Fixup;
use git_stack::git::branch::{Branch, Branches};
use git_stack::git::commit::Commit;
use git_stack::git::oid::Oid;
use git_stack::git::repo::MemoryRepo;
use git_stack::graph::drop::drop_by_tree_id;
use git_stack::graph::fixup::{can_fixup, fixup, splice_after, splice_between};
use git_stack::graph::node::{Action, Node};
use git_stack::graph::protect::{
    is_branch_old, is_personal_branch, mark_branch_protected, protect_foreign_branches,
    protect_large_branches, protect_old_branches,
};
use git_stack::graph::pushable::{pushable, Cause, Verdict};
use git_stack::graph::rebase::rebase_branches;
use git_stack::graph::store::Graph;
use git_stack::graph::trim::trim_old_branches;
use git_stack::graph::upstream::{protect_branches, protect_history};

fn oid(n: u128) -> Oid {
    Oid::new(0, n)
}

fn commit(n: u128, summary: &str) -> Commit {
    Commit {
        id: oid(n),
        tree_id: oid(1000 + n),
        summary: summary.as_bytes().to_vec(),
        time: 100,
        author: None,
        committer: None,
    }
}

fn branch(name: &str, n: u128) -> Branch {
    Branch { name: name.to_string(), id: oid(n), push_id: None, pull_id: None }
}

fn node(n: u128, summary: &str) -> Node {
    Node::new(commit(n, summary))
}

fn named(n: u128, summary: &str, name: &str) -> Node {
    node(n, summary).with_branches(vec![branch(name, n)])
}

fn at(mut made: Node, time: i64) -> Node {
    made.commit.time = time;
    made
}

fn tree(mut made: Node, n: u128) -> Node {
    made.commit.tree_id = oid(n);
    made
}

fn by(mut made: Node, author: Option<&str>, committer: Option<&str>) -> Node {
    made.commit.author = author.map(|a| a.to_string());
    made.commit.committer = committer.map(|c| c.to_string());
    made
}

fn protected(mut made: Node) -> Node {
    made.action = Action::Protected;
    made
}

// the nodes 1 to `upto` as they are
fn snapshot(graph: &Graph, upto: u128) -> Vec<Node> {
    (1..=upto).map(|n| graph.node(oid(n)).clone()).collect()
}

fn action(graph: &Graph, n: u128) -> Action {
    graph.get(oid(n)).unwrap().action
}

fn actions(graph: &Graph, ids: &[u128]) -> Vec<Action> {
    ids.iter().map(|n| action(graph, *n)).collect()
}

fn children(graph: &Graph, n: u128) -> Vec<Oid> {
    graph.get(oid(n)).unwrap().children.clone()
}

fn names(graph: &Graph, n: u128) -> Vec<String> {
    graph.get(oid(n)).unwrap().branches.iter().map(|b| b.name.clone()).collect()
}

fn strings(names: &[&str]) -> Vec<String> {
    names.iter().map(|n| n.to_string()).collect()
}

use Action::{Delete, Pick, Protected, Squash};

// 1 (protected) -> 2 -> 3 -> 4 (`deep`)
fn line() -> Graph {
    let mut graph = Graph::new(protected(node(1, "root")));
    graph.insert(node(2, "a"), oid(1));
    graph.insert(node(3, "b"), oid(2));
    graph.insert(named(4, "c", "deep"), oid(3));
    graph
}

#[test]
fn large_branch_is_protected() {
    let mut graph = line();
    let found = protect_large_branches(&mut graph, 0);
    assert_eq!(found, strings(&["deep"]));
    assert_eq!(actions(&graph, &[1, 2, 3, 4]), vec![Protected, Protected, Protected, Protected]);
}

#[test]
fn short_branch_is_not_large() {
    let mut graph = line();
    let found = protect_large_branches(&mut graph, 1);
    assert_eq!(found, Vec::<String>::new());
    assert_eq!(actions(&graph, &[1, 2, 3, 4]), vec![Protected, Pick, Pick, Pick]);
}

#[test]
fn a_branch_ends_the_count_of_a_large_branch() {
    let mut graph = Graph::new(protected(node(1, "root")));
    graph.insert(named(2, "a", "short"), oid(1));
    graph.insert(node(3, "b"), oid(2));
    graph.insert(node(4, "c"), oid(3));
    graph.insert(named(5, "d", "far"), oid(4));
    let found = protect_large_branches(&mut graph, 0);
    assert_eq!(found, Vec::<String>::new());
    assert_eq!(actions(&graph, &[2, 3, 4, 5]), vec![Pick, Pick, Pick, Pick]);
}

#[test]
fn large_branches_are_sought_below_what_got_protected() {
    // 1 -> 2 -> 3 -> 4 (`deep`) -> 5 -> 6 -> 7 (`deeper`)
    let mut graph = line();
    graph.insert(node(5, "d"), oid(4));
    graph.insert(node(6, "e"), oid(5));
    graph.insert(named(7, "f", "deeper"), oid(6));
    let found = protect_large_branches(&mut graph, 0);
    assert_eq!(found, strings(&["deep", "deeper"]));
    assert_eq!(actions(&graph, &[5, 6, 7]), vec![Protected, Protected, Protected]);
}

#[test]
fn second_look_for_large_branches_changes_nothing() {
    // 1 -> 2 -> { 3 -> 4 (`deep`), 5 (`side`) }
    let mut graph = line();
    graph.insert(named(5, "s", "side"), oid(2));
    let found = protect_large_branches(&mut graph, 0);
    assert_eq!(found, strings(&["deep"]));
    assert_eq!(actions(&graph, &[1, 2, 3, 4, 5]), vec![Protected, Protected, Protected, Protected, Pick]);
    let once = snapshot(&graph, 5);
    assert_eq!(protect_large_branches(&mut graph, 0), Vec::<String>::new());
    assert_eq!(snapshot(&graph, 5), once);
}

#[test]
fn nothing_is_protected_below_an_unprotected_root() {
    let mut graph = Graph::new(node(1, "root"));
    graph.insert(at(named(2, "a", "stale"), 1), oid(1));
    assert_eq!(protect_large_branches(&mut graph, 0), Vec::<String>::new());
    assert_eq!(protect_old_branches(&mut graph, 50), Vec::<String>::new());
    assert_eq!(protect_foreign_branches(&mut graph, "me"), Vec::<String>::new());
    assert_eq!(trim_old_branches(&mut graph, 50), Vec::<String>::new());
    assert_eq!(actions(&graph, &[1, 2]), vec![Pick, Pick]);
    assert_eq!(graph.len(), 2);
}

// 1 (protected) -> { 2 (10, `stale`) -> 3 (5, `staler`), 4 (10) -> 5 (50, `fresh`) }
fn aged() -> Graph {
    let mut graph = Graph::new(protected(at(node(1, "root"), 1)));
    graph.insert(at(named(2, "a", "stale"), 10), oid(1));
    graph.insert(at(named(3, "b", "staler"), 5), oid(2));
    graph.insert(at(node(4, "c"), 10), oid(1));
    graph.insert(at(named(5, "d", "fresh"), 50), oid(4));
    graph
}

#[test]
fn branch_age_is_that_of_its_youngest_commit() {
    let graph = aged();
    assert!(is_branch_old(&graph, oid(2), 20, 5));
    assert!(is_branch_old(&graph, oid(2), 10, 5));
    assert!(!is_branch_old(&graph, oid(2), 9, 5));
    assert!(!is_branch_old(&graph, oid(4), 20, 5));
    assert!(is_branch_old(&graph, oid(4), 50, 5));
    assert!(is_branch_old(&graph, oid(3), 5, 5));
    // looked at no further than asked
    assert!(is_branch_old(&graph, oid(4), 20, 0));
}

#[test]
fn old_branch_is_protected() {
    let mut graph = aged();
    let found = protect_old_branches(&mut graph, 20);
    assert_eq!(found, strings(&["stale", "staler"]));
    assert_eq!(actions(&graph, &[1, 2, 3, 4, 5]), vec![Protected, Protected, Protected, Pick, Pick]);
}

#[test]
fn second_look_for_old_branches_changes_nothing() {
    let mut graph = aged();
    protect_old_branches(&mut graph, 20);
    let once = snapshot(&graph, 5);
    let found = protect_old_branches(&mut graph, 20);
    assert_eq!(found, Vec::<String>::new());
    assert_eq!(snapshot(&graph, 5), once);
    assert_eq!(graph.len(), 5);
}

#[test]
fn second_look_for_foreign_branches_changes_nothing() {
    let mut graph = authored();
    protect_foreign_branches(&mut graph, "me");
    let once = snapshot(&graph, 5);
    assert_eq!(protect_foreign_branches(&mut graph, "me"), Vec::<String>::new());
    assert_eq!(snapshot(&graph, 5), once);
    assert_eq!(graph.len(), 5);
}

#[test]
fn foreign_subtree_is_protected_as_a_whole() {
    // 1 (protected) -> 2 (you, `theirs`) -> 3 (you, `deeper`)
    let mut graph = Graph::new(protected(node(1, "root")));
    graph.insert(by(named(2, "a", "theirs"), Some("you"), Some("you")), oid(1));
    graph.insert(by(named(3, "b", "deeper"), Some("you"), None), oid(2));
    let found = protect_foreign_branches(&mut graph, "me");
    assert_eq!(found, strings(&["theirs", "deeper"]));
    assert_eq!(actions(&graph, &[1, 2, 3]), vec![Protected, Protected, Protected]);
}

#[test]
fn marking_takes_the_whole_subtree() {
    // 2 -> { 3 (`x`) -> 4, 5 -> 6 (`y`, `z`) }
    let mut graph = Graph::new(node(1, "root"));
    graph.insert(node(2, "a"), oid(1));
    graph.insert(named(3, "b", "x"), oid(2));
    graph.insert(node(4, "c"), oid(3));
    graph.insert(node(5, "d"), oid(2));
    graph.insert(node(6, "e").with_branches(vec![branch("y", 6), branch("z", 6)]), oid(5));
    let mut found = strings(&["before"]);
    mark_branch_protected(&mut graph, oid(2), &mut found, 6);
    assert_eq!(found, strings(&["before", "x", "y", "z"]));
    assert_eq!(
        actions(&graph, &[1, 2, 3, 4, 5, 6]),
        vec![Pick, Protected, Protected, Protected, Protected, Protected]
    );
}

#[test]
fn old_branch_is_trimmed() {
    let mut graph = aged();
    let found = trim_old_branches(&mut graph, 20);
    assert_eq!(found, strings(&["stale", "staler"]));
    assert_eq!(graph.len(), 3);
    assert_eq!(children(&graph, 1), vec![oid(4)]);
    assert!(!graph.contains(oid(2)));
    assert!(!graph.contains(oid(3)));
    assert_eq!(actions(&graph, &[1, 4, 5]), vec![Protected, Pick, Pick]);
    assert_eq!(names(&graph, 5), strings(&["fresh"]));
}

#[test]
fn everything_old_is_trimmed() {
    let mut graph = aged();
    let found = trim_old_branches(&mut graph, 50);
    assert_eq!(found, strings(&["stale", "staler", "fresh"]));
    assert_eq!(graph.len(), 1);
    assert_eq!(children(&graph, 1), Vec::<Oid>::new());
}

// 1 (protected) -> { 2 (you, `theirs`), 3 (me, `mine`), 4 -> 5 (committed by me, `ours`) }
fn authored() -> Graph {
    let mut graph = Graph::new(protected(node(1, "root")));
    graph.insert(by(named(2, "a", "theirs"), Some("you"), Some("you")), oid(1));
    graph.insert(by(named(3, "b", "mine"), Some("me"), None), oid(1));
    graph.insert(node(4, "c"), oid(1));
    graph.insert(by(named(5, "d", "ours"), Some("you"), Some("me")), oid(4));
    graph
}

#[test]
fn branch_is_personal_with_one_commit_of_the_user() {
    let graph = authored();
    let me = "me".to_string();
    assert!(!is_personal_branch(&graph, oid(2), &me, 5));
    assert!(is_personal_branch(&graph, oid(3), &me, 5));
    assert!(is_personal_branch(&graph, oid(4), &me, 5));
    assert!(is_personal_branch(&graph, oid(1), &me, 5));
    assert!(!is_personal_branch(&graph, oid(4), &me, 0));
    assert!(!is_personal_branch(&graph, oid(1), &"nobody".to_string(), 5));
}

#[test]
fn foreign_branch_is_protected() {
    let mut graph = authored();
    let found = protect_foreign_branches(&mut graph, "me");
    assert_eq!(found, strings(&["theirs"]));
    assert_eq!(actions(&graph, &[1, 2, 3, 4, 5]), vec![Protected, Protected, Pick, Pick, Pick]);
}

#[test]
fn every_branch_is_foreign_to_a_stranger() {
    let mut graph = authored();
    let found = protect_foreign_branches(&mut graph, "stranger");
    assert_eq!(found, strings(&["theirs", "mine", "ours"]));
    assert_eq!(
        actions(&graph, &[1, 2, 3, 4, 5]),
        vec![Protected, Protected, Protected, Protected, Protected]
    );
}

fn history() -> MemoryRepo {
    // 1 <- 2 <- 3 <- 4, 2 <- 5, and 8 <- 9 apart
    let mut repo = MemoryRepo::new();
    repo.push(commit(1, "A"), None);
    repo.push(commit(2, "B"), Some(oid(1)));
    repo.push(commit(3, "C"), Some(oid(2)));
    repo.push(commit(4, "D"), Some(oid(3)));
    repo.push(commit(5, "E"), Some(oid(2)));
    repo.push(commit(8, "X"), None);
    repo.push(commit(9, "Y"), Some(oid(8)));
    repo
}

fn grown() -> Graph {
    let mut graph = Graph::new(node(1, "A"));
    graph.insert(node(2, "B"), oid(1));
    graph.insert(node(3, "C"), oid(2));
    graph.insert(node(4, "D"), oid(3));
    graph.insert(node(5, "E"), oid(2));
    graph
}

#[test]
fn upstream_is_protected_down_to_the_root() {
    let mut graph = grown();
    let mut upstream = Branches::new();
    upstream.insert(branch("main", 3));
    protect_branches(&mut graph, &history(), &upstream);
    assert_eq!(actions(&graph, &[1, 2, 3, 4, 5]), vec![Protected, Protected, Protected, Pick, Pick]);
}

#[test]
fn upstream_is_what_the_remote_offers() {
    let mut graph = grown();
    let mut main = branch("main", 4);
    main.pull_id = Some(oid(2));
    let mut upstream = Branches::new();
    upstream.insert(main);
    protect_branches(&mut graph, &history(), &upstream);
    assert_eq!(actions(&graph, &[1, 2, 3, 4, 5]), vec![Protected, Protected, Pick, Pick, Pick]);
}

#[test]
fn unrelated_upstream_is_ignored() {
    let mut graph = grown();
    let mut upstream = Branches::new();
    upstream.insert(branch("other", 9));
    upstream.insert(branch("unknown", 77));
    protect_branches(&mut graph, &history(), &upstream);
    assert_eq!(actions(&graph, &[1, 2, 3, 4, 5]), vec![Pick, Pick, Pick, Pick, Pick]);
}

#[test]
fn upstream_below_the_root_is_ignored() {
    // the graph starts at 2; the branch points at 1, which lies below
    let mut graph = Graph::new(node(2, "B"));
    graph.insert(node(3, "C"), oid(2));
    let mut upstream = Branches::new();
    upstream.insert(branch("old", 1));
    protect_branches(&mut graph, &history(), &upstream);
    assert_eq!(actions(&graph, &[2, 3]), vec![Pick, Pick]);
}

#[test]
fn walk_stops_at_what_is_protected_already() {
    let mut graph = grown();
    graph.set_action(oid(2), Protected);
    let mut upstream = Branches::new();
    upstream.insert(branch("main", 4));
    protect_branches(&mut graph, &history(), &upstream);
    assert_eq!(actions(&graph, &[1, 2, 3, 4, 5]), vec![Pick, Protected, Protected, Protected, Pick]);
}

#[test]
fn walk_stops_at_the_root() {
    // the history goes on below the root of the graph
    let mut graph = Graph::new(node(2, "B"));
    graph.insert(node(3, "C"), oid(2));
    let walked = vec![commit(3, "C"), commit(7, "?"), commit(2, "B"), commit(1, "A")];
    protect_history(&mut graph, &walked);
    assert_eq!(actions(&graph, &[2, 3]), vec![Protected, Protected]);

    let mut other = grown();
    protect_history(&mut other, &vec![commit(3, "C"), commit(1, "A"), commit(2, "B")]);
    assert_eq!(actions(&other, &[1, 2, 3]), vec![Protected, Pick, Protected]);
}

#[test]
fn protecting_upstream_twice_is_protecting_it_once() {
    let mut upstream = Branches::new();
    upstream.insert(branch("main", 3));
    upstream.insert(branch("next", 5));
    upstream.insert(branch("other", 9));
    let repo = history();

    let mut once = grown();
    protect_branches(&mut once, &repo, &upstream);
    let mut twice = grown();
    protect_branches(&mut twice, &repo, &upstream);
    protect_branches(&mut twice, &repo, &upstream);

    assert_eq!(actions(&once, &[1, 2, 3, 4, 5]), vec![Protected, Protected, Protected, Pick, Protected]);
    for n in 1..=5 {
        assert_eq!(once.node(oid(n)), twice.node(oid(n)));
    }
}

#[test]
fn protection_is_kept_by_the_protecting_passes() {
    let mut graph = aged();
    graph.set_action(oid(5), Protected);
    protect_large_branches(&mut graph, 0);
    assert_eq!(action(&graph, 5), Protected);
    protect_old_branches(&mut graph, 0);
    assert_eq!(action(&graph, 5), Protected);
    protect_foreign_branches(&mut graph, "me");
    assert_eq!(action(&graph, 5), Protected);
    assert_eq!(action(&graph, 1), Protected);
    let mut upstream = Branches::new();
    upstream.insert(branch("main", 2));
    protect_branches(&mut graph, &history(), &upstream);
    assert_eq!(action(&graph, 5), Protected);
    trim_old_branches(&mut graph, 0);
    assert_eq!(action(&graph, 5), Protected);
    assert_eq!(action(&graph, 1), Protected);
}

#[test]
fn rebase_moves_every_stack_to_the_new_base() {
    // 1 -> { 2 -> { 3, 6 }, 4 -> 5 }, protected: 1, 2, 3
    let mut graph = Graph::new(protected(node(1, "A")));
    graph.insert(protected(node(2, "B")), oid(1));
    graph.insert(protected(node(3, "C")), oid(2));
    graph.insert(node(4, "D"), oid(1));
    graph.insert(node(5, "E"), oid(4));
    graph.insert(node(6, "F"), oid(2));

    rebase_branches(&mut graph, oid(3));

    assert_eq!(children(&graph, 1), vec![oid(2)]);
    assert_eq!(children(&graph, 2), vec![oid(3)]);
    assert_eq!(children(&graph, 3), vec![oid(4), oid(6)]);
    assert_eq!(children(&graph, 4), vec![oid(5)]);
    assert_eq!(actions(&graph, &[1, 2, 3, 4, 5, 6]), vec![Protected, Protected, Protected, Pick, Pick, Pick]);
    assert_eq!(graph.len(), 6);
}

#[test]
fn rebase_onto_where_the_stacks_are_changes_nothing() {
    let mut graph = Graph::new(protected(node(1, "A")));
    graph.insert(node(2, "B"), oid(1));
    graph.insert(node(3, "C"), oid(1));
    rebase_branches(&mut graph, oid(1));
    assert_eq!(children(&graph, 1), vec![oid(2), oid(3)]);
}

#[test]
fn revert_is_not_dropped() {
    let mut graph = Graph::new(protected(tree(node(1, "root"), 500)));
    graph.insert(tree(named(2, "Revert \"feature\"", "undo"), 500), oid(1));
    drop_by_tree_id(&mut graph);
    assert_eq!(actions(&graph, &[1, 2]), vec![Protected, Pick]);
}

#[test]
fn revert_on_the_way_keeps_the_branch() {
    let mut graph = Graph::new(protected(tree(node(1, "root"), 500)));
    graph.insert(node(2, "Revert \"feature\""), oid(1));
    graph.insert(tree(named(3, "feature", "again"), 500), oid(2));
    drop_by_tree_id(&mut graph);
    assert_eq!(actions(&graph, &[1, 2, 3]), vec![Protected, Pick, Pick]);
}

#[test]
fn branch_is_dropped_with_the_commits_that_lead_to_it() {
    // 1 (tree 500) -> 2 -> 3 (`done`, tree 500) -> 4 (`more`)
    let mut graph = Graph::new(protected(tree(node(1, "root"), 500)));
    graph.insert(node(2, "a"), oid(1));
    graph.insert(tree(named(3, "b", "done"), 500), oid(2));
    graph.insert(named(4, "c", "more"), oid(3));
    drop_by_tree_id(&mut graph);
    assert_eq!(actions(&graph, &[1, 2, 3, 4]), vec![Protected, Delete, Delete, Pick]);
}

#[test]
fn only_the_first_branch_of_a_stack_is_dropped() {
    // 1 (tree 500) -> 2 (`first`) -> 3 (`second`, tree 500)
    let mut graph = Graph::new(protected(tree(node(1, "root"), 500)));
    graph.insert(named(2, "a", "first"), oid(1));
    graph.insert(tree(named(3, "b", "second"), 500), oid(2));
    drop_by_tree_id(&mut graph);
    assert_eq!(actions(&graph, &[1, 2, 3]), vec![Protected, Pick, Pick]);
}

#[test]
fn trees_are_those_on_the_way_from_the_root() {
    // 1 (500) -> { 2 (501, protected) -> 4 (`late`, 500), 3 (`apart`, 501) }
    let mut graph = Graph::new(protected(tree(node(1, "root"), 500)));
    graph.insert(protected(tree(node(2, "a"), 501)), oid(1));
    graph.insert(tree(named(3, "b", "apart"), 501), oid(1));
    graph.insert(tree(named(4, "c", "late"), 500), oid(2));
    drop_by_tree_id(&mut graph);
    assert_eq!(actions(&graph, &[1, 2, 3, 4]), vec![Protected, Protected, Pick, Delete]);
}

#[test]
fn fixups_come_behind_their_targets() {
    // 1 -> 2 "a" -> 3 "b" -> 4 "fixup! a" -> 5 "fixup! b" -> 6 "c" (`t`)
    let mut graph = Graph::new(protected(node(1, "root")));
    graph.insert(node(2, "a"), oid(1));
    graph.insert(node(3, "b"), oid(2));
    graph.insert(node(4, "fixup! a"), oid(3));
    graph.insert(node(5, "fixup! b"), oid(4));
    graph.insert(named(6, "c", "t"), oid(5));

    fixup(&mut graph, Fixup::Squash);

    assert_eq!(children(&graph, 1), vec![oid(2)]);
    assert_eq!(children(&graph, 2), vec![oid(4)]);
    assert_eq!(children(&graph, 4), vec![oid(3)]);
    assert_eq!(children(&graph, 3), vec![oid(5)]);
    assert_eq!(children(&graph, 5), vec![oid(6)]);
    assert_eq!(children(&graph, 6), Vec::<Oid>::new());
    assert_eq!(actions(&graph, &[1, 2, 3, 4, 5, 6]), vec![Protected, Pick, Pick, Squash, Squash, Pick]);
    assert_eq!(names(&graph, 6), strings(&["t"]));
    assert_eq!(graph.len(), 6);
}

#[test]
fn fixups_of_one_commit_keep_their_order() {
    // 1 -> 2 "a" -> 3 "fixup! a" -> 4 "fixup! a" -> 5 "t"
    let mut graph = Graph::new(protected(node(1, "root")));
    graph.insert(node(2, "a"), oid(1));
    graph.insert(node(3, "fixup! a"), oid(2));
    graph.insert(node(4, "fixup! a"), oid(3));
    graph.insert(node(5, "t"), oid(4));

    fixup(&mut graph, Fixup::Move);

    assert_eq!(children(&graph, 2), vec![oid(3)]);
    assert_eq!(children(&graph, 3), vec![oid(4)]);
    assert_eq!(children(&graph, 4), vec![oid(5)]);
    assert_eq!(actions(&graph, &[2, 3, 4, 5]), vec![Pick, Pick, Pick, Pick]);
}

#[test]
fn fixup_without_target_comes_before_the_stack() {
    let mut graph = Graph::new(protected(node(1, "root")));
    graph.insert(node(2, "feature"), oid(1));
    graph.insert(named(3, "fixup! other", "tip"), oid(2));

    fixup(&mut graph, Fixup::Squash);

    assert_eq!(children(&graph, 1), vec![oid(3)]);
    assert_eq!(children(&graph, 3), vec![oid(2)]);
    assert_eq!(children(&graph, 2), Vec::<Oid>::new());
    assert_eq!(names(&graph, 2), strings(&["tip"]));
    assert_eq!(actions(&graph, &[1, 2, 3]), vec![Protected, Pick, Pick]);
}

#[test]
fn fixups_without_target_come_in_the_order_of_their_summaries() {
    // 1 -> 2 "feature" -> 3 "fixup! zz" -> 4 "fixup! aa"
    let mut graph = Graph::new(protected(node(1, "root")));
    graph.insert(node(2, "feature"), oid(1));
    graph.insert(node(3, "fixup! zz"), oid(2));
    graph.insert(node(4, "fixup! aa"), oid(3));

    fixup(&mut graph, Fixup::Move);

    assert_eq!(children(&graph, 1), vec![oid(3)]);
    assert_eq!(children(&graph, 3), vec![oid(4)]);
    assert_eq!(children(&graph, 4), vec![oid(2)]);
    assert_eq!(children(&graph, 2), Vec::<Oid>::new());
}

#[test]
fn fixup_at_the_head_of_a_stack_stays() {
    // the first commit of a stack is not looked at as a fixup
    let mut graph = Graph::new(protected(node(1, "root")));
    graph.insert(node(2, "fixup! x"), oid(1));
    graph.insert(node(3, "x"), oid(2));
    fixup(&mut graph, Fixup::Squash);
    assert_eq!(children(&graph, 1), vec![oid(2)]);
    assert_eq!(children(&graph, 2), vec![oid(3)]);
    assert_eq!(actions(&graph, &[2, 3]), vec![Pick, Pick]);
}

#[test]
fn fixup_walks_through_what_is_to_be_deleted() {
    // 1 -> 2 (delete) -> 3 "a" -> 4 "fixup! a"
    let mut graph = Graph::new(protected(node(1, "root")));
    let mut gone = node(2, "gone");
    gone.action = Delete;
    graph.insert(gone, oid(1));
    graph.insert(node(3, "a"), oid(2));
    graph.insert(named(4, "fixup! a", "tip"), oid(3));
    graph.insert(node(5, "b"), oid(4));

    fixup(&mut graph, Fixup::Squash);

    assert_eq!(children(&graph, 2), vec![oid(3)]);
    assert_eq!(children(&graph, 3), vec![oid(4)]);
    assert_eq!(children(&graph, 4), vec![oid(5)]);
    assert_eq!(names(&graph, 4), strings(&["tip"]));
    assert_eq!(actions(&graph, &[1, 2, 3, 4, 5]), vec![Protected, Delete, Pick, Squash, Pick]);
}

#[test]
fn fixup_keeps_every_commit() {
    let mut graph = Graph::new(protected(node(1, "root")));
    graph.insert(node(2, "a"), oid(1));
    graph.insert(node(3, "fixup! a"), oid(2));
    graph.insert(node(4, "fixup! q"), oid(3));
    graph.insert(node(5, "c"), oid(2));
    let before: Vec<Commit> = (1..=5).map(|n| graph.node(oid(n)).commit.clone()).collect();

    fixup(&mut graph, Fixup::Move);

    assert_eq!(graph.len(), 5);
    let after: Vec<Commit> = (1..=5).map(|n| graph.node(oid(n)).commit.clone()).collect();
    assert_eq!(before, after);
    assert_eq!(actions(&graph, &[1, 2, 3, 4, 5]), vec![Protected, Pick, Pick, Pick, Pick]);
    let mut reached = graph.breadth_first();
    reached.sort_by_key(|id| id.tail);
    assert_eq!(reached, vec![oid(1), oid(2), oid(3), oid(4), oid(5)]);
}

#[test]
fn a_stack_of_commits_to_replay_can_be_worked_on() {
    let mut graph = Graph::new(protected(node(1, "root")));
    let mut gone = node(2, "gone");
    gone.action = Delete;
    graph.insert(gone, oid(1));
    graph.insert(node(3, "a"), oid(2));
    graph.insert(node(4, "fixup! a"), oid(3));
    assert!(can_fixup(&graph, Fixup::Move));
    assert!(can_fixup(&graph, Fixup::Squash));
    assert!(can_fixup(&graph, Fixup::Ignore));
}

#[test]
fn a_protected_commit_inside_a_stack_stops_the_pass() {
    let mut graph = Graph::new(protected(node(1, "root")));
    graph.insert(node(2, "a"), oid(1));
    graph.insert(protected(node(3, "b")), oid(2));
    assert!(!can_fixup(&graph, Fixup::Move));
    assert!(!can_fixup(&graph, Fixup::Squash));
    assert!(can_fixup(&graph, Fixup::Ignore));

    let mut graph = Graph::new(protected(node(1, "root")));
    graph.insert(node(2, "a"), oid(1));
    let mut gone = node(3, "b");
    gone.action = Delete;
    graph.insert(gone, oid(2));
    assert!(!can_fixup(&graph, Fixup::Move));
}

#[test]
fn a_fixup_squashed_already_stops_squashing() {
    let mut graph = Graph::new(protected(node(1, "root")));
    graph.insert(node(2, "a"), oid(1));
    graph.insert(node(3, "fixup! a"), oid(2));
    fixup(&mut graph, Fixup::Squash);
    assert_eq!(actions(&graph, &[1, 2, 3]), vec![Protected, Pick, Squash]);
    assert!(!can_fixup(&graph, Fixup::Squash));
    assert!(can_fixup(&graph, Fixup::Move));

    // a squashed commit that is no fixup is in nobody's way
    let mut graph = Graph::new(protected(node(1, "root")));
    graph.insert(node(2, "a"), oid(1));
    let mut folded = node(3, "b");
    folded.action = Squash;
    graph.insert(folded, oid(2));
    assert!(can_fixup(&graph, Fixup::Squash));
}

#[test]
fn a_squashed_fixup_that_finds_no_commit_is_in_nobody_s_way() {
    // 1 -> 2 "a" -> 3 "fixup! zz", squashed already
    let mut graph = Graph::new(protected(node(1, "root")));
    graph.insert(node(2, "a"), oid(1));
    let mut folded = node(3, "fixup! zz");
    folded.action = Squash;
    graph.insert(folded, oid(2));
    assert!(can_fixup(&graph, Fixup::Squash));
    fixup(&mut graph, Fixup::Squash);
    assert_eq!(children(&graph, 1), vec![oid(3)]);
    assert_eq!(children(&graph, 3), vec![oid(2)]);
    assert_eq!(actions(&graph, &[1, 2, 3]), vec![Protected, Pick, Squash]);
}

#[test]
fn the_test_for_fixup_changes_nothing() {
    let mut graph = Graph::new(protected(node(1, "root")));
    graph.insert(node(2, "a"), oid(1));
    graph.insert(node(3, "fixup! a"), oid(2));
    graph.insert(node(4, "b"), oid(3));
    let before = snapshot(&graph, 4);
    assert!(can_fixup(&graph, Fixup::Squash));
    assert_eq!(snapshot(&graph, 4), before);
    let copy = graph.duplicate();
    assert_eq!(snapshot(&copy, 4), before);
    assert_eq!(copy.root_id(), oid(1));
}

#[test]
fn without_a_protected_root_there_is_nothing_to_work_on() {
    let mut graph = Graph::new(node(1, "root"));
    graph.insert(node(2, "a"), oid(1));
    graph.insert(protected(node(3, "b")), oid(2));
    assert!(can_fixup(&graph, Fixup::Squash));
    fixup(&mut graph, Fixup::Squash);
    assert_eq!(actions(&graph, &[1, 2, 3]), vec![Pick, Pick, Protected]);
}

#[test]
fn splice_after_hands_children_and_branches_to_the_end() {
    let mut graph = Graph::new(node(1, "root"));
    graph.insert(named(2, "a", "here"), oid(1));
    graph.insert(node(3, "b"), oid(2));
    graph.insert(node(4, "c"), oid(2));
    graph.insert(node(5, "f"), oid(1));
    graph.insert(node(6, "g"), oid(1));
    graph.remove_edge(oid(1), oid(5));
    graph.remove_edge(oid(1), oid(6));

    splice_after(&mut graph, oid(2), vec![oid(5), oid(6)]);

    assert_eq!(children(&graph, 1), vec![oid(2)]);
    assert_eq!(children(&graph, 2), vec![oid(6)]);
    assert_eq!(children(&graph, 6), vec![oid(5)]);
    assert_eq!(children(&graph, 5), vec![oid(3), oid(4)]);
    assert_eq!(names(&graph, 2), Vec::<String>::new());
    assert_eq!(names(&graph, 5), strings(&["here"]));

    splice_after(&mut graph, oid(2), Vec::new());
    assert_eq!(children(&graph, 2), vec![oid(6)]);
}

#[test]
fn splice_between_puts_a_chain_on_an_edge() {
    let mut graph = Graph::new(node(1, "root"));
    graph.insert(named(2, "a", "here"), oid(1));
    graph.insert(node(3, "b"), oid(1));
    graph.insert(node(5, "f"), oid(1));
    graph.insert(node(6, "g"), oid(1));
    graph.remove_edge(oid(1), oid(5));
    graph.remove_edge(oid(1), oid(6));

    let top = splice_between(&mut graph, oid(1), oid(2), vec![oid(5), oid(6)]);

    assert_eq!(top, oid(6));
    assert_eq!(children(&graph, 1), vec![oid(3), oid(6)]);
    assert_eq!(children(&graph, 6), vec![oid(5)]);
    assert_eq!(children(&graph, 5), vec![oid(2)]);
    assert_eq!(names(&graph, 2), strings(&["here"]));

    assert_eq!(splice_between(&mut graph, oid(1), oid(3), Vec::new()), oid(3));
    assert_eq!(children(&graph, 1), vec![oid(6), oid(3)]);
}

fn unpushed(n: u128, summary: &str, name: &str) -> Node {
    let mut b = branch(name, n);
    b.push_id = Some(oid(900));
    node(n, summary).with_branches(vec![b])
}

fn pushed(n: u128, summary: &str, name: &str) -> Node {
    let mut b = branch(name, n);
    b.push_id = Some(oid(n));
    node(n, summary).with_branches(vec![b])
}

fn marks(graph: &Graph, ids: &[u128]) -> Vec<bool> {
    ids.iter().map(|n| graph.node(oid(*n)).pushable).collect()
}

#[test]
fn pushed_branch_is_not_pushable() {
    let mut graph = Graph::new(protected(node(1, "root")));
    graph.insert(pushed(2, "a", "done"), oid(1));
    graph.insert(unpushed(3, "b", "later"), oid(1));
    graph.insert(named(4, "c", "new"), oid(1));
    pushable(&mut graph);
    assert_eq!(marks(&graph, &[1, 2, 3, 4]), vec![false, false, true, true]);
}

#[test]
fn only_the_first_branch_of_a_stack_is_pushable() {
    let mut graph = Graph::new(protected(node(1, "root")));
    graph.insert(unpushed(2, "a", "first"), oid(1));
    graph.insert(unpushed(3, "b", "second"), oid(2));
    pushable(&mut graph);
    assert_eq!(marks(&graph, &[1, 2, 3]), vec![false, true, false]);
}

#[test]
fn commit_without_branch_counts_as_pushed() {
    // no branch at 2: all of its branches are pushed, and that holds on
    let mut graph = Graph::new(protected(node(1, "root")));
    graph.insert(node(2, "a"), oid(1));
    graph.insert(unpushed(3, "b", "tip"), oid(2));
    pushable(&mut graph);
    assert_eq!(marks(&graph, &[1, 2, 3]), vec![false, false, false]);
}

#[test]
fn branches_below_protected_commits_are_pushable() {
    let mut graph = Graph::new(protected(node(1, "root")));
    graph.insert(protected(node(2, "a")), oid(1));
    graph.insert(unpushed(3, "b", "tip"), oid(2));
    graph.insert(unpushed(4, "wip", "draft"), oid(2));
    pushable(&mut graph);
    assert_eq!(marks(&graph, &[1, 2, 3, 4]), vec![false, false, true, false]);
}

#[test]
fn nothing_is_pushable_below_an_unprotected_root() {
    let mut graph = Graph::new(node(1, "root"));
    graph.insert(unpushed(2, "a", "tip"), oid(1));
    pushable(&mut graph);
    assert_eq!(marks(&graph, &[1, 2]), vec![false, false]);
}

fn verdict(branch: &str, cause: Option<Cause>) -> Verdict {
    Verdict { branch: branch.to_string(), cause }
}

#[test]
fn a_verdict_is_given_of_the_first_branch_of_each_stack() {
    let mut graph = Graph::new(protected(node(1, "root")));
    graph.insert(pushed(2, "a", "done"), oid(1));
    graph.insert(unpushed(3, "b", "later"), oid(1));
    graph.insert(unpushed(4, "WIP: c", "draft"), oid(1));
    graph.insert(unpushed(5, "d", "behind"), oid(3));
    let found = pushable(&mut graph);
    assert_eq!(
        found,
        vec![
            verdict("done", Some(Cause::AlreadyPushed)),
            verdict("later", None),
            verdict("draft", Some(Cause::ContainsWip)),
        ]
    );
}

#[test]
fn a_cause_holds_down_the_line() {
    // 1 -> 2 (protected) -> 3 "wip a", without a branch -> 4 (`tip`)
    let mut graph = Graph::new(protected(node(1, "root")));
    graph.insert(protected(node(2, "base")), oid(1));
    graph.insert(node(3, "wip a"), oid(2));
    graph.insert(unpushed(4, "b", "tip"), oid(3));
    let found = pushable(&mut graph);
    // at 3 no branch is left to push, which counts before the marker
    assert_eq!(found, vec![verdict("tip", Some(Cause::AlreadyPushed))]);
    assert_eq!(marks(&graph, &[3, 4]), vec![false, false]);
}

#[test]
fn no_verdict_without_a_protected_root() {
    let mut graph = Graph::new(node(1, "root"));
    graph.insert(unpushed(2, "a", "tip"), oid(1));
    assert_eq!(pushable(&mut graph), Vec::<Verdict>::new());
}

#[test]
fn causes_in_words() {
    assert_eq!(Cause::AlreadyPushed.text(), "already pushed");
    assert_eq!(Cause::ContainsWip.text(), "contains WIP commit");
}
