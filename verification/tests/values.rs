use git_stack::config::Fixup;
use git_stack::git::branch::{Branch, Branches};
use git_stack::git::bytes::{bytes_less, same_bytes, starts_with, strip_prefix};
use git_stack::git::commit::Commit;
use git_stack::git::oid::{contains_id, extend_ids, insert_id, remove_id, Oid};
use git_stack::git::repo::{MemoryRepo, Repo};
use git_stack::git::script::{Command, Script};
use git_stack::graph::node::{Action, Node};
use git_stack::graph::outstanding::Outstanding;

fn oid(n: u128) -> Oid {
    Oid::new(0, n)
}

fn bytes(text: &str) -> Vec<u8> {
    text.as_bytes().to_vec()
}

fn commit(n: u128, summary: &str) -> Commit {
    Commit {
        id: oid(n),
        tree_id: oid(1000 + n),
        summary: bytes(summary),
        time: 100,
        author: None,
        committer: None,
    }
}

fn branch(name: &str, n: u128) -> Branch {
    Branch { name: name.to_string(), id: oid(n), push_id: None, pull_id: None }
}

#[test]
fn oids_are_equal_when_both_parts_are() {
    assert_eq!(Oid::new(1, 2), Oid::new(1, 2));
    assert_ne!(Oid::new(1, 2), Oid::new(2, 2));
    assert_ne!(Oid::new(1, 2), Oid::new(1, 3));
}

#[test]
fn ids_are_kept_as_a_set_in_order() {
    let mut ids = vec![oid(3), oid(1)];
    insert_id(&mut ids, oid(2));
    insert_id(&mut ids, oid(3));
    assert_eq!(ids, vec![oid(3), oid(1), oid(2)]);
    assert!(contains_id(&ids, oid(1)));
    assert!(!contains_id(&ids, oid(9)));

    extend_ids(&mut ids, &vec![oid(1), oid(7), oid(7), oid(8)]);
    assert_eq!(ids, vec![oid(3), oid(1), oid(2), oid(7), oid(8)]);

    assert!(remove_id(&mut ids, oid(1)));
    assert!(!remove_id(&mut ids, oid(1)));
    assert_eq!(ids, vec![oid(3), oid(2), oid(7), oid(8)]);
}

#[test]
fn byte_strings_compare_like_words() {
    assert!(bytes_less(&bytes("a"), &bytes("b")));
    assert!(!bytes_less(&bytes("b"), &bytes("a")));
    assert!(!bytes_less(&bytes("a"), &bytes("a")));
    assert!(bytes_less(&bytes("a"), &bytes("ab")));
    assert!(!bytes_less(&bytes("ab"), &bytes("a")));
    assert!(bytes_less(&bytes(""), &bytes("a")));
    assert!(!bytes_less(&bytes(""), &bytes("")));
    assert!(bytes_less(&bytes("Zz"), &bytes("a")));
    assert!(same_bytes(&bytes("ab"), &bytes("ab")));
    assert!(!same_bytes(&bytes("ab"), &bytes("abc")));
    assert!(!same_bytes(&bytes("ab"), &bytes("ac")));
}

#[test]
fn prefixes_are_stripped() {
    assert!(starts_with(&bytes("fixup! x"), &bytes("fixup! ")));
    assert!(!starts_with(&bytes("fix"), &bytes("fixup! ")));
    assert!(starts_with(&bytes("x"), &bytes("")));
    assert_eq!(strip_prefix(&bytes("abc"), &bytes("ab")), Some(bytes("c")));
    assert_eq!(strip_prefix(&bytes("abc"), &bytes("abc")), Some(bytes("")));
    assert_eq!(strip_prefix(&bytes("abc"), &bytes("b")), None);
}

#[test]
fn fixup_names_its_target() {
    assert_eq!(commit(1, "fixup! fix bug").fixup_summary(), Some(bytes("fix bug")));
    assert_eq!(commit(1, "fixup! ").fixup_summary(), Some(bytes("")));
    assert_eq!(commit(1, "fixup! fixup! x").fixup_summary(), Some(bytes("fixup! x")));
    assert_eq!(commit(1, "fix bug").fixup_summary(), None);
    assert_eq!(commit(1, "fixup!").fixup_summary(), None);
    assert_eq!(commit(1, "Fixup! fix bug").fixup_summary(), None);
    assert_eq!(commit(1, "").fixup_summary(), None);
}

#[test]
fn work_in_progress_is_recognised() {
    assert_eq!(commit(1, "WIP").wip_summary(), Some(bytes("")));
    assert_eq!(commit(1, "wip").wip_summary(), Some(bytes("")));
    assert_eq!(commit(1, "WIP: parser").wip_summary(), Some(bytes(" parser")));
    assert_eq!(commit(1, "draft: parser").wip_summary(), Some(bytes(" parser")));
    assert_eq!(commit(1, "Draft:").wip_summary(), Some(bytes("")));
    assert_eq!(commit(1, "wip parser").wip_summary(), Some(bytes("parser")));
    assert_eq!(commit(1, "WIP parser").wip_summary(), Some(bytes("parser")));
    assert_eq!(commit(1, "wiper").wip_summary(), None);
    assert_eq!(commit(1, "Wip").wip_summary(), None);
    assert_eq!(commit(1, "add parser").wip_summary(), None);
    assert_eq!(commit(1, "").wip_summary(), None);
}

#[test]
fn revert_quotes_what_it_reverts() {
    assert_eq!(commit(1, "Revert \"add parser\"").revert_summary(), Some(bytes("add parser")));
    assert_eq!(commit(1, "Revert \"\"").revert_summary(), Some(bytes("")));
    assert_eq!(commit(1, "Revert \"add parser").revert_summary(), None);
    assert_eq!(commit(1, "Revert \"").revert_summary(), None);
    assert_eq!(commit(1, "Revert add parser\"").revert_summary(), None);
    assert_eq!(commit(1, "revert \"add parser\"").revert_summary(), None);
    assert_eq!(commit(1, "add parser").revert_summary(), None);
}

#[test]
fn commit_is_by_author_or_committer() {
    let mut made = commit(1, "x");
    assert!(!made.is_by(&"me".to_string()));
    made.author = Some("me".to_string());
    assert!(made.is_by(&"me".to_string()));
    assert!(!made.is_by(&"you".to_string()));
    made.author = Some("you".to_string());
    made.committer = Some("me".to_string());
    assert!(made.is_by(&"me".to_string()));
    assert!(made.is_by(&"you".to_string()));
    assert!(!made.is_by(&"".to_string()));
}

#[test]
fn duplicate_equals_the_commit() {
    let mut made = commit(5, "x");
    made.author = Some("me".to_string());
    assert_eq!(made.duplicate(), made);
}

#[test]
fn branch_tip_prefers_what_the_remote_offers() {
    let mut b = branch("main", 1);
    assert_eq!(b.tip(), oid(1));
    b.pull_id = Some(oid(2));
    assert_eq!(b.tip(), oid(2));
    b.push_id = Some(oid(3));
    assert_eq!(b.tip(), oid(2));
}

#[test]
fn branch_is_pushed_when_the_remote_holds_its_commit() {
    let mut b = branch("main", 1);
    assert!(!b.is_pushed());
    b.push_id = Some(oid(2));
    assert!(!b.is_pushed());
    b.push_id = Some(oid(1));
    assert!(b.is_pushed());
}

#[test]
fn branches_are_looked_up_by_commit() {
    let mut branches = Branches::new();
    assert!(branches.is_empty());
    assert_eq!(branches.len(), 0);
    assert_eq!(branches.oids(), Vec::<Oid>::new());

    branches.insert(branch("one", 5));
    branches.insert(branch("two", 3));
    let mut third = branch("three", 5);
    third.pull_id = Some(oid(9));
    branches.insert(third.clone());

    assert!(!branches.is_empty());
    assert_eq!(branches.len(), 3);
    assert_eq!(branches.get(2), &third);
    assert!(branches.contains_oid(oid(5)));
    assert!(branches.contains_oid(oid(3)));
    assert!(!branches.contains_oid(oid(9)));
    assert_eq!(branches.oids(), vec![oid(5), oid(3)]);
    assert_eq!(branches.tips(), vec![oid(5), oid(3), oid(9)]);
}

#[test]
fn memory_repo_walks_parents() {
    let mut repo = MemoryRepo::new();
    repo.push(commit(1, "A"), None);
    repo.push(commit(2, "B"), Some(oid(1)));
    repo.push(commit(3, "C"), Some(oid(2)));
    repo.push(commit(4, "D"), Some(oid(1)));
    repo.push(commit(5, "E"), Some(oid(42)));

    assert_eq!(repo.ids_from(oid(3)), vec![oid(3), oid(2), oid(1)]);
    assert_eq!(repo.ids_from(oid(1)), vec![oid(1)]);
    assert_eq!(repo.ids_from(oid(5)), vec![oid(5)]);
    assert_eq!(repo.ids_from(oid(42)), Vec::<Oid>::new());

    let walked = repo.commits_from(oid(4));
    assert_eq!(walked, vec![commit(4, "D"), commit(1, "A")]);

    assert_eq!(repo.merge_base(oid(3), oid(4)), Some(oid(1)));
    assert_eq!(repo.merge_base(oid(1), oid(3)), Some(oid(1)));
    assert_eq!(repo.merge_base(oid(3), oid(2)), Some(oid(2)));
    assert_eq!(repo.merge_base(oid(3), oid(5)), None);
    assert_eq!(repo.merge_base(oid(3), oid(42)), None);
}

#[test]
fn memory_repo_stops_on_a_loop() {
    let mut repo = MemoryRepo::new();
    repo.push(commit(1, "A"), Some(oid(2)));
    repo.push(commit(2, "B"), Some(oid(1)));
    assert_eq!(repo.ids_from(oid(1)), vec![oid(1), oid(2)]);
}

#[test]
fn new_script_is_empty() {
    let mut script = Script::new();
    assert!(script.is_empty());
    assert_eq!(script.commands, Vec::<Command>::new());
    script.commands.push(Command::SwitchCommit(oid(1)));
    assert!(!script.is_empty());

    let mut other = Script::new();
    other.dependents.push(Script::new());
    assert!(!other.is_empty());
}

#[test]
fn actions_answer_for_themselves() {
    assert_eq!(Action::default(), Action::Pick);
    assert!(Action::Protected.is_protected());
    assert!(!Action::Pick.is_protected());
    assert!(!Action::Squash.is_protected());
    assert!(!Action::Delete.is_protected());
    assert!(Action::Delete.is_delete());
    assert!(!Action::Protected.is_delete());
    assert_ne!(Fixup::Move, Fixup::Squash);
}

#[test]
fn new_node_is_to_be_picked() {
    let made = Node::new(commit(1, "x"));
    assert_eq!(made.action, Action::Pick);
    assert!(!made.pushable);
    assert!(made.children.is_empty());
    assert!(made.branches.is_empty());
    let named = made.with_branches(vec![branch("b", 1)]);
    assert_eq!(named.branches, vec![branch("b", 1)]);
    assert_eq!(named.commit, commit(1, "x"));
}

#[test]
fn outstanding_fixups_are_kept_by_summary() {
    let mut waiting = Outstanding::new();
    assert!(waiting.is_empty());
    waiting.record(bytes("m"), oid(1));
    waiting.record(bytes("b"), oid(2));
    waiting.record(bytes("m"), oid(3));
    waiting.record(bytes("z"), oid(4));
    waiting.record(bytes("ba"), oid(5));
    assert!(!waiting.is_empty());

    assert_eq!(waiting.take(&bytes("q")), None);
    assert_eq!(waiting.take(&bytes("m")), Some(vec![oid(1), oid(3)]));
    assert_eq!(waiting.take(&bytes("m")), None);
    assert_eq!(waiting.into_values(), vec![vec![oid(2)], vec![oid(5)], vec![oid(4)]]);
}
