//! What running a script comes to. A commit is known here by the commits
//! that were replayed to make it: the commit that was switched to, and
//! behind it each commit that was picked or squashed, in order.
use vstd::prelude::*;
use crate::git::oid::Oid;
use crate::git::script::{CommandView, ScriptView};

verus! {

/// Where a run stands: the commit that is checked out, the commits that
/// were registered under a mark, and the commits that the branches point at.
pub struct Replay {
    pub tip: Seq<Oid>,
    pub marks: Map<Oid, Seq<Oid>>,
    pub branches: Map<Seq<char>, Seq<Oid>>,
}

/// One command run.
pub open spec fn step(r: Replay, command: CommandView) -> Replay {
    match command {
        CommandView::SwitchCommit(id) => Replay { tip: seq![id], ..r },
        CommandView::SwitchMark(id) => Replay { tip: r.marks[id], ..r },
        CommandView::RegisterMark(id) => Replay { marks: r.marks.insert(id, r.tip), ..r },
        CommandView::CherryPick(id) => Replay { tip: r.tip.push(id), ..r },
        CommandView::Squash(id) => Replay { tip: r.tip.push(id), ..r },
        CommandView::CreateBranch(name) => Replay { branches: r.branches.insert(name, r.tip), ..r },
        CommandView::DeleteBranch(name) => Replay { branches: r.branches.remove(name), ..r },
    }
}

/// The commands run in order.
pub open spec fn run(r: Replay, commands: Seq<CommandView>) -> Replay
    decreases commands.len(),
{
    if commands.len() == 0 {
        r
    } else {
        run(step(r, commands[0]), commands.drop_first())
    }
}

/// A script played: its commands run in order, then each of its dependents
/// played in turn.
pub open spec fn play(r: Replay, script: ScriptView) -> Replay
    decreases script,
{
    play_each(run(r, script.commands), script.dependents)
}

/// Each of `scripts` played in turn.
pub open spec fn play_each(r: Replay, scripts: Seq<ScriptView>) -> Replay
    decreases scripts,
{
    if scripts.len() == 0 {
        r
    } else {
        play_each(play(r, scripts[0]), scripts.drop_first())
    }
}

/// Each of `scripts` played in turn, each from the commit `tip`.
pub open spec fn play_from(r: Replay, tip: Seq<Oid>, scripts: Seq<ScriptView>) -> Replay
    decreases scripts.len(),
{
    if scripts.len() == 0 {
        r
    } else {
        play(Replay { tip, ..play_from(r, tip, scripts.drop_last()) }, scripts.last())
    }
}

/// Running commands one after another is running them all.
pub proof fn lemma_run_add(r: Replay, one: Seq<CommandView>, two: Seq<CommandView>)
    ensures
        run(r, one + two) == run(run(r, one), two),
    decreases one.len(),
{
    if one.len() == 0 {
        assert(one + two =~= two);
    } else {
        assert((one + two)[0] == one[0]);
        assert((one + two).drop_first() =~= one.drop_first() + two);
        lemma_run_add(step(r, one[0]), one.drop_first(), two);
    }
}

/// Running one more command.
pub proof fn lemma_run_push(r: Replay, commands: Seq<CommandView>, command: CommandView)
    ensures
        run(r, commands.push(command)) == step(run(r, commands), command),
{
    assert(commands.push(command) =~= commands + seq![command]);
    lemma_run_add(r, commands, seq![command]);
    let last = seq![command];
    assert(last.drop_first() =~= Seq::<CommandView>::empty());
    assert(run(step(run(r, commands), last[0]), last.drop_first()) == step(
        run(r, commands),
        command,
    ));
}

/// Playing scripts one after another is playing them all.
pub proof fn lemma_play_each_add(r: Replay, one: Seq<ScriptView>, two: Seq<ScriptView>)
    ensures
        play_each(r, one + two) == play_each(play_each(r, one), two),
    decreases one.len(),
{
    if one.len() == 0 {
        assert(one + two =~= two);
    } else {
        assert((one + two)[0] == one[0]);
        assert((one + two).drop_first() =~= one.drop_first() + two);
        lemma_play_each_add(play(r, one[0]), one.drop_first(), two);
    }
}

/// Playing one more script.
pub proof fn lemma_play_each_push(r: Replay, scripts: Seq<ScriptView>, script: ScriptView)
    ensures
        play_each(r, scripts.push(script)) == play(play_each(r, scripts), script),
{
    assert(scripts.push(script) =~= scripts + seq![script]);
    lemma_play_each_add(r, scripts, seq![script]);
    let last = seq![script];
    assert(last.drop_first() =~= Seq::<ScriptView>::empty());
    assert(play_each(play(play_each(r, scripts), last[0]), last.drop_first()) == play(
        play_each(r, scripts),
        script,
    ));
}

} // verus!
