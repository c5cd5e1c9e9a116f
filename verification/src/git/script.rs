//! The script that the graph is flattened into.
use vstd::prelude::*;
use crate::git::oid::Oid;

verus! {

/// One step of a script.
#[derive(Clone, Debug, PartialEq, Eq)]
pub enum Command {
    /// Check out this commit.
    SwitchCommit(Oid),
    /// Check out what was registered under this mark.
    SwitchMark(Oid),
    /// Register the current tip under this mark.
    RegisterMark(Oid),
    /// Replay this commit onto the current tip.
    CherryPick(Oid),
    /// Fold this commit into the current tip.
    Squash(Oid),
    /// Create a branch of this name at the current tip.
    CreateBranch(String),
    /// Delete the branch of this name.
    DeleteBranch(String),
}

/// A command as a value.
pub enum CommandView {
    SwitchCommit(Oid),
    SwitchMark(Oid),
    RegisterMark(Oid),
    CherryPick(Oid),
    Squash(Oid),
    CreateBranch(Seq<char>),
    DeleteBranch(Seq<char>),
}

impl View for Command {
    type V = CommandView;

    open spec fn view(&self) -> CommandView {
        match self {
            Command::SwitchCommit(id) => CommandView::SwitchCommit(*id),
            Command::SwitchMark(id) => CommandView::SwitchMark(*id),
            Command::RegisterMark(id) => CommandView::RegisterMark(*id),
            Command::CherryPick(id) => CommandView::CherryPick(*id),
            Command::Squash(id) => CommandView::Squash(*id),
            Command::CreateBranch(name) => CommandView::CreateBranch(name@),
            Command::DeleteBranch(name) => CommandView::DeleteBranch(name@),
        }
    }
}

/// Commands to run in order, and scripts that each start from where these
/// commands end and do not depend on one another.
#[derive(Debug, PartialEq, Eq)]
pub struct Script {
    pub commands: Vec<Command>,
    pub dependents: Vec<Script>,
}

/// A script as a value.
pub struct ScriptView {
    pub commands: Seq<CommandView>,
    pub dependents: Seq<ScriptView>,
}

/// The views of a list of commands, in order.
pub open spec fn command_views(commands: Seq<Command>) -> Seq<CommandView> {
    commands.map_values(|c: Command| c@)
}

/// The views of a list of scripts, in order.
pub open spec fn script_views(scripts: Seq<Script>) -> Seq<ScriptView>
    decreases scripts,
{
    Seq::new(
        scripts.len(),
        |i: int|
            if 0 <= i < scripts.len() {
                script_view(scripts[i])
            } else {
                arbitrary()
            },
    )
}

/// A script as a value.
pub open spec fn script_view(script: Script) -> ScriptView
    decreases script,
{
    ScriptView {
        commands: command_views(script.commands@),
        dependents: script_views(script.dependents@),
    }
}

impl View for Script {
    type V = ScriptView;

    open spec fn view(&self) -> ScriptView {
        script_view(*self)
    }
}

/// Appending a script appends its view.
pub proof fn lemma_script_views_push(scripts: Seq<Script>, script: Script)
    ensures
        script_views(scripts.push(script)) == script_views(scripts).push(script@),
{
    assert(script_views(scripts.push(script)) =~= script_views(scripts).push(script@));
}

/// Appending scripts appends their views.
pub proof fn lemma_script_views_add(one: Seq<Script>, two: Seq<Script>)
    ensures
        script_views(one + two) == script_views(one) + script_views(two),
{
    assert(script_views(one + two) =~= script_views(one) + script_views(two));
}

/// Appending commands appends their views.
pub proof fn lemma_command_views_add(one: Seq<Command>, two: Seq<Command>)
    ensures
        command_views(one + two) == command_views(one) + command_views(two),
{
    assert(command_views(one + two) =~= command_views(one) + command_views(two));
}

/// A script as a value, if there is one.
pub open spec fn option_view(script: Option<Script>) -> Option<ScriptView> {
    match script {
        Some(s) => Some(s@),
        None => None,
    }
}

impl ScriptView {
    /// The script without commands and dependents.
    pub open spec fn empty() -> ScriptView {
        ScriptView { commands: Seq::empty(), dependents: Seq::empty() }
    }

    /// Whether the script has neither commands nor dependents.
    pub open spec fn is_empty(self) -> bool {
        self.commands.len() == 0 && self.dependents.len() == 0
    }
}

impl Script {
    /// The script without commands and dependents.
    pub fn new() -> (r: Script)
        ensures
            r@ == ScriptView::empty(),
            r.commands@.len() == 0,
            r.dependents@.len() == 0,
    {
        let r = Script { commands: Vec::new(), dependents: Vec::new() };
        assert(r@.commands =~= Seq::empty());
        assert(r@.dependents =~= Seq::empty());
        r
    }

    /// Whether the script has neither commands nor dependents.
    pub fn is_empty(&self) -> (r: bool)
        ensures
            r == self@.is_empty(),
    {
        self.commands.len() == 0 && self.dependents.len() == 0
    }
}

} // verus!
