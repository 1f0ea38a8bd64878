//! The action registry: the closed set of internal commands, the parameter
//! each one takes, and external command lines.
use vstd::prelude::*;

verus! {

/// The parameter of an internal command: a direction or a magnitude.
#[derive(Clone, Copy, Debug, PartialEq, Eq, Hash, Structural)]
pub enum Param {
    Forward,
    Backward,
    More,
    Less,
}

/// The internal window-manager commands.
#[derive(Clone, Copy, Debug, PartialEq, Eq, Hash, Structural)]
pub enum Command {
    CycleClient,
    DragClient,
    KillClient,
    ToggleWorkspace,
    CycleLayout,
    UpdateMaxMain,
    UpdateMainRatio,
    FocusWorkspace(usize),
    ClientToWorkspace(usize),
    Exit,
}

/// The kind of parameter a command requires.
#[derive(Clone, Copy, Debug, PartialEq, Eq, Hash, Structural)]
pub enum ParamKind {
    /// One of `Forward`, `Backward`.
    Direction,
    /// One of `More`, `Less`.
    Magnitude,
    /// A workspace index, carried by the command itself.
    Index,
    /// No parameter.
    Nothing,
}

pub open spec fn param_kind(c: Command) -> ParamKind {
    match c {
        Command::CycleClient => ParamKind::Direction,
        Command::DragClient => ParamKind::Direction,
        Command::CycleLayout => ParamKind::Direction,
        Command::UpdateMaxMain => ParamKind::Magnitude,
        Command::UpdateMainRatio => ParamKind::Magnitude,
        Command::FocusWorkspace(_) => ParamKind::Index,
        Command::ClientToWorkspace(_) => ParamKind::Index,
        Command::KillClient => ParamKind::Nothing,
        Command::ToggleWorkspace => ParamKind::Nothing,
        Command::Exit => ParamKind::Nothing,
    }
}

/// Whether `p` is what a command of parameter kind `k` must receive.
pub open spec fn param_fits(k: ParamKind, p: Option<Param>) -> bool {
    match k {
        ParamKind::Direction => p == Some(Param::Forward) || p == Some(Param::Backward),
        ParamKind::Magnitude => p == Some(Param::More) || p == Some(Param::Less),
        ParamKind::Index => p is None,
        ParamKind::Nothing => p is None,
    }
}

impl Command {
    /// The kind of parameter this command requires.
    pub fn param_kind(&self) -> (r: ParamKind)
        ensures
            r == param_kind(*self),
    {
        match self {
            Command::CycleClient => ParamKind::Direction,
            Command::DragClient => ParamKind::Direction,
            Command::CycleLayout => ParamKind::Direction,
            Command::UpdateMaxMain => ParamKind::Magnitude,
            Command::UpdateMainRatio => ParamKind::Magnitude,
            Command::FocusWorkspace(_) => ParamKind::Index,
            Command::ClientToWorkspace(_) => ParamKind::Index,
            Command::KillClient => ParamKind::Nothing,
            Command::ToggleWorkspace => ParamKind::Nothing,
            Command::Exit => ParamKind::Nothing,
        }
    }
}

/// What a bound chord does: an internal command, or an external command line
/// to spawn.
#[derive(Clone, Debug, PartialEq, Eq)]
pub enum Action {
    Internal(Command, Option<Param>),
    External(String),
}

pub enum ActionView {
    Internal(Command, Option<Param>),
    External(Seq<char>),
}

impl View for Action {
    type V = ActionView;

    open spec fn view(&self) -> ActionView {
        match self {
            Action::Internal(c, p) => ActionView::Internal(*c, *p),
            Action::External(s) => ActionView::External(s@),
        }
    }
}

impl Action {
    /// Checks the action as the registry does: `ParameterMismatch` for an
    /// internal command whose parameter is not of the kind it requires.
    pub fn validate(&self) -> (r: Result<(), ActionError>)
        ensures
            r is Ok <==> action_valid(self@),
            r is Err ==> r->Err_0 == ActionError::ParameterMismatch,
    {
        match self {
            Action::Internal(c, p) => if param_fits_command(*c, *p) {
                Ok(())
            } else {
                Err(ActionError::ParameterMismatch)
            },
            Action::External(_) => Ok(()),
        }
    }

    /// A copy of this action.
    pub fn duplicate(&self) -> (r: Action)
        ensures
            r@ == self@,
    {
        match self {
            Action::Internal(c, p) => Action::Internal(*c, *p),
            Action::External(s) => Action::External(s.clone()),
        }
    }
}

#[derive(Clone, Copy, Debug, PartialEq, Eq, Structural)]
pub enum ActionError {
    ParameterMismatch,
}

/// Whether `param` is of the kind that `command` requires.
pub fn param_fits_command(command: Command, param: Option<Param>) -> (r: bool)
    ensures
        r == param_fits(param_kind(command), param),
{
    match command.param_kind() {
        ParamKind::Direction => match param {
            Some(Param::Forward) => true,
            Some(Param::Backward) => true,
            _ => false,
        },
        ParamKind::Magnitude => match param {
            Some(Param::More) => true,
            Some(Param::Less) => true,
            _ => false,
        },
        ParamKind::Index => param.is_none(),
        ParamKind::Nothing => param.is_none(),
    }
}

/// An action that the registry accepts: an internal command with a parameter
/// of the kind it requires, or any external command line.
pub open spec fn action_valid(a: ActionView) -> bool {
    match a {
        ActionView::Internal(c, p) => param_fits(param_kind(c), p),
        ActionView::External(_) => true,
    }
}

/// The internal action `command` with `param`, when the parameter is of the
/// kind the command requires.
pub fn make_internal(command: Command, param: Option<Param>) -> (r: Result<Action, ActionError>)
    ensures
        match r {
            Ok(a) => param_fits(param_kind(command), param) && a@ == ActionView::Internal(
                command,
                param,
            ),
            Err(e) => !param_fits(param_kind(command), param) && e == ActionError::ParameterMismatch,
        },
{
    if param_fits_command(command, param) {
        Ok(Action::Internal(command, param))
    } else {
        Err(ActionError::ParameterMismatch)
    }
}

/// The external action that spawns `command_line`, kept verbatim.
pub fn make_external(command_line: &str) -> (r: Action)
    ensures
        r@ == ActionView::External(command_line@),
{
    Action::External(command_line.to_owned())
}

/// A command that takes a workspace index, as a template binds it once per
/// index.
#[derive(Clone, Copy, Debug, PartialEq, Eq, Hash, Structural)]
pub enum IndexedCommand {
    FocusWorkspace,
    ClientToWorkspace,
}

pub open spec fn indexed_action(c: IndexedCommand, i: usize) -> ActionView {
    match c {
        IndexedCommand::FocusWorkspace => ActionView::Internal(Command::FocusWorkspace(i), None),
        IndexedCommand::ClientToWorkspace => ActionView::Internal(
            Command::ClientToWorkspace(i),
            None,
        ),
    }
}

impl IndexedCommand {
    /// The action of this command for workspace `i`.
    pub fn action(&self, i: usize) -> (r: Action)
        ensures
            r@ == indexed_action(*self, i),
    {
        match self {
            IndexedCommand::FocusWorkspace => Action::Internal(Command::FocusWorkspace(i), None),
            IndexedCommand::ClientToWorkspace => Action::Internal(
                Command::ClientToWorkspace(i),
                None,
            ),
        }
    }
}

} // verus!
