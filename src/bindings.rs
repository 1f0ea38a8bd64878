//! The declared key and mouse bindings of this configuration.
use vstd::prelude::*;
use crate::action::{action_valid, ActionView, Action, Command, IndexedCommand, Param};
use crate::chord::KeyTable;
use crate::table::{build, build_spec, table_view, BindingTable, BuildError, TableMap};
use crate::template::{labels_view, Template};

verus! {

/// Default terminal emulator.
pub const TERMINAL: &'static str = "alacritty";

/// Application launcher.
pub const APP_LAUNCHER: &'static str = "rofi -show drun";

/// The placeholder pattern that focuses a workspace.
pub const FOCUS_PATTERN: &'static str = "M-{}";

/// The placeholder pattern that moves the focused client to a workspace.
pub const MOVE_PATTERN: &'static str = "M-S-{}";

pub open spec fn internal(c: Command, p: Option<Param>) -> ActionView {
    ActionView::Internal(c, p)
}

/// The explicit key bindings, as chord specs and actions.
pub open spec fn explicit_spec() -> Seq<(Seq<char>, ActionView)> {
    seq![
        ("M-j"@, internal(Command::CycleClient, Some(Param::Forward))),
        ("M-k"@, internal(Command::CycleClient, Some(Param::Backward))),
        ("M-S-j"@, internal(Command::DragClient, Some(Param::Forward))),
        ("M-S-k"@, internal(Command::DragClient, Some(Param::Backward))),
        ("M-S-q"@, internal(Command::KillClient, None)),
        ("M-Tab"@, internal(Command::ToggleWorkspace, None)),
        ("M-grave"@, internal(Command::CycleLayout, Some(Param::Forward))),
        ("M-S-grave"@, internal(Command::CycleLayout, Some(Param::Backward))),
        ("M-A-Up"@, internal(Command::UpdateMaxMain, Some(Param::More))),
        ("M-A-Down"@, internal(Command::UpdateMaxMain, Some(Param::Less))),
        ("M-A-Right"@, internal(Command::UpdateMainRatio, Some(Param::More))),
        ("M-A-Left"@, internal(Command::UpdateMainRatio, Some(Param::Less))),
        ("M-semicolon"@, ActionView::External(APP_LAUNCHER@)),
        ("M-Return"@, ActionView::External(TERMINAL@)),
        ("M-A-Escape"@, internal(Command::Exit, None)),
    ]
}

/// The labels of the workspaces, each with the workspace it selects.
pub open spec fn labels_spec() -> Seq<(Seq<char>, usize)> {
    seq![
        ("1"@, 0usize),
        ("2"@, 1usize),
        ("3"@, 2usize),
        ("4"@, 3usize),
        ("5"@, 4usize),
        ("6"@, 5usize),
        ("7"@, 6usize),
        ("8"@, 7usize),
        ("9"@, 8usize),
    ]
}

/// The workspace templates: focus a workspace, and move a client to one.
pub open spec fn templates_spec() -> Seq<(Seq<char>, Seq<(Seq<char>, usize)>, IndexedCommand)> {
    seq![
        (FOCUS_PATTERN@, labels_spec(), IndexedCommand::FocusWorkspace),
        (MOVE_PATTERN@, labels_spec(), IndexedCommand::ClientToWorkspace),
    ]
}

fn declare(v: &mut Vec<(String, Action)>, spec: &str, action: Action)
    ensures
        final(v)@.len() == old(v)@.len() + 1,
        forall|i: int| 0 <= i < old(v)@.len() ==> final(v)@[i] == old(v)@[i],
        final(v)@[old(v)@.len() as int].0@ == spec@,
        final(v)@[old(v)@.len() as int].1@ == action@,
{
    v.push((spec.to_owned(), action));
}

/// The explicit key bindings.
pub fn explicit_bindings() -> (r: Vec<(String, Action)>)
    ensures
        crate::table::decls_view(r@) == explicit_spec(),
        forall|i: int| 0 <= i < r@.len() ==> action_valid(#[trigger] r@[i].1@),
{
    let mut v: Vec<(String, Action)> = Vec::new();
    declare(&mut v, "M-j", Action::Internal(Command::CycleClient, Some(Param::Forward)));
    declare(&mut v, "M-k", Action::Internal(Command::CycleClient, Some(Param::Backward)));
    declare(&mut v, "M-S-j", Action::Internal(Command::DragClient, Some(Param::Forward)));
    declare(&mut v, "M-S-k", Action::Internal(Command::DragClient, Some(Param::Backward)));
    declare(&mut v, "M-S-q", Action::Internal(Command::KillClient, None));
    declare(&mut v, "M-Tab", Action::Internal(Command::ToggleWorkspace, None));
    declare(&mut v, "M-grave", Action::Internal(Command::CycleLayout, Some(Param::Forward)));
    declare(&mut v, "M-S-grave", Action::Internal(Command::CycleLayout, Some(Param::Backward)));
    declare(&mut v, "M-A-Up", Action::Internal(Command::UpdateMaxMain, Some(Param::More)));
    declare(&mut v, "M-A-Down", Action::Internal(Command::UpdateMaxMain, Some(Param::Less)));
    declare(&mut v, "M-A-Right", Action::Internal(Command::UpdateMainRatio, Some(Param::More)));
    declare(&mut v, "M-A-Left", Action::Internal(Command::UpdateMainRatio, Some(Param::Less)));
    declare(&mut v, "M-semicolon", Action::External(APP_LAUNCHER.to_owned()));
    declare(&mut v, "M-Return", Action::External(TERMINAL.to_owned()));
    declare(&mut v, "M-A-Escape", Action::Internal(Command::Exit, None));
    assert(crate::table::decls_view(v@) =~= explicit_spec());
    assert forall|i: int| 0 <= i < v@.len() implies action_valid(#[trigger] v@[i].1@) by {
        assert(v@[i].1@ == explicit_spec()[i].1);
    }
    v
}

/// The workspace labels `"1"` to `"9"`, selecting workspaces 0 to 8.
pub fn workspace_labels() -> (r: Vec<(String, usize)>)
    ensures
        labels_view(r@) == labels_spec(),
{
    let r: Vec<(String, usize)> = vec![
        ("1".to_owned(), 0),
        ("2".to_owned(), 1),
        ("3".to_owned(), 2),
        ("4".to_owned(), 3),
        ("5".to_owned(), 4),
        ("6".to_owned(), 5),
        ("7".to_owned(), 6),
        ("8".to_owned(), 7),
        ("9".to_owned(), 8),
    ];
    assert(labels_view(r@) =~= labels_spec());
    r
}

/// The two workspace templates over `"1"` to `"9"`.
pub fn workspace_templates() -> (r: Vec<Template>)
    ensures
        crate::table::templates_view(r@) == templates_spec(),
{
    let focus = Template {
        pattern: FOCUS_PATTERN.to_owned(),
        labels: workspace_labels(),
        command: IndexedCommand::FocusWorkspace,
    };
    let to_workspace = Template {
        pattern: MOVE_PATTERN.to_owned(),
        labels: workspace_labels(),
        command: IndexedCommand::ClientToWorkspace,
    };
    let r: Vec<Template> = vec![focus, to_workspace];
    assert(crate::table::templates_view(r@) =~= templates_spec());
    r
}

/// The key bindings: the explicit ones, then the two workspace templates.
pub fn key(keys: &KeyTable) -> (r: Result<BindingTable, BuildError>)
    requires
        keys@.no_duplicates(),
    ensures
        r is Ok ==> r->Ok_0.wf(),
        table_view(r) == build_spec(keys@, explicit_spec(), templates_spec()),
{
    build(keys, &explicit_bindings(), &workspace_templates())
}

/// The mouse bindings: none.
pub fn mouse() -> (r: BindingTable)
    ensures
        r.wf(),
        r@ == TableMap::empty(),
{
    BindingTable::new()
}

/// The key bindings and the mouse bindings.
pub fn both(keys: &KeyTable) -> (r: Result<(BindingTable, BindingTable), BuildError>)
    requires
        keys@.no_duplicates(),
    ensures
        match r {
            Ok((k, m)) => k.wf() && m.wf() && build_spec(keys@, explicit_spec(), templates_spec())
                == Ok::<TableMap, crate::table::BuildErrorView>(k@) && m@ == TableMap::empty(),
            Err(e) => build_spec(keys@, explicit_spec(), templates_spec()) == Err::<
                TableMap,
                crate::table::BuildErrorView,
            >(e@),
        },
{
    match key(keys) {
        Ok(k) => Ok((k, mouse())),
        Err(e) => Err(e),
    }
}

} // verus!
