use wm::action::{make_external, make_internal, Action, ActionError, Command, IndexedCommand, Param, ParamKind};
use wm::bindings::{both, explicit_bindings, key, mouse, workspace_labels, workspace_templates};
use wm::chord::{chars_of, parse_chord, Chord, KeySymbol, KeyTable, Modifier, ParseError};
use wm::table::{build, BindingTable, BuildError};
use wm::template::{expand, Template, TemplateError};

fn keys() -> KeyTable {
    KeyTable::standard()
}

fn chord(spec: &str) -> Chord {
    parse_chord(&keys(), spec).unwrap()
}

fn labels(v: &[&str]) -> Vec<(String, usize)> {
    v.iter().enumerate().map(|(i, s)| (s.to_string(), i)).collect()
}

#[test]
fn parse_modifier_order_is_irrelevant() {
    let k = keys();
    assert_eq!(parse_chord(&k, "M-S-j"), parse_chord(&k, "S-M-j"));
    assert_eq!(parse_chord(&k, "M-A-C-S-Up"), parse_chord(&k, "S-C-A-M-Up"));
    assert!(parse_chord(&k, "M-S-j").is_ok());
}

#[test]
fn parse_repeated_modifier_fails() {
    let k = keys();
    assert_eq!(parse_chord(&k, "M-M-j"), Err(ParseError::DuplicateModifier(Modifier::Super)));
    assert_eq!(parse_chord(&k, "S-M-S-j"), Err(ParseError::DuplicateModifier(Modifier::Shift)));
    assert_eq!(parse_chord(&k, "A-A-nokey"), Err(ParseError::DuplicateModifier(Modifier::Alt)));
}

#[test]
fn parse_empty_spec_fails() {
    assert_eq!(parse_chord(&keys(), ""), Err(ParseError::EmptySpec));
}

#[test]
fn parse_unknown_symbols() {
    let k = keys();
    assert_eq!(parse_chord(&k, "X-j"), Err(ParseError::UnknownSymbol("X".to_string())));
    assert_eq!(parse_chord(&k, "M-foo"), Err(ParseError::UnknownSymbol("foo".to_string())));
    assert_eq!(parse_chord(&k, "M-"), Err(ParseError::UnknownSymbol(String::new())));
}

#[test]
fn parse_masks_and_keys() {
    let k = keys();
    let j = k.resolve("j").unwrap();
    assert_eq!(parse_chord(&k, "j"), Ok(Chord { modifiers: 0, key: j }));
    assert_eq!(parse_chord(&k, "M-S-j"), Ok(Chord { modifiers: 65, key: j }));
    assert_eq!(parse_chord(&k, "C-A-j"), Ok(Chord { modifiers: 12, key: j }));
    assert_ne!(parse_chord(&k, "M-j"), parse_chord(&k, "M-k"));
}

#[test]
fn key_table_resolves_and_dedups() {
    let mut t = KeyTable::new();
    t.add("Tab");
    t.add("x");
    t.add("Tab");
    assert_eq!(t.len(), 2);
    assert_eq!(t.resolve("Tab"), Some(KeySymbol { index: 0 }));
    assert_eq!(t.resolve("x"), Some(KeySymbol { index: 1 }));
    assert_eq!(t.resolve("y"), None);
    assert_eq!(t.name(KeySymbol { index: 1 }), Some(&vec!['x']));
    assert_eq!(t.name(KeySymbol { index: 2 }), None);
    assert_eq!(chars_of("ab"), vec!['a', 'b']);
}

#[test]
fn make_internal_checks_parameter_kind() {
    assert_eq!(make_internal(Command::KillClient, Some(Param::Forward)), Err(ActionError::ParameterMismatch));
    assert_eq!(make_internal(Command::KillClient, None), Ok(Action::Internal(Command::KillClient, None)));
    assert_eq!(
        make_internal(Command::CycleClient, Some(Param::Backward)),
        Ok(Action::Internal(Command::CycleClient, Some(Param::Backward)))
    );
    assert_eq!(make_internal(Command::CycleClient, None), Err(ActionError::ParameterMismatch));
    assert_eq!(make_internal(Command::UpdateMaxMain, Some(Param::Forward)), Err(ActionError::ParameterMismatch));
    assert_eq!(
        make_internal(Command::UpdateMainRatio, Some(Param::Less)),
        Ok(Action::Internal(Command::UpdateMainRatio, Some(Param::Less)))
    );
    assert_eq!(make_internal(Command::FocusWorkspace(3), Some(Param::More)), Err(ActionError::ParameterMismatch));
    assert_eq!(
        make_internal(Command::FocusWorkspace(3), None),
        Ok(Action::Internal(Command::FocusWorkspace(3), None))
    );
    assert_eq!(Command::Exit.param_kind(), ParamKind::Nothing);
    assert_eq!(Command::CycleLayout.param_kind(), ParamKind::Direction);
}

#[test]
fn make_external_keeps_command_line() {
    assert_eq!(make_external("rofi -show drun"), Action::External("rofi -show drun".to_string()));
    let a = make_external("alacritty");
    assert_eq!(a.duplicate(), a);
}

#[test]
fn expand_focus_workspace_over_nine_labels() {
    let k = keys();
    let ls = labels(&["1", "2", "3", "4", "5", "6", "7", "8", "9"]);
    let pairs = expand(&k, "M-{}", &ls, IndexedCommand::FocusWorkspace).unwrap();
    assert_eq!(pairs.len(), 9);
    for (i, (c, a)) in pairs.iter().enumerate() {
        let spec = format!("M-{}", i + 1);
        assert_eq!(*c, parse_chord(&k, &spec).unwrap());
        assert_eq!(*a, Action::Internal(Command::FocusWorkspace(i), None));
    }
}

#[test]
fn expand_rejects_malformed_patterns() {
    let k = keys();
    let ls = labels(&["1"]);
    assert_eq!(expand(&k, "M-j", &ls, IndexedCommand::FocusWorkspace), Err(TemplateError::MalformedPattern));
    assert_eq!(expand(&k, "M-{}-{}", &ls, IndexedCommand::FocusWorkspace), Err(TemplateError::MalformedPattern));
    assert_eq!(expand(&k, "M-{", &ls, IndexedCommand::FocusWorkspace), Err(TemplateError::MalformedPattern));
}

#[test]
fn expand_fails_on_first_bad_label() {
    let k = keys();
    let ls = labels(&["1", "zz", "yy"]);
    assert_eq!(
        expand(&k, "M-S-{}", &ls, IndexedCommand::ClientToWorkspace),
        Err(TemplateError::Parse(ParseError::UnknownSymbol("zz".to_string())))
    );
    let empty: Vec<(String, usize)> = Vec::new();
    assert_eq!(expand(&k, "M-{}", &empty, IndexedCommand::FocusWorkspace), Ok(Vec::new()));
}

#[test]
fn build_rejects_duplicate_chord() {
    let k = keys();
    let decls = vec![
        ("M-j".to_string(), Action::Internal(Command::CycleClient, Some(Param::Forward))),
        ("M-j".to_string(), Action::Internal(Command::CycleClient, Some(Param::Backward))),
    ];
    let r = build(&k, &decls, &Vec::new());
    match r {
        Err(e) => assert_eq!(
            e,
            BuildError::DuplicateBinding {
                chord: chord("M-j"),
                existing: Action::Internal(Command::CycleClient, Some(Param::Forward)),
                conflicting: Action::Internal(Command::CycleClient, Some(Param::Backward)),
            }
        ),
        Ok(_) => panic!("duplicate chord accepted"),
    }
}

#[test]
fn build_rejects_chord_repeated_by_template() {
    let k = keys();
    let decls = vec![("M-3".to_string(), Action::Internal(Command::Exit, None))];
    let t = Template { pattern: "M-{}".to_string(), labels: labels(&["1", "2", "3"]), command: IndexedCommand::FocusWorkspace };
    match build(&k, &decls, &vec![t]) {
        Err(e) => assert_eq!(
            e,
            BuildError::DuplicateBinding {
                chord: chord("M-3"),
                existing: Action::Internal(Command::Exit, None),
                conflicting: Action::Internal(Command::FocusWorkspace(2), None),
            }
        ),
        Ok(_) => panic!("duplicate chord accepted"),
    }
}

#[test]
fn build_reports_parse_and_template_errors() {
    let k = keys();
    let decls = vec![("M-nokey".to_string(), Action::Internal(Command::Exit, None))];
    match build(&k, &decls, &Vec::new()) {
        Err(e) => assert_eq!(e, BuildError::Parse(ParseError::UnknownSymbol("nokey".to_string()))),
        Ok(_) => panic!("unknown key accepted"),
    }
    let t = Template { pattern: "M-x".to_string(), labels: labels(&["1"]), command: IndexedCommand::FocusWorkspace };
    match build(&k, &Vec::new(), &vec![t]) {
        Err(e) => assert_eq!(e, BuildError::Template(TemplateError::MalformedPattern)),
        Ok(_) => panic!("malformed pattern accepted"),
    }
}

#[test]
fn full_declared_set_builds() {
    let k = keys();
    let table = key(&k).unwrap();
    let explicit = explicit_bindings();
    assert_eq!(explicit.len(), 15);
    assert_eq!(table.len(), explicit.len() + 18);
    let mut seen: Vec<Chord> = Vec::new();
    for i in 0..table.len() {
        let (c, _) = table.entry(i);
        assert!(!seen.contains(c));
        seen.push(*c);
    }
    assert_eq!(table.lookup(&chord("M-Return")), Some(&Action::External("alacritty".to_string())));
    assert_eq!(table.lookup(&chord("M-S-5")), Some(&Action::Internal(Command::ClientToWorkspace(4), None)));
    assert_eq!(table.lookup(&chord("M-1")), Some(&Action::Internal(Command::FocusWorkspace(0), None)));
    assert_eq!(table.lookup(&chord("M-A-Escape")), Some(&Action::Internal(Command::Exit, None)));
    assert_eq!(table.lookup(&chord("C-j")), None);
}

#[test]
fn declared_templates_and_labels() {
    let ts = workspace_templates();
    assert_eq!(ts.len(), 2);
    assert_eq!(ts[0].pattern, "M-{}");
    assert_eq!(ts[1].pattern, "M-S-{}");
    assert_eq!(workspace_labels(), labels(&["1", "2", "3", "4", "5", "6", "7", "8", "9"]));
    assert_eq!(workspace_labels()[4], ("5".to_string(), 4));
}

#[test]
fn both_gives_key_and_empty_mouse_tables() {
    let (k, m) = both(&keys()).unwrap();
    assert_eq!(k.len(), 33);
    assert_eq!(m.len(), 0);
    assert_eq!(mouse().len(), 0);
}

#[test]
fn insert_then_lookup_round_trip() {
    let mut t = BindingTable::new();
    let a = chord("M-j");
    let b = chord("M-k");
    assert_eq!(t.insert(a, Action::Internal(Command::CycleClient, Some(Param::Forward))), Ok(()));
    assert_eq!(t.lookup(&a), Some(&Action::Internal(Command::CycleClient, Some(Param::Forward))));
    assert_eq!(t.lookup(&b), None);
    assert_eq!(t.insert(b, make_external("xterm")), Ok(()));
    assert_eq!(t.lookup(&a), Some(&Action::Internal(Command::CycleClient, Some(Param::Forward))));
    assert_eq!(t.lookup(&b), Some(&Action::External("xterm".to_string())));
    assert_eq!(t.len(), 2);
    let refused = t.insert(a, Action::Internal(Command::Exit, None));
    assert_eq!(
        refused,
        Err(BuildError::DuplicateBinding {
            chord: a,
            existing: Action::Internal(Command::CycleClient, Some(Param::Forward)),
            conflicting: Action::Internal(Command::Exit, None),
        })
    );
    assert_eq!(t.len(), 2);
    assert_eq!(t.lookup(&a), Some(&Action::Internal(Command::CycleClient, Some(Param::Forward))));
}

#[test]
fn bind_and_bind_template_fill_table() {
    let k = keys();
    let t = BindingTable::new().bind(&k, "M-q", &Action::Internal(Command::KillClient, None)).unwrap();
    let tpl = Template { pattern: "C-{}".to_string(), labels: labels(&["a", "b"]), command: IndexedCommand::ClientToWorkspace };
    let t = t.bind_template(&k, &tpl).unwrap();
    assert_eq!(t.len(), 3);
    assert_eq!(t.lookup(&chord("C-b")), Some(&Action::Internal(Command::ClientToWorkspace(1), None)));
    assert!(t.bind(&k, "M-q", &Action::Internal(Command::Exit, None)).is_err());
}

#[test]
fn template_binds_each_label_to_its_own_index() {
    let k = keys();
    let ls = vec![("3".to_string(), 2), ("1".to_string(), 0), ("2".to_string(), 1)];
    let pairs = expand(&k, "M-{}", &ls, IndexedCommand::FocusWorkspace).unwrap();
    assert_eq!(pairs[0], (chord("M-3"), Action::Internal(Command::FocusWorkspace(2), None)));
    assert_eq!(pairs[1], (chord("M-1"), Action::Internal(Command::FocusWorkspace(0), None)));
    assert_eq!(pairs[2], (chord("M-2"), Action::Internal(Command::FocusWorkspace(1), None)));
}

#[test]
fn reordering_template_labels_leaves_table_unchanged() {
    let k = keys();
    let mut swapped = workspace_templates();
    swapped[0].labels.swap(0, 1);
    swapped[1].labels.reverse();
    swapped.swap(0, 1);
    let mut explicit = explicit_bindings();
    explicit.reverse();
    let original = key(&k).unwrap();
    let reordered = build(&k, &explicit, &swapped).unwrap();
    assert_eq!(reordered.len(), original.len());
    for i in 0..original.len() {
        let (c, a) = original.entry(i);
        assert_eq!(reordered.lookup(c), Some(a));
    }
    assert_eq!(reordered.lookup(&chord("M-1")), Some(&Action::Internal(Command::FocusWorkspace(0), None)));
    assert_eq!(reordered.lookup(&chord("M-S-9")), Some(&Action::Internal(Command::ClientToWorkspace(8), None)));
}

#[test]
fn reordering_modifier_tokens_leaves_table_unchanged() {
    let k = keys();
    let mut explicit = explicit_bindings();
    for d in explicit.iter_mut() {
        if d.0 == "M-S-j" {
            d.0 = "S-M-j".to_string();
        }
        if d.0 == "M-A-Up" {
            d.0 = "A-M-Up".to_string();
        }
    }
    let mut ts = workspace_templates();
    ts[1].pattern = "S-M-{}".to_string();
    let original = key(&k).unwrap();
    let reordered = build(&k, &explicit, &ts).unwrap();
    assert_eq!(reordered.len(), original.len());
    for i in 0..original.len() {
        let (c, a) = original.entry(i);
        assert_eq!(reordered.lookup(c), Some(a));
    }
}

#[test]
fn build_rejects_wrong_parameter_kind() {
    let k = keys();
    let mut explicit = explicit_bindings();
    explicit[4].1 = Action::Internal(Command::KillClient, Some(Param::Forward));
    match build(&k, &explicit, &workspace_templates()) {
        Err(e) => assert_eq!(e, BuildError::Action(ActionError::ParameterMismatch)),
        Ok(_) => panic!("wrong parameter accepted"),
    }
    let decls = vec![("M-j".to_string(), Action::Internal(Command::CycleClient, None))];
    match build(&k, &decls, &Vec::new()) {
        Err(e) => assert_eq!(e, BuildError::Action(ActionError::ParameterMismatch)),
        Ok(_) => panic!("missing parameter accepted"),
    }
    let mut t = BindingTable::new();
    assert_eq!(
        t.insert(chord("M-k"), Action::Internal(Command::UpdateMaxMain, Some(Param::Forward))),
        Err(BuildError::Action(ActionError::ParameterMismatch))
    );
    assert_eq!(t.len(), 0);
    assert_eq!(Action::Internal(Command::Exit, None).validate(), Ok(()));
}

#[test]
fn extending_declared_set_affects_only_new_chord() {
    let k = keys();
    let mut explicit = explicit_bindings();
    explicit.push(("C-x".to_string(), make_external("xterm")));
    let original = key(&k).unwrap();
    let extended = build(&k, &explicit, &workspace_templates()).unwrap();
    assert_eq!(extended.len(), 34);
    assert_eq!(extended.lookup(&chord("C-x")), Some(&Action::External("xterm".to_string())));
    for i in 0..original.len() {
        let (c, a) = original.entry(i);
        assert_eq!(extended.lookup(c), Some(a));
    }
}
