use fenestra::actions::{ActionParseError, FocusWindow, FocusWorkspace, WindowManagerAction};
use fenestra::config::{ensure_exists, is_variable, parse_content, ConfigEntry};
use fenestra::direction::Direction;

fn binding(e: &ConfigEntry) -> (Vec<String>, WindowManagerAction) {
    match e {
        ConfigEntry::Binding { keys, action } => (keys.clone(), *action),
        _ => panic!("not a binding"),
    }
}

#[test]
fn variables_are_expanded() {
    let content = "prefix: WIN\r\nfocus_window_left: $prefix + h\r\nfocus_window_right: $prefix + l";
    let entries = parse_content(content);
    assert_eq!(entries.len(), 2);
    let (keys, action) = binding(&entries[0]);
    assert_eq!(keys, vec!["WIN".to_string(), "h".to_string()]);
    assert_eq!(action, WindowManagerAction::FocusWindow(FocusWindow { direction: Direction::LEFT }));
    let (keys, action) = binding(&entries[1]);
    assert_eq!(keys, vec!["WIN".to_string(), "l".to_string()]);
    assert_eq!(action, WindowManagerAction::FocusWindow(FocusWindow { direction: Direction::RIGHT }));
}

#[test]
fn variables_may_reference_variables() {
    let content = "mods: CTRL + $base\r\nbase: ALT\r\nfocus_workspace_1: $mods + 1\r\n";
    let entries = parse_content(content);
    assert_eq!(entries.len(), 1);
    let (keys, action) = binding(&entries[0]);
    assert_eq!(keys, vec!["CTRL".to_string(), "ALT".to_string(), "1".to_string()]);
    assert_eq!(action, WindowManagerAction::FocusWorkspace(FocusWorkspace { id: 1 }));
}

#[test]
fn unknown_variables_stand_for_no_key() {
    let entries = parse_content("focus_window_up: $nothing + k");
    assert_eq!(entries.len(), 1);
    let (keys, _) = binding(&entries[0]);
    assert_eq!(keys, vec!["k".to_string()]);
}

#[test]
fn empty_lines_are_skipped_and_unknown_actions_reported() {
    let content = "\r\nfocus_left: WIN + h\r\n\r\nfocus_window_down: WIN + j";
    let entries = parse_content(content);
    assert_eq!(entries.len(), 2);
    match &entries[0] {
        ConfigEntry::UnknownAction { name, line } => {
            assert_eq!(name, "focus_left");
            assert_eq!(*line, Some(0));
        }
        _ => panic!("expected an unknown action"),
    }
    let (keys, action) = binding(&entries[1]);
    assert_eq!(keys, vec!["WIN".to_string(), "j".to_string()]);
    assert_eq!(action, WindowManagerAction::FocusWindow(FocusWindow { direction: Direction::DOWN }));
}

#[test]
fn an_unknown_action_whose_line_cannot_be_found() {
    let entries = parse_content("  focus_sideways: WIN + q");
    assert_eq!(entries.len(), 1);
    match &entries[0] {
        ConfigEntry::UnknownAction { name, line } => {
            assert_eq!(name, "focus_sideways");
            assert_eq!(*line, None);
        }
        _ => panic!("expected an unknown action"),
    }
}

#[test]
fn reading_stops_at_an_unreadable_action() {
    let content = "focus_workspace_x: WIN + 1\r\nfocus_window_left: WIN + h";
    let entries = parse_content(content);
    assert_eq!(entries.len(), 1);
    match &entries[0] {
        ConfigEntry::Stop { error } => assert_eq!(*error, ActionParseError::InvalidArgument),
        _ => panic!("expected a stop"),
    }
    let entries = parse_content("focus_window_north: WIN + k\r\nfocus_window_left: WIN + h");
    assert_eq!(entries.len(), 1);
    match &entries[0] {
        ConfigEntry::Stop { error } => assert_eq!(*error, ActionParseError::Malformed),
        _ => panic!("expected a stop"),
    }
}

#[test]
fn only_the_second_field_holds_keys() {
    let entries = parse_content("focus_window_up : WIN+k : ignored");
    assert_eq!(entries.len(), 1);
    let (keys, _) = binding(&entries[0]);
    assert_eq!(keys, vec!["WIN".to_string(), "k".to_string()]);
}

#[test]
fn variable_detection() {
    assert!(is_variable("prefix", "a: $prefix + b"));
    assert!(!is_variable("prefix", "prefix: WIN"));
    assert!(is_variable("", "$"));
}

#[test]
fn a_missing_configuration_gets_the_default() {
    assert_eq!(ensure_exists(true), None);
    let default = ensure_exists(false).expect("a default");
    assert_eq!(default, "");
    assert_eq!(parse_content(&default).len(), 0);
}

#[test]
fn an_empty_configuration_has_no_entries() {
    assert_eq!(parse_content("").len(), 0);
    assert_eq!(parse_content("\r\n\r\n").len(), 0);
}

#[test]
fn close_window_can_be_bound() {
    let entries = parse_content("close_window: WIN + q");
    assert_eq!(entries.len(), 1);
    let (keys, action) = binding(&entries[0]);
    assert_eq!(keys, vec!["WIN".to_string(), "q".to_string()]);
    assert_eq!(action, WindowManagerAction::CloseWindow(fenestra::actions::CloseWindow {}));
}

#[test]
fn a_variable_reads_as_its_keys_written_out() {
    let with_variable = parse_content("prefix: WIN\r\nfocus_window_up: $prefix + k\r\nmove_window_up: SHIFT + $prefix + k");
    let written_out = parse_content("focus_window_up: WIN + k\r\nmove_window_up: SHIFT + WIN + k");
    assert_eq!(with_variable.len(), written_out.len());
    for (a, b) in with_variable.iter().zip(written_out.iter()) {
        assert_eq!(binding(a), binding(b));
    }
}
