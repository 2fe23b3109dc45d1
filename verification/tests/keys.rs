use fenestra::actions::{FocusWindow, FocusWorkspace, MoveWindow, WindowManagerAction};
use fenestra::direction::Direction;
use fenestra::key::{
    key_code, key_code_of_upper, key_name, keybind_from, sort_keys, Key, KeyEvent, KeyEventType, Keybind,
    KEY_ALT, KEY_CONTROL, KEY_SHIFT, KEY_SPACE, WINDOWS_KEY_CODE,
};
use fenestra::key_manager::KeyManager;

fn key(code: i32, name: &str) -> Key {
    Key { code, name: name.to_string() }
}

fn press(code: i32) -> KeyEvent {
    KeyEvent::new(KeyEventType::PRESS, key(code, "k"))
}

fn release(code: i32) -> KeyEvent {
    KeyEvent::new(KeyEventType::RELEASE, key(code, "k"))
}

#[test]
fn key_event_types_from_message_codes() {
    assert_eq!(KeyEventType::from(0x0100usize), KeyEventType::PRESS);
    assert_eq!(KeyEventType::from(0x0101usize), KeyEventType::RELEASE);
    assert_eq!(KeyEventType::from(0x0104usize), KeyEventType::RELEASE);
}

#[test]
fn keys_with_names_of_their_own() {
    assert_eq!(key_name(KEY_SPACE), Some("SPACE".to_string()));
    assert_eq!(key_name(WINDOWS_KEY_CODE), Some("WIN".to_string()));
    assert_eq!(key_name(KEY_CONTROL), Some("CTRL".to_string()));
    assert_eq!(key_name(KEY_ALT), Some("ALT".to_string()));
    assert_eq!(key_name(KEY_SHIFT), Some("SHIFT".to_string()));
    assert_eq!(key_name(72), None);
    assert_eq!(key_code("win"), Some(91));
    assert_eq!(key_code("Shift"), Some(160));
    assert_eq!(key_code("ctrl"), Some(162));
    assert_eq!(key_code("h"), None);
    assert_eq!(key_code_of_upper("ALT"), Some(164));
    assert_eq!(key_code_of_upper("alt"), None);
}

#[test]
fn keys_are_named_by_code() {
    let k = Key::from_code(32, "Space bar".to_string());
    assert_eq!(k.code, 32);
    assert_eq!(k.name, "SPACE");
    let k = Key::from_code(72, "H".to_string());
    assert_eq!(k.name, "H");
    assert!(key(5, "a") == key(5, "b"));
    assert!(key(5, "a") != key(6, "a"));
}

#[test]
fn sorting_keys_is_stable() {
    let mut keys = vec![key(72, "H"), key(91, "WIN"), key(10, "x"), key(72, "second")];
    sort_keys(&mut keys);
    let codes: Vec<i32> = keys.iter().map(|k| k.code).collect();
    assert_eq!(codes, vec![10, 72, 72, 91]);
    assert_eq!(keys[1].name, "H");
    assert_eq!(keys[2].name, "second");
}

fn manager() -> KeyManager {
    let focus_left = Keybind::new(
        vec![key(72, "H"), key(91, "WIN")],
        WindowManagerAction::FocusWindow(FocusWindow { direction: Direction::LEFT }),
    );
    let move_left = Keybind::new(
        vec![key(72, "H"), key(91, "WIN"), key(160, "SHIFT")],
        WindowManagerAction::MoveWindow(MoveWindow { direction: Direction::LEFT }),
    );
    let workspace = Keybind::new(
        vec![key(49, "1"), key(91, "WIN")],
        WindowManagerAction::FocusWorkspace(FocusWorkspace { id: 1 }),
    );
    KeyManager::new(vec![focus_left, move_left, workspace])
}

#[test]
fn a_combination_triggers_its_action_on_release() {
    let mut m = manager();
    assert!(m.handle_keypress(press(91)).is_empty());
    assert!(m.handle_keypress(press(72)).is_empty());
    let actions = m.handle_keypress(release(72));
    assert_eq!(
        actions,
        vec![WindowManagerAction::FocusWindow(FocusWindow { direction: Direction::LEFT })]
    );
    // Only WIN is held now: releasing it matches nothing.
    assert!(m.handle_keypress(release(91)).is_empty());
}

#[test]
fn the_order_of_presses_does_not_matter() {
    let mut a = manager();
    a.handle_keypress(press(160));
    a.handle_keypress(press(91));
    a.handle_keypress(press(72));
    let mut b = manager();
    b.handle_keypress(press(72));
    b.handle_keypress(press(160));
    b.handle_keypress(press(91));
    let expected = vec![WindowManagerAction::MoveWindow(MoveWindow { direction: Direction::LEFT })];
    assert_eq!(a.handle_keypress(release(160)), expected);
    assert_eq!(b.handle_keypress(release(91)), expected);
}

#[test]
fn a_held_key_counts_once() {
    let mut m = manager();
    m.handle_keypress(press(91));
    m.handle_keypress(press(91));
    m.handle_keypress(press(49));
    assert_eq!(
        m.handle_keypress(release(49)),
        vec![WindowManagerAction::FocusWorkspace(FocusWorkspace { id: 1 })]
    );
}

#[test]
fn a_released_key_is_no_longer_held() {
    let mut m = manager();
    m.handle_keypress(press(91));
    m.handle_keypress(press(72));
    m.handle_keypress(release(72));
    // Pressing and releasing 49 now sees WIN and 1 held.
    m.handle_keypress(press(49));
    assert_eq!(
        m.handle_keypress(release(49)),
        vec![WindowManagerAction::FocusWorkspace(FocusWorkspace { id: 1 })]
    );
}

#[test]
fn no_bindings_no_actions() {
    let mut m = KeyManager::new(Vec::new());
    m.handle_keypress(press(1));
    assert!(m.handle_keypress(release(1)).is_empty());
}

#[test]
fn bindings_hold_their_keys_sorted() {
    let kb = keybind_from(
        vec![key(160, "SHIFT"), key(91, "WIN"), key(32, "SPACE")],
        WindowManagerAction::FocusWindow(FocusWindow { direction: Direction::LEFT }),
    );
    let keys: Vec<(i32, String)> = kb.keys.iter().map(|k| (k.code, k.name.clone())).collect();
    assert_eq!(keys, vec![(32, "SPACE".to_string()), (91, "WIN".to_string()), (160, "SHIFT".to_string())]);
}
