use fenestra::event::{
    keyboard_hook, window_hook, Event, KeyHookOutcome, WindowHookStep, FOCUS, KEY_EVENT,
    MINIMIZE, MOVE_SIZE, RESTORE, DESTROY, WINDOW_EVENT,
};
use fenestra::window::{manageable, manageable_with};
use fenestra::window_control::set_foreground_window;

#[test]
fn event_messages() {
    assert_eq!(KEY_EVENT, 0x8002);
    assert_eq!(WINDOW_EVENT, 0x8003);
    assert_eq!(Event::key_event(72, 0x0100), Event { message: 0x8002, wparam: 0x0100, lparam: 72 });
    assert_eq!(Event::minimize(7), Event { message: WINDOW_EVENT, wparam: MINIMIZE, lparam: 7 });
    assert_eq!(Event::restore(7).wparam, RESTORE);
    assert_eq!(Event::move_size(7).wparam, MOVE_SIZE);
    assert_eq!(Event::focus(7).wparam, FOCUS);
    assert_eq!(Event::destroy(7).wparam, DESTROY);
}

#[test]
fn keyboard_hook_suppresses_keys_held_with_win() {
    // Not an action code: passed on, nothing posted.
    assert_eq!(keyboard_hook(-1, 0x0100, 72, true), KeyHookOutcome { post: None, suppress: false });
    assert_eq!(keyboard_hook(3, 0x0100, 72, true), KeyHookOutcome { post: None, suppress: false });
    // WIN held, H goes down: posted and suppressed.
    let o = keyboard_hook(0, 0x0100, 72, true);
    assert_eq!(o.post, Some(Event::key_event(72, 0x0100)));
    assert!(o.suppress);
    // Going up, or WIN itself, or WIN not held: passed on.
    assert!(!keyboard_hook(0, 0x0101, 72, true).suppress);
    assert!(!keyboard_hook(0, 0x0100, 91, true).suppress);
    assert!(!keyboard_hook(0, 0x0100, 72, false).suppress);
    assert_eq!(keyboard_hook(0, 0x0101, 72, false).post, Some(Event::key_event(72, 0x0101)));
}

#[test]
fn window_hook_steps() {
    assert_eq!(window_hook(22, 5, 0, 0), WindowHookStep::Send(Event::minimize(5)));
    assert_eq!(window_hook(23, 5, 0, 0), WindowHookStep::Send(Event::restore(5)));
    assert_eq!(window_hook(11, 5, 0, 0), WindowHookStep::Send(Event::move_size(5)));
    assert_eq!(window_hook(3, 5, -4, 0), WindowHookStep::CheckWindow(5));
    assert_eq!(window_hook(3, 5, 0, 0), WindowHookStep::Ignore);
    assert_eq!(window_hook(3, 0, -4, 0), WindowHookStep::Ignore);
    assert_eq!(window_hook(3, 5, -4, 2), WindowHookStep::Ignore);
    assert_eq!(window_hook(99, 5, 0, 0), WindowHookStep::Ignore);
}

#[test]
fn which_windows_are_managed() {
    let style: u32 = 0x1000_0000 | 0x00CF_0000;
    assert!(manageable("Editor", style));
    assert!(!manageable("", style));
    assert!(!manageable("System SETTINGS", style));
    assert!(!manageable("Editor", 0x00CF_0000));
    assert!(manageable("Editor", 0x1000_0000 | 0x0004_0000));
    assert!(!manageable("Editor", 0x1000_0000 | 0x0001_0000));
    assert!(!manageable("Editor", 0x1000_0000 | 0x00C0_0000));
}

#[test]
fn the_lower_case_title_decides_about_settings() {
    let style: u32 = 0x1000_0000 | 0x00CF_0000;
    assert!(!manageable_with("System SETTINGS", "system settings", style));
    assert!(manageable_with("Editor", "editor", style));
    assert!(!manageable_with("", "", style));
}

#[test]
fn setting_the_foreground_window_does_nothing_yet() {
    set_foreground_window();
}
