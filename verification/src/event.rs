//! The messages that the hooks post to the main loop, and what the hooks decide.
use vstd::prelude::*;
use crate::key::WINDOWS_KEY_CODE;

verus! {

/// The first message number free for applications.
pub const WM_APP: u32 = 0x8000;

/// The message of a key event.
pub const KEY_EVENT: u32 = WM_APP + 2;

/// The message of a window event.
pub const WINDOW_EVENT: u32 = WM_APP + 3;

/// The window event kinds, carried in `wparam`.
pub const MINIMIZE: usize = 0;

pub const RESTORE: usize = 1;

pub const MOVE_SIZE: usize = 2;

pub const FOCUS: usize = 3;

pub const CREATE: usize = 4;

pub const DESTROY: usize = 5;

/// The message code of a key going up.
pub const WM_KEYUP: usize = 0x0101;

/// The hook code of an event to act on.
pub const HC_ACTION: i32 = 0;

/// The system events the window hook listens to.
pub const EVENT_SYSTEM_FOREGROUND: u32 = 3;

pub const EVENT_SYSTEM_MOVESIZEEND: u32 = 11;

pub const EVENT_SYSTEM_MINIMIZESTART: u32 = 22;

pub const EVENT_SYSTEM_MINIMIZEEND: u32 = 23;

/// The object and child identifiers of a window itself.
pub const OBJID_WINDOW: i32 = 0;

pub const CHILDID_SELF: i32 = 0;

/// A message for the main loop.
#[derive(Clone, Copy, PartialEq, Eq, Structural, Debug)]
pub struct Event {
    pub message: u32,
    pub wparam: usize,
    pub lparam: isize,
}

impl Event {
    /// A key event: the key code, and the key message code in `wparam`.
    pub fn key_event(key_code: isize, wparam: usize) -> (r: Event)
        ensures
            r == (Event { message: KEY_EVENT, wparam, lparam: key_code }),
    {
        Event { message: KEY_EVENT, wparam, lparam: key_code }
    }

    /// A window was minimized.
    pub fn minimize(hwnd: isize) -> (r: Event)
        ensures
            r == (Event { message: WINDOW_EVENT, wparam: MINIMIZE, lparam: hwnd }),
    {
        Event { message: WINDOW_EVENT, wparam: MINIMIZE, lparam: hwnd }
    }

    /// A window was restored.
    pub fn restore(hwnd: isize) -> (r: Event)
        ensures
            r == (Event { message: WINDOW_EVENT, wparam: RESTORE, lparam: hwnd }),
    {
        Event { message: WINDOW_EVENT, wparam: RESTORE, lparam: hwnd }
    }

    /// A window was moved or resized.
    pub fn move_size(hwnd: isize) -> (r: Event)
        ensures
            r == (Event { message: WINDOW_EVENT, wparam: MOVE_SIZE, lparam: hwnd }),
    {
        Event { message: WINDOW_EVENT, wparam: MOVE_SIZE, lparam: hwnd }
    }

    /// A window came to the foreground.
    pub fn focus(hwnd: isize) -> (r: Event)
        ensures
            r == (Event { message: WINDOW_EVENT, wparam: FOCUS, lparam: hwnd }),
    {
        Event { message: WINDOW_EVENT, wparam: FOCUS, lparam: hwnd }
    }

    /// A window was destroyed.
    pub fn destroy(hwnd: isize) -> (r: Event)
        ensures
            r == (Event { message: WINDOW_EVENT, wparam: DESTROY, lparam: hwnd }),
    {
        Event { message: WINDOW_EVENT, wparam: DESTROY, lparam: hwnd }
    }
}

/// What the keyboard hook does with a key: the event to post, if any, and
/// whether the key is kept from the other applications.
#[derive(Clone, Copy, PartialEq, Eq, Structural, Debug)]
pub struct KeyHookOutcome {
    pub post: Option<Event>,
    pub suppress: bool,
}

/// The keyboard hook's decision: only hook code `HC_ACTION` is acted on; its
/// key is posted to the main loop, and while the Windows key is held, every
/// other key going down is kept from the other applications.
pub open spec fn key_hook_outcome(code: i32, wparam: usize, key_code: u32, win_pressed: bool) -> KeyHookOutcome {
    if code < 0 || code != HC_ACTION {
        KeyHookOutcome { post: None, suppress: false }
    } else {
        KeyHookOutcome {
            post: Some(Event { message: KEY_EVENT, wparam, lparam: key_code as isize }),
            suppress: win_pressed && key_code != WINDOWS_KEY_CODE as u32 && wparam != WM_KEYUP,
        }
    }
}

/// Decides what the keyboard hook does (see `key_hook_outcome`).
pub fn keyboard_hook(code: i32, wparam: usize, key_code: u32, win_pressed: bool) -> (r: KeyHookOutcome)
    ensures
        r == key_hook_outcome(code, wparam, key_code, win_pressed),
{
    if code < 0 || code != HC_ACTION {
        return KeyHookOutcome { post: None, suppress: false };
    }
    let post = Event::key_event(key_code as isize, wparam);
    let suppress = win_pressed && key_code != WINDOWS_KEY_CODE as u32 && wparam != WM_KEYUP;
    KeyHookOutcome { post: Some(post), suppress }
}

/// What the window hook does with a system event.
#[derive(Clone, Copy, PartialEq, Eq, Structural, Debug)]
pub enum WindowHookStep {
    /// Post the event.
    Send(Event),
    /// Post a focus event for the window if it is one that is managed.
    CheckWindow(isize),
    /// Nothing.
    Ignore,
}

/// The window hook's decision on a system event.
pub open spec fn window_hook_step(event: u32, hwnd: isize, object_id: i32, child_id: i32) -> WindowHookStep {
    if event == EVENT_SYSTEM_MINIMIZESTART {
        WindowHookStep::Send(Event { message: WINDOW_EVENT, wparam: MINIMIZE, lparam: hwnd })
    } else if event == EVENT_SYSTEM_MINIMIZEEND {
        WindowHookStep::Send(Event { message: WINDOW_EVENT, wparam: RESTORE, lparam: hwnd })
    } else if event == EVENT_SYSTEM_MOVESIZEEND {
        WindowHookStep::Send(Event { message: WINDOW_EVENT, wparam: MOVE_SIZE, lparam: hwnd })
    } else if event == EVENT_SYSTEM_FOREGROUND {
        if hwnd == 0 || object_id == OBJID_WINDOW || child_id != CHILDID_SELF {
            WindowHookStep::Ignore
        } else {
            WindowHookStep::CheckWindow(hwnd)
        }
    } else {
        WindowHookStep::Ignore
    }
}

/// Decides what the window hook does (see `window_hook_step`).
pub fn window_hook(event: u32, hwnd: isize, object_id: i32, child_id: i32) -> (r: WindowHookStep)
    ensures
        r == window_hook_step(event, hwnd, object_id, child_id),
{
    if event == EVENT_SYSTEM_MINIMIZESTART {
        WindowHookStep::Send(Event::minimize(hwnd))
    } else if event == EVENT_SYSTEM_MINIMIZEEND {
        WindowHookStep::Send(Event::restore(hwnd))
    } else if event == EVENT_SYSTEM_MOVESIZEEND {
        WindowHookStep::Send(Event::move_size(hwnd))
    } else if event == EVENT_SYSTEM_FOREGROUND {
        if hwnd == 0 || object_id == OBJID_WINDOW || child_id != CHILDID_SELF {
            WindowHookStep::Ignore
        } else {
            WindowHookStep::CheckWindow(hwnd)
        }
    } else {
        WindowHookStep::Ignore
    }
}

} // verus!
