//! The focus actions named in the configuration.
use vstd::prelude::*;
use crate::text::{chars_of, eq_chars, lit, to_upper, upper};

verus! {

/// A focus action of the configuration.
#[derive(Clone, Copy, PartialEq, Eq, Structural, Debug)]
pub enum WindowManagerAction {
    FocusLeft,
    FocusDown,
    FocusUp,
    FocusRight,
}

/// The action that a (case-insensitive) name denotes.
pub open spec fn config_action_named(s: Seq<char>) -> Option<WindowManagerAction> {
    let u = upper(s);
    if u == "FOCUS_LEFT"@ {
        Some(WindowManagerAction::FocusLeft)
    } else if u == "FOCUS_DOWN"@ {
        Some(WindowManagerAction::FocusDown)
    } else if u == "FOCUS_UP"@ {
        Some(WindowManagerAction::FocusUp)
    } else if u == "FOCUS_RIGHT"@ {
        Some(WindowManagerAction::FocusRight)
    } else {
        None
    }
}

impl WindowManagerAction {
    /// Reads `focus_left`, `focus_down`, `focus_up` or `focus_right`, ignoring ASCII case.
    pub fn from_str(input: &str) -> (r: Result<WindowManagerAction, ()>)
        ensures
            r == (match config_action_named(input@) {
                Some(a) => Ok(a),
                None => Err(()),
            }),
    {
        let up = to_upper(&chars_of(input));
        if eq_chars(&up, &lit("FOCUS_LEFT")) {
            Ok(WindowManagerAction::FocusLeft)
        } else if eq_chars(&up, &lit("FOCUS_DOWN")) {
            Ok(WindowManagerAction::FocusDown)
        } else if eq_chars(&up, &lit("FOCUS_UP")) {
            Ok(WindowManagerAction::FocusUp)
        } else if eq_chars(&up, &lit("FOCUS_RIGHT")) {
            Ok(WindowManagerAction::FocusRight)
        } else {
            Err(())
        }
    }
}

} // verus!
