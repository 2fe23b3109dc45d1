//! The actions that a key binding can trigger, and how their names are read.
use vstd::prelude::*;
use crate::axis::{Axis, axis_named};
use crate::direction::{Direction, direction_named};
use crate::text::{
    chars_of, contains, contains_exec, lit, parse_unsigned, parse_unsigned_exec, slice,
    starts_with_exec, strip_prefix, string_from, to_upper, upper,
};

verus! {

/// Why an action name was not read.
///
/// `Rejected`: the name is not one of this action (the caller may try
/// another). `Malformed`: the action's keyword is there but not at the
/// start, or what follows cannot be read although it must be: reading stops
/// the program. `InvalidArgument`: the number or axis after the keyword is not
/// valid: reading ends the program with status 100.
#[derive(Clone, Copy, PartialEq, Eq, Structural, Debug)]
pub enum ActionParseError {
    Rejected,
    Malformed,
    InvalidArgument,
}

/// What follows keyword `p` in the upper-cased name `s`: rejected when `p`
/// does not occur in it, malformed when it occurs but not at the start.
pub open spec fn after_keyword(s: Seq<char>, p: Seq<char>) -> Result<Seq<char>, ActionParseError> {
    let u = upper(s);
    if !contains(u, p) {
        Err(ActionParseError::Rejected)
    } else {
        match strip_prefix(u, p) {
            Some(rest) => Ok(rest),
            None => Err(ActionParseError::Malformed),
        }
    }
}

/// The workspace position that a workspace number denotes: workspace 1 is the
/// first of the monitor, ..., workspace 9 the ninth, and 0 stands for the tenth.
pub open spec fn workspace_position(id: int) -> int {
    if id == 0 {
        9
    } else {
        id - 1
    }
}

/// The upper-cased name and what follows keyword `p` in it.
fn keyword_rest(input: &str, p: &str) -> (r: Result<Vec<char>, ActionParseError>)
    ensures
        match r {
            Ok(rest) => after_keyword(input@, p@) == Ok::<Seq<char>, ActionParseError>(rest@),
            Err(e) => after_keyword(input@, p@) == Err::<Seq<char>, ActionParseError>(e),
        },
{
    let up = to_upper(&chars_of(input));
    let kw = lit(p);
    if !contains_exec(&up, &kw) {
        return Err(ActionParseError::Rejected);
    }
    if !starts_with_exec(&up, &kw) {
        return Err(ActionParseError::Malformed);
    }
    let rest = slice(&up, kw.len(), up.len());
    assert(rest@ =~= up@.skip(kw@.len() as int));
    Ok(rest)
}

/// Sets the split axis of the current group.
#[derive(Clone, Copy, PartialEq, Eq, Structural, Debug)]
pub struct SetSplitAxis {
    pub axis: Axis,
}

/// What reading `split_on_axis_<axis>` gives.
pub open spec fn set_split_axis_parse(s: Seq<char>) -> Result<SetSplitAxis, ActionParseError> {
    match after_keyword(s, "SPLIT_ON_AXIS_"@) {
        Err(e) => Err(e),
        Ok(rest) => match axis_named(rest) {
            Some(axis) => Ok(SetSplitAxis { axis }),
            None => Err(ActionParseError::InvalidArgument),
        },
    }
}

impl SetSplitAxis {
    /// Reads `split_on_axis_horizontal` or `split_on_axis_vertical`, ignoring ASCII case.
    pub fn from_str(input: &str) -> (r: Result<SetSplitAxis, ActionParseError>)
        ensures
            r == set_split_axis_parse(input@),
    {
        let rest = keyword_rest(input, "SPLIT_ON_AXIS_");
        match rest {
            Err(e) => Err(e),
            Ok(rest) => {
                let rest_str = string_from(&rest);
                match Axis::from_str(rest_str.as_str()) {
                    Ok(axis) => Ok(SetSplitAxis { axis }),
                    Err(_) => Err(ActionParseError::InvalidArgument),
                }
            },
        }
    }
}

/// Closes the current window.
#[derive(Clone, Copy, PartialEq, Eq, Structural, Debug)]
pub struct CloseWindow {}

/// What reading a name as `close_window` gives: any name that holds the
/// keyword, in any ASCII case.
pub open spec fn close_window_parse(s: Seq<char>) -> Result<CloseWindow, ActionParseError> {
    if contains(upper(s), "CLOSE_WINDOW"@) {
        Ok(CloseWindow {})
    } else {
        Err(ActionParseError::Rejected)
    }
}

impl CloseWindow {
    /// Reads `close_window`, ignoring ASCII case.
    pub fn from_str(input: &str) -> (r: Result<CloseWindow, ActionParseError>)
        ensures
            r == close_window_parse(input@),
    {
        let up = to_upper(&chars_of(input));
        if contains_exec(&up, &lit("CLOSE_WINDOW")) {
            Ok(CloseWindow {})
        } else {
            Err(ActionParseError::Rejected)
        }
    }
}

/// Focuses the window in a direction.
#[derive(Clone, Copy, PartialEq, Eq, Structural, Debug)]
pub struct FocusWindow {
    pub direction: Direction,
}

/// What reading `focus_window_<direction>` gives.
pub open spec fn focus_window_parse(s: Seq<char>) -> Result<FocusWindow, ActionParseError> {
    match after_keyword(s, "FOCUS_WINDOW_"@) {
        Err(e) => Err(e),
        Ok(rest) => match direction_named(rest) {
            Some(direction) => Ok(FocusWindow { direction }),
            None => Err(ActionParseError::Rejected),
        },
    }
}

/// A direction after a keyword.
fn direction_of(rest: &Vec<char>) -> (r: Option<Direction>)
    ensures
        r == direction_named(rest@),
{
    let s = string_from(rest);
    match Direction::from_str(s.as_str()) {
        Ok(d) => Some(d),
        Err(_) => None,
    }
}

impl FocusWindow {
    /// Reads `focus_window_left`, `_down`, `_up` or `_right`, ignoring ASCII case.
    pub fn from_str(input: &str) -> (r: Result<FocusWindow, ActionParseError>)
        ensures
            r == focus_window_parse(input@),
    {
        match keyword_rest(input, "FOCUS_WINDOW_") {
            Err(e) => Err(e),
            Ok(rest) => match direction_of(&rest) {
                Some(direction) => Ok(FocusWindow { direction }),
                None => Err(ActionParseError::Rejected),
            },
        }
    }
}

/// Moves the current window in a direction.
#[derive(Clone, Copy, PartialEq, Eq, Structural, Debug)]
pub struct MoveWindow {
    pub direction: Direction,
}

/// What reading `move_window_<direction>` gives.
pub open spec fn move_window_parse(s: Seq<char>) -> Result<MoveWindow, ActionParseError> {
    match after_keyword(s, "MOVE_WINDOW_"@) {
        Err(e) => Err(e),
        Ok(rest) => match direction_named(rest) {
            Some(direction) => Ok(MoveWindow { direction }),
            None => Err(ActionParseError::Rejected),
        },
    }
}

impl MoveWindow {
    /// Reads `move_window_left`, `_down`, `_up` or `_right`, ignoring ASCII case.
    pub fn from_str(input: &str) -> (r: Result<MoveWindow, ActionParseError>)
        ensures
            r == move_window_parse(input@),
    {
        match keyword_rest(input, "MOVE_WINDOW_") {
            Err(e) => Err(e),
            Ok(rest) => match direction_of(&rest) {
                Some(direction) => Ok(MoveWindow { direction }),
                None => Err(ActionParseError::Rejected),
            },
        }
    }
}

/// Shows a workspace of the current monitor.
#[derive(Clone, Copy, PartialEq, Eq, Structural, Debug)]
pub struct FocusWorkspace {
    pub id: usize,
}

/// What reading `focus_workspace_<number>` gives.
pub open spec fn focus_workspace_parse(s: Seq<char>) -> Result<FocusWorkspace, ActionParseError> {
    match after_keyword(s, "FOCUS_WORKSPACE_"@) {
        Err(e) => Err(e),
        Ok(rest) => match parse_unsigned(rest, usize::MAX as int) {
            Some(id) => Ok(FocusWorkspace { id: id as usize }),
            None => Err(ActionParseError::InvalidArgument),
        },
    }
}

impl FocusWorkspace {
    /// Reads `focus_workspace_<number>`, ignoring ASCII case.
    pub fn from_str(input: &str) -> (r: Result<FocusWorkspace, ActionParseError>)
        ensures
            r == focus_workspace_parse(input@),
    {
        match keyword_rest(input, "FOCUS_WORKSPACE_") {
            Err(e) => Err(e),
            Ok(rest) => match parse_unsigned_exec(&rest, usize::MAX as u64) {
                Some(id) => Ok(FocusWorkspace { id: id as usize }),
                None => Err(ActionParseError::InvalidArgument),
            },
        }
    }

    /// The position of the workspace among those of the monitor (see `workspace_position`).
    pub fn workspace_index(&self) -> (r: usize)
        ensures
            r as int == workspace_position(self.id as int),
    {
        if self.id == 0 {
            9
        } else {
            self.id - 1
        }
    }
}

/// Sends the current window to a workspace of the current monitor.
#[derive(Clone, Copy, PartialEq, Eq, Structural, Debug)]
pub struct MoveToWorkspace {
    pub id: u32,
}

/// What reading `send_to_workspace_<number>` gives.
pub open spec fn move_to_workspace_parse(s: Seq<char>) -> Result<MoveToWorkspace, ActionParseError> {
    match after_keyword(s, "SEND_TO_WORKSPACE_"@) {
        Err(e) => Err(e),
        Ok(rest) => match parse_unsigned(rest, u32::MAX as int) {
            Some(id) => Ok(MoveToWorkspace { id: id as u32 }),
            None => Err(ActionParseError::InvalidArgument),
        },
    }
}

impl MoveToWorkspace {
    /// Reads `send_to_workspace_<number>`, ignoring ASCII case.
    pub fn from_str(input: &str) -> (r: Result<MoveToWorkspace, ActionParseError>)
        ensures
            r == move_to_workspace_parse(input@),
    {
        match keyword_rest(input, "SEND_TO_WORKSPACE_") {
            Err(e) => Err(e),
            Ok(rest) => match parse_unsigned_exec(&rest, u32::MAX as u64) {
                Some(id) => Ok(MoveToWorkspace { id: id as u32 }),
                None => Err(ActionParseError::InvalidArgument),
            },
        }
    }

    /// The position of the workspace among those of the monitor (see `workspace_position`).
    pub fn workspace_index(&self) -> (r: usize)
        ensures
            r as int == workspace_position(self.id as int),
    {
        if self.id == 0 {
            9
        } else {
            (self.id - 1) as usize
        }
    }
}

/// An action that a key binding triggers.
#[derive(Clone, Copy, PartialEq, Eq, Structural, Debug)]
pub enum WindowManagerAction {
    FocusWindow(FocusWindow),
    MoveWindow(MoveWindow),
    FocusWorkspace(FocusWorkspace),
    MoveToWorkspace(MoveToWorkspace),
    CloseWindow(CloseWindow),
}

/// An error of an action that the name must be (its keyword is in it): any
/// error stops the program, and an invalid number ends it with status 100.
pub open spec fn forced(e: ActionParseError) -> ActionParseError {
    match e {
        ActionParseError::InvalidArgument => ActionParseError::InvalidArgument,
        _ => ActionParseError::Malformed,
    }
}

/// What reading an action name gives: the first keyword found among
/// `FOCUS_WINDOW_`, `MOVE_WINDOW_`, `FOCUS_WORKSPACE_`, `SEND_TO_WORKSPACE_`
/// and `CLOSE_WINDOW` (in any ASCII case) decides the action, which must
/// then be read.
pub open spec fn window_manager_action_parse(s: Seq<char>) -> Result<WindowManagerAction, ActionParseError> {
    let u = upper(s);
    if contains(u, "FOCUS_WINDOW_"@) {
        match focus_window_parse(u) {
            Ok(a) => Ok(WindowManagerAction::FocusWindow(a)),
            Err(e) => Err(forced(e)),
        }
    } else if contains(u, "MOVE_WINDOW_"@) {
        match move_window_parse(u) {
            Ok(a) => Ok(WindowManagerAction::MoveWindow(a)),
            Err(e) => Err(forced(e)),
        }
    } else if contains(u, "FOCUS_WORKSPACE_"@) {
        match focus_workspace_parse(u) {
            Ok(a) => Ok(WindowManagerAction::FocusWorkspace(a)),
            Err(e) => Err(forced(e)),
        }
    } else if contains(u, "SEND_TO_WORKSPACE_"@) {
        match move_to_workspace_parse(u) {
            Ok(a) => Ok(WindowManagerAction::MoveToWorkspace(a)),
            Err(e) => Err(forced(e)),
        }
    } else if contains(u, "CLOSE_WINDOW"@) {
        match close_window_parse(u) {
            Ok(a) => Ok(WindowManagerAction::CloseWindow(a)),
            Err(e) => Err(forced(e)),
        }
    } else {
        Err(ActionParseError::Rejected)
    }
}

/// The error of an action that the name must be.
fn force(e: ActionParseError) -> (r: ActionParseError)
    ensures
        r == forced(e),
{
    match e {
        ActionParseError::InvalidArgument => ActionParseError::InvalidArgument,
        _ => ActionParseError::Malformed,
    }
}

/// Upper-casing twice is upper-casing once.
proof fn lemma_upper_idempotent(s: Seq<char>)
    ensures
        upper(upper(s)) == upper(s),
{
    assert(upper(upper(s)) =~= upper(s));
}

impl WindowManagerAction {
    /// Reads an action name (see `window_manager_action_parse`).
    pub fn from_str(input: &str) -> (r: Result<WindowManagerAction, ActionParseError>)
        ensures
            r == window_manager_action_parse(input@),
    {
        let up = to_upper(&chars_of(input));
        let action = string_from(&up);
        proof {
            lemma_upper_idempotent(input@);
        }
        if contains_exec(&up, &lit("FOCUS_WINDOW_")) {
            match FocusWindow::from_str(action.as_str()) {
                Ok(a) => Ok(WindowManagerAction::FocusWindow(a)),
                Err(e) => Err(force(e)),
            }
        } else if contains_exec(&up, &lit("MOVE_WINDOW_")) {
            match MoveWindow::from_str(action.as_str()) {
                Ok(a) => Ok(WindowManagerAction::MoveWindow(a)),
                Err(e) => Err(force(e)),
            }
        } else if contains_exec(&up, &lit("FOCUS_WORKSPACE_")) {
            match FocusWorkspace::from_str(action.as_str()) {
                Ok(a) => Ok(WindowManagerAction::FocusWorkspace(a)),
                Err(e) => Err(force(e)),
            }
        } else if contains_exec(&up, &lit("SEND_TO_WORKSPACE_")) {
            match MoveToWorkspace::from_str(action.as_str()) {
                Ok(a) => Ok(WindowManagerAction::MoveToWorkspace(a)),
                Err(e) => Err(force(e)),
            }
        } else if contains_exec(&up, &lit("CLOSE_WINDOW")) {
            match CloseWindow::from_str(action.as_str()) {
                Ok(a) => Ok(WindowManagerAction::CloseWindow(a)),
                Err(e) => Err(force(e)),
            }
        } else {
            Err(ActionParseError::Rejected)
        }
    }
}

} // verus!
