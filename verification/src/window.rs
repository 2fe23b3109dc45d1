//! What the window manager knows of a top-level window.
use vstd::prelude::*;
use crate::direction::DirectionCandidate;
use crate::geometry::Rect;
use crate::text::{chars_of, contains, contains_exec, lit};

verus! {

/// The window's frame and client areas and the widths of its borders.
#[derive(Clone, Copy, PartialEq, Eq, Structural, Debug)]
pub struct WindowInfo {
    pub window_rect: Rect,
    pub client_rect: Rect,
    pub window_borders_x: u32,
    pub window_borders_y: u32,
}

/// A top-level window.
pub struct Window {
    pub title: String,
    pub hwnd: isize,
    pub thread_id: u32,
    pub process_id: u32,
    pub rect: Rect,
    pub bounding_rect: Rect,
    pub border_thickness: u32,
    pub info: WindowInfo,
    pub dpi: u32,
    pub style: i32,
    pub extended_style: i32,
    pub focused: bool,
}

/// The style bit of a minimized window.
pub const WS_MINIMIZE: i32 = 0x2000_0000i32;

/// The style bit of a maximized window.
pub const WS_MAXIMIZE: i32 = 0x0100_0000i32;

/// A window with this style is minimized.
pub open spec fn is_minimized(style: i32) -> bool {
    style & WS_MINIMIZE != 0
}

/// A window with this style is maximized.
pub open spec fn is_maximized(style: i32) -> bool {
    style & WS_MAXIMIZE != 0
}

/// The style bit of a visible window.
pub const WS_VISIBLE: u32 = 0x1000_0000u32;

/// The style bits of an overlapped window (title bar, frame, system menu and buttons).
pub const WS_OVERLAPPEDWINDOW: u32 = 0x00CF_0000u32;

/// The style bit of a window with a sizing border.
pub const WS_SIZEBOX: u32 = 0x0004_0000u32;

/// What `str::to_lowercase` gives (the full Unicode lower-case mapping).
pub uninterp spec fn unicode_lower(s: Seq<char>) -> Seq<char>;

/// Lower-cases a text.
///
/// Trusted: calls `str::to_lowercase`, which maps each character to its
/// Unicode lower case; the contract only names that mapping.
#[verifier::external_body]
fn to_lowercase(s: &str) -> (r: String)
    ensures
        r@ == unicode_lower(s@),
{
    s.to_lowercase()
}

/// A window is managed when it has a title whose lower-case form
/// `lower_title` does not mention settings, and it is visible, overlapped
/// (some bit of `WS_OVERLAPPEDWINDOW` set) and has a sizing border.
pub open spec fn is_manageable_with(title: Seq<char>, lower_title: Seq<char>, style: u32) -> bool {
    &&& title.len() > 0
    &&& !contains(lower_title, "settings"@)
    &&& style & WS_VISIBLE != 0
    &&& style & WS_OVERLAPPEDWINDOW != 0
    &&& style & WS_SIZEBOX != 0
}

/// A window is managed (see `is_manageable_with`), its title lower-cased by
/// the Unicode mapping.
pub open spec fn is_manageable(title: Seq<char>, style: u32) -> bool {
    is_manageable_with(title, unicode_lower(title), style)
}

/// Whether a window is managed, given its title in lower case (see `is_manageable_with`).
pub fn manageable_with(title: &str, lower_title: &str, style: u32) -> (r: bool)
    ensures
        r == is_manageable_with(title@, lower_title@, style),
{
    if title.unicode_len() == 0 {
        return false;
    }
    if contains_exec(&chars_of(lower_title), &lit("settings")) {
        return false;
    }
    style & WS_VISIBLE != 0 && style & WS_OVERLAPPEDWINDOW != 0 && style & WS_SIZEBOX != 0
}

/// Whether a window with this title and style is managed (see `is_manageable`).
pub fn manageable(title: &str, style: u32) -> (r: bool)
    ensures
        r == is_manageable(title@, style),
{
    let lower = to_lowercase(title);
    manageable_with(title, lower.as_str(), style)
}

impl PartialEq for Window {
    /// Two windows count as the same when they share the handle, the title,
    /// the thread or the process.
    fn eq(&self, other: &Self) -> (r: bool) {
        self.hwnd == other.hwnd || self.title == other.title || self.thread_id == other.thread_id
            || self.process_id == other.process_id
    }
}

impl vstd::std_specs::cmp::PartialEqSpecImpl for Window {
    open spec fn obeys_eq_spec() -> bool {
        true
    }

    open spec fn eq_spec(&self, other: &Self) -> bool {
        self.hwnd == other.hwnd || self.title@ == other.title@ || self.thread_id == other.thread_id
            || self.process_id == other.process_id
    }
}

impl DirectionCandidate {
    /// A window as a candidate for direction search: its position is the
    /// inner corner of its frame, and its border widths are its offsets.
    pub fn from_window(window: &Window) -> (r: DirectionCandidate)
        requires
            window.rect.left + (window.info.window_borders_x as i32) <= i32::MAX,
            window.rect.left + (window.info.window_borders_x as i32) >= i32::MIN,
            window.rect.top + (window.info.window_borders_y as i32) <= i32::MAX,
            window.rect.top + (window.info.window_borders_y as i32) >= i32::MIN,
        ensures
            r.id == window.hwnd,
            r.name@ == window.title@,
            r.rect == (Rect {
                left: (window.rect.left + (window.info.window_borders_x as i32)) as i32,
                top: (window.rect.top + (window.info.window_borders_y as i32)) as i32,
                right: window.rect.right,
                bottom: window.rect.bottom,
            }),
            r.offset_x == Some(window.info.window_borders_x),
            r.offset_y == Some(window.info.window_borders_y),
    {
        let bx: i32 = #[verifier::truncate] (window.info.window_borders_x as i32);
        let by: i32 = #[verifier::truncate] (window.info.window_borders_y as i32);
        DirectionCandidate {
            id: window.hwnd,
            name: window.title.clone(),
            rect: Rect {
                left: window.rect.left + bx,
                top: window.rect.top + by,
                right: window.rect.right,
                bottom: window.rect.bottom,
            },
            offset_x: Some(window.info.window_borders_x),
            offset_y: Some(window.info.window_borders_y),
        }
    }
}

} // verus!
