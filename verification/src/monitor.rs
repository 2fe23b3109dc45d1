//! What the window manager knows of a monitor.
use vstd::prelude::*;
use crate::direction::{Direction, DirectionCandidate};
use crate::geometry::Rect;
use crate::text::{chars_of, lit, slice, split, split_exec, string_from};

verus! {

/// The monitor's full area and its work area (without the task bar).
#[derive(Clone, Copy, PartialEq, Eq, Structural, Debug)]
pub struct MonitorInfo {
    pub monitor: Rect,
    pub work: Rect,
}

/// The monitor's display mode: position on the virtual screen and size in pixels.
#[derive(Clone, Copy, PartialEq, Eq, Structural, Debug)]
pub struct DeviceMode {
    pub position_x: i32,
    pub position_y: i32,
    pub pels_width: u32,
    pub pels_height: u32,
}

/// The neighbouring monitor in each direction, if any.
#[derive(Clone, Copy, PartialEq, Eq, Structural, Debug)]
pub struct Neighbors {
    pub left: Option<isize>,
    pub down: Option<isize>,
    pub up: Option<isize>,
    pub right: Option<isize>,
}

impl Neighbors {
    /// No neighbours.
    pub fn new() -> (r: Neighbors)
        ensures
            r == (Neighbors { left: None, down: None, up: None, right: None }),
    {
        Neighbors { left: None, down: None, up: None, right: None }
    }

    /// The neighbour in a direction.
    pub open spec fn at(self, d: Direction) -> Option<isize> {
        match d {
            Direction::LEFT => self.left,
            Direction::DOWN => self.down,
            Direction::UP => self.up,
            Direction::RIGHT => self.right,
        }
    }

    /// The neighbours with the one in direction `d` replaced.
    pub open spec fn with(self, d: Direction, h: isize) -> Neighbors {
        match d {
            Direction::LEFT => Neighbors { left: Some(h), ..self },
            Direction::DOWN => Neighbors { down: Some(h), ..self },
            Direction::UP => Neighbors { up: Some(h), ..self },
            Direction::RIGHT => Neighbors { right: Some(h), ..self },
        }
    }

    /// The neighbour in a direction.
    pub fn get(&self, direction: &Direction) -> (r: Option<isize>)
        ensures
            r == self.at(*direction),
    {
        match direction {
            Direction::LEFT => self.left,
            Direction::DOWN => self.down,
            Direction::UP => self.up,
            Direction::RIGHT => self.right,
        }
    }

    /// Records the neighbour in a direction.
    pub fn insert(&mut self, direction: Direction, hmonitor: isize)
        ensures
            *final(self) == old(self).with(direction, hmonitor),
    {
        match direction {
            Direction::LEFT => self.left = Some(hmonitor),
            Direction::DOWN => self.down = Some(hmonitor),
            Direction::UP => self.up = Some(hmonitor),
            Direction::RIGHT => self.right = Some(hmonitor),
        }
    }
}

/// A monitor with its neighbours and the indices of its workspaces.
pub struct Monitor {
    pub hmonitor: isize,
    pub name: String,
    pub info: MonitorInfo,
    pub device_mode: DeviceMode,
    pub scale: i32,
    pub dpi: u32,
    pub neighbors: Neighbors,
    pub workspaces: Vec<usize>,
}

/// The value of a monitor.
pub struct MonitorView {
    pub hmonitor: isize,
    pub name: Seq<char>,
    pub info: MonitorInfo,
    pub device_mode: DeviceMode,
    pub scale: i32,
    pub dpi: u32,
    pub neighbors: Neighbors,
    pub workspaces: Seq<usize>,
}

impl View for Monitor {
    type V = MonitorView;

    open spec fn view(&self) -> MonitorView {
        MonitorView {
            hmonitor: self.hmonitor,
            name: self.name@,
            info: self.info,
            device_mode: self.device_mode,
            scale: self.scale,
            dpi: self.dpi,
            neighbors: self.neighbors,
            workspaces: self.workspaces@,
        }
    }
}

impl PartialEq for Monitor {
    /// Two monitors are the same when their handles are.
    fn eq(&self, other: &Self) -> (r: bool) {
        self.hmonitor == other.hmonitor
    }
}

impl vstd::std_specs::cmp::PartialEqSpecImpl for Monitor {
    open spec fn obeys_eq_spec() -> bool {
        true
    }

    open spec fn eq_spec(&self, other: &Self) -> bool {
        self.hmonitor == other.hmonitor
    }
}

impl DirectionCandidate {
    /// A monitor as a candidate for direction search: its position is the
    /// top-left corner of its full area, with no offsets.
    pub fn from_monitor(monitor: &Monitor) -> (r: DirectionCandidate)
        ensures
            r.id == monitor.hmonitor,
            r.name@ == monitor.name@,
            r.rect == monitor.info.monitor,
            r.offset_x is None,
            r.offset_y is None,
    {
        DirectionCandidate {
            id: monitor.hmonitor,
            name: monitor.name.clone(),
            rect: monitor.info.monitor,
            offset_x: None,
            offset_y: None,
        }
    }
}

/// `s` without its leading occurrences of `c`.
pub open spec fn trim_leading(s: Seq<char>, c: char) -> Seq<char>
    decreases s.len(),
{
    if s.len() > 0 && s[0] == c {
        trim_leading(s.drop_first(), c)
    } else {
        s
    }
}

/// The display name in a raw device name: the text up to the first NUL,
/// without its leading backslashes.
pub open spec fn display_name(raw: Seq<char>) -> Seq<char> {
    trim_leading(split(raw, seq!['\0'])[0], '\\')
}

/// The display name in a raw device name (see `display_name`).
pub fn device_name(raw: &str) -> (r: String)
    ensures
        r@ == display_name(raw@),
{
    let chars = chars_of(raw);
    let nul = lit("\0");
    proof {
        reveal_strlit("\0");
    }
    assert(nul@ =~= seq!['\0']);
    let pieces = split_exec(&chars, &nul);
    assert(split(chars@, nul@).len() >= 1);
    assert(pieces@.map_values(|v: Vec<char>| v@).len() == pieces@.len());
    assert(pieces@.map_values(|v: Vec<char>| v@)[0] == pieces@[0]@);
    let first = &pieces[0];
    let mut start: usize = 0;
    assert(first@.skip(0) =~= first@);
    while start < first.len() && first[start] == '\\'
        invariant
            0 <= start <= first.len(),
            trim_leading(first@, '\\') == trim_leading(first@.skip(start as int), '\\'),
        decreases first.len() - start,
    {
        assert(first@.skip(start as int).drop_first() =~= first@.skip(start + 1));
        start = start + 1;
    }
    proof {
        if start < first.len() {
            assert(first@.skip(start as int)[0] == first@[start as int]);
        }
    }
    string_from(&slice(first, start, first.len()))
}

} // verus!
