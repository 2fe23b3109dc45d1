//! The monitors, with their neighbours and workspaces.
use vstd::prelude::*;
use crate::direction::Direction;
use crate::monitor::{Monitor, MonitorView};

verus! {

/// Keeps the monitors.
pub struct MonitorManager {
    monitors: Vec<Monitor>,
}

impl View for MonitorManager {
    type V = Seq<MonitorView>;

    closed spec fn view(&self) -> Seq<MonitorView> {
        self.monitors@.map_values(|m: Monitor| m@)
    }
}

/// Some monitor has the handle.
pub open spec fn has_monitor(ms: Seq<MonitorView>, hmonitor: isize) -> bool {
    exists|i: int| 0 <= i < ms.len() && (#[trigger] ms[i]).hmonitor == hmonitor
}

/// `i` is the first monitor with the handle.
pub open spec fn is_first_monitor(ms: Seq<MonitorView>, hmonitor: isize, i: int) -> bool {
    &&& 0 <= i < ms.len()
    &&& ms[i].hmonitor == hmonitor
    &&& forall|j: int| 0 <= j < i ==> (#[trigger] ms[j]).hmonitor != hmonitor
}

impl MonitorManager {
    /// A manager of the given monitors.
    pub fn new(monitors: Vec<Monitor>) -> (r: Self)
        ensures
            r@ == monitors@.map_values(|m: Monitor| m@),
    {
        Self { monitors }
    }

    /// The handles of all monitors, in order.
    pub fn all(&self) -> (r: Vec<isize>)
        ensures
            r@ == self@.map_values(|m: MonitorView| m.hmonitor),
    {
        let mut r: Vec<isize> = Vec::new();
        let mut i: usize = 0;
        while i < self.monitors.len()
            invariant
                0 <= i <= self.monitors.len(),
                self@ == self.monitors@.map_values(|m: Monitor| m@),
                r@ =~= self@.map_values(|m: MonitorView| m.hmonitor).take(i as int),
            decreases self.monitors.len() - i,
        {
            r.push(self.monitors[i].hmonitor);
            i = i + 1;
        }
        r
    }

    /// The neighbour of a monitor in a direction.
    pub fn neighbor_in_direction(&self, hmonitor: isize, direction: &Direction) -> (r: Option<isize>)
        requires
            has_monitor(self@, hmonitor),
        ensures
            exists|i: int|
                #![trigger self@[i]]
                is_first_monitor(self@, hmonitor, i) && r == self@[i].neighbors.at(*direction),
    {
        let i = self.find(hmonitor);
        self.monitors[i].neighbors.get(direction)
    }

    /// The workspaces of a monitor.
    pub fn workspaces_for_monitor(&self, hmonitor: isize) -> (r: &Vec<usize>)
        requires
            has_monitor(self@, hmonitor),
        ensures
            exists|i: int|
                #![trigger self@[i]]
                is_first_monitor(self@, hmonitor, i) && r@ == self@[i].workspaces,
    {
        let i = self.find(hmonitor);
        &self.monitors[i].workspaces
    }

    /// The first monitor with the handle.
    fn find(&self, hmonitor: isize) -> (r: usize)
        requires
            has_monitor(self@, hmonitor),
        ensures
            is_first_monitor(self@, hmonitor, r as int),
    {
        let mut i: usize = 0;
        while i < self.monitors.len()
            invariant
                0 <= i <= self.monitors.len(),
                self@ == self.monitors@.map_values(|m: Monitor| m@),
                has_monitor(self@, hmonitor),
                forall|j: int| 0 <= j < i ==> (#[trigger] self@[j]).hmonitor != hmonitor,
            decreases self.monitors.len() - i,
        {
            if self.monitors[i].hmonitor == hmonitor {
                return i;
            }
            i = i + 1;
        }
        proof {
            let k = choose|k: int| 0 <= k < self@.len() && (#[trigger] self@[k]).hmonitor == hmonitor;
        }
        0
    }
}

/// The first monitor with a handle is unique.
pub proof fn lemma_first_monitor_unique(ms: Seq<MonitorView>, h: isize, a: int, b: int)
    requires
        is_first_monitor(ms, h, a),
        is_first_monitor(ms, h, b),
    ensures
        a == b,
{
    if a < b {
        assert(ms[a].hmonitor == h);
    } else if b < a {
        assert(ms[b].hmonitor == h);
    }
}

} // verus!
