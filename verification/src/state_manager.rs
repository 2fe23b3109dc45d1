//! The state of the window manager as a whole, and the decisions taken on it.
//!
//! What the system reports (the foreground window, the monitor it is on, the
//! windows found) comes in as arguments; what the system must do (focus,
//! place, minimize, restore, maximize windows) goes out as results.
use vstd::prelude::*;
use crate::actions::{workspace_position, WindowManagerAction};
use crate::axis::Axis;
use crate::direction::Direction;
use crate::geometry::Rect;
use crate::group::{
    add_positions, add_result, lemma_validated_shape, validated,
    first_group, other_than, add_dir_positions, add_dir_result, adjacent_in, all_hwnds, entered_from, extreme_in, first_pos,
    group_positions, groups_wf, holds_at_least, hwnds_of_groups, ids_in_range, is_first_group_of,
    is_first_position, is_managed, lemma_all_hwnds_contains, lemma_all_hwnds_member,
    lemma_first_group_exists, lemma_first_group_unique, lemma_first_position_unique, lemma_group_positions_held,
    lemma_holds_at_least_managed, lemma_layout_in_range, lemma_window_positions_managed,
    lemma_remove_add_keeps_managed, lemma_remove_keeps_others, lemma_swap_keeps_managed,
    rect_in_range, remove_positions, remove_result, same_layout, swap_groups, swap_result, swapped,
    vec_contains, visible_windows, window_positions, with_windows, GroupManager, GroupView,
};
use crate::held::{held_counts, lemma_remove_add_keeps_counts, lemma_swap_keeps_counts};
use crate::monitor::MonitorView;
use crate::monitor_manager::{has_monitor, is_first_monitor, lemma_first_monitor_unique, MonitorManager};
use crate::window::{is_minimized, Window};
use crate::window_manager::{
    gone_hwnds, has_window, lemma_gone_distinct, is_first_window, managed_list, merged, newly_added, pruned, with_dpi,
    WindowManager,
};
use crate::workspace::{
    toggled, group_adjacent, has_active, has_workspace_of, is_first_active, is_first_workspace_of, listed,
    WorkspaceManager, WorkspaceView,
};

verus! {

/// The first workspace made of a group.
pub open spec fn first_workspace(ws: Seq<WorkspaceView>, g: usize) -> int {
    choose|i: int| is_first_workspace_of(ws, g, i)
}

/// The first monitor with a handle.
pub open spec fn first_monitor(ms: Seq<MonitorView>, h: isize) -> int {
    choose|i: int| is_first_monitor(ms, h, i)
}

/// The position of the first active workspace among the listed ones.
pub open spec fn first_active(ws: Seq<WorkspaceView>, ids: Seq<usize>) -> int {
    choose|k: int| is_first_active(ws, ids, k)
}

/// The structure that every lookup relies on: groups and workspaces sit at
/// their index, each group belongs to a workspace, workspaces are made of
/// existing groups, monitors have existing workspaces and neighbours.
pub open spec fn state_wf(gs: Seq<GroupView>, ws: Seq<WorkspaceView>, ms: Seq<MonitorView>) -> bool {
    &&& groups_wf(gs)
    &&& forall|i: int| 0 <= i < ws.len() ==> (#[trigger] ws[i]).index == i
    &&& forall|j: usize| j < gs.len() ==> #[trigger] has_workspace_of(ws, j)
    &&& forall|i: int| 0 <= i < ws.len() ==> ids_in_range(gs, (#[trigger] ws[i]).groups)
    &&& forall|i: int, d: Direction|
        0 <= i < ms.len() && (#[trigger] ms[i].neighbors.at(d)) is Some ==> has_monitor(
            ms,
            ms[i].neighbors.at(d)->0,
        )
    &&& forall|i: int, k: int|
        0 <= i < ms.len() && 0 <= k < (#[trigger] ms[i]).workspaces.len() ==> #[trigger] ms[i].workspaces[k]
            < ws.len()
}

/// Where the windows of one group go, and which window to maximize: the
/// only window of the only group of its workspace is maximized.
pub struct GroupPlacement {
    pub group: usize,
    pub positions: Vec<(isize, Rect)>,
    pub maximize: Option<isize>,
}

/// The groups of the positions, in order of first appearance.
pub open spec fn placement_groups(gs: Seq<GroupView>, ps: Seq<(isize, Rect)>) -> Seq<usize>
    decreases ps.len(),
{
    if ps.len() == 0 {
        Seq::empty()
    } else {
        let prev = placement_groups(gs, ps.drop_last());
        let g = first_group(gs, ps.last().0) as usize;
        if prev.contains(g) {
            prev
        } else {
            prev.push(g)
        }
    }
}

/// The positions whose window is first held by group `g`, in order.
pub open spec fn positions_in_group(gs: Seq<GroupView>, ps: Seq<(isize, Rect)>, g: usize) -> Seq<
    (isize, Rect),
> {
    ps.filter(|p: (isize, Rect)| first_group(gs, p.0) == g as int)
}

/// The window to maximize for a group, given its positions.
pub open spec fn maximized_in(
    ws: Seq<WorkspaceView>,
    g: usize,
    ps: Seq<(isize, Rect)>,
) -> Option<isize> {
    if ps.len() == 1 && ws[first_workspace(ws, g)].groups.len() == 1 {
        Some(ps[0].0)
    } else {
        None
    }
}

/// `r` is how positions `ps` are carried out: one entry per group, in order
/// of first appearance, with the group's positions in order and the window
/// to maximize.
pub open spec fn is_placement(
    gs: Seq<GroupView>,
    ws: Seq<WorkspaceView>,
    ps: Seq<(isize, Rect)>,
    r: Seq<GroupPlacement>,
) -> bool {
    &&& r.len() == placement_groups(gs, ps).len()
    &&& forall|i: int|
        0 <= i < r.len() ==> {
            &&& (#[trigger] r[i]).group == placement_groups(gs, ps)[i]
            &&& r[i].positions@ == positions_in_group(gs, ps, r[i].group)
            &&& r[i].maximize == maximized_in(ws, r[i].group, r[i].positions@)
        }
}

/// The item of a list of groups one enters first when arriving from direction `d`.
pub open spec fn extreme_group(d: Direction, s: Seq<usize>) -> Option<usize> {
    match d.extreme_of(s.len() as int) {
        Some(q) => Some(s[q as int]),
        None => None,
    }
}

/// The windows to hide and the windows to show when another workspace is shown.
pub struct WorkspaceSwitch {
    pub hide: Vec<isize>,
    pub show: Vec<isize>,
}

/// What the caller is to do once an action has been taken.
pub enum ActionOutcome {
    /// Focus the window, if one was found.
    Focus(Option<isize>),
    /// Place the windows of the groups.
    Place(Vec<GroupPlacement>),
    /// Hide and show the windows, if another workspace is shown, then take
    /// events again (`resume_events`).
    Switch(Option<WorkspaceSwitch>),
    /// Minimize the foreground window and place the windows left behind, if
    /// it was sent to another workspace, then take events again.
    Send(Option<Vec<GroupPlacement>>),
    /// Close the window.
    Close(isize),
}

/// The groups after each window in turn leaves its group (see `remove_result`).
pub open spec fn remove_all(gs: Seq<GroupView>, hs: Seq<isize>) -> Seq<GroupView>
    decreases hs.len(),
{
    if hs.len() == 0 {
        gs
    } else {
        remove_result(remove_all(gs, hs.drop_last()), hs.last())
    }
}

/// The groups after adding each window in turn to group `gi` (see `add_result`).
pub open spec fn add_all(gs: Seq<GroupView>, gi: int, hs: Seq<isize>) -> Seq<GroupView>
    decreases hs.len(),
{
    if hs.len() == 0 {
        gs
    } else {
        add_result(add_all(gs, gi, hs.drop_last()), gi, hs.last())
    }
}

/// The state of the window manager.
pub struct StateManager {
    pub window_manager: WindowManager,
    pub group_manager: GroupManager,
    pub workspace_manager: WorkspaceManager,
    pub monitor_manager: MonitorManager,
    pub ignore_events: bool,
}

impl StateManager {
    /// The structure that every lookup relies on (see `state_wf`).
    pub open spec fn wf(&self) -> bool {
        state_wf(self.group_manager@, self.workspace_manager@, self.monitor_manager@)
    }

    /// The workspaces of a monitor.
    pub open spec fn monitor_workspaces(&self, hmonitor: isize) -> Seq<usize> {
        self.monitor_manager@[first_monitor(self.monitor_manager@, hmonitor)].workspaces
    }

    /// The monitor is known and one of its workspaces is active.
    pub open spec fn monitor_has_active(&self, hmonitor: isize) -> bool {
        has_monitor(self.monitor_manager@, hmonitor) && has_active(
            self.workspace_manager@,
            self.monitor_workspaces(hmonitor),
        )
    }

    /// The index of the workspace a monitor shows: the first active one
    /// among the monitor's workspaces.
    pub open spec fn current_workspace_of(&self, hmonitor: isize) -> int {
        let ids = self.monitor_workspaces(hmonitor);
        listed(self.workspace_manager@, ids)[first_active(self.workspace_manager@, ids)].index as int
    }

    /// The current group among groups `gs`: the group of the foreground
    /// window when a group holds it, else the last group of the current workspace.
    pub open spec fn group_in(&self, gs: Seq<GroupView>, foreground: isize, hmonitor: isize) -> usize {
        if is_managed(gs, foreground) {
            first_group(gs, foreground) as usize
        } else {
            let gr = self.workspace_manager@[self.current_workspace_of(hmonitor)].groups;
            gr[gr.len() - 1]
        }
    }

    /// The current group among groups `gs` can be found.
    pub open spec fn group_found_in(&self, gs: Seq<GroupView>, foreground: isize, hmonitor: isize) -> bool {
        is_managed(gs, foreground) || (self.monitor_has_active(hmonitor)
            && self.workspace_manager@[self.current_workspace_of(hmonitor)].groups.len() > 0)
    }

    /// The current group (see `group_in`).
    pub open spec fn current_group_of(&self, foreground: isize, hmonitor: isize) -> usize {
        self.group_in(self.group_manager@, foreground, hmonitor)
    }

    /// The current group can be found.
    pub open spec fn current_group_ok(&self, foreground: isize, hmonitor: isize) -> bool {
        self.group_found_in(self.group_manager@, foreground, hmonitor)
    }

    /// The managed windows and the windows in groups are as many.
    pub open spec fn counts_agree(&self) -> bool {
        managed_list(self.window_manager@, false).len() == all_hwnds(self.group_manager@).len()
    }

    /// The groups after each managed window found gone leaves its group, in turn.
    pub open spec fn pruned_groups(&self, still_exists: Seq<bool>) -> Seq<GroupView> {
        remove_all(self.group_manager@, gone_hwnds(self.window_manager@, still_exists))
    }

    /// The handles of the managed windows that are not minimized.
    pub open spec fn shown(&self) -> Seq<isize> {
        managed_list(self.window_manager@, true)
    }

    /// The first group of the foreground window.
    pub open spec fn group_of(&self, h: isize) -> int {
        first_group(self.group_manager@, h)
    }

    /// The window next to the foreground window in its own group.
    pub open spec fn in_group_candidate(&self, d: Direction, fg: isize) -> Option<isize> {
        adjacent_in(d, visible_windows(self.group_manager@[self.group_of(fg)], self.shown()), fg)
    }

    /// The group next to the foreground window's group in its workspace.
    pub open spec fn adjacent_group(&self, d: Direction, fg: isize) -> Option<usize> {
        let g = self.group_of(fg) as usize;
        group_adjacent(d, self.workspace_manager@[first_workspace(self.workspace_manager@, g)].groups, g)
    }

    /// The neighbour of a monitor in a direction.
    pub open spec fn neighbor(&self, hmonitor: isize, d: Direction) -> Option<isize> {
        self.monitor_manager@[first_monitor(self.monitor_manager@, hmonitor)].neighbors.at(d)
    }

    /// The groups of the workspace a monitor shows.
    pub open spec fn shown_groups(&self, hmonitor: isize) -> Seq<usize> {
        self.workspace_manager@[self.current_workspace_of(hmonitor)].groups
    }

    /// The window to focus when moving the focus in direction `d` from the
    /// foreground window: the next window in its group; else, when its
    /// workspace has a next group, the window one enters first there; else,
    /// when its monitor has a neighbour, the window one enters first in the
    /// group one enters first on the workspace that monitor shows.
    pub open spec fn focus_target(&self, d: Direction, fg: isize, hmonitor: isize) -> Option<isize> {
        match self.in_group_candidate(d, fg) {
            Some(h) => Some(h),
            None => match self.adjacent_group(d, fg) {
                Some(ag) => extreme_in(d, hwnds_of_groups(self.group_manager@, seq![ag])),
                None => match self.neighbor(hmonitor, d) {
                    None => None,
                    Some(nm) => match extreme_group(d, self.shown_groups(nm)) {
                        None => None,
                        Some(tg) => extreme_in(d, hwnds_of_groups(self.group_manager@, seq![tg])),
                    },
                },
            },
        }
    }

    /// The search for the window to focus finds everything it looks up.
    pub open spec fn focus_ok(&self, d: Direction, fg: isize, hmonitor: isize) -> bool {
        &&& has_window(self.window_manager@, fg)
        &&& is_managed(self.group_manager@, fg)
        &&& (self.in_group_candidate(d, fg) is Some || self.adjacent_group(d, fg) is Some || (
        has_monitor(self.monitor_manager@, hmonitor) && match self.neighbor(hmonitor, d) {
            None => true,
            Some(nm) => self.monitor_has_active(nm),
        }))
    }


    /// The group a window moves into on a neighbouring monitor: the last
    /// group of the workspace that monitor shows for LEFT and UP, the first
    /// for DOWN and RIGHT.
    pub open spec fn target_group(&self, nm: isize, d: Direction) -> usize {
        let grs = self.shown_groups(nm);
        match d {
            Direction::LEFT | Direction::UP => grs[grs.len() - 1],
            Direction::DOWN | Direction::RIGHT => grs[0],
        }
    }

    /// The groups after moving the foreground window in direction `d`: it
    /// trades places with the next window of its group; else it leaves its
    /// group for the next group of its workspace; else it leaves its group
    /// for the group it enters on the neighbouring monitor; else nothing moves.
    pub open spec fn moved_groups(&self, d: Direction, fg: isize, hmonitor: isize) -> Seq<GroupView> {
        let gs = self.group_manager@;
        match self.in_group_candidate(d, fg) {
            Some(n) => swap_result(gs, fg, n),
            None => match self.adjacent_group(d, fg) {
                Some(ag) => add_dir_result(remove_result(gs, fg), ag as int, fg, d),
                None => match self.neighbor(hmonitor, d) {
                    Some(nm) => add_dir_result(
                        remove_result(gs, fg),
                        self.target_group(nm, d) as int,
                        fg,
                        d,
                    ),
                    None => gs,
                },
            },
        }
    }

    /// The new positions after moving the foreground window in direction `d`.
    pub open spec fn move_positions(&self, d: Direction, fg: isize, hmonitor: isize) -> Seq<(isize, Rect)> {
        let gs = self.group_manager@;
        let m = self.shown();
        match self.in_group_candidate(d, fg) {
            Some(n) => window_positions(swap_result(gs, fg, n), swap_groups(gs, fg, n), m),
            None => match self.adjacent_group(d, fg) {
                Some(ag) => remove_positions(gs, fg, m) + add_dir_positions(
                    remove_result(gs, fg),
                    ag as int,
                    fg,
                    d,
                    m,
                ),
                None => match self.neighbor(hmonitor, d) {
                    Some(nm) => remove_positions(gs, fg, m) + add_dir_positions(
                        remove_result(gs, fg),
                        self.target_group(nm, d) as int,
                        fg,
                        d,
                        m,
                    ),
                    None => Seq::empty(),
                },
            },
        }
    }

    /// Moving the window goes to another monitor.
    pub open spec fn move_changes_monitor(&self, d: Direction, fg: isize, hmonitor: isize) -> bool {
        &&& self.in_group_candidate(d, fg) is None
        &&& self.adjacent_group(d, fg) is None
        &&& self.neighbor(hmonitor, d) is Some
    }

    /// Moving the window finds everything it looks up.
    pub open spec fn move_ok(&self, d: Direction, fg: isize, hmonitor: isize) -> bool {
        &&& is_managed(self.group_manager@, fg)
        &&& (self.in_group_candidate(d, fg) is Some || self.adjacent_group(d, fg) is Some || (
        has_monitor(self.monitor_manager@, hmonitor) && match self.neighbor(hmonitor, d) {
            None => true,
            Some(nm) => self.monitor_has_active(nm) && self.shown_groups(nm).len() > 0
                && has_window(self.window_manager@, fg),
        }))
    }

    /// The workspace at position `workspace_index` among the monitor's
    /// workspaces.
    pub open spec fn target_workspace(&self, workspace_index: usize, hmonitor: isize) -> int {
        self.monitor_workspaces(hmonitor)[workspace_index as int] as int
    }

    /// `next` holds what showing the workspace at `workspace_index` leaves:
    /// the shown workspace and the requested one have flipped whether they
    /// are shown (nothing changes when they are the same), all else is kept.
    pub open spec fn shows_workspace(&self, next: Self, workspace_index: usize, hmonitor: isize) -> bool {
        let cur = self.current_workspace_of(hmonitor);
        let tgt = self.target_workspace(workspace_index, hmonitor);
        let ws = self.workspace_manager@;
        &&& next.group_manager@ == self.group_manager@
        &&& next.monitor_manager@ == self.monitor_manager@
        &&& next.window_manager@ == self.window_manager@
        &&& next.workspace_manager@ == if cur == tgt {
            ws
        } else {
            ws.update(cur, toggled(ws[cur])).update(tgt, toggled(ws[tgt]))
        }
    }

    /// `next` holds what sending the foreground window to the workspace at
    /// `workspace_index` leaves: unless that workspace is shown, the window
    /// has left its group and joined the first group of that workspace; all
    /// else is kept.
    pub open spec fn sends_to_workspace(&self, next: Self, workspace_index: usize, foreground: isize, hmonitor: isize) -> bool {
        let tgt = self.target_workspace(workspace_index, hmonitor);
        let gs = self.group_manager@;
        &&& next.monitor_manager@ == self.monitor_manager@
        &&& next.window_manager@ == self.window_manager@
        &&& next.workspace_manager@ == self.workspace_manager@
        &&& next.group_manager@ == if self.current_workspace_of(hmonitor) == tgt {
            gs
        } else {
            add_result(remove_result(gs, foreground), self.workspace_manager@[tgt].groups[0] as int, foreground)
        }
    }

    /// `next` is this state with events taken again.
    pub open spec fn resumed(&self, next: Self) -> bool {
        &&& next.group_manager@ == self.group_manager@
        &&& next.monitor_manager@ == self.monitor_manager@
        &&& next.window_manager@ == self.window_manager@
        &&& next.workspace_manager@ == self.workspace_manager@
        &&& !next.ignore_events
    }

    /// Taking the action finds everything it looks up.
    pub open spec fn action_ok(&self, action: WindowManagerAction, fg: isize, hmonitor: isize) -> bool {
        match action {
            WindowManagerAction::FocusWindow(a) => self.focus_ok(a.direction, fg, hmonitor),
            WindowManagerAction::MoveWindow(a) => self.move_ok(a.direction, fg, hmonitor),
            WindowManagerAction::FocusWorkspace(a) => {
                &&& self.monitor_has_active(hmonitor)
                &&& workspace_position(a.id as int) < self.monitor_workspaces(hmonitor).len()
            },
            WindowManagerAction::MoveToWorkspace(a) => {
                let i = workspace_position(a.id as int) as usize;
                &&& self.monitor_has_active(hmonitor)
                &&& workspace_position(a.id as int) < self.monitor_workspaces(hmonitor).len()
                &&& self.current_workspace_of(hmonitor) != self.target_workspace(i, hmonitor) ==> {
                    &&& is_managed(self.group_manager@, fg)
                    &&& self.workspace_manager@[self.target_workspace(i, hmonitor)].groups.len() > 0
                }
            },
            WindowManagerAction::CloseWindow(_) => true,
        }
    }

    /// The workspace shown on the current monitor (see `current_workspace_of`).
    pub fn current_workspace(&self, hmonitor: isize) -> (r: usize)
        requires
            self.wf(),
            self.monitor_has_active(hmonitor),
        ensures
            r == self.current_workspace_of(hmonitor),
            r < self.workspace_manager@.len(),
    {
        let workspaces = self.monitor_manager.workspaces_for_monitor(hmonitor);
        proof {
            let i = choose|i: int|
                #![trigger self.monitor_manager@[i]]
                is_first_monitor(self.monitor_manager@, hmonitor, i)
                    && workspaces@ == self.monitor_manager@[i].workspaces;
            lemma_first_monitor_unique(
                self.monitor_manager@,
                hmonitor,
                i,
                first_monitor(self.monitor_manager@, hmonitor),
            );
        }
        let r = self.workspace_manager.active_workspace_index(workspaces);
        proof {
            let ws = self.workspace_manager@;
            let k = choose|k: int| is_first_active(ws, workspaces@, k) && r == listed(ws, workspaces@)[k].index;
            lemma_first_active_unique(ws, workspaces@, k, first_active(ws, workspaces@));
            lemma_listed_at_index(ws, workspaces@, k);
        }
        r
    }

    /// The current group (see `current_group_of`).
    pub fn current_group(&self, foreground: isize, hmonitor: isize) -> (r: usize)
        requires
            self.wf(),
            self.current_group_ok(foreground, hmonitor),
        ensures
            r == self.current_group_of(foreground, hmonitor),
            r < self.group_manager@.len(),
    {
        let managed = self.group_manager.managed_hwnds();
        if vec_contains(&managed, foreground) {
            proof {
                lemma_all_hwnds_member(self.group_manager@, foreground);
            }
            let g = self.group_manager.group_for_hwnd(foreground);
            proof {
                lemma_first_group_unique(self.group_manager@, foreground, g as int, first_group(self.group_manager@, foreground));
            }
            return g;
        }
        proof {
            if is_managed(self.group_manager@, foreground) {
                let i = choose|i: int| 0 <= i < self.group_manager@.len() && (#[trigger] self.group_manager@[i]).windows.contains(foreground);
                lemma_all_hwnds_contains(self.group_manager@, i, foreground);
            }
        }
        let workspace = self.current_workspace(hmonitor);
        let groups = self.workspace_manager.groups_for_workspace(workspace);
        proof {
            assert(ids_in_range(self.group_manager@, self.workspace_manager@[workspace as int].groups));
            assert(groups@[groups.len() - 1] < self.group_manager@.len());
        }
        groups[groups.len() - 1]
    }


    /// The window to focus when moving the focus in direction `d` from the
    /// foreground window on monitor `hmonitor` (see `focus_target`); `None`
    /// when there is none.
    pub fn focus_window_in_direction(&self, direction: Direction, foreground: isize, hmonitor: isize) -> (r:
        Option<isize>)
        requires
            self.wf(),
            self.focus_ok(direction, foreground, hmonitor),
        ensures
            r == self.focus_target(direction, foreground, hmonitor),
    {
        let current = self.window_manager.current_window(foreground);
        let shown = self.window_manager.managed_hwnds(true);
        let ghost gs = self.group_manager@;
        let nearest = self.group_manager.candidate_for_hwnd_in_direction(current, &direction, &shown);
        proof {
            let gi = choose|gi: int| #![trigger gs[gi]] is_first_group_of(gs, current, gi) && nearest == adjacent_in(direction, visible_windows(gs[gi], shown@), current);
            lemma_first_group_unique(gs, current, gi, self.group_of(current));
        }
        if nearest.is_some() {
            return nearest;
        }
        let current_group = self.group_manager.group_for_hwnd(current);
        proof {
            lemma_first_group_unique(gs, current, current_group as int, self.group_of(current));
            assert(has_workspace_of(self.workspace_manager@, current_group));
        }
        let adjacent = self.workspace_manager.group_in_direction(current_group, &direction);
        proof {
            let wi = choose|wi: int| #![trigger self.workspace_manager@[wi]] is_first_workspace_of(self.workspace_manager@, current_group, wi) && adjacent == group_adjacent(direction, self.workspace_manager@[wi].groups, current_group);
            lemma_first_workspace_unique(self.workspace_manager@, current_group, wi, first_workspace(self.workspace_manager@, current_group));
        }
        match adjacent {
            Some(ag) => {
                let ids = vec![ag];
                assert(ids@ =~= seq![ag]);
                let hwnds = self.group_manager.hwnds_from_groups(&ids);
                return match direction.extreme_index(hwnds.len()) {
                    Some(q) => Some(hwnds[q]),
                    None => None,
                };
            },
            None => {},
        }
        let neighbor = self.monitor_manager.neighbor_in_direction(hmonitor, &direction);
        proof {
            let i = choose|i: int| #![trigger self.monitor_manager@[i]] is_first_monitor(self.monitor_manager@, hmonitor, i) && neighbor == self.monitor_manager@[i].neighbors.at(direction);
            lemma_first_monitor_unique(self.monitor_manager@, hmonitor, i, first_monitor(self.monitor_manager@, hmonitor));
        }
        match neighbor {
            None => None,
            Some(nm) => {
                let workspace = self.current_workspace(nm);
                let groups = self.workspace_manager.groups_for_workspace(workspace);
                match direction.extreme_index(groups.len()) {
                    None => None,
                    Some(q) => {
                        let ids = vec![groups[q]];
                        assert(ids@ =~= seq![groups@[q as int]]);
                        let hwnds = self.group_manager.hwnds_from_groups(&ids);
                        match direction.extreme_index(hwnds.len()) {
                            Some(q2) => Some(hwnds[q2]),
                            None => None,
                        }
                    },
                }
            },
        }
    }


    /// Moves the foreground window in direction `d` (see `moved_groups`) and
    /// tells how to place the windows whose position changed.
    pub fn move_window_in_direction(&mut self, direction: Direction, foreground: isize, hmonitor: isize) -> (r:
        Vec<GroupPlacement>)
        requires
            old(self).wf(),
            old(self).move_ok(direction, foreground, hmonitor),
        ensures
            final(self).wf(),
            final(self).group_manager@ == old(self).moved_groups(direction, foreground, hmonitor),
            forall|h: isize|
                #[trigger] is_managed(final(self).group_manager@, h) == is_managed(old(self).group_manager@, h),
            held_counts(old(self).group_manager@).count(foreground) == 1 ==> {
                &&& held_counts(final(self).group_manager@) == held_counts(old(self).group_manager@)
                &&& held_counts(final(self).group_manager@).count(foreground) == 1
            },
            final(self).workspace_manager@ == old(self).workspace_manager@,
            final(self).monitor_manager@ == old(self).monitor_manager@,
            final(self).ignore_events == old(self).ignore_events,
            old(self).move_changes_monitor(direction, foreground, hmonitor) ==> exists|i: int|
                #![trigger old(self).window_manager@[i]]
                is_first_window(old(self).window_manager@, foreground, i) && final(self).window_manager@
                    == old(self).window_manager@.update(i, with_dpi(old(self).window_manager@[i], 0)),
            !old(self).move_changes_monitor(direction, foreground, hmonitor) ==> final(self).window_manager@
                == old(self).window_manager@,
            is_placement(
                final(self).group_manager@,
                final(self).workspace_manager@,
                old(self).move_positions(direction, foreground, hmonitor),
                r@,
            ),
    {
        let current = foreground;
        let shown = self.window_manager.managed_hwnds(true);
        let ghost gs = self.group_manager@;
        let nearest = self.group_manager.candidate_for_hwnd_in_direction(current, &direction, &shown);
        proof {
            let gi = choose|gi: int| #![trigger gs[gi]] is_first_group_of(gs, current, gi) && nearest == adjacent_in(direction, visible_windows(gs[gi], shown@), current);
            lemma_first_group_unique(gs, current, gi, self.group_of(current));
        }
        match nearest {
            Some(n) => {
                proof {
                    let gi = self.group_of(current);
                    lemma_adjacent_in_member(direction, visible_windows(gs[gi], shown@), current);
                    lemma_visible_member(gs[gi], shown@, n);
                    assert(gs[gi].windows.contains(n));
                }
                let r = self.move_by_swap(current, n);
                proof {
                    assert forall|h: isize| #[trigger] is_managed(self.group_manager@, h) == is_managed(gs, h) by {
                        lemma_swap_keeps_managed(gs, current, n, h);
                    }
                    lemma_swap_keeps_counts(gs, current, n);
                }
                return r;
            },
            None => {},
        }
        let current_group = self.group_manager.group_for_hwnd(current);
        proof {
            lemma_first_group_unique(gs, current, current_group as int, self.group_of(current));
            assert(has_workspace_of(self.workspace_manager@, current_group));
        }
        let adjacent = self.workspace_manager.group_in_direction(current_group, &direction);
        proof {
            let wi = choose|wi: int| #![trigger self.workspace_manager@[wi]] is_first_workspace_of(self.workspace_manager@, current_group, wi) && adjacent == group_adjacent(direction, self.workspace_manager@[wi].groups, current_group);
            lemma_first_workspace_unique(self.workspace_manager@, current_group, wi, first_workspace(self.workspace_manager@, current_group));
        }
        match adjacent {
            Some(ag) => {
                proof {
                    let wi = first_workspace(self.workspace_manager@, current_group);
                    lemma_group_adjacent_member(direction, self.workspace_manager@[wi].groups, current_group);
                    let t = choose|t: int| 0 <= t < self.workspace_manager@[wi].groups.len() && self.workspace_manager@[wi].groups[t] == ag;
                    assert(ids_in_range(gs, self.workspace_manager@[wi].groups));
                }
                let r = self.move_to_group(current, ag, direction);
                proof {
                    assert forall|h: isize| #[trigger] is_managed(self.group_manager@, h) == is_managed(gs, h) by {
                        lemma_remove_add_keeps_managed(gs, current, ag as int, direction, h);
                    }
                    if held_counts(gs).count(current) == 1 {
                        lemma_remove_add_keeps_counts(gs, current, ag as int, direction);
                    }
                }
                return r;
            },
            None => {},
        }
        let neighbor = self.monitor_manager.neighbor_in_direction(hmonitor, &direction);
        proof {
            let i = choose|i: int| #![trigger self.monitor_manager@[i]] is_first_monitor(self.monitor_manager@, hmonitor, i) && neighbor == self.monitor_manager@[i].neighbors.at(direction);
            lemma_first_monitor_unique(self.monitor_manager@, hmonitor, i, first_monitor(self.monitor_manager@, hmonitor));
        }
        match neighbor {
            None => Vec::new(),
            Some(nm) => {
                let workspace = self.current_workspace(nm);
                let groups = self.workspace_manager.groups_for_workspace(workspace);
                let target = match direction {
                    Direction::LEFT | Direction::UP => groups[groups.len() - 1],
                    Direction::DOWN | Direction::RIGHT => groups[0],
                };
                proof {
                    assert(ids_in_range(gs, self.workspace_manager@[workspace as int].groups));
                    assert(target == self.target_group(nm, direction));
                }
                let r = self.move_to_group(current, target, direction);
                proof {
                    assert forall|h: isize| #[trigger] is_managed(self.group_manager@, h) == is_managed(gs, h) by {
                        lemma_remove_add_keeps_managed(gs, current, target as int, direction, h);
                    }
                    if held_counts(gs).count(current) == 1 {
                        lemma_remove_add_keeps_counts(gs, current, target as int, direction);
                    }
                }
                self.window_manager.update_dpi(current);
                r
            },
        }
    }

    /// Makes the foreground window trade places with another window and
    /// tells how to place the windows of the changed groups.
    fn move_by_swap(&mut self, current: isize, other: isize) -> (r: Vec<GroupPlacement>)
        requires
            old(self).wf(),
            is_managed(old(self).group_manager@, current),
            is_managed(old(self).group_manager@, other),
        ensures
            final(self).wf(),
            final(self).group_manager@ == swap_result(old(self).group_manager@, current, other),
            final(self).workspace_manager@ == old(self).workspace_manager@,
            final(self).monitor_manager@ == old(self).monitor_manager@,
            final(self).window_manager@ == old(self).window_manager@,
            final(self).ignore_events == old(self).ignore_events,
            is_placement(
                final(self).group_manager@,
                final(self).workspace_manager@,
                window_positions(
                    swap_result(old(self).group_manager@, current, other),
                    swap_groups(old(self).group_manager@, current, other),
                    old(self).shown(),
                ),
                r@,
            ),
    {
        let ghost gs = self.group_manager@;
        let updated = self.group_manager.swap_windows(current, other);
        proof {
            let (g1, w1, g2, w2) = choose|g1: int, w1: int, g2: int, w2: int|
                #![trigger gs[g1], gs[g2], gs[g1].windows[w1], gs[g2].windows[w2]]
                {
                    &&& is_first_group_of(gs, current, g1)
                    &&& is_first_group_of(gs, other, g2)
                    &&& is_first_position(gs[g1].windows, current, w1)
                    &&& is_first_position(gs[g2].windows, other, w2)
                    &&& self.group_manager@ == swapped(gs, g1, w1, g2, w2, current, other)
                    &&& updated@ == (if g1 == g2 {
                        seq![g1 as usize]
                    } else {
                        seq![g1 as usize, g2 as usize]
                    })
                };
            let c1 = first_group(gs, current);
            let c2 = first_group(gs, other);
            lemma_first_group_unique(gs, current, g1, c1);
            lemma_first_group_unique(gs, other, g2, c2);
            lemma_first_position_unique(gs[g1].windows, current, w1, first_pos(gs[g1].windows, current));
            lemma_first_position_unique(gs[g2].windows, other, w2, first_pos(gs[g2].windows, other));
            let s1 = gs.update(g1, with_windows(gs[g1], gs[g1].windows.update(w1, other)));
            lemma_update_layout(gs, g1, gs[g1].windows.update(w1, other));
            lemma_update_layout(s1, g2, s1[g2].windows.update(w2, current));
            lemma_same_layout_trans(gs, s1, self.group_manager@);
            lemma_same_layout_wf(gs, self.group_manager@, self.workspace_manager@, self.monitor_manager@);
            assert(ids_in_range(self.group_manager@, updated@));
            lemma_layout_in_range(self.group_manager@, updated@);
        }
        let manageable = self.window_manager.managed_hwnds(true);
        let positions = self.group_manager.calculate_window_positions(updated, &manageable);
        proof {
            assert forall|k: int| 0 <= k < positions.len() implies is_managed(self.group_manager@, (#[trigger] positions@[k]).0) by {
                lemma_window_positions_managed(self.group_manager@, swap_groups(gs, current, other), manageable@, k);
            }
        }
        self.arrange_windows(positions)
    }

    /// Takes the foreground window out of its group, puts it into another
    /// group on the side one enters from direction `d`, and tells how to
    /// place the windows of both groups.
    fn move_to_group(&mut self, current: isize, target: usize, direction: Direction) -> (r: Vec<GroupPlacement>)
        requires
            old(self).wf(),
            is_managed(old(self).group_manager@, current),
            target < old(self).group_manager@.len(),
        ensures
            final(self).wf(),
            final(self).group_manager@ == add_dir_result(
                remove_result(old(self).group_manager@, current),
                target as int,
                current,
                direction,
            ),
            final(self).workspace_manager@ == old(self).workspace_manager@,
            final(self).monitor_manager@ == old(self).monitor_manager@,
            final(self).window_manager@ == old(self).window_manager@,
            final(self).ignore_events == old(self).ignore_events,
            is_placement(
                final(self).group_manager@,
                final(self).workspace_manager@,
                remove_positions(old(self).group_manager@, current, old(self).shown()) + add_dir_positions(
                    remove_result(old(self).group_manager@, current),
                    target as int,
                    current,
                    direction,
                    old(self).shown(),
                ),
                r@,
            ),
    {
        let ghost gs = self.group_manager@;
        let manageable = self.window_manager.managed_hwnds(true);
        let mut positions = self.group_manager.remove_window(current, &manageable);
        let ghost gs1 = self.group_manager@;
        let ghost p1 = positions@;
        proof {
            let gi = first_group(gs, current);
            let c = first_group(gs, current);
            lemma_first_group_unique(gs, current, gi, c);
            lemma_update_layout(gs, gi, gs[gi].windows.filter(other_than(current)));
            lemma_same_layout_wf(gs, gs1, self.workspace_manager@, self.monitor_manager@);
            assert(gs1 == remove_result(gs, current));
            assert(manageable@ == old(self).shown());
            assert(p1 == remove_positions(gs, current, manageable@));
        }
        let mut added = self.group_manager.add_window_direction(target, current, &direction, &manageable);
        let ghost p2 = added@;
        proof {
            let gs2 = self.group_manager@;
            if !gs1[target as int].windows.contains(current) {
                let w = entered_from(direction, gs1[target as int].windows, current);
                assert forall|h: isize| gs1[target as int].windows.contains(h) implies w.contains(h) by {
                    let k = choose|k: int| 0 <= k < gs1[target as int].windows.len() && gs1[target as int].windows[k] == h;
                    match direction {
                        Direction::LEFT | Direction::UP => {
                            assert(w[k] == h);
                        },
                        Direction::RIGHT | Direction::DOWN => {
                            assert(w[k + 1] == h);
                        },
                    }
                }
                lemma_update_layout(gs1, target as int, w);
            } else {
                assert(holds_at_least(gs1, gs2));
            }
            lemma_same_layout_wf(gs1, gs2, self.workspace_manager@, self.monitor_manager@);
        }
        positions.append(&mut added);
        proof {
            let gs2 = self.group_manager@;
            assert(gs2 == add_dir_result(gs1, target as int, current, direction));
            assert(p2 == add_dir_positions(gs1, target as int, current, direction, manageable@));
            assert(positions@ == p1 + p2);
            let gi = first_group(gs, current);
            assert forall|k: int| 0 <= k < positions.len() implies is_managed(gs2, (#[trigger] positions@[k]).0) by {
                if k < p1.len() {
                    lemma_group_positions_held(gs1[gi], manageable@, k);
                    assert(gs1[gi].windows.contains(positions@[k].0));
                    lemma_holds_at_least_managed(gs1, gs2, positions@[k].0);
                } else {
                    lemma_group_positions_held(gs2[target as int], manageable@, k - p1.len());
                    assert(gs2[target as int].windows.contains(positions@[k].0));
                }
            }
        }
        self.arrange_windows(positions)
    }


    /// Shows the workspace at position `workspace_index` among the current
    /// monitor's workspaces: unless it is the one shown already, the shown
    /// workspace and the requested one both flip whether they are shown, and
    /// the windows of the first are to be hidden, those of the second shown.
    /// From then on events are ignored: the caller hides and shows the
    /// windows and then calls `resume_events`, which ends the switch.
    pub fn focus_workspace(&mut self, workspace_index: usize, hmonitor: isize) -> (r: Option<WorkspaceSwitch>)
        requires
            old(self).wf(),
            old(self).monitor_has_active(hmonitor),
            workspace_index < old(self).monitor_workspaces(hmonitor).len(),
        ensures
            final(self).wf(),
            old(self).shows_workspace(*final(self), workspace_index, hmonitor),
            ({
                let cur = old(self).current_workspace_of(hmonitor);
                let tgt = old(self).target_workspace(workspace_index, hmonitor);
                let ws = old(self).workspace_manager@;
                let gs = old(self).group_manager@;
                if cur == tgt {
                    &&& r is None
                    &&& final(self).ignore_events == old(self).ignore_events
                } else {
                    &&& r is Some
                    &&& r->0.hide@ == hwnds_of_groups(gs, ws[cur].groups)
                    &&& r->0.show@ == hwnds_of_groups(gs, ws[tgt].groups)
                    &&& final(self).ignore_events
                }
            }),
    {
        let current = self.current_workspace(hmonitor);
        let workspaces = self.monitor_manager.workspaces_for_monitor(hmonitor);
        proof {
            let i = choose|i: int| #![trigger self.monitor_manager@[i]] is_first_monitor(self.monitor_manager@, hmonitor, i) && workspaces@ == self.monitor_manager@[i].workspaces;
            lemma_first_monitor_unique(self.monitor_manager@, hmonitor, i, first_monitor(self.monitor_manager@, hmonitor));
        }
        let target = workspaces[workspace_index];
        proof {
            let i = first_monitor(self.monitor_manager@, hmonitor);
            assert(self.monitor_manager@[i].workspaces[workspace_index as int] < self.workspace_manager@.len());
        }
        if current == target {
            return None;
        }
        let hide = self.group_manager.hwnds_from_groups(self.workspace_manager.groups_for_workspace(current));
        let show = self.group_manager.hwnds_from_groups(self.workspace_manager.groups_for_workspace(target));
        self.ignore_events = true;
        let ghost ws0 = self.workspace_manager@;
        self.workspace_manager.toggle_active(current);
        self.workspace_manager.toggle_active(target);
        proof {
            assert(ws0.update(current as int, toggled(ws0[current as int]))[target as int] == ws0[target as int]);
            lemma_toggle_wf(self.group_manager@, ws0, self.workspace_manager@, self.monitor_manager@);
        }
        Some(WorkspaceSwitch { hide, show })
    }

    /// Sends the foreground window to the workspace at position
    /// `workspace_index` (unless that is the workspace shown): the window
    /// leaves its group, the windows left behind are placed (the result), and
    /// the window joins the first group of that workspace. From then on
    /// events are ignored: the caller minimizes the window, places the others
    /// and then calls `resume_events`, which ends the move.
    pub fn move_to_workspace(&mut self, workspace_index: usize, foreground: isize, hmonitor: isize) -> (r: Option<Vec<GroupPlacement>>)
        requires
            old(self).wf(),
            old(self).monitor_has_active(hmonitor),
            workspace_index < old(self).monitor_workspaces(hmonitor).len(),
            old(self).current_workspace_of(hmonitor) != old(self).target_workspace(workspace_index, hmonitor) ==> {
                &&& is_managed(old(self).group_manager@, foreground)
                &&& old(self).workspace_manager@[old(self).target_workspace(workspace_index, hmonitor)].groups.len() > 0
            },
        ensures
            final(self).wf(),
            old(self).sends_to_workspace(*final(self), workspace_index, foreground, hmonitor),
            held_counts(old(self).group_manager@).count(foreground) == 1 ==> held_counts(final(self).group_manager@)
                == held_counts(old(self).group_manager@),
            ({
                let gs = old(self).group_manager@;
                if old(self).current_workspace_of(hmonitor) == old(self).target_workspace(workspace_index, hmonitor) {
                    &&& r is None
                    &&& final(self).ignore_events == old(self).ignore_events
                } else {
                    &&& r is Some
                    &&& is_placement(
                        remove_result(gs, foreground),
                        old(self).workspace_manager@,
                        remove_positions(gs, foreground, old(self).shown()),
                        r->0@,
                    )
                    &&& final(self).ignore_events
                }
            }),
    {
        let workspaces = self.monitor_manager.workspaces_for_monitor(hmonitor);
        proof {
            let i = choose|i: int| #![trigger self.monitor_manager@[i]] is_first_monitor(self.monitor_manager@, hmonitor, i) && workspaces@ == self.monitor_manager@[i].workspaces;
            lemma_first_monitor_unique(self.monitor_manager@, hmonitor, i, first_monitor(self.monitor_manager@, hmonitor));
        }
        let target = workspaces[workspace_index];
        proof {
            let i = first_monitor(self.monitor_manager@, hmonitor);
            assert(self.monitor_manager@[i].workspaces[workspace_index as int] < self.workspace_manager@.len());
        }
        if self.current_workspace(hmonitor) == target {
            return None;
        }
        let hwnd = foreground;
        self.ignore_events = true;
        let manageable = self.window_manager.managed_hwnds(true);
        let ghost gs = self.group_manager@;
        let new_positions = self.group_manager.remove_window(hwnd, &manageable);
        let ghost gs1 = self.group_manager@;
        proof {
            let gi = first_group(gs, hwnd);
            lemma_update_layout(gs, gi, gs[gi].windows.filter(other_than(hwnd)));
            lemma_same_layout_wf(gs, gs1, self.workspace_manager@, self.monitor_manager@);
            assert forall|k: int| 0 <= k < new_positions.len() implies is_managed(gs1, (#[trigger] new_positions@[k]).0) by {
                lemma_group_positions_held(gs1[gi], manageable@, k);
                assert(gs1[gi].windows.contains(new_positions@[k].0));
            }
        }
        let plan = self.arrange_windows(new_positions);
        let groups = self.workspace_manager.groups_for_workspace(target);
        let new_group = groups[0];
        proof {
            assert(ids_in_range(gs1, self.workspace_manager@[target as int].groups));
            assert(groups@[0] < gs1.len());
        }
        let _ = self.group_manager.add_window(new_group, hwnd, &manageable);
        proof {
            if held_counts(gs).count(hwnd) == 1 {
                assert(add_result(gs1, new_group as int, hwnd) == add_dir_result(gs1, new_group as int, hwnd, Direction::LEFT));
                lemma_remove_add_keeps_counts(gs, hwnd, new_group as int, Direction::LEFT);
            }
            lemma_add_layout(gs1, new_group as int, hwnd);
            lemma_same_layout_wf(gs1, self.group_manager@, self.workspace_manager@, self.monitor_manager@);
        }
        Some(plan)
    }

    /// Takes events again once the windows of a workspace switch or of a
    /// move to another workspace have been hidden, shown and placed.
    pub fn resume_events(&mut self)
        requires
            old(self).wf(),
        ensures
            final(self).wf(),
            old(self).resumed(*final(self)),
    {
        self.ignore_events = false;
    }

    /// Takes the action of a key binding: focusing or moving the foreground
    /// window in a direction, showing a workspace of the current monitor,
    /// sending the foreground window to one, or closing it. Gives what the
    /// caller is to do.
    pub fn perform(&mut self, action: WindowManagerAction, foreground: isize, hmonitor: isize) -> (r: ActionOutcome)
        requires
            old(self).wf(),
            old(self).action_ok(action, foreground, hmonitor),
        ensures
            final(self).wf(),
            match action {
                WindowManagerAction::FocusWindow(a) => {
                    &&& r == ActionOutcome::Focus(old(self).focus_target(a.direction, foreground, hmonitor))
                    &&& *final(self) == *old(self)
                },
                WindowManagerAction::MoveWindow(a) => {
                    &&& r is Place
                    &&& final(self).group_manager@ == old(self).moved_groups(a.direction, foreground, hmonitor)
                    &&& final(self).workspace_manager@ == old(self).workspace_manager@
                    &&& final(self).monitor_manager@ == old(self).monitor_manager@
                    &&& final(self).ignore_events == old(self).ignore_events
                    &&& is_placement(
                        final(self).group_manager@,
                        final(self).workspace_manager@,
                        old(self).move_positions(a.direction, foreground, hmonitor),
                        r->Place_0@,
                    )
                },
                WindowManagerAction::FocusWorkspace(a) => {
                    let i = workspace_position(a.id as int) as usize;
                    let ws = old(self).workspace_manager@;
                    let gs = old(self).group_manager@;
                    let cur = old(self).current_workspace_of(hmonitor);
                    let tgt = old(self).target_workspace(i, hmonitor);
                    &&& r is Switch
                    &&& old(self).shows_workspace(*final(self), i, hmonitor)
                    &&& (r->Switch_0 is None <==> cur == tgt)
                    &&& r->Switch_0 is Some ==> {
                        &&& r->Switch_0->0.hide@ == hwnds_of_groups(gs, ws[cur].groups)
                        &&& r->Switch_0->0.show@ == hwnds_of_groups(gs, ws[tgt].groups)
                        &&& final(self).ignore_events
                    }
                    &&& r->Switch_0 is None ==> final(self).ignore_events == old(self).ignore_events
                },
                WindowManagerAction::MoveToWorkspace(a) => {
                    let i = workspace_position(a.id as int) as usize;
                    let gs = old(self).group_manager@;
                    &&& r is Send
                    &&& old(self).sends_to_workspace(*final(self), i, foreground, hmonitor)
                    &&& (r->Send_0 is None <==> old(self).current_workspace_of(hmonitor) == old(self).target_workspace(
                        i,
                        hmonitor,
                    ))
                    &&& r->Send_0 is Some ==> {
                        &&& is_placement(
                            remove_result(gs, foreground),
                            old(self).workspace_manager@,
                            remove_positions(gs, foreground, old(self).shown()),
                            r->Send_0->0@,
                        )
                        &&& final(self).ignore_events
                    }
                    &&& r->Send_0 is None ==> final(self).ignore_events == old(self).ignore_events
                },
                WindowManagerAction::CloseWindow(_) => {
                    &&& r == ActionOutcome::Close(foreground)
                    &&& *final(self) == *old(self)
                },
            },
    {
        match action {
            WindowManagerAction::FocusWindow(a) => ActionOutcome::Focus(
                self.focus_window_in_direction(a.direction, foreground, hmonitor),
            ),
            WindowManagerAction::MoveWindow(a) => ActionOutcome::Place(
                self.move_window_in_direction(a.direction, foreground, hmonitor),
            ),
            WindowManagerAction::FocusWorkspace(a) => ActionOutcome::Switch(
                self.focus_workspace(a.workspace_index(), hmonitor),
            ),
            WindowManagerAction::MoveToWorkspace(a) => ActionOutcome::Send(
                self.move_to_workspace(a.workspace_index(), foreground, hmonitor),
            ),
            WindowManagerAction::CloseWindow(_) => ActionOutcome::Close(foreground),
        }
    }

    /// Takes a newly found window under management (see
    /// `WindowManager::add_window`); when it is to be laid out, it joins the
    /// current group and the windows of that group are placed.
    pub fn add_window(&mut self, window: Option<Window>, foreground: isize, hmonitor: isize) -> (r: Vec<GroupPlacement>)
        requires
            old(self).wf(),
            window matches Some(w) && !is_minimized(w.style) ==> old(self).current_group_ok(foreground, hmonitor),
        ensures
            final(self).wf(),
            final(self).monitor_manager@ == old(self).monitor_manager@,
            final(self).workspace_manager@ == old(self).workspace_manager@,
            final(self).ignore_events == old(self).ignore_events,
            match window {
                None => final(self).window_manager@ == old(self).window_manager@,
                Some(w) => final(self).window_manager@ == old(self).window_manager@.filter(
                    |x: Window| x.hwnd != w.hwnd,
                ).push(w),
            },
            match window {
                Some(w) => if !is_minimized(w.style) {
                    let cg = old(self).current_group_of(foreground, hmonitor) as int;
                    &&& final(self).group_manager@ == add_result(old(self).group_manager@, cg, w.hwnd)
                    &&& is_placement(
                        final(self).group_manager@,
                        final(self).workspace_manager@,
                        add_positions(old(self).group_manager@, cg, w.hwnd, final(self).shown()),
                        r@,
                    )
                } else {
                    final(self).group_manager@ == old(self).group_manager@ && r@.len() == 0
                },
                None => final(self).group_manager@ == old(self).group_manager@ && r@.len() == 0,
            },
    {
        let hwnd = match &window {
            Some(w) => w.hwnd,
            None => 0,
        };
        let added_window = self.window_manager.add_window(window);
        if !added_window {
            return Vec::new();
        }
        let group = self.current_group(foreground, hmonitor);
        let manageable = self.window_manager.managed_hwnds(true);
        let ghost gs = self.group_manager@;
        let new_positions = self.group_manager.add_window(group, hwnd, &manageable);
        proof {
            lemma_add_layout(gs, group as int, hwnd);
            lemma_same_layout_wf(gs, self.group_manager@, self.workspace_manager@, self.monitor_manager@);
            assert forall|k: int| 0 <= k < new_positions.len() implies is_managed(self.group_manager@, (#[trigger] new_positions@[k]).0) by {
                lemma_group_positions_held(self.group_manager@[group as int], manageable@, k);
                assert(self.group_manager@[group as int].windows.contains(new_positions@[k].0));
            }
        }
        self.arrange_windows(new_positions)
    }

    /// Checks the state against a fresh look at the system: the managed
    /// windows and the windows in groups must be as many; the managed windows
    /// are checked against the system (`still_exists`, see
    /// `WindowManager::validate_windows`) and the fresh enumeration `live` is
    /// merged into them; a window found gone leaves its group, the windows
    /// found new join the current group, and the groups are cleaned of
    /// duplicates (see `GroupManager::validate`); then the counts must agree
    /// again. `Err` when a count disagrees (the state has drifted and the
    /// program must stop); otherwise whether windows were found gone or new
    /// that had not been handled as they went or appeared.
    #[verifier::rlimit(60)]
    pub fn validate(&mut self, still_exists: &Vec<bool>, live: Vec<Window>, foreground: isize, hmonitor: isize) -> (r: Result<bool, ()>)
        requires
            old(self).wf(),
            still_exists.len() == old(self).window_manager@.len(),
            old(self).counts_agree() ==> {
                &&& forall|k: int|
                    0 <= k < gone_hwnds(old(self).window_manager@, still_exists@).len() ==> is_managed(
                        old(self).group_manager@,
                        #[trigger] gone_hwnds(old(self).window_manager@, still_exists@)[k],
                    )
                &&& old(self).group_found_in(old(self).pruned_groups(still_exists@), foreground, hmonitor)
            },
        ensures
            final(self).wf(),
            final(self).monitor_manager@ == old(self).monitor_manager@,
            final(self).workspace_manager@ == old(self).workspace_manager@,
            final(self).ignore_events == old(self).ignore_events,
            ({
                let gs = old(self).group_manager@;
                let wm = old(self).window_manager@;
                let gone = gone_hwnds(wm, still_exists@).len() > 0;
                let gs1 = old(self).pruned_groups(still_exists@);
                let wm1 = pruned(wm, still_exists@);
                let added = newly_added(wm1, live@);
                let cg = old(self).group_in(gs1, foreground, hmonitor) as int;
                let final_groups = validated(add_all(gs1, cg, added));
                if !old(self).counts_agree() {
                    r is Err && final(self).group_manager@ == gs && final(self).window_manager@ == wm
                } else {
                    &&& final(self).window_manager@ == merged(wm1, live@)
                    &&& final(self).group_manager@ == final_groups
                    &&& r == (if managed_list(merged(wm1, live@), false).len() != all_hwnds(final_groups).len() {
                        Err::<bool, ()>(())
                    } else {
                        Ok(added.len() > 0 || gone)
                    })
                }
            }),
    {
        let n_windows = self.window_manager.managed_hwnds(false).len();
        let n_group_hwnds = self.group_manager.num_hwnds();
        if n_windows != n_group_hwnds {
            return Err(());
        }
        let (removed, added) = self.window_manager.validate_windows(still_exists, live);
        let manageable = self.window_manager.managed_hwnds(true);
        let ghost gs0 = self.group_manager@;
        proof {
            lemma_gone_distinct(old(self).window_manager@, still_exists@);
        }
        let mut j: usize = 0;
        assert(removed@.take(0) =~= Seq::<isize>::empty());
        while j < removed.len()
            invariant
                0 <= j <= removed.len(),
                removed@ == gone_hwnds(old(self).window_manager@, still_exists@),
                forall|a: int, b: int| 0 <= a < b < removed@.len() ==> removed@[a] != removed@[b],
                forall|k: int| 0 <= k < removed@.len() ==> is_managed(gs0, #[trigger] removed@[k]),
                self.group_manager@ == remove_all(gs0, removed@.take(j as int)),
                forall|k: int| j <= k < removed@.len() ==> is_managed(self.group_manager@, #[trigger] removed@[k]),
                state_wf(self.group_manager@, self.workspace_manager@, self.monitor_manager@),
                self.monitor_manager@ == old(self).monitor_manager@,
                self.workspace_manager@ == old(self).workspace_manager@,
                self.window_manager@ == merged(pruned(old(self).window_manager@, still_exists@), live@),
                self.ignore_events == old(self).ignore_events,
                added@ == newly_added(pruned(old(self).window_manager@, still_exists@), live@),
            decreases removed.len() - j,
        {
            let hwnd = removed[j];
            let ghost before = self.group_manager@;
            proof {
                assert(is_managed(before, hwnd));
                assert(forall|i: int| is_first_group_of(before, hwnd, i) ==> rect_in_range(#[trigger] before[i].rect));
                assert(removed@.take(j + 1).drop_last() =~= removed@.take(j as int));
            }
            let _ = self.group_manager.remove_window(hwnd, &manageable);
            proof {
                let gi = first_group(before, hwnd);
                lemma_first_group_exists(before, hwnd);
                lemma_update_layout(before, gi, before[gi].windows.filter(other_than(hwnd)));
                lemma_same_layout_wf(before, self.group_manager@, self.workspace_manager@, self.monitor_manager@);
                assert forall|k: int| j + 1 <= k < removed@.len() implies is_managed(
                    self.group_manager@,
                    #[trigger] removed@[k],
                ) by {
                    assert(removed@[j as int] != removed@[k]);
                    lemma_remove_keeps_others(before, hwnd, removed@[k]);
                }
            }
            j = j + 1;
        }
        assert(removed@.take(removed.len() as int) =~= removed@);
        let current_group = self.current_group(foreground, hmonitor);
        let ghost gs = self.group_manager@;
        let mut k: usize = 0;
        assert(added@.take(0) =~= Seq::<isize>::empty());
        while k < added.len()
            invariant
                0 <= k <= added.len(),
                current_group < gs.len(),
                self.group_manager@ == add_all(gs, current_group as int, added@.take(k as int)),
                same_layout(gs, self.group_manager@),
                groups_wf(gs),
                state_wf(gs, self.workspace_manager@, self.monitor_manager@),
                self.monitor_manager@ == old(self).monitor_manager@,
                self.workspace_manager@ == old(self).workspace_manager@,
                self.window_manager@ == merged(pruned(old(self).window_manager@, still_exists@), live@),
                self.ignore_events == old(self).ignore_events,
                added@ == newly_added(pruned(old(self).window_manager@, still_exists@), live@),
            decreases added.len() - k,
        {
            let ghost before = self.group_manager@;
            assert(before[current_group as int].rect == gs[current_group as int].rect);
            assert(added@.take(k + 1).drop_last() =~= added@.take(k as int));
            let _ = self.group_manager.add_window(current_group, added[k], &manageable);
            proof {
                lemma_add_layout(before, current_group as int, added@[k as int]);
                lemma_same_layout_trans(gs, before, self.group_manager@);
            }
            k = k + 1;
        }
        assert(added@.take(added.len() as int) =~= added@);
        proof {
            lemma_same_layout_wf(gs, self.group_manager@, self.workspace_manager@, self.monitor_manager@);
        }
        let ghost before_validate = self.group_manager@;
        let _ = self.group_manager.validate();
        proof {
            lemma_validated_shape(before_validate);
            assert(same_layout(before_validate, self.group_manager@));
            lemma_same_layout_wf(before_validate, self.group_manager@, self.workspace_manager@, self.monitor_manager@);
        }
        let n_windows = self.window_manager.managed_hwnds(false).len();
        let n_group_hwnds = self.group_manager.num_hwnds();
        if n_windows != n_group_hwnds {
            return Err(());
        }
        Ok(added.len() > 0 || removed.len() > 0)
    }

    /// The positions of every shown window, in every group, carried out group by group.
    pub fn arrange_all_windows(&self) -> (r: Vec<GroupPlacement>)
        requires
            self.wf(),
        ensures
            is_placement(
                self.group_manager@,
                self.workspace_manager@,
                window_positions(self.group_manager@, Seq::empty(), self.shown()),
                r@,
            ),
    {
        let managed_hwnds = self.window_manager.managed_hwnds(true);
        let ids: Vec<usize> = Vec::new();
        proof {
            lemma_layout_in_range(self.group_manager@, ids@);
        }
        let new_positions = self.group_manager.calculate_window_positions(ids, &managed_hwnds);
        proof {
            assert forall|k: int| 0 <= k < new_positions.len() implies is_managed(self.group_manager@, (#[trigger] new_positions@[k]).0) by {
                lemma_window_positions_managed(self.group_manager@, ids@, managed_hwnds@, k);
            }
        }
        self.arrange_windows(new_positions)
    }

    /// Changing the split axis of the current group: nothing is changed when
    /// the group already splits along it, and nothing more is done otherwise.
    #[allow(non_snake_case)]
    pub fn setSplitAxis(&self, axis: Axis, foreground: isize, hmonitor: isize)
        requires
            self.wf(),
            self.current_group_ok(foreground, hmonitor),
    {
        let group = self.current_group(foreground, hmonitor);
        if self.group_manager.group_is_axis(group, &axis) {
            return;
        }
    }

    /// Splits positions by the group of their window, groups in order of
    /// first appearance, and decides which window to maximize: the only
    /// window of a group that is the only group of its workspace.
    pub fn arrange_windows(&self, positions: Vec<(isize, Rect)>) -> (r: Vec<GroupPlacement>)
        requires
            self.wf(),
            forall|k: int| 0 <= k < positions.len() ==> is_managed(self.group_manager@, (#[trigger] positions@[k]).0),
        ensures
            is_placement(self.group_manager@, self.workspace_manager@, positions@, r@),
    {
        let ghost gs = self.group_manager@;
        let ghost ps = positions@;
        let mut groups: Vec<usize> = Vec::new();
        let mut lists: Vec<Vec<(isize, Rect)>> = Vec::new();
        let mut k: usize = 0;
        while k < positions.len()
            invariant
                0 <= k <= positions.len(),
                gs == self.group_manager@,
                ps == positions@,
                forall|k: int| 0 <= k < positions.len() ==> is_managed(gs, (#[trigger] positions@[k]).0),
                groups@ == placement_groups(gs, ps.take(k as int)),
                lists.len() == groups.len(),
                forall|i: int| 0 <= i < lists.len() ==> (#[trigger] lists@[i])@ == positions_in_group(gs, ps.take(k as int), groups@[i]),
                forall|i: int| 0 <= i < groups.len() ==> (#[trigger] groups@[i]) < gs.len(),
                forall|i: int, j: int| 0 <= i < j < groups.len() ==> groups@[i] != groups@[j],
            decreases positions.len() - k,
        {
            let (h, rect) = positions[k];
            let g = self.group_manager.group_for_hwnd(h);
            proof {
                lemma_first_group_unique(gs, h, g as int, first_group(gs, h));
                assert(ps.take(k + 1).drop_last() =~= ps.take(k as int));
                assert(ps.take(k + 1).last() == (h, rect));
            }
            let ghost old_groups = groups@;
            let ghost old_lists = lists@;
            let pos = find_usize(&groups, g);
            match pos {
                Some(p) => {
                    let mut l = lists.remove(p);
                    l.push((h, rect));
                    lists.insert(p, l);
                },
                None => {
                    groups.push(g);
                    let mut l: Vec<(isize, Rect)> = Vec::new();
                    l.push((h, rect));
                    lists.push(l);
                },
            }
            proof {
                reveal(Seq::filter);
                assert forall|i: int| 0 <= i < lists.len() implies (#[trigger] lists@[i])@ == positions_in_group(gs, ps.take(k + 1), groups@[i]) by {
                    let pred = |p: (isize, Rect)| first_group(gs, p.0) == groups@[i] as int;
                    assert(ps.take(k + 1).filter(pred) == (if pred(ps.take(k + 1).last()) {
                        ps.take(k as int).filter(pred).push((h, rect))
                    } else {
                        ps.take(k as int).filter(pred)
                    }));
                    if i < old_groups.len() {
                        assert(groups@[i] == old_groups[i]);
                        if pos == Some(i as usize) {
                            assert(pred((h, rect)));
                            assert(lists@[i]@ == old_lists[i]@.push((h, rect)));
                        } else {
                            assert(lists@[i] == old_lists[i]);
                            assert(groups@[i] != g);
                            assert(!pred((h, rect)));
                        }
                    } else {
                        assert(ps.take(k as int).filter(pred).len() == 0) by {
                            broadcast use vstd::seq_lib::group_filter_ensures;
                            if ps.take(k as int).filter(pred).len() > 0 {
                                let x = ps.take(k as int).filter(pred)[0];
                                assert(pred(x));
                                assert(ps.take(k as int).filter(pred).contains(x));
                                ps.take(k as int).lemma_filter_contains_rev(pred, x);
                                assert(ps.take(k as int).contains(x));
                                let j = choose|j: int| 0 <= j < k && ps.take(k as int)[j] == x;
                                lemma_placement_groups_cover(gs, ps.take(k as int), j);
                            }
                        }
                        assert(lists@[i]@ =~= seq![(h, rect)]);
                    }
                }
            }
            k = k + 1;
        }
        assert(ps.take(positions.len() as int) =~= ps);
        let mut r: Vec<GroupPlacement> = Vec::new();
        let n = groups.len();
        let mut i: usize = 0;
        let mut lists = lists;
        let ghost all_lists = lists@;
        assert(all_lists.skip(0) =~= all_lists);
        while i < n
            invariant
                0 <= i <= n,
                n == groups.len(),
                all_lists.len() == n,
                lists@ =~= all_lists.skip(i as int),
                gs == self.group_manager@,
                self.wf(),
                groups@ == placement_groups(gs, ps),
                forall|j: int| 0 <= j < n ==> (#[trigger] all_lists[j])@ == positions_in_group(gs, ps, groups@[j]),
                forall|j: int| 0 <= j < n ==> (#[trigger] groups@[j]) < gs.len(),
                r.len() == i,
                forall|j: int|
                    0 <= j < i ==> {
                        &&& (#[trigger] r@[j]).group == groups@[j]
                        &&& r@[j].positions@ == positions_in_group(gs, ps, r@[j].group)
                        &&& r@[j].maximize == maximized_in(self.workspace_manager@, r@[j].group, r@[j].positions@)
                    },
            decreases n - i,
        {
            let l = lists.remove(0);
            assert(l == all_lists[i as int]);
            assert(lists@ =~= all_lists.skip(i + 1));
            let g = groups[i];
            assert(has_workspace_of(self.workspace_manager@, g));
            let w = self.workspace_manager.workspace_for_group(g);
            proof {
                lemma_first_workspace_unique(self.workspace_manager@, g, w as int, first_workspace(self.workspace_manager@, g));
            }
            let n_groups = self.workspace_manager.groups_for_workspace(w).len();
            let maximize = if l.len() == 1 && n_groups == 1 {
                Some(l[0].0)
            } else {
                None
            };
            r.push(GroupPlacement { group: g, positions: l, maximize });
            i = i + 1;
        }
        r
    }
}


/// Changing only the windows of groups keeps the structure.
pub proof fn lemma_same_layout_wf(
    gs: Seq<GroupView>,
    gs2: Seq<GroupView>,
    ws: Seq<WorkspaceView>,
    ms: Seq<MonitorView>,
)
    requires
        state_wf(gs, ws, ms),
        same_layout(gs, gs2),
    ensures
        state_wf(gs2, ws, ms),
{
    assert forall|i: int| 0 <= i < gs2.len() implies (#[trigger] gs2[i]).index == i && rect_in_range(gs2[i].rect) by {
        assert(gs[i].index == i);
    }
    assert forall|i: int| 0 <= i < ws.len() implies ids_in_range(gs2, (#[trigger] ws[i]).groups) by {
        assert(ids_in_range(gs, ws[i].groups));
    }
}

/// Replacing the windows of one group changes only the windows.
pub proof fn lemma_update_layout(gs: Seq<GroupView>, i: int, w: Seq<isize>)
    requires
        0 <= i < gs.len(),
    ensures
        same_layout(gs, gs.update(i, with_windows(gs[i], w))),
        (forall|h: isize| gs[i].windows.contains(h) ==> w.contains(h)) ==> holds_at_least(
            gs,
            gs.update(i, with_windows(gs[i], w)),
        ),
{
    let g2 = gs.update(i, with_windows(gs[i], w));
    if forall|h: isize| gs[i].windows.contains(h) ==> w.contains(h) {
        assert forall|j: int, h: isize| 0 <= j < gs.len() && #[trigger] gs[j].windows.contains(h) implies g2[j].windows.contains(h) by {
            if j == i {
                assert(w.contains(h));
            }
        }
    }
}

/// Same layout is transitive.
pub proof fn lemma_same_layout_trans(a: Seq<GroupView>, b: Seq<GroupView>, c: Seq<GroupView>)
    requires
        same_layout(a, b),
        same_layout(b, c),
    ensures
        same_layout(a, c),
{
    assert forall|i: int| 0 <= i < a.len() implies (#[trigger] a[i]).index == c[i].index && a[i].rect == c[i].rect && a[i].split_axis == c[i].split_axis by {
        assert(b[i].index == c[i].index);
    }
}


/// Flipping whether workspaces are shown keeps the structure.
pub proof fn lemma_toggle_wf(
    gs: Seq<GroupView>,
    ws: Seq<WorkspaceView>,
    ws2: Seq<WorkspaceView>,
    ms: Seq<MonitorView>,
)
    requires
        state_wf(gs, ws, ms),
        ws2.len() == ws.len(),
        forall|i: int| 0 <= i < ws.len() ==> (#[trigger] ws2[i]).groups == ws[i].groups && ws2[i].index == ws[i].index,
    ensures
        state_wf(gs, ws2, ms),
{
    assert forall|j: usize| j < gs.len() implies #[trigger] has_workspace_of(ws2, j) by {
        assert(has_workspace_of(ws, j));
        let i = choose|i: int| 0 <= i < ws.len() && (#[trigger] ws[i]).groups.contains(j);
        assert(ws2[i].groups == ws[i].groups);
    }
    assert forall|i: int| 0 <= i < ws2.len() implies ids_in_range(gs, (#[trigger] ws2[i]).groups) by {
        assert(ws2[i].groups == ws[i].groups);
        assert(ids_in_range(gs, ws[i].groups));
    }
}

/// Adding a window to a group changes only the windows, and only adds.
pub proof fn lemma_add_layout(gs: Seq<GroupView>, gi: int, h: isize)
    requires
        0 <= gi < gs.len(),
    ensures
        same_layout(gs, add_result(gs, gi, h)),
        holds_at_least(gs, add_result(gs, gi, h)),
{
    if !gs[gi].windows.contains(h) {
        let w = gs[gi].windows.push(h);
        assert forall|x: isize| gs[gi].windows.contains(x) implies w.contains(x) by {
            let k = choose|k: int| 0 <= k < gs[gi].windows.len() && gs[gi].windows[k] == x;
            assert(w[k] == x);
        }
        lemma_update_layout(gs, gi, w);
    } else {
        assert forall|j: int, x: isize| 0 <= j < gs.len() && #[trigger] gs[j].windows.contains(x) implies add_result(gs, gi, h)[j].windows.contains(x) by {
        }
    }
}

/// An item of a list has a first position.
pub proof fn lemma_first_position_exists(s: Seq<isize>, x: isize)
    requires
        s.contains(x),
    ensures
        exists|k: int| is_first_position(s, x, k),
    decreases s.len(),
{
    if s.drop_last().contains(x) {
        lemma_first_position_exists(s.drop_last(), x);
        let k = choose|k: int| is_first_position(s.drop_last(), x, k);
        assert forall|j: int| 0 <= j < k implies s[j] != x by {
            assert(s.drop_last()[j] == s[j]);
        }
        assert(s.drop_last()[k] == s[k]);
        assert(is_first_position(s, x, k));
    } else {
        let j = choose|j: int| 0 <= j < s.len() && s[j] == x;
        assert forall|i: int| 0 <= i < s.len() - 1 implies s[i] != x by {
            assert(s.drop_last()[i] == s[i]);
        }
        assert(is_first_position(s, x, s.len() - 1));
    }
}

/// An item of a list of groups has a first position.
pub proof fn lemma_first_group_position_exists(s: Seq<usize>, x: usize)
    requires
        s.contains(x),
    ensures
        exists|k: int| 0 <= k < s.len() && s[k] == x && forall|j: int| 0 <= j < k ==> s[j] != x,
    decreases s.len(),
{
    if s.drop_last().contains(x) {
        lemma_first_group_position_exists(s.drop_last(), x);
        let k = choose|k: int| 0 <= k < s.drop_last().len() && s.drop_last()[k] == x && forall|j: int| 0 <= j < k ==> s.drop_last()[j] != x;
        assert forall|j: int| 0 <= j < k implies s[j] != x by {
            assert(s.drop_last()[j] == s[j]);
        }
        assert(s[k] == x);
    } else {
        assert forall|i: int| 0 <= i < s.len() - 1 implies s[i] != x by {
            assert(s.drop_last()[i] == s[i]);
        }
        let j = choose|j: int| 0 <= j < s.len() && s[j] == x;
        assert(s[s.len() - 1] == x);
    }
}

/// The item next to another one is an item of the list.
pub proof fn lemma_adjacent_in_member(d: Direction, s: Seq<isize>, x: isize)
    requires
        adjacent_in(d, s, x) is Some,
    ensures
        s.contains(adjacent_in(d, s, x)->0),
{
    lemma_first_position_exists(s, x);
    let p = choose|p: int| is_first_position(s, x, p);
    let q = d.adjacent_of(p, s.len() as int)->0;
    assert(s[q as int] == adjacent_in(d, s, x)->0);
}

/// The group next to another one is a group of the list.
pub proof fn lemma_group_adjacent_member(d: Direction, s: Seq<usize>, g: usize)
    requires
        group_adjacent(d, s, g) is Some,
    ensures
        s.contains(group_adjacent(d, s, g)->0),
{
    lemma_first_group_position_exists(s, g);
    let p = choose|p: int| 0 <= p < s.len() && s[p] == g && forall|j: int| 0 <= j < p ==> s[j] != g;
    let q = d.adjacent_of(p, s.len() as int)->0;
    assert(s[q as int] == group_adjacent(d, s, g)->0);
}

/// A visible window of a group is one of its windows.
pub proof fn lemma_visible_member(g: GroupView, m: Seq<isize>, h: isize)
    requires
        visible_windows(g, m).contains(h),
    ensures
        g.windows.contains(h),
{
    g.windows.lemma_filter_contains_rev(|x: isize| m.contains(x), h);
}

/// The position of the first occurrence of `x` in `v`.
pub fn find_usize(v: &Vec<usize>, x: usize) -> (r: Option<usize>)
    ensures
        match r {
            Some(k) => k < v.len() && v@[k as int] == x,
            None => !v@.contains(x),
        },
{
    let mut i: usize = 0;
    while i < v.len()
        invariant
            0 <= i <= v.len(),
            forall|j: int| 0 <= j < i ==> v@[j] != x,
        decreases v.len() - i,
    {
        if v[i] == x {
            return Some(i);
        }
        i = i + 1;
    }
    None
}

/// The groups listed by `placement_groups` are distinct and are the groups of the positions.
pub proof fn lemma_placement_groups_cover(gs: Seq<GroupView>, ps: Seq<(isize, Rect)>, j: int)
    requires
        0 <= j < ps.len(),
    ensures
        placement_groups(gs, ps).contains(first_group(gs, ps[j].0) as usize),
    decreases ps.len(),
{
    let prev = placement_groups(gs, ps.drop_last());
    if j < ps.len() - 1 {
        lemma_placement_groups_cover(gs, ps.drop_last(), j);
        assert(ps.drop_last()[j] == ps[j]);
        let g = first_group(gs, ps[j].0) as usize;
        let t = choose|t: int| 0 <= t < prev.len() && prev[t] == g;
        if !prev.contains(first_group(gs, ps.last().0) as usize) {
            assert(prev.push(first_group(gs, ps.last().0) as usize)[t] == g);
        }
    } else {
        let g = first_group(gs, ps.last().0) as usize;
        if !prev.contains(g) {
            assert(prev.push(g)[prev.len() as int] == g);
        }
    }
}

/// The first active position is unique.
pub proof fn lemma_first_active_unique(ws: Seq<WorkspaceView>, ids: Seq<usize>, a: int, b: int)
    requires
        is_first_active(ws, ids, a),
        is_first_active(ws, ids, b),
    ensures
        a == b,
{
    if a < b {
        assert(!listed(ws, ids)[a].active);
    } else if b < a {
        assert(!listed(ws, ids)[b].active);
    }
}

/// The first workspace of a group is unique.
pub proof fn lemma_first_workspace_unique(ws: Seq<WorkspaceView>, g: usize, a: int, b: int)
    requires
        is_first_workspace_of(ws, g, a),
        is_first_workspace_of(ws, g, b),
    ensures
        a == b,
{
    if a < b {
        assert(!ws[a].groups.contains(g));
    } else if b < a {
        assert(!ws[b].groups.contains(g));
    }
}

/// There are no more listed workspaces than workspaces.
pub proof fn lemma_listed_len(ws: Seq<WorkspaceView>, ids: Seq<usize>)
    ensures
        listed(ws, ids).len() <= ws.len(),
{
    broadcast use vstd::seq_lib::group_filter_ensures;

}

/// A listed workspace is the one at its own index, which is listed.
pub proof fn lemma_listed_at_index(ws: Seq<WorkspaceView>, ids: Seq<usize>, k: int)
    requires
        0 <= k < listed(ws, ids).len(),
        forall|i: int| 0 <= i < ws.len() ==> (#[trigger] ws[i]).index == i,
    ensures
        listed(ws, ids)[k].index < ws.len(),
        ws[listed(ws, ids)[k].index as int] == listed(ws, ids)[k],
        ids.contains(listed(ws, ids)[k].index),
{
    let pred = |w: WorkspaceView| ids.contains(w.index);
    assert(listed(ws, ids) == ws.filter(pred));
    let l = listed(ws, ids)[k];
    ws.lemma_filter_pred(pred, k);
    assert(ws.filter(pred).contains(l));
    ws.lemma_filter_contains_rev(pred, l);
    let j = choose|j: int| 0 <= j < ws.len() && ws[j] == l;
    assert(ws[j].index == j);
}


/// Showing another workspace and then taking events again leaves what the
/// switch as a whole leaves: the two workspaces flipped, everything else
/// kept, and events taken.
pub proof fn lemma_workspace_switch_completes(
    s0: StateManager,
    s1: StateManager,
    s2: StateManager,
    workspace_index: usize,
    hmonitor: isize,
)
    requires
        s0.shows_workspace(s1, workspace_index, hmonitor),
        s1.resumed(s2),
    ensures
        s0.shows_workspace(s2, workspace_index, hmonitor),
        !s2.ignore_events,
{
}

/// Sending a window to another workspace and then taking events again leaves
/// what the move as a whole leaves: the window in its new group, everything
/// else kept, and events taken.
pub proof fn lemma_send_to_workspace_completes(
    s0: StateManager,
    s1: StateManager,
    s2: StateManager,
    workspace_index: usize,
    foreground: isize,
    hmonitor: isize,
)
    requires
        s0.sends_to_workspace(s1, workspace_index, foreground, hmonitor),
        s1.resumed(s2),
    ensures
        s0.sends_to_workspace(s2, workspace_index, foreground, hmonitor),
        !s2.ignore_events,
{
}

/// A window that leaves for a neighbouring monitor enters the workspace that
/// monitor shows at its last group when going left or up, at its first group
/// when going down or right.
pub proof fn lemma_target_group_is_end(s: StateManager, nm: isize, d: Direction)
    requires
        s.shown_groups(nm).len() > 0,
    ensures
        match d {
            Direction::LEFT | Direction::UP => s.target_group(nm, d) == s.shown_groups(nm).last(),
            Direction::DOWN | Direction::RIGHT => s.target_group(nm, d) == s.shown_groups(nm)[0],
        },
{
}

} // verus!
