//! Building the initial state from the monitors and windows found at start.
use vstd::prelude::*;
use crate::axis::Axis;
use crate::geometry::Rect;
use crate::group::{Group, GroupManager, GroupView, groups_wf, rect_in_range};
use crate::monitor::{Monitor, MonitorView};
use crate::monitor_manager::{has_monitor, MonitorManager};
use crate::state_manager::{state_wf, StateManager};
use crate::window::Window;
use crate::window_manager::WindowManager;
use crate::workspace::{Workspace, WorkspaceManager, WorkspaceView, has_workspace_of};
use crate::direction::Direction;

verus! {

/// The number of workspaces (and groups) of each monitor.
pub const WORKSPACES_PER_MONITOR: usize = 10;

/// A monitor is wider than it is high.
pub open spec fn is_landscape(m: MonitorView) -> bool {
    m.device_mode.pels_width > m.device_mode.pels_height
}

/// The split axis of a monitor's groups: side by side on a landscape
/// monitor, stacked on a portrait one.
pub open spec fn monitor_axis(m: MonitorView) -> Axis {
    if is_landscape(m) {
        Axis::VERTICAL
    } else {
        Axis::HORIZONTAL
    }
}

/// The windows of a monitor go into its first group from left to right on a
/// landscape monitor, and from top to bottom on any other.
pub proof fn lemma_initial_order_by_position(
    ws: Seq<Window>,
    wmon: Seq<isize>,
    h: isize,
    landscape: bool,
    idx: Seq<int>,
)
    requires
        monitor_window_order(ws, wmon, h, landscape, idx),
    ensures
        forall|i: int, j: int|
            0 <= i < j < idx.len() ==> if landscape {
                ws[#[trigger] idx[i]].rect.left <= ws[#[trigger] idx[j]].rect.left
            } else {
                ws[idx[i]].rect.top <= ws[idx[j]].rect.top
            },
{
    assert forall|i: int, j: int| 0 <= i < j < idx.len() implies if landscape {
        ws[#[trigger] idx[i]].rect.left <= ws[#[trigger] idx[j]].rect.left
    } else {
        ws[idx[i]].rect.top <= ws[idx[j]].rect.top
    } by {
        assert(comes_before(ws, landscape, idx[i], idx[j]));
    }
}

/// Groups are split side by side on a landscape monitor (wider than high),
/// and stacked on any other.
pub proof fn lemma_monitor_axis_follows_orientation(m: MonitorView)
    ensures
        m.device_mode.pels_width > m.device_mode.pels_height ==> monitor_axis(m) == Axis::VERTICAL,
        m.device_mode.pels_width <= m.device_mode.pels_height ==> monitor_axis(m) == Axis::HORIZONTAL,
{
}

/// The height of the task bar: how much the work area stops short of the
/// monitor's bottom edge.
pub open spec fn taskbar_offset(m: MonitorView) -> int {
    m.info.monitor.bottom - m.info.work.bottom
}

/// The area of a monitor's groups: its position and size from its display
/// mode, less the task bar at the bottom.
pub open spec fn monitor_area(m: MonitorView) -> Rect {
    let left = m.device_mode.position_x;
    let top = m.device_mode.position_y;
    Rect {
        left: left,
        top: top,
        right: (left + (m.device_mode.pels_width as i32)) as i32,
        bottom: (top + (m.device_mode.pels_height as i32) - taskbar_offset(m)) as i32,
    }
}

/// Computing a monitor's area stays within 32-bit arithmetic, and so do its sizes.
pub open spec fn monitor_area_in_range(m: MonitorView) -> bool {
    let left = m.device_mode.position_x;
    let top = m.device_mode.position_y;
    &&& i32::MIN <= left + (m.device_mode.pels_width as i32) <= i32::MAX
    &&& i32::MIN <= top + (m.device_mode.pels_height as i32) <= i32::MAX
    &&& i32::MIN <= taskbar_offset(m) <= i32::MAX
    &&& i32::MIN <= top + (m.device_mode.pels_height as i32) - taskbar_offset(m) <= i32::MAX
    &&& rect_in_range(monitor_area(m))
}

/// The key by which the windows of a monitor are ordered: the left edge on a
/// landscape monitor, the top edge on a portrait one.
pub open spec fn window_key(w: Window, landscape: bool) -> int {
    if landscape {
        w.rect.left as int
    } else {
        w.rect.top as int
    }
}

/// Window `a` comes before window `b`: by key, and by enumeration order among equal keys.
pub open spec fn comes_before(ws: Seq<Window>, landscape: bool, a: int, b: int) -> bool {
    window_key(ws[a], landscape) < window_key(ws[b], landscape) || (window_key(ws[a], landscape)
        == window_key(ws[b], landscape) && a < b)
}

/// `idx` lists the windows on monitor `h`, each once, ordered by `comes_before`
/// (a stable sort by key).
pub open spec fn monitor_window_order(
    ws: Seq<Window>,
    wmon: Seq<isize>,
    h: isize,
    landscape: bool,
    idx: Seq<int>,
) -> bool {
    &&& forall|i: int| 0 <= i < idx.len() ==> 0 <= #[trigger] idx[i] < ws.len() && wmon[idx[i]] == h
    &&& forall|k: int| 0 <= k < ws.len() && wmon[k] == h ==> #[trigger] idx.contains(k)
    &&& forall|i: int, j: int|
        0 <= i < j < idx.len() ==> comes_before(ws, landscape, #[trigger] idx[i], #[trigger] idx[j])
}

/// The group at index `j` of the initial state, given the windows of its monitor.
pub open spec fn initial_group(m: MonitorView, j: int, windows: Seq<isize>) -> GroupView {
    GroupView {
        index: j as usize,
        split_axis: monitor_axis(m),
        rect: monitor_area(m),
        windows: if j % 10 == 0 {
            windows
        } else {
            Seq::empty()
        },
    }
}

/// The workspace at index `j` of the initial state: made of group `j`, shown
/// when it is the first of its monitor.
pub open spec fn initial_workspace(j: int) -> WorkspaceView {
    WorkspaceView { index: j as usize, groups: seq![j as usize], active: j % 10 == 0 }
}

/// The workspaces of monitor `i` in the initial state.
pub open spec fn initial_monitor_workspaces(i: int) -> Seq<usize> {
    Seq::new(10, |k: int| (10 * i + k) as usize)
}

/// The same monitor with other workspaces.
pub open spec fn with_workspaces(m: MonitorView, w: Seq<usize>) -> MonitorView {
    MonitorView { workspaces: w, ..m }
}

/// The state can be built on the monitors: their number and their areas
/// stay within machine arithmetic.
pub open spec fn monitors_ok(ms: Seq<MonitorView>) -> bool {
    &&& 10 * ms.len() + 10 <= usize::MAX
    &&& forall|i: int| 0 <= i < ms.len() ==> monitor_area_in_range(#[trigger] ms[i])
}

/// The monitors refer only to each other as neighbours, and only to
/// workspaces that the initial state will have.
pub open spec fn monitors_linked(ms: Seq<MonitorView>) -> bool {
    &&& forall|i: int, d: Direction|
        0 <= i < ms.len() && (#[trigger] ms[i].neighbors.at(d)) is Some ==> has_monitor(
            ms,
            ms[i].neighbors.at(d)->0,
        )
    &&& forall|i: int, k: int|
        0 <= i < ms.len() && 0 <= k < (#[trigger] ms[i]).workspaces.len() ==> #[trigger] ms[i].workspaces[k]
            < 10 * ms.len()
}

/// The key of a window (see `window_key`).
fn key_of(w: &Window, landscape: bool) -> (r: i32)
    ensures
        r as int == window_key(*w, landscape),
{
    if landscape {
        w.rect.left
    } else {
        w.rect.top
    }
}

/// The handles of the windows at the given indices.
pub open spec fn hwnds_at(ws: Seq<Window>, idx: Seq<int>) -> Seq<isize> {
    idx.map_values(|k: int| ws[k].hwnd)
}

/// The values of some monitors.
pub open spec fn monitor_views(ms: Seq<Monitor>) -> Seq<MonitorView> {
    ms.map_values(|m: Monitor| m@)
}

/// The windows on monitor `h`, ordered by `comes_before`, with the order found.
fn windows_on_monitor(windows: &Vec<Window>, window_monitors: &Vec<isize>, h: isize, landscape: bool) -> (r: (Vec<isize>, Ghost<Seq<int>>))
    requires
        window_monitors.len() == windows.len(),
    ensures
        monitor_window_order(windows@, window_monitors@, h, landscape, r.1@),
        r.0@ == hwnds_at(windows@, r.1@),
{
    let mut idx: Vec<usize> = Vec::new();
    let mut k: usize = 0;
    while k < windows.len()
        invariant
            0 <= k <= windows.len(),
            window_monitors.len() == windows.len(),
            forall|i: int| 0 <= i < idx.len() ==> (#[trigger] idx@[i]) < k && window_monitors@[idx@[i] as int] == h,
            forall|j: int| 0 <= j < k && window_monitors@[j] == h ==> #[trigger] idx@.contains(j as usize),
            forall|i: int, j: int|
                0 <= i < j < idx.len() ==> comes_before(windows@, landscape, #[trigger] idx@[i] as int, #[trigger] idx@[j] as int),
        decreases windows.len() - k,
    {
        if window_monitors[k] == h {
            let key: i32 = key_of(&windows[k], landscape);
            let mut p: usize = 0;
            while p < idx.len() && key_of(&windows[idx[p]], landscape) <= key
                invariant
                    0 <= p <= idx.len(),
                    k < windows.len(),
                    key as int == window_key(windows@[k as int], landscape),
                    forall|i: int| 0 <= i < idx.len() ==> (#[trigger] idx@[i]) < k,
                    forall|i: int| 0 <= i < p ==> window_key(windows@[#[trigger] idx@[i] as int], landscape) <= key,
                decreases idx.len() - p,
            {
                p = p + 1;
            }
            let ghost old_idx = idx@;
            // Everything from `p` on has a greater key, when anything is there.
            proof {
                if p < old_idx.len() {
                    assert(window_key(windows@[old_idx[p as int] as int], landscape) > key);
                }
            }
            idx.insert(p, k);
            proof {
                assert(idx@ == old_idx.insert(p as int, k));
                assert forall|i: int, j: int|
                    0 <= i < j < idx.len() implies comes_before(windows@, landscape, #[trigger] idx@[i] as int, #[trigger] idx@[j] as int) by {
                    if j < p {
                        assert(idx@[i] == old_idx[i] && idx@[j] == old_idx[j]);
                    } else if j == p {
                        assert(idx@[i] == old_idx[i]);
                    } else if i < p {
                        assert(idx@[i] == old_idx[i] && idx@[j] == old_idx[j - 1]);
                        assert(window_key(windows@[old_idx[p as int] as int], landscape) > key);
                        assert(comes_before(windows@, landscape, old_idx[p as int] as int, old_idx[j - 1] as int) || j - 1 == p);
                    } else if i == p {
                        assert(idx@[j] == old_idx[j - 1]);
                        assert(window_key(windows@[old_idx[p as int] as int], landscape) > key);
                        assert(comes_before(windows@, landscape, old_idx[p as int] as int, old_idx[j - 1] as int) || j - 1 == p);
                    } else {
                        assert(idx@[i] == old_idx[i - 1] && idx@[j] == old_idx[j - 1]);
                    }
                }
                assert forall|j: int| 0 <= j < k + 1 && window_monitors@[j] == h implies #[trigger] idx@.contains(j as usize) by {
                    if j == k {
                        assert(idx@[p as int] == k);
                    } else {
                        assert(old_idx.contains(j as usize));
                        let t = choose|t: int| 0 <= t < old_idx.len() && old_idx[t] == j as usize;
                        if t < p {
                            assert(idx@[t] == j as usize);
                        } else {
                            assert(idx@[t + 1] == j as usize);
                        }
                    }
                }
            }
        }
        k = k + 1;
    }
    let ghost sidx = idx@.map_values(|x: usize| x as int);
    let mut r: Vec<isize> = Vec::new();
    let mut i: usize = 0;
    while i < idx.len()
        invariant
            0 <= i <= idx.len(),
            window_monitors.len() == windows.len(),
            sidx == idx@.map_values(|x: usize| x as int),
            forall|j: int| 0 <= j < idx.len() ==> (#[trigger] idx@[j]) < windows.len(),
            r@ =~= hwnds_at(windows@, sidx).take(i as int),
        decreases idx.len() - i,
    {
        r.push(windows[idx[i]].hwnd);
        i = i + 1;
    }
    proof {
        assert(r@ =~= hwnds_at(windows@, sidx));
        assert forall|j: int| 0 <= j < windows.len() && window_monitors@[j] == h implies #[trigger] sidx.contains(j) by {
            assert(idx@.contains(j as usize));
            let t = choose|t: int| 0 <= t < idx@.len() && idx@[t] == j as usize;
            assert(sidx[t] == j);
        }
        assert forall|a: int, b: int| 0 <= a < b < sidx.len() implies comes_before(windows@, landscape, #[trigger] sidx[a], #[trigger] sidx[b]) by {
            assert(sidx[a] == idx@[a] as int && sidx[b] == idx@[b] as int);
        }
        assert(monitor_window_order(windows@, window_monitors@, h, landscape, sidx));
    }
    (r, Ghost(sidx))
}

/// Dropping the first of the remaining monitors moves on by one.
pub proof fn lemma_skip_step(before: Seq<Monitor>, after: Seq<Monitor>, ms0: Seq<MonitorView>, mi: int)
    requires
        0 <= mi < ms0.len(),
        before.len() > 0,
        after == before.remove(0),
        monitor_views(before) == ms0.skip(mi),
    ensures
        monitor_views(after) == ms0.skip(mi + 1),
        before[0]@ == ms0[mi],
{
    assert(monitor_views(before)[0] == ms0.skip(mi)[0]);
    assert(after.len() == before.len() - 1);
    assert(monitor_views(before).len() == before.len());
    assert(monitor_views(after).len() == ms0.skip(mi + 1).len());
    assert forall|i: int| 0 <= i < after.len() implies #[trigger] monitor_views(after)[i] == ms0.skip(mi + 1)[i] by {
        assert(after[i] == before[i + 1]);
        assert(monitor_views(after)[i] == after[i]@);
        assert(monitor_views(before)[i + 1] == before[i + 1]@);
        assert(monitor_views(before)[i + 1] == ms0.skip(mi)[i + 1]);
    }
    assert(monitor_views(after) =~= ms0.skip(mi + 1));
}

/// The group a monitor's `k`-th workspace starts with.
proof fn lemma_div_ten(mi: int, k: int)
    requires
        0 <= mi,
        0 <= k < 10,
    ensures
        (10 * mi + k) / 10 == mi,
        (10 * mi + k) % 10 == k,
{
}

impl StateManager {
    /// The initial state: for the `i`-th monitor, groups and workspaces
    /// `10 i` to `10 i + 9`, each workspace made of its own group and covering
    /// the monitor's area; the first workspace is shown and its group holds
    /// the windows on that monitor, ordered by their left edges on a
    /// landscape monitor and by their top edges on a portrait one
    /// (`window_monitors[k]` is the monitor of `windows[k]`). Every window is
    /// managed. The state is well formed when the monitors refer only to each
    /// other and to workspaces of the state (see `monitors_linked`).
    pub fn new(monitors: Vec<Monitor>, windows: Vec<Window>, window_monitors: Vec<isize>) -> (r: StateManager)
        requires
            window_monitors.len() == windows.len(),
            monitors_ok(monitor_views(monitors@)),
        ensures
            monitors_linked(monitor_views(monitors@)) ==> r.wf(),
            !r.ignore_events,
            r.window_manager@ == windows@,
            r.group_manager@.len() == 10 * monitors.len(),
            r.workspace_manager@.len() == 10 * monitors.len(),
            r.monitor_manager@.len() == monitors.len(),
            forall|j: int|
                0 <= j < 10 * monitors.len() ==> #[trigger] r.workspace_manager@[j] == initial_workspace(j),
            forall|j: int|
                0 <= j < 10 * monitors.len() ==> exists|idx: Seq<int>|
                    monitor_window_order(windows@, window_monitors@, monitors@[j / 10].hmonitor, is_landscape(monitors@[j / 10]@), idx)
                        && #[trigger] r.group_manager@[j] == initial_group(monitors@[j / 10]@, j, hwnds_at(windows@, idx)),
            forall|i: int|
                0 <= i < monitors.len() ==> #[trigger] r.monitor_manager@[i] == with_workspaces(
                    monitors@[i]@,
                    monitors@[i]@.workspaces + initial_monitor_workspaces(i),
                ),
            forall|j: int|
                0 <= j < 10 * monitors.len() ==> (#[trigger] r.group_manager@[j]).split_axis == if monitors@[j
                    / 10]@.device_mode.pels_width > monitors@[j / 10]@.device_mode.pels_height {
                    Axis::VERTICAL
                } else {
                    Axis::HORIZONTAL
                },
    {
        let ghost orig = monitors@;
        let ghost ms0 = monitor_views(monitors@);
        let n = monitors.len();
        let mut monitors = monitors;
        let mut built: Vec<Monitor> = Vec::new();
        let mut workspaces: Vec<Workspace> = Vec::new();
        let mut groups: Vec<Group> = Vec::new();
        let ghost mut orders: Seq<Seq<int>> = Seq::empty();
        let mut mi: usize = 0;
        assert(ms0.skip(0) =~= ms0);
        while mi < n
            invariant
                0 <= mi <= n,
                n == ms0.len(),
                monitors_ok(ms0),
                window_monitors.len() == windows.len(),
                monitor_views(monitors@) == ms0.skip(mi as int),
                monitors.len() == n - mi,
                built.len() == mi,
                orders.len() == mi,
                groups.len() == 10 * mi,
                workspaces.len() == 10 * mi,
                forall|i: int|
                    0 <= i < mi ==> #[trigger] built@[i]@ == with_workspaces(
                        ms0[i],
                        ms0[i].workspaces + initial_monitor_workspaces(i),
                    ),
                forall|i: int|
                    0 <= i < mi ==> monitor_window_order(windows@, window_monitors@, ms0[i].hmonitor, is_landscape(ms0[i]), #[trigger] orders[i]),
                forall|j: int| 0 <= j < 10 * mi ==> #[trigger] workspaces@[j]@ == initial_workspace(j),
                forall|j: int|
                    0 <= j < 10 * mi ==> #[trigger] groups@[j]@ == initial_group(ms0[j / 10], j, hwnds_at(windows@, orders[j / 10])),
            decreases n - mi,
        {
            let ghost before_monitors = monitors@;
            let mut monitor = monitors.remove(0);
            proof {
                lemma_skip_step(before_monitors, monitors@, ms0, mi as int);
            }
            let ghost m0 = ms0[mi as int];
            assert(monitor@ == m0);
            assert(monitor_area_in_range(m0));
            let mon_left = monitor.device_mode.position_x;
            let mon_top = monitor.device_mode.position_y;
            let mon_width = monitor.device_mode.pels_width;
            let mon_height = monitor.device_mode.pels_height;
            let w32: i32 = #[verifier::truncate] (mon_width as i32);
            let h32: i32 = #[verifier::truncate] (mon_height as i32);
            let mon_right: i32 = mon_left + w32;
            let mut mon_bottom: i32 = mon_top + h32;
            let taskbar_offset: i32 = monitor.info.monitor.bottom - monitor.info.work.bottom;
            mon_bottom = mon_bottom - taskbar_offset;
            let landscape = mon_width > mon_height;
            let (hwnds, Ghost(order)) = windows_on_monitor(&windows, &window_monitors, monitor.hmonitor, landscape);
            let axis = if landscape {
                Axis::VERTICAL
            } else {
                Axis::HORIZONTAL
            };
            let rect = Rect { left: mon_left, top: mon_top, right: mon_right, bottom: mon_bottom };
            assert(rect == monitor_area(m0));
            let adjusted_index = mi * 10;
            let ghost base = 10 * mi;
            let ghost old_ws = monitor.workspaces@;
            let ghost g_before = groups@;
            proof {
                orders = orders.push(order);
                lemma_div_ten(mi as int, 0);
            }
            groups.push(Group { index: adjusted_index, split_axis: axis, rect, windows: hwnds });
            workspaces.push(Workspace { index: adjusted_index, groups: vec![adjusted_index], active: true });
            monitor.workspaces.push(adjusted_index);
            proof {
                assert(workspaces@[base]@.groups =~= seq![adjusted_index]);
                assert(groups@[base]@ == initial_group(m0, base, hwnds_at(windows@, order)));
                assert forall|j: int| 0 <= j < base implies #[trigger] groups@[j]@ == initial_group(ms0[j / 10], j, hwnds_at(windows@, orders[j / 10])) by {
                    assert(groups@[j] == g_before[j]);
                    assert(j / 10 < mi) by (nonlinear_arith) requires 0 <= j < base, base == 10 * mi;
                }
            }
            let mut i: usize = 1;
            while i < 10
                invariant
                    1 <= i <= 10,
                    adjusted_index == base,
                    base == 10 * mi,
                    mi < n,
                    n == ms0.len(),
                    m0 == ms0[mi as int],
                    monitor@ == with_workspaces(m0, monitor.workspaces@),
                    old_ws == m0.workspaces,
                    orders.len() == mi + 1,
                    groups.len() == base + i,
                    workspaces.len() == base + i,
                    monitor.workspaces@ =~= old_ws + initial_monitor_workspaces(mi as int).take(i as int),
                    rect == monitor_area(m0),
                    axis == monitor_axis(m0),
                    forall|j: int| 0 <= j < base + i ==> #[trigger] workspaces@[j]@ == initial_workspace(j),
                    forall|j: int|
                        0 <= j < base + i ==> #[trigger] groups@[j]@ == initial_group(ms0[j / 10], j, hwnds_at(windows@, orders[j / 10])),
                decreases 10 - i,
            {
                let index = adjusted_index + i;
                let ghost g_before = groups@;
                proof {
                    lemma_div_ten(mi as int, i as int);
                }
                groups.push(Group { index, split_axis: axis, rect, windows: Vec::new() });
                assert(groups@[base + i]@ == initial_group(ms0[(base + i) / 10], base + i, hwnds_at(windows@, orders[(base + i) / 10])));
                let gl = vec![index];
                assert(gl@ =~= seq![index]);
                workspaces.push(Workspace { index, groups: gl, active: false });
                monitor.workspaces.push(index);
                i = i + 1;
            }
            proof {
                assert(monitor.workspaces@ =~= old_ws + initial_monitor_workspaces(mi as int));
            }
            built.push(monitor);
            mi = mi + 1;
            proof {
                assert(10 * mi == base + 10);
            }
        }
        let ghost gv = groups@.map_values(|g: Group| g@);
        let ghost wv = workspaces@.map_values(|w: Workspace| w@);
        let ghost mv = built@.map_values(|m: Monitor| m@);
        proof {
            assert forall|j: int| 0 <= j < gv.len() implies (#[trigger] gv[j]).index == j && rect_in_range(gv[j].rect) by {
                assert(0 <= j / 10 < n) by (nonlinear_arith) requires 0 <= j < 10 * n;
                assert(monitor_area_in_range(ms0[j / 10]));
            }
            assert forall|j: usize| j < gv.len() implies #[trigger] has_workspace_of(wv, j) by {
                assert(wv[j as int] == initial_workspace(j as int));
                assert(wv[j as int].groups[0] == j);
            }
            assert forall|i: int| 0 <= i < wv.len() implies crate::group::ids_in_range(gv, (#[trigger] wv[i]).groups) by {
                assert(wv[i] == initial_workspace(i));
            }
            if monitors_linked(ms0) {
                assert forall|i: int, d: Direction|
                    0 <= i < mv.len() && (#[trigger] mv[i].neighbors.at(d)) is Some implies has_monitor(mv, mv[i].neighbors.at(d)->0) by {
                    assert(mv[i].neighbors == ms0[i].neighbors);
                    let h = ms0[i].neighbors.at(d)->0;
                    assert(has_monitor(ms0, h));
                    let t = choose|t: int| 0 <= t < ms0.len() && (#[trigger] ms0[t]).hmonitor == h;
                    assert(mv[t].hmonitor == ms0[t].hmonitor);
                }
                assert forall|i: int, k: int|
                    0 <= i < mv.len() && 0 <= k < (#[trigger] mv[i]).workspaces.len() implies #[trigger] mv[i].workspaces[k] < wv.len() by {
                    if k >= ms0[i].workspaces.len() {
                        assert(mv[i].workspaces[k] == initial_monitor_workspaces(i)[k - ms0[i].workspaces.len()]);
                    } else {
                        assert(mv[i].workspaces[k] == ms0[i].workspaces[k]);
                    }
                }
            }
            assert forall|j: int| 0 <= j < 10 * n implies exists|idx: Seq<int>|
                monitor_window_order(windows@, window_monitors@, orig[j / 10].hmonitor, is_landscape(orig[j / 10]@), idx)
                    && #[trigger] gv[j] == initial_group(orig[j / 10]@, j, hwnds_at(windows@, idx)) by {
                assert(0 <= j / 10 < n) by (nonlinear_arith) requires 0 <= j < 10 * n;
                assert(ms0[j / 10] == orig[j / 10]@);
                assert(gv[j] == groups@[j]@);
                assert(monitor_window_order(windows@, window_monitors@, ms0[j / 10].hmonitor, is_landscape(ms0[j / 10]), orders[j / 10]));
            }
            assert forall|i: int| 0 <= i < n implies #[trigger] mv[i] == with_workspaces(
                    orig[i]@,
                    orig[i]@.workspaces + initial_monitor_workspaces(i),
                ) by {
                assert(ms0[i] == orig[i]@);
            }
        }
        let monitor_manager = MonitorManager::new(built);
        let workspace_manager = WorkspaceManager::new(workspaces);
        let group_manager = GroupManager::new(groups);
        let window_manager = WindowManager::new(windows);
        StateManager { window_manager, group_manager, workspace_manager, monitor_manager, ignore_events: false }
    }
}

} // verus!
