use fenestra::actions::{CloseWindow, FocusWindow, FocusWorkspace, MoveToWorkspace, MoveWindow, WindowManagerAction};
use fenestra::direction::Direction;
use fenestra::geometry::Rect;
use fenestra::monitor::{DeviceMode, Monitor, MonitorInfo, Neighbors};
use fenestra::neighbors::init_neighbors;
use fenestra::state_manager::{ActionOutcome, StateManager};
use fenestra::window::{Window, WindowInfo};

fn rect(left: i32, top: i32, right: i32, bottom: i32) -> Rect {
    Rect { left, top, right, bottom }
}

fn monitor(hmonitor: isize, x: i32) -> Monitor {
    Monitor {
        hmonitor,
        name: format!("DISPLAY{}", hmonitor),
        info: MonitorInfo { monitor: rect(x, 0, x + 1920, 1080), work: rect(x, 0, x + 1920, 1040) },
        device_mode: DeviceMode { position_x: x, position_y: 0, pels_width: 1920, pels_height: 1080 },
        scale: 100,
        dpi: 96,
        neighbors: Neighbors::new(),
        workspaces: Vec::new(),
    }
}

fn window(hwnd: isize, left: i32) -> Window {
    let r = rect(left, 0, left + 100, 100);
    Window {
        title: format!("window {}", hwnd),
        hwnd,
        thread_id: hwnd as u32,
        process_id: hwnd as u32,
        rect: r,
        bounding_rect: r,
        border_thickness: 0,
        info: WindowInfo { window_rect: r, client_rect: r, window_borders_x: 0, window_borders_y: 0 },
        dpi: 96,
        style: 0,
        extended_style: 0,
        focused: false,
    }
}

fn two_monitors() -> Vec<Monitor> {
    init_neighbors(vec![monitor(100, 0), monitor(200, 1920)])
}

fn state() -> StateManager {
    let windows = vec![window(1, 500), window(2, 100), window(3, 2000)];
    StateManager::new(two_monitors(), windows, vec![100, 100, 200])
}

#[test]
fn side_by_side_monitors_are_neighbours() {
    let ms = two_monitors();
    assert_eq!(ms[0].neighbors, Neighbors { left: None, down: None, up: None, right: Some(200) });
    assert_eq!(ms[1].neighbors, Neighbors { left: Some(100), down: None, up: None, right: None });
}

#[test]
fn monitors_beyond_a_gap_are_not_neighbours() {
    // The second monitor starts farther away than the widest monitor is wide.
    let ms = init_neighbors(vec![monitor(100, 0), monitor(200, 5000)]);
    assert_eq!(ms[0].neighbors.right, None);
    assert_eq!(ms[1].neighbors.left, None);
}

#[test]
fn abutting_monitors_of_different_sizes_are_neighbours() {
    let mut wide = monitor(1, 0);
    wide.info.monitor = rect(0, 0, 2560, 1440);
    let mut left = monitor(2, -1920);
    left.info.monitor = rect(-1920, 0, 0, 1080);
    let ms = init_neighbors(vec![wide, left]);
    assert_eq!(ms[0].neighbors, Neighbors { left: Some(2), down: None, up: None, right: None });
    assert_eq!(ms[1].neighbors, Neighbors { left: None, down: None, up: None, right: Some(1) });
}

#[test]
fn initial_state_has_ten_workspaces_per_monitor() {
    let s = state();
    assert_eq!(s.workspace_manager.len(), 20);
    assert_eq!(s.group_manager.len(), 20);
    assert_eq!(*s.monitor_manager.workspaces_for_monitor(100), (0..10).collect::<Vec<usize>>());
    assert_eq!(*s.monitor_manager.workspaces_for_monitor(200), (10..20).collect::<Vec<usize>>());
    assert!(s.workspace_manager.is_active(0));
    assert!(!s.workspace_manager.is_active(1));
    assert!(s.workspace_manager.is_active(10));
    assert_eq!(*s.workspace_manager.groups_for_workspace(13), vec![13usize]);
    assert!(!s.ignore_events);
}

#[test]
fn initial_windows_are_ordered_by_left_edge() {
    let s = state();
    assert_eq!(s.group_manager.hwnds_from_groups(&vec![0]), vec![2, 1]);
    assert_eq!(s.group_manager.hwnds_from_groups(&vec![10]), vec![3]);
    assert_eq!(s.group_manager.hwnds_from_groups(&vec![1]), Vec::<isize>::new());
    // The first monitor's area, without the task bar, split side by side.
    let positions = s.group_manager.calculate_window_positions(vec![0], &vec![1, 2, 3]);
    assert_eq!(positions, vec![(2, rect(0, 0, 960, 1040)), (1, rect(960, 0, 1920, 1040))]);
}

#[test]
fn focus_moves_within_a_group_then_across_monitors() {
    let s = state();
    assert_eq!(s.focus_window_in_direction(Direction::RIGHT, 2, 100), Some(1));
    assert_eq!(s.focus_window_in_direction(Direction::LEFT, 1, 100), Some(2));
    // No window left of 2 and no monitor to the left.
    assert_eq!(s.focus_window_in_direction(Direction::LEFT, 2, 100), None);
    // Right of 1: the window of the workspace the neighbouring monitor shows.
    assert_eq!(s.focus_window_in_direction(Direction::RIGHT, 1, 100), Some(3));
    assert_eq!(s.focus_window_in_direction(Direction::LEFT, 3, 200), Some(1));
}

#[test]
fn focusing_a_workspace_switches_what_is_shown() {
    let mut s = state();
    let switch = s.focus_workspace(3, 100).expect("another workspace");
    assert_eq!(switch.hide, vec![2, 1]);
    assert_eq!(switch.show, Vec::<isize>::new());
    assert!(!s.workspace_manager.is_active(0));
    assert!(s.workspace_manager.is_active(3));
    assert!(s.ignore_events);
    // Once the windows are hidden and shown, events are taken again.
    s.resume_events();
    assert!(!s.ignore_events);
    assert!(s.workspace_manager.is_active(3));
    // The shown workspace again: nothing to do.
    let mut s = state();
    assert!(s.focus_workspace(0, 100).is_none());
}

#[test]
fn current_workspace_and_group() {
    let s = state();
    assert_eq!(s.current_workspace(100), 0);
    assert_eq!(s.current_workspace(200), 10);
    assert_eq!(s.current_group(1, 100), 0);
    assert_eq!(s.current_group(3, 100), 10);
    // An unmanaged foreground window: the last group of the shown workspace.
    assert_eq!(s.current_group(77, 100), 0);
}

fn placement_summary(ps: &Vec<fenestra::state_manager::GroupPlacement>) -> Vec<(usize, Vec<(isize, Rect)>, Option<isize>)> {
    ps.iter().map(|p| (p.group, p.positions.clone(), p.maximize)).collect()
}

#[test]
fn moving_a_window_within_its_group() {
    let mut s = state();
    let plan = s.move_window_in_direction(Direction::RIGHT, 2, 100);
    assert_eq!(
        placement_summary(&plan),
        vec![(0, vec![(1, rect(0, 0, 960, 1040)), (2, rect(960, 0, 1920, 1040))], None)]
    );
    assert_eq!(s.group_manager.hwnds_from_groups(&vec![0]), vec![1, 2]);
    // Nothing to the left of the first window and no monitor there.
    let mut s = state();
    assert!(s.move_window_in_direction(Direction::LEFT, 2, 100).is_empty());
    assert_eq!(s.group_manager.hwnds_from_groups(&vec![0]), vec![2, 1]);
}

#[test]
fn sending_a_window_to_another_workspace() {
    let mut s = state();
    let plan = s.move_to_workspace(3, 1, 100).expect("another workspace");
    // The window left behind fills its group and is alone on its workspace.
    assert_eq!(placement_summary(&plan), vec![(0, vec![(2, rect(0, 0, 1920, 1040))], Some(2))]);
    assert_eq!(s.group_manager.hwnds_from_groups(&vec![0]), vec![2]);
    assert_eq!(s.group_manager.hwnds_from_groups(&vec![3]), vec![1]);
    assert!(s.ignore_events);
    s.resume_events();
    assert!(!s.ignore_events);
    assert_eq!(s.group_manager.hwnds_from_groups(&vec![3]), vec![1]);
    let mut s = state();
    assert!(s.move_to_workspace(0, 1, 100).is_none());
}

#[test]
fn a_new_window_joins_the_current_group() {
    let mut s = state();
    let plan = s.add_window(Some(window(4, 50)), 2, 100);
    assert_eq!(
        placement_summary(&plan),
        vec![(
            0,
            vec![(2, rect(0, 0, 640, 1040)), (1, rect(640, 0, 1280, 1040)), (4, rect(1280, 0, 1920, 1040))],
            None
        )]
    );
    // A minimized window is kept but not laid out.
    let mut s = state();
    let mut w = window(5, 50);
    w.style = 0x2000_0000;
    assert!(s.add_window(Some(w), 2, 100).is_empty());
    assert_eq!(s.group_manager.num_hwnds(), 3);
    assert!(s.window_manager.has_hwnd(5));
}

#[test]
fn validation_against_the_system() {
    let mut s = state();
    assert_eq!(s.validate(&vec![true, true, true], Vec::new(), 2, 100), Ok(false));
    let mut s = state();
    assert_eq!(s.validate(&vec![true, true, true], vec![window(6, 0)], 2, 100), Ok(true));
    assert_eq!(s.group_manager.hwnds_from_groups(&vec![0]), vec![2, 1, 6]);
    // The last window is gone: it leaves its group.
    let mut s = state();
    assert_eq!(s.validate(&vec![true, true, false], Vec::new(), 2, 100), Ok(true));
    assert_eq!(s.group_manager.hwnds_from_groups(&vec![10]), Vec::<isize>::new());
    assert!(!s.window_manager.has_hwnd(3));
    // Every window found gone leaves its group, wherever it is listed.
    let mut s = state();
    assert_eq!(s.validate(&vec![false, true, false], Vec::new(), 2, 100), Ok(true));
    assert_eq!(s.group_manager.hwnds_from_groups(&vec![0]), vec![2]);
    assert_eq!(s.group_manager.hwnds_from_groups(&vec![10]), Vec::<isize>::new());
    assert_eq!(s.window_manager.managed_hwnds(false), vec![2]);
    // A window managed but in no group: the state has drifted.
    let mut s = state();
    s.window_manager.add_window(Some(window(9, 0)));
    assert_eq!(s.validate(&vec![true, true, true, true], Vec::new(), 2, 100), Err(()));
}

#[test]
fn arranging_every_window() {
    let s = state();
    let plan = s.arrange_all_windows();
    assert_eq!(
        placement_summary(&plan),
        vec![
            (0, vec![(2, rect(0, 0, 960, 1040)), (1, rect(960, 0, 1920, 1040))], None),
            (10, vec![(3, rect(1920, 0, 3840, 1040))], Some(3)),
        ]
    );
}

#[test]
fn display_names() {
    assert_eq!(fenestra::monitor::device_name("\\\\.\\DISPLAY1\0\0garbage"), ".\\DISPLAY1");
    assert_eq!(fenestra::monitor::device_name("DISPLAY2"), "DISPLAY2");
    assert_eq!(fenestra::monitor::device_name("\\\\\0"), "");
}

#[test]
fn monitors_that_can_be_searched() {
    assert!(fenestra::neighbors::searchable(&vec![monitor(100, 0), monitor(200, 1920)]));
    assert!(!fenestra::neighbors::searchable(&Vec::new()));
    // So far apart that the squared distance does not fit in 32 bits.
    assert!(!fenestra::neighbors::searchable(&vec![monitor(100, 0), monitor(200, 60000)]));
}

#[test]
fn workspaces_of_the_second_monitor() {
    let mut s = state();
    let switch = s.focus_workspace(2, 200).expect("another workspace");
    assert_eq!(switch.hide, vec![3]);
    assert_eq!(switch.show, Vec::<isize>::new());
    assert!(!s.workspace_manager.is_active(10));
    assert!(s.workspace_manager.is_active(12));
    assert!(s.workspace_manager.is_active(0));
    assert_eq!(s.current_workspace(200), 12);
    // The workspace shown already: nothing changes.
    let mut s = state();
    assert!(s.focus_workspace(0, 200).is_none());
    assert!(s.workspace_manager.is_active(10));
    assert!(!s.ignore_events);
    // Sending a window goes to the second monitor's workspace.
    let mut s = state();
    assert!(s.move_to_workspace(4, 3, 200).is_some());
    assert_eq!(s.group_manager.hwnds_from_groups(&vec![14]), vec![3]);
    assert_eq!(s.group_manager.hwnds_from_groups(&vec![4]), Vec::<isize>::new());
}

#[test]
fn moving_across_monitors_keeps_every_window() {
    let mut s = state();
    s.move_window_in_direction(Direction::RIGHT, 1, 100);
    let mut all = s.group_manager.managed_hwnds();
    all.sort();
    assert_eq!(all, vec![1, 2, 3]);
    assert_eq!(s.group_manager.hwnds_from_groups(&vec![10]), vec![1, 3]);
}

#[test]
fn actions_are_dispatched_to_the_state() {
    let mut s = state();
    match s.perform(WindowManagerAction::FocusWindow(FocusWindow { direction: Direction::RIGHT }), 2, 100) {
        ActionOutcome::Focus(target) => assert_eq!(target, Some(1)),
        _ => panic!("a focus"),
    }
    match s.perform(WindowManagerAction::CloseWindow(CloseWindow {}), 2, 100) {
        ActionOutcome::Close(hwnd) => assert_eq!(hwnd, 2),
        _ => panic!("a close"),
    }
    match s.perform(WindowManagerAction::MoveWindow(MoveWindow { direction: Direction::RIGHT }), 2, 100) {
        ActionOutcome::Place(plan) => assert_eq!(plan.len(), 1),
        _ => panic!("a placement"),
    }
    assert_eq!(s.group_manager.hwnds_from_groups(&vec![0]), vec![1, 2]);
    // Workspace 4 is the fourth of the monitor.
    match s.perform(WindowManagerAction::FocusWorkspace(FocusWorkspace { id: 4 }), 2, 100) {
        ActionOutcome::Switch(Some(switch)) => assert_eq!(switch.hide, vec![1, 2]),
        _ => panic!("a switch"),
    }
    assert!(s.workspace_manager.is_active(3));
    s.resume_events();
    let mut s = state();
    match s.perform(WindowManagerAction::MoveToWorkspace(MoveToWorkspace { id: 1 }), 1, 100) {
        ActionOutcome::Send(plan) => assert!(plan.is_none()),
        _ => panic!("a send"),
    }
}
