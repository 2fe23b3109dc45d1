use fenestra::axis::Axis;
use fenestra::direction::{isqrt, Direction, DirectionCandidate, DirectionResult};
use fenestra::geometry::{Point, Rect};
use fenestra::group::{Group, GroupManager};
use fenestra::workspace::{Workspace, WorkspaceManager};

fn rect(left: i32, top: i32, right: i32, bottom: i32) -> Rect {
    Rect { left, top, right, bottom }
}

fn group(index: usize, axis: Axis, windows: Vec<isize>) -> Group {
    Group { index, split_axis: axis, rect: rect(0, 0, 1000, 600), windows }
}

fn candidate(id: isize, left: i32, top: i32) -> DirectionCandidate {
    DirectionCandidate {
        id,
        name: format!("c{}", id),
        rect: rect(left, top, left + 10, top + 10),
        offset_x: None,
        offset_y: None,
    }
}

#[test]
fn integer_square_roots() {
    assert_eq!(isqrt(0), 0);
    assert_eq!(isqrt(15), 3);
    assert_eq!(isqrt(16), 4);
    assert_eq!(isqrt(2147395600), 46340);
}

#[test]
fn nearest_candidate_in_a_direction() {
    let origin = candidate(0, 100, 100);
    let cs = vec![candidate(1, 400, 100), candidate(2, 200, 100), candidate(3, 50, 100), candidate(4, 200, 100)];
    assert_eq!(
        Direction::RIGHT.find_nearest(&origin, cs),
        Some(DirectionResult { id: 2, distance: 100, point: Point { x: 200, y: 100 } })
    );
    let cs = vec![candidate(1, 400, 100), candidate(3, 50, 140)];
    assert_eq!(
        Direction::LEFT.find_nearest(&origin, cs),
        Some(DirectionResult { id: 3, distance: 64, point: Point { x: 50, y: 140 } })
    );
    // Straight below, nothing to the left.
    let cs = vec![candidate(5, 100, 300)];
    assert_eq!(Direction::LEFT.find_nearest(&origin, cs), None);
    // A candidate within its own offset is left out.
    let mut near = candidate(6, 130, 100);
    near.offset_x = Some(40);
    assert_eq!(Direction::RIGHT.find_nearest(&origin, vec![near]), None);
}

#[test]
fn windows_share_their_group() {
    let gm = GroupManager::new(vec![
        group(0, Axis::VERTICAL, vec![7, 8, 9]),
        group(1, Axis::HORIZONTAL, vec![4, 5]),
    ]);
    assert_eq!(
        gm.calculate_window_positions(vec![0], &vec![7, 8, 9]),
        vec![(7, rect(0, 0, 333, 600)), (8, rect(333, 0, 666, 600)), (9, rect(666, 0, 999, 600))]
    );
    // Windows that are not manageable take no slice.
    assert_eq!(
        gm.calculate_window_positions(vec![1, 1], &vec![5]),
        vec![(5, rect(0, 0, 1000, 600))]
    );
    // No group listed: all of them.
    assert_eq!(gm.calculate_window_positions(Vec::new(), &vec![7, 4]).len(), 2);
    assert_eq!(
        gm.calculate_window_positions(vec![1], &vec![4, 5]),
        vec![(4, rect(0, 0, 1000, 300)), (5, rect(0, 300, 1000, 600))]
    );
}

#[test]
fn adding_and_removing_windows() {
    let mut gm = GroupManager::new(vec![group(0, Axis::VERTICAL, vec![7])]);
    let p = gm.add_window(0, 8, &vec![7, 8]);
    assert_eq!(p, vec![(7, rect(0, 0, 500, 600)), (8, rect(500, 0, 1000, 600))]);
    assert_eq!(gm.add_window(0, 8, &vec![7, 8]), Vec::new());
    assert_eq!(gm.num_hwnds(), 2);
    assert_eq!(gm.get_window_index_in_group(0, 8), 1);
    let p = gm.remove_window(7, &vec![7, 8]);
    assert_eq!(p, vec![(8, rect(0, 0, 1000, 600))]);
    assert_eq!(gm.managed_hwnds(), vec![8]);
    let p = gm.add_window_direction(0, 6, &Direction::RIGHT, &vec![6, 8]);
    assert_eq!(p, vec![(6, rect(0, 0, 500, 600)), (8, rect(500, 0, 1000, 600))]);
}

#[test]
fn swapping_windows() {
    let mut gm = GroupManager::new(vec![
        group(0, Axis::VERTICAL, vec![7, 8]),
        group(1, Axis::VERTICAL, vec![9]),
    ]);
    assert_eq!(gm.swap_windows(7, 8), vec![0]);
    assert_eq!(gm.hwnds_from_groups(&vec![0]), vec![8, 7]);
    assert_eq!(gm.swap_windows(7, 9), vec![0, 1]);
    assert_eq!(gm.hwnds_from_groups(&vec![0, 1]), vec![8, 9, 7]);
    assert_eq!(gm.group_for_hwnd(7), 1);
}

#[test]
fn swapping_twice_gives_the_groups_back() {
    let mut gm = GroupManager::new(vec![
        group(0, Axis::VERTICAL, vec![7, 8]),
        group(1, Axis::VERTICAL, vec![9]),
    ]);
    gm.swap_windows(8, 9);
    assert_eq!(gm.hwnds_from_groups(&vec![0, 1]), vec![7, 9, 8]);
    gm.swap_windows(8, 9);
    assert_eq!(gm.hwnds_from_groups(&vec![0]), vec![7, 8]);
    assert_eq!(gm.hwnds_from_groups(&vec![1]), vec![9]);
}

#[test]
fn validation_leaves_each_window_in_its_first_group() {
    let mut gm = GroupManager::new(vec![
        group(0, Axis::VERTICAL, vec![7, 8]),
        group(1, Axis::VERTICAL, vec![8, 9, 9]),
    ]);
    let p = gm.validate();
    assert_eq!(gm.hwnds_from_groups(&vec![0]), vec![7, 8]);
    assert_eq!(gm.hwnds_from_groups(&vec![1]), vec![9, 9]);
    assert_eq!(gm.managed_hwnds(), vec![7, 8, 9, 9]);
    // Only the changed group is laid out again.
    assert_eq!(p, vec![(9, rect(0, 0, 500, 600)), (9, rect(500, 0, 1000, 600))]);
}

#[test]
fn toggling_a_workspace_twice_changes_nothing() {
    let mut wm = WorkspaceManager::new(vec![
        Workspace { index: 0, groups: vec![0], active: true },
        Workspace { index: 1, groups: vec![1], active: false },
    ]);
    wm.toggle_active(1);
    assert!(wm.is_active(1));
    wm.toggle_active(1);
    assert!(!wm.is_active(1));
    assert_eq!(wm.all(), vec![0, 1]);
    assert_eq!(wm.active_workspace(&vec![0, 1]), 0);
    assert_eq!(wm.workspace_for_group(1), 1);
    assert_eq!(*wm.groups_for_workspace(1), vec![1usize]);
}
