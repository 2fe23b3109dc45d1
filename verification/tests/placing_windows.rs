use fenestra::geometry::Rect;
use fenestra::window::{Window, WindowInfo};
use fenestra::window_manager::{PositionUpdate, WindowManager};

fn rect(left: i32, top: i32, right: i32, bottom: i32) -> Rect {
    Rect { left, top, right, bottom }
}

fn framed_window(hwnd: isize, style: i32) -> Window {
    Window {
        title: "framed".to_string(),
        hwnd,
        thread_id: 1,
        process_id: 1,
        rect: rect(0, 0, 110, 120),
        bounding_rect: rect(0, 0, 110, 120),
        border_thickness: 2,
        info: WindowInfo {
            window_rect: rect(0, 0, 110, 120),
            client_rect: rect(5, 20, 105, 115),
            window_borders_x: 0,
            window_borders_y: 0,
        },
        dpi: 96,
        style,
        extended_style: 0,
        focused: false,
    }
}

#[test]
fn a_window_is_grown_by_its_frame() {
    let mut wm = WindowManager::new(vec![framed_window(1, 0)]);
    assert_eq!(
        wm.set_position(1, rect(100, 100, 500, 400), 96),
        PositionUpdate::Apply { restore_first: false, rect: rect(93, 78, 507, 407), dpi_changed: false }
    );
    assert_eq!(
        wm.set_position(1, rect(100, 100, 500, 400), 120),
        PositionUpdate::Apply { restore_first: false, rect: rect(93, 78, 507, 407), dpi_changed: true }
    );
}

#[test]
fn maximized_windows_are_restored_and_minimized_ones_skipped() {
    let mut wm = WindowManager::new(vec![framed_window(1, 0x0100_0000), framed_window(2, 0x2000_0000)]);
    match wm.set_position(1, rect(0, 0, 10, 10), 96) {
        PositionUpdate::Apply { restore_first, .. } => assert!(restore_first),
        PositionUpdate::Skip => panic!("not minimized"),
    }
    assert_eq!(wm.set_position(2, rect(0, 0, 10, 10), 96), PositionUpdate::Skip);
}

#[test]
fn managed_windows_and_their_titles() {
    let mut wm = WindowManager::new(vec![framed_window(1, 0), framed_window(2, 0x2000_0000)]);
    assert_eq!(wm.managed_hwnds(false), vec![1, 2]);
    assert_eq!(wm.managed_hwnds(true), vec![1]);
    assert!(wm.has_hwnd(2));
    assert!(!wm.has_hwnd(3));
    // Adding a window again replaces it; a minimized one is not to be laid out.
    assert!(wm.add_window(Some(framed_window(1, 0))));
    assert!(!wm.add_window(Some(framed_window(3, 0x2000_0000))));
    assert!(!wm.add_window(None));
    assert_eq!(wm.managed_hwnds(false), vec![2, 1, 3]);
}

#[test]
fn checking_windows_against_the_system() {
    let mut wm = WindowManager::new(vec![framed_window(1, 0), framed_window(2, 0)]);
    let (removed, added) = wm.validate_windows(&vec![true, false], vec![framed_window(5, 0), framed_window(1, 0)]);
    assert_eq!(removed, vec![2]);
    assert_eq!(added, vec![5]);
    assert_eq!(wm.managed_hwnds(false), vec![5, 1]);
    let mut wm = WindowManager::new(vec![framed_window(1, 0)]);
    let (removed, added) = wm.validate_windows(&vec![true], Vec::new());
    assert!(removed.is_empty() && added.is_empty());
    // Windows gone anywhere in the list are all removed, each once.
    let mut wm = WindowManager::new(vec![framed_window(1, 0), framed_window(2, 0), framed_window(3, 0)]);
    let (removed, added) = wm.validate_windows(&vec![false, true, false], Vec::new());
    assert_eq!(removed, vec![1, 3]);
    assert!(added.is_empty());
    assert_eq!(wm.managed_hwnds(false), vec![2]);
}

fn plain_window(hwnd: isize, title: &str, thread: u32) -> Window {
    let mut w = framed_window(hwnd, 0);
    w.title = title.to_string();
    w.thread_id = thread;
    w.process_id = thread + 100;
    w
}

#[test]
fn enumerated_windows_are_sorted_and_deduplicated() {
    let found = vec![
        plain_window(5, "a", 1),
        plain_window(3, "b", 2),
        plain_window(4, "b", 3),
        plain_window(7, "c", 4),
        plain_window(7, "d", 5),
    ];
    let hwnds: Vec<isize> = fenestra::window_manager::distinct_windows(found).iter().map(|w| w.hwnd).collect();
    assert_eq!(hwnds, vec![3, 5, 7]);
    let titles: Vec<String> = fenestra::window_manager::distinct_windows(vec![
        plain_window(9, "x", 1),
        plain_window(8, "y", 1),
    ])
    .iter()
    .map(|w| w.title.clone())
    .collect();
    assert_eq!(titles, vec!["y".to_string()]);
}
