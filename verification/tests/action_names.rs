use fenestra::actions::{
    ActionParseError, CloseWindow, FocusWindow, FocusWorkspace, MoveToWorkspace, MoveWindow,
    SetSplitAxis, WindowManagerAction,
};
use fenestra::axis::Axis;
use fenestra::config_action;
use fenestra::direction::Direction;

#[test]
fn axis_names_round_trip() {
    for a in [Axis::HORIZONTAL, Axis::VERTICAL] {
        assert_eq!(Axis::from_str(a.to_string().as_str()), Ok(a));
    }
    assert_eq!(Axis::HORIZONTAL.to_string(), "horizontal");
    assert_eq!(Axis::from_str("Vertical"), Ok(Axis::VERTICAL));
    assert_eq!(Axis::from_str("diagonal"), Err(()));
}

#[test]
fn direction_names_round_trip() {
    for d in [Direction::LEFT, Direction::DOWN, Direction::UP, Direction::RIGHT] {
        assert_eq!(Direction::from_str(d.to_string().as_str()), Ok(d));
    }
    assert_eq!(Direction::from_str("rIgHt"), Ok(Direction::RIGHT));
    assert_eq!(Direction::from_str(" left"), Err(()));
}

#[test]
fn focus_window_names() {
    assert_eq!(
        FocusWindow::from_str("focus_window_left"),
        Ok(FocusWindow { direction: Direction::LEFT })
    );
    assert_eq!(FocusWindow::from_str("move_window_left"), Err(ActionParseError::Rejected));
    // The keyword is there but not at the start.
    assert_eq!(FocusWindow::from_str("x_focus_window_left"), Err(ActionParseError::Malformed));
    // An unknown direction is rejected.
    assert_eq!(FocusWindow::from_str("focus_window_sideways"), Err(ActionParseError::Rejected));
}

#[test]
fn move_window_names() {
    assert_eq!(
        MoveWindow::from_str("MOVE_WINDOW_DOWN"),
        Ok(MoveWindow { direction: Direction::DOWN })
    );
    assert_eq!(MoveWindow::from_str("close_window"), Err(ActionParseError::Rejected));
}

#[test]
fn close_window_names() {
    assert_eq!(CloseWindow::from_str("close_window"), Ok(CloseWindow {}));
    assert_eq!(CloseWindow::from_str("please_CLOSE_WINDOW_now"), Ok(CloseWindow {}));
    assert_eq!(CloseWindow::from_str("close"), Err(ActionParseError::Rejected));
}

#[test]
fn split_axis_names() {
    assert_eq!(
        SetSplitAxis::from_str("split_on_axis_vertical"),
        Ok(SetSplitAxis { axis: Axis::VERTICAL })
    );
    assert_eq!(
        SetSplitAxis::from_str("split_on_axis_round"),
        Err(ActionParseError::InvalidArgument)
    );
    assert_eq!(SetSplitAxis::from_str("focus_up"), Err(ActionParseError::Rejected));
}

#[test]
fn workspace_numbers() {
    assert_eq!(FocusWorkspace::from_str("focus_workspace_3"), Ok(FocusWorkspace { id: 3 }));
    assert_eq!(FocusWorkspace::from_str("focus_workspace_+7"), Ok(FocusWorkspace { id: 7 }));
    assert_eq!(
        FocusWorkspace::from_str("focus_workspace_x"),
        Err(ActionParseError::InvalidArgument)
    );
    assert_eq!(
        FocusWorkspace::from_str("focus_workspace_"),
        Err(ActionParseError::InvalidArgument)
    );
    assert_eq!(MoveToWorkspace::from_str("send_to_workspace_0"), Ok(MoveToWorkspace { id: 0 }));
    assert_eq!(
        MoveToWorkspace::from_str("send_to_workspace_4294967296"),
        Err(ActionParseError::InvalidArgument)
    );
    assert_eq!(
        MoveToWorkspace::from_str("send_to_workspace_4294967295"),
        Ok(MoveToWorkspace { id: 4294967295 })
    );
}

#[test]
fn workspace_zero_is_the_tenth() {
    assert_eq!(FocusWorkspace { id: 0 }.workspace_index(), 9);
    assert_eq!(FocusWorkspace { id: 1 }.workspace_index(), 0);
    assert_eq!(FocusWorkspace { id: 9 }.workspace_index(), 8);
    assert_eq!(MoveToWorkspace { id: 0 }.workspace_index(), 9);
    assert_eq!(MoveToWorkspace { id: 5 }.workspace_index(), 4);
}

#[test]
fn window_manager_action_names() {
    assert_eq!(
        WindowManagerAction::from_str("focus_window_up"),
        Ok(WindowManagerAction::FocusWindow(FocusWindow { direction: Direction::UP }))
    );
    assert_eq!(
        WindowManagerAction::from_str("Move_Window_Right"),
        Ok(WindowManagerAction::MoveWindow(MoveWindow { direction: Direction::RIGHT }))
    );
    assert_eq!(
        WindowManagerAction::from_str("focus_workspace_2"),
        Ok(WindowManagerAction::FocusWorkspace(FocusWorkspace { id: 2 }))
    );
    assert_eq!(
        WindowManagerAction::from_str("send_to_workspace_10"),
        Ok(WindowManagerAction::MoveToWorkspace(MoveToWorkspace { id: 10 }))
    );
    assert_eq!(
        WindowManagerAction::from_str("Close_Window"),
        Ok(WindowManagerAction::CloseWindow(CloseWindow {}))
    );
    assert_eq!(WindowManagerAction::from_str("focus_left"), Err(ActionParseError::Rejected));
    // A known keyword with an unreadable direction stops the program.
    assert_eq!(
        WindowManagerAction::from_str("focus_window_nowhere"),
        Err(ActionParseError::Malformed)
    );
    assert_eq!(
        WindowManagerAction::from_str("send_to_workspace_two"),
        Err(ActionParseError::InvalidArgument)
    );
}

#[test]
fn config_focus_actions() {
    assert_eq!(
        config_action::WindowManagerAction::from_str("focus_left"),
        Ok(config_action::WindowManagerAction::FocusLeft)
    );
    assert_eq!(
        config_action::WindowManagerAction::from_str("FOCUS_RIGHT"),
        Ok(config_action::WindowManagerAction::FocusRight)
    );
    assert_eq!(config_action::WindowManagerAction::from_str("focus_sideways"), Err(()));
    assert_eq!(format!("{:?}", config_action::WindowManagerAction::FocusDown), "FocusDown");
}
