//! The core of a keyboard-driven tiling window manager: windows are tiled
//! in groups, groups make up workspaces, each monitor has ten workspaces of
//! which one is shown, and key bindings read from a configuration trigger
//! actions on them.
pub mod text;
pub mod geometry;
pub mod axis;
pub mod direction;
pub mod group;
pub mod held;
pub mod workspace;
pub mod window;
pub mod monitor;
pub mod window_manager;
pub mod monitor_manager;
pub mod state_manager;
pub mod init;
pub mod neighbors;
pub mod actions;
pub mod config_action;
pub mod key;
pub mod key_manager;
pub mod event;
pub mod config;
pub mod window_control;
