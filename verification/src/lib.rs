//! Keyboard hint navigation: the verified core of KeyNav.
pub mod text;
pub mod config;
pub mod geometry;
pub mod labels;
pub mod matcher;
pub mod session;
pub mod overlay;
pub mod hotkey;
pub mod settings;
pub mod autostart;
pub mod tray;
