//! Verified core of a layer-shell widget daemon: the configuration
//! expression language, the value parsers of the configuration format,
//! the smart-variable helpers, the IPC wire format and the notification
//! and tray-menu helpers.

pub mod config;
pub mod daemon;
pub mod iconlookup;
pub mod ipc;
pub mod notification;
pub mod number;
pub mod render;
pub mod text;
pub mod tray;
