//! The verified core of `quiet`, a notification daemon and notification center: how
//! notifications are filed, grouped, shown, expired, saved and dismissed.
pub mod text;
pub mod data;
pub mod config;
pub mod ipc;
pub mod engine;
pub mod icon;
pub mod ui;
