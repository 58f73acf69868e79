//! The input interception and binding engine of a modal hotkey daemon.
//!
//! Everything here is pure state and decisions: the caller owns the kernel
//! devices, feeds events in and performs the actions that come back.

pub mod config;
pub mod error;
pub mod input;
pub mod server;
