//! ADB device model, command texts and the parsers for what the device prints.
pub mod client;
pub mod shell;
pub mod sync_protocol;
