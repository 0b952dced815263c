//! The device file tree and how listings are installed into it.
pub mod tree;
pub mod local;
pub mod walk;
