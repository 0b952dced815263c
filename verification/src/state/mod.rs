//! Transfer state kept for resume and delta sync.
pub mod index;
pub mod resume;
