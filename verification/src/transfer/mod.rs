//! Moving files off the device: archive streams, single pulls, worker jobs.
pub mod hash;
pub mod plan;
pub mod pool;
pub mod recv;
pub mod tar;
