pub mod adb;
pub mod browser;
pub mod cli;
pub mod clock;
pub mod display;
pub mod error;
pub mod num;
pub mod profile;
pub mod scanner;
pub mod state;
pub mod text;
pub mod transfer;
