//! A daily todo list kept as one small text file per day.
//!
//! The engine holds one day's items under dense ordinals, writes and reads
//! the line-based file format, carries unfinished work over from the day
//! before, merges several days into one view, and serialises access to a
//! log shared between concurrent callers.

pub mod text;
pub mod todoer;
pub mod format;
pub mod config;
pub mod todoers;
pub mod date;
pub mod shared;
