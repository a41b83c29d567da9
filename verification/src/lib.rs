//! Small verified algorithms: island counting on a grid, fence painting
//! gaps, buffer helpers for wide-string and byte buffers, path buffers,
//! file statistics and device-state decisions.

pub mod islands;
pub mod fences;
pub mod text;
pub mod buffers;
pub mod paths;
pub mod devices;
pub mod file_stats;
pub mod record_regex;
pub mod walk;
