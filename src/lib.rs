//! Directory listing: flat listings and box-drawn trees, with optional
//! metadata columns and per-depth colours.
pub mod paint;
pub mod formatter;
pub mod timestamp;
pub mod file_ops;
pub mod commands;
pub mod logo;
