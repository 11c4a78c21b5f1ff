//! A minimal time tracker for projects and tasks: time entries are kept in a
//! SQLite database, optionally rounded to half hours for billing, merged per
//! task and day on request, and summarised per project and task.
//!
//! Instants are whole seconds since 1970-01-01T00:00:00Z (`i64`), days are
//! whole days since that date.
pub mod time;
pub mod duration;
pub mod ipc;
pub mod sql;
pub mod squash;
pub mod summary;
pub mod db;
pub mod state;
pub mod input;
pub mod report;
pub mod daily;
pub mod commands;
