//! A pull-based scheduler of recurring jobs driven by cron expressions.
//!
//! Instants are counted in milliseconds since the Unix epoch (UTC).
//! The catch-up rule that decides which missed occurrences a job replays is
//! stated and proved in [`catch_up`]; the wait until the next occurrence in
//! [`wait`].

pub mod bindings;
pub mod catch_up;
pub mod job;
pub mod scheduler;
pub mod wait;
