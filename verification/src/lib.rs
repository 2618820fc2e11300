//! Scheduling engine of a notification bot: one-time and weekly-recurring
//! timed actions, per-occurrence exception overrides, watermark-based firing
//! over poll windows, chained follow-up schedules, and a canonical text
//! document the schedule collection round-trips through.

pub mod clock;
pub mod codec;
pub mod digits;
pub mod message;
pub mod schedule;
pub mod scheduler;
