//! A monthly office-day scheduler.
//!
//! The engine assigns a roster of employees to the five weekdays of a month:
//! employees with fixed weekdays are placed first, and the remaining
//! (flexible) employees are assigned a legal combination of weekdays matching
//! their personal quota, chosen to balance the daily head count while
//! avoiding weekdays the employee worked in recent months.

pub mod import;
pub mod laws;
pub mod schema;
pub mod scheduler;
