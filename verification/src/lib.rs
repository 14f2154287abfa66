//! Production scheduling engine: schedules and their constraints, time fences,
//! working calendars and the splitting of operations along them, input
//! validation, rescheduling after disruptions, dispatching rules, and schedule
//! indicators, with their behaviour stated in contracts and proved.

pub mod text;
pub mod strings;
pub mod error;
pub mod job;
pub mod task;
pub mod constraint;
pub mod schedule;
pub mod time_fence;
pub mod calendar;
pub mod task_splitter;
pub mod validation;
pub mod reschedule;
pub mod rescheduler;
pub mod dispatching;
pub mod engine;
pub mod kpi;
pub mod simple;
pub mod pegging;
pub mod dynamic;
pub mod setup;
pub mod campaign;
