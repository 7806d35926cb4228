//! Timetabling by chronological backtracking: named events are assigned to the cells of a
//! bounded grid of time slots and rooms so that every scheduling constraint holds.
//!
//! [`eval_constraints`] builds, for each event, the list of the constraints that name it;
//! [`create_schedule`] searches for a timetable. The search itself is a [`Scheduler`],
//! which can also be driven one attempt at a time.

pub mod evaluate;
pub mod index;
pub mod laws;
pub mod machine;
pub mod model;
pub mod names;
pub mod order;
pub mod schedule;
pub mod scheduler;
pub mod slot;
pub mod sound;

pub use index::eval_constraints;
pub use model::{Constraint, Event, Placement, Room, ScheduleError, Time};
pub use schedule::create_schedule;
pub use scheduler::Scheduler;
