//! Resumable, single-step sorting state machines ("steppers").
//!
//! Each stepper owns a sequence of bar heights and exposes `step()`, which
//! performs one unit of algorithmic work, and `has_completed()`, which reports
//! whether the data has reached its final, sorted state. A caller can render
//! the data between steps; a completed stepper treats further `step()` calls
//! as no-ops.

pub mod bubble;
pub mod data;
pub mod insertion;
pub mod order;
pub mod selection;
