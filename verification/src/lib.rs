//! Interval-to-room assignment by a sweep over the interval endpoints.
//!
//! A batch of intervals is given as two columns, the starts and the ends.
//! Every interval that has both endpoints gets a room, a number from 1 on,
//! so that intervals which conflict never share a room and no more rooms are
//! used than intervals are open at the busiest instant. The rooms are found
//! in one pass over the sorted endpoints: an arriving interval takes the
//! smallest room that has been released, or a new one.
//!
//! `sweep::assign` is the assignment itself, `columns::sweep_line_assignment`
//! accepts columns of any of the eight integer types up to 64 bits, and
//! `guarantees` and `absence` hold what is proved of the result.

pub mod absence;
pub mod agenda;
pub mod columns;
pub mod coordinate;
pub mod error;
pub mod event;
pub mod guarantees;
pub mod pool;
pub mod sorting;
pub mod sweep;

pub use crate::columns::sweep_line_assignment;
pub use crate::columns::Column;
pub use crate::columns::SweepLineKwargs;
pub use crate::coordinate::Coordinate;
pub use crate::error::AssignError;
pub use crate::error::ShapeFault;
pub use crate::sweep::assign;
