//! Tick marks for chart axes, computed exactly on an integer grid.
//!
//! An axis shows a [`Range`] of data and wants a handful of labelled ticks at
//! round values. [`calc_tick_spacing`] picks the distance between ticks: the
//! finest of the numbers `1`, `2` or `5` times a power of ten that keeps the
//! number of ticks at or below a target. A [`Ticker`] lists the ticks.
//!
//! All quantities are exact. Coordinates are whole numbers of a unit that the
//! caller chooses; a spacing may be a decimal fraction of that unit.

pub mod axes;
pub mod laws;
pub mod multiples;
pub mod powers;
pub mod range;
pub mod spacing;

pub use crate::axes::{calc_tick_spacing, Direction, Tick, Ticker, TickerIter};
pub use crate::range::Range;
pub use crate::spacing::Spacing;
