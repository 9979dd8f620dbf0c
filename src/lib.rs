//! Winner determination for a sealed-bid auction of a circular track's
//! location-by-time grid.
//!
//! Operators bid for exact sets of grid cells; the resolver picks the
//! conflict-free set of bids of greatest total value and assigns each cell of
//! an accepted bid to its company.

pub mod grid;
pub mod auction;
pub mod timetable;
pub mod laws;
pub mod render;

pub use grid::{Bid, GridConfig, Section};
pub use auction::{resolve_bids, resolve_with, Allocation, Assignment, ResolveError, Strategy};
pub use timetable::{generate_bid, ScheduleError};
pub use render::{allocation_view, bid_view};
