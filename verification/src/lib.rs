//! Balanced two-way team assignment.
//!
//! A roster of rated players is split into two sides of equal size. Players
//! may be pinned to a side beforehand, each side may be asked to hold a
//! minimum number of players per position tag, and the difference between the
//! two sides' rating totals must stay below a threshold. With an odd roster
//! one player plays half a game on each side.
//!
//! Ratings are fixed-point integers: thousandths of a rating point.

pub mod error;
pub mod ingest;
pub mod laws;
pub mod materialize;
pub mod partition;
pub mod roster;
pub mod search;
pub mod sheet_link;
pub mod text;
