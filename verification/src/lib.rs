//! Core of a hardware-monitor log ingester.
//!
//! The library turns the line sequence of a sensor-logging CSV export into a
//! sequence of hierarchically grouped records.  The exports are looser than
//! standard CSV: the header may repeat near the tail together with a
//! parent-title annotation row, the column count may drift by one mid-file,
//! and the final column tends to carry byte-order marks, stray whitespace and
//! one-sided quoting.  Every transformation in this crate carries a contract
//! that pins its result down, so ingestion is a proven-pure function of the
//! file's lines and the schema snapshot.

use vstd::prelude::*;

pub mod engine;
pub mod errors;
pub mod laws;
pub mod models;
pub mod normalize;
pub mod overlay;
pub mod resolver;
pub mod search;
pub mod text;
pub mod validate;

verus! {

} // verus!
