//! Verified core of an offline rhythm-game data-store editor.
//!
//! The crate covers the algorithmic heart of the tool: extracting discrete
//! click events from a replay's raw input trace, greedily retiming a chart's
//! events to those clicks, reconciling records across key-sorted stores
//! without duplicates, and planning the fill of a per-chart difficulty-rating
//! cache. Binary codecs, file handling and the numeric difficulty evaluator
//! are external collaborators; they hand this library plain values.

pub mod align;
pub mod clicks;
pub mod config;
pub mod keys;
pub mod ratings;
pub mod reconcile;
