//! Persistence landscapes of birth-death intervals on an integer grid.
//!
//! An interval `[b, d]` spans a tent: the function that rises by one for each
//! unit from `b`, falls by one for each unit to `d`, and is zero outside. The
//! landscape `j + 1` of a set of intervals has over every place the
//! `j + 1`-th largest height of a tent. [`persistencelandscape::generate`]
//! sweeps across the tents and returns the first `k` landscapes as
//! polylines; [`barcode::filter`] drops intervals beforehand;
//! [`rpls::pairs_to_landscape`] does both, and [`rpls::l2_norm`] sums the
//! areas under the polylines.
//!
//! Coordinates are integers. Polylines come in half grid units, where peaks
//! and crossings have integer coordinates too, and areas in eighths of a grid
//! square.
//!
//! # What is proved
//!
//! - The sweep never breaks off, and returns the landscapes:
//!   [`correctness::lemma_generate_right`]. Every polyline goes strictly
//!   rightward, nowhere below the floor, from floor to floor, in unit steps,
//!   and has over every place, on the half grid and on every grid that
//!   refines it, the value of its landscape.
//! - No landscape is lower than the next, nor has more area under it:
//!   [`areas::lemma_generate_nested_all`].
//! - The landscapes do not depend on the order of the intervals:
//!   [`tally::lemma_generate_any_order`].
//! - The prefilter only drops intervals, and none where there are no more
//!   than landscapes are asked for:
//!   [`prefilter_laws::lemma_filter_only_drops`],
//!   [`prefilter_laws::lemma_filter_keeps_all`]. Where it drops none it keeps
//!   the landscapes: [`prefilter_laws::lemma_filter_keeps_landscapes`].
//!
//! # Modules
//!
//! [`birthdeath`], [`schedule`], [`barcode`], [`persistencelandscape`] and
//! [`rpls`] hold what runs. [`soundness`], [`order`], [`frontier`],
//! [`levels`], [`tracing`] and [`correctness`] hold, in this order, what
//! holds of the sweep at every step; [`areas`], [`tally`] and
//! [`prefilter_laws`] what follows.

pub mod areas;
pub mod barcode;
pub mod birthdeath;
pub mod correctness;
pub mod frontier;
pub mod levels;
pub mod order;
pub mod persistencelandscape;
pub mod prefilter_laws;
pub mod rpls;
pub mod schedule;
pub mod soundness;
pub mod tally;
pub mod tracing;
