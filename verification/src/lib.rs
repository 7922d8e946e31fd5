//! Communication-link quality between two radio endpoints, in whole numbers.
//!
//! An endpoint gathers antennas. Its power is
//! `strongest * (total / strongest) ^ E`, where `E` is the average of the
//! antennas' combinability exponents, each weighted by its antenna's power.
//! The reach of a link is the square root of the product of both sides'
//! powers, and the strength of its signal falls from full at the origin to
//! none at the reach along the curve `3 r^2 - 2 r^3`.
//!
//! Powers are whole units and distances whole metres. Exponents and strengths
//! are whole millionths. Sums, the strongest antenna, square roots and the
//! curve are computed exactly, or rounded down as their contracts say. The
//! fractional power in the formula has no whole-number form: `endpoint` gives
//! its terms, `formula` says in whole numbers where it lies, and the caller
//! evaluates it.

pub mod antenna;
pub mod args;
pub mod catalog;
pub mod distance;
pub mod endpoint;
pub mod error;
pub mod formula;
pub mod range;
pub mod report;
pub mod text;
pub mod usecase;
pub mod util;
pub mod vessel;
