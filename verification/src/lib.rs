//! Muskingum flood-wave routing over exact rational arithmetic.
//!
//! The engine transforms an inflow hydrograph into the outflow hydrograph of a
//! river reach, optionally splitting the reach into cascaded sub-reaches.  All
//! flow values and routing coefficients are exact rationals, so every contract
//! states the mathematical recurrence itself rather than an approximation.

pub mod muskingum;
pub mod rational;
