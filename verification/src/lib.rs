//! A verified core for a two-phase earthquake oracle.
//!
//! Independent nodes each run the execution phase: normalize one fetched
//! GeoJSON record into a canonical observation (magnitude, location, time)
//! and serialize it.  A coordinator then runs the tally phase over the
//! collected reveal bytes: decode each reveal, skip malformed ones, and
//! select the observation of lower-median magnitude as the round's single
//! result, or report that no consensus exists.
//!
//! Magnitudes are held as exact fixed-point integers ([`decimal`]); the
//! JSON work at the byte boundary is delegated to serde_json behind the
//! trusted wrappers of [`wire`]; everything else - the decimal codec, the
//! observation round trip, the decode-and-skip loop, the median selection,
//! and the consensus laws - is verified.
pub mod decimal;
pub mod execution_phase;
pub mod observation;
pub mod tally_phase;
pub mod wire;
