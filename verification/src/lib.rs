//! Decoder for the serial telemetry protocol of French residential
//! electricity meters ("Teleinfo").
//!
//! The crate scans a raw byte stream for protocol frames, verifies the
//! per-group checksums, decodes each label/value group into a typed tag,
//! and folds one frame into a flat information record for the
//! "Heures Creuses" tariff plan.

pub mod frame;
pub mod hc;
pub mod laws;
pub mod model;
