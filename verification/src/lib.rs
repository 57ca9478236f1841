//! Verified core of a telemetry fusion engine.
//!
//! Datagrams carrying telemetry records (position, battery, status) arrive
//! from many unreliable producers. This library decodes and validates the
//! wire format, merges each valid record into a per-entity state with
//! exponential smoothing, keeps a count- and age-bounded history trail per
//! entity, and hands out consistent snapshots. Positions and battery levels
//! are held as fixed-point integers in thousandths of a unit, so every step
//! of the arithmetic is verified exactly.

pub mod decode;
pub mod record;
pub mod smoothing;
pub mod store;
