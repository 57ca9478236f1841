//! The validated telemetry record, as it leaves the decoder.
//!
//! Coordinates and battery level are fixed-point integers in thousandths
//! of a unit (milli-units), bounded by [`POS_LIMIT`]. The status token is
//! kept as its UTF-8 bytes. `ts_ms` is the producer-supplied timestamp;
//! it is advisory only and never drives smoothing, eviction or staleness.

use crate::smoothing::POS_LIMIT;
use vstd::prelude::*;

verus! {

/// Mathematical model of one record.
pub ghost struct RecModel {
    pub id: int,
    pub x: int,
    pub y: int,
    pub z: int,
    pub battery: int,
    pub status: Seq<u8>,
    pub ts_ms: int,
}

/// One validated telemetry record.
pub struct TelemetryRecord {
    /// Stable unsigned identity of the producing entity.
    pub id: u32,
    /// Position, in milli-units.
    pub x: i64,
    pub y: i64,
    pub z: i64,
    /// Battery level, in thousandths of a percent point.
    pub battery: i64,
    /// Free-form status token, UTF-8 bytes.
    pub status: Vec<u8>,
    /// Producer-supplied timestamp in milliseconds; display metadata only.
    pub ts_ms: u128,
}

impl View for TelemetryRecord {
    type V = RecModel;

    open spec fn view(&self) -> RecModel {
        RecModel {
            id: self.id as int,
            x: self.x as int,
            y: self.y as int,
            z: self.z as int,
            battery: self.battery as int,
            status: self.status@,
            ts_ms: self.ts_ms as int,
        }
    }
}

/// All numeric fields lie within the representable fixed-point range.
pub open spec fn rec_model_valid(m: RecModel) -> bool {
    &&& -POS_LIMIT <= m.x <= POS_LIMIT
    &&& -POS_LIMIT <= m.y <= POS_LIMIT
    &&& -POS_LIMIT <= m.z <= POS_LIMIT
    &&& -POS_LIMIT <= m.battery <= POS_LIMIT
}

impl TelemetryRecord {
    /// All numeric fields lie within the representable fixed-point range.
    pub open spec fn valid(&self) -> bool {
        rec_model_valid(self@)
    }
}

} // verus!
