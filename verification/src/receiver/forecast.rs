//! A projected consumption, as it is handed in and shown.

use vstd::prelude::*;

use crate::binary32::Binary32;

verus! {

/// One predicted point in time.
pub struct ForecastPoint {
    pub at: String,
    pub predicted_watts: Binary32,
    pub lower_bound_watts: Option<Binary32>,
    pub upper_bound_watts: Option<Binary32>,
}

/// A multi-step forecast of power consumption.
pub struct ForecastSeries {
    pub generated_at: String,
    pub horizon_seconds: Binary32,
    pub model_name: String,
    pub points: Vec<ForecastPoint>,
    pub mae: Option<Binary32>,
}

} // verus!
