//! Climate buckets attached once to a logged disease occurrence.
use crate::aggregate::{aggregate, is_aggregation, readings_wf, Bucket, Quantity};
use crate::stamp::Stamp;
use crate::table::StationReading;
use vstd::prelude::*;

verus! {

/// Days of station data before an occurrence that its buckets cover.
pub const BACKFILL_DAYS: i64 = 12;

/// The bucket rows to store for an occurrence.
#[derive(Clone, Debug)]
pub struct BackfillPlan {
    pub temperatures: Vec<Bucket>,
    pub humidities: Vec<Bucket>,
}

/// Plans the buckets of an occurrence stamped `occurrence`, from readings
/// starting at `window_start`. An occurrence that already has bucket rows
/// gets none: the run is guarded by their existence. Readings after the
/// occurrence are left out.
pub fn plan_backfill(
    already_has_buckets: bool,
    readings: &Vec<StationReading>,
    window_start: Stamp,
    occurrence: Stamp,
) -> (p: BackfillPlan)
    requires
        window_start.wf(),
        occurrence.wf(),
        readings_wf(readings@),
    ensures
        already_has_buckets ==> p.temperatures@.len() == 0 && p.humidities@.len() == 0,
        !already_has_buckets ==> is_aggregation(
            readings@,
            Quantity::TemperatureFloor,
            window_start,
            occurrence,
            p.temperatures@,
        ) && is_aggregation(readings@, Quantity::HumidityRaw, window_start, occurrence, p.humidities@),
{
    if already_has_buckets {
        BackfillPlan { temperatures: Vec::new(), humidities: Vec::new() }
    } else {
        BackfillPlan {
            temperatures: aggregate(readings, Quantity::TemperatureFloor, window_start, occurrence),
            humidities: aggregate(readings, Quantity::HumidityRaw, window_start, occurrence),
        }
    }
}

} // verus!
