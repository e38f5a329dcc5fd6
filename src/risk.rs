//! Disease-risk evaluation over a trailing window of readings.
use crate::aggregate::{in_window, readings_wf, reading_wf};
use crate::stamp::Stamp;
use crate::table::{
    parse_station_table, selected_cell_texts, table_readings, StationReading, TableError,
    CELL_SELECTOR, ROW_SELECTOR,
};
use vstd::prelude::*;

verus! {

/// Temperatures strictly above this, in thousandths of a degree, are warm.
pub const WARM_ABOVE: i64 = 17000;

/// Temperatures strictly below this, in thousandths of a degree, are warm.
pub const WARM_BELOW: i64 = 24000;

/// Relative humidity strictly above this, in thousandths of a percent, is humid.
pub const HUMID_ABOVE: i64 = 90000;

/// Hours of readings, back from now, that a risk scan looks at.
pub const RISK_WINDOW_HOURS: i64 = 24;

/// Both sample counts must exceed this for a risk alert.
pub const SAMPLE_THRESHOLD: usize = 12;

/// A condition that a reading may meet.
#[derive(Clone, Copy, Debug, PartialEq, Eq, Structural)]
pub enum Condition {
    /// Instantaneous temperature strictly between the warm bounds.
    Warm,
    /// Instantaneous humidity strictly above the humid bound.
    Humid,
}

/// Counts of distinct sample times in a window meeting each condition.
#[derive(Clone, Copy, Debug, PartialEq, Eq, Structural)]
pub struct RiskEvaluation {
    pub warm_samples: usize,
    pub humid_samples: usize,
}

pub open spec fn meets(c: Condition, r: StationReading) -> bool {
    match c {
        Condition::Warm => WARM_ABOVE < r.temperature.inst && r.temperature.inst < WARM_BELOW,
        Condition::Humid => r.humidity.inst > HUMID_ABOVE,
    }
}

/// The timestamps of the readings in the window that meet `c`.
pub open spec fn qualifying_stamps(
    rs: Seq<StationReading>,
    c: Condition,
    start: Stamp,
    end: Stamp,
) -> Set<Stamp>
    decreases rs.len(),
{
    if rs.len() == 0 {
        Set::empty()
    } else {
        let prev = qualifying_stamps(rs.drop_last(), c, start, end);
        let r = rs.last();
        if in_window(r, start, end) && meets(c, r) {
            prev.insert(r.stamp)
        } else {
            prev
        }
    }
}

pub open spec fn triggers(e: RiskEvaluation) -> bool {
    e.warm_samples > SAMPLE_THRESHOLD && e.humid_samples > SAMPLE_THRESHOLD
}

fn meets_exec(c: Condition, r: &StationReading) -> (b: bool)
    ensures
        b == meets(c, *r),
{
    match c {
        Condition::Warm => WARM_ABOVE < r.temperature.inst && r.temperature.inst < WARM_BELOW,
        Condition::Humid => r.humidity.inst > HUMID_ABOVE,
    }
}

fn contains_stamp(v: &Vec<Stamp>, s: Stamp) -> (b: bool)
    ensures
        b == v@.contains(s),
{
    let mut i: usize = 0;
    while i < v.len()
        invariant
            i <= v.len(),
            forall|t: int| 0 <= t < i ==> v@[t] != s,
        decreases v.len() - i,
    {
        if v[i] == s {
            return true;
        }
        i = i + 1;
    }
    false
}

/// Number of distinct timestamps within `[start, end]` at which a reading
/// meets `c`; readings sharing a timestamp count once.
pub fn count_qualifying_samples(
    readings: &Vec<StationReading>,
    c: Condition,
    start: Stamp,
    end: Stamp,
) -> (n: usize)
    requires
        start.wf(),
        end.wf(),
        readings_wf(readings@),
    ensures
        n == qualifying_stamps(readings@, c, start, end).len(),
{
    let ghost rs = readings@;
    let mut seen: Vec<Stamp> = Vec::new();
    let mut i: usize = 0;
    while i < readings.len()
        invariant
            i <= readings.len(),
            rs == readings@,
            readings_wf(rs),
            start.wf(),
            end.wf(),
            seen@.no_duplicates(),
            seen@.to_set() == qualifying_stamps(rs.take(i as int), c, start, end),
        decreases readings.len() - i,
    {
        let r = &readings[i];
        proof {
            assert(rs.take(i + 1).drop_last() =~= rs.take(i as int));
            assert(rs.take(i + 1).last() == *r);
            assert(reading_wf(rs[i as int]));
        }
        if start.not_after(&r.stamp) && r.stamp.not_after(&end) && meets_exec(c, r) {
            if !contains_stamp(&seen, r.stamp) {
                proof {
                    seen@.lemma_push_to_set_commute(r.stamp);
                }
                seen.push(r.stamp);
            } else {
                proof {
                    assert(seen@.to_set().insert(r.stamp) =~= seen@.to_set());
                }
            }
        }
        i = i + 1;
    }
    proof {
        assert(rs.take(i as int) =~= rs);
        seen@.unique_seq_to_set();
    }
    seen.len()
}

/// Counts the warm and the humid samples of the readings in `[start, end]`.
pub fn evaluate_risk(readings: &Vec<StationReading>, start: Stamp, end: Stamp) -> (e: RiskEvaluation)
    requires
        start.wf(),
        end.wf(),
        readings_wf(readings@),
    ensures
        e.warm_samples == qualifying_stamps(readings@, Condition::Warm, start, end).len(),
        e.humid_samples == qualifying_stamps(readings@, Condition::Humid, start, end).len(),
{
    RiskEvaluation {
        warm_samples: count_qualifying_samples(readings, Condition::Warm, start, end),
        humid_samples: count_qualifying_samples(readings, Condition::Humid, start, end),
    }
}

impl RiskEvaluation {
    /// Whether both counts exceed the threshold, which calls for an alert.
    pub fn triggers_fanout(&self) -> (b: bool)
        ensures
            b == triggers(*self),
    {
        self.warm_samples > SAMPLE_THRESHOLD && self.humid_samples > SAMPLE_THRESHOLD
    }
}

/// A second reading with the timestamp of a qualifying one adds no sample.
pub proof fn lemma_shared_timestamp_counts_once(
    rs: Seq<StationReading>,
    first: StationReading,
    second: StationReading,
    c: Condition,
    start: Stamp,
    end: Stamp,
)
    requires
        first.stamp == second.stamp,
        in_window(first, start, end),
        meets(c, first),
    ensures
        qualifying_stamps(rs.push(first).push(second), c, start, end) == qualifying_stamps(
            rs.push(first),
            c,
            start,
            end,
        ),
{
    assert(rs.push(first).drop_last() =~= rs);
    assert(rs.push(first).push(second).drop_last() =~= rs.push(first));
    assert(qualifying_stamps(rs.push(first), c, start, end).contains(first.stamp));
    assert(qualifying_stamps(rs.push(first), c, start, end).insert(second.stamp) =~= qualifying_stamps(
        rs.push(first),
        c,
        start,
        end,
    ));
}

/// Reads a rendered station page and counts its warm and humid samples
/// within `[start, end]`.
pub fn assess_station_page(html: &str, start: Stamp, end: Stamp) -> (r: Result<RiskEvaluation, TableError>)
    requires
        start.wf(),
        end.wf(),
    ensures
        match selected_cell_texts(html@, ROW_SELECTOR@, CELL_SELECTOR@) {
            None => r == Err::<RiskEvaluation, TableError>(TableError::InvalidSelector),
            Some(rows) => match table_readings(rows) {
                None => r == Err::<RiskEvaluation, TableError>(TableError::MalformedTimestamp),
                Some(rs) => r matches Ok(e) && e.warm_samples == qualifying_stamps(rs, Condition::Warm, start, end).len()
                    && e.humid_samples == qualifying_stamps(rs, Condition::Humid, start, end).len(),
            },
        },
{
    match parse_station_table(html) {
        Err(e) => Err(e),
        Ok(readings) => Ok(evaluate_risk(&readings, start, end)),
    }
}

proof fn lemma_qualifying_members(rs: Seq<StationReading>, c: Condition, start: Stamp, end: Stamp, s: Stamp)
    ensures
        qualifying_stamps(rs, c, start, end).contains(s) <==> exists|j: int|
            0 <= j < rs.len() && in_window(#[trigger] rs[j], start, end) && meets(c, rs[j]) && rs[j].stamp
                == s,
    decreases rs.len(),
{
    if rs.len() > 0 {
        let p = rs.drop_last();
        lemma_qualifying_members(p, c, start, end, s);
        if exists|j: int| 0 <= j < p.len() && in_window(#[trigger] p[j], start, end) && meets(c, p[j]) && p[j].stamp == s {
            let j = choose|j: int| 0 <= j < p.len() && in_window(#[trigger] p[j], start, end) && meets(c, p[j]) && p[j].stamp == s;
            assert(rs[j] == p[j]);
        }
        if exists|j: int| 0 <= j < rs.len() && in_window(#[trigger] rs[j], start, end) && meets(c, rs[j]) && rs[j].stamp == s {
            let j = choose|j: int| 0 <= j < rs.len() && in_window(#[trigger] rs[j], start, end) && meets(c, rs[j]) && rs[j].stamp == s;
            if j < p.len() {
                assert(p[j] == rs[j]);
            } else {
                assert(rs[j] == rs.last());
            }
        }
    }
}

/// Leaving out a reading whose timestamp another qualifying reading shares,
/// wherever the two stand, changes neither the qualifying timestamps nor
/// their count.
pub proof fn lemma_shared_timestamp_counts_once_anywhere(
    rs: Seq<StationReading>,
    c: Condition,
    start: Stamp,
    end: Stamp,
    i: int,
    j: int,
)
    requires
        0 <= i < rs.len(),
        0 <= j < rs.len(),
        i != j,
        rs[i].stamp == rs[j].stamp,
        in_window(rs[j], start, end),
        meets(c, rs[j]),
    ensures
        qualifying_stamps(rs, c, start, end) == qualifying_stamps(rs.remove(i), c, start, end),
        qualifying_stamps(rs, c, start, end).len() == qualifying_stamps(rs.remove(i), c, start, end).len(),
{
    let r = rs.remove(i);
    assert forall|s: Stamp| qualifying_stamps(rs, c, start, end).contains(s) == qualifying_stamps(
        r,
        c,
        start,
        end,
    ).contains(s) by {
        lemma_qualifying_members(rs, c, start, end, s);
        lemma_qualifying_members(r, c, start, end, s);
        if qualifying_stamps(rs, c, start, end).contains(s) {
            let k = choose|k: int| 0 <= k < rs.len() && in_window(#[trigger] rs[k], start, end) && meets(c, rs[k]) && rs[k].stamp == s;
            let k2 = if k == i { j } else { k };
            assert(in_window(rs[k2], start, end) && meets(c, rs[k2]) && rs[k2].stamp == s);
            if k2 < i {
                assert(r[k2] == rs[k2]);
            } else {
                assert(r[k2 - 1] == rs[k2]);
            }
        }
        if qualifying_stamps(r, c, start, end).contains(s) {
            let k = choose|k: int| 0 <= k < r.len() && in_window(#[trigger] r[k], start, end) && meets(c, r[k]) && r[k].stamp == s;
            if k < i {
                assert(r[k] == rs[k]);
            } else {
                assert(r[k] == rs[k + 1]);
            }
        }
    }
    assert(qualifying_stamps(rs, c, start, end) =~= qualifying_stamps(r, c, start, end));
}

/// How one station's turn in a risk scan went.
#[derive(Clone, Copy, Debug, PartialEq, Eq, Structural)]
pub enum StationResult {
    /// No browser session could be had.
    SessionUnavailable,
    /// The session was had, but the table page could not be fetched.
    FetchFailed,
    /// The page was fetched, but its table could not be read.
    TableUnreadable,
    /// The station's readings were counted.
    Assessed(RiskEvaluation),
}

/// What a risk scan does after a station's turn.
#[derive(Clone, Copy, Debug, PartialEq, Eq, Structural)]
pub enum ScanStep {
    /// Stop the whole run: without a session no station can be fetched.
    AbortRun,
    /// Go on with the next station.
    NextStation,
    /// Alert the station's growers, then go on with the next station.
    AlertGrowers,
}

/// A station's failure stays with that station, except a missing session,
/// which ends the run; a station alerts when both counts exceed the threshold.
pub fn after_station(result: StationResult) -> (step: ScanStep)
    ensures
        step == match result {
            StationResult::SessionUnavailable => ScanStep::AbortRun,
            StationResult::Assessed(e) => if triggers(e) {
                ScanStep::AlertGrowers
            } else {
                ScanStep::NextStation
            },
            _ => ScanStep::NextStation,
        },
{
    match result {
        StationResult::SessionUnavailable => ScanStep::AbortRun,
        StationResult::Assessed(e) => if e.triggers_fanout() {
            ScanStep::AlertGrowers
        } else {
            ScanStep::NextStation
        },
        _ => ScanStep::NextStation,
    }
}

} // verus!
