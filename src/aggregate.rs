//! Bucketing of readings by calendar day and quantized value, counting
//! distinct sample times per bucket.
use crate::stamp::{lemma_day_rank_order, Day, Stamp};
use crate::table::StationReading;
use vstd::prelude::*;
use vstd::set_lib::{lemma_int_range, lemma_len_subset, set_int_range};

verus! {

/// Minutes in a day: the most distinct sample times a bucket can count.
pub const MINUTES_PER_DAY: usize = 1440;

/// Bound on the magnitude of a measure, in thousandths, that the
/// aggregation accepts.
pub const MAX_MEASURE: i64 = 1_000_000_000_000_000;

/// The variable that a bucket groups readings by.
#[derive(Clone, Copy, Debug, PartialEq, Eq, Structural)]
pub enum Quantity {
    /// Instantaneous temperature, floored to the whole degree.
    TemperatureFloor,
    /// Instantaneous relative humidity, as read.
    HumidityRaw,
}

/// The count of distinct sample times of one calendar day at which the
/// quantized variable had one value. The value is in thousandths.
#[derive(Clone, Copy, Debug, PartialEq, Eq, Structural)]
pub struct Bucket {
    pub day: Day,
    pub value: i64,
    pub count: usize,
}

pub open spec fn measure_wf(v: int) -> bool {
    -MAX_MEASURE < v < MAX_MEASURE
}

pub open spec fn reading_wf(r: StationReading) -> bool {
    &&& r.stamp.wf()
    &&& measure_wf(r.temperature.inst as int)
    &&& measure_wf(r.humidity.inst as int)
}

pub open spec fn readings_wf(rs: Seq<StationReading>) -> bool {
    forall|i: int| 0 <= i < rs.len() ==> reading_wf(#[trigger] rs[i])
}

/// A value in thousandths floored to a whole unit, still in thousandths.
pub open spec fn floor_to_unit(v: int) -> int {
    (v / 1000) * 1000
}

pub open spec fn quantized(q: Quantity, r: StationReading) -> int {
    match q {
        Quantity::TemperatureFloor => floor_to_unit(r.temperature.inst as int),
        Quantity::HumidityRaw => r.humidity.inst as int,
    }
}

/// A reading stamped within `[start, end]`.
pub open spec fn in_window(r: StationReading, start: Stamp, end: Stamp) -> bool {
    start.rank() <= r.stamp.rank() && r.stamp.rank() <= end.rank()
}

pub open spec fn has_key(r: StationReading, q: Quantity, day: Day, value: int) -> bool {
    r.stamp.day_view() == day && quantized(q, r) == value
}

/// The times of day (minutes since midnight) of the readings in the window
/// that fall into the bucket of `day` and `value`.
pub open spec fn sample_times(
    rs: Seq<StationReading>,
    q: Quantity,
    start: Stamp,
    end: Stamp,
    day: Day,
    value: int,
) -> Set<int>
    decreases rs.len(),
{
    if rs.len() == 0 {
        Set::empty()
    } else {
        let prev = sample_times(rs.drop_last(), q, start, end, day, value);
        let r = rs.last();
        if in_window(r, start, end) && has_key(r, q, day, value) {
            prev.insert(r.stamp.minute_of_day())
        } else {
            prev
        }
    }
}

pub open spec fn bucket_before(a: Bucket, b: Bucket) -> bool {
    a.day.rank() < b.day.rank() || (a.day.rank() == b.day.rank() && a.value < b.value)
}

/// Strictly ascending by day, then by value.
pub open spec fn sorted_buckets(bs: Seq<Bucket>) -> bool {
    forall|i: int, j: int| 0 <= i < j < bs.len() ==> bucket_before(#[trigger] bs[i], #[trigger] bs[j])
}

/// `out` is the bucket list of the readings `rs` in the window by `q`: one
/// bucket per key that a reading in the window has, in ascending key order,
/// each counting the distinct times of day of its readings.
pub open spec fn is_aggregation(
    rs: Seq<StationReading>,
    q: Quantity,
    start: Stamp,
    end: Stamp,
    out: Seq<Bucket>,
) -> bool {
    &&& sorted_buckets(out)
    &&& forall|j: int|
        0 <= j < out.len() ==> {
            &&& (#[trigger] out[j]).day.wf()
            &&& out[j].count > 0
            &&& out[j].count == sample_times(rs, q, start, end, out[j].day, out[j].value as int).len()
        }
    &&& forall|i: int|
        0 <= i < rs.len() && in_window(#[trigger] rs[i], start, end) ==> exists|j: int|
            0 <= j < out.len() && has_key(rs[i], q, (#[trigger] out[j]).day, out[j].value as int)
}

pub open spec fn as_ints(s: Seq<u16>) -> Seq<int> {
    s.map_values(|m: u16| m as int)
}

spec fn bucket_tracks(
    b: Bucket,
    ts: Seq<u16>,
    rs: Seq<StationReading>,
    q: Quantity,
    start: Stamp,
    end: Stamp,
) -> bool {
    &&& b.day.wf()
    &&& as_ints(ts).no_duplicates()
    &&& as_ints(ts).to_set() == sample_times(rs, q, start, end, b.day, b.value as int)
    &&& b.count == ts.len()
    &&& b.count > 0
}

proof fn lemma_sample_times_step(
    rs: Seq<StationReading>,
    r: StationReading,
    q: Quantity,
    start: Stamp,
    end: Stamp,
    day: Day,
    value: int,
)
    ensures
        sample_times(rs.push(r), q, start, end, day, value) == if in_window(r, start, end) && has_key(
            r,
            q,
            day,
            value,
        ) {
            sample_times(rs, q, start, end, day, value).insert(r.stamp.minute_of_day())
        } else {
            sample_times(rs, q, start, end, day, value)
        },
{
    assert(rs.push(r).drop_last() =~= rs);
}

/// Each sample time of a bucket comes from a reading in the window with its key.
proof fn lemma_sample_witness(
    rs: Seq<StationReading>,
    q: Quantity,
    start: Stamp,
    end: Stamp,
    day: Day,
    value: int,
    m: int,
)
    requires
        sample_times(rs, q, start, end, day, value).contains(m),
    ensures
        exists|t: int|
            0 <= t < rs.len() && in_window(#[trigger] rs[t], start, end) && has_key(rs[t], q, day, value),
    decreases rs.len(),
{
    let prev = rs.drop_last();
    if sample_times(prev, q, start, end, day, value).contains(m) {
        lemma_sample_witness(prev, q, start, end, day, value, m);
        let t = choose|t: int|
            0 <= t < prev.len() && in_window(#[trigger] prev[t], start, end) && has_key(prev[t], q, day, value);
        assert(rs[t] == prev[t]);
    } else {
        assert(rs[rs.len() - 1] == rs.last());
    }
}

fn quantize(q: Quantity, r: &StationReading) -> (v: i64)
    requires
        reading_wf(*r),
    ensures
        v == quantized(q, *r),
        -MAX_MEASURE - 1000 < v < MAX_MEASURE,
{
    match q {
        Quantity::HumidityRaw => r.humidity.inst,
        Quantity::TemperatureFloor => {
            let t = r.temperature.inst;
            if t >= 0 {
                (t / 1000) * 1000
            } else {
                let n = -t;
                let c = (n + 999) / 1000;
                proof {
                    assert(1000 * c <= n + 999 && n + 999 < 1000 * c + 1000);
                    assert(-1000 * c <= t && t < -1000 * c + 1000);
                    assert((t as int) / 1000 == -c);
                }
                -(c * 1000)
            }
        },
    }
}

fn key_before(b: &Bucket, day: Day, value: i64) -> (r: bool)
    requires
        b.day.wf(),
        day.wf(),
    ensures
        r == (b.day.rank() < day.rank() || (b.day.rank() == day.rank() && b.value < value)),
{
    proof {
        lemma_day_rank_order(b.day.year as int, b.day.month as int, b.day.day as int,
            day.year as int, day.month as int, day.day as int);
    }
    if b.day.precedes(&day) {
        true
    } else if b.day == day {
        b.value < value
    } else {
        false
    }
}

fn contains_minute(ts: &Vec<u16>, m: u16) -> (r: bool)
    ensures
        r == as_ints(ts@).contains(m as int),
{
    let mut i: usize = 0;
    while i < ts.len()
        invariant
            i <= ts.len(),
            forall|t: int| 0 <= t < i ==> ts@[t] != m,
        decreases ts.len() - i,
    {
        if ts[i] == m {
            proof {
                assert(as_ints(ts@)[i as int] == m as int);
            }
            return true;
        }
        i = i + 1;
    }
    proof {
        if as_ints(ts@).contains(m as int) {
            let t = choose|t: int| 0 <= t < as_ints(ts@).len() && as_ints(ts@)[t] == m as int;
            assert(ts@[t] == m);
        }
    }
    false
}

/// Buckets the readings stamped within `[start, end]` by day and by `q`.
#[verifier::rlimit(80)]
pub fn aggregate(readings: &Vec<StationReading>, q: Quantity, start: Stamp, end: Stamp) -> (out: Vec<
    Bucket,
>)
    requires
        start.wf(),
        end.wf(),
        readings_wf(readings@),
    ensures
        is_aggregation(readings@, q, start, end, out@),
        out.len() <= readings.len(),
        forall|j: int| 0 <= j < out.len() ==> (#[trigger] out@[j]).count <= MINUTES_PER_DAY,
{
    let ghost rs = readings@;
    let mut buckets: Vec<Bucket> = Vec::new();
    let mut times: Vec<Vec<u16>> = Vec::new();
    let mut i: usize = 0;
    while i < readings.len()
        invariant
            i <= readings.len(),
            rs == readings@,
            readings_wf(rs),
            start.wf(),
            end.wf(),
            buckets.len() == times.len(),
            buckets.len() <= i,
            sorted_buckets(buckets@),
            forall|j: int|
                0 <= j < buckets.len() ==> bucket_tracks(
                    #[trigger] buckets@[j],
                    times@[j]@,
                    rs.take(i as int),
                    q,
                    start,
                    end,
                ),
            forall|t: int|
                0 <= t < i && in_window(#[trigger] rs[t], start, end) ==> exists|j: int|
                    0 <= j < buckets.len() && has_key(rs[t], q, (#[trigger] buckets@[j]).day, buckets@[j].value as int),
        decreases readings.len() - i,
    {
        let r = &readings[i];
        let ghost p = rs.take(i as int);
        proof {
            assert(rs.take(i + 1) =~= p.push(*r));
            assert(reading_wf(rs[i as int]));
        }
        if start.not_after(&r.stamp) && r.stamp.not_after(&end) {
            let day = r.stamp.day();
            let value = quantize(q, r);
            let minute = r.stamp.minute_of_day_exec();
            let mut pos: usize = 0;
            while pos < buckets.len()
                invariant
                    pos <= buckets.len(),
                    buckets.len() == times.len(),
                    day.wf(),
                    forall|j: int| 0 <= j < buckets.len() ==> (#[trigger] buckets@[j]).day.wf(),
                    forall|j: int|
                        0 <= j < pos ==> bucket_before(#[trigger] buckets@[j], Bucket { day, value, count: 0 }),
                ensures
                    pos < buckets.len() ==> !bucket_before(buckets@[pos as int], Bucket { day, value, count: 0 }),
                decreases buckets.len() - pos,
            {
                if !key_before(&buckets[pos], day, value) {
                    break;
                }
                pos = pos + 1;
            }
            let ghost old_b = buckets@;
            let ghost old_t = times@;
            let ghost key = Bucket { day, value, count: 0 };
            proof {
                assert(r.stamp.day_view() == day);
                assert forall|j: int| 0 <= j < old_b.len() && !(old_b[j].day == day && old_b[j].value == value)
                    implies #[trigger] bucket_tracks(old_b[j], old_t[j]@, rs.take(i + 1), q, start, end) by {
                    lemma_sample_times_step(p, *r, q, start, end, old_b[j].day, old_b[j].value as int);
                    assert(bucket_tracks(old_b[j], old_t[j]@, p, q, start, end));
                }
            }
            let found = pos < buckets.len() && buckets[pos].day == day && buckets[pos].value == value;
            if found {
                proof {
                    lemma_sample_times_step(p, *r, q, start, end, day, value as int);
                    assert(bucket_tracks(old_b[pos as int], old_t[pos as int]@, p, q, start, end));
                    assert forall|j: int| 0 <= j < old_b.len() && j != pos implies
                        !(#[trigger] old_b[j].day == day && old_b[j].value == value) by {
                        if j < pos {
                            assert(bucket_before(old_b[j], old_b[pos as int]));
                        } else {
                            assert(bucket_before(old_b[pos as int], old_b[j]));
                        }
                    }
                }
                let present = contains_minute(&times[pos], minute);
                if !present {
                    let mut ts = times.remove(pos);
                    ts.push(minute);
                    let n = ts.len();
                    times.insert(pos, ts);
                    let b = Bucket { day, value, count: n };
                    buckets.set(pos, b);
                    proof {
                        let olds = old_t[pos as int]@;
                        assert(as_ints(olds.push(minute)) =~= as_ints(olds).push(minute as int));
                        as_ints(olds).lemma_push_to_set_commute(minute as int);
                        assert(times@ =~= old_t.update(pos as int, times@[pos as int]));
                        assert(bucket_tracks(buckets@[pos as int], times@[pos as int]@, rs.take(i + 1), q, start, end));
                        assert forall|a: int, c: int| 0 <= a < c < buckets.len() implies bucket_before(
                            #[trigger] buckets@[a],
                            #[trigger] buckets@[c],
                        ) by {
                            assert(bucket_before(old_b[a], old_b[c]));
                        }
                    }
                } else {
                    proof {
                        assert(sample_times(p, q, start, end, day, value as int).insert(minute as int)
                            =~= sample_times(p, q, start, end, day, value as int));
                    }
                }
                proof {
                    assert forall|j: int| 0 <= j < buckets.len() implies bucket_tracks(
                        #[trigger] buckets@[j],
                        times@[j]@,
                        rs.take(i + 1),
                        q,
                        start,
                        end,
                    ) by {
                        if j != pos {
                            assert(bucket_tracks(old_b[j], old_t[j]@, rs.take(i + 1), q, start, end));
                        }
                    }
                    assert forall|t: int| 0 <= t < i + 1 && in_window(#[trigger] rs[t], start, end) implies exists|j: int|
                        0 <= j < buckets.len() && has_key(rs[t], q, (#[trigger] buckets@[j]).day, buckets@[j].value as int) by {
                        if t == i {
                            assert(has_key(rs[t], q, buckets@[pos as int].day, buckets@[pos as int].value as int));
                        } else {
                            let j = choose|j: int| 0 <= j < old_b.len() && has_key(rs[t], q, (#[trigger] old_b[j]).day, old_b[j].value as int);
                            assert(buckets@[j].day == old_b[j].day && buckets@[j].value == old_b[j].value);
                        }
                    }
                }
            } else {
                proof {
                    assert forall|j: int| pos <= j < old_b.len() implies bucket_before(key, #[trigger] old_b[j]) by {
                        lemma_day_rank_order(old_b[pos as int].day.year as int, old_b[pos as int].day.month as int,
                            old_b[pos as int].day.day as int, day.year as int, day.month as int, day.day as int);
                        if j > pos {
                            assert(bucket_before(old_b[pos as int], old_b[j]));
                        }
                    }
                    assert forall|j: int| 0 <= j < old_b.len() implies
                        !(#[trigger] old_b[j].day == day && old_b[j].value == value) by {
                        if j >= pos {
                            assert(bucket_before(key, old_b[j]));
                        } else {
                            assert(bucket_before(old_b[j], key));
                        }
                    }
                    assert forall|m: int| !sample_times(p, q, start, end, day, value as int).contains(m) by {
                        if sample_times(p, q, start, end, day, value as int).contains(m) {
                            lemma_sample_witness(p, q, start, end, day, value as int, m);
                            let t = choose|t: int| 0 <= t < p.len() && in_window(#[trigger] p[t], start, end) && has_key(p[t], q, day, value as int);
                            assert(rs[t] == p[t]);
                            let j = choose|j: int| 0 <= j < old_b.len() && has_key(rs[t], q, (#[trigger] old_b[j]).day, old_b[j].value as int);
                            assert(false);
                        }
                    }
                    assert(sample_times(p, q, start, end, day, value as int) =~= Set::empty());
                    lemma_sample_times_step(p, *r, q, start, end, day, value as int);
                }
                let mut ts: Vec<u16> = Vec::new();
                ts.push(minute);
                times.insert(pos, ts);
                buckets.insert(pos, Bucket { day, value, count: 1 });
                proof {
                    assert(as_ints(times@[pos as int]@) =~= seq![minute as int]);
                    assert(seq![minute as int].to_set() =~= Set::empty().insert(minute as int)) by {
                        assert(seq![minute as int][0] == minute as int);
                    }
                    assert forall|j: int| 0 <= j < buckets.len() implies bucket_tracks(
                        #[trigger] buckets@[j],
                        times@[j]@,
                        rs.take(i + 1),
                        q,
                        start,
                        end,
                    ) by {
                        if j < pos {
                            assert(buckets@[j] == old_b[j] && times@[j] == old_t[j]);
                            assert(bucket_tracks(old_b[j], old_t[j]@, rs.take(i + 1), q, start, end));
                        } else if j > pos {
                            assert(buckets@[j] == old_b[j - 1] && times@[j] == old_t[j - 1]);
                            assert(bucket_tracks(old_b[j - 1], old_t[j - 1]@, rs.take(i + 1), q, start, end));
                        }
                    }
                    assert forall|a: int, c: int| 0 <= a < c < buckets.len() implies bucket_before(
                        #[trigger] buckets@[a],
                        #[trigger] buckets@[c],
                    ) by {
                        if c < pos {
                            assert(bucket_before(old_b[a], old_b[c]));
                        } else if c == pos {
                            assert(bucket_before(old_b[a], key));
                        } else if a == pos {
                            assert(bucket_before(key, old_b[c - 1]));
                        } else if a < pos {
                            assert(bucket_before(old_b[a], key));
                            assert(bucket_before(key, old_b[c - 1]));
                        } else {
                            assert(bucket_before(old_b[a - 1], old_b[c - 1]));
                        }
                    }
                    assert forall|t: int| 0 <= t < i + 1 && in_window(#[trigger] rs[t], start, end) implies exists|j: int|
                        0 <= j < buckets.len() && has_key(rs[t], q, (#[trigger] buckets@[j]).day, buckets@[j].value as int) by {
                        if t == i {
                            assert(has_key(rs[t], q, buckets@[pos as int].day, buckets@[pos as int].value as int));
                        } else {
                            let j = choose|j: int| 0 <= j < old_b.len() && has_key(rs[t], q, (#[trigger] old_b[j]).day, old_b[j].value as int);
                            if j < pos {
                                assert(buckets@[j] == old_b[j]);
                            } else {
                                assert(buckets@[j + 1] == old_b[j]);
                            }
                        }
                    }
                }
            }
        } else {
            proof {
                assert forall|j: int| 0 <= j < buckets.len() implies bucket_tracks(
                    #[trigger] buckets@[j],
                    times@[j]@,
                    rs.take(i + 1),
                    q,
                    start,
                    end,
                ) by {
                    lemma_sample_times_step(p, *r, q, start, end, buckets@[j].day, buckets@[j].value as int);
                    assert(bucket_tracks(buckets@[j], times@[j]@, p, q, start, end));
                }
                assert forall|t: int| 0 <= t < i + 1 && in_window(#[trigger] rs[t], start, end) implies exists|j: int|
                    0 <= j < buckets.len() && has_key(rs[t], q, (#[trigger] buckets@[j]).day, buckets@[j].value as int) by {
                    assert(t < i);
                }
            }
        }
        i = i + 1;
    }
    proof {
        assert(rs.take(i as int) =~= rs);
        assert forall|j: int| 0 <= j < buckets.len() implies {
            &&& (#[trigger] buckets@[j]).day.wf()
            &&& buckets@[j].count > 0
            &&& buckets@[j].count == sample_times(rs, q, start, end, buckets@[j].day, buckets@[j].value as int).len()
        } by {
            assert(bucket_tracks(buckets@[j], times@[j]@, rs, q, start, end));
            as_ints(times@[j]@).unique_seq_to_set();
        }
        assert forall|j: int| 0 <= j < buckets.len() implies (#[trigger] buckets@[j]).count <= MINUTES_PER_DAY by {
            lemma_sample_times_bounded(rs, q, start, end, buckets@[j].day, buckets@[j].value as int);
            assert(bucket_tracks(buckets@[j], times@[j]@, rs, q, start, end));
        }
    }
    buckets
}

/// Sample times are minutes of one day, so a bucket holds at most one day's worth.
proof fn lemma_sample_times_bounded(
    rs: Seq<StationReading>,
    q: Quantity,
    start: Stamp,
    end: Stamp,
    day: Day,
    value: int,
)
    requires
        readings_wf(rs),
    ensures
        sample_times(rs, q, start, end, day, value).len() <= MINUTES_PER_DAY,
        sample_times(rs, q, start, end, day, value).finite(),
{
    lemma_sample_times_in_day(rs, q, start, end, day, value);
    lemma_int_range(0, MINUTES_PER_DAY as int);
    lemma_len_subset(sample_times(rs, q, start, end, day, value), set_int_range(0, MINUTES_PER_DAY as int));
}

proof fn lemma_sample_times_in_day(
    rs: Seq<StationReading>,
    q: Quantity,
    start: Stamp,
    end: Stamp,
    day: Day,
    value: int,
)
    requires
        readings_wf(rs),
    ensures
        sample_times(rs, q, start, end, day, value).subset_of(set_int_range(0, MINUTES_PER_DAY as int)),
    decreases rs.len(),
{
    if rs.len() > 0 {
        let p = rs.drop_last();
        assert forall|i: int| 0 <= i < p.len() implies reading_wf(#[trigger] p[i]) by {
            assert(p[i] == rs[i]);
        }
        lemma_sample_times_in_day(p, q, start, end, day, value);
        let r = rs.last();
        assert(reading_wf(rs[rs.len() - 1]));
        assert(0 <= r.stamp.minute_of_day() < 1440) by (nonlinear_arith)
            requires
                r.stamp.minute_of_day() == r.stamp.hour * 60 + r.stamp.minute,
                0 <= r.stamp.hour < 24,
                0 <= r.stamp.minute < 60,
        ;
    }
}

pub open spec fn same_key(a: Bucket, b: Bucket) -> bool {
    a.day == b.day && a.value == b.value
}

/// Sum of the counts of the buckets in `bs` keyed by `day` and `value`.
pub open spec fn key_total(bs: Seq<Bucket>, day: Day, value: int) -> int
    decreases bs.len(),
{
    if bs.len() == 0 {
        0
    } else {
        let b = bs.last();
        key_total(bs.drop_last(), day, value) + if b.day == day && b.value == value {
            b.count as int
        } else {
            0
        }
    }
}

/// Some bucket of `bs` has the key of `b`.
pub open spec fn has_key_in(bs: Seq<Bucket>, b: Bucket) -> bool {
    exists|i: int| 0 <= i < bs.len() && same_key(#[trigger] bs[i], b)
}

/// Sum of all counts in `bs`.
pub open spec fn total_count(bs: Seq<Bucket>) -> int
    decreases bs.len(),
{
    if bs.len() == 0 {
        0
    } else {
        total_count(bs.drop_last()) + bs.last().count
    }
}

pub open spec fn days_wf(bs: Seq<Bucket>) -> bool {
    forall|i: int| 0 <= i < bs.len() ==> (#[trigger] bs[i]).day.wf()
}

/// `out` holds one bucket per key of `bs`, in ascending key order, each with
/// the sum of the counts of that key in `bs`.
pub open spec fn is_merge(bs: Seq<Bucket>, out: Seq<Bucket>) -> bool {
    &&& sorted_buckets(out)
    &&& days_wf(out)
    &&& forall|j: int|
        0 <= j < out.len() ==> (#[trigger] out[j]).count == key_total(bs, out[j].day, out[j].value as int)
    &&& forall|j: int| 0 <= j < out.len() ==> has_key_in(bs, #[trigger] out[j])
    &&& forall|i: int| 0 <= i < bs.len() ==> has_key_in(out, #[trigger] bs[i])
}

proof fn lemma_key_total_bounds(bs: Seq<Bucket>, day: Day, value: int)
    ensures
        0 <= key_total(bs, day, value) <= total_count(bs),
    decreases bs.len(),
{
    if bs.len() > 0 {
        lemma_key_total_bounds(bs.drop_last(), day, value);
    }
}

proof fn lemma_total_prefix(bs: Seq<Bucket>, n: int)
    requires
        0 <= n <= bs.len(),
    ensures
        total_count(bs.take(n)) <= total_count(bs),
    decreases bs.len() - n,
{
    if n < bs.len() {
        assert(bs.take(n + 1).drop_last() =~= bs.take(n));
        lemma_total_prefix(bs, n + 1);
    } else {
        assert(bs.take(n) =~= bs);
    }
}

/// Sums the counts of `bucket_list` per key, re-aggregating already
/// bucketed counts.
pub fn merge_buckets(bucket_list: &Vec<Bucket>) -> (out: Vec<Bucket>)
    requires
        days_wf(bucket_list@),
        total_count(bucket_list@) <= usize::MAX,
    ensures
        is_merge(bucket_list@, out@),
{
    let ghost bs = bucket_list@;
    let mut out: Vec<Bucket> = Vec::new();
    let mut i: usize = 0;
    while i < bucket_list.len()
        invariant
            i <= bucket_list.len(),
            bs == bucket_list@,
            days_wf(bs),
            total_count(bs) <= usize::MAX,
            is_merge(bs.take(i as int), out@),
        decreases bucket_list.len() - i,
    {
        let b = bucket_list[i];
        let ghost p = bs.take(i as int);
        let ghost old_o = out@;
        proof {
            assert(bs.take(i + 1) =~= p.push(b));
            assert(p.push(b).drop_last() =~= p);
            assert(b.day.wf());
            lemma_total_prefix(bs, i + 1);
        }
        proof {
            lemma_key_total_bounds(p.push(b), b.day, b.value as int);
        }
        merge_into(&mut out, b, Ghost(p));
        i = i + 1;
    }
    proof {
        assert(bs.take(i as int) =~= bs);
    }
    out
}

/// Adds the counts of `b` to the merged buckets of `p`.
#[verifier::rlimit(40)]
fn merge_into(out: &mut Vec<Bucket>, b: Bucket, p: Ghost<Seq<Bucket>>)
    requires
        is_merge(p@, old(out)@),
        b.day.wf(),
        key_total(p@.push(b), b.day, b.value as int) <= usize::MAX,
    ensures
        is_merge(p@.push(b), final(out)@),
{
    let ghost p = p@;
    let ghost old_o = out@;
    proof {
        assert(p.push(b).drop_last() =~= p);
    }
    let mut pos: usize = 0;
    while pos < out.len()
        invariant
            pos <= out.len(),
            b.day.wf(),
            days_wf(out@),
            forall|j: int| 0 <= j < pos ==> bucket_before(#[trigger] out@[j], b),
        ensures
            pos < out.len() ==> !bucket_before(out@[pos as int], b),
        decreases out.len() - pos,
    {
        if !key_before(&out[pos], b.day, b.value) {
            break;
        }
        pos = pos + 1;
    }
    if pos < out.len() && out[pos].day == b.day && out[pos].value == b.value {
        merge_at(out, pos, b, Ghost(p));
    } else {
        insert_at(out, pos, b, Ghost(p));
    }
}

/// Adds the count of `b` to the bucket at `pos`, which has its key.
#[verifier::rlimit(40)]
fn merge_at(out: &mut Vec<Bucket>, pos: usize, b: Bucket, p: Ghost<Seq<Bucket>>)
    requires
        is_merge(p@, old(out)@),
        b.day.wf(),
        pos < old(out).len(),
        same_key(old(out)@[pos as int], b),
        key_total(p@.push(b), b.day, b.value as int) <= usize::MAX,
    ensures
        is_merge(p@.push(b), final(out)@),
{
    let ghost p = p@;
    let ghost old_o = out@;
    proof {
        assert(p.push(b).drop_last() =~= p);
    }
    proof {
        lemma_key_total_bounds(p.push(b), b.day, b.value as int);
        assert(out@[pos as int].count == key_total(p, b.day, b.value as int));
        assert forall|j: int| 0 <= j < old_o.len() && j != pos implies !same_key(
            #[trigger] old_o[j],
            b,
        ) by {
            if j < pos {
                assert(bucket_before(old_o[j], old_o[pos as int]));
            } else {
                assert(bucket_before(old_o[pos as int], old_o[j]));
            }
        }
    }
    let merged = Bucket { day: b.day, value: b.value, count: out[pos].count + b.count };
    out.set(pos, merged);
    proof {
        assert forall|a: int, c: int| 0 <= a < c < out.len() implies bucket_before(
            #[trigger] out@[a],
            #[trigger] out@[c],
        ) by {
            assert(bucket_before(old_o[a], old_o[c]));
        }
        assert forall|j: int| 0 <= j < out.len() implies (#[trigger] out@[j]).count
            == key_total(p.push(b), out@[j].day, out@[j].value as int) by {
            if j != pos {
                assert(old_o[j] == out@[j]);
            }
        }
        assert forall|j: int| 0 <= j < out.len() implies has_key_in(p.push(b), #[trigger] out@[j]) by {
            assert(has_key_in(p, old_o[j]));
            let k = choose|k: int| 0 <= k < p.len() && same_key(#[trigger] p[k], old_o[j]);
            assert(p.push(b)[k] == p[k]);
            assert(same_key(p.push(b)[k], out@[j]));
        }
        assert forall|k: int| 0 <= k < p.push(b).len() implies has_key_in(out@, #[trigger] p.push(b)[k]) by {
            if k < p.len() {
                assert(p.push(b)[k] == p[k]);
                assert(has_key_in(old_o, p[k]));
                let j = choose|j: int| 0 <= j < old_o.len() && same_key(#[trigger] old_o[j], p[k]);
                assert(same_key(out@[j], p[k]));
            } else {
                assert(same_key(out@[pos as int], p.push(b)[k]));
            }
        }
    }
}

/// Inserts a bucket for the new key of `b` at `pos`.
#[verifier::rlimit(40)]
fn insert_at(out: &mut Vec<Bucket>, pos: usize, b: Bucket, p: Ghost<Seq<Bucket>>)
    requires
        is_merge(p@, old(out)@),
        b.day.wf(),
        pos <= old(out).len(),
        forall|j: int| 0 <= j < pos ==> bucket_before(#[trigger] old(out)@[j], b),
        pos < old(out).len() ==> !bucket_before(old(out)@[pos as int], b) && !same_key(old(out)@[pos as int], b),
    ensures
        is_merge(p@.push(b), final(out)@),
{
    let ghost p = p@;
    let ghost old_o = out@;
    proof {
        assert(p.push(b).drop_last() =~= p);
    }
    proof {
        let key = b;
        assert forall|j: int| pos <= j < old_o.len() implies bucket_before(key, #[trigger] old_o[j]) by {
            lemma_day_rank_order(old_o[pos as int].day.year as int, old_o[pos as int].day.month as int,
                old_o[pos as int].day.day as int, b.day.year as int, b.day.month as int, b.day.day as int);
            if j > pos {
                assert(bucket_before(old_o[pos as int], old_o[j]));
            }
        }
        assert forall|k: int| 0 <= k < p.len() implies !same_key(#[trigger] p[k], b) by {
            assert(has_key_in(old_o, p[k]));
            let j = choose|j: int| 0 <= j < old_o.len() && same_key(#[trigger] old_o[j], p[k]);
            if j >= pos {
                assert(bucket_before(key, old_o[j]));
            } else {
                assert(bucket_before(old_o[j], key));
            }
        }
        lemma_key_total_absent(p, b.day, b.value as int);
    }
    out.insert(pos, b);
    proof {
        lemma_merge_insert(p, b, old_o, pos as int);
    }
}

proof fn lemma_sorted_insert(o: Seq<Bucket>, pos: int, key: Bucket)
    requires
        sorted_buckets(o),
        0 <= pos <= o.len(),
        forall|j: int| 0 <= j < pos ==> bucket_before(#[trigger] o[j], key),
        forall|j: int| pos <= j < o.len() ==> bucket_before(key, #[trigger] o[j]),
    ensures
        sorted_buckets(o.insert(pos, key)),
{
    let out = o.insert(pos, key);
    let old_o = o;
        assert forall|a: int, c: int| 0 <= a < c < out.len() implies bucket_before(
            #[trigger] out[a],
            #[trigger] out[c],
        ) by {
            if c < pos {
                assert(bucket_before(old_o[a], old_o[c]));
            } else if c == pos {
                assert(bucket_before(old_o[a], key));
            } else if a == pos {
                assert(bucket_before(key, old_o[c - 1]));
            } else if a < pos {
                assert(bucket_before(old_o[a], key));
                assert(bucket_before(key, old_o[c - 1]));
            } else {
                assert(bucket_before(old_o[a - 1], old_o[c - 1]));
            }
        }
}

proof fn lemma_merge_insert(p: Seq<Bucket>, b: Bucket, old_o: Seq<Bucket>, pos: int)
    requires
        is_merge(p, old_o),
        b.day.wf(),
        0 <= pos <= old_o.len(),
        forall|j: int| 0 <= j < pos ==> bucket_before(#[trigger] old_o[j], b),
        forall|j: int| pos <= j < old_o.len() ==> bucket_before(b, #[trigger] old_o[j]),
        forall|k: int| 0 <= k < p.len() ==> !same_key(#[trigger] p[k], b),
        key_total(p, b.day, b.value as int) == 0,
    ensures
        is_merge(p.push(b), old_o.insert(pos, b)),
{
    let out = old_o.insert(pos, b);
    assert(p.push(b).drop_last() =~= p);
    lemma_sorted_insert(old_o, pos, b);
    lemma_insert_counts(p, b, old_o, pos, p.push(b), out);
    lemma_insert_sources(p, b, old_o, pos, p.push(b), out);
    lemma_insert_covers(p, b, old_o, pos, p.push(b), out);
    assert forall|j: int| 0 <= j < out.len() implies (#[trigger] out[j]).day.wf() by {
        if j < pos {
            assert(out[j] == old_o[j]);
        } else if j > pos {
            assert(out[j] == old_o[j - 1]);
        }
    }
}

proof fn lemma_insert_counts(p: Seq<Bucket>, b: Bucket, old_o: Seq<Bucket>, pos: int, q: Seq<Bucket>, out: Seq<Bucket>)
    requires
        0 <= pos <= old_o.len(),
        q == p.push(b),
        out == old_o.insert(pos, b),
        forall|j: int|
            0 <= j < old_o.len() ==> (#[trigger] old_o[j]).count == key_total(p, old_o[j].day, old_o[j].value as int),
        0 <= pos <= old_o.len(),
        forall|j: int| 0 <= j < pos ==> bucket_before(#[trigger] old_o[j], b),
        forall|j: int| pos <= j < old_o.len() ==> bucket_before(b, #[trigger] old_o[j]),
        key_total(p, b.day, b.value as int) == 0,
    ensures
        forall|j: int|
            0 <= j < out.len() ==> (#[trigger] out[j]).count == key_total(
                q,
                out[j].day,
                out[j].value as int,
            ),
{
    assert(q.drop_last() =~= p);
    assert forall|j: int| 0 <= j < out.len() implies (#[trigger] out[j]).count
        == key_total(q, out[j].day, out[j].value as int) by {
        if j < pos {
            assert(out[j] == old_o[j]);
            assert(bucket_before(old_o[j], b));
        } else if j > pos {
            assert(out[j] == old_o[j - 1]);
            assert(bucket_before(b, old_o[j - 1]));
        }
    }
}

proof fn lemma_insert_sources(p: Seq<Bucket>, b: Bucket, old_o: Seq<Bucket>, pos: int, q: Seq<Bucket>, out: Seq<Bucket>)
    requires
        0 <= pos <= old_o.len(),
        q == p.push(b),
        out == old_o.insert(pos, b),
        forall|j: int| 0 <= j < old_o.len() ==> has_key_in(p, #[trigger] old_o[j]),
    ensures
        forall|j: int| 0 <= j < out.len() ==> has_key_in(q, #[trigger] out[j]),
{
    assert forall|j: int| 0 <= j < out.len() implies has_key_in(q, #[trigger] out[j]) by {
        if j == pos {
            assert(same_key(q[p.len() as int], out[j]));
        } else {
            let jj = if j < pos { j } else { j - 1 };
            assert(out[j] == old_o[jj]);
            assert(has_key_in(p, old_o[jj]));
            let k = choose|k: int| 0 <= k < p.len() && same_key(#[trigger] p[k], old_o[jj]);
            assert(q[k] == p[k]);
            assert(0 <= k < q.len() && same_key(q[k], out[j]));
        }
    }
}

proof fn lemma_insert_covers(p: Seq<Bucket>, b: Bucket, old_o: Seq<Bucket>, pos: int, q: Seq<Bucket>, out: Seq<Bucket>)
    requires
        0 <= pos <= old_o.len(),
        q == p.push(b),
        out == old_o.insert(pos, b),
        forall|i: int| 0 <= i < p.len() ==> has_key_in(old_o, #[trigger] p[i]),
    ensures
        forall|i: int| 0 <= i < q.len() ==> has_key_in(out, #[trigger] q[i]),
{
    assert forall|k: int| 0 <= k < q.len() implies has_key_in(out, #[trigger] q[k]) by {
        if k < p.len() {
            assert(q[k] == p[k]);
            assert(has_key_in(old_o, p[k]));
            let j = choose|j: int| 0 <= j < old_o.len() && same_key(#[trigger] old_o[j], p[k]);
            if j < pos {
                assert(out[j] == old_o[j]);
                assert(same_key(out[j], q[k]));
            } else {
                assert(out[j + 1] == old_o[j]);
                assert(same_key(out[j + 1], q[k]));
            }
        } else {
            assert(same_key(out[pos], q[k]));
        }
    }
}

proof fn lemma_key_total_absent(bs: Seq<Bucket>, day: Day, value: int)
    requires
        forall|k: int| 0 <= k < bs.len() ==> !(#[trigger] bs[k].day == day && bs[k].value == value),
    ensures
        key_total(bs, day, value) == 0,
    decreases bs.len(),
{
    if bs.len() > 0 {
        assert forall|k: int| 0 <= k < bs.drop_last().len() implies !(#[trigger] bs.drop_last()[k].day == day
            && bs.drop_last()[k].value == value) by {
            assert(bs.drop_last()[k] == bs[k]);
        }
        lemma_key_total_absent(bs.drop_last(), day, value);
        assert(bs[bs.len() - 1] == bs.last());
    }
}

proof fn lemma_key_total_sorted(a: Seq<Bucket>, k: int)
    requires
        sorted_buckets(a),
        0 <= k < a.len(),
    ensures
        key_total(a, a[k].day, a[k].value as int) == a[k].count,
    decreases a.len(),
{
    let last = a.len() - 1;
    assert(a.drop_last().len() == last);
    if k < last {
        assert(bucket_before(a[k], a[last]));
        assert(a.drop_last()[k] == a[k]);
        assert forall|i: int, j: int| 0 <= i < j < a.drop_last().len() implies bucket_before(
            #[trigger] a.drop_last()[i],
            #[trigger] a.drop_last()[j],
        ) by {
            assert(bucket_before(a[i], a[j]));
        }
        lemma_key_total_sorted(a.drop_last(), k);
    } else {
        assert forall|i: int| 0 <= i < a.drop_last().len() implies !(#[trigger] a.drop_last()[i].day
            == a[k].day && a.drop_last()[i].value == a[k].value) by {
            assert(bucket_before(a[i], a[k]));
        }
        lemma_key_total_absent(a.drop_last(), a[k].day, a[k].value as int);
    }
}

proof fn lemma_sorted_tail(a: Seq<Bucket>)
    requires
        sorted_buckets(a),
        a.len() > 0,
    ensures
        sorted_buckets(a.drop_first()),
{
    assert forall|i: int, j: int| 0 <= i < j < a.drop_first().len() implies bucket_before(
        #[trigger] a.drop_first()[i],
        #[trigger] a.drop_first()[j],
    ) by {
        assert(bucket_before(a[i + 1], a[j + 1]));
    }
}

/// Two strictly sorted bucket lists with the same keys list them in the same order.
proof fn lemma_same_keys_same_order(a: Seq<Bucket>, m: Seq<Bucket>)
    requires
        sorted_buckets(a),
        sorted_buckets(m),
        forall|j: int| 0 <= j < m.len() ==> has_key_in(a, #[trigger] m[j]),
        forall|i: int| 0 <= i < a.len() ==> has_key_in(m, #[trigger] a[i]),
    ensures
        a.len() == m.len(),
        forall|k: int| 0 <= k < a.len() ==> same_key(#[trigger] a[k], m[k]),
    decreases a.len(),
{
    if a.len() == 0 {
        if m.len() > 0 {
            assert(has_key_in(a, m[0]));
        }
    } else {
        assert(has_key_in(m, a[0]));
        let j0 = choose|j: int| 0 <= j < m.len() && same_key(#[trigger] m[j], a[0]);
        assert(has_key_in(a, m[0]));
        let i0 = choose|i: int| 0 <= i < a.len() && same_key(#[trigger] a[i], m[0]);
        if j0 > 0 {
            assert(bucket_before(m[0], m[j0]));
            if i0 > 0 {
                assert(bucket_before(a[0], a[i0]));
            }
            assert(false);
        }
        let ta = a.drop_first();
        let tm = m.drop_first();
        lemma_sorted_tail(a);
        lemma_sorted_tail(m);
        assert forall|j: int| 0 <= j < tm.len() implies has_key_in(ta, #[trigger] tm[j]) by {
            assert(tm[j] == m[j + 1]);
            assert(has_key_in(a, m[j + 1]));
            let i = choose|i: int| 0 <= i < a.len() && same_key(#[trigger] a[i], m[j + 1]);
            assert(bucket_before(m[0], m[j + 1]));
            if i == 0 {
                assert(false);
            }
            assert(same_key(ta[i - 1], tm[j]));
        }
        assert forall|i: int| 0 <= i < ta.len() implies has_key_in(tm, #[trigger] ta[i]) by {
            assert(ta[i] == a[i + 1]);
            assert(has_key_in(m, a[i + 1]));
            let j = choose|j: int| 0 <= j < m.len() && same_key(#[trigger] m[j], a[i + 1]);
            assert(bucket_before(a[0], a[i + 1]));
            if j == 0 {
                assert(false);
            }
            assert(same_key(tm[j - 1], ta[i]));
        }
        lemma_same_keys_same_order(ta, tm);
        assert forall|k: int| 0 <= k < a.len() implies same_key(#[trigger] a[k], m[k]) by {
            if k > 0 {
                assert(same_key(ta[k - 1], tm[k - 1]));
            }
        }
    }
}

/// Re-aggregating the buckets of an aggregation, summing counts per key,
/// gives back the same buckets with the same counts.
pub proof fn lemma_reaggregation_idempotent(
    rs: Seq<StationReading>,
    q: Quantity,
    start: Stamp,
    end: Stamp,
    aggregated: Seq<Bucket>,
    merged: Seq<Bucket>,
)
    requires
        is_aggregation(rs, q, start, end, aggregated),
        is_merge(aggregated, merged),
    ensures
        merged == aggregated,
{
    let a = aggregated;
    let m = merged;
    assert forall|j: int| 0 <= j < a.len() implies has_key_in(m, #[trigger] a[j]) by {
        assert(same_key(a[j], a[j]));
        assert(has_key_in(m, a[j]));
    }
    lemma_same_keys_same_order(a, m);
    assert forall|k: int| 0 <= k < a.len() implies #[trigger] m[k] == a[k] by {
        assert(same_key(a[k], m[k]));
        lemma_key_total_sorted(a, k);
    }
    assert(m =~= a);
}

/// A second reading at the time of day of one already in its bucket adds
/// no sample to that bucket.
pub proof fn lemma_bucket_counts_time_once(
    rs: Seq<StationReading>,
    first: StationReading,
    second: StationReading,
    q: Quantity,
    start: Stamp,
    end: Stamp,
)
    requires
        first.stamp == second.stamp,
        in_window(first, start, end),
        quantized(q, first) == quantized(q, second),
    ensures
        sample_times(rs.push(first).push(second), q, start, end, first.stamp.day_view(), quantized(q, first))
            == sample_times(rs.push(first), q, start, end, first.stamp.day_view(), quantized(q, first)),
{
    let day = first.stamp.day_view();
    let v = quantized(q, first);
    lemma_sample_times_step(rs, first, q, start, end, day, v);
    lemma_sample_times_step(rs.push(first), second, q, start, end, day, v);
    assert(sample_times(rs.push(first), q, start, end, day, v).insert(second.stamp.minute_of_day())
        =~= sample_times(rs.push(first), q, start, end, day, v));
}

/// Lowest temperature bucket, in thousandths of a degree, that a report lists.
pub const REPORT_TEMPERATURE_LOW: i64 = 17000;

/// Highest temperature bucket, in thousandths of a degree, that a report lists.
pub const REPORT_TEMPERATURE_HIGH: i64 = 25000;

/// Lowest humidity bucket, in thousandths of a percent, that a report lists.
pub const REPORT_HUMIDITY_LOW: i64 = 90000;

/// Whether a report lists bucket `b` of variable `q`.
pub open spec fn reportable(q: Quantity, b: Bucket) -> bool {
    match q {
        Quantity::TemperatureFloor => REPORT_TEMPERATURE_LOW <= b.value <= REPORT_TEMPERATURE_HIGH,
        Quantity::HumidityRaw => b.value >= REPORT_HUMIDITY_LOW,
    }
}

/// The buckets of `bs` that a report lists, in order.
pub open spec fn report_of(bs: Seq<Bucket>, q: Quantity) -> Seq<Bucket>
    decreases bs.len(),
{
    if bs.len() == 0 {
        Seq::empty()
    } else {
        let prev = report_of(bs.drop_last(), q);
        if reportable(q, bs.last()) {
            prev.push(bs.last())
        } else {
            prev
        }
    }
}

/// The buckets worth reporting: temperatures from 17 to 25 degrees, and
/// humidities of 90 percent or more.
pub fn report_buckets(bucket_list: &Vec<Bucket>, q: Quantity) -> (out: Vec<Bucket>)
    ensures
        out@ == report_of(bucket_list@, q),
{
    let mut out: Vec<Bucket> = Vec::new();
    let mut i: usize = 0;
    while i < bucket_list.len()
        invariant
            i <= bucket_list.len(),
            out@ == report_of(bucket_list@.take(i as int), q),
        decreases bucket_list.len() - i,
    {
        let b = bucket_list[i];
        proof {
            assert(bucket_list@.take(i + 1).drop_last() =~= bucket_list@.take(i as int));
            assert(bucket_list@.take(i + 1).last() == b);
        }
        let keep = match q {
            Quantity::TemperatureFloor => REPORT_TEMPERATURE_LOW <= b.value && b.value <= REPORT_TEMPERATURE_HIGH,
            Quantity::HumidityRaw => b.value >= REPORT_HUMIDITY_LOW,
        };
        if keep {
            out.push(b);
        }
        i = i + 1;
    }
    proof {
        assert(bucket_list@.take(i as int) =~= bucket_list@);
    }
    out
}

} // verus!
