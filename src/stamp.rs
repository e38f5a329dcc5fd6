//! Naive local timestamps at minute precision, as read from the station table.
use chrono::{Datelike, NaiveDateTime, Timelike};
use vstd::arithmetic::div_mod::lemma_mod_multiples_vanish;
use vstd::prelude::*;

verus! {

/// Earliest year that a parsed timestamp can carry.
pub const MIN_YEAR: i32 = -262143;

/// Latest year that a parsed timestamp can carry.
pub const MAX_YEAR: i32 = 262142;

/// A calendar day.
#[derive(Clone, Copy, Debug, PartialEq, Eq, Structural)]
pub struct Day {
    pub year: i32,
    pub month: u8,
    pub day: u8,
}

/// A naive local date and time, to the minute, on the proleptic Gregorian
/// calendar.
#[derive(Clone, Copy, Debug, PartialEq, Eq, Structural)]
pub struct Stamp {
    pub year: i32,
    pub month: u8,
    pub day: u8,
    pub hour: u8,
    pub minute: u8,
}

/// Leap years of the proleptic Gregorian calendar.
pub open spec fn is_leap_year(year: int) -> bool {
    (year % 4 == 0 && year % 100 != 0) || year % 400 == 0
}

pub open spec fn days_in_month(year: int, month: int) -> int {
    if month == 2 {
        if is_leap_year(year) {
            29
        } else {
            28
        }
    } else if month == 4 || month == 6 || month == 9 || month == 11 {
        30
    } else {
        31
    }
}

/// Number of days of `month` in `year`.
pub fn month_length(year: i32, month: u8) -> (n: u8)
    requires
        MIN_YEAR <= year <= MAX_YEAR,
    ensures
        n == days_in_month(year as int, month as int),
{
    let shifted: i64 = year as i64 + 400_000;
    proof {
        lemma_mod_multiples_vanish(100_000, year as int, 4);
        lemma_mod_multiples_vanish(4_000, year as int, 100);
        lemma_mod_multiples_vanish(1_000, year as int, 400);
    }
    let leap = (shifted % 4 == 0 && shifted % 100 != 0) || shifted % 400 == 0;
    if month == 2 {
        if leap {
            29
        } else {
            28
        }
    } else if month == 4 || month == 6 || month == 9 || month == 11 {
        30
    } else {
        31
    }
}

pub open spec fn fields_wf(year: int, month: int, day: int, hour: int, minute: int) -> bool {
    &&& MIN_YEAR <= year <= MAX_YEAR
    &&& 1 <= month <= 12
    &&& 1 <= day <= days_in_month(year, month)
    &&& 0 <= hour < 24
    &&& 0 <= minute < 60
}

/// Position of a day on a line on which days are ordered chronologically.
pub open spec fn day_rank(year: int, month: int, day: int) -> int {
    (year * 13 + month) * 32 + day
}

impl Day {
    pub open spec fn wf(&self) -> bool {
        &&& MIN_YEAR <= self.year <= MAX_YEAR
        &&& 1 <= self.month <= 12
        &&& 1 <= self.day <= days_in_month(self.year as int, self.month as int)
    }

    pub open spec fn rank(&self) -> int {
        day_rank(self.year as int, self.month as int, self.day as int)
    }

    /// Whether this day comes strictly before `other`.
    pub fn precedes(&self, other: &Day) -> (r: bool)
        requires
            self.wf(),
            other.wf(),
        ensures
            r == (self.rank() < other.rank()),
    {
        proof {
            lemma_day_rank_order(self.year as int, self.month as int, self.day as int,
                other.year as int, other.month as int, other.day as int);
        }
        self.year < other.year || (self.year == other.year && (self.month < other.month || (
        self.month == other.month && self.day < other.day)))
    }
}

/// Day ranks order days as (year, month, day) does.
pub proof fn lemma_day_rank_order(y1: int, m1: int, d1: int, y2: int, m2: int, d2: int)
    requires
        1 <= m1 <= 12,
        1 <= d1 <= 31,
        1 <= m2 <= 12,
        1 <= d2 <= 31,
    ensures
        (day_rank(y1, m1, d1) < day_rank(y2, m2, d2)) == (y1 < y2 || (y1 == y2 && (m1 < m2 || (m1
            == m2 && d1 < d2)))),
        (day_rank(y1, m1, d1) == day_rank(y2, m2, d2)) == (y1 == y2 && m1 == m2 && d1 == d2),
{
    assert((day_rank(y1, m1, d1) < day_rank(y2, m2, d2)) == (y1 < y2 || (y1 == y2 && (m1 < m2 || (
    m1 == m2 && d1 < d2))))) by (nonlinear_arith)
        requires
            1 <= m1 <= 12,
            1 <= d1 <= 31,
            1 <= m2 <= 12,
            1 <= d2 <= 31,
    ;
    assert((day_rank(y1, m1, d1) == day_rank(y2, m2, d2)) == (y1 == y2 && m1 == m2 && d1 == d2))
        by (nonlinear_arith)
        requires
            1 <= m1 <= 12,
            1 <= d1 <= 31,
            1 <= m2 <= 12,
            1 <= d2 <= 31,
    ;
}

impl Stamp {
    pub open spec fn wf(&self) -> bool {
        fields_wf(
            self.year as int,
            self.month as int,
            self.day as int,
            self.hour as int,
            self.minute as int,
        )
    }

    /// The fields, in order from year to minute.
    pub open spec fn fields(&self) -> (int, int, int, int, int) {
        (self.year as int, self.month as int, self.day as int, self.hour as int, self.minute as int)
    }

    pub open spec fn day_view(&self) -> Day {
        Day { year: self.year, month: self.month, day: self.day }
    }

    /// Minutes since midnight: the `HH:MM` of the stamp.
    pub open spec fn minute_of_day(&self) -> int {
        self.hour * 60 + self.minute
    }

    /// Position of the stamp on a line on which stamps are ordered chronologically.
    pub open spec fn rank(&self) -> int {
        self.day_view().rank() * 1440 + self.minute_of_day()
    }

    /// A stamp with the given fields, if each is in its range.
    pub fn new(year: i32, month: u8, day: u8, hour: u8, minute: u8) -> (r: Option<Stamp>)
        ensures
            r is Some <== fields_wf(year as int, month as int, day as int, hour as int, minute as int),
            r is Some ==> fields_wf(year as int, month as int, day as int, hour as int, minute as int),
            r matches Some(s) ==> s.fields() == (year as int, month as int, day as int, hour as int, minute as int),
    {
        if MIN_YEAR <= year && year <= MAX_YEAR && 1 <= month && month <= 12 && 1 <= day && day
            <= month_length(year, month) && hour < 24 && minute < 60 {
            Some(Stamp { year, month, day, hour, minute })
        } else {
            None
        }
    }

    pub fn day(&self) -> (r: Day)
        ensures
            r == self.day_view(),
    {
        Day { year: self.year, month: self.month, day: self.day }
    }

    /// Minutes since midnight.
    pub fn minute_of_day_exec(&self) -> (r: u16)
        requires
            self.wf(),
        ensures
            r == self.minute_of_day(),
    {
        self.hour as u16 * 60 + self.minute as u16
    }

    /// Whether this stamp is no later than `other`.
    pub fn not_after(&self, other: &Stamp) -> (r: bool)
        requires
            self.wf(),
            other.wf(),
        ensures
            r == (self.rank() <= other.rank()),
    {
        let d1 = self.day();
        let d2 = other.day();
        proof {
            lemma_day_rank_order(self.year as int, self.month as int, self.day as int,
                other.year as int, other.month as int, other.day as int);
            lemma_stamp_rank_order(*self, *other);
        }
        if d1.precedes(&d2) {
            true
        } else if d2.precedes(&d1) {
            false
        } else {
            self.minute_of_day_exec() <= other.minute_of_day_exec()
        }
    }
}

/// Stamp ranks order stamps by day first, then by time of day.
pub proof fn lemma_stamp_rank_order(a: Stamp, b: Stamp)
    requires
        a.wf(),
        b.wf(),
    ensures
        a.day_view().rank() < b.day_view().rank() ==> a.rank() < b.rank(),
        a.day_view().rank() == b.day_view().rank() ==> (a.rank() <= b.rank() <==> a.minute_of_day()
            <= b.minute_of_day()),
        a.rank() == b.rank() <==> a == b,
{
    let ra = a.day_view().rank();
    let rb = b.day_view().rank();
    let ma = a.minute_of_day();
    let mb = b.minute_of_day();
    assert(0 <= ma < 1440 && 0 <= mb < 1440) by (nonlinear_arith)
        requires
            ma == a.hour * 60 + a.minute,
            mb == b.hour * 60 + b.minute,
            0 <= a.hour < 24,
            0 <= a.minute < 60,
            0 <= b.hour < 24,
            0 <= b.minute < 60,
    ;
    assert(ra < rb ==> ra * 1440 + ma < rb * 1440 + mb) by (nonlinear_arith)
        requires
            0 <= ma < 1440,
            0 <= mb < 1440,
    ;
    assert(rb < ra ==> rb * 1440 + mb < ra * 1440 + ma) by (nonlinear_arith)
        requires
            0 <= ma < 1440,
            0 <= mb < 1440,
    ;
    lemma_day_rank_order(a.year as int, a.month as int, a.day as int, b.year as int, b.month as int,
        b.day as int);
    if a.rank() == b.rank() {
        assert(ra == rb);
        assert(a.hour * 60 + a.minute == b.hour * 60 + b.minute);
        assert(a.hour == b.hour && a.minute == b.minute) by (nonlinear_arith)
            requires
                a.hour * 60 + a.minute == b.hour * 60 + b.minute,
                0 <= a.minute < 60,
                0 <= b.minute < 60,
        ;
    }
}

/// What chrono's `NaiveDateTime::parse_from_str` gives for `text` read with
/// `format`, down to the minute.
pub uninterp spec fn parsed_datetime(text: Seq<char>, format: Seq<char>) -> Option<(int, int, int, int, int)>;

pub open spec fn stamp_fields(s: Option<Stamp>) -> Option<(int, int, int, int, int)> {
    match s {
        Some(s) => Some(s.fields()),
        None => None,
    }
}

/// Relies on chrono's `NaiveDateTime::parse_from_str` to read a date and time
/// by a strftime-style format. A `NaiveDateTime` always holds a valid date
/// within chrono's year range and a time of day below 24:00.
#[verifier::external_body]
pub(crate) fn parse_datetime(text: &str, format: &str) -> (r: Option<Stamp>)
    ensures
        stamp_fields(r) == parsed_datetime(text@, format@),
        r matches Some(s) ==> s.wf(),
{
    match NaiveDateTime::parse_from_str(text, format) {
        Ok(t) => Some(Stamp {
            year: t.year(),
            month: t.month() as u8,
            day: t.day() as u8,
            hour: t.hour() as u8,
            minute: t.minute() as u8,
        }),
        Err(_) => None,
    }
}

} // verus!
