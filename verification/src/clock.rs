//! A simulation clock: a fixed, ascending list of timestamps and a cursor.

use vstd::prelude::*;

verus! {

/// Seconds since the epoch.
pub type DateTime = i64;

/// Number of seconds between two daily timestamps.
pub const SECS_IN_DAY: i64 = 86_400;

/// Number of timestamps `start, start + step, ..` that lie before `limit`.
pub open spec fn stepped_count(start: int, limit: int, step: int) -> nat {
    if limit <= start || step <= 0 {
        0
    } else {
        ((limit - start - 1) / step + 1) as nat
    }
}

/// The timestamps `start, start + step, ..` that lie before `limit`.
pub open spec fn stepped_dates(start: int, limit: int, step: int) -> Seq<DateTime> {
    Seq::new(stepped_count(start, limit, step), |k: int| (start + k * step) as i64)
}

/// The cursor of a simulation: the timestamps of the run and the index of the
/// current one.
#[derive(Debug)]
pub struct ClockInner {
    pos: usize,
    dates: Vec<DateTime>,
}

impl ClockInner {
    /// The timestamps of the run, in the order in which they are visited.
    pub closed spec fn dates(&self) -> Seq<DateTime> {
        self.dates@
    }

    /// Index of the current timestamp.
    pub closed spec fn position(&self) -> int {
        self.pos as int
    }

    /// The cursor points at a timestamp.
    pub open spec fn wf(&self) -> bool {
        0 <= self.position() < self.dates().len()
    }

    /// Every timestamp of the run is later than the one before it.
    pub open spec fn ascending(&self) -> bool {
        forall|i: int, j: int|
            0 <= i < j < self.dates().len() ==> self.dates()[i] < self.dates()[j]
    }

    /// A timestamp follows the current one.
    pub open spec fn spec_has_next(&self) -> bool {
        self.position() + 1 < self.dates().len()
    }

    /// The current timestamp.
    pub fn now(&self) -> (date: DateTime)
        requires
            self.wf(),
        ensures
            date == self.dates()[self.position()],
    {
        self.dates[self.pos]
    }

    /// Whether a timestamp follows the current one.
    pub fn has_next(&self) -> (more: bool)
        ensures
            more == self.spec_has_next(),
    {
        let len: usize = self.dates.len();
        len > 0 && self.pos < len - 1
    }

    /// Moves to the next timestamp. There must be one: a run never ticks past
    /// its last date.
    pub fn tick(&mut self)
        requires
            old(self).spec_has_next(),
        ensures
            final(self).position() == old(self).position() + 1,
            final(self).dates() == old(self).dates(),
            final(self).wf(),
    {
        let len: usize = self.dates.len();
        assert(self.pos + 1 < len);
        self.pos = self.pos + 1;
    }

    /// Number of timestamps of the run.
    pub fn len(&self) -> (count: usize)
        ensures
            count == self.dates().len(),
    {
        self.dates.len()
    }

    /// All timestamps of the run; the cursor stays where it is.
    pub fn peek(&self) -> (all: Vec<DateTime>)
        ensures
            all@ == self.dates(),
    {
        self.dates.clone()
    }
}

impl Clone for ClockInner {
    fn clone(&self) -> (copy: Self)
        ensures
            copy.dates() == self.dates(),
            copy.position() == self.position(),
    {
        Self { pos: self.pos, dates: self.dates.clone() }
    }
}

/// The first and the last timestamp of a run.
pub struct ClockBuilder {
    pub start: DateTime,
    pub end: DateTime,
}

impl ClockBuilder {
    /// A clock over `start, start + 1 day, ..`, up to the last such timestamp
    /// that is less than a day after `end`.
    pub fn daily(&self) -> (clock: ClockInner)
        requires
            self.end + SECS_IN_DAY <= i64::MAX,
        ensures
            clock.position() == 0,
            clock.dates() == stepped_dates(
                self.start as int,
                self.end + SECS_IN_DAY,
                SECS_IN_DAY as int,
            ),
            self.start <= self.end ==> clock.wf(),
            clock.ascending(),
    {
        let dates = stepped(self.start, self.end + SECS_IN_DAY, SECS_IN_DAY);
        ClockInner { pos: 0, dates }
    }

    /// A clock over every second from `start` to `end`, both included.
    pub fn every_second(&self) -> (clock: ClockInner)
        requires
            self.end < i64::MAX,
        ensures
            clock.position() == 0,
            clock.dates() == stepped_dates(self.start as int, self.end + 1, 1),
            self.start <= self.end ==> clock.wf(),
            clock.ascending(),
    {
        let dates = stepped(self.start, self.end + 1, 1);
        ClockInner { pos: 0, dates }
    }

    /// A run of `length_in_seconds` seconds after `start`: one period more
    /// than the length.
    pub fn from_length_seconds(start: &DateTime, length_in_seconds: i64) -> (builder: Self)
        requires
            i64::MIN <= *start + length_in_seconds <= i64::MAX,
        ensures
            builder.start == *start,
            builder.end == *start + length_in_seconds,
    {
        let end: i64 = *start + length_in_seconds;
        Self { start: *start, end }
    }

    /// A run of `length_in_days` days after `start`: one period more than the
    /// length.
    pub fn from_length_days(start: &DateTime, length_in_days: i64) -> (builder: Self)
        requires
            i64::MIN <= *start + length_in_days * SECS_IN_DAY <= i64::MAX,
        ensures
            builder.start == *start,
            builder.end == *start + length_in_days * SECS_IN_DAY,
    {
        let span: i128 = (length_in_days as i128) * (SECS_IN_DAY as i128);
        let end: i128 = (*start as i128) + span;
        Self { start: *start, end: end as i64 }
    }

    /// A run from `start` to `end`.
    pub fn from_fixed(start: DateTime, end: DateTime) -> (builder: Self)
        ensures
            builder.start == start,
            builder.end == end,
    {
        Self { start, end }
    }
}

/// The timestamps `start, start + step, ..` below `limit`, in ascending order.
fn stepped(start: i64, limit: i64, step: i64) -> (dates: Vec<DateTime>)
    requires
        step > 0,
    ensures
        dates@ == stepped_dates(start as int, limit as int, step as int),
        forall|i: int, j: int| 0 <= i < j < dates@.len() ==> dates@[i] < dates@[j],
{
    let mut dates: Vec<DateTime> = Vec::new();
    let mut cur: i128 = start as i128;
    let ghost n0: int = 0;
    assert(cur == start + n0 * step) by (nonlinear_arith)
        requires
            cur == start,
            n0 == 0,
    ;
    let bound: i128 = limit as i128;
    while cur < bound
        invariant
            step > 0,
            bound == limit,
            i64::MIN <= start <= cur,
            cur == start + (dates.len() as int) * (step as int),
            forall|k: int| 0 <= k < dates.len() ==> dates@[k] == start + k * step,
            dates.len() > 0 ==> cur - step < limit,
        decreases bound - cur + step,
    {
        let ghost before: int = dates.len() as int;
        dates.push(cur as i64);
        proof {
            assert((before + 1) * (step as int) == before * (step as int) + step) by (nonlinear_arith);
        }
        cur = cur + step as i128;
    }
    proof {
        let n = dates.len() as int;
        let s = step as int;
        if limit <= start {
            if n > 0 {
                assert(n * s >= s) by (nonlinear_arith)
                    requires
                        n >= 1,
                        s > 0,
                ;
            }
        } else {
            let d = limit - start - 1;
            assert(n == d / s + 1) by (nonlinear_arith)
                requires
                    s > 0,
                    d >= 0,
                    n >= 0,
                    start + n * s >= limit,
                    n > 0 ==> start + n * s - s < limit,
                    d == limit - start - 1,
            ;
        }
        assert(n == stepped_count(start as int, limit as int, s));
        assert(dates@ =~= stepped_dates(start as int, limit as int, s));
        assert forall|i: int, j: int| 0 <= i < j < dates@.len() implies dates@[i] < dates@[j] by {
            assert(i * s < j * s) by (nonlinear_arith)
                requires
                    0 <= i < j,
                    s > 0,
            ;
        }
    }
    dates
}

} // verus!
