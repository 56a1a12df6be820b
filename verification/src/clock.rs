//! Transaction time.

use crate::types::Instant;
use vstd::prelude::*;

verus! {

/// `std::time::SystemTime`.
#[verifier::external_type_specification]
#[verifier::external_body]
pub struct ExSystemTime(std::time::SystemTime);

/// `std::time::SystemTimeError`.
#[verifier::external_type_specification]
#[verifier::external_body]
pub struct ExSystemTimeError(std::time::SystemTimeError);

/// `std::time::SystemTime::now` reads the machine's clock; nothing is claimed
/// of the reading.
pub assume_specification[ std::time::SystemTime::now ]() -> std::time::SystemTime;

/// `std::time::SystemTime::duration_since`: the time passed since the Unix
/// epoch, or an error where the time is before it; nothing is claimed of it.
#[verifier::external_body]
fn since_epoch(time: &std::time::SystemTime) -> (r: Result<
    std::time::Duration,
    std::time::SystemTimeError,
>) {
    time.duration_since(std::time::UNIX_EPOCH)
}

/// `std::time::Duration::as_micros` is the whole microseconds of a duration;
/// nothing is claimed of it.
pub assume_specification[ std::time::Duration::as_micros ](d: &std::time::Duration) -> u128;

/// A reading of the wall clock in microseconds since the Unix epoch, or none
/// where the clock stands before it.
pub open spec fn clamp_us(micros: Option<u128>) -> i64 {
    match micros {
        Some(us) => if us <= i64::MAX {
            us as i64
        } else {
            i64::MAX
        },
        None => 0,
    }
}

/// A reading of the wall clock as an instant: readings that are too large are
/// the last instant, and those before the epoch are the epoch.
pub fn wall_from(micros: Option<u128>) -> (r: i64)
    ensures
        r == clamp_us(micros),
        r >= 0,
{
    match micros {
        Some(us) => if us <= i64::MAX as u128 {
            us as i64
        } else {
            i64::MAX
        },
        None => 0,
    }
}

/// The wall clock, in microseconds.
pub fn wall_us() -> (r: i64)
    ensures
        r >= 0,
{
    let now = std::time::SystemTime::now();
    match since_epoch(&now) {
        Ok(d) => wall_from(Some(d.as_micros())),
        Err(_) => wall_from(None),
    }
}

/// The transaction time after `last` where the wall clock reads `wall`.
pub open spec fn next_time(last: int, wall: i64) -> int {
    if wall > last {
        wall as int
    } else {
        last + 1
    }
}

/// The time of a query after `last` where the wall clock reads `wall`.
pub open spec fn query_time(last: int, wall: i64) -> int {
    if wall > last {
        wall as int
    } else {
        last
    }
}

/// The later of the last time and a floor.
pub open spec fn raised_floor(last: int, floor: i64) -> int {
    if floor > last {
        floor as int
    } else {
        last
    }
}

/// A source of transaction times.
pub trait Clock {
    /// The latest time that was assigned or set as a floor.
    spec fn floor(&self) -> int;

    /// The next transaction time: after every time assigned before, and after
    /// every floor.
    fn next(&mut self) -> (t: Instant)
        requires
            old(self).floor() < i64::MAX,
        ensures
            t.us > old(self).floor(),
            final(self).floor() == t.us,
    ;

    /// The time at which a query reads: no earlier than any time assigned. It
    /// assigns none.
    fn watermark(&self) -> (t: Instant)
        ensures
            t.us >= self.floor(),
    ;

    /// Makes all later times come after `floor`. It never turns back.
    fn advance_to(&mut self, floor: Instant)
        ensures
            final(self).floor() == raised_floor(old(self).floor(), floor.us),
    ;
}

/// The built-in clock: the wall clock, made strictly increasing.
#[derive(Debug)]
pub struct MonotonicClock {
    last_us: i64,
}

impl MonotonicClock {
    pub closed spec fn last(&self) -> int {
        self.last_us as int
    }

    pub fn new() -> (r: MonotonicClock)
        ensures
            r.last() == 0,
    {
        MonotonicClock { last_us: 0 }
    }

    /// The next transaction time where the wall clock reads `wall`: the reading,
    /// or one past the last time where that is later.
    pub fn next_at(&mut self, wall: i64) -> (t: Instant)
        requires
            old(self).last() < i64::MAX,
        ensures
            t.us == next_time(old(self).last(), wall),
            final(self).last() == t.us,
    {
        let candidate: i64 = if wall > self.last_us {
            wall
        } else {
            self.last_us + 1
        };
        self.last_us = candidate;
        Instant::from_micros(candidate)
    }

    /// The time of a query where the wall clock reads `wall`.
    pub fn watermark_at(&self, wall: i64) -> (t: Instant)
        ensures
            t.us == query_time(self.last(), wall),
    {
        if wall > self.last_us {
            Instant::from_micros(wall)
        } else {
            Instant::from_micros(self.last_us)
        }
    }
}

impl Clock for MonotonicClock {
    open spec fn floor(&self) -> int {
        self.last()
    }

    fn next(&mut self) -> (t: Instant) {
        let wall = wall_us();
        self.next_at(wall)
    }

    fn watermark(&self) -> (t: Instant) {
        let wall = wall_us();
        self.watermark_at(wall)
    }

    fn advance_to(&mut self, floor: Instant) {
        if floor.us > self.last_us {
            self.last_us = floor.us;
        }
    }
}

/// Makes the built-in clock, under its configured name.
#[derive(Debug)]
pub struct SystemClockFactory;

impl SystemClockFactory {
    pub fn name(&self) -> (r: &'static str)
        ensures
            r@ == "system"@,
    {
        "system"
    }

    pub fn build(&self) -> (r: MonotonicClock)
        ensures
            r.last() == 0,
    {
        MonotonicClock::new()
    }
}

/// Two times assigned one after the other increase strictly, whatever the wall
/// clock read.
pub proof fn law_times_increase(last: int, wall1: i64, wall2: i64)
    ensures
        last < next_time(last, wall1) < next_time(next_time(last, wall1), wall2),
{
}

/// A time assigned after a floor was set comes after the floor, and after all
/// times before.
pub proof fn law_floor_is_passed(last: int, floor: i64, wall: i64)
    ensures
        next_time(raised_floor(last, floor), wall) > floor,
        next_time(raised_floor(last, floor), wall) > last,
{
}

/// A query after an assignment reads at or after the assigned time, and the
/// time assigned next comes after that time too.
pub proof fn law_queries_see_assigned(last: int, wall1: i64, wall2: i64, wall3: i64)
    ensures
        query_time(next_time(last, wall1), wall2) >= next_time(last, wall1),
        next_time(next_time(last, wall1), wall3) > next_time(last, wall1),
{
}

} // verus!
