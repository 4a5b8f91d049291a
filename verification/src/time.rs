//! Points in time and spans of time as plain numbers, and the monotonic clock
//! that reads them.
use vstd::prelude::*;

verus! {

/// A span of time, in nanoseconds.
#[derive(Copy, Clone, Debug, PartialEq, Eq, Structural)]
pub struct Duration {
    /// Length of the span in nanoseconds.
    pub nanos: u128,
}

impl Duration {
    /// Span of `nanos` nanoseconds.
    pub fn from_nanos(nanos: u64) -> (d: Duration)
        ensures
            d.nanos == nanos,
    {
        Duration { nanos: nanos as u128 }
    }

    /// Span of `micros` microseconds.
    pub fn from_micros(micros: u64) -> (d: Duration)
        ensures
            d.nanos == micros * 1_000,
    {
        Duration { nanos: micros as u128 * 1_000 }
    }

    /// Span of `millis` milliseconds.
    pub fn from_millis(millis: u64) -> (d: Duration)
        ensures
            d.nanos == millis * 1_000_000,
    {
        Duration { nanos: millis as u128 * 1_000_000 }
    }

    /// The shorter of two spans.
    pub fn min(self, other: Duration) -> (d: Duration)
        ensures
            d == if self.nanos <= other.nanos {
                self
            } else {
                other
            },
    {
        if self.nanos <= other.nanos {
            self
        } else {
            other
        }
    }

    /// Whole seconds and the nanoseconds left over, or the longest span that can be
    /// so written.
    pub fn parts(self) -> (p: (u64, u32))
        ensures
            p.1 < 1_000_000_000,
            if self.nanos / 1_000_000_000 <= u64::MAX {
                p.0 * 1_000_000_000 + p.1 == self.nanos
            } else {
                p.0 == u64::MAX && p.1 == 999_999_999
            },
    {
        let secs: u128 = self.nanos / 1_000_000_000;
        let nanos: u128 = self.nanos % 1_000_000_000;
        if secs > u64::MAX as u128 {
            (u64::MAX, 999_999_999)
        } else {
            (secs as u64, nanos as u32)
        }
    }

    /// Span of `secs` seconds.
    pub fn from_secs(secs: u64) -> (d: Duration)
        ensures
            d.nanos == secs * 1_000_000_000,
    {
        Duration { nanos: secs as u128 * 1_000_000_000 }
    }
}

/// `x` brought into the range of the numbers an [`Instant`] can hold.
pub open spec fn clamp_nanos(x: int) -> int {
    if x > i128::MAX {
        i128::MAX as int
    } else if x < i128::MIN {
        i128::MIN as int
    } else {
        x
    }
}

/// The nanoseconds from `earlier` to `later`: zero where `later` is not later,
/// and at most what a `u64` holds.
pub open spec fn elapsed_nanos(earlier: Instant, later: Instant) -> int {
    let d = later.nanos - earlier.nanos;
    if d < 0 {
        0
    } else if d > u64::MAX {
        u64::MAX as int
    } else {
        d
    }
}

/// A point on the time line of a [`Clock`]: the nanoseconds since the clock was
/// made, negative for points before that.
#[derive(Copy, Clone, Debug, PartialEq, Eq, Structural)]
pub struct Instant {
    /// Signed distance from the origin of the clock, in nanoseconds.
    pub nanos: i128,
}

impl Instant {
    /// The point so many nanoseconds after the origin, or the last point there is.
    pub fn from_origin(nanos: u128) -> (t: Instant)
        ensures
            t.nanos == clamp_nanos(nanos as int),
    {
        if nanos > i128::MAX as u128 {
            Instant { nanos: i128::MAX }
        } else {
            Instant { nanos: nanos as i128 }
        }
    }

    /// The point `span` after this one, or the last point there is.
    pub fn after(self, span: Duration) -> (t: Instant)
        ensures
            t.nanos == clamp_nanos(self.nanos + span.nanos),
    {
        let moved: Option<i128> = self.nanos.checked_add_unsigned(span.nanos);
        match moved {
            Some(nanos) => Instant { nanos },
            None => Instant { nanos: i128::MAX },
        }
    }

    /// The point `span` before this one, or the first point there is.
    pub fn before(self, span: Duration) -> (t: Instant)
        ensures
            t.nanos == clamp_nanos(self.nanos - span.nanos),
    {
        let moved: Option<i128> = self.nanos.checked_sub_unsigned(span.nanos);
        match moved {
            Some(nanos) => Instant { nanos },
            None => Instant { nanos: i128::MIN },
        }
    }

    /// Whether this point lies strictly after `other`.
    pub fn is_after(self, other: Instant) -> (b: bool)
        ensures
            b == (self.nanos > other.nanos),
    {
        self.nanos > other.nanos
    }

    /// The time left until `deadline`; `None` from the deadline on.
    pub fn until(self, deadline: Instant) -> (left: Option<Duration>)
        ensures
            match left {
                Some(d) => self.nanos < deadline.nanos && d.nanos == clamp_nanos(
                    deadline.nanos - self.nanos,
                ),
                None => self.nanos >= deadline.nanos,
            },
    {
        if self.nanos >= deadline.nanos {
            return None;
        }
        match deadline.nanos.checked_sub(self.nanos) {
            Some(d) => Some(Duration { nanos: d as u128 }),
            None => Some(Duration { nanos: i128::MAX as u128 }),
        }
    }

    /// Nanoseconds from `earlier` to this point, see [`elapsed_nanos`].
    pub fn nanos_since(self, earlier: Instant) -> (n: u64)
        ensures
            n == elapsed_nanos(earlier, self),
    {
        if self.nanos <= earlier.nanos {
            return 0;
        }
        match self.nanos.checked_sub(earlier.nanos) {
            Some(d) => if d > u64::MAX as i128 {
                u64::MAX
            } else {
                d as u64
            },
            None => u64::MAX,
        }
    }
}

/// The operating system's monotonic clock, `std::time::Instant`: opaque here.
#[verifier::external_type_specification]
#[verifier::external_body]
pub struct ExMonotonic(std::time::Instant);

/// `std::time::Instant::now`: the present moment. Nothing is claimed of it.
pub assume_specification[ std::time::Instant::now ]() -> std::time::Instant
;

/// Calls `std::time::Instant::elapsed` and gives the span back in nanoseconds.
/// What it returns is up to the passing of time, so nothing is claimed of it.
#[verifier::external_body]
fn nanos_elapsed(origin: &std::time::Instant) -> u128 {
    origin.elapsed().as_nanos()
}

/// A monotonic clock whose time line starts when it is made.
#[derive(Debug)]
pub struct Clock {
    origin: std::time::Instant,
}

impl Clock {
    /// The moment is a reading of this clock: one that was taken, not one that was made
    /// up.
    pub closed spec fn shows(&self, t: Instant) -> bool {
        exists|n: u128| #[trigger]
            call_ensures(nanos_elapsed, (&self.origin,), n) && t.nanos == clamp_nanos(n as int)
    }

    /// The moment is the present one for an operation that began at `since`: a reading of
    /// this clock, or `since` if the reading is before that.
    pub open spec fn tells(&self, since: Instant, t: Instant) -> bool {
        exists|reading: Instant| #[trigger]
            self.shows(reading) && t == if reading.nanos >= since.nanos {
                reading
            } else {
                since
            }
    }

    /// A clock that starts now.
    pub fn new() -> Clock {
        Clock { origin: std::time::Instant::now() }
    }

    /// The present moment on this clock's time line, which has no points before
    /// the origin to offer.
    pub fn now(&self) -> (t: Instant)
        ensures
            t.nanos >= 0,
            self.shows(t),
    {
        Instant::from_origin(nanos_elapsed(&self.origin))
    }

    /// The present moment for an operation that began at `since`.
    pub fn now_since(&self, since: Instant) -> (t: Instant)
        ensures
            self.tells(since, t),
    {
        let reading = self.now();
        if since.is_after(reading) {
            since
        } else {
            reading
        }
    }
}

/// What a clock shows is so many nanoseconds after its origin as have gone by since then,
/// as the operating system's clock says.
proof fn law_clocks_show_what_has_gone_by(clock: Clock, t: Instant)
    requires
        clock.shows(t),
    ensures
        t.nanos >= 0,
        exists|n: u128| #[trigger]
            call_ensures(nanos_elapsed, (&clock.origin,), n) && (t.nanos == n || t.nanos
                == i128::MAX && n > i128::MAX),
{
}

/// The present moment for an operation is not before the operation began, and not before
/// what the clock shows; if the operation began by this clock, it is one that the clock
/// shows.
pub proof fn law_the_present_is_not_past(clock: Clock, since: Instant, now: Instant)
    requires
        clock.tells(since, now),
    ensures
        now.nanos >= since.nanos,
        exists|reading: Instant| #[trigger]
            clock.shows(reading) && reading.nanos <= now.nanos && (now == reading || now == since),
        clock.shows(since) ==> clock.shows(now),
{
}

/// A moment after a span: as far on as the span is long, as far as there are points.
pub proof fn law_spans_are_added(t: Instant, span: Duration)
    ensures
        t.nanos + span.nanos <= i128::MAX ==> clamp_nanos(t.nanos + span.nanos) == t.nanos
            + span.nanos,
        clamp_nanos(t.nanos + span.nanos) >= t.nanos,
{
}

/// Queue times are differences: what lies between two moments adds up, and nothing lies
/// before the earlier one.
pub proof fn law_elapsed_time_adds_up(a: Instant, b: Instant, c: Instant)
    requires
        a.nanos <= b.nanos <= c.nanos,
        c.nanos - a.nanos <= u64::MAX,
    ensures
        elapsed_nanos(a, b) + elapsed_nanos(b, c) == c.nanos - a.nanos,
        elapsed_nanos(c, a) == 0,
        elapsed_nanos(b, a) == 0,
{
}

} // verus!
