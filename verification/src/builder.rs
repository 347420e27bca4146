use vstd::prelude::*;

use crate::error::TimeSpanError;
use crate::time_span::{res_view, TimeSpan};

verus! {

/// The largest whole number of microseconds a span can hold.
pub open spec fn max_microseconds() -> int {
    922_337_203_685_477_580
}

/// The most negative whole number of microseconds a span can hold.
pub open spec fn min_microseconds() -> int {
    -922_337_203_685_477_580
}

/// The span of `total` microseconds, or `Overflow` when that many microseconds do not fit.
pub open spec fn from_microseconds_total(total: int) -> Result<int, TimeSpanError> {
    if min_microseconds() <= total <= max_microseconds() {
        Ok(total * 10)
    } else {
        Err(TimeSpanError::Overflow)
    }
}

/// The microseconds in a span of the given days, hours, minutes, seconds, milliseconds and
/// microseconds, each of which may be negative.
pub open spec fn components_microseconds(
    days: int,
    hours: int,
    minutes: int,
    seconds: int,
    milliseconds: int,
    microseconds: int,
) -> int {
    days * 86_400_000_000 + hours * 3_600_000_000 + minutes * 60_000_000 + seconds * 1_000_000
        + milliseconds * 1_000 + microseconds
}

/// Collects the day, hour, minute, second, millisecond and microsecond components of a span,
/// all zero until set, and sums them into a span with `build`.
#[derive(Debug, Clone, Copy, PartialEq, Eq, Structural)]
pub struct TimeSpanBuilder {
    days: i64,
    hours: i64,
    minutes: i64,
    seconds: i64,
    milliseconds: i64,
    microseconds: i64,
}

impl View for TimeSpanBuilder {
    /// The components, in the order days, hours, minutes, seconds, milliseconds,
    /// microseconds.
    type V = (int, int, int, int, int, int);

    closed spec fn view(&self) -> (int, int, int, int, int, int) {
        (
            self.days as int,
            self.hours as int,
            self.minutes as int,
            self.seconds as int,
            self.milliseconds as int,
            self.microseconds as int,
        )
    }
}

/// The components `c` with the one at `k` (0 for days, 1 for hours, 2 for minutes, 3 for
/// seconds, 4 for milliseconds, 5 for microseconds) replaced by `v`.
pub open spec fn set_component(
    c: (int, int, int, int, int, int),
    k: int,
    v: int,
) -> (int, int, int, int, int, int) {
    (
        if k == 0 { v } else { c.0 },
        if k == 1 { v } else { c.1 },
        if k == 2 { v } else { c.2 },
        if k == 3 { v } else { c.3 },
        if k == 4 { v } else { c.4 },
        if k == 5 { v } else { c.5 },
    )
}

/// The microseconds the components of a builder add up to.
pub open spec fn builder_microseconds(c: (int, int, int, int, int, int)) -> int {
    components_microseconds(c.0, c.1, c.2, c.3, c.4, c.5)
}

impl Default for TimeSpanBuilder {
    /// A builder whose components are all zero.
    fn default() -> (r: TimeSpanBuilder)
        ensures
            r@ == (0int, 0int, 0int, 0int, 0int, 0int),
    {
        TimeSpanBuilder {
            days: 0,
            hours: 0,
            minutes: 0,
            seconds: 0,
            milliseconds: 0,
            microseconds: 0,
        }
    }
}

impl TimeSpanBuilder {
    /// Sets the days component.
    pub fn days(self, value: i64) -> (r: TimeSpanBuilder)
        ensures
            r@ == set_component(self@, 0, value as int),
    {
        TimeSpanBuilder { days: value, ..self }
    }

    /// Sets the hours component.
    pub fn hours(self, value: i64) -> (r: TimeSpanBuilder)
        ensures
            r@ == set_component(self@, 1, value as int),
    {
        TimeSpanBuilder { hours: value, ..self }
    }

    /// Sets the minutes component.
    pub fn minutes(self, value: i64) -> (r: TimeSpanBuilder)
        ensures
            r@ == set_component(self@, 2, value as int),
    {
        TimeSpanBuilder { minutes: value, ..self }
    }

    /// Sets the seconds component.
    pub fn seconds(self, value: i64) -> (r: TimeSpanBuilder)
        ensures
            r@ == set_component(self@, 3, value as int),
    {
        TimeSpanBuilder { seconds: value, ..self }
    }

    /// Sets the milliseconds component.
    pub fn milliseconds(self, value: i64) -> (r: TimeSpanBuilder)
        ensures
            r@ == set_component(self@, 4, value as int),
    {
        TimeSpanBuilder { milliseconds: value, ..self }
    }

    /// Sets the microseconds component.
    pub fn microseconds(self, value: i64) -> (r: TimeSpanBuilder)
        ensures
            r@ == set_component(self@, 5, value as int),
    {
        TimeSpanBuilder { microseconds: value, ..self }
    }

    /// Sums the components, computed without intermediate overflow, into a span; `Overflow`
    /// when the total number of microseconds does not fit in a span.
    pub fn build(self) -> (r: Result<TimeSpan, TimeSpanError>)
        ensures
            res_view(r) == from_microseconds_total(builder_microseconds(self@)),
    {
        let total: i128 = self.days as i128 * 86_400_000_000i128
            + self.hours as i128 * 3_600_000_000i128
            + self.minutes as i128 * 60_000_000i128
            + self.seconds as i128 * 1_000_000i128
            + self.milliseconds as i128 * 1_000i128
            + self.microseconds as i128;
        if total > 922_337_203_685_477_580i128 || total < -922_337_203_685_477_580i128 {
            return Err(TimeSpanError::Overflow);
        }
        let ticks = total as i64 * 10;
        Ok(TimeSpan::from_ticks(ticks))
    }
}


impl TimeSpan {
    /// A builder with every component zero.
    pub fn builder() -> (r: TimeSpanBuilder)
        ensures
            r@ == (0int, 0int, 0int, 0int, 0int, 0int),
    {
        TimeSpanBuilder::default()
    }

    /// A whole number of days; `Overflow` outside the representable range.
    pub fn from_days_i32(days: i32) -> (r: Result<TimeSpan, TimeSpanError>)
        ensures
            res_view(r) == from_microseconds_total(components_microseconds(days as int, 0, 0, 0, 0, 0)),
    {
        TimeSpan::builder().days(days as i64).build()
    }

    /// A whole number of hours; `Overflow` outside the representable range.
    pub fn from_hours_i32(hours: i32) -> (r: Result<TimeSpan, TimeSpanError>)
        ensures
            res_view(r) == from_microseconds_total(components_microseconds(0, hours as int, 0, 0, 0, 0)),
    {
        TimeSpan::builder().hours(hours as i64).build()
    }

    /// A whole number of minutes; `Overflow` outside the representable range.
    pub fn from_minutes_i64(minutes: i64) -> (r: Result<TimeSpan, TimeSpanError>)
        ensures
            res_view(r) == from_microseconds_total(components_microseconds(0, 0, minutes as int, 0, 0, 0)),
    {
        TimeSpan::builder().minutes(minutes).build()
    }

    /// A whole number of seconds; `Overflow` outside the representable range.
    pub fn from_seconds_i64(seconds: i64) -> (r: Result<TimeSpan, TimeSpanError>)
        ensures
            res_view(r) == from_microseconds_total(components_microseconds(0, 0, 0, seconds as int, 0, 0)),
    {
        TimeSpan::builder().seconds(seconds).build()
    }

    /// A whole number of milliseconds; `Overflow` outside the representable range.
    pub fn from_milliseconds_i64(milliseconds: i64) -> (r: Result<TimeSpan, TimeSpanError>)
        ensures
            res_view(r) == from_microseconds_total(components_microseconds(0, 0, 0, 0, milliseconds as int, 0)),
    {
        TimeSpan::builder().milliseconds(milliseconds).build()
    }

    /// A whole number of microseconds; `Overflow` outside the representable range.
    pub fn from_microseconds_i64(microseconds: i64) -> (r: Result<TimeSpan, TimeSpanError>)
        ensures
            res_view(r) == from_microseconds_total(components_microseconds(0, 0, 0, 0, 0, microseconds as int)),
    {
        TimeSpan::builder().microseconds(microseconds).build()
    }

    /// Hours, minutes and seconds summed; `Overflow` outside the representable range.
    pub fn from_hms(hours: i32, minutes: i32, seconds: i32) -> (r: Result<TimeSpan, TimeSpanError>)
        ensures
            res_view(r) == from_microseconds_total(components_microseconds(0, hours as int, minutes as int, seconds as int, 0, 0)),
    {
        TimeSpan::builder().hours(hours as i64).minutes(minutes as i64).seconds(seconds as i64).build()
    }

    /// Days, hours, minutes and seconds summed; `Overflow` outside the representable range.
    pub fn from_dhms(days: i32, hours: i32, minutes: i32, seconds: i32) -> (r: Result<TimeSpan, TimeSpanError>)
        ensures
            res_view(r) == from_microseconds_total(components_microseconds(days as int, hours as int, minutes as int, seconds as int, 0, 0)),
    {
        TimeSpan::builder().days(days as i64).hours(hours as i64).minutes(minutes as i64).seconds(seconds as i64).build()
    }

    /// Days through milliseconds summed; `Overflow` outside the representable range.
    pub fn from_dhms_milli(days: i32, hours: i32, minutes: i32, seconds: i32, milliseconds: i32) -> (r: Result<TimeSpan, TimeSpanError>)
        ensures
            res_view(r) == from_microseconds_total(components_microseconds(days as int, hours as int, minutes as int, seconds as int, milliseconds as int, 0)),
    {
        TimeSpan::builder().days(days as i64).hours(hours as i64).minutes(minutes as i64).seconds(seconds as i64).milliseconds(milliseconds as i64).build()
    }

    /// Days through microseconds summed; `Overflow` outside the representable range.
    pub fn from_dhms_micro(days: i32, hours: i32, minutes: i32, seconds: i32, milliseconds: i32, microseconds: i32) -> (r: Result<TimeSpan, TimeSpanError>)
        ensures
            res_view(r) == from_microseconds_total(components_microseconds(days as int, hours as int, minutes as int, seconds as int, milliseconds as int, microseconds as int)),
    {
        TimeSpan::builder().days(days as i64).hours(hours as i64).minutes(minutes as i64).seconds(seconds as i64).milliseconds(milliseconds as i64).microseconds(microseconds as i64).build()
    }

    /// Days plus smaller units, summed without intermediate overflow; `Overflow` outside the representable range.
    pub fn from_days_parts(days: i32, hours: i32, minutes: i64, seconds: i64, milliseconds: i64, microseconds: i64) -> (r: Result<TimeSpan, TimeSpanError>)
        ensures
            res_view(r) == from_microseconds_total(components_microseconds(days as int, hours as int, minutes as int, seconds as int, milliseconds as int, microseconds as int)),
    {
        TimeSpan::builder().days(days as i64).hours(hours as i64).minutes(minutes).seconds(seconds).milliseconds(milliseconds).microseconds(microseconds).build()
    }

    /// Hours plus smaller units, summed without intermediate overflow; `Overflow` outside the representable range.
    pub fn from_hours_parts(hours: i32, minutes: i64, seconds: i64, milliseconds: i64, microseconds: i64) -> (r: Result<TimeSpan, TimeSpanError>)
        ensures
            res_view(r) == from_microseconds_total(components_microseconds(0, hours as int, minutes as int, seconds as int, milliseconds as int, microseconds as int)),
    {
        TimeSpan::builder().hours(hours as i64).minutes(minutes).seconds(seconds).milliseconds(milliseconds).microseconds(microseconds).build()
    }

    /// Minutes plus smaller units, summed without intermediate overflow; `Overflow` outside the representable range.
    pub fn from_minutes_parts(minutes: i64, seconds: i64, milliseconds: i64, microseconds: i64) -> (r: Result<TimeSpan, TimeSpanError>)
        ensures
            res_view(r) == from_microseconds_total(components_microseconds(0, 0, minutes as int, seconds as int, milliseconds as int, microseconds as int)),
    {
        TimeSpan::builder().minutes(minutes).seconds(seconds).milliseconds(milliseconds).microseconds(microseconds).build()
    }

    /// Seconds plus smaller units, summed without intermediate overflow; `Overflow` outside the representable range.
    pub fn from_seconds_parts(seconds: i64, milliseconds: i64, microseconds: i64) -> (r: Result<TimeSpan, TimeSpanError>)
        ensures
            res_view(r) == from_microseconds_total(components_microseconds(0, 0, 0, seconds as int, milliseconds as int, microseconds as int)),
    {
        TimeSpan::builder().seconds(seconds).milliseconds(milliseconds).microseconds(microseconds).build()
    }

    /// Milliseconds plus microseconds, summed without intermediate overflow; `Overflow` outside the representable range.
    pub fn from_milliseconds_parts(milliseconds: i64, microseconds: i64) -> (r: Result<TimeSpan, TimeSpanError>)
        ensures
            res_view(r) == from_microseconds_total(components_microseconds(0, 0, 0, 0, milliseconds as int, microseconds as int)),
    {
        TimeSpan::builder().milliseconds(milliseconds).microseconds(microseconds).build()
    }
}

} // verus!
