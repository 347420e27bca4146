use std::cmp::Ordering;

use vstd::prelude::*;

use crate::error::TimeSpanError;

verus! {

/// Ticks in one microsecond, second, ... as mathematical integers.
pub open spec fn ticks_per_microsecond() -> int { 10 }
pub open spec fn ticks_per_millisecond() -> int { 10_000 }
pub open spec fn ticks_per_second() -> int { 10_000_000 }
pub open spec fn ticks_per_minute() -> int { 600_000_000 }
pub open spec fn ticks_per_hour() -> int { 36_000_000_000 }
pub open spec fn ticks_per_day() -> int { 864_000_000_000 }

/// Division rounding toward zero, as Rust's `/` on signed integers does.
pub open spec fn trunc_div(a: int, b: int) -> int {
    if a >= 0 { a / b } else { -((-a) / b) }
}

/// The remainder matching `trunc_div`, carrying the sign of `a`.
pub open spec fn trunc_rem(a: int, b: int) -> int {
    if a >= 0 { a % b } else { -((-a) % b) }
}

/// The absolute value of an integer.
pub open spec fn abs(a: int) -> int {
    if a >= 0 { a } else { -a }
}

/// Whether an integer fits in an `i64`.
pub open spec fn fits_i64(v: int) -> bool {
    i64::MIN <= v <= i64::MAX
}

/// The tick count of `a + b`, or `Overflow` when it leaves the `i64` range.
pub open spec fn sum_result(a: int, b: int) -> Result<int, TimeSpanError> {
    if fits_i64(a + b) {
        Ok(a + b)
    } else {
        Err(TimeSpanError::Overflow)
    }
}

/// The tick count of `a - b`, or `Overflow` when it leaves the `i64` range.
pub open spec fn difference_result(a: int, b: int) -> Result<int, TimeSpanError> {
    if fits_i64(a - b) {
        Ok(a - b)
    } else {
        Err(TimeSpanError::Overflow)
    }
}

/// The tick count of `-a`, or `Overflow` for `i64::MIN`, the one tick count whose negation
/// does not fit.
pub open spec fn negation_result(a: int) -> Result<int, TimeSpanError> {
    if a != i64::MIN {
        Ok(-a)
    } else {
        Err(TimeSpanError::Overflow)
    }
}

/// A span of time counted in 100-nanosecond ticks, in the full `i64` range.
#[derive(Debug, Clone, Copy, PartialEq, Eq, Structural, PartialOrd, Ord, Hash)]
pub struct TimeSpan {
    ticks: i64,
}

impl View for TimeSpan {
    type V = int;

    closed spec fn view(&self) -> int {
        self.ticks as int
    }
}

/// The tick count of a successful result, or the error.
pub open spec fn res_view(r: Result<TimeSpan, TimeSpanError>) -> Result<int, TimeSpanError> {
    match r {
        Ok(t) => Ok(t@),
        Err(e) => Err(e),
    }
}

/// Every span's tick count lies in the `i64` range.
pub broadcast proof fn lemma_view_in_range(t: TimeSpan)
    ensures
        fits_i64(#[trigger] t@),
{
}

/// The span holding `v` ticks, for `v` in the `i64` range.
pub closed spec fn span_of(v: int) -> TimeSpan {
    TimeSpan { ticks: v as i64 }
}

/// `span_of` is the inverse of the view on the `i64` range.
pub broadcast proof fn lemma_span_of(v: int)
    requires
        fits_i64(v),
    ensures
        #[trigger] span_of(v)@ == v,
{
}

impl TimeSpan {
    pub const NANOSECONDS_PER_TICK: i64 = 100;
    pub const TICKS_PER_MICROSECOND: i64 = 10;
    pub const TICKS_PER_MILLISECOND: i64 = 10_000;
    pub const TICKS_PER_SECOND: i64 = 10_000_000;
    pub const TICKS_PER_MINUTE: i64 = 600_000_000;
    pub const TICKS_PER_HOUR: i64 = 36_000_000_000;
    pub const TICKS_PER_DAY: i64 = 864_000_000_000;

    pub const MICROSECONDS_PER_MILLISECOND: i64 = 1_000;
    pub const MICROSECONDS_PER_SECOND: i64 = 1_000_000;
    pub const MICROSECONDS_PER_MINUTE: i64 = 60_000_000;
    pub const MICROSECONDS_PER_HOUR: i64 = 3_600_000_000;
    pub const MICROSECONDS_PER_DAY: i64 = 86_400_000_000;

    pub const MILLISECONDS_PER_SECOND: i64 = 1_000;
    pub const MILLISECONDS_PER_MINUTE: i64 = 60_000;
    pub const MILLISECONDS_PER_HOUR: i64 = 3_600_000;
    pub const MILLISECONDS_PER_DAY: i64 = 86_400_000;

    pub const SECONDS_PER_MINUTE: i64 = 60;
    pub const SECONDS_PER_HOUR: i64 = 3_600;
    pub const SECONDS_PER_DAY: i64 = 86_400;

    pub const MINUTES_PER_HOUR: i64 = 60;
    pub const MINUTES_PER_DAY: i64 = 1_440;

    pub const HOURS_PER_DAY: i32 = 24;

    /// The empty span.
    pub fn zero() -> (r: TimeSpan)
        ensures
            r@ == 0,
    {
        TimeSpan { ticks: 0 }
    }

    /// The longest positive span: `i64::MAX` ticks.
    pub fn max_value() -> (r: TimeSpan)
        ensures
            r@ == i64::MAX,
    {
        TimeSpan { ticks: i64::MAX }
    }

    /// The longest negative span: `i64::MIN` ticks.
    pub fn min_value() -> (r: TimeSpan)
        ensures
            r@ == i64::MIN,
    {
        TimeSpan { ticks: i64::MIN }
    }

    /// Builds a span holding exactly `ticks` ticks.
    pub fn from_ticks(ticks: i64) -> (r: TimeSpan)
        ensures
            r@ == ticks,
    {
        TimeSpan { ticks }
    }

    /// The tick count.
    pub fn ticks(&self) -> (r: i64)
        ensures
            r == self@,
    {
        self.ticks
    }

    /// The magnitude of the tick count, which always fits in a `u64`.
    pub(crate) fn magnitude(&self) -> (r: u64)
        ensures
            r == abs(self@),
    {
        if self.ticks >= 0 {
            self.ticks as u64
        } else if self.ticks == i64::MIN {
            9_223_372_036_854_775_808u64
        } else {
            (-self.ticks) as u64
        }
    }

    /// Whole days, rounded toward zero.
    pub fn days(&self) -> (r: i32)
        ensures
            r == trunc_div(self@, ticks_per_day()),
    {
        let m = self.magnitude();
        let d = m / 864_000_000_000u64;
        assert(d <= 10_675_200);
        if self.ticks >= 0 { d as i32 } else { -(d as i32) }
    }

    /// The hours component, in `-23..=23`, carrying the span's sign.
    pub fn hours(&self) -> (r: i32)
        ensures
            r == trunc_rem(trunc_div(self@, ticks_per_hour()), 24),
    {
        let m = self.magnitude();
        let h = (m / 36_000_000_000u64 % 24) as i32;
        if self.ticks >= 0 { h } else { -h }
    }

    /// The minutes component, in `-59..=59`, carrying the span's sign.
    pub fn minutes(&self) -> (r: i32)
        ensures
            r == trunc_rem(trunc_div(self@, ticks_per_minute()), 60),
    {
        let m = self.magnitude();
        let v = (m / 600_000_000u64 % 60) as i32;
        if self.ticks >= 0 { v } else { -v }
    }

    /// The seconds component, in `-59..=59`, carrying the span's sign.
    pub fn seconds(&self) -> (r: i32)
        ensures
            r == trunc_rem(trunc_div(self@, ticks_per_second()), 60),
    {
        let m = self.magnitude();
        let v = (m / 10_000_000u64 % 60) as i32;
        if self.ticks >= 0 { v } else { -v }
    }

    /// The milliseconds component, in `-999..=999`, carrying the span's sign.
    pub fn milliseconds(&self) -> (r: i32)
        ensures
            r == trunc_rem(trunc_div(self@, ticks_per_millisecond()), 1000),
    {
        let m = self.magnitude();
        let v = (m / 10_000u64 % 1000) as i32;
        if self.ticks >= 0 { v } else { -v }
    }

    /// The microseconds component, in `-999..=999`, carrying the span's sign.
    pub fn microseconds(&self) -> (r: i32)
        ensures
            r == trunc_rem(trunc_div(self@, ticks_per_microsecond()), 1000),
    {
        let m = self.magnitude();
        let v = (m / 10u64 % 1000) as i32;
        if self.ticks >= 0 { v } else { -v }
    }

    /// The nanoseconds component, a multiple of 100 in `-900..=900`, carrying the span's sign.
    pub fn nanoseconds(&self) -> (r: i32)
        ensures
            r == trunc_rem(self@, ticks_per_microsecond()) * 100,
    {
        let m = self.magnitude();
        let v = (m % 10u64) as i32 * 100;
        if self.ticks >= 0 { v } else { -v }
    }

    /// The sum of two spans; `Overflow` exactly when the true sum leaves the `i64` range.
    pub fn checked_add(self, rhs: TimeSpan) -> (r: Result<TimeSpan, TimeSpanError>)
        ensures
            res_view(r) == sum_result(self@, rhs@),
    {
        match self.ticks.checked_add(rhs.ticks) {
            Some(ticks) => Ok(TimeSpan { ticks }),
            None => Err(TimeSpanError::Overflow),
        }
    }

    /// The difference of two spans; `Overflow` exactly when the true difference leaves the
    /// `i64` range.
    pub fn checked_sub(self, rhs: TimeSpan) -> (r: Result<TimeSpan, TimeSpanError>)
        ensures
            res_view(r) == difference_result(self@, rhs@),
    {
        match self.ticks.checked_sub(rhs.ticks) {
            Some(ticks) => Ok(TimeSpan { ticks }),
            None => Err(TimeSpanError::Overflow),
        }
    }

    /// The negated span; `Overflow` only for `min_value()`, whose negation does not fit.
    pub fn checked_neg(self) -> (r: Result<TimeSpan, TimeSpanError>)
        ensures
            res_view(r) == negation_result(self@),
    {
        if self.ticks == i64::MIN {
            Err(TimeSpanError::Overflow)
        } else {
            Ok(TimeSpan { ticks: -self.ticks })
        }
    }

    /// The absolute value of the span; `Overflow` only for `min_value()`.
    pub fn duration(self) -> (r: Result<TimeSpan, TimeSpanError>)
        ensures
            res_view(r) == (if self@ != i64::MIN {
                Ok(abs(self@))
            } else {
                Err(TimeSpanError::Overflow)
            }),
    {
        if self.ticks == i64::MIN {
            Err(TimeSpanError::Overflow)
        } else if self.ticks < 0 {
            Ok(TimeSpan { ticks: -self.ticks })
        } else {
            Ok(self)
        }
    }

    /// Whether two spans hold the same number of ticks.
    pub fn equals(t1: TimeSpan, t2: TimeSpan) -> (r: bool)
        ensures
            r == (t1@ == t2@),
    {
        t1.ticks == t2.ticks
    }

    /// Orders two spans by their tick counts.
    pub fn compare(t1: TimeSpan, t2: TimeSpan) -> (r: Ordering)
        ensures
            t1@ < t2@ ==> r == Ordering::Less,
            t1@ == t2@ ==> r == Ordering::Equal,
            t1@ > t2@ ==> r == Ordering::Greater,
    {
        if t1.ticks < t2.ticks {
            Ordering::Less
        } else if t1.ticks == t2.ticks {
            Ordering::Equal
        } else {
            Ordering::Greater
        }
    }
}

impl Default for TimeSpan {
    /// The empty span.
    fn default() -> (r: TimeSpan)
        ensures
            r@ == 0,
    {
        TimeSpan { ticks: 0 }
    }
}

impl vstd::std_specs::ops::NegSpecImpl for TimeSpan {
    open spec fn obeys_neg_spec() -> bool {
        true
    }

    open spec fn neg_req(self) -> bool {
        self@ != i64::MIN
    }

    open spec fn neg_spec(self) -> TimeSpan {
        span_of(-self@)
    }
}

/// `-t`, defined for every span but `min_value()`.
impl std::ops::Neg for TimeSpan {
    type Output = TimeSpan;

    fn neg(self) -> (r: TimeSpan) {
        self.checked_neg().expect("TimeSpan negation overflowed its representable range")
    }
}

impl vstd::std_specs::ops::AddSpecImpl for TimeSpan {
    open spec fn obeys_add_spec() -> bool {
        true
    }

    open spec fn add_req(self, rhs: TimeSpan) -> bool {
        fits_i64(self@ + rhs@)
    }

    open spec fn add_spec(self, rhs: TimeSpan) -> TimeSpan {
        span_of(self@ + rhs@)
    }
}

/// `a + b`, defined when the sum stays in range.
impl std::ops::Add for TimeSpan {
    type Output = TimeSpan;

    fn add(self, rhs: TimeSpan) -> (r: TimeSpan) {
        self.checked_add(rhs).expect("TimeSpan addition overflowed its representable range")
    }
}

impl vstd::std_specs::ops::SubSpecImpl for TimeSpan {
    open spec fn obeys_sub_spec() -> bool {
        true
    }

    open spec fn sub_req(self, rhs: TimeSpan) -> bool {
        fits_i64(self@ - rhs@)
    }

    open spec fn sub_spec(self, rhs: TimeSpan) -> TimeSpan {
        span_of(self@ - rhs@)
    }
}

/// `a - b`, defined when the difference stays in range.
impl std::ops::Sub for TimeSpan {
    type Output = TimeSpan;

    fn sub(self, rhs: TimeSpan) -> (r: TimeSpan) {
        self.checked_sub(rhs).expect("TimeSpan subtraction overflowed its representable range")
    }
}

} // verus!
