use std::cmp::Ordering;
use cs_timespan::{TimeSpan, TimeSpanError};

fn verify_time_span(
    ts: TimeSpan,
    days: i32,
    hours: i32,
    minutes: i32,
    seconds: i32,
    milliseconds: i32,
) {
    assert_eq!(days, ts.days());
    assert_eq!(hours, ts.hours());
    assert_eq!(minutes, ts.minutes());
    assert_eq!(seconds, ts.seconds());
    assert_eq!(milliseconds, ts.milliseconds());
}

fn verify_time_span_micro(
    ts: TimeSpan,
    days: i32,
    hours: i32,
    minutes: i32,
    seconds: i32,
    milliseconds: i32,
    microseconds: i32,
) {
    verify_time_span(ts, days, hours, minutes, seconds, milliseconds);
    assert_eq!(microseconds, ts.microseconds());
}

fn verify_time_span_nano(
    ts: TimeSpan,
    days: i32,
    hours: i32,
    minutes: i32,
    seconds: i32,
    milliseconds: i32,
    microseconds: i32,
    nanoseconds: i32,
) {
    verify_time_span_micro(
        ts,
        days,
        hours,
        minutes,
        seconds,
        milliseconds,
        microseconds,
    );
    assert_eq!(nanoseconds, ts.nanoseconds());
}

#[test]
fn construction_max_value() {
    verify_time_span(TimeSpan::max_value(), 10675199, 2, 48, 5, 477);
}

#[test]
fn construction_min_value() {
    verify_time_span(TimeSpan::min_value(), -10675199, -2, -48, -5, -477);
}

#[test]
fn construction_zero() {
    verify_time_span(TimeSpan::zero(), 0, 0, 0, 0, 0);
}

#[test]
fn construction_ctor_empty() {
    verify_time_span(TimeSpan::default(), 0, 0, 0, 0, 0);
}

#[test]
fn construction_ctor_long() {
    verify_time_span(
        TimeSpan::from_ticks(999999999999999999),
        1157407,
        9,
        46,
        39,
        999,
    );
}

#[test]
fn construction_equals_via_operators() {
    assert_eq!(TimeSpan::from_ticks(10000), TimeSpan::from_ticks(10000));
    assert_ne!(TimeSpan::from_ticks(10000), TimeSpan::from_ticks(20000));
}

#[test]
fn construction_static_equals() {
    assert!(TimeSpan::equals(
        TimeSpan::from_ticks(5),
        TimeSpan::from_ticks(5)
    ));
    assert!(!TimeSpan::equals(
        TimeSpan::from_ticks(5),
        TimeSpan::from_ticks(6)
    ));
}

#[test]
fn construction_static_compare() {

    assert_eq!(
        Ordering::Less,
        TimeSpan::compare(TimeSpan::from_ticks(1), TimeSpan::from_ticks(2))
    );
    assert_eq!(
        Ordering::Equal,
        TimeSpan::compare(TimeSpan::from_ticks(2), TimeSpan::from_ticks(2))
    );
    assert_eq!(
        Ordering::Greater,
        TimeSpan::compare(TimeSpan::from_ticks(3), TimeSpan::from_ticks(2))
    );
}

#[test]
fn construction_ctor_dhms_micro_equivalent() {
    let ticks = 10 * TimeSpan::TICKS_PER_DAY
        + 9 * TimeSpan::TICKS_PER_HOUR
        + 8 * TimeSpan::TICKS_PER_MINUTE
        + 7 * TimeSpan::TICKS_PER_SECOND
        + 6 * TimeSpan::TICKS_PER_MILLISECOND
        + 5 * TimeSpan::TICKS_PER_MICROSECOND;

    verify_time_span_micro(TimeSpan::from_ticks(ticks), 10, 9, 8, 7, 6, 5);
}

#[test]
fn construction_ctor_dhms_micro_with_nanosecond_equivalent() {
    let base_ticks = 10 * TimeSpan::TICKS_PER_DAY
        + 9 * TimeSpan::TICKS_PER_HOUR
        + 8 * TimeSpan::TICKS_PER_MINUTE
        + 7 * TimeSpan::TICKS_PER_SECOND
        + 6 * TimeSpan::TICKS_PER_MILLISECOND
        + 5 * TimeSpan::TICKS_PER_MICROSECOND;

    for nanoseconds in [100i32, 300, 900] {
        let ts = TimeSpan::from_ticks(base_ticks + (nanoseconds / 100) as i64);
        verify_time_span_nano(ts, 10, 9, 8, 7, 6, 5, nanoseconds);
    }
}

#[test]
fn construction_ctor_hms() {
    let time_span = TimeSpan::from_hms(10, 9, 8).unwrap();
    verify_time_span(time_span, 0, 10, 9, 8, 0);
}

#[test]
fn construction_ctor_dhms() {
    let time_span = TimeSpan::from_dhms(10, 9, 8, 7).unwrap();
    verify_time_span(time_span, 10, 9, 8, 7, 0);
}

#[test]
fn construction_ctor_dhms_milli() {
    let time_span = TimeSpan::from_dhms_milli(10, 9, 8, 7, 6).unwrap();
    verify_time_span(time_span, 10, 9, 8, 7, 6);
}

#[test]
fn construction_ctor_dhms_milli_invalid() {
    let min = TimeSpan::min_value();
    assert!(
        TimeSpan::from_dhms_milli(
            min.days() - 1,
            min.hours(),
            min.minutes(),
            min.seconds(),
            min.milliseconds()
        )
        .is_err()
    );
    assert!(
        TimeSpan::from_dhms_milli(
            min.days(),
            min.hours() - 1,
            min.minutes(),
            min.seconds(),
            min.milliseconds()
        )
        .is_err()
    );
    assert!(
        TimeSpan::from_dhms_milli(
            min.days(),
            min.hours(),
            min.minutes() - 1,
            min.seconds(),
            min.milliseconds()
        )
        .is_err()
    );
    assert!(
        TimeSpan::from_dhms_milli(
            min.days(),
            min.hours(),
            min.minutes(),
            min.seconds() - 1,
            min.milliseconds()
        )
        .is_err()
    );
    assert!(
        TimeSpan::from_dhms_milli(
            min.days(),
            min.hours(),
            min.minutes(),
            min.seconds(),
            min.milliseconds() - 1
        )
        .is_err()
    );

    let max = TimeSpan::max_value();
    assert!(
        TimeSpan::from_dhms_milli(
            max.days() + 1,
            max.hours(),
            max.minutes(),
            max.seconds(),
            max.milliseconds()
        )
        .is_err()
    );
    assert!(
        TimeSpan::from_dhms_milli(
            max.days(),
            max.hours() + 1,
            max.minutes(),
            max.seconds(),
            max.milliseconds()
        )
        .is_err()
    );
    assert!(
        TimeSpan::from_dhms_milli(
            max.days(),
            max.hours(),
            max.minutes() + 1,
            max.seconds(),
            max.milliseconds()
        )
        .is_err()
    );
    assert!(
        TimeSpan::from_dhms_milli(
            max.days(),
            max.hours(),
            max.minutes(),
            max.seconds() + 1,
            max.milliseconds()
        )
        .is_err()
    );
    assert!(
        TimeSpan::from_dhms_milli(
            max.days(),
            max.hours(),
            max.minutes(),
            max.seconds(),
            max.milliseconds() + 1
        )
        .is_err()
    );
}

#[test]
fn construction_ctor_dhms_micro() {
    let time_span = TimeSpan::from_dhms_micro(10, 9, 8, 7, 6, 5).unwrap();
    verify_time_span_micro(time_span, 10, 9, 8, 7, 6, 5);
}

#[test]
fn construction_ctor_dhms_micro_invalid() {
    let min = TimeSpan::min_value();
    assert!(
        TimeSpan::from_dhms_micro(
            min.days() - 1,
            min.hours(),
            min.minutes(),
            min.seconds(),
            min.milliseconds(),
            min.microseconds()
        )
        .is_err()
    );
    assert!(
        TimeSpan::from_dhms_micro(
            min.days(),
            min.hours() - 1,
            min.minutes(),
            min.seconds(),
            min.milliseconds(),
            min.microseconds()
        )
        .is_err()
    );
    assert!(
        TimeSpan::from_dhms_micro(
            min.days(),
            min.hours(),
            min.minutes() - 1,
            min.seconds(),
            min.milliseconds(),
            min.microseconds()
        )
        .is_err()
    );
    assert!(
        TimeSpan::from_dhms_micro(
            min.days(),
            min.hours(),
            min.minutes(),
            min.seconds() - 1,
            min.milliseconds(),
            min.microseconds()
        )
        .is_err()
    );
    assert!(
        TimeSpan::from_dhms_micro(
            min.days(),
            min.hours(),
            min.minutes(),
            min.seconds(),
            min.milliseconds() - 1,
            min.microseconds()
        )
        .is_err()
    );
    assert!(
        TimeSpan::from_dhms_micro(
            min.days(),
            min.hours(),
            min.minutes(),
            min.seconds(),
            min.milliseconds(),
            min.microseconds() - 1
        )
        .is_err()
    );

    let max = TimeSpan::max_value();
    assert!(
        TimeSpan::from_dhms_micro(
            max.days() + 1,
            max.hours(),
            max.minutes(),
            max.seconds(),
            max.milliseconds(),
            max.microseconds()
        )
        .is_err()
    );
    assert!(
        TimeSpan::from_dhms_micro(
            max.days(),
            max.hours() + 1,
            max.minutes(),
            max.seconds(),
            max.milliseconds(),
            max.microseconds()
        )
        .is_err()
    );
    assert!(
        TimeSpan::from_dhms_micro(
            max.days(),
            max.hours(),
            max.minutes() + 1,
            max.seconds(),
            max.milliseconds(),
            max.microseconds()
        )
        .is_err()
    );
    assert!(
        TimeSpan::from_dhms_micro(
            max.days(),
            max.hours(),
            max.minutes(),
            max.seconds() + 1,
            max.milliseconds(),
            max.microseconds()
        )
        .is_err()
    );
    assert!(
        TimeSpan::from_dhms_micro(
            max.days(),
            max.hours(),
            max.minutes(),
            max.seconds(),
            max.milliseconds() + 1,
            max.microseconds()
        )
        .is_err()
    );
    assert!(
        TimeSpan::from_dhms_micro(
            max.days(),
            max.hours(),
            max.minutes(),
            max.seconds(),
            max.milliseconds(),
            max.microseconds() + 1
        )
        .is_err()
    );
}

#[test]
fn construction_from_days_i32_basic() {
    assert_eq!(TimeSpan::from_hms(0, 0, 0), TimeSpan::from_days_i32(0));
    assert_eq!(
        Ok(TimeSpan::from_ticks(TimeSpan::TICKS_PER_DAY)),
        TimeSpan::from_days_i32(1)
    );
    assert_eq!(
        Ok(TimeSpan::from_ticks(-TimeSpan::TICKS_PER_DAY)),
        TimeSpan::from_days_i32(-1)
    );

    const MAX_DAYS: i32 = 10_675_199;
    assert_eq!(
        Ok(TimeSpan::from_ticks(
            MAX_DAYS as i64 * TimeSpan::TICKS_PER_DAY
        )),
        TimeSpan::from_days_i32(MAX_DAYS)
    );
    assert_eq!(
        Ok(TimeSpan::from_ticks(
            -MAX_DAYS as i64 * TimeSpan::TICKS_PER_DAY
        )),
        TimeSpan::from_days_i32(-MAX_DAYS)
    );
}

#[test]
fn construction_from_days_i32_overflow() {
    const MAX_DAYS: i32 = 10_675_199;
    assert_eq!(
        Err(TimeSpanError::Overflow),
        TimeSpan::from_days_i32(MAX_DAYS + 1)
    );
    assert_eq!(
        Err(TimeSpanError::Overflow),
        TimeSpan::from_days_i32(-(MAX_DAYS + 1))
    );
    assert_eq!(
        Err(TimeSpanError::Overflow),
        TimeSpan::from_days_i32(i32::MAX)
    );
    assert_eq!(
        Err(TimeSpanError::Overflow),
        TimeSpan::from_days_i32(i32::MIN)
    );
}

#[test]
fn construction_from_hours_i32_basic() {
    assert_eq!(TimeSpan::from_hms(0, 0, 0), TimeSpan::from_hours_i32(0));
    assert_eq!(
        Ok(TimeSpan::from_ticks(TimeSpan::TICKS_PER_HOUR)),
        TimeSpan::from_hours_i32(1)
    );
    assert_eq!(
        Ok(TimeSpan::from_ticks(-TimeSpan::TICKS_PER_HOUR)),
        TimeSpan::from_hours_i32(-1)
    );

    const MAX_HOURS: i32 = 256_204_778;
    assert_eq!(
        Ok(TimeSpan::from_ticks(
            MAX_HOURS as i64 * TimeSpan::TICKS_PER_HOUR
        )),
        TimeSpan::from_hours_i32(MAX_HOURS)
    );
    assert_eq!(
        Ok(TimeSpan::from_ticks(
            -MAX_HOURS as i64 * TimeSpan::TICKS_PER_HOUR
        )),
        TimeSpan::from_hours_i32(-MAX_HOURS)
    );
}

#[test]
fn construction_from_hours_i32_overflow() {
    const MAX_HOURS: i32 = 256_204_778;
    assert_eq!(
        Err(TimeSpanError::Overflow),
        TimeSpan::from_hours_i32(MAX_HOURS + 1)
    );
    assert_eq!(
        Err(TimeSpanError::Overflow),
        TimeSpan::from_hours_i32(-(MAX_HOURS + 1))
    );
    assert_eq!(
        Err(TimeSpanError::Overflow),
        TimeSpan::from_hours_i32(i32::MAX)
    );
    assert_eq!(
        Err(TimeSpanError::Overflow),
        TimeSpan::from_hours_i32(i32::MIN)
    );
}

#[test]
fn construction_from_minutes_i64_basic() {
    assert_eq!(TimeSpan::from_hms(0, 0, 0), TimeSpan::from_minutes_i64(0));
    assert_eq!(
        Ok(TimeSpan::from_ticks(TimeSpan::TICKS_PER_MINUTE)),
        TimeSpan::from_minutes_i64(1)
    );
    assert_eq!(
        Ok(TimeSpan::from_ticks(-TimeSpan::TICKS_PER_MINUTE)),
        TimeSpan::from_minutes_i64(-1)
    );

    const MAX_MINUTES: i64 = 15_372_286_728;
    assert_eq!(
        Ok(TimeSpan::from_ticks(
            MAX_MINUTES * TimeSpan::TICKS_PER_MINUTE
        )),
        TimeSpan::from_minutes_i64(MAX_MINUTES)
    );
    assert_eq!(
        Ok(TimeSpan::from_ticks(
            -MAX_MINUTES * TimeSpan::TICKS_PER_MINUTE
        )),
        TimeSpan::from_minutes_i64(-MAX_MINUTES)
    );
}

#[test]
fn construction_from_minutes_i64_overflow() {
    const MAX_MINUTES: i64 = 15_372_286_728;
    assert_eq!(
        Err(TimeSpanError::Overflow),
        TimeSpan::from_minutes_i64(MAX_MINUTES + 1)
    );
    assert_eq!(
        Err(TimeSpanError::Overflow),
        TimeSpan::from_minutes_i64(-(MAX_MINUTES + 1))
    );
    assert_eq!(
        Err(TimeSpanError::Overflow),
        TimeSpan::from_minutes_i64(i64::MAX)
    );
    assert_eq!(
        Err(TimeSpanError::Overflow),
        TimeSpan::from_minutes_i64(i64::MIN)
    );
}

#[test]
fn construction_from_seconds_i64_basic() {
    assert_eq!(TimeSpan::from_hms(0, 0, 0), TimeSpan::from_seconds_i64(0));
    assert_eq!(
        Ok(TimeSpan::from_ticks(TimeSpan::TICKS_PER_SECOND)),
        TimeSpan::from_seconds_i64(1)
    );
    assert_eq!(
        Ok(TimeSpan::from_ticks(-TimeSpan::TICKS_PER_SECOND)),
        TimeSpan::from_seconds_i64(-1)
    );

    const MAX_SECONDS: i64 = 922_337_203_685;
    assert_eq!(
        Ok(TimeSpan::from_ticks(
            MAX_SECONDS * TimeSpan::TICKS_PER_SECOND
        )),
        TimeSpan::from_seconds_i64(MAX_SECONDS)
    );
    assert_eq!(
        Ok(TimeSpan::from_ticks(
            -MAX_SECONDS * TimeSpan::TICKS_PER_SECOND
        )),
        TimeSpan::from_seconds_i64(-MAX_SECONDS)
    );
}

#[test]
fn construction_from_seconds_i64_overflow() {
    const MAX_SECONDS: i64 = 922_337_203_685;
    assert_eq!(
        Err(TimeSpanError::Overflow),
        TimeSpan::from_seconds_i64(MAX_SECONDS + 1)
    );
    assert_eq!(
        Err(TimeSpanError::Overflow),
        TimeSpan::from_seconds_i64(-(MAX_SECONDS + 1))
    );
    assert_eq!(
        Err(TimeSpanError::Overflow),
        TimeSpan::from_seconds_i64(i64::MAX)
    );
    assert_eq!(
        Err(TimeSpanError::Overflow),
        TimeSpan::from_seconds_i64(i64::MIN)
    );
}

#[test]
fn construction_from_milliseconds_i64_basic() {
    assert_eq!(
        TimeSpan::from_hms(0, 0, 0),
        TimeSpan::from_milliseconds_i64(0)
    );
    assert_eq!(
        Ok(TimeSpan::from_ticks(TimeSpan::TICKS_PER_MILLISECOND)),
        TimeSpan::from_milliseconds_i64(1)
    );
    assert_eq!(
        Ok(TimeSpan::from_ticks(-TimeSpan::TICKS_PER_MILLISECOND)),
        TimeSpan::from_milliseconds_i64(-1)
    );

    const MAX_MILLISECONDS: i64 = 922_337_203_685_477;
    assert_eq!(
        Ok(TimeSpan::from_ticks(
            MAX_MILLISECONDS * TimeSpan::TICKS_PER_MILLISECOND
        )),
        TimeSpan::from_milliseconds_i64(MAX_MILLISECONDS)
    );
    assert_eq!(
        Ok(TimeSpan::from_ticks(
            -MAX_MILLISECONDS * TimeSpan::TICKS_PER_MILLISECOND
        )),
        TimeSpan::from_milliseconds_i64(-MAX_MILLISECONDS)
    );
}

#[test]
fn construction_from_milliseconds_i64_overflow() {
    const MAX_MILLISECONDS: i64 = 922_337_203_685_477;
    assert_eq!(
        Err(TimeSpanError::Overflow),
        TimeSpan::from_milliseconds_i64(MAX_MILLISECONDS + 1)
    );
    assert_eq!(
        Err(TimeSpanError::Overflow),
        TimeSpan::from_milliseconds_i64(-(MAX_MILLISECONDS + 1))
    );
    assert_eq!(
        Err(TimeSpanError::Overflow),
        TimeSpan::from_milliseconds_i64(i64::MAX)
    );
    assert_eq!(
        Err(TimeSpanError::Overflow),
        TimeSpan::from_milliseconds_i64(i64::MIN)
    );
}

#[test]
fn from_microseconds_i64_basic() {
    assert_eq!(
        TimeSpan::from_hms(0, 0, 0),
        TimeSpan::from_microseconds_i64(0)
    );
    assert_eq!(
        Ok(TimeSpan::from_ticks(TimeSpan::TICKS_PER_MICROSECOND)),
        TimeSpan::from_microseconds_i64(1)
    );
    assert_eq!(
        Ok(TimeSpan::from_ticks(-TimeSpan::TICKS_PER_MICROSECOND)),
        TimeSpan::from_microseconds_i64(-1)
    );

    const MAX_MICROSECONDS: i64 = 922_337_203_685_477_580;
    assert_eq!(
        Ok(TimeSpan::from_ticks(
            MAX_MICROSECONDS * TimeSpan::TICKS_PER_MICROSECOND
        )),
        TimeSpan::from_microseconds_i64(MAX_MICROSECONDS)
    );
    assert_eq!(
        Ok(TimeSpan::from_ticks(
            -MAX_MICROSECONDS * TimeSpan::TICKS_PER_MICROSECOND
        )),
        TimeSpan::from_microseconds_i64(-MAX_MICROSECONDS)
    );
}

#[test]
fn from_microseconds_i64_overflow() {
    const MAX_MICROSECONDS: i64 = 922_337_203_685_477_580;
    assert_eq!(
        Err(TimeSpanError::Overflow),
        TimeSpan::from_microseconds_i64(MAX_MICROSECONDS + 1)
    );
    assert_eq!(
        Err(TimeSpanError::Overflow),
        TimeSpan::from_microseconds_i64(-(MAX_MICROSECONDS + 1))
    );
    assert_eq!(
        Err(TimeSpanError::Overflow),
        TimeSpan::from_microseconds_i64(i64::MAX)
    );
    assert_eq!(
        Err(TimeSpanError::Overflow),
        TimeSpan::from_microseconds_i64(i64::MIN)
    );
}

#[test]
fn from_days_parts_basic() {
    assert_eq!(
        Ok(TimeSpan::from_dhms_micro(1, 2, 3, 4, 5, 6).unwrap()),
        TimeSpan::from_days_parts(1, 2, 3, 4, 5, 6)
    );
    assert_eq!(
        Ok(TimeSpan::from_dhms_micro(-1, -2, -3, -4, -5, -6).unwrap()),
        TimeSpan::from_days_parts(-1, -2, -3, -4, -5, -6)
    );
    assert_eq!(
        Ok(TimeSpan::zero()),
        TimeSpan::from_days_parts(0, 0, 0, 0, 0, 0)
    );
    assert_eq!(
        Ok(TimeSpan::from_ticks(TimeSpan::TICKS_PER_DAY)),
        TimeSpan::from_days_parts(1, 0, 0, 0, 0, 0)
    );
}

#[test]
fn from_days_parts_overflow() {
    const MAX_DAYS: i32 = 10_675_199;
    const MAX_HOURS: i32 = 256_204_778;
    const MAX_MINUTES: i64 = 15_372_286_728;
    const MAX_SECONDS: i64 = 922_337_203_685;
    const MAX_MILLISECONDS: i64 = 922_337_203_685_477;
    const MAX_MICROSECONDS: i64 = 922_337_203_685_477_580;

    assert_eq!(
        Err(TimeSpanError::Overflow),
        TimeSpan::from_days_parts(MAX_DAYS + 1, 0, 0, 0, 0, 0)
    );
    assert_eq!(
        Err(TimeSpanError::Overflow),
        TimeSpan::from_days_parts(-(MAX_DAYS + 1), 0, 0, 0, 0, 0)
    );
    assert_eq!(
        Err(TimeSpanError::Overflow),
        TimeSpan::from_days_parts(0, MAX_HOURS + 1, 0, 0, 0, 0)
    );
    assert_eq!(
        Err(TimeSpanError::Overflow),
        TimeSpan::from_days_parts(0, 0, MAX_MINUTES + 1, 0, 0, 0)
    );
    assert_eq!(
        Err(TimeSpanError::Overflow),
        TimeSpan::from_days_parts(0, 0, 0, MAX_SECONDS + 1, 0, 0)
    );
    assert_eq!(
        Err(TimeSpanError::Overflow),
        TimeSpan::from_days_parts(0, 0, 0, 0, MAX_MILLISECONDS + 1, 0)
    );
    assert_eq!(
        Err(TimeSpanError::Overflow),
        TimeSpan::from_days_parts(0, 0, 0, 0, 0, MAX_MICROSECONDS + 1)
    );
    assert_eq!(
        Err(TimeSpanError::Overflow),
        TimeSpan::from_days_parts(i32::MAX, i32::MAX, i64::MAX, i64::MAX, i64::MAX, i64::MAX)
    );
    assert_eq!(
        Err(TimeSpanError::Overflow),
        TimeSpan::from_days_parts(i32::MIN, i32::MIN, i64::MIN, i64::MIN, i64::MIN, i64::MIN)
    );
}

#[test]
fn from_hours_parts_basic() {
    assert_eq!(
        Ok(TimeSpan::from_ticks(
            TimeSpan::TICKS_PER_HOUR
                + TimeSpan::TICKS_PER_MINUTE
                + TimeSpan::TICKS_PER_SECOND
                + TimeSpan::TICKS_PER_MILLISECOND
                + TimeSpan::TICKS_PER_MICROSECOND
        )),
        TimeSpan::from_hours_parts(1, 1, 1, 1, 1)
    );
    assert_eq!(
        Ok(TimeSpan::from_ticks(
            -(TimeSpan::TICKS_PER_HOUR
                + TimeSpan::TICKS_PER_MINUTE
                + TimeSpan::TICKS_PER_SECOND
                + TimeSpan::TICKS_PER_MILLISECOND
                + TimeSpan::TICKS_PER_MICROSECOND)
        )),
        TimeSpan::from_hours_parts(-1, -1, -1, -1, -1)
    );
    assert_eq!(
        Ok(TimeSpan::zero()),
        TimeSpan::from_hours_parts(0, 0, 0, 0, 0)
    );
}

#[test]
fn from_hours_parts_overflow() {
    const MAX_HOURS: i32 = 256_204_778;
    const MAX_MINUTES: i64 = 15_372_286_728;
    const MAX_SECONDS: i64 = 922_337_203_685;
    const MAX_MILLISECONDS: i64 = 922_337_203_685_477;
    const MAX_MICROSECONDS: i64 = 922_337_203_685_477_580;

    assert_eq!(
        Err(TimeSpanError::Overflow),
        TimeSpan::from_hours_parts(MAX_HOURS + 1, 0, 0, 0, 0)
    );
    assert_eq!(
        Err(TimeSpanError::Overflow),
        TimeSpan::from_hours_parts(-(MAX_HOURS + 1), 0, 0, 0, 0)
    );
    assert_eq!(
        Err(TimeSpanError::Overflow),
        TimeSpan::from_hours_parts(0, MAX_MINUTES + 1, 0, 0, 0)
    );
    assert_eq!(
        Err(TimeSpanError::Overflow),
        TimeSpan::from_hours_parts(0, 0, MAX_SECONDS + 1, 0, 0)
    );
    assert_eq!(
        Err(TimeSpanError::Overflow),
        TimeSpan::from_hours_parts(0, 0, 0, MAX_MILLISECONDS + 1, 0)
    );
    assert_eq!(
        Err(TimeSpanError::Overflow),
        TimeSpan::from_hours_parts(0, 0, 0, 0, MAX_MICROSECONDS + 1)
    );
}

#[test]
fn from_minutes_parts_basic() {
    assert_eq!(
        Ok(TimeSpan::from_ticks(
            TimeSpan::TICKS_PER_MINUTE
                + TimeSpan::TICKS_PER_SECOND
                + TimeSpan::TICKS_PER_MILLISECOND
                + TimeSpan::TICKS_PER_MICROSECOND
        )),
        TimeSpan::from_minutes_parts(1, 1, 1, 1)
    );
    assert_eq!(
        Ok(TimeSpan::from_ticks(
            -(TimeSpan::TICKS_PER_MINUTE
                + TimeSpan::TICKS_PER_SECOND
                + TimeSpan::TICKS_PER_MILLISECOND
                + TimeSpan::TICKS_PER_MICROSECOND)
        )),
        TimeSpan::from_minutes_parts(-1, -1, -1, -1)
    );
    assert_eq!(Ok(TimeSpan::zero()), TimeSpan::from_minutes_parts(0, 0, 0, 0));
}

#[test]
fn from_minutes_parts_overflow() {
    const MAX_MINUTES: i64 = 15_372_286_728;
    const MAX_SECONDS: i64 = 922_337_203_685;
    const MAX_MILLISECONDS: i64 = 922_337_203_685_477;
    const MAX_MICROSECONDS: i64 = 922_337_203_685_477_580;

    assert_eq!(
        Err(TimeSpanError::Overflow),
        TimeSpan::from_minutes_parts(MAX_MINUTES + 1, 0, 0, 0)
    );
    assert_eq!(
        Err(TimeSpanError::Overflow),
        TimeSpan::from_minutes_parts(-(MAX_MINUTES + 1), 0, 0, 0)
    );
    assert_eq!(
        Err(TimeSpanError::Overflow),
        TimeSpan::from_minutes_parts(0, MAX_SECONDS + 1, 0, 0)
    );
    assert_eq!(
        Err(TimeSpanError::Overflow),
        TimeSpan::from_minutes_parts(0, 0, MAX_MILLISECONDS + 1, 0)
    );
    assert_eq!(
        Err(TimeSpanError::Overflow),
        TimeSpan::from_minutes_parts(0, 0, 0, MAX_MICROSECONDS + 1)
    );
    assert_eq!(
        Err(TimeSpanError::Overflow),
        TimeSpan::from_minutes_parts(i64::MAX, i64::MAX, i64::MAX, i64::MAX)
    );
    assert_eq!(
        Err(TimeSpanError::Overflow),
        TimeSpan::from_minutes_parts(i64::MIN, i64::MIN, i64::MIN, i64::MIN)
    );
}

#[test]
fn from_seconds_parts_basic() {
    assert_eq!(
        Ok(TimeSpan::from_ticks(
            TimeSpan::TICKS_PER_SECOND
                + TimeSpan::TICKS_PER_MILLISECOND
                + TimeSpan::TICKS_PER_MICROSECOND
        )),
        TimeSpan::from_seconds_parts(1, 1, 1)
    );
    assert_eq!(
        Ok(TimeSpan::from_ticks(
            -(TimeSpan::TICKS_PER_SECOND
                + TimeSpan::TICKS_PER_MILLISECOND
                + TimeSpan::TICKS_PER_MICROSECOND)
        )),
        TimeSpan::from_seconds_parts(-1, -1, -1)
    );
    assert_eq!(Ok(TimeSpan::zero()), TimeSpan::from_seconds_parts(0, 0, 0));
}

#[test]
fn from_seconds_parts_precision() {
    assert_eq!(
        Ok(TimeSpan::from_dhms_micro(0, 0, 0, 101, 832, 0).unwrap()),
        TimeSpan::from_seconds_parts(101, 832, 0)
    );
}

#[test]
fn from_seconds_parts_overflow() {
    const MAX_SECONDS: i64 = 922_337_203_685;
    const MAX_MILLISECONDS: i64 = 922_337_203_685_477;
    const MAX_MICROSECONDS: i64 = 922_337_203_685_477_580;

    assert_eq!(
        Err(TimeSpanError::Overflow),
        TimeSpan::from_seconds_parts(MAX_SECONDS + 1, 0, 0)
    );
    assert_eq!(
        Err(TimeSpanError::Overflow),
        TimeSpan::from_seconds_parts(-(MAX_SECONDS + 1), 0, 0)
    );
    assert_eq!(
        Err(TimeSpanError::Overflow),
        TimeSpan::from_seconds_parts(0, MAX_MILLISECONDS + 1, 0)
    );
    assert_eq!(
        Err(TimeSpanError::Overflow),
        TimeSpan::from_seconds_parts(0, 0, MAX_MICROSECONDS + 1)
    );
    assert_eq!(
        Err(TimeSpanError::Overflow),
        TimeSpan::from_seconds_parts(i64::MAX, 0, 0)
    );
    assert_eq!(
        Err(TimeSpanError::Overflow),
        TimeSpan::from_seconds_parts(0, i64::MAX, 0)
    );
    assert_eq!(
        Err(TimeSpanError::Overflow),
        TimeSpan::from_seconds_parts(0, 0, i64::MAX)
    );
}

#[test]
fn from_milliseconds_parts_basic() {
    assert_eq!(
        Ok(TimeSpan::from_ticks(
            TimeSpan::TICKS_PER_MILLISECOND + TimeSpan::TICKS_PER_MICROSECOND
        )),
        TimeSpan::from_milliseconds_parts(1, 1)
    );
    assert_eq!(
        Ok(TimeSpan::from_ticks(
            -(TimeSpan::TICKS_PER_MILLISECOND + TimeSpan::TICKS_PER_MICROSECOND)
        )),
        TimeSpan::from_milliseconds_parts(-1, -1)
    );
    assert_eq!(Ok(TimeSpan::zero()), TimeSpan::from_milliseconds_parts(0, 0));
}

#[test]
fn from_milliseconds_parts_overflow() {
    const MAX_MILLISECONDS: i64 = 922_337_203_685_477;
    const MAX_MICROSECONDS: i64 = 922_337_203_685_477_580;

    assert_eq!(
        Err(TimeSpanError::Overflow),
        TimeSpan::from_milliseconds_parts(MAX_MILLISECONDS + 1, 0)
    );
    assert_eq!(
        Err(TimeSpanError::Overflow),
        TimeSpan::from_milliseconds_parts(-(MAX_MILLISECONDS + 1), 0)
    );
    assert_eq!(
        Err(TimeSpanError::Overflow),
        TimeSpan::from_milliseconds_parts(0, MAX_MICROSECONDS + 1)
    );
    assert_eq!(
        Err(TimeSpanError::Overflow),
        TimeSpan::from_milliseconds_parts(0, -(MAX_MICROSECONDS + 1))
    );
    assert_eq!(
        Err(TimeSpanError::Overflow),
        TimeSpan::from_milliseconds_parts(i64::MAX, 0)
    );
    assert_eq!(
        Err(TimeSpanError::Overflow),
        TimeSpan::from_milliseconds_parts(0, i64::MAX)
    );
}

#[test]
fn construction_ctor_hms_invalid() {
    assert!(TimeSpan::from_hms(-256_204_779, 0, 0).is_err());
    assert!(TimeSpan::from_hms(256_204_779, 0, 0).is_err());
}

#[test]
fn from_days_parts_opposite_sign_cancels_overflow() {
    const MAX_DAYS: i32 = 10_675_199;
    const MAX_MICROSECONDS: i64 = 922_337_203_685_477_580;

    let result =
        TimeSpan::from_days_parts(MAX_DAYS + 1, 0, 0, 0, 0, -(MAX_MICROSECONDS + 1)).unwrap();
    assert!(result > TimeSpan::from_ticks(-864_000_000_000));
    assert!(result < TimeSpan::from_ticks(864_000_000_000));
}
