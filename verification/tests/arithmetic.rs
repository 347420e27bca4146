use cs_timespan::{TimeSpan, TimeSpanError};

#[test]
fn arithmetic_checked_add_basic() {
    assert_eq!(
        Ok(TimeSpan::from_ticks(2)),
        TimeSpan::from_ticks(1).checked_add(TimeSpan::from_ticks(1))
    );
}

#[test]
fn arithmetic_checked_add_overflow() {
    assert_eq!(
        Err(TimeSpanError::Overflow),
        TimeSpan::max_value().checked_add(TimeSpan::from_ticks(1))
    );
}

#[test]
fn arithmetic_checked_add_opposite_signs_no_overflow() {
    assert_eq!(
        Ok(TimeSpan::from_ticks(-1)),
        TimeSpan::max_value().checked_add(TimeSpan::min_value())
    );
}

#[test]
fn arithmetic_checked_sub_basic() {
    assert_eq!(
        Ok(TimeSpan::from_ticks(2)),
        TimeSpan::from_ticks(5).checked_sub(TimeSpan::from_ticks(3))
    );
}

#[test]
fn arithmetic_checked_sub_overflow() {
    assert_eq!(
        Err(TimeSpanError::Overflow),
        TimeSpan::min_value().checked_sub(TimeSpan::from_ticks(1))
    );
}

#[test]
fn arithmetic_checked_sub_different_signs_overflow() {
    assert_eq!(
        Err(TimeSpanError::Overflow),
        TimeSpan::max_value().checked_sub(TimeSpan::min_value())
    );
}

#[test]
fn arithmetic_add_operator_basic() {
    assert_eq!(
        TimeSpan::from_ticks(2),
        TimeSpan::from_ticks(1) + TimeSpan::from_ticks(1)
    );
}

#[test]
#[should_panic(expected = "TimeSpan addition overflowed its representable range")]
fn arithmetic_add_operator_overflow_panics() {
    let _ = TimeSpan::max_value() + TimeSpan::from_ticks(1);
}

#[test]
fn arithmetic_sub_operator_basic() {
    assert_eq!(
        TimeSpan::from_ticks(2),
        TimeSpan::from_ticks(5) - TimeSpan::from_ticks(3)
    );
}

#[test]
#[should_panic(expected = "TimeSpan subtraction overflowed its representable range")]
fn arithmetic_sub_operator_overflow_panics() {
    let _ = TimeSpan::min_value() - TimeSpan::from_ticks(1);
}

#[test]
fn arithmetic_checked_neg_basic() {
    assert_eq!(
        Ok(TimeSpan::from_ticks(-12345)),
        TimeSpan::from_ticks(12345).checked_neg()
    );
    assert_eq!(
        Ok(TimeSpan::from_ticks(12345)),
        TimeSpan::from_ticks(-12345).checked_neg()
    );
    assert_eq!(Ok(TimeSpan::zero()), TimeSpan::zero().checked_neg());
}

#[test]
fn arithmetic_checked_neg_overflow() {
    assert_eq!(Err(TimeSpanError::Overflow), TimeSpan::min_value().checked_neg());
}

#[test]
fn arithmetic_neg_operator_basic() {
    assert_eq!(TimeSpan::from_ticks(-5), -TimeSpan::from_ticks(5));
}

#[test]
#[should_panic(expected = "overflowed its representable range")]
fn arithmetic_neg_operator_overflow_panics() {
    let _ = -TimeSpan::min_value();
}

#[test]
fn arithmetic_duration_basic() {
    assert_eq!(Ok(TimeSpan::zero()), TimeSpan::zero().duration());
    assert_eq!(
        Ok(TimeSpan::from_ticks(12345)),
        TimeSpan::from_ticks(12345).duration()
    );
    assert_eq!(
        Ok(TimeSpan::from_ticks(12345)),
        TimeSpan::from_ticks(-12345).duration()
    );
}

#[test]
fn arithmetic_duration_overflow() {
    assert_eq!(Err(TimeSpanError::Overflow), TimeSpan::min_value().duration());
}
