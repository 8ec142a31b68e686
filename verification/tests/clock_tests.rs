use traffic::clock::{day_of_reading, epoch_second, today_from_ce};

#[test]
fn epoch_seconds_on_both_sides() {
    assert_eq!(Some(5), epoch_second(true, 5, 999_999_999));
    assert_eq!(Some(0), epoch_second(true, 0, 0));
    assert_eq!(Some(-5), epoch_second(false, 5, 0));
    assert_eq!(Some(-6), epoch_second(false, 5, 1));
    assert_eq!(Some(-1), epoch_second(false, 0, 500));
    assert_eq!(Some(i64::MAX), epoch_second(true, i64::MAX as u64, 0));
    assert_eq!(None, epoch_second(true, i64::MAX as u64 + 1, 0));
    assert_eq!(Some(i64::MIN), epoch_second(false, i64::MAX as u64 + 1, 0));
    assert_eq!(None, epoch_second(false, i64::MAX as u64 + 1, 1));
    assert_eq!(None, epoch_second(false, u64::MAX, 0));
}

#[test]
fn today_is_the_clock_day() {
    let expected = chrono::Datelike::num_days_from_ce(&chrono::Utc::now());
    assert_eq!(Some(expected), today_from_ce());
}

#[test]
fn day_of_a_clock_reading() {
    assert_eq!(Some(719_163), day_of_reading(true, 0, 0));
    assert_eq!(Some(719_163), day_of_reading(true, 86_399, 999_999_999));
    assert_eq!(Some(719_164), day_of_reading(true, 86_400, 0));
    assert_eq!(Some(719_162), day_of_reading(false, 1, 0));
    assert_eq!(Some(719_162), day_of_reading(false, 0, 5));
    assert_eq!(Some(719_162), day_of_reading(false, 86_400, 0));
    assert_eq!(Some(719_161), day_of_reading(false, 86_400, 1));
    assert_eq!(None, day_of_reading(true, i64::MAX as u64, 0));
    assert_eq!(None, day_of_reading(true, u64::MAX, 0));
}
