use chrono::{Datelike, Duration, TimeZone, Utc};
use traffic::views::{Direction, Trend, Views, ViewsForDay, ViewsForTwoWeeks};

const DAY: i64 = 86_400;
/// The day number (from the start of the era) of 1970-01-01.
const EPOCH_DAY: i64 = 719_163;

fn start_of_today() -> chrono::DateTime<Utc> {
    let now = Utc::now();
    Utc.with_ymd_and_hms(now.year(), now.month(), now.day(), 0, 0, 0).unwrap()
}

/// A history with `counts[k]` unique visitors `k + 1` days before day
/// `today` (a day number from the start of the era).
fn history_before(today: i64, counts: &[u32]) -> ViewsForTwoWeeks {
    let mut views = Vec::new();
    for (k, c) in counts.iter().enumerate() {
        let day = today - (k as i64 + 1);
        views.push(ViewsForDay { timestamp: (day - EPOCH_DAY) * DAY, uniques: *c, count: *c });
    }
    ViewsForTwoWeeks { uniques: 0, count: 0, views }
}

#[test]
fn get_views_from_past_empty_history() {
    let views = ViewsForTwoWeeks { uniques: 0, count: 0, views: vec![] };
    assert_eq!(Views { uniques: 0, count: 0 }, views.get_views_from_past(0));
}

#[test]
fn get_views_from_past_missing_day() {
    let today = start_of_today();
    let yesterday = today - Duration::days(1);

    let day = ViewsForDay { timestamp: yesterday.timestamp(), uniques: 2, count: 7 };
    let views = ViewsForTwoWeeks { uniques: 2, count: 7, views: vec![day] };
    assert_eq!(Views { uniques: 0, count: 0 }, views.get_views_from_past(7));
}

#[test]
fn get_views_from_past() {
    let today = start_of_today();
    let yesterday = today - Duration::days(1);

    let day = ViewsForDay { timestamp: yesterday.timestamp(), uniques: 2, count: 7 };
    let views = ViewsForTwoWeeks { uniques: 2, count: 7, views: vec![day] };
    assert_eq!(Views { uniques: 2, count: 7 }, views.get_views_from_past(1));
}

#[test]
fn get_trend() {
    let views = ViewsForTwoWeeks { uniques: 0, count: 0, views: vec![] };
    assert_eq!(None, views.get_trend_uniques());
}

#[test]
fn get_trend_two_days_up() {
    let today_timestamp = start_of_today();
    let yesterday_timestamp = today_timestamp - Duration::days(1);
    let two_days_ago_timestamp = yesterday_timestamp - Duration::days(1);

    let yesterday = ViewsForDay { timestamp: yesterday_timestamp.timestamp(), uniques: 25, count: 30 };
    let two_days_ago = ViewsForDay { timestamp: two_days_ago_timestamp.timestamp(), uniques: 10, count: 15 };
    // three days ago, zero views
    let views = ViewsForTwoWeeks { uniques: 35, count: 45, views: vec![yesterday, two_days_ago] };
    assert_eq!(Some(Trend::new(Direction::UP, 2)), views.get_trend_uniques())
}

#[test]
fn get_trend_one_day_up() {
    let today_timestamp = start_of_today();
    let yesterday_timestamp = today_timestamp - Duration::days(1);

    let yesterday = ViewsForDay { timestamp: yesterday_timestamp.timestamp(), uniques: 25, count: 30 };
    // two days ago, zero views
    let views = ViewsForTwoWeeks { uniques: 25, count: 30, views: vec![yesterday] };
    assert_eq!(Some(Trend::new(Direction::UP, 1)), views.get_trend_uniques())
}

#[test]
fn get_trend_one_day_down() {
    let today_timestamp = start_of_today();
    let yesterday_timestamp = today_timestamp - Duration::days(1);
    let two_days_ago_timestamp = yesterday_timestamp - Duration::days(1);

    let yesterday = ViewsForDay { timestamp: yesterday_timestamp.timestamp(), uniques: 10, count: 15 };
    let two_days_ago = ViewsForDay { timestamp: two_days_ago_timestamp.timestamp(), uniques: 25, count: 30 };
    let views = ViewsForTwoWeeks { uniques: 35, count: 45, views: vec![yesterday, two_days_ago] };
    assert_eq!(Some(Trend::new(Direction::DOWN, 1)), views.get_trend_uniques())
}

#[test]
fn views_on_day_reads_the_calendar_day_of_each_timestamp() {
    // 1970-01-03 12:00 UTC falls on day 719165; the lookup goes by that day,
    // not by the raw timestamp.
    let day = ViewsForDay { timestamp: 2 * DAY + DAY / 2, uniques: 4, count: 9 };
    let views = ViewsForTwoWeeks { uniques: 4, count: 9, views: vec![day] };
    assert_eq!(Views { uniques: 4, count: 9 }, views.views_on_day(EPOCH_DAY + 2));
    assert_eq!(Views { uniques: 0, count: 0 }, views.views_on_day(EPOCH_DAY + 1));
    assert_eq!(Views { uniques: 0, count: 0 }, views.views_on_day(2 * DAY + DAY / 2));
}

#[test]
fn views_on_day_before_the_epoch() {
    // One second before 1970-01-01 is on 1969-12-31.
    let day = ViewsForDay { timestamp: -1, uniques: 3, count: 3 };
    let views = ViewsForTwoWeeks { uniques: 3, count: 3, views: vec![day] };
    assert_eq!(Views { uniques: 3, count: 3 }, views.views_on_day(EPOCH_DAY - 1));
    assert_eq!(Views { uniques: 0, count: 0 }, views.views_on_day(EPOCH_DAY));
}

#[test]
fn views_on_day_takes_the_first_entry_of_a_day() {
    let first = ViewsForDay { timestamp: 10 * DAY, uniques: 1, count: 2 };
    let second = ViewsForDay { timestamp: 10 * DAY + 60, uniques: 5, count: 6 };
    let views = ViewsForTwoWeeks { uniques: 6, count: 8, views: vec![first, second] };
    assert_eq!(Views { uniques: 1, count: 2 }, views.views_on_day(EPOCH_DAY + 10));
}

#[test]
fn views_on_day_skips_moments_outside_the_calendar() {
    let far = ViewsForDay { timestamp: i64::MAX, uniques: 8, count: 8 };
    let views = ViewsForTwoWeeks { uniques: 8, count: 8, views: vec![far] };
    assert_eq!(Views { uniques: 0, count: 0 }, views.views_on_day(i64::MAX / DAY + EPOCH_DAY));
}

#[test]
fn trend_none_when_two_last_days_equal() {
    let today = 740_000;
    let views = history_before(today, &[5, 5, 1]);
    assert_eq!(None, views.trend_uniques_on(today as i32));
}

#[test]
fn trend_down_three_days() {
    let today = 740_000;
    // yesterday 1, then 2, 3, 4, and 4 again five days ago: the fall lasts 3 days.
    let views = history_before(today, &[1, 2, 3, 4, 4]);
    assert_eq!(Some(Trend::new(Direction::DOWN, 3)), views.trend_uniques_on(today as i32));
}

#[test]
fn trend_up_stops_at_equal_day() {
    let today = 740_000;
    let views = history_before(today, &[9, 7, 7]);
    assert_eq!(Some(Trend::new(Direction::UP, 1)), views.trend_uniques_on(today as i32));
}

#[test]
fn trend_longest_is_ninety_seven_days() {
    let today = 740_000;
    let counts: Vec<u32> = (0..120).map(|k| 200 - k).collect();
    let views = history_before(today, &counts);
    assert_eq!(Some(Trend::new(Direction::UP, 97)), views.trend_uniques_on(today as i32));
}

#[test]
fn trend_ninety_six_days() {
    let today = 740_000;
    // rising over 97 days back, then flat on the 98th.
    let mut counts: Vec<u32> = (0..97).map(|k| 200 - k).collect();
    counts.push(104);
    let views = history_before(today, &counts);
    assert_eq!(Some(Trend::new(Direction::UP, 96)), views.trend_uniques_on(today as i32));
}

#[test]
fn trend_text() {
    assert_eq!("Up 2 Days", Trend::new(Direction::UP, 2).display_text());
    assert_eq!("Down 1 Day", Trend::new(Direction::DOWN, 1).display_text());
    assert_eq!("Up 97 Days", Trend::new(Direction::UP, 97).display_text());
    assert_eq!("Down 0 Day", Trend::new(Direction::DOWN, 0).display_text());
    assert_eq!(
        "Down -9223372036854775808 Day",
        Trend::new(Direction::DOWN, i64::MIN).display_text()
    );
    assert_eq!("Up", Direction::UP.display_text());
    assert_eq!("Down", Direction::DOWN.display_text());
}

#[test]
fn trend_new_keeps_its_fields() {
    let t = Trend::new(Direction::DOWN, 12);
    assert_eq!(Direction::DOWN, t.direction);
    assert_eq!(12, t.duration_days);
}

#[test]
fn views_on_day_at_the_ends_of_the_calendar() {
    let last = 95_745_399;
    let first = -95_746_129;
    let entries = vec![
        ViewsForDay { timestamp: (last - EPOCH_DAY) * DAY, uniques: 1, count: 1 },
        ViewsForDay { timestamp: (last + 1 - EPOCH_DAY) * DAY, uniques: 2, count: 2 },
        ViewsForDay { timestamp: (first - EPOCH_DAY) * DAY, uniques: 3, count: 3 },
        ViewsForDay { timestamp: (first - 1 - EPOCH_DAY) * DAY, uniques: 4, count: 4 },
    ];
    let views = ViewsForTwoWeeks { uniques: 0, count: 0, views: entries };
    assert_eq!(Views { uniques: 1, count: 1 }, views.views_on_day(last));
    assert_eq!(Views { uniques: 0, count: 0 }, views.views_on_day(last + 1));
    assert_eq!(Views { uniques: 3, count: 3 }, views.views_on_day(first));
    assert_eq!(Views { uniques: 0, count: 0 }, views.views_on_day(first - 1));
}

#[test]
fn views_on_day_same_for_other_moment_of_the_day() {
    let a = ViewsForTwoWeeks { uniques: 1, count: 1, views: vec![ViewsForDay { timestamp: 3 * DAY, uniques: 1, count: 2 }] };
    let b = ViewsForTwoWeeks { uniques: 1, count: 1, views: vec![ViewsForDay { timestamp: 3 * DAY + 7_200, uniques: 1, count: 2 }] };
    assert_eq!(a.views_on_day(EPOCH_DAY + 3), b.views_on_day(EPOCH_DAY + 3));
}

#[test]
fn views_on_day_unchanged_by_later_entry_of_the_same_day() {
    let first = ViewsForDay { timestamp: 3 * DAY, uniques: 1, count: 2 };
    let later = ViewsForDay { timestamp: 3 * DAY + 60, uniques: 9, count: 9 };
    let a = ViewsForTwoWeeks { uniques: 1, count: 2, views: vec![first] };
    let b = ViewsForTwoWeeks { uniques: 1, count: 2, views: vec![first, later] };
    assert_eq!(a.views_on_day(EPOCH_DAY + 3), b.views_on_day(EPOCH_DAY + 3));
}

#[test]
fn trend_ignores_days_outside_the_last_98() {
    let today = 740_000;
    let counts: Vec<u32> = (0..98).map(|k| 200 - k).collect();
    let a = history_before(today, &counts);
    let mut b = history_before(today, &counts);
    // 99 days ago, today, and tomorrow lie outside the window.
    for day in [today - 99, today, today + 1] {
        b.views.push(ViewsForDay { timestamp: (day - EPOCH_DAY) * DAY, uniques: 1_000, count: 1_000 });
    }
    assert_eq!(a.trend_uniques_on(today as i32), b.trend_uniques_on(today as i32));
    assert_eq!(Some(Trend::new(Direction::UP, 97)), b.trend_uniques_on(today as i32));
}

#[test]
fn views_from_past_on_a_given_day() {
    let today = 740_000;
    let views = history_before(today, &[4, 6, 8]);
    assert_eq!(Views { uniques: 6, count: 6 }, views.views_from_past_on(today as i32, 2));
    assert_eq!(Views { uniques: 0, count: 0 }, views.views_from_past_on(today as i32, 0));
    assert_eq!(Views { uniques: 0, count: 0 }, views.views_from_past_on(today as i32, -2));
    assert_eq!(Views { uniques: 0, count: 0 }, views.views_from_past_on(i32::MIN, i32::MAX));
}

#[test]
fn trend_depends_on_the_order_of_counts_only() {
    let today = 740_000;
    let a = history_before(today, &[5, 3, 2, 2]);
    let b = history_before(today, &[50, 31, 20, 20]);
    assert_eq!(a.trend_uniques_on(today as i32), b.trend_uniques_on(today as i32));
    assert_eq!(Some(Trend::new(Direction::UP, 2)), a.trend_uniques_on(today as i32));
}

#[test]
fn up_and_down_mirror_each_other() {
    let today = 740_000;
    let a = history_before(today, &[5, 3, 2, 2]);
    let b = history_before(today, &[5, 7, 8, 8]);
    assert_eq!(Some(Trend::new(Direction::UP, 2)), a.trend_uniques_on(today as i32));
    assert_eq!(Some(Trend::new(Direction::DOWN, 2)), b.trend_uniques_on(today as i32));
}
