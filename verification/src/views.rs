//! Daily view counts of one repository over the last two weeks, the visits
//! on a given day, and the trend of the daily unique visitors.

use vstd::prelude::*;
use crate::clock::{reading_day, today_from_ce};
use crate::text::{decimal, push_char, push_decimal_i64};

verus! {

/// How many days back the search for the end of a trend looks at most; a
/// trend that is still going on that far back is reported as this many days
/// less two (the two days that start it).
pub const TREND_LOOKBACK_DAYS: i32 = 99;

/// Visits on one day. `timestamp` is the start of that day as seconds since
/// the Unix epoch (1970-01-01T00:00:00Z), which is how the day is written in
/// the GitHub API's answer.
#[derive(Clone, Copy, Debug, PartialEq, Eq, Structural)]
pub struct ViewsForDay {
    pub timestamp: i64,
    pub uniques: u32,
    pub count: u32,
}

/// The traffic of a repository over the last two weeks: the totals and the
/// days that had views (the API leaves out the days without any).
#[derive(Debug)]
pub struct ViewsForTwoWeeks {
    pub uniques: u32,
    pub count: u32,
    pub views: Vec<ViewsForDay>,
}

/// Unique visitors and total views of one day.
#[derive(Clone, Copy, Debug, PartialEq, Eq, Structural)]
pub struct Views {
    pub uniques: u32,
    pub count: u32,
}

/// Whether the daily unique visitors went up or down.
#[allow(non_camel_case_types)]
#[derive(Clone, Copy, Debug, PartialEq, Eq, Structural)]
pub enum Direction {
    UP,
    DOWN,
}

/// A trend: its direction and how many days it has lasted.
#[derive(Clone, Copy, Debug, PartialEq, Eq, Structural)]
pub struct Trend {
    pub direction: Direction,
    pub duration_days: i64,
}

/// The number of 1970-01-01, counted from January 1 of year 1 (day 1) in the
/// proleptic Gregorian calendar.
pub const UNIX_EPOCH_DAY: i64 = 719_163;

/// The number of the first day chrono's calendar holds (January 1, 262144
/// BCE).
pub const FIRST_CALENDAR_DAY: i64 = -95_746_129;

/// The number of the last day chrono's calendar holds (December 31, 262142
/// CE).
pub const LAST_CALENDAR_DAY: i64 = 95_745_399;

/// The day, counted from January 1 of year 1 (day 1) in the proleptic
/// Gregorian calendar, on which the UTC moment `secs` seconds after the Unix
/// epoch falls; `None` where that day lies outside the calendar.
pub open spec fn utc_day_of(secs: i64) -> Option<i32> {
    let day = secs / 86400 + UNIX_EPOCH_DAY;
    if FIRST_CALENDAR_DAY <= day <= LAST_CALENDAR_DAY {
        Some(day as i32)
    } else {
        None
    }
}

/// chrono's `DateTime::<Utc>::from_timestamp(secs, 0)` followed by
/// `Datelike::num_days_from_ce`. Claimed of it: the day is the Euclidean
/// quotient of `secs` by the 86400 seconds of a day plus the number of
/// 1970-01-01, and chrono returns it exactly when it lies between
/// `NaiveDate::MIN` and `NaiveDate::MAX`.
#[verifier::external_body]
pub(crate) fn day_from_ce_of_timestamp(secs: i64) -> (r: Option<i32>)
    ensures
        r == utc_day_of(secs),
{
    match chrono::DateTime::<chrono::Utc>::from_timestamp(secs, 0) {
        Some(t) => Some(chrono::Datelike::num_days_from_ce(&t)),
        None => None,
    }
}

/// The entry falls on `day` (a day number from the start of the era).
pub open spec fn falls_on(entry: ViewsForDay, day: int) -> bool {
    utc_day_of(entry.timestamp) matches Some(d) && d == day
}

/// The visits of `day`: those of the first entry that falls on it, or none
/// at all when no entry does (GitHub lists only the days that had views).
pub open spec fn views_on(days: Seq<ViewsForDay>, day: int) -> Views
    decreases days.len(),
{
    if days.len() == 0 {
        Views { uniques: 0, count: 0 }
    } else if falls_on(days[0], day) {
        Views { uniques: days[0].uniques, count: days[0].count }
    } else {
        views_on(days.drop_first(), day)
    }
}

/// A day on which no entry falls had no visits: GitHub lists only the days
/// that had views.
pub proof fn lemma_missing_day_has_no_views(days: Seq<ViewsForDay>, day: int)
    requires
        forall|i: int| 0 <= i < days.len() ==> !falls_on(#[trigger] days[i], day),
    ensures
        views_on(days, day) == (Views { uniques: 0, count: 0 }),
    decreases days.len(),
{
    if days.len() > 0 {
        assert(!falls_on(days[0], day));
        let rest = days.drop_first();
        assert forall|i: int| 0 <= i < rest.len() implies !falls_on(#[trigger] rest[i], day) by {
            assert(rest[i] == days[i + 1]);
        }
        lemma_missing_day_has_no_views(rest, day);
    }
}

/// The visits of a day are those of the first entry that falls on it.
pub proof fn lemma_first_entry_of_day_counts(days: Seq<ViewsForDay>, day: int, i: int)
    requires
        0 <= i < days.len(),
        falls_on(days[i], day),
        forall|k: int| 0 <= k < i ==> !falls_on(#[trigger] days[k], day),
    ensures
        views_on(days, day) == (Views { uniques: days[i].uniques, count: days[i].count }),
    decreases i,
{
    if i > 0 {
        let rest = days.drop_first();
        assert(!falls_on(days[0], day));
        assert forall|k: int| 0 <= k < i - 1 implies !falls_on(#[trigger] rest[k], day) by {
            assert(rest[k] == days[k + 1]);
        }
        lemma_first_entry_of_day_counts(rest, day, i - 1);
    }
}

/// The visits of a day depend on each entry's calendar day and counts only:
/// moving an entry's timestamp to another moment of the same UTC day
/// changes nothing.
pub proof fn lemma_views_on_same_calendar(d1: Seq<ViewsForDay>, d2: Seq<ViewsForDay>, day: int)
    requires
        d1.len() == d2.len(),
        forall|i: int|
            0 <= i < d1.len() ==> utc_day_of(#[trigger] d1[i].timestamp) == utc_day_of(d2[i].timestamp)
                && d1[i].uniques == d2[i].uniques && d1[i].count == d2[i].count,
    ensures
        views_on(d1, day) == views_on(d2, day),
    decreases d1.len(),
{
    if d1.len() > 0 {
        let r1 = d1.drop_first();
        let r2 = d2.drop_first();
        assert forall|i: int| 0 <= i < r1.len() implies utc_day_of(#[trigger] r1[i].timestamp)
            == utc_day_of(r2[i].timestamp) && r1[i].uniques == r2[i].uniques && r1[i].count
            == r2[i].count by {
            assert(r1[i] == d1[i + 1]);
            assert(r2[i] == d2[i + 1]);
        }
        assert(utc_day_of(d1[0].timestamp) == utc_day_of(d2[0].timestamp));
        lemma_views_on_same_calendar(r1, r2, day);
    }
}

/// Adding an entry at the end changes nothing for a day it does not fall
/// on, nor for a day that already has an entry.
pub proof fn lemma_views_on_push(days: Seq<ViewsForDay>, e: ViewsForDay, day: int)
    requires
        !falls_on(e, day) || exists|i: int| 0 <= i < days.len() && falls_on(#[trigger] days[i], day),
    ensures
        views_on(days.push(e), day) == views_on(days, day),
    decreases days.len(),
{
    let longer = days.push(e);
    if days.len() == 0 {
        assert(longer.drop_first() =~= Seq::<ViewsForDay>::empty());
        assert(longer[0] == e);
        assert(views_on(longer, day) == views_on(longer.drop_first(), day));
    } else {
        assert(longer[0] == days[0]);
        assert(longer.drop_first() =~= days.drop_first().push(e));
        if !falls_on(days[0], day) {
            if !falls_on(e, day) {
            } else {
                let i = choose|i: int| 0 <= i < days.len() && falls_on(#[trigger] days[i], day);
                assert(i != 0);
                assert(days.drop_first()[i - 1] == days[i]);
            }
            lemma_views_on_push(days.drop_first(), e, day);
            assert(views_on(longer, day) == views_on(longer.drop_first(), day));
            assert(views_on(days, day) == views_on(days.drop_first(), day));
        }
    }
}

/// The entries that fall on `day`, in their order.
pub open spec fn entries_on(days: Seq<ViewsForDay>, day: int) -> Seq<ViewsForDay> {
    days.filter(|e: ViewsForDay| falls_on(e, day))
}

/// The visits of a day depend only on the entries that fall on it.
pub proof fn lemma_views_on_entries_of_the_day(days: Seq<ViewsForDay>, day: int)
    ensures
        views_on(days, day) == views_on(entries_on(days, day), day),
    decreases days.len(),
{
    let p = |e: ViewsForDay| falls_on(e, day);
    if days.len() > 0 {
        let rest = days.drop_first();
        assert(days =~= seq![days[0]] + rest);
        rest.lemma_filter_prepend(days[0], p);
        lemma_views_on_entries_of_the_day(rest, day);
        assert(entries_on(rest, day) == rest.filter(p));
        let f = days.filter(p);
        assert(entries_on(days, day) == f);
        if falls_on(days[0], day) {
            assert(f[0] == days[0]);
        } else {
            assert(f =~= rest.filter(p));
        }
    }
}

/// The unique visitors `k` days before `today`.
pub open spec fn uniques_days_ago(days: Seq<ViewsForDay>, today: int, k: int) -> int {
    views_on(days, today - k).uniques as int
}

/// The trend in direction `up` goes on from `k - 1` days ago back to `k`
/// days ago: the count `k` days ago is strictly on the far side of the count
/// of the day after it.
pub open spec fn trend_continues(days: Seq<ViewsForDay>, today: int, up: bool, k: int) -> bool {
    if up {
        uniques_days_ago(days, today, k) < uniques_days_ago(days, today, k - 1)
    } else {
        uniques_days_ago(days, today, k) > uniques_days_ago(days, today, k - 1)
    }
}

/// `n` is how long the trend in direction `up` has lasted: it goes on back
/// to `n + 1` days ago and stops there, or `n` is the longest length the
/// search reports.
pub open spec fn is_streak_length(days: Seq<ViewsForDay>, today: int, up: bool, n: int) -> bool {
    &&& 1 <= n <= TREND_LOOKBACK_DAYS - 2
    &&& forall|k: int| 3 <= k < n + 2 ==> trend_continues(days, today, up, k)
    &&& (n == TREND_LOOKBACK_DAYS - 2 || !trend_continues(days, today, up, n + 2))
}

/// The trend of the unique visitors as seen on day `today`: none when
/// yesterday had as many as the day before; otherwise up when yesterday had
/// more, down when it had fewer, lasting as long as `is_streak_length` says.
pub open spec fn trend_on(days: Seq<ViewsForDay>, today: int) -> Option<Trend> {
    let yesterday = uniques_days_ago(days, today, 1);
    let before = uniques_days_ago(days, today, 2);
    if yesterday == before {
        None
    } else {
        let up = yesterday > before;
        Some(
            Trend {
                direction: if up { Direction::UP } else { Direction::DOWN },
                duration_days: (choose|n: int| is_streak_length(days, today, up, n)) as i64,
            },
        )
    }
}

/// The trend seen on day `today` depends only on the unique visitors of the
/// 98 days before it.
pub proof fn lemma_trend_depends_on_last_98_days(d1: Seq<ViewsForDay>, d2: Seq<ViewsForDay>, today: int)
    requires
        forall|k: int| 1 <= k <= 98 ==> #[trigger] uniques_days_ago(d1, today, k) == uniques_days_ago(d2, today, k),
    ensures
        trend_on(d1, today) == trend_on(d2, today),
{
    assert(uniques_days_ago(d1, today, 1) == uniques_days_ago(d2, today, 1));
    assert(uniques_days_ago(d1, today, 2) == uniques_days_ago(d2, today, 2));
    let up = uniques_days_ago(d1, today, 1) > uniques_days_ago(d1, today, 2);
    assert forall|k: int| 2 <= k <= 98 implies #[trigger] trend_continues(d1, today, up, k)
        == trend_continues(d2, today, up, k) by {
        assert(uniques_days_ago(d1, today, k) == uniques_days_ago(d2, today, k));
        assert(uniques_days_ago(d1, today, k - 1) == uniques_days_ago(d2, today, k - 1));
    }
    lemma_streak_length_exists(d1, today, up);
    lemma_streak_length_exists(d2, today, up);
    let n1 = choose|n: int| is_streak_length(d1, today, up, n);
    let n2 = choose|n: int| is_streak_length(d2, today, up, n);
    assert(is_streak_length(d2, today, up, n1)) by {
        assert forall|k: int| 3 <= k < n1 + 2 implies trend_continues(d2, today, up, k) by {
            assert(trend_continues(d1, today, up, k));
        }
        if n1 != TREND_LOOKBACK_DAYS - 2 {
            assert(!trend_continues(d1, today, up, n1 + 2));
        }
    }
    lemma_streak_length_unique(d2, today, up, n1, n2);
}

/// The trend seen on day `today` stays the same when entries change only on
/// days outside the 98 days before it: on each of those days, both
/// histories hold the same entries in the same order.
pub proof fn lemma_trend_ignores_days_outside_window(
    d1: Seq<ViewsForDay>,
    d2: Seq<ViewsForDay>,
    today: int,
)
    requires
        forall|k: int| 1 <= k <= 98 ==> #[trigger] entries_on(d1, today - k) == entries_on(d2, today - k),
    ensures
        trend_on(d1, today) == trend_on(d2, today),
{
    assert forall|k: int| 1 <= k <= 98 implies #[trigger] uniques_days_ago(d1, today, k)
        == uniques_days_ago(d2, today, k) by {
        lemma_views_on_entries_of_the_day(d1, today - k);
        lemma_views_on_entries_of_the_day(d2, today - k);
        assert(entries_on(d1, today - k) == entries_on(d2, today - k));
    }
    lemma_trend_depends_on_last_98_days(d1, d2, today);
}

/// The trend seen on day `today` depends only on how the unique visitors of
/// the 98 days before it compare with one another: any two histories whose
/// counts on those days are in the same order relations give the same trend.
pub proof fn lemma_trend_depends_on_order_only(d1: Seq<ViewsForDay>, d2: Seq<ViewsForDay>, today: int)
    requires
        forall|i: int, j: int|
            1 <= i <= 98 && 1 <= j <= 98 ==> (#[trigger] uniques_days_ago(d1, today, i) < #[trigger] uniques_days_ago(
                d1,
                today,
                j,
            ) <==> uniques_days_ago(d2, today, i) < uniques_days_ago(d2, today, j)),
    ensures
        trend_on(d1, today) == trend_on(d2, today),
{
    let y1 = uniques_days_ago(d1, today, 1);
    let b1 = uniques_days_ago(d1, today, 2);
    let y2 = uniques_days_ago(d2, today, 1);
    let b2 = uniques_days_ago(d2, today, 2);
    assert((y1 < b1) == (y2 < b2));
    assert((b1 < y1) == (b2 < y2));
    let up = y1 > b1;
    assert forall|k: int| 3 <= k <= 98 implies #[trigger] trend_continues(d1, today, up, k)
        == trend_continues(d2, today, up, k) by {
        let a1 = uniques_days_ago(d1, today, k);
        let c1 = uniques_days_ago(d1, today, k - 1);
        assert((a1 < c1) == (uniques_days_ago(d2, today, k) < uniques_days_ago(d2, today, k - 1)));
        assert((c1 < a1) == (uniques_days_ago(d2, today, k - 1) < uniques_days_ago(d2, today, k)));
    }
    lemma_streak_length_exists(d1, today, up);
    lemma_streak_length_exists(d2, today, up);
    let n1 = choose|n: int| is_streak_length(d1, today, up, n);
    let n2 = choose|n: int| is_streak_length(d2, today, up, n);
    assert(is_streak_length(d2, today, up, n1)) by {
        assert forall|k: int| 3 <= k < n1 + 2 implies trend_continues(d2, today, up, k) by {
            assert(trend_continues(d1, today, up, k));
        }
        if n1 != TREND_LOOKBACK_DAYS - 2 {
            assert(!trend_continues(d1, today, up, n1 + 2));
        }
    }
    lemma_streak_length_unique(d2, today, up, n1, n2);
}

/// The trend with its direction turned round.
pub open spec fn reversed(t: Option<Trend>) -> Option<Trend> {
    match t {
        Some(trend) => Some(
            Trend {
                direction: match trend.direction {
                    Direction::UP => Direction::DOWN,
                    Direction::DOWN => Direction::UP,
                },
                duration_days: trend.duration_days,
            },
        ),
        None => None,
    }
}

/// Up and down mirror each other: when the unique visitors of the 98 days
/// before `today` in one history are those of the other subtracted from
/// the same number, the trends are the same but for their directions.
pub proof fn lemma_trend_mirrors(d1: Seq<ViewsForDay>, d2: Seq<ViewsForDay>, today: int, top: int)
    requires
        forall|k: int| 1 <= k <= 98 ==> #[trigger] uniques_days_ago(d2, today, k) == top - uniques_days_ago(
            d1,
            today,
            k,
        ),
    ensures
        trend_on(d2, today) == reversed(trend_on(d1, today)),
{
    assert(uniques_days_ago(d2, today, 1) == top - uniques_days_ago(d1, today, 1));
    assert(uniques_days_ago(d2, today, 2) == top - uniques_days_ago(d1, today, 2));
    let up = uniques_days_ago(d1, today, 1) > uniques_days_ago(d1, today, 2);
    let down = !up;
    assert forall|k: int| 3 <= k <= 98 implies #[trigger] trend_continues(d1, today, up, k)
        == trend_continues(d2, today, down, k) by {
        assert(uniques_days_ago(d2, today, k) == top - uniques_days_ago(d1, today, k));
        assert(uniques_days_ago(d2, today, k - 1) == top - uniques_days_ago(d1, today, k - 1));
    }
    lemma_streak_length_exists(d1, today, up);
    lemma_streak_length_exists(d2, today, down);
    let n1 = choose|n: int| is_streak_length(d1, today, up, n);
    let n2 = choose|n: int| is_streak_length(d2, today, down, n);
    assert(is_streak_length(d2, today, down, n1)) by {
        assert forall|k: int| 3 <= k < n1 + 2 implies trend_continues(d2, today, down, k) by {
            assert(trend_continues(d1, today, up, k));
        }
        if n1 != TREND_LOOKBACK_DAYS - 2 {
            assert(!trend_continues(d1, today, up, n1 + 2));
        }
    }
    lemma_streak_length_unique(d2, today, down, n1, n2);
}

/// The visits `days_ago` days before the day `today` that a clock reading
/// gives; none at all when the reading gives no day.
pub open spec fn views_seen(days: Seq<ViewsForDay>, today: Option<i32>, days_ago: int) -> Views {
    match today {
        Some(t) => views_on(days, t - days_ago),
        None => Views { uniques: 0, count: 0 },
    }
}

/// The trend as seen on the day `today` that a clock reading gives; none
/// when the reading gives no day.
pub open spec fn trend_seen(days: Seq<ViewsForDay>, today: Option<i32>) -> Option<Trend> {
    match today {
        Some(t) => trend_on(days, t as int),
        None => None,
    }
}

/// A trend lasts for one length only.
pub proof fn lemma_streak_length_unique(
    days: Seq<ViewsForDay>,
    today: int,
    up: bool,
    n1: int,
    n2: int,
)
    requires
        is_streak_length(days, today, up, n1),
        is_streak_length(days, today, up, n2),
    ensures
        n1 == n2,
{
    if n1 < n2 {
        assert(trend_continues(days, today, up, n1 + 2));
    } else if n2 < n1 {
        assert(trend_continues(days, today, up, n2 + 2));
    }
}

proof fn lemma_streak_from(days: Seq<ViewsForDay>, today: int, up: bool, m: int) -> (n: int)
    requires
        3 <= m <= TREND_LOOKBACK_DAYS + 1,
        forall|k: int| 3 <= k < m ==> trend_continues(days, today, up, k),
    ensures
        is_streak_length(days, today, up, n),
    decreases TREND_LOOKBACK_DAYS + 1 - m,
{
    if m == TREND_LOOKBACK_DAYS + 1 {
        TREND_LOOKBACK_DAYS - 2
    } else if !trend_continues(days, today, up, m) {
        m - 2
    } else {
        lemma_streak_from(days, today, up, m + 1)
    }
}

/// Every trend has a length.
pub proof fn lemma_streak_length_exists(days: Seq<ViewsForDay>, today: int, up: bool)
    ensures
        exists|n: int| is_streak_length(days, today, up, n),
{
    let n = lemma_streak_from(days, today, up, 3);
}

/// A trend is reported exactly when yesterday and the day before differ;
/// it goes up exactly when yesterday had more unique visitors, and lasts
/// between one day and `TREND_LOOKBACK_DAYS - 2` days, going on over every
/// day it covers.
pub proof fn lemma_trend_shape(days: Seq<ViewsForDay>, today: int)
    ensures
        trend_on(days, today) is None <==> uniques_days_ago(days, today, 1) == uniques_days_ago(
            days,
            today,
            2,
        ),
        trend_on(days, today) matches Some(t) ==> {
            &&& (t.direction == Direction::UP <==> uniques_days_ago(days, today, 1)
                > uniques_days_ago(days, today, 2))
            &&& is_streak_length(days, today, t.direction == Direction::UP, t.duration_days as int)
        },
{
    let up = uniques_days_ago(days, today, 1) > uniques_days_ago(days, today, 2);
    lemma_streak_length_exists(days, today, up);
}

proof fn lemma_trend_value(days: Seq<ViewsForDay>, today: int, up: bool, n: int)
    requires
        uniques_days_ago(days, today, 1) != uniques_days_ago(days, today, 2),
        up == (uniques_days_ago(days, today, 1) > uniques_days_ago(days, today, 2)),
        is_streak_length(days, today, up, n),
    ensures
        trend_on(days, today) == Some(
            Trend { direction: if up { Direction::UP } else { Direction::DOWN }, duration_days: n as i64 },
        ),
{
    let c = choose|m: int| is_streak_length(days, today, up, m);
    lemma_streak_length_unique(days, today, up, c, n);
}

/// The text of a direction.
pub open spec fn direction_text(d: Direction) -> Seq<char> {
    match d {
        Direction::UP => "Up"@,
        Direction::DOWN => "Down"@,
    }
}

/// The text of a trend: its direction, its length in days, and `Day`, plural
/// when the length is more than one.
pub open spec fn trend_text(t: Trend) -> Seq<char> {
    direction_text(t.direction) + seq![' '] + decimal(t.duration_days as int) + " Day"@ + (if t.duration_days
        > 1 {
        seq!['s']
    } else {
        Seq::<char>::empty()
    })
}

impl Direction {
    /// The text of the direction: `Up` or `Down`.
    pub fn display_text(&self) -> (s: String)
        ensures
            s@ == direction_text(*self),
    {
        match self {
            Direction::UP => String::from_str("Up"),
            Direction::DOWN => String::from_str("Down"),
        }
    }
}

impl Trend {
    /// A trend in `direction` that has lasted `duration_days` days.
    pub fn new(direction: Direction, duration_days: i64) -> (t: Trend)
        ensures
            t.direction == direction,
            t.duration_days == duration_days,
    {
        Trend { direction, duration_days }
    }

    /// The text of the trend, such as `Up 2 Days` or `Down 1 Day`.
    pub fn display_text(&self) -> (s: String)
        ensures
            s@ == trend_text(*self),
    {
        let mut s = self.direction.display_text();
        push_char(&mut s, ' ');
        push_decimal_i64(&mut s, self.duration_days);
        s.append(" Day");
        if self.duration_days > 1 {
            push_char(&mut s, 's');
        }
        s
    }
}

impl ViewsForTwoWeeks {
    /// The visits of day `day` (a day number from the start of the era).
    pub fn views_on_day(&self, day: i64) -> (v: Views)
        ensures
            v == views_on(self.views@, day as int),
    {
        let ghost all = self.views@;
        assert(all.skip(0) =~= all);
        let mut i: usize = 0;
        while i < self.views.len()
            invariant
                i <= self.views@.len(),
                all == self.views@,
                views_on(all, day as int) == views_on(all.skip(i as int), day as int),
            decreases self.views@.len() - i,
        {
            let entry = self.views[i];
            assert(all.skip(i as int)[0] == entry);
            assert(all.skip(i as int).drop_first() =~= all.skip(i as int + 1));
            match day_from_ce_of_timestamp(entry.timestamp) {
                Some(d) => {
                    if d as i64 == day {
                        return Views { uniques: entry.uniques, count: entry.count };
                    }
                },
                None => {},
            }
            i = i + 1;
        }
        Views { uniques: 0, count: 0 }
    }

    /// The visits `days_ago` days before day `today` (a day number from the
    /// start of the era).
    pub fn views_from_past_on(&self, today: i32, days_ago: i32) -> (v: Views)
        ensures
            v == views_on(self.views@, today as int - days_ago as int),
    {
        self.views_on_day(today as i64 - days_ago as i64)
    }

    /// The visits `days_ago` days before today; none at all when the
    /// system clock gives no day that the calendar holds.
    pub fn get_views_from_past(&self, days_ago: i32) -> (v: Views)
        ensures
            (exists|today: i32| v == #[trigger] views_on(self.views@, today - days_ago)) || v == (Views {
                uniques: 0,
                count: 0,
            }),
            exists|after: bool, secs: u64, nanos: u32|
                nanos < 1_000_000_000 && v == views_seen(
                    self.views@,
                    #[trigger] reading_day(after, secs, nanos),
                    days_ago as int,
                ),
    {
        match today_from_ce() {
            Some(today) => self.views_from_past_on(today, days_ago),
            None => Views { uniques: 0, count: 0 },
        }
    }

    /// The trend of the unique visitors as seen on day `today` (a day number
    /// from the start of the era).
    pub fn trend_uniques_on(&self, today: i32) -> (r: Option<Trend>)
        ensures
            r == trend_on(self.views@, today as int),
    {
        let ghost days = self.views@;
        let t: i64 = today as i64;
        let yesterday = self.views_on_day(t - 1).uniques;
        let before = self.views_on_day(t - 2).uniques;
        if yesterday == before {
            return None;
        }
        let up = yesterday > before;
        let direction = if up { Direction::UP } else { Direction::DOWN };
        let mut i: i32 = 3;
        while i <= TREND_LOOKBACK_DAYS
            invariant
                3 <= i <= TREND_LOOKBACK_DAYS + 1,
                days == self.views@,
                t == today,
                yesterday == uniques_days_ago(days, t as int, 1),
                before == uniques_days_ago(days, t as int, 2),
                yesterday != before,
                up == (yesterday > before),
                direction == (if up { Direction::UP } else { Direction::DOWN }),
                forall|k: int| 3 <= k < i ==> trend_continues(days, t as int, up, k),
            decreases TREND_LOOKBACK_DAYS + 1 - i,
        {
            let here = self.views_on_day(t - i as i64).uniques;
            let after = self.views_on_day(t - (i as i64 - 1)).uniques;
            let stops = if up { here >= after } else { here <= after };
            if stops {
                proof {
                    assert(!trend_continues(days, t as int, up, i as int));
                    lemma_trend_value(days, t as int, up, i - 2);
                }
                return Some(Trend::new(direction, (i - 2) as i64));
            }
            i = i + 1;
        }
        proof {
            lemma_trend_value(days, t as int, up, TREND_LOOKBACK_DAYS - 2);
        }
        Some(Trend::new(direction, (TREND_LOOKBACK_DAYS - 2) as i64))
    }

    /// The trend of the unique visitors as seen today; none when the system
    /// clock gives no day that the calendar holds.
    pub fn get_trend_uniques(&self) -> (r: Option<Trend>)
        ensures
            (exists|today: i32| r == #[trigger] trend_on(self.views@, today as int)) || r is None,
            exists|after: bool, secs: u64, nanos: u32|
                nanos < 1_000_000_000 && r == trend_seen(self.views@, #[trigger] reading_day(after, secs, nanos)),
    {
        match today_from_ce() {
            Some(today) => self.trend_uniques_on(today),
            None => None,
        }
    }
}

} // verus!
