use attendance_bot::clock::Weekday;
use attendance_bot::schedule::ScheduleType;

// 2023-11-14 22:13:20 UTC, a Tuesday.
const NOW: i64 = 1_700_000_000;

// Wednesday 12:00 in UTC+9, most recent at the poll above: 2023-11-08 03:00 UTC.
const WED_NOON_OCC: i64 = 1_699_412_400;

#[test]
fn one_time_fires_inside_half_open_window() {
    let t = ScheduleType::OneTime { datetime: NOW };
    // d <= now and last < d: fires.
    let (fired, at) = t.check(NOW - 1, NOW);
    assert!(fired);
    assert_eq!(at, NOW);
    // last == d: the window is open below, no fire.
    let (fired, _) = t.check(NOW, NOW + 100);
    assert!(!fired);
    // d > now: no fire.
    let (fired, _) = t.check(NOW - 200, NOW - 1);
    assert!(!fired);
}

#[test]
fn one_time_never_fires_twice_across_contiguous_windows() {
    let d: i64 = 1_700_000_123;
    let t = ScheduleType::OneTime { datetime: d };
    let boundaries = [d - 30, d - 20, d - 10, d, d + 10, d + 20, d + 30];
    let mut count = 0;
    for w in boundaries.windows(2) {
        let (fired, _) = t.check(w[0], w[1]);
        if fired {
            count += 1;
        }
    }
    assert_eq!(count, 1);
}

#[test]
fn weekly_projects_single_most_recent_candidate() {
    // The poll falls early on a Wednesday morning in the schedule's local
    // zone, before the rule's noon: the candidate is the previous
    // Wednesday's noon, the most recent occurrence at or before the poll.
    let t = ScheduleType::_weekly(Weekday::Wed, 12 * 3600);
    let (fired, at) = t.check(WED_NOON_OCC - 1, NOW);
    assert!(fired);
    assert_eq!(at, WED_NOON_OCC);
    assert!(at <= NOW);
    // The same candidate is nominated whatever the watermark.
    let (fired, at) = t.check(WED_NOON_OCC, NOW);
    assert!(!fired);
    assert_eq!(at, WED_NOON_OCC);
}

#[test]
fn weekly_same_day_later_time_projects_previous_week() {
    // Poll on the rule's own weekday before the rule's local time: the
    // candidate is last week's occurrence, at or before the poll, never an
    // instant ahead of it.
    let poll: i64 = 1_699_923_600;
    let previous_week: i64 = 1_699_332_800;
    let t = ScheduleType::_weekly(Weekday::Tue, 50_000);
    let (fired, at) = t.check(previous_week - 1, poll);
    assert!(fired);
    assert_eq!(at, previous_week);
    assert!(at <= poll);
}

#[test]
fn weekly_early_morning_rule_uses_local_day() {
    // A rule earlier than the zone offset (05:00 in UTC+9) polled an hour
    // after it, while UTC is still on the previous calendar day: the
    // candidate is that same local morning, so contiguous polls claim it.
    let occ: i64 = 1_699_992_000;
    let poll: i64 = occ + 3_600;
    let t = ScheduleType::_weekly(Weekday::Wed, 5 * 3600);
    let (fired, at) = t.check(occ - 1, poll);
    assert!(fired);
    assert_eq!(at, occ);
}

#[test]
fn weekly_missed_occurrences_are_not_backfilled() {
    // After two weeks of downtime only the latest occurrence is nominated
    // and claimed; the older missed ones are gone for good.
    let t = ScheduleType::_weekly(Weekday::Wed, 12 * 3600);
    let (fired, at) = t.check(NOW - 21 * 86400, NOW);
    assert!(fired);
    assert_eq!(at, WED_NOON_OCC);
    // The following pass sees no further candidate from the downtime.
    let (fired, _) = t.check(NOW, NOW + 300);
    assert!(!fired);
}

#[test]
fn delete_check_marks_one_time_single_use() {
    let once = ScheduleType::OneTime { datetime: 5 };
    let weekly = ScheduleType::_weekly(Weekday::Mon, 0);
    assert!(once.delete_check());
    assert!(!weekly.delete_check());
}

#[test]
fn weekday_indexes_count_from_monday() {
    assert_eq!(Weekday::Mon.num_days_from_monday(), 0);
    assert_eq!(Weekday::Sun.num_days_from_monday(), 6);
    assert!(matches!(Weekday::from_index(3), Some(Weekday::Thu)));
    assert!(Weekday::from_index(7).is_none());
}

#[test]
fn weekday_to_jp_names() {
    assert_eq!(attendance_bot::message::weekday_to_jp(Weekday::Sun), "日");
    assert_eq!(attendance_bot::message::weekday_to_jp(Weekday::Mon), "月");
    assert_eq!(attendance_bot::message::weekday_to_jp(Weekday::Sat), "土");
}
