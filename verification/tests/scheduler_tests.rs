use attendance_bot::clock::Weekday;
use attendance_bot::message::{Message, SimpleMessage};
use attendance_bot::schedule::{attendance_alert, event_schedule, Effect, Schedule, ScheduleType, Todo};
use attendance_bot::scheduler::{ExceptionOutcome, Scheduler};

// 2023-11-03 10:26:40 UTC, a Friday.
const NOW: i64 = 1_699_000_000;

// Wednesday 12:00 in UTC+9 on civil day 19669 (2023-11-08).
const WED_DAY: i64 = 19_669;
const WED_NOON_OCC: i64 = 1_699_412_400;

fn one_time(id: &str, datetime: i64, todo: Todo) -> Schedule {
    Schedule { id: id.to_string(), todo, schedule_type: ScheduleType::OneTime { datetime } }
}

#[test]
fn scheduler_gen() {
    let mut scheduler = Scheduler::default();
    let mon = ScheduleType::_weekly(Weekday::Mon, 10 * 3600);
    let thu = ScheduleType::_weekly(Weekday::Thu, 10 * 3600);
    scheduler.push(Schedule {
        id: "".to_string(),
        schedule_type: mon,
        todo: Todo::CreateAttendanceCheck { hour: 6 },
    });
    scheduler.push(Schedule {
        id: "".to_string(),
        schedule_type: thu,
        todo: Todo::CreateAttendanceCheck { hour: 6 },
    });
    let doc = scheduler.document();
    let reloaded = Scheduler::from_document(&doc, 0).expect("document loads back");
    assert_eq!(reloaded.document(), doc);
    assert_eq!(reloaded.schedules().len(), 2);
}

#[test]
fn scheduler_test() {
    // One one-off test schedule ten seconds ahead; fifteen seconds later a
    // pass claims it, consumes it, and advances the watermark.
    let mut scheduler = Scheduler::new(vec![one_time("A", NOW + 10, Todo::Test)], NOW);
    let mut fresh: Vec<u64> = Vec::new();
    let mut effects: Vec<Effect> = Vec::new();
    assert!(scheduler.ready(NOW + 15));
    let fired = scheduler.check(NOW + 15, &mut fresh, &mut effects);
    assert_eq!(fired, 1);
    assert_eq!(scheduler.schedules().len(), 0);
    assert_eq!(scheduler.timestamp(), NOW + 15);
    assert!(effects.is_empty());
}

#[test]
fn serde_test() {
    let mut scheduler = Scheduler::default();
    scheduler.push(one_time("", NOW, Todo::CreateAttendanceCheck { hour: 7 }));
    let doc = scheduler.document();
    let reloaded = Scheduler::from_document(&doc, 0).expect("document loads back");
    assert_eq!(reloaded.document(), doc);
}

#[test]
fn chained_attendance_check_is_enqueued_and_later_claimed() {
    // Executing the check at instant T appends OneTime(T + 6h) with a
    // report action, reachable by a later pass.
    let t = NOW + 5;
    let mut scheduler = Scheduler::new(
        vec![one_time("raid night", t, Todo::CreateAttendanceCheck { hour: 6 })],
        NOW,
    );
    let mut fresh: Vec<u64> = vec![42];
    let mut effects: Vec<Effect> = Vec::new();
    let fired = scheduler.check(NOW + 10, &mut fresh, &mut effects);
    assert_eq!(fired, 1);
    assert!(fresh.is_empty());
    assert_eq!(effects.len(), 1);
    match &effects[0] {
        Effect::AnnounceAttendanceCheck { attendance_id, finishing, event_name } => {
            assert_eq!(attendance_id, "attendance42");
            assert_eq!(*finishing, t + 6 * 3600);
            assert_eq!(event_name, "raid night");
        }
        other => panic!("unexpected effect {:?}", other),
    }
    // The fired one-time schedule is gone; the chained one stands in its place.
    assert_eq!(scheduler.schedules().len(), 1);
    let chained = &scheduler.schedules()[0];
    assert_eq!(chained.id, "");
    match &chained.todo {
        Todo::SendAttendanceInfo { attendance_id } => assert_eq!(attendance_id, "attendance42"),
        other => panic!("unexpected todo {:?}", other),
    }
    match &chained.schedule_type {
        ScheduleType::OneTime { datetime } => assert_eq!(*datetime, t + 6 * 3600),
        other => panic!("unexpected trigger {:?}", other),
    }
    // A later pass past T + 6h claims the chained schedule.
    let mut effects2: Vec<Effect> = Vec::new();
    let fired2 = scheduler.check(t + 6 * 3600 + 30, &mut fresh, &mut effects2);
    assert_eq!(fired2, 1);
    assert_eq!(scheduler.schedules().len(), 0);
    assert_eq!(effects2.len(), 1);
    match &effects2[0] {
        Effect::QueryAttendance { attendance_id } => assert_eq!(attendance_id, "attendance42"),
        other => panic!("unexpected effect {:?}", other),
    }
}

#[test]
fn exception_overrides_and_weekly_persists() {
    // A weekly rule named "foo"; an injected one-off exception on its own
    // weekday claims the occurrence, fires exactly once, and is removed;
    // "foo" persists unfired that week and fires the following week.
    let mut scheduler = Scheduler::new(
        vec![Schedule {
            id: "foo".to_string(),
            todo: Todo::Test,
            schedule_type: ScheduleType::_weekly(Weekday::Wed, 12 * 3600),
        }],
        NOW,
    );
    let outcome = scheduler.add_exception("foo", WED_DAY, Some("お休みです"), NOW);
    assert_eq!(outcome, ExceptionOutcome::Success);
    assert_eq!(outcome.message(), "休み登録成功");

    let mut fresh: Vec<u64> = Vec::new();
    let mut effects: Vec<Effect> = Vec::new();
    let fired = scheduler.check(WED_NOON_OCC + 100, &mut fresh, &mut effects);
    assert_eq!(fired, 1);
    // The exception's message was sent in place of the base action.
    assert_eq!(effects.len(), 1);
    match &effects[0] {
        Effect::Push { contents } => assert_eq!(contents.text, "お休みです"),
        other => panic!("unexpected effect {:?}", other),
    }
    // The exception is consumed; the weekly rule itself remains.
    let foo = scheduler.get("foo").expect("foo persists");
    match &foo.schedule_type {
        ScheduleType::Weekly { exception, .. } => assert!(exception.is_empty()),
        other => panic!("unexpected trigger {:?}", other),
    }
    // Unfired for the rest of that week.
    let mut effects2: Vec<Effect> = Vec::new();
    let fired2 = scheduler.check(WED_NOON_OCC + 200, &mut fresh, &mut effects2);
    assert_eq!(fired2, 0);
    assert!(effects2.is_empty());
    // The next week's occurrence fires the base rule again.
    let mut effects3: Vec<Effect> = Vec::new();
    let fired3 = scheduler.check(WED_NOON_OCC + 7 * 86400 + 100, &mut fresh, &mut effects3);
    assert_eq!(fired3, 1);
    assert!(scheduler.get("foo").is_some());
}

#[test]
fn weekly_attendance_check_stays_and_chains() {
    // A weekly attendance check fires at its occurrence: the weekly rule
    // itself stays in the collection and the follow-up one-time report is
    // appended beside it.
    let mut scheduler = Scheduler::new(
        vec![Schedule {
            id: "卓".to_string(),
            todo: Todo::CreateAttendanceCheck { hour: 6 },
            schedule_type: ScheduleType::_weekly(Weekday::Wed, 12 * 3600),
        }],
        WED_NOON_OCC - 50,
    );
    let mut fresh: Vec<u64> = vec![7];
    let mut effects: Vec<Effect> = Vec::new();
    let fired = scheduler.check(WED_NOON_OCC + 50, &mut fresh, &mut effects);
    assert_eq!(fired, 1);
    assert_eq!(scheduler.schedules().len(), 2);
    assert!(matches!(
        scheduler.schedules()[0].schedule_type,
        ScheduleType::Weekly { .. }
    ));
    match &scheduler.schedules()[1].schedule_type {
        ScheduleType::OneTime { datetime } => assert_eq!(*datetime, WED_NOON_OCC + 6 * 3600),
        other => panic!("unexpected trigger {:?}", other),
    }
    match &effects[0] {
        Effect::AnnounceAttendanceCheck { attendance_id, finishing, event_name } => {
            assert_eq!(attendance_id, "attendance7");
            assert_eq!(*finishing, WED_NOON_OCC + 6 * 3600);
            assert_eq!(event_name, "卓");
        }
        other => panic!("unexpected effect {:?}", other),
    }
}

#[test]
fn add_exception_rejects_bad_requests() {
    let mut scheduler = Scheduler::new(
        vec![
            one_time("solo", NOW + 50, Todo::Nothing),
            Schedule {
                id: "foo".to_string(),
                todo: Todo::Test,
                schedule_type: ScheduleType::_weekly(Weekday::Wed, 12 * 3600),
            },
        ],
        NOW,
    );
    // Unknown name.
    let r = scheduler.add_exception("bar", WED_DAY, None, NOW);
    assert_eq!(r, ExceptionOutcome::EventNotFound);
    assert_eq!(r.message(), "イベントが見つかりません");
    // The first match by name is not a weekly rule.
    let r = scheduler.add_exception("solo", WED_DAY, None, NOW);
    assert_eq!(r, ExceptionOutcome::EventNotFound);
    // A Thursday day number against a Wednesday rule.
    let r = scheduler.add_exception("foo", WED_DAY + 1, None, NOW);
    assert_eq!(r, ExceptionOutcome::UnvalidDate);
    assert_eq!(r.message(), "不正な日付です");
    // A matching weekday a week earlier lies in the past.
    let r = scheduler.add_exception("foo", WED_DAY - 7, None, NOW);
    assert_eq!(r, ExceptionOutcome::PassedDate);
    assert_eq!(r.message(), "過去の日付です");
}

#[test]
fn get_mut_reaches_first_match_by_id() {
    let mut scheduler = Scheduler::new(
        vec![one_time("a", 1, Todo::Nothing), one_time("b", 2, Todo::Nothing)],
        0,
    );
    assert!(scheduler.get("c").is_none());
    let b = scheduler.get_mut("b").expect("b is present");
    b.todo = Todo::Test;
    assert!(matches!(scheduler.schedules()[1].todo, Todo::Test));
}

#[test]
fn attendance_alert_threshold() {
    let alert = attendance_alert(3).expect("below threshold alerts");
    assert_eq!(alert.text, "今のところ卓が立たなさそうです！！！やばいです！！！");
    assert!(attendance_alert(4).is_none());
}

#[test]
fn event_schedule_rejects_past_announcements() {
    let s = event_schedule("party", NOW + 10 * 3600, 6, NOW).expect("announcement ahead");
    match &s.schedule_type {
        ScheduleType::OneTime { datetime } => assert_eq!(*datetime, NOW + 4 * 3600),
        other => panic!("unexpected trigger {:?}", other),
    }
    assert!(matches!(s.todo, Todo::CreateAttendanceCheck { hour: 6 }));
    assert!(event_schedule("party", NOW + 2 * 3600, 6, NOW).is_none());
}

#[test]
fn simple_message_payload() {
    let m = SimpleMessage::new("hi");
    assert_eq!(m.text, "hi");
    assert_eq!(m.json(), "{\"type\":\"text\",\"text\":\"hi\"}");
}
