use attendance_bot::clock::Weekday;
use attendance_bot::codec::{parse_document, render_document};
use attendance_bot::message::SimpleMessage;
use attendance_bot::schedule::{ExceptionEntry, Schedule, ScheduleType, Todo};

fn rich_collection() -> Vec<Schedule> {
    vec![
        Schedule {
            id: "A".to_string(),
            todo: Todo::Test,
            schedule_type: ScheduleType::OneTime { datetime: 5 },
        },
        Schedule {
            id: "週次 \"quoted\" \\ backslash".to_string(),
            todo: Todo::CreateAttendanceCheck { hour: 6 },
            schedule_type: ScheduleType::Weekly {
                weekday: Weekday::Wed,
                time: 12 * 3600,
                exception: vec![
                    ExceptionEntry {
                        id: "休み".to_string(),
                        todo: Todo::SendMessage { contents: SimpleMessage::new("お休みです") },
                        datetime: 1_699_412_400,
                    },
                    ExceptionEntry {
                        id: "".to_string(),
                        todo: Todo::SendAttendanceInfo {
                            attendance_id: "attendance42".to_string(),
                        },
                        datetime: 999_999_999_999,
                    },
                ],
            },
        },
        Schedule {
            id: "".to_string(),
            todo: Todo::Nothing,
            schedule_type: ScheduleType::OneTime { datetime: 0 },
        },
    ]
}

#[test]
fn document_round_trip_preserves_content_and_order() {
    let original = rich_collection();
    let doc = render_document(&original);
    let loaded = parse_document(&doc).expect("canonical document loads");
    assert_eq!(loaded.len(), original.len());
    assert_eq!(render_document(&loaded), doc);
}

#[test]
fn document_exact_text() {
    let v = vec![Schedule {
        id: "A".to_string(),
        todo: Todo::Test,
        schedule_type: ScheduleType::OneTime { datetime: 5 },
    }];
    assert_eq!(
        render_document(&v),
        "[{\"id\":\"A\",\"todo\":\"Test\",\"schedule_type\":{\"OneTime\":{\"datetime\":5}}}]"
    );
}

#[test]
fn document_escapes_quotes_and_backslashes() {
    let v = vec![Schedule {
        id: "a\"b\\c".to_string(),
        todo: Todo::Nothing,
        schedule_type: ScheduleType::OneTime { datetime: 1 },
    }];
    let doc = render_document(&v);
    assert_eq!(
        doc,
        "[{\"id\":\"a\\\"b\\\\c\",\"todo\":\"Nothing\",\"schedule_type\":{\"OneTime\":{\"datetime\":1}}}]"
    );
    let loaded = parse_document(&doc).expect("escaped document loads");
    assert_eq!(loaded[0].id, "a\"b\\c");
}

#[test]
fn empty_document_round_trips() {
    let v: Vec<Schedule> = Vec::new();
    let doc = render_document(&v);
    assert_eq!(doc, "[]");
    let loaded = parse_document(&doc).expect("empty document loads");
    assert!(loaded.is_empty());
}

#[test]
fn malformed_documents_are_rejected() {
    assert!(parse_document("").is_none());
    assert!(parse_document("{}").is_none());
    assert!(parse_document("[").is_none());
    assert!(parse_document("[]trailing").is_none());
    // A truncated record.
    assert!(parse_document("[{\"id\":\"A\",\"todo\":\"Test\"").is_none());
    // An unknown action tag.
    assert!(
        parse_document(
            "[{\"id\":\"A\",\"todo\":\"Later\",\"schedule_type\":{\"OneTime\":{\"datetime\":5}}}]"
        )
        .is_none()
    );
    // An hour offset beyond the supported range.
    assert!(
        parse_document(
            "[{\"id\":\"A\",\"todo\":{\"CreateAttendanceCheck\":{\"hour\":100001}},\"schedule_type\":{\"OneTime\":{\"datetime\":5}}}]"
        )
        .is_none()
    );
    // A number with a leading zero is not canonical.
    assert!(
        parse_document(
            "[{\"id\":\"A\",\"todo\":\"Test\",\"schedule_type\":{\"OneTime\":{\"datetime\":007}}}]"
        )
        .is_none()
    );
    // An instant beyond the supported range.
    assert!(
        parse_document(
            "[{\"id\":\"A\",\"todo\":\"Test\",\"schedule_type\":{\"OneTime\":{\"datetime\":1000000000000}}}]"
        )
        .is_none()
    );
    // A weekday outside 0..=6.
    assert!(
        parse_document(
            "[{\"id\":\"A\",\"todo\":\"Test\",\"schedule_type\":{\"Weekly\":{\"weekday\":7,\"time\":0,\"exception\":[]}}}]"
        )
        .is_none()
    );
}

#[test]
fn parse_accepts_boundary_values() {
    let doc = "[{\"id\":\"A\",\"todo\":{\"CreateAttendanceCheck\":{\"hour\":100000}},\"schedule_type\":{\"OneTime\":{\"datetime\":999999999999}}}]";
    let loaded = parse_document(doc).expect("boundary values load");
    assert!(matches!(loaded[0].todo, Todo::CreateAttendanceCheck { hour: 100000 }));
    assert_eq!(render_document(&loaded), doc);
}
