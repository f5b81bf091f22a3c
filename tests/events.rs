use adonais::clock::Instant;
use adonais::{
    calculate_calendar_update, google, keats, CalendarUpdateRequest, CalendarUpdateResponse,
    DateTimeParseError, Event, EventInner,
};
use chrono::DateTime;

fn instant(text: &str) -> Instant {
    let t = DateTime::parse_from_rfc3339(text).unwrap();
    Instant::new(t.timestamp(), t.offset().local_minus_utc()).unwrap()
}

fn base_keats_event() -> keats::Event {
    keats::Event {
        date: "2017-11-12T00:00:00".to_owned(),
        start_time: "14:03".to_owned(),
        end_time: "15:00".to_owned(),
        code: "CODE001".to_owned(),
        groups: Some("253-256".to_owned()),
        title: Some("Introduction to Clinical Pharmacology".to_owned()),
        type_: Some("Lecture".to_owned()),
        staff: Some("John Keats".to_owned()),
        room: Some("Room 3b".to_owned()),
        campus: Some("Unseen University".to_owned()),
    }
}

fn base_event() -> Event {
    Event {
        id: "M9P6FJN06OLGM===".to_owned(),
        inner: EventInner {
            start: instant("2017-11-12T14:03:00+00:00"),
            end: instant("2017-11-12T15:00:00+00:00"),
            code: "CODE001".to_owned(),
            groups: vec![253, 254, 255, 256],
            groups_raw: Some("253-256".to_owned()),
            title: Some("Introduction to Clinical Pharmacology".to_owned()),
            type_: Some("Lecture".to_owned()),
            staff: Some("John Keats".to_owned()),
            room: Some("Room 3b".to_owned()),
            campus: Some("Unseen University".to_owned()),
        },
    }
}

fn base_google_event() -> google::Event {
    google::Event {
        id: "M9P6FJN06OLGM===".to_owned(),
        start: google::Time { datetime: "2017-11-12T14:03:00+00:00".to_owned() },
        end: google::Time { datetime: "2017-11-12T15:00:00+00:00".to_owned() },
        summary: "Introduction to Clinical Pharmacology, 253-256".to_owned(),
        description: "CODE001\nJohn Keats\nLecture".to_owned(),
        location: "Room 3b, Unseen University".to_owned(),
    }
}

#[test]
fn lib_test_event_from_keats_event() {
    // All fields present
    assert_eq!(Event::try_from(base_keats_event()).unwrap(), base_event());

    // Missing groups is assigned to everyone
    assert_eq!(
        Event::try_from(keats::Event { groups: None, ..base_keats_event() }).unwrap().inner,
        EventInner { groups: (200..300).collect(), groups_raw: None, ..base_event().inner }
    );

    // Time parse error is raised up
    assert!(Event::try_from(keats::Event { date: "spam".to_owned(), ..base_keats_event() })
        .is_err())
}

#[test]
fn test_google_event_from_event() {
    // All fields present
    assert_eq!(google::Event::from(base_event()), base_google_event());

    // Timezones handled (London DST)
    assert_eq!(
        google::Event::from(Event {
            id: "id1".to_owned(),
            inner: EventInner {
                start: instant("2019-08-12T14:03:00+01:00"),
                end: instant("2019-08-12T15:00:00+01:00"),
                ..base_event().inner
            }
        }),
        google::Event {
            id: "id1".to_owned(),
            start: google::Time { datetime: "2019-08-12T14:03:00+01:00".to_owned() },
            end: google::Time { datetime: "2019-08-12T15:00:00+01:00".to_owned() },
            ..base_google_event()
        }
    );

    // Description & location concat nicely
    assert_eq!(
        google::Event::from(Event {
            id: "id2".to_owned(),
            inner: EventInner { staff: None, room: None, ..base_event().inner }
        }),
        google::Event {
            id: "id2".to_owned(),
            description: "CODE001\nLecture".to_owned(),
            location: "Unseen University".to_owned(),
            ..base_google_event()
        }
    );
}

#[test]
fn test_calclate_calendar_update() {
    // - the base event is unchanged
    // - "existing1" has been deleted
    // - "New Event" is created with a new id
    assert_eq!(
        calculate_calendar_update(CalendarUpdateRequest {
            new: vec![
                base_keats_event(),
                keats::Event { title: Some("New Event".to_owned()), ..base_keats_event() },
                keats::Event {
                    title: Some("Past Event (that should be filtered out".to_owned()),
                    date: "1993-11-12T00:00:00".to_owned(),
                    ..base_keats_event()
                },
            ],
            existing: vec![base_google_event().id, "existing1".to_string()],
            group: 253,
            time_min: Some(instant("2017-01-01T00:00:00+00:00")),
        })
        .unwrap(),
        CalendarUpdateResponse {
            created: vec![google::Event {
                id: "E0KO7T238TM42===".to_owned(),
                summary: "New Event, 253-256".to_owned(),
                ..base_google_event()
            }],
            deleted: vec!["existing1".to_string()],
        }
    )
}

fn intro_record() -> keats::Event {
    keats::Event {
        code: "CODE001".to_owned(),
        date: "2017-11-12T00:00:00".to_owned(),
        start_time: "14:03".to_owned(),
        end_time: "15:00".to_owned(),
        groups: Some("253-256".to_owned()),
        title: Some("Intro".to_owned()),
        type_: None,
        staff: None,
        room: None,
        campus: None,
    }
}

#[test]
fn intro_record_is_created_for_its_group() {
    let response = calculate_calendar_update(CalendarUpdateRequest {
        existing: vec![],
        new: vec![intro_record()],
        group: 253,
        time_min: None,
    })
    .unwrap();
    assert_eq!(response.created.len(), 1);
    assert!(response.deleted.is_empty());
    let created = &response.created[0];
    assert_eq!(created.start.datetime, "2017-11-12T14:03:00+00:00");
    assert_eq!(created.end.datetime, "2017-11-12T15:00:00+00:00");
    assert_eq!(created.summary, "Intro, 253-256");
    assert_eq!(created.description, "CODE001");
    assert_eq!(created.location, "");
    let event = Event::try_from(intro_record()).unwrap();
    assert_eq!(event.inner.groups, vec![253, 254, 255, 256]);
    assert_eq!(created.id, event.id);
}

#[test]
fn intro_record_without_groups_is_for_everyone() {
    let event = Event::try_from(keats::Event { groups: None, ..intro_record() }).unwrap();
    assert_eq!(event.inner.groups, (200..300).collect::<Vec<u32>>());
    assert_eq!(event.inner.groups_raw, None);
}

#[test]
fn second_run_changes_nothing() {
    let records = vec![
        intro_record(),
        keats::Event { title: Some("Other".to_owned()), ..intro_record() },
    ];
    let first = calculate_calendar_update(CalendarUpdateRequest {
        existing: vec!["stale".to_owned()],
        new: records.clone(),
        group: 254,
        time_min: None,
    })
    .unwrap();
    assert_eq!(first.created.len(), 2);
    assert_eq!(first.deleted, vec!["stale".to_owned()]);
    let existing: Vec<String> = first.created.iter().map(|e| e.id.clone()).collect();
    let second = calculate_calendar_update(CalendarUpdateRequest {
        existing,
        new: records,
        group: 254,
        time_min: None,
    })
    .unwrap();
    assert!(second.created.is_empty());
    assert!(second.deleted.is_empty());
}

#[test]
fn normalizing_twice_gives_the_same_identity() {
    let a = Event::try_from(base_keats_event()).unwrap();
    let b = Event::try_from(base_keats_event()).unwrap();
    assert_eq!(a.id, b.id);
    let c = Event::try_from(keats::Event { staff: None, ..base_keats_event() }).unwrap();
    assert_ne!(a.id, c.id);
}

#[test]
fn identity_is_padded_base32hex() {
    let id = Event::try_from(base_keats_event()).unwrap().id;
    assert_eq!(id.len(), 16);
    assert!(id.ends_with("==="));
    assert!(id[..13].chars().all(|c| c.is_ascii_digit() || ('A'..='V').contains(&c)));
}

#[test]
fn fall_back_day_takes_earliest_start_and_latest_end() {
    // London left summer time at 02:00 BST on 2017-10-29; 01:00 to 02:00
    // happened twice.
    let event = Event::try_from(keats::Event {
        date: "2017-10-29T00:00:00".to_owned(),
        start_time: "01:30".to_owned(),
        end_time: "01:30".to_owned(),
        ..base_keats_event()
    })
    .unwrap();
    assert_eq!(event.inner.start, instant("2017-10-29T00:30:00+00:00"));
    assert_eq!(event.inner.end, instant("2017-10-29T01:30:00+00:00"));
    assert!(event.inner.start.timestamp() <= event.inner.end.timestamp());

    let event = Event::try_from(keats::Event {
        date: "2017-10-29T00:00:00".to_owned(),
        start_time: "01:10".to_owned(),
        end_time: "01:50".to_owned(),
        ..base_keats_event()
    })
    .unwrap();
    assert_eq!(event.inner.end.timestamp() - event.inner.start.timestamp(), 100 * 60);
}

#[test]
fn spring_forward_gap_is_an_error() {
    // London skipped 01:00 to 02:00 GMT on 2017-03-26.
    let result = Event::try_from(keats::Event {
        date: "2017-03-26T00:00:00".to_owned(),
        start_time: "01:30".to_owned(),
        ..base_keats_event()
    });
    assert_eq!(result, Err(DateTimeParseError::Nonexistent));
}

#[test]
fn summer_time_is_shown_in_utc() {
    let event = Event::try_from(keats::Event {
        date: "2019-08-12T00:00:00".to_owned(),
        ..base_keats_event()
    })
    .unwrap();
    assert_eq!(event.inner.start, instant("2019-08-12T13:03:00+00:00"));
    assert_eq!(google::Event::from(event).start.datetime, "2019-08-12T13:03:00+00:00");
}

#[test]
fn badly_formatted_times_are_format_errors() {
    for record in [
        keats::Event { date: "2017-11-12".to_owned(), ..base_keats_event() },
        keats::Event { start_time: "25:00".to_owned(), ..base_keats_event() },
        keats::Event { end_time: "spam".to_owned(), ..base_keats_event() },
    ] {
        assert!(matches!(Event::try_from(record), Err(DateTimeParseError::Format(_))));
    }
}

#[test]
fn a_bad_record_fails_the_whole_update() {
    let result = calculate_calendar_update(CalendarUpdateRequest {
        existing: vec!["a".to_owned()],
        new: vec![base_keats_event(), keats::Event { date: "spam".to_owned(), ..base_keats_event() }],
        group: 253,
        time_min: None,
    });
    assert!(matches!(result, Err(DateTimeParseError::Format(_))));
}

#[test]
fn filtered_events_are_not_created() {
    let response = calculate_calendar_update(CalendarUpdateRequest {
        existing: vec![],
        new: vec![
            keats::Event { groups: Some("1-5".to_owned()), ..base_keats_event() },
            base_keats_event(),
        ],
        group: 253,
        time_min: Some(instant("2017-11-12T15:00:00+00:00")),
    })
    .unwrap();
    // The second ends exactly at the bound, the first is for other groups.
    assert!(response.created.is_empty());

    let response = calculate_calendar_update(CalendarUpdateRequest {
        existing: vec![base_event().id],
        new: vec![base_keats_event()],
        group: 253,
        time_min: Some(instant("2017-11-12T14:59:59+00:00")),
    })
    .unwrap();
    assert!(response.created.is_empty());
    assert!(response.deleted.is_empty());
}

#[test]
fn duplicate_ids_appear_once() {
    let response = calculate_calendar_update(CalendarUpdateRequest {
        existing: vec!["x".to_owned(), "x".to_owned()],
        new: vec![base_keats_event(), base_keats_event()],
        group: 253,
        time_min: None,
    })
    .unwrap();
    assert_eq!(response.created.len(), 1);
    assert_eq!(response.deleted, vec!["x".to_owned()]);
}

#[test]
fn empty_fields_are_left_out_of_texts() {
    let event = Event {
        id: "id3".to_owned(),
        inner: EventInner {
            title: None,
            groups_raw: None,
            staff: Some(String::new()),
            room: None,
            campus: None,
            ..base_event().inner
        },
    };
    let shown = google::Event::from(event);
    assert_eq!(shown.summary, "CODE001");
    assert_eq!(shown.description, "CODE001\nLecture");
    assert_eq!(shown.location, "");
}

#[test]
fn instants_outside_chrono_range_are_refused() {
    assert!(Instant::new(0, 86_400).is_none());
    assert!(Instant::new(i64::MAX, 0).is_none());
    let i = Instant::new(0, -3600).unwrap();
    assert_eq!(i.to_rfc3339(), "1969-12-31T23:00:00-01:00");
    assert_eq!(Instant::new(0, 0).unwrap().to_rfc3339(), "1970-01-01T00:00:00+00:00");
}

#[test]
fn summary_keeps_empty_group_text_and_empty_title() {
    let shown = google::Event::from(Event {
        id: "id4".to_owned(),
        inner: EventInner { groups_raw: Some(String::new()), ..base_event().inner },
    });
    assert_eq!(shown.summary, "Introduction to Clinical Pharmacology, ");
    let shown = google::Event::from(Event {
        id: "id5".to_owned(),
        inner: EventInner { title: Some(String::new()), ..base_event().inner },
    });
    assert_eq!(shown.summary, ", 253-256");
}
