use chrono::{DateTime, Utc};
use meetingtime::calendar::{
    events_from_response, events_query, first_upcoming, Attendee, Event, RawEvent, RawTime,
};
use meetingtime::time::{
    format_rfc3339, format_utc_minute, parse_rfc3339, Instant, MAX_TIMESTAMP, MIN_TIMESTAMP,
};

const T0: i64 = 1_714_557_600; // 2024-05-01T10:00:00Z

fn s(t: &str) -> String {
    t.to_string()
}

fn raw(summary: Option<&str>, start: Option<&str>) -> RawEvent {
    RawEvent {
        summary: summary.map(s),
        start: RawTime { date_time: start.map(s), date: None },
        hangout_link: None,
        location: None,
        attendees: Vec::new(),
    }
}

fn attendee(is_self: bool, status: &str) -> Attendee {
    Attendee { is_self, response_status: s(status) }
}

#[test]
fn chrono_range_matches_constants() {
    assert_eq!(DateTime::<Utc>::MIN_UTC.timestamp(), MIN_TIMESTAMP);
    assert_eq!(DateTime::<Utc>::MAX_UTC.timestamp(), MAX_TIMESTAMP);
}

#[test]
fn parse_rfc3339_reads_utc_and_offsets() {
    assert_eq!(parse_rfc3339("2024-05-01T10:00:00Z"), Some(Instant { secs: T0, nanos: 0 }));
    assert_eq!(
        parse_rfc3339("2024-05-01T12:00:00.5+02:00"),
        Some(Instant { secs: T0, nanos: 500_000_000 })
    );
    assert_eq!(parse_rfc3339("2024-05-01"), None);
    assert_eq!(parse_rfc3339("not a time"), None);
}

#[test]
fn parse_rfc3339_reads_leap_second() {
    assert_eq!(
        parse_rfc3339("2016-12-31T23:59:60Z"),
        Some(Instant { secs: 1_483_228_799, nanos: 1_000_000_000 })
    );
}

#[test]
fn formats_minutes_and_rfc3339() {
    let i = Instant { secs: T0 + 59, nanos: 0 };
    assert_eq!(format_utc_minute(&i), "2024-05-01 10:00 UTC");
    assert_eq!(format_rfc3339(&Instant { secs: T0, nanos: 0 }), "2024-05-01T10:00:00+00:00");
}

#[test]
fn events_without_attendees_count() {
    let evs = events_from_response(Some(vec![raw(Some("Standup"), Some("2024-05-01T10:00:00Z"))]));
    assert_eq!(
        evs,
        vec![Event { title: s("Standup"), start: Instant { secs: T0, nanos: 0 }, join_url: None }]
    );
}

#[test]
fn events_need_my_acceptance() {
    let mut accepted = raw(Some("A"), Some("2024-05-01T10:00:00Z"));
    accepted.attendees = vec![attendee(false, "declined"), attendee(true, "accepted")];
    let mut declined = raw(Some("B"), Some("2024-05-01T11:00:00Z"));
    declined.attendees = vec![attendee(true, "declined"), attendee(false, "accepted")];
    let mut tentative = raw(Some("C"), Some("2024-05-01T12:00:00Z"));
    tentative.attendees = vec![attendee(true, "tentative")];
    let evs = events_from_response(Some(vec![accepted, declined, tentative]));
    assert_eq!(evs.len(), 1);
    assert_eq!(evs[0].title, "A");
}

#[test]
fn events_without_timestamp_are_dropped() {
    let mut all_day = raw(Some("Holiday"), None);
    all_day.start.date = Some(s("2024-05-01"));
    let no_start = raw(Some("Nothing"), None);
    let bad = raw(Some("Bad"), Some("10am"));
    let good = raw(Some("Good"), Some("2024-05-01T10:00:00Z"));
    let evs = events_from_response(Some(vec![all_day, no_start, bad, good]));
    assert_eq!(evs.len(), 1);
    assert_eq!(evs[0].title, "Good");
}

#[test]
fn date_is_used_when_it_is_a_timestamp() {
    let mut e = raw(Some("X"), None);
    e.start.date = Some(s("2024-05-01T10:00:00Z"));
    let evs = events_from_response(Some(vec![e]));
    assert_eq!(evs[0].start, Instant { secs: T0, nanos: 0 });
}

#[test]
fn untitled_events_get_placeholder() {
    let evs = events_from_response(Some(vec![raw(None, Some("2024-05-01T10:00:00Z"))]));
    assert_eq!(evs[0].title, "(no title)");
}

#[test]
fn join_link_prefers_hangout_then_web_location() {
    let mut a = raw(Some("a"), Some("2024-05-01T10:00:00Z"));
    a.hangout_link = Some(s("https://meet.google.com/abc"));
    a.location = Some(s("https://zoom.us/j/1"));
    let mut b = raw(Some("b"), Some("2024-05-01T10:00:00Z"));
    b.location = Some(s("https://zoom.us/j/1"));
    let mut c = raw(Some("c"), Some("2024-05-01T10:00:00Z"));
    c.location = Some(s("Room 4"));
    let mut d = raw(Some("d"), Some("2024-05-01T10:00:00Z"));
    d.location = Some(s("htt"));
    let evs = events_from_response(Some(vec![a, b, c, d]));
    assert_eq!(evs[0].join_url, Some(s("https://meet.google.com/abc")));
    assert_eq!(evs[1].join_url, Some(s("https://zoom.us/j/1")));
    assert_eq!(evs[2].join_url, None);
    assert_eq!(evs[3].join_url, None);
}

#[test]
fn absent_item_list_gives_no_events() {
    assert!(events_from_response(None).is_empty());
    assert!(events_from_response(Some(Vec::new())).is_empty());
}

#[test]
fn order_is_kept() {
    let evs = events_from_response(Some(vec![
        raw(Some("late"), Some("2024-05-01T12:00:00Z")),
        raw(Some("early"), Some("2024-05-01T09:00:00Z")),
    ]));
    assert_eq!(evs[0].title, "late");
    assert_eq!(evs[1].title, "early");
}

#[test]
fn first_upcoming_skips_started_meetings() {
    let evs = vec![
        Event { title: s("past"), start: Instant { secs: T0 - 60, nanos: 0 }, join_url: None },
        Event { title: s("now"), start: Instant { secs: T0, nanos: 0 }, join_url: None },
        Event { title: s("next"), start: Instant { secs: T0, nanos: 1 }, join_url: None },
        Event { title: s("later"), start: Instant { secs: T0 + 60, nanos: 0 }, join_url: None },
    ];
    assert_eq!(first_upcoming(&evs, &Instant { secs: T0, nanos: 0 }), Some(2));
    assert_eq!(first_upcoming(&evs, &Instant { secs: T0 + 60, nanos: 0 }), None);
    assert_eq!(first_upcoming(&Vec::new(), &Instant { secs: T0, nanos: 0 }), None);
}

#[test]
fn query_covers_next_day() {
    let q = events_query(&Instant { secs: T0, nanos: 0 });
    assert_eq!(
        q,
        vec![
            (s("timeMin"), s("2024-05-01T10:00:00+00:00")),
            (s("timeMax"), s("2024-05-02T10:00:00+00:00")),
            (s("singleEvents"), s("true")),
            (s("orderBy"), s("startTime")),
        ]
    );
}

#[test]
fn event_equality_and_clone() {
    let e = Event { title: s("x"), start: Instant { secs: 1, nanos: 2 }, join_url: Some(s("u")) };
    let c = e.clone();
    assert_eq!(e, c);
    assert!(e.same_as(&c));
    let d = Event { join_url: None, ..e.clone() };
    assert_ne!(e, d);
}
