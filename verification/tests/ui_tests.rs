use meetingtime::calendar::Event;
use meetingtime::cli::{Cli, Commands};
use meetingtime::next::next_report;
use meetingtime::notify::{clicked_join, notice_for};
use meetingtime::time::Instant;

const T0: i64 = 1_714_557_600; // 2024-05-01T10:00:00Z

#[test]
fn notice_with_link() {
    let e = Event {
        title: "Design sync".to_string(),
        start: Instant { secs: T0, nanos: 0 },
        join_url: Some("https://meet.google.com/abc".to_string()),
    };
    let n = notice_for(&e);
    assert_eq!(n.summary, "Meeting starting soon: Design sync");
    assert_eq!(n.body, "https://meet.google.com/abc");
    assert_eq!(n.join_url, Some("https://meet.google.com/abc".to_string()));
}

#[test]
fn notice_without_link() {
    let e = Event { title: "1:1".to_string(), start: Instant { secs: T0, nanos: 0 }, join_url: None };
    let n = notice_for(&e);
    assert_eq!(n.summary, "Meeting starting soon: 1:1");
    assert_eq!(n.body, "No join link found");
    assert_eq!(n.join_url, None);
}

#[test]
fn next_report_lines() {
    let evs = vec![
        Event { title: "old".to_string(), start: Instant { secs: T0 - 1, nanos: 0 }, join_url: None },
        Event {
            title: "Planning".to_string(),
            start: Instant { secs: T0 + 5400, nanos: 0 },
            join_url: Some("https://zoom.us/j/9".to_string()),
        },
    ];
    let lines = next_report(&evs, &Instant { secs: T0, nanos: 0 });
    assert_eq!(
        lines,
        vec![
            "Next meeting: Planning".to_string(),
            "Starts at:   2024-05-01 11:30 UTC".to_string(),
            "Join URL:    https://zoom.us/j/9".to_string(),
        ]
    );
}

#[test]
fn next_report_without_link_or_meeting() {
    let evs = vec![Event { title: "Lunch".to_string(), start: Instant { secs: T0 + 60, nanos: 0 }, join_url: None }];
    let lines = next_report(&evs, &Instant { secs: T0, nanos: 0 });
    assert_eq!(lines[2], "Join URL:    (none found)");
    let none = next_report(&evs, &Instant { secs: T0 + 60, nanos: 0 });
    assert_eq!(none, vec!["No upcoming meetings in the next 24 hours.".to_string()]);
}

#[test]
fn cli_commands() {
    let c = Cli { command: Commands::Next };
    assert_eq!(c.command, Commands::Next);
    assert_ne!(Commands::Auth, Commands::Run);
}

#[test]
fn only_join_action_is_a_click() {
    assert!(clicked_join("join"));
    assert!(!clicked_join("Join"));
    assert!(!clicked_join("default"));
    assert!(!clicked_join(""));
}
