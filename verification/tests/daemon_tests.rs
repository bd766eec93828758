use meetingtime::calendar::Event;
use meetingtime::daemon::{retry_pause, Config, DaemonState};
use meetingtime::time::{Instant, Span};

const T0: i64 = 1_714_557_600; // 2024-05-01T10:00:00Z

fn now(offset_secs: i64) -> Instant {
    Instant { secs: T0 + offset_secs, nanos: 0 }
}

fn meeting(title: &str, start_offset: i64, url: Option<&str>) -> Event {
    Event { title: title.to_string(), start: now(start_offset), join_url: url.map(|u| u.to_string()) }
}

#[test]
fn default_config_values() {
    let c = Config::default();
    assert_eq!(c.notify_before_meeting, Span { nanos: 300_000_000_000 });
    assert_eq!(c.auto_open_before_meeting, Span { nanos: 60_000_000_000 });
    assert_eq!(c.daemon_loop, Span { nanos: 15_000_000_000 });
    assert_eq!(c.daemon_idle_loop, Span { nanos: 300_000_000_000 });
}

#[test]
fn idle_without_upcoming_meeting() {
    let cfg = Config::default();
    let mut st = DaemonState::new();
    let evs = vec![meeting("past", -10, None)];
    assert!(st.round_fits(&evs, &now(0), &cfg));
    let plan = st.step(&evs, &now(0), &cfg);
    assert!(plan.upcoming.is_none());
    assert!(plan.notify.is_none());
    assert!(plan.open_url.is_none());
    assert_eq!(plan.pause, cfg.daemon_idle_loop);
}

#[test]
fn reminds_once_within_window() {
    let cfg = Config::default();
    let mut st = DaemonState::new();
    let evs = vec![meeting("standup", 600, None)];
    // Ten minutes ahead: no reminder yet.
    let p = st.step(&evs, &now(0), &cfg);
    assert_eq!(p.upcoming, Some(evs[0].clone()));
    assert!(p.notify.is_none());
    assert_eq!(p.pause, cfg.daemon_loop);
    // Exactly five minutes ahead: remind.
    let p = st.step(&evs, &now(300), &cfg);
    assert_eq!(p.notify, Some(evs[0].clone()));
    // Later rounds do not remind again.
    let p = st.step(&evs, &now(315), &cfg);
    assert!(p.notify.is_none());
    let p = st.step(&evs, &now(599), &cfg);
    assert!(p.notify.is_none());
}

#[test]
fn opens_link_once_a_minute_ahead() {
    let cfg = Config::default();
    let mut st = DaemonState::new();
    let evs = vec![meeting("call", 600, Some("https://meet.google.com/x"))];
    let p = st.step(&evs, &now(539), &cfg);
    assert!(p.open_url.is_none());
    assert!(p.notify.is_some());
    let p = st.step(&evs, &now(540), &cfg);
    assert_eq!(p.open_url, Some("https://meet.google.com/x".to_string()));
    assert!(p.notify.is_none());
    let p = st.step(&evs, &now(560), &cfg);
    assert!(p.open_url.is_none());
}

#[test]
fn no_link_means_nothing_to_open() {
    let cfg = Config::default();
    let mut st = DaemonState::new();
    let evs = vec![meeting("room", 30, None)];
    let p = st.step(&evs, &now(0), &cfg);
    assert!(p.notify.is_some());
    assert!(p.open_url.is_none());
}

#[test]
fn clicked_link_is_not_opened_again() {
    let cfg = Config::default();
    let mut st = DaemonState::new();
    let evs = vec![meeting("call", 200, Some("https://zoom.us/j/1"))];
    let p = st.step(&evs, &now(0), &cfg);
    assert!(p.notify.is_some());
    st.record_click(evs[0].clone());
    st.record_click(evs[0].clone());
    let p = st.step(&evs, &now(150), &cfg);
    assert!(p.open_url.is_none());
}

#[test]
fn started_meetings_are_forgotten_and_next_is_chosen() {
    let cfg = Config::default();
    let mut st = DaemonState::new();
    let evs = vec![meeting("first", 60, Some("https://a")), meeting("second", 120, Some("https://b"))];
    let p = st.step(&evs, &now(0), &cfg);
    assert_eq!(p.notify.as_ref().map(|e| e.title.clone()), Some("first".to_string()));
    assert_eq!(p.open_url, Some("https://a".to_string()));
    let p = st.step(&evs, &now(60), &cfg);
    assert_eq!(p.upcoming.as_ref().map(|e| e.title.clone()), Some("second".to_string()));
    assert_eq!(p.notify.as_ref().map(|e| e.title.clone()), Some("second".to_string()));
    assert_eq!(p.open_url, Some("https://b".to_string()));
}

#[test]
fn rescheduled_meeting_counts_as_new() {
    let cfg = Config::default();
    let mut st = DaemonState::new();
    let p = st.step(&vec![meeting("sync", 100, None)], &now(0), &cfg);
    assert!(p.notify.is_some());
    let p = st.step(&vec![meeting("sync", 200, None)], &now(10), &cfg);
    assert!(p.notify.is_some());
}

#[test]
fn round_fits_detects_overflowing_lead() {
    let mut cfg = Config::default();
    cfg.notify_before_meeting = Span { nanos: 9_000_000_000_000_000_000_000 };
    let st = DaemonState::new();
    let evs = vec![meeting("x", 100, None)];
    assert!(!st.round_fits(&evs, &now(0), &cfg));
    assert!(st.round_fits(&Vec::new(), &now(0), &cfg));
}

#[test]
fn failed_fetch_waits_round_pause() {
    let mut cfg = Config::default();
    cfg.daemon_loop = Span { nanos: 7 };
    assert_eq!(retry_pause(&cfg), Span { nanos: 7 });
}

#[test]
fn reminds_iff_due_over_a_run() {
    let cfg = Config::default();
    let mut st = DaemonState::new();
    let a = meeting("a", 100, None);
    let b = meeting("b", 1000, None);
    let evs = vec![a.clone(), b.clone()];
    let mut fired = Vec::new();
    for t in [0i64, 50, 99, 100, 400, 700, 701, 999] {
        let p = st.step(&evs, &now(t), &cfg);
        if let Some(e) = p.notify {
            fired.push((t, e.title));
        }
    }
    assert_eq!(fired, vec![(0, "a".to_string()), (700, "b".to_string())]);
}
