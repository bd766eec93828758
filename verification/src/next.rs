//! The report of the `next` command: the next meeting and how to join it.
use crate::calendar::{
    event_views, first_after, first_upcoming, law_first_after_is_least, law_first_after_none, text_of,
    Event,
};
use crate::time::earlier;
use crate::time::{format_utc_minute, representable, utc_minute_text, Instant};
use vstd::prelude::*;
use vstd::string::StringExecFns;

verus! {

/// The lines that report the next meeting of a list at `now`.
pub open spec fn report_lines(events: Seq<Event>, now: Instant) -> Seq<Seq<char>> {
    match first_after(event_views(events), now) {
        None => seq!["No upcoming meetings in the next 24 hours."@],
        Some(e) => seq![
            "Next meeting: "@ + e.title,
            "Starts at:   "@ + utc_minute_text(e.start.secs, e.start.nanos),
            match e.join_url {
                Some(u) => "Join URL:    "@ + u,
                None => "Join URL:    (none found)"@,
            },
        ],
    }
}

/// The next meeting's start is one that chrono can render.
pub open spec fn report_renderable(events: Seq<Event>, now: Instant) -> bool {
    first_after(event_views(events), now) matches Some(e) ==> representable(e.start)
}

/// The report names the meeting at the least position of the list whose
/// start lies after `now`: its title, its start to the minute, and its join
/// link (or that there is none).
pub proof fn law_report_names_first_upcoming(events: Seq<Event>, now: Instant, i: int)
    requires
        0 <= i < events.len(),
        earlier(now, events[i].start),
        forall|j: int| 0 <= j < i ==> !earlier(now, #[trigger] events[j].start),
    ensures
        report_lines(events, now) == seq![
            "Next meeting: "@ + events[i].title@,
            "Starts at:   "@ + utc_minute_text(events[i].start.secs, events[i].start.nanos),
            match events[i].join_url {
                Some(u) => "Join URL:    "@ + u@,
                None => "Join URL:    (none found)"@,
            },
        ],
{
    let v = event_views(events);
    assert forall|j: int| 0 <= j < i implies !earlier(now, #[trigger] v[j].start) by {
        assert(v[j] == events[j]@);
    }
    assert(v[i] == events[i]@);
    law_first_after_is_least(v, now, i);
}

/// Where no meeting of the list starts after `now`, the report says so and
/// nothing else.
pub proof fn law_report_without_upcoming(events: Seq<Event>, now: Instant)
    requires
        forall|j: int| 0 <= j < events.len() ==> !earlier(now, #[trigger] events[j].start),
    ensures
        report_lines(events, now) == seq!["No upcoming meetings in the next 24 hours."@],
{
    let v = event_views(events);
    assert forall|j: int| 0 <= j < v.len() implies !earlier(now, #[trigger] v[j].start) by {
        assert(v[j] == events[j]@);
    }
    law_first_after_none(v, now);
}

/// The report of the next meeting after `now`, line by line.
pub fn next_report(events: &Vec<Event>, now: &Instant) -> (r: Vec<String>)
    requires
        report_renderable(events@, *now),
    ensures
        r@.map_values(|s: String| s@) == report_lines(events@, *now),
{
    let mut lines: Vec<String> = Vec::new();
    match first_upcoming(events, now) {
        None => {
            lines.push(String::from_str("No upcoming meetings in the next 24 hours."));
        },
        Some(i) => {
            let e = &events[i];
            let mut title = String::from_str("Next meeting: ");
            title.append(e.title.as_str());
            lines.push(title);
            let mut start = String::from_str("Starts at:   ");
            let when = format_utc_minute(&e.start);
            start.append(when.as_str());
            lines.push(start);
            let join = match &e.join_url {
                Some(url) => {
                    let mut j = String::from_str("Join URL:    ");
                    j.append(url.as_str());
                    j
                },
                None => String::from_str("Join URL:    (none found)"),
            };
            lines.push(join);
        },
    }
    assert(lines@.map_values(|s: String| s@) =~= report_lines(events@, *now));
    lines
}

} // verus!
