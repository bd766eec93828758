//! Meetings as the calendar reports them, and the rules that turn the
//! calendar's raw event list into the meetings the reminder cares about.
use crate::time::{
    earlier, format_rfc3339, is_regular, parse_rfc3339, representable, rfc3339_instant, rfc3339_text,
    shifted, total_in_range, total_nanos, Instant, Span,
};
use vstd::prelude::*;
use vstd::string::StrSliceExecFns;
use vstd::string::StringExecFns;

verus! {

/// A meeting: its title, when it starts, and the link to join it, if any.
#[derive(Debug, Hash)]
pub struct Event {
    pub title: String,
    pub start: Instant,
    pub join_url: Option<String>,
}

/// What an [`Event`] holds, as mathematical values.
pub struct EventView {
    pub title: Seq<char>,
    pub start: Instant,
    pub join_url: Option<Seq<char>>,
}

/// The text of an optional string.
pub open spec fn text_of(s: Option<String>) -> Option<Seq<char>> {
    match s {
        Some(t) => Some(t@),
        None => None,
    }
}

impl View for Event {
    type V = EventView;

    open spec fn view(&self) -> EventView {
        EventView { title: self.title@, start: self.start, join_url: text_of(self.join_url) }
    }
}

/// The views of a sequence of events.
pub open spec fn event_views(events: Seq<Event>) -> Seq<EventView> {
    events.map_values(|e: Event| e@)
}

/// A copy of an optional string.
pub fn copy_text(s: &Option<String>) -> (r: Option<String>)
    ensures
        text_of(r) == text_of(*s),
{
    match s {
        Some(t) => Some(t.clone()),
        None => None,
    }
}

impl Event {
    /// Whether two events hold the same title, start and join link.
    pub fn same_as(&self, other: &Event) -> (r: bool)
        ensures
            r == (self@ == other@),
    {
        let same_link = match (&self.join_url, &other.join_url) {
            (Some(a), Some(b)) => *a == *b,
            (None, None) => true,
            _ => false,
        };
        self.title == other.title && self.start == other.start && same_link
    }
}

impl Clone for Event {
    fn clone(&self) -> (r: Self)
        ensures
            r@ == self@,
    {
        Event { title: self.title.clone(), start: self.start, join_url: copy_text(&self.join_url) }
    }
}

impl PartialEq for Event {
    fn eq(&self, other: &Event) -> (r: bool) {
        self.same_as(other)
    }
}

impl Eq for Event {

}

impl vstd::std_specs::cmp::PartialEqSpecImpl for Event {
    open spec fn obeys_eq_spec() -> bool {
        true
    }

    open spec fn eq_spec(&self, other: &Event) -> bool {
        self@ == other@
    }
}

/// One attendee of a calendar event: whether it is the calendar's owner, and
/// the owner's answer to the invitation.
#[derive(Debug)]
pub struct Attendee {
    pub is_self: bool,
    pub response_status: String,
}

/// The start of a calendar event: a timestamp, or a date for all-day events.
#[derive(Debug)]
pub struct RawTime {
    pub date_time: Option<String>,
    pub date: Option<String>,
}

/// A calendar event as the calendar service lists it.
#[derive(Debug)]
pub struct RawEvent {
    pub summary: Option<String>,
    pub start: RawTime,
    pub hangout_link: Option<String>,
    pub location: Option<String>,
    pub attendees: Vec<Attendee>,
}

/// An event counts when it lists no attendees, or when the calendar's owner
/// is an attendee who accepted.
pub open spec fn accepted_by_me(raw: RawEvent) -> bool {
    raw.attendees@.len() == 0 || exists|i: int|
        0 <= i < raw.attendees@.len() && #[trigger] raw.attendees@[i].is_self
            && raw.attendees@[i].response_status@ == "accepted"@
}

/// The text of an event's start: its timestamp, else its date.
pub open spec fn start_text(raw: RawEvent) -> Option<Seq<char>> {
    match raw.start.date_time {
        Some(t) => Some(t@),
        None => text_of(raw.start.date),
    }
}

/// Text that begins with `http`.
pub open spec fn is_web_link(s: Seq<char>) -> bool {
    seq!['h', 't', 't', 'p'].is_prefix_of(s)
}

/// The join link of an event: its video-call link, else its location when
/// the location is a web link.
pub open spec fn join_link(raw: RawEvent) -> Option<Seq<char>> {
    match raw.hangout_link {
        Some(h) => Some(h@),
        None => match raw.location {
            Some(l) => if is_web_link(l@) {
                Some(l@)
            } else {
                None
            },
            None => None,
        },
    }
}

/// The title of an event: its summary, else `(no title)`.
pub open spec fn title_of(raw: RawEvent) -> Seq<char> {
    match raw.summary {
        Some(s) => s@,
        None => "(no title)"@,
    }
}

/// The meeting an event describes, when its start reads as an RFC 3339
/// timestamp.
pub open spec fn meeting_of(raw: RawEvent) -> Option<EventView> {
    match start_text(raw) {
        None => None,
        Some(t) => match rfc3339_instant(t) {
            None => None,
            Some(at) => Some(
                EventView {
                    title: title_of(raw),
                    start: Instant { secs: at.0, nanos: at.1 },
                    join_url: join_link(raw),
                },
            ),
        },
    }
}

/// The meetings of a raw event list, in its order: those events that count
/// and whose start reads as a timestamp.
pub open spec fn meetings_of(raws: Seq<RawEvent>) -> Seq<EventView>
    decreases raws.len(),
{
    if raws.len() == 0 {
        seq![]
    } else {
        let rest = meetings_of(raws.drop_last());
        let last = raws.last();
        if accepted_by_me(last) && meeting_of(last) is Some {
            rest.push(meeting_of(last)->0)
        } else {
            rest
        }
    }
}

/// An event counts when the calendar's owner, at any position of its
/// attendee list, has accepted it.
pub proof fn law_owner_acceptance_counts(raw: RawEvent, k: int)
    requires
        0 <= k < raw.attendees@.len(),
        raw.attendees@[k].is_self,
        raw.attendees@[k].response_status@ == "accepted"@,
    ensures
        accepted_by_me(raw),
{
}

/// An event with attendees counts only when the owner is one of them and
/// has accepted; an event without attendees always counts.
pub proof fn law_acceptance_needed(raw: RawEvent)
    ensures
        raw.attendees@.len() == 0 ==> accepted_by_me(raw),
        (raw.attendees@.len() > 0 && forall|k: int|
            0 <= k < raw.attendees@.len() ==> !(#[trigger] raw.attendees@[k].is_self
                && raw.attendees@[k].response_status@ == "accepted"@)) ==> !accepted_by_me(raw),
{
}

/// What a raw event's meeting holds: the summary as title (else
/// `(no title)`), the start read from the timestamp (else from the date), and
/// as join link the video-call link, else a location beginning with `http`.
pub proof fn law_meeting_fields(raw: RawEvent)
    ensures
        raw.start.date_time is None && raw.start.date is None ==> meeting_of(raw) is None,
        raw.start.date_time matches Some(t) ==> (meeting_of(raw) is Some <==> rfc3339_instant(t@) is Some),
        raw.start.date_time is None ==> (raw.start.date matches Some(d) ==> (meeting_of(raw) is Some
            <==> rfc3339_instant(d@) is Some)),
        meeting_of(raw) matches Some(e) ==> {
            &&& raw.start.date_time matches Some(t) ==> rfc3339_instant(t@) == Some(
                (e.start.secs, e.start.nanos),
            )
            &&& raw.start.date_time is None ==> (raw.start.date matches Some(d) ==> rfc3339_instant(
                d@,
            ) == Some((e.start.secs, e.start.nanos)))
            &&& raw.summary matches Some(x) ==> e.title == x@
            &&& raw.summary is None ==> e.title == "(no title)"@
            &&& raw.hangout_link matches Some(h) ==> e.join_url == Some(h@)
            &&& raw.hangout_link is None ==> (raw.location matches Some(l) ==> (e.join_url == if l@.len()
                >= 4 && l@[0] == 'h' && l@[1] == 't' && l@[2] == 't' && l@[3] == 'p' {
                Some(l@)
            } else {
                None::<Seq<char>>
            }))
            &&& (raw.hangout_link is None && raw.location is None) ==> e.join_url is None
        },
{
    if let Some(l) = raw.location {
        let p = seq!['h', 't', 't', 'p'];
        if l@.len() >= 4 && l@[0] == 'h' && l@[1] == 't' && l@[2] == 't' && l@[3] == 'p' {
            assert(p =~= l@.subrange(0, 4));
        }
        if is_web_link(l@) {
            assert(p[0] == l@[0] && p[1] == l@[1] && p[2] == l@[2] && p[3] == l@[3]);
        }
    }
}

/// The meetings of a list are those of its first part followed by those of
/// the rest, and a single raw event gives one meeting exactly when it counts
/// and its start reads as a timestamp.
pub proof fn law_meetings_compose(a: Seq<RawEvent>, b: Seq<RawEvent>, r: RawEvent)
    ensures
        meetings_of(a + b) == meetings_of(a) + meetings_of(b),
        meetings_of(seq![r]).len() == (if accepted_by_me(r) && meeting_of(r) is Some {
            1int
        } else {
            0int
        }),
        meetings_of(seq![r]).len() == 1 ==> meetings_of(seq![r])[0] == meeting_of(r)->0,
    decreases b.len(),
{
    assert(seq![r].drop_last() =~= Seq::<RawEvent>::empty());
    assert(seq![r].last() == r);
    assert(meetings_of(Seq::<RawEvent>::empty()) == Seq::<EventView>::empty());
    if b.len() == 0 {
        assert(a + b =~= a);
        assert(meetings_of(a) + meetings_of(b) =~= meetings_of(a));
    } else {
        law_meetings_compose(a, b.drop_last(), r);
        assert((a + b).drop_last() =~= a + b.drop_last());
        assert((a + b).last() == b.last());
        if accepted_by_me(b.last()) && meeting_of(b.last()) is Some {
            assert(meetings_of(a) + meetings_of(b.drop_last()).push(meeting_of(b.last())->0) =~= (
            meetings_of(a) + meetings_of(b.drop_last())).push(meeting_of(b.last())->0));
        }
    }
}

/// Whether an event counts for the calendar's owner.
pub fn is_accepted_by_me(raw: &RawEvent) -> (r: bool)
    ensures
        r == accepted_by_me(*raw),
{
    let n = raw.attendees.len();
    if n == 0 {
        return true;
    }
    let accepted = String::from_str("accepted");
    let mut i: usize = 0;
    while i < n
        invariant
            n == raw.attendees@.len(),
            i <= n,
            accepted@ == "accepted"@,
            forall|j: int|
                0 <= j < i ==> !(#[trigger] raw.attendees@[j].is_self
                    && raw.attendees@[j].response_status@ == "accepted"@),
        decreases n - i,
    {
        let a = &raw.attendees[i];
        if a.is_self && a.response_status == accepted {
            return true;
        }
        i = i + 1;
    }
    false
}

/// Whether a text begins with `http`.
pub fn starts_with_http(s: &String) -> (r: bool)
    ensures
        r == is_web_link(s@),
{
    let text = s.as_str();
    let n = text.unicode_len();
    if n < 4 {
        return false;
    }
    let r = text.get_char(0) == 'h' && text.get_char(1) == 't' && text.get_char(2) == 't'
        && text.get_char(3) == 'p';
    assert(r == (s@[0] == 'h' && s@[1] == 't' && s@[2] == 't' && s@[3] == 'p'));
    assert(r == is_web_link(s@)) by {
        let p = seq!['h', 't', 't', 'p'];
        if r {
            assert(p =~= s@.subrange(0, 4));
        }
        if is_web_link(s@) {
            assert(p[0] == s@[0] && p[1] == s@[1] && p[2] == s@[2] && p[3] == s@[3]);
        }
    }
    r
}

/// The meeting that a raw event describes, if its start reads as a timestamp.
pub fn meeting_from(raw: &RawEvent) -> (r: Option<Event>)
    ensures
        match r {
            Some(e) => meeting_of(*raw) == Some(e@) && representable(e.start),
            None => meeting_of(*raw) is None,
        },
{
    let start_text: &String = match &raw.start.date_time {
        Some(t) => t,
        None => match &raw.start.date {
            Some(d) => d,
            None => {
                return None;
            },
        },
    };
    let start = match parse_rfc3339(start_text.as_str()) {
        Some(at) => at,
        None => {
            return None;
        },
    };
    let join_url = match &raw.hangout_link {
        Some(h) => Some(h.clone()),
        None => match &raw.location {
            Some(l) => if starts_with_http(l) {
                Some(l.clone())
            } else {
                None
            },
            None => None,
        },
    };
    let title = match &raw.summary {
        Some(s) => s.clone(),
        None => String::from_str("(no title)"),
    };
    Some(Event { title, start, join_url })
}

/// The meetings of the calendar's answer, in its order. An absent list
/// holds no meetings.
pub fn events_from_response(items: Option<Vec<RawEvent>>) -> (r: Vec<Event>)
    ensures
        event_views(r@) == meetings_of(
            match items {
                Some(v) => v@,
                None => Seq::<RawEvent>::empty(),
            },
        ),
        forall|k: int| 0 <= k < r@.len() ==> representable(#[trigger] r@[k].start),
{
    let raws = match items {
        Some(v) => v,
        None => Vec::new(),
    };
    let mut out: Vec<Event> = Vec::new();
    let n = raws.len();
    let mut i: usize = 0;
    while i < n
        invariant
            n == raws@.len(),
            i <= n,
            event_views(out@) == meetings_of(raws@.take(i as int)),
            forall|k: int| 0 <= k < out@.len() ==> representable(#[trigger] out@[k].start),
        decreases n - i,
    {
        let raw = &raws[i];
        assert(raws@.take(i + 1).drop_last() =~= raws@.take(i as int));
        assert(raws@.take(i + 1).last() == raws@[i as int]);
        if is_accepted_by_me(raw) {
            match meeting_from(raw) {
                Some(e) => {
                    out.push(e);
                    assert(event_views(out@) =~= meetings_of(raws@.take(i as int)).push(
                        meeting_of(*raw)->0,
                    ));
                },
                None => {},
            }
        }
        i = i + 1;
    }
    assert(raws@.take(n as int) =~= raws@);
    out
}

/// The first meeting of a list that starts after `now`.
pub open spec fn first_after(events: Seq<EventView>, now: Instant) -> Option<EventView>
    decreases events.len(),
{
    if events.len() == 0 {
        None
    } else if earlier(now, events[0].start) {
        Some(events[0])
    } else {
        first_after(events.drop_first(), now)
    }
}

/// The next meeting is the one at the least position whose start lies after
/// `now`.
pub proof fn law_first_after_is_least(events: Seq<EventView>, now: Instant, i: int)
    requires
        0 <= i < events.len(),
        earlier(now, events[i].start),
        forall|j: int| 0 <= j < i ==> !earlier(now, #[trigger] events[j].start),
    ensures
        first_after(events, now) == Some(events[i]),
    decreases i,
{
    if i > 0 {
        let rest = events.drop_first();
        assert(!earlier(now, events[0].start));
        assert forall|j: int| 0 <= j < i - 1 implies !earlier(now, #[trigger] rest[j].start) by {
            assert(rest[j] == events[j + 1]);
        }
        assert(rest[i - 1] == events[i]);
        law_first_after_is_least(rest, now, i - 1);
    }
}

/// There is no next meeting exactly when no meeting of the list starts
/// after `now`.
pub proof fn law_first_after_none(events: Seq<EventView>, now: Instant)
    ensures
        first_after(events, now) is None <==> forall|j: int|
            0 <= j < events.len() ==> !earlier(now, #[trigger] events[j].start),
    decreases events.len(),
{
    if events.len() > 0 {
        let rest = events.drop_first();
        law_first_after_none(rest, now);
        if !earlier(now, events[0].start) {
            assert((forall|j: int| 0 <= j < events.len() ==> !earlier(now, #[trigger] events[j].start))
                <==> (forall|j: int| 0 <= j < rest.len() ==> !earlier(now, #[trigger] rest[j].start)))
                by {
                assert forall|j: int| 0 <= j < rest.len() implies rest[j] == events[j + 1] by {}
                if forall|j: int| 0 <= j < rest.len() ==> !earlier(now, #[trigger] rest[j].start) {
                    assert forall|j: int| 0 <= j < events.len() implies !earlier(
                        now,
                        #[trigger] events[j].start,
                    ) by {
                        if j > 0 {
                            assert(rest[j - 1] == events[j]);
                        }
                    }
                }
            }
        }
    }
}

/// The position of the first meeting that starts after `now`.
pub fn first_upcoming(events: &Vec<Event>, now: &Instant) -> (r: Option<usize>)
    ensures
        match r {
            Some(i) => i < events@.len() && first_after(event_views(events@), *now) == Some(
                events@[i as int]@,
            ) && earlier(*now, events@[i as int].start) && forall|j: int|
                0 <= j < i ==> !earlier(*now, #[trigger] events@[j].start),
            None => first_after(event_views(events@), *now) is None && forall|j: int|
                0 <= j < events@.len() ==> !earlier(*now, #[trigger] events@[j].start),
        },
{
    let n = events.len();
    let mut i: usize = 0;
    assert(event_views(events@).skip(0) =~= event_views(events@));
    while i < n
        invariant
            n == events@.len(),
            i <= n,
            first_after(event_views(events@), *now) == first_after(
                event_views(events@).skip(i as int),
                *now,
            ),
            forall|j: int| 0 <= j < i ==> !earlier(*now, #[trigger] events@[j].start),
        decreases n - i,
    {
        assert(event_views(events@).skip(i as int)[0] == events@[i as int]@);
        if now.is_before(&events[i].start) {
            return Some(i);
        }
        assert(event_views(events@).skip(i as int).drop_first() =~= event_views(events@).skip(
            i + 1,
        ));
        i = i + 1;
    }
    None
}

/// How far ahead the calendar is asked for meetings: 24 hours.
pub const LOOKAHEAD_NANOS: i128 = 86_400_000_000_000;

/// The query that asks the calendar for the meetings of the next 24 hours,
/// one occurrence per recurring meeting, ordered by start.
pub open spec fn query_for(now: Instant) -> Seq<(Seq<char>, Seq<char>)> {
    seq![
        ("timeMin"@, rfc3339_text(now.secs, now.nanos)),
        (
            "timeMax"@,
            rfc3339_text(
                shifted(now, Span { nanos: LOOKAHEAD_NANOS }).secs,
                shifted(now, Span { nanos: LOOKAHEAD_NANOS }).nanos,
            ),
        ),
        ("singleEvents"@, "true"@),
        ("orderBy"@, "startTime"@),
    ]
}

/// The query parameters of the calendar request made at `now`.
pub fn events_query(now: &Instant) -> (r: Vec<(String, String)>)
    requires
        is_regular(*now),
        representable(*now),
        total_in_range(total_nanos(*now) + LOOKAHEAD_NANOS),
    ensures
        r@.map_values(|p: (String, String)| (p.0@, p.1@)) == query_for(*now),
{
    let until = now.shift(Span { nanos: LOOKAHEAD_NANOS });
    let mut r: Vec<(String, String)> = Vec::new();
    r.push((String::from_str("timeMin"), format_rfc3339(now)));
    r.push((String::from_str("timeMax"), format_rfc3339(&until)));
    r.push((String::from_str("singleEvents"), String::from_str("true")));
    r.push((String::from_str("orderBy"), String::from_str("startTime")));
    assert(r@.map_values(|p: (String, String)| (p.0@, p.1@)) =~= query_for(*now));
    r
}

} // verus!
