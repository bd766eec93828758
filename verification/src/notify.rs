//! What the desktop reminder for a meeting says.
use crate::calendar::{text_of, Event};
use vstd::prelude::*;
use vstd::string::StringExecFns;

verus! {

/// A desktop reminder: its headline, its text, and the link behind its
/// `Join` button (none where the meeting has no link, and then no button).
#[derive(Debug)]
pub struct Notice {
    pub summary: String,
    pub body: String,
    pub join_url: Option<String>,
}

/// The headline of a meeting's reminder.
pub open spec fn reminder_summary(title: Seq<char>) -> Seq<char> {
    "Meeting starting soon: "@ + title
}

/// The text of a reminder: the join link, or a note that there is none.
pub open spec fn reminder_body(join_url: Option<Seq<char>>) -> Seq<char> {
    match join_url {
        Some(u) => u,
        None => "No join link found"@,
    }
}

/// A reminder's headline is a fixed 23-character lead followed by the whole
/// title: titles are never cut, and different titles give different headlines.
pub proof fn law_summary_keeps_whole_title(t: Seq<char>, u: Seq<char>)
    ensures
        reminder_summary(t).len() == 23 + t.len(),
        reminder_summary(t).skip(23) == t,
        reminder_summary(t).take(23) == reminder_summary(u).take(23),
        reminder_summary(t) == reminder_summary(u) ==> t == u,
{
    reveal_strlit("Meeting starting soon: ");
    assert(reminder_summary(t).skip(23) =~= t);
    assert(reminder_summary(u).skip(23) =~= u);
    assert(reminder_summary(t).take(23) =~= reminder_summary(u).take(23));
}

/// A reminder's text is the meeting's join link, whole, when it has one.
pub proof fn law_body_is_link(u: Seq<char>)
    ensures
        reminder_body(Some(u)) == u,
{
}

/// The reminder shown for a meeting.
pub fn notice_for(event: &Event) -> (r: Notice)
    ensures
        r.summary@ == reminder_summary(event.title@),
        r.body@ == reminder_body(text_of(event.join_url)),
        text_of(r.join_url) == text_of(event.join_url),
{
    let mut summary = String::from_str("Meeting starting soon: ");
    summary.append(event.title.as_str());
    match &event.join_url {
        Some(url) => Notice { summary, body: url.clone(), join_url: Some(url.clone()) },
        None => Notice { summary, body: String::from_str("No join link found"), join_url: None },
    }
}

/// The key of the reminder's `Join` button.
pub open spec fn join_key() -> Seq<char> {
    "join"@
}

/// Whether the action a reminder reports is a click on its `Join` button.
pub fn clicked_join(action_key: &str) -> (r: bool)
    ensures
        r == (action_key@ == join_key()),
{
    let key = String::from_str(action_key);
    let join = String::from_str("join");
    key == join
}

} // verus!
