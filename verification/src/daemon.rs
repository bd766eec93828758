//! The reminder daemon's decisions. Each round the daemon fetches the day's
//! meetings and reads the clock; [`DaemonState::step`] then decides whether
//! to remind of the next meeting, whether to open its join link, and how long
//! to pause. The daemon remembers which meetings it has reminded of and which
//! links have been opened (by itself or by a click on a reminder), and forgets
//! meetings once they have started.
use crate::calendar::{
    event_views, first_after, first_upcoming, law_first_after_is_least, law_first_after_none, Event,
    EventView,
};
use crate::time::{
    earlier, is_regular, shifted, span_valid, total_in_range, total_nanos, Instant, Span,
};
use vstd::prelude::*;

verus! {

/// How long before a meeting to remind, how long before it to open its join
/// link, and how long to pause between rounds with and without an upcoming
/// meeting.
#[derive(Debug, Clone, Copy, PartialEq, Eq, Structural)]
pub struct Config {
    pub notify_before_meeting: Span,
    pub auto_open_before_meeting: Span,
    pub daemon_loop: Span,
    pub daemon_idle_loop: Span,
}

/// The configuration used when none is stored: remind five minutes ahead,
/// open the link one minute ahead, pause fifteen seconds between rounds and
/// five minutes when no meeting is coming.
pub open spec fn default_config() -> Config {
    Config {
        notify_before_meeting: Span { nanos: 300_000_000_000 },
        auto_open_before_meeting: Span { nanos: 60_000_000_000 },
        daemon_loop: Span { nanos: 15_000_000_000 },
        daemon_idle_loop: Span { nanos: 300_000_000_000 },
    }
}

/// Every span of the configuration is one that chrono's `TimeDelta` holds.
pub open spec fn config_valid(c: Config) -> bool {
    &&& span_valid(c.notify_before_meeting)
    &&& span_valid(c.auto_open_before_meeting)
    &&& span_valid(c.daemon_loop)
    &&& span_valid(c.daemon_idle_loop)
}

impl Default for Config {
    fn default() -> (r: Self)
        ensures
            r == default_config(),
    {
        Config {
            notify_before_meeting: Span { nanos: 300_000_000_000 },
            auto_open_before_meeting: Span { nanos: 60_000_000_000 },
            daemon_loop: Span { nanos: 15_000_000_000 },
            daemon_idle_loop: Span { nanos: 300_000_000_000 },
        }
    }
}

/// What the daemon remembers: the meetings it has reminded of, and the
/// meetings whose link has been opened.
pub struct Memory {
    pub notified: Set<EventView>,
    pub opened: Set<EventView>,
}

/// The meetings of a set that start after `now`.
pub open spec fn upcoming_only(s: Set<EventView>, now: Instant) -> Set<EventView> {
    s.filter(|e: EventView| earlier(now, e.start))
}

/// The memory after a click on a reminder's join button.
pub open spec fn clicked(m: Memory, e: EventView) -> Memory {
    Memory { notified: m.notified, opened: m.opened.insert(e) }
}

/// What one round decides: the memory afterwards, the next meeting (if
/// any), whether to remind of it, whether to open its link, and the pause.
pub struct Decision {
    pub memory: Memory,
    pub upcoming: Option<EventView>,
    pub remind: bool,
    pub open: bool,
    pub pause: Span,
}

/// A meeting starts no later than `d` after `now`.
pub open spec fn starts_within(e: EventView, now: Instant, d: Span) -> bool {
    !earlier(shifted(now, d), e.start)
}

/// One round. Meetings that have started are forgotten; the next meeting is
/// the first in the list that starts after `now`. Without one, the daemon
/// pauses for the idle pause. With one, it reminds of it when it has not
/// yet done so and the meeting starts within the reminder lead; it opens the
/// meeting's link when the link has not been opened yet, the meeting has a
/// link, and it starts within the opening lead; then it pauses for the
/// round pause.
pub open spec fn decide(m: Memory, events: Seq<EventView>, now: Instant, cfg: Config) -> Decision {
    let notified = upcoming_only(m.notified, now);
    let opened = upcoming_only(m.opened, now);
    match first_after(events, now) {
        None => Decision {
            memory: Memory { notified, opened },
            upcoming: None,
            remind: false,
            open: false,
            pause: cfg.daemon_idle_loop,
        },
        Some(e) => {
            let remind = !notified.contains(e) && starts_within(e, now, cfg.notify_before_meeting);
            let open = !opened.contains(e) && e.join_url is Some && starts_within(
                e,
                now,
                cfg.auto_open_before_meeting,
            );
            Decision {
                memory: Memory {
                    notified: if remind {
                        notified.insert(e)
                    } else {
                        notified
                    },
                    opened: if open {
                        opened.insert(e)
                    } else {
                        opened
                    },
                },
                upcoming: Some(e),
                remind,
                open,
                pause: cfg.daemon_loop,
            }
        },
    }
}

/// The additions to `now` that a round makes stay in chrono's range
/// (chrono panics otherwise): `now` plus the reminder lead where the next
/// meeting has not been reminded of, and `now` plus the opening lead where
/// its link has not been opened and it has one.
pub open spec fn round_in_range(m: Memory, events: Seq<EventView>, now: Instant, cfg: Config) -> bool {
    match first_after(events, now) {
        None => true,
        Some(e) => {
            &&& !upcoming_only(m.notified, now).contains(e) ==> total_in_range(
                total_nanos(now) + cfg.notify_before_meeting.nanos,
            )
            &&& (!upcoming_only(m.opened, now).contains(e) && e.join_url is Some)
                ==> total_in_range(total_nanos(now) + cfg.auto_open_before_meeting.nanos)
        },
    }
}

/// What the daemon does after a round: the meeting it looked at, the
/// reminder to show, the link to open, and how long to pause.
#[derive(Debug)]
pub struct Plan {
    pub upcoming: Option<Event>,
    pub notify: Option<Event>,
    pub open_url: Option<String>,
    pub pause: Span,
}

/// The meetings held in a list.
pub open spec fn held(v: Seq<Event>) -> Set<EventView> {
    Set::new(|x: EventView| exists|i: int| 0 <= i < v.len() && #[trigger] v[i]@ == x)
}

/// No meeting occurs twice in a list.
pub open spec fn distinct(v: Seq<Event>) -> bool {
    forall|i: int, j: int| 0 <= i < v.len() && 0 <= j < v.len() && i != j ==> v[i]@ != v[j]@
}

/// The daemon's memory, kept as lists without repeats.
pub struct DaemonState {
    notified: Vec<Event>,
    opened: Vec<Event>,
}

/// Whether a list holds a meeting.
fn holds_event(v: &Vec<Event>, e: &Event) -> (r: bool)
    ensures
        r == held(v@).contains(e@),
{
    let n = v.len();
    let mut i: usize = 0;
    while i < n
        invariant
            n == v@.len(),
            i <= n,
            forall|j: int| 0 <= j < i ==> v@[j]@ != e@,
        decreases n - i,
    {
        if v[i].same_as(e) {
            assert(v@[i as int]@ == e@);
            return true;
        }
        i = i + 1;
    }
    assert(!held(v@).contains(e@));
    false
}

/// Pushing a meeting onto a list adds it to the meetings held.
proof fn lemma_held_push(s: Seq<Event>, e: Event)
    ensures
        held(s.push(e)) == held(s).insert(e@),
{
    let t = s.push(e);
    assert forall|y: EventView| held(s).contains(y) implies held(t).contains(y) by {
        let j = choose|j: int| 0 <= j < s.len() && #[trigger] s[j]@ == y;
        assert(t[j]@ == y);
    }
    assert forall|y: EventView| held(t).contains(y) implies held(s).insert(e@).contains(y) by {
        let j = choose|j: int| 0 <= j < t.len() && #[trigger] t[j]@ == y;
        if j < s.len() {
            assert(s[j]@ == y);
        }
    }
    assert(t[s.len() as int]@ == e@);
    assert(held(t) =~= held(s).insert(e@));
}

/// The meetings of a list that start after `now`.
fn keep_upcoming(v: &Vec<Event>, now: &Instant) -> (r: Vec<Event>)
    requires
        distinct(v@),
    ensures
        distinct(r@),
        held(r@) == upcoming_only(held(v@), *now),
{
    let mut out: Vec<Event> = Vec::new();
    let n = v.len();
    let mut i: usize = 0;
    assert(held(out@) =~= upcoming_only(held(v@.take(0)), *now));
    while i < n
        invariant
            n == v@.len(),
            i <= n,
            distinct(v@),
            distinct(out@),
            forall|k: int|
                #![trigger out@[k]]
                0 <= k < out@.len() ==> exists|j: int| 0 <= j < i && out@[k]@ == #[trigger] v@[j]@,
            held(out@) == upcoming_only(held(v@.take(i as int)), *now),
        decreases n - i,
    {
        let ghost before = out@;
        let ghost x = v@[i as int]@;
        assert(v@.take(i + 1) =~= v@.take(i as int).push(v@[i as int]));
        proof {
            lemma_held_push(v@.take(i as int), v@[i as int]);
        }
        if now.is_before(&v[i].start) {
            out.push(v[i].clone());
            proof {
                lemma_held_push(before, out@[out@.len() - 1]);
                assert(out@ =~= before.push(out@[out@.len() - 1]));
                assert forall|a: int, b: int|
                    0 <= a < out@.len() && 0 <= b < out@.len() && a != b implies out@[a]@
                    != out@[b]@ by {
                    if a == before.len() || b == before.len() {
                        let k = if a == before.len() {
                            b
                        } else {
                            a
                        };
                        assert(out@[k] == before[k]);
                        let j = choose|j: int| 0 <= j < i && before[k]@ == #[trigger] v@[j]@;
                        assert(v@[j]@ != v@[i as int]@);
                    } else {
                        assert(out@[a] == before[a] && out@[b] == before[b]);
                    }
                }
                assert(upcoming_only(held(v@.take(i + 1)), *now) =~= upcoming_only(
                    held(v@.take(i as int)),
                    *now,
                ).insert(x));
            }
        } else {
            assert(upcoming_only(held(v@.take(i + 1)), *now) =~= upcoming_only(
                held(v@.take(i as int)),
                *now,
            ));
        }
        assert forall|k: int| #![trigger out@[k]] 0 <= k < out@.len() implies exists|j: int|
            0 <= j < i + 1 && out@[k]@ == #[trigger] v@[j]@ by {
            if k < before.len() {
                assert(out@[k] == before[k]);
                let j = choose|j: int| 0 <= j < i && before[k]@ == #[trigger] v@[j]@;
                assert(out@[k]@ == v@[j]@);
            } else {
                assert(out@[k]@ == v@[i as int]@);
            }
        }
        i = i + 1;
    }
    assert(v@.take(n as int) =~= v@);
    out
}

/// Adds a meeting that the list does not hold yet.
fn add_event(v: &mut Vec<Event>, e: Event)
    requires
        distinct(old(v)@),
        !held(old(v)@).contains(e@),
    ensures
        distinct(final(v)@),
        held(final(v)@) == held(old(v)@).insert(e@),
{
    let ghost before = v@;
    let ghost x = e@;
    v.push(e);
    proof {
        lemma_held_push(before, v@[v@.len() - 1]);
        assert(v@ =~= before.push(v@[v@.len() - 1]));
    }
    assert forall|a: int, b: int|
        0 <= a < v@.len() && 0 <= b < v@.len() && a != b implies v@[a]@ != v@[b]@ by {
        if a < before.len() {
            assert(v@[a] == before[a]);
        }
        if b < before.len() {
            assert(v@[b] == before[b]);
        }
    }
}

impl DaemonState {
    /// The memory that the state holds.
    pub closed spec fn memory(&self) -> Memory {
        Memory { notified: held(self.notified@), opened: held(self.opened@) }
    }

    /// Neither list repeats a meeting.
    #[verifier::type_invariant]
    spec fn lists_distinct(&self) -> bool {
        distinct(self.notified@) && distinct(self.opened@)
    }

    /// A daemon that remembers nothing yet.
    pub fn new() -> (r: DaemonState)
        ensures
            r.memory().notified == Set::<EventView>::empty(),
            r.memory().opened == Set::<EventView>::empty(),
    {
        let r = DaemonState { notified: Vec::new(), opened: Vec::new() };
        assert(held(r.notified@) =~= Set::<EventView>::empty());
        assert(held(r.opened@) =~= Set::<EventView>::empty());
        r
    }

    /// Records a click on a reminder's join button: that meeting's link
    /// counts as opened.
    pub fn record_click(&mut self, e: Event)
        ensures
            final(self).memory() == clicked(old(self).memory(), e@),
    {
        proof {
            use_type_invariant(&*self);
        }
        if !holds_event(&self.opened, &e) {
            let mut opened: Vec<Event> = Vec::new();
            std::mem::swap(&mut opened, &mut self.opened);
            add_event(&mut opened, e);
            self.opened = opened;
        } else {
            assert(held(self.opened@).insert(e@) =~= held(self.opened@));
        }
    }

    /// Whether the additions to `now` that the round would make stay in
    /// chrono's range.
    pub fn round_fits(&self, events: &Vec<Event>, now: &Instant, config: &Config) -> (r: bool)
        requires
            config_valid(*config),
        ensures
            r == round_in_range(self.memory(), event_views(events@), *now, *config),
    {
        let idx = first_upcoming(events, now);
        match idx {
            None => true,
            Some(i) => {
                let e = &events[i];
                let ghost ev = e@;
                let notified = holds_event(&self.notified, e);
                let opened = holds_event(&self.opened, e);
                proof {
                    assert(upcoming_only(held(self.notified@), *now).contains(ev) == held(
                        self.notified@,
                    ).contains(ev));
                    assert(upcoming_only(held(self.opened@), *now).contains(ev) == held(
                        self.opened@,
                    ).contains(ev));
                }
                let remind_ok = notified || now.can_shift(config.notify_before_meeting);
                let open_ok = opened || e.join_url.is_none() || now.can_shift(
                    config.auto_open_before_meeting,
                );
                remind_ok && open_ok
            },
        }
    }

    /// One round of the daemon: forgets meetings that have started, then
    /// decides as [`decide`] says and remembers what it decided.
    pub fn step(&mut self, events: &Vec<Event>, now: &Instant, config: &Config) -> (plan: Plan)
        requires
            is_regular(*now),
            config_valid(*config),
            round_in_range(old(self).memory(), event_views(events@), *now, *config),
        ensures
            ({
                let d = decide(old(self).memory(), event_views(events@), *now, *config);
                &&& final(self).memory() == d.memory
                &&& plan.pause == d.pause
                &&& match plan.upcoming {
                    Some(e) => d.upcoming == Some(e@),
                    None => d.upcoming is None,
                }
                &&& match plan.notify {
                    Some(e) => d.remind && d.upcoming == Some(e@),
                    None => !d.remind,
                }
                &&& match plan.open_url {
                    Some(u) => d.open && (d.upcoming matches Some(e) && e.join_url == Some(u@)),
                    None => !d.open,
                }
            }),
    {
        proof {
            use_type_invariant(&*self);
        }
        let mut notified = keep_upcoming(&self.notified, now);
        let mut opened = keep_upcoming(&self.opened, now);
        let idx = first_upcoming(events, now);
        let plan = match idx {
            None => Plan {
                upcoming: None,
                notify: None,
                open_url: None,
                pause: config.daemon_idle_loop,
            },
            Some(i) => {
                let e = &events[i];
                assert(event_views(events@)[i as int] == e@);
                let mut notify: Option<Event> = None;
                if !holds_event(&notified, e) {
                    let limit = now.shift(config.notify_before_meeting);
                    if !limit.is_before(&e.start) {
                        add_event(&mut notified, e.clone());
                        notify = Some(e.clone());
                    }
                }
                let mut open_url: Option<String> = None;
                if !holds_event(&opened, e) {
                    match &e.join_url {
                        Some(url) => {
                            let limit = now.shift(config.auto_open_before_meeting);
                            if !limit.is_before(&e.start) {
                                add_event(&mut opened, e.clone());
                                open_url = Some(url.clone());
                            }
                        },
                        None => {},
                    }
                }
                Plan { upcoming: Some(e.clone()), notify, open_url, pause: config.daemon_loop }
            },
        };
        self.notified = notified;
        self.opened = opened;
        plan
    }
}

/// The pause after a round whose fetch failed: the round pause.
pub fn retry_pause(config: &Config) -> (r: Span)
    ensures
        r == config.daemon_loop,
{
    config.daemon_loop
}

/// One round of the daemon's life: the reminder clicks that arrived since the
/// previous round, the meetings fetched, and the clock's reading.
pub struct Round {
    pub clicks: Seq<EventView>,
    pub events: Seq<EventView>,
    pub now: Instant,
}

/// The memory after a series of clicks.
pub open spec fn after_clicks(m: Memory, clicks: Seq<EventView>) -> Memory
    decreases clicks.len(),
{
    if clicks.len() == 0 {
        m
    } else {
        clicked(after_clicks(m, clicks.drop_last()), clicks.last())
    }
}

/// The decisions of a series of rounds, starting from memory `m`.
pub open spec fn run(m: Memory, rounds: Seq<Round>, cfg: Config) -> Seq<Decision>
    decreases rounds.len(),
{
    if rounds.len() == 0 {
        Seq::empty()
    } else {
        let d = decide(after_clicks(m, rounds[0].clicks), rounds[0].events, rounds[0].now, cfg);
        seq![d] + run(d.memory, rounds.drop_first(), cfg)
    }
}

/// The clock never reads earlier than in a previous round.
pub open spec fn clock_monotone(rounds: Seq<Round>) -> bool {
    forall|i: int, j: int|
        0 <= i < j < rounds.len() ==> !earlier(#[trigger] rounds[j].now, #[trigger] rounds[i].now)
}

/// The rounds after the first keep a monotone clock.
proof fn lemma_monotone_rest(rounds: Seq<Round>)
    requires
        clock_monotone(rounds),
        rounds.len() > 0,
    ensures
        clock_monotone(rounds.drop_first()),
{
    let rest = rounds.drop_first();
    assert forall|i: int, j: int| 0 <= i < j < rest.len() implies !earlier(
        #[trigger] rest[j].now,
        #[trigger] rest[i].now,
    ) by {
        assert(rest[i] == rounds[i + 1] && rest[j] == rounds[j + 1]);
    }
}

proof fn lemma_first_after_is_upcoming(events: Seq<EventView>, now: Instant)
    ensures
        first_after(events, now) matches Some(e) ==> earlier(now, e.start),
    decreases events.len(),
{
    if events.len() > 0 && !earlier(now, events[0].start) {
        lemma_first_after_is_upcoming(events.drop_first(), now);
    }
}

proof fn lemma_after_clicks(m: Memory, clicks: Seq<EventView>)
    ensures
        after_clicks(m, clicks).notified == m.notified,
        m.opened.subset_of(after_clicks(m, clicks).opened),
        forall|k: int|
            0 <= k < clicks.len() ==> after_clicks(m, clicks).opened.contains(#[trigger] clicks[k]),
    decreases clicks.len(),
{
    if clicks.len() > 0 {
        lemma_after_clicks(m, clicks.drop_last());
        assert forall|k: int| 0 <= k < clicks.len() implies after_clicks(
            m,
            clicks,
        ).opened.contains(#[trigger] clicks[k]) by {
            if k < clicks.len() - 1 {
                assert(clicks.drop_last()[k] == clicks[k]);
            }
        }
    }
}

proof fn lemma_run_shape(m: Memory, rounds: Seq<Round>, cfg: Config)
    ensures
        run(m, rounds, cfg).len() == rounds.len(),
        rounds.len() > 0 ==> run(m, rounds, cfg)[0] == decide(
            after_clicks(m, rounds[0].clicks),
            rounds[0].events,
            rounds[0].now,
            cfg,
        ),
        forall|k: int|
            0 < k < rounds.len() ==> #[trigger] run(m, rounds, cfg)[k] == run(
                run(m, rounds, cfg)[0].memory,
                rounds.drop_first(),
                cfg,
            )[k - 1],
    decreases rounds.len(),
{
    if rounds.len() > 0 {
        lemma_run_shape(
            decide(after_clicks(m, rounds[0].clicks), rounds[0].events, rounds[0].now, cfg).memory,
            rounds.drop_first(),
            cfg,
        );
    }
}

/// A meeting that is remembered as reminded of, or that has started by the
/// first round, is not reminded of in any round of a run with a monotone clock.
proof fn lemma_no_second_reminder(m: Memory, rounds: Seq<Round>, cfg: Config, e: EventView)
    requires
        clock_monotone(rounds),
        rounds.len() > 0 ==> (m.notified.contains(e) || !earlier(rounds[0].now, e.start)),
    ensures
        forall|k: int|
            0 <= k < rounds.len() ==> !(#[trigger] run(m, rounds, cfg)[k].remind && run(
                m,
                rounds,
                cfg,
            )[k].upcoming == Some(e)),
    decreases rounds.len(),
{
    lemma_run_shape(m, rounds, cfg);
    if rounds.len() > 0 {
        let r = rounds[0];
        let m0 = after_clicks(m, r.clicks);
        lemma_after_clicks(m, r.clicks);
        lemma_first_after_is_upcoming(r.events, r.now);
        let d = decide(m0, r.events, r.now, cfg);
        let rest = rounds.drop_first();
        lemma_monotone_rest(rounds);
        if rest.len() > 0 {
            assert(rest[0] == rounds[1]);
            assert(!earlier(rounds[1].now, rounds[0].now));
            if earlier(r.now, e.start) {
                assert(upcoming_only(m0.notified, r.now).contains(e));
            }
        }
        lemma_no_second_reminder(d.memory, rest, cfg, e);
    }
}

/// Once the daemon has reminded of a meeting, no later round reminds of it
/// again, whatever clicks arrive in between, as long as the clock does not
/// go back.
pub proof fn law_remind_at_most_once(m: Memory, rounds: Seq<Round>, cfg: Config, i: int, j: int)
    requires
        clock_monotone(rounds),
        0 <= i < j < rounds.len(),
        run(m, rounds, cfg)[i].remind,
    ensures
        !(run(m, rounds, cfg)[j].remind && run(m, rounds, cfg)[j].upcoming == run(
            m,
            rounds,
            cfg,
        )[i].upcoming),
    decreases i,
{
    lemma_run_shape(m, rounds, cfg);
    let r = rounds[0];
    let m0 = after_clicks(m, r.clicks);
    let d = decide(m0, r.events, r.now, cfg);
    let rest = rounds.drop_first();
    lemma_monotone_rest(rounds);
    if i == 0 {
        lemma_first_after_is_upcoming(r.events, r.now);
        let e = d.upcoming->0;
        assert(d.memory.notified.contains(e));
        lemma_no_second_reminder(d.memory, rest, cfg, e);
        assert(run(d.memory, rest, cfg)[j - 1] == run(m, rounds, cfg)[j]);
    } else {
        law_remind_at_most_once(d.memory, rest, cfg, i - 1, j - 1);
    }
}

/// A meeting whose link counts as opened when the first round decides, or
/// that has started by then, never has its link opened in a run with a
/// monotone clock.
proof fn lemma_no_second_opening(m: Memory, rounds: Seq<Round>, cfg: Config, e: EventView)
    requires
        clock_monotone(rounds),
        rounds.len() > 0 ==> (after_clicks(m, rounds[0].clicks).opened.contains(e) || !earlier(
            rounds[0].now,
            e.start,
        )),
    ensures
        forall|k: int|
            0 <= k < rounds.len() ==> !(#[trigger] run(m, rounds, cfg)[k].open && run(
                m,
                rounds,
                cfg,
            )[k].upcoming == Some(e)),
    decreases rounds.len(),
{
    lemma_run_shape(m, rounds, cfg);
    if rounds.len() > 0 {
        let r = rounds[0];
        let m0 = after_clicks(m, r.clicks);
        lemma_first_after_is_upcoming(r.events, r.now);
        let d = decide(m0, r.events, r.now, cfg);
        let rest = rounds.drop_first();
        lemma_monotone_rest(rounds);
        if rest.len() > 0 {
            assert(rest[0] == rounds[1]);
            assert(!earlier(rounds[1].now, rounds[0].now));
            lemma_after_clicks(d.memory, rest[0].clicks);
            if earlier(r.now, e.start) {
                assert(upcoming_only(m0.opened, r.now).contains(e));
            }
        }
        lemma_no_second_opening(d.memory, rest, cfg, e);
    }
}

/// Once the daemon has opened a meeting's link, no later round opens it
/// again, as long as the clock does not go back.
pub proof fn law_open_at_most_once(m: Memory, rounds: Seq<Round>, cfg: Config, i: int, j: int)
    requires
        clock_monotone(rounds),
        0 <= i < j < rounds.len(),
        run(m, rounds, cfg)[i].open,
    ensures
        !(run(m, rounds, cfg)[j].open && run(m, rounds, cfg)[j].upcoming == run(
            m,
            rounds,
            cfg,
        )[i].upcoming),
    decreases i,
{
    lemma_run_shape(m, rounds, cfg);
    let r = rounds[0];
    let m0 = after_clicks(m, r.clicks);
    let d = decide(m0, r.events, r.now, cfg);
    let rest = rounds.drop_first();
    lemma_monotone_rest(rounds);
    if i == 0 {
        let e = d.upcoming->0;
        assert(d.memory.opened.contains(e));
        assert(rest[0] == rounds[1]);
        lemma_after_clicks(d.memory, rest[0].clicks);
        lemma_no_second_opening(d.memory, rest, cfg, e);
        assert(run(d.memory, rest, cfg)[j - 1] == run(m, rounds, cfg)[j]);
    } else {
        law_open_at_most_once(d.memory, rest, cfg, i - 1, j - 1);
    }
}

/// A meeting whose join button was clicked never has its link opened by
/// the daemon in that round or later, as long as the clock does not go back.
pub proof fn law_clicked_link_not_reopened(
    m: Memory,
    rounds: Seq<Round>,
    cfg: Config,
    i: int,
    c: int,
    j: int,
)
    requires
        clock_monotone(rounds),
        0 <= i <= j < rounds.len(),
        0 <= c < rounds[i].clicks.len(),
    ensures
        !(run(m, rounds, cfg)[j].open && run(m, rounds, cfg)[j].upcoming == Some(
            rounds[i].clicks[c],
        )),
    decreases i,
{
    lemma_run_shape(m, rounds, cfg);
    let r = rounds[0];
    let m0 = after_clicks(m, r.clicks);
    let d = decide(m0, r.events, r.now, cfg);
    let rest = rounds.drop_first();
    lemma_monotone_rest(rounds);
    if i == 0 {
        let e = rounds[0].clicks[c];
        lemma_after_clicks(m, r.clicks);
        lemma_no_second_opening(m, rounds, cfg, e);
    } else {
        assert(rest[i - 1] == rounds[i]);
        law_clicked_link_not_reopened(d.memory, rest, cfg, i - 1, c, j - 1);
        assert(run(d.memory, rest, cfg)[j - 1] == run(m, rounds, cfg)[j]);
    }
}

/// Round `i` of a run decides from the memory that round `i - 1` left.
proof fn lemma_run_step(m: Memory, rounds: Seq<Round>, cfg: Config, i: int)
    requires
        0 < i < rounds.len(),
    ensures
        run(m, rounds, cfg)[i] == decide(
            after_clicks(run(m, rounds, cfg)[i - 1].memory, rounds[i].clicks),
            rounds[i].events,
            rounds[i].now,
            cfg,
        ),
    decreases i,
{
    lemma_run_shape(m, rounds, cfg);
    let d0 = run(m, rounds, cfg)[0];
    let rest = rounds.drop_first();
    lemma_run_shape(d0.memory, rest, cfg);
    assert(rest[i - 1] == rounds[i]);
    assert(run(m, rounds, cfg)[i] == run(d0.memory, rest, cfg)[i - 1]);
    if i > 1 {
        lemma_run_step(d0.memory, rest, cfg, i - 1);
        assert(run(m, rounds, cfg)[i - 1] == run(d0.memory, rest, cfg)[i - 2]);
    }
}

/// Some round before round `k` of the run reminded of meeting `e`.
pub open spec fn reminded_before(
    m: Memory,
    rounds: Seq<Round>,
    cfg: Config,
    k: int,
    e: EventView,
) -> bool {
    exists|j: int|
        0 <= j < k && (#[trigger] run(m, rounds, cfg)[j]).remind && run(m, rounds, cfg)[j].upcoming
            == Some(e)
}

/// A reminder is due in round `k`: there is a next meeting, it starts within
/// the reminder lead, and no earlier round reminded of it.
pub open spec fn reminder_due(m: Memory, rounds: Seq<Round>, cfg: Config, k: int) -> bool {
    match first_after(rounds[k].events, rounds[k].now) {
        Some(e) => starts_within(e, rounds[k].now, cfg.notify_before_meeting) && !reminded_before(
            m,
            rounds,
            cfg,
            k,
            e,
        ),
        None => false,
    }
}

/// In a run that starts remembering no reminders and whose clock never goes
/// back, the meetings remembered as reminded of after round `i` are those
/// some round up to `i` reminded of and that start after round `i`'s clock.
proof fn lemma_notified_are_reminded(m: Memory, rounds: Seq<Round>, cfg: Config, i: int)
    requires
        clock_monotone(rounds),
        m.notified == Set::<EventView>::empty(),
        0 <= i < rounds.len(),
    ensures
        forall|x: EventView|
            #![trigger run(m, rounds, cfg)[i].memory.notified.contains(x)]
            run(m, rounds, cfg)[i].memory.notified.contains(x) <==> (reminded_before(
                m,
                rounds,
                cfg,
                i + 1,
                x,
            ) && earlier(rounds[i].now, x.start)),
    decreases i,
{
    lemma_run_shape(m, rounds, cfg);
    let r = rounds[i];
    let d = run(m, rounds, cfg)[i];
    lemma_first_after_is_upcoming(r.events, r.now);
    let prev = if i == 0 {
        m
    } else {
        run(m, rounds, cfg)[i - 1].memory
    };
    lemma_after_clicks(prev, r.clicks);
    if i > 0 {
        lemma_run_step(m, rounds, cfg, i);
        lemma_notified_are_reminded(m, rounds, cfg, i - 1);
        assert(!earlier(rounds[i].now, rounds[i - 1].now));
    }
    assert(d == decide(after_clicks(prev, r.clicks), r.events, r.now, cfg));
    assert forall|x: EventView| d.memory.notified.contains(x) <==> (reminded_before(
        m,
        rounds,
        cfg,
        i + 1,
        x,
    ) && earlier(r.now, x.start)) by {
        if reminded_before(m, rounds, cfg, i + 1, x) && earlier(r.now, x.start) {
            let j = choose|j: int|
                0 <= j < i + 1 && (#[trigger] run(m, rounds, cfg)[j]).remind && run(
                    m,
                    rounds,
                    cfg,
                )[j].upcoming == Some(x);
            if j < i {
                assert(reminded_before(m, rounds, cfg, i, x));
            }
        }
        if d.memory.notified.contains(x) && !(d.remind && d.upcoming == Some(x)) {
            assert(prev.notified.contains(x));
            assert(i > 0);
            let j = choose|j: int|
                0 <= j < i && (#[trigger] run(m, rounds, cfg)[j]).remind && run(
                    m,
                    rounds,
                    cfg,
                )[j].upcoming == Some(x);
            assert(reminded_before(m, rounds, cfg, i + 1, x));
        }
        if d.memory.notified.contains(x) && d.remind && d.upcoming == Some(x) {
            assert(run(m, rounds, cfg)[i].remind);
            assert(reminded_before(m, rounds, cfg, i + 1, x));
        }
    }
}

/// In a run that starts remembering no reminders and whose clock never goes
/// back, round `k` looks at the first meeting of its list that starts after
/// its clock, and reminds of it exactly when it starts within the reminder
/// lead and no earlier round reminded of it.
pub proof fn law_remind_exactly_when_due(m: Memory, rounds: Seq<Round>, cfg: Config, k: int)
    requires
        clock_monotone(rounds),
        m.notified == Set::<EventView>::empty(),
        0 <= k < rounds.len(),
    ensures
        run(m, rounds, cfg)[k].upcoming == first_after(rounds[k].events, rounds[k].now),
        run(m, rounds, cfg)[k].remind == reminder_due(m, rounds, cfg, k),
{
    lemma_run_shape(m, rounds, cfg);
    let r = rounds[k];
    lemma_first_after_is_upcoming(r.events, r.now);
    if k == 0 {
        lemma_after_clicks(m, r.clicks);
        assert(upcoming_only(after_clicks(m, r.clicks).notified, r.now) =~= Set::<
            EventView,
        >::empty());
    } else {
        lemma_run_step(m, rounds, cfg, k);
        let prev = run(m, rounds, cfg)[k - 1].memory;
        lemma_after_clicks(prev, r.clicks);
        lemma_notified_are_reminded(m, rounds, cfg, k - 1);
        assert(!earlier(rounds[k].now, rounds[k - 1].now));
        match first_after(r.events, r.now) {
            Some(e) => {
                assert(prev.notified.contains(e) <==> reminded_before(m, rounds, cfg, k, e));
            },
            None => {},
        }
    }
}

/// A round pauses for the round pause whenever some meeting of the list
/// starts after `now`, however far ahead, and for the idle pause (doing
/// nothing else) only when none does.
pub proof fn law_round_pause(m: Memory, events: Seq<EventView>, now: Instant, cfg: Config)
    ensures
        (exists|i: int| 0 <= i < events.len() && earlier(now, #[trigger] events[i].start)) ==> {
            &&& decide(m, events, now, cfg).pause == cfg.daemon_loop
            &&& decide(m, events, now, cfg).upcoming is Some
        },
        (forall|i: int| 0 <= i < events.len() ==> !earlier(now, #[trigger] events[i].start)) ==> {
            &&& decide(m, events, now, cfg).pause == cfg.daemon_idle_loop
            &&& decide(m, events, now, cfg).upcoming is None
            &&& !decide(m, events, now, cfg).remind
            &&& !decide(m, events, now, cfg).open
        },
{
    law_first_after_none(events, now);
}

/// A round looks at the meeting at the least position of the list whose
/// start lies after `now`.
pub proof fn law_round_looks_at_first_upcoming(
    m: Memory,
    events: Seq<EventView>,
    now: Instant,
    cfg: Config,
    i: int,
)
    requires
        0 <= i < events.len(),
        earlier(now, events[i].start),
        forall|j: int| 0 <= j < i ==> !earlier(now, #[trigger] events[j].start),
    ensures
        decide(m, events, now, cfg).upcoming == Some(events[i]),
{
    law_first_after_is_least(events, now, i);
}

/// After a round, the daemon remembers only meetings that start after the
/// round's clock reading.
pub proof fn law_memory_holds_only_upcoming(
    m: Memory,
    events: Seq<EventView>,
    now: Instant,
    cfg: Config,
    e: EventView,
)
    requires
        decide(m, events, now, cfg).memory.notified.contains(e) || decide(
            m,
            events,
            now,
            cfg,
        ).memory.opened.contains(e),
    ensures
        earlier(now, e.start),
{
    lemma_first_after_is_upcoming(events, now);
}

} // verus!
