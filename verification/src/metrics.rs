//! Request counters and the feed of recent events.
//!
//! Counters start over at 2^64. The feed holds the newest events, newest first.
use crate::json::{member_views, render_json, rendered_json, text_or_null, views, Json, JsonView};
use crate::score::Score;
use crate::text::text_view;
use std::collections::VecDeque;
use vstd::prelude::*;

verus! {

/// How many recent events a freshly opened dashboard sees.
pub const RECENT_CAPACITY: usize = 60;

/// The outcome of a single request, as seen by the cache.
#[derive(Clone, Copy)]
pub enum Outcome {
    Hit {
        layer: &'static str,
        /// Present for semantic hits; `None` for exact hits.
        similarity: Option<Score>,
    },
    Miss,
    Bypass,
}

/// An outcome as mathematics.
pub ghost enum OutcomeView {
    Hit { layer: Seq<char>, similarity: Option<Score> },
    Miss,
    Bypass,
}

impl View for Outcome {
    type V = OutcomeView;

    open spec fn view(&self) -> OutcomeView {
        match self {
            Outcome::Hit { layer, similarity } => OutcomeView::Hit {
                layer: layer@,
                similarity: *similarity,
            },
            Outcome::Miss => OutcomeView::Miss,
            Outcome::Bypass => OutcomeView::Bypass,
        }
    }
}

impl OutcomeView {
    /// The name of an outcome.
    pub open spec fn status(self) -> Seq<char> {
        match self {
            OutcomeView::Hit { .. } => "hit"@,
            OutcomeView::Miss => "miss"@,
            OutcomeView::Bypass => "bypass"@,
        }
    }

    /// The layer of a hit.
    pub open spec fn layer(self) -> Option<Seq<char>> {
        match self {
            OutcomeView::Hit { layer, .. } => Some(layer),
            _ => None,
        }
    }

    /// The similarity of a semantic hit.
    pub open spec fn similarity(self) -> Option<Score> {
        match self {
            OutcomeView::Hit { similarity, .. } => similarity,
            _ => None,
        }
    }
}

impl Outcome {
    /// The name of the outcome.
    pub fn status(&self) -> (s: &'static str)
        ensures
            s@ == self@.status(),
    {
        match self {
            Outcome::Hit { .. } => "hit",
            Outcome::Miss => "miss",
            Outcome::Bypass => "bypass",
        }
    }
}

/// One recorded request.
pub struct Event {
    /// Its number, counted from zero.
    pub seq: u64,
    /// When it was recorded, in milliseconds since the Unix epoch.
    pub ts: u64,
    pub model: String,
    pub status: &'static str,
    pub layer: Option<&'static str>,
    pub sim: Option<Score>,
    pub tokens_saved: u64,
    pub saved_micros: u64,
}

/// One recorded request as mathematics.
pub ghost struct EventView {
    pub seq: u64,
    pub ts: u64,
    pub model: Seq<char>,
    pub status: Seq<char>,
    pub layer: Option<Seq<char>>,
    pub sim: Option<Score>,
    pub tokens_saved: u64,
    pub saved_micros: u64,
}

impl View for Event {
    type V = EventView;

    open spec fn view(&self) -> EventView {
        EventView {
            seq: self.seq,
            ts: self.ts,
            model: self.model@,
            status: self.status@,
            layer: match self.layer {
                Some(l) => Some(l@),
                None => None,
            },
            sim: self.sim,
            tokens_saved: self.tokens_saved,
            saved_micros: self.saved_micros,
        }
    }
}

impl Event {
    /// An equal event.
    pub fn duplicate(&self) -> (e: Event)
        ensures
            e@ == self@,
    {
        Event {
            seq: self.seq,
            ts: self.ts,
            model: self.model.clone(),
            status: self.status,
            layer: self.layer,
            sim: self.sim,
            tokens_saved: self.tokens_saved,
            saved_micros: self.saved_micros,
        }
    }

    /// The event as JSON. `sim` is its similarity in decimal, if it has one.
    pub fn to_json(&self, sim: Option<String>) -> (r: Json)
        ensures
            r@ == self@.json(text_view(sim)),
    {
        let ghost sim_view = text_view(sim);
        let mut members: Vec<(String, Json)> = Vec::new();
        members.push(("seq".to_owned(), Json::Integer(self.seq as i128)));
        members.push(("ts".to_owned(), Json::Integer(self.ts as i128)));
        members.push(("model".to_owned(), Json::text(self.model.as_str())));
        members.push(("status".to_owned(), Json::text(self.status)));
        members.push(("layer".to_owned(), Json::text_or_null(self.layer)));
        let sim_json = match sim {
            Some(t) => Json::Real(t),
            None => Json::Null,
        };
        members.push(("sim".to_owned(), sim_json));
        members.push(("tokensSaved".to_owned(), Json::Integer(self.tokens_saved as i128)));
        members.push(("savedMicros".to_owned(), Json::Integer(self.saved_micros as i128)));
        assert(member_views(members@) =~= self@.json(sim_view)->Object_0);
        Json::object(members)
    }
}

impl EventView {
    /// An event as JSON, with its similarity in decimal.
    pub open spec fn json(self, sim: Option<Seq<char>>) -> JsonView {
        JsonView::Object(
            seq![
                ("seq"@, JsonView::Integer(self.seq as int)),
                ("ts"@, JsonView::Integer(self.ts as int)),
                ("model"@, JsonView::Text(self.model)),
                ("status"@, JsonView::Text(self.status)),
                ("layer"@, text_or_null(self.layer)),
                (
                    "sim"@,
                    match sim {
                        Some(t) => JsonView::Real(t),
                        None => JsonView::Null,
                    },
                ),
                ("tokensSaved"@, JsonView::Integer(self.tokens_saved as int)),
                ("savedMicros"@, JsonView::Integer(self.saved_micros as int)),
            ],
        )
    }
}

/// The aggregate counters.
#[derive(Debug, Clone, Copy, PartialEq, Eq, Structural)]
pub struct Stats {
    pub requests: u64,
    pub hits: u64,
    pub misses: u64,
    pub bypasses: u64,
    /// Hits and misses: the requests that the hit rate is taken over. Bypasses are
    /// no candidates for caching.
    pub cacheable: u64,
    pub tokens_saved: u64,
    pub saved_micros: u64,
}

impl Stats {
    /// The counters as JSON, with the hit rate in decimal.
    pub open spec fn json(self, hit_rate: Seq<char>) -> JsonView {
        JsonView::Object(
            seq![
                ("requests"@, JsonView::Integer(self.requests as int)),
                ("hits"@, JsonView::Integer(self.hits as int)),
                ("misses"@, JsonView::Integer(self.misses as int)),
                ("bypasses"@, JsonView::Integer(self.bypasses as int)),
                ("hitRate"@, JsonView::Real(hit_rate)),
                ("tokensSaved"@, JsonView::Integer(self.tokens_saved as int)),
                ("savedMicros"@, JsonView::Integer(self.saved_micros as int)),
            ],
        )
    }

    /// The counters as JSON. `hit_rate` is the hit rate in decimal.
    pub fn to_json(&self, hit_rate: String) -> (r: Json)
        ensures
            r@ == self.json(hit_rate@),
    {
        let ghost rate = hit_rate@;
        let mut members: Vec<(String, Json)> = Vec::new();
        members.push(("requests".to_owned(), Json::Integer(self.requests as i128)));
        members.push(("hits".to_owned(), Json::Integer(self.hits as i128)));
        members.push(("misses".to_owned(), Json::Integer(self.misses as i128)));
        members.push(("bypasses".to_owned(), Json::Integer(self.bypasses as i128)));
        members.push(("hitRate".to_owned(), Json::Real(hit_rate)));
        members.push(("tokensSaved".to_owned(), Json::Integer(self.tokens_saved as i128)));
        members.push(("savedMicros".to_owned(), Json::Integer(self.saved_micros as i128)));
        assert(member_views(members@) =~= self.json(rate)->Object_0);
        Json::object(members)
    }
}

/// The counters and the feed as mathematics.
pub ghost struct MetricsView {
    pub total: u64,
    pub hits: u64,
    pub misses: u64,
    pub bypasses: u64,
    pub tokens_saved: u64,
    pub saved_micros: u64,
    pub seq: u64,
    /// Newest first.
    pub recent: Seq<EventView>,
}

/// The first items of a feed, at most as many as it may hold.
pub open spec fn capped(events: Seq<EventView>) -> Seq<EventView> {
    if events.len() > RECENT_CAPACITY {
        events.take(RECENT_CAPACITY as int)
    } else {
        events
    }
}

impl MetricsView {
    /// No requests yet.
    pub open spec fn zero() -> MetricsView {
        MetricsView {
            total: 0,
            hits: 0,
            misses: 0,
            bypasses: 0,
            tokens_saved: 0,
            saved_micros: 0,
            seq: 0,
            recent: Seq::empty(),
        }
    }

    /// The event that records a request.
    pub open spec fn event(
        self,
        model: Seq<char>,
        outcome: OutcomeView,
        tokens_saved: u64,
        saved_micros: u64,
        ts: u64,
    ) -> EventView {
        EventView {
            seq: self.seq,
            ts,
            model,
            status: outcome.status(),
            layer: outcome.layer(),
            sim: outcome.similarity(),
            tokens_saved,
            saved_micros,
        }
    }

    /// The counters and the feed after a request.
    pub open spec fn recorded(
        self,
        model: Seq<char>,
        outcome: OutcomeView,
        tokens_saved: u64,
        saved_micros: u64,
        ts: u64,
    ) -> MetricsView {
        MetricsView {
            total: self.total.wrapping_add(1),
            hits: if outcome is Hit {
                self.hits.wrapping_add(1)
            } else {
                self.hits
            },
            misses: if outcome is Miss {
                self.misses.wrapping_add(1)
            } else {
                self.misses
            },
            bypasses: if outcome is Bypass {
                self.bypasses.wrapping_add(1)
            } else {
                self.bypasses
            },
            tokens_saved: self.tokens_saved.wrapping_add(tokens_saved),
            saved_micros: self.saved_micros.wrapping_add(saved_micros),
            seq: self.seq.wrapping_add(1),
            recent: capped(
                seq![self.event(model, outcome, tokens_saved, saved_micros, ts)] + self.recent,
            ),
        }
    }

    /// The aggregate counters.
    pub open spec fn stats(self) -> Stats {
        Stats {
            requests: self.total,
            hits: self.hits,
            misses: self.misses,
            bypasses: self.bypasses,
            cacheable: self.hits.wrapping_add(self.misses),
            tokens_saved: self.tokens_saved,
            saved_micros: self.saved_micros,
        }
    }

    /// Every request is counted once as a hit, a miss or a bypass; the feed holds
    /// the latest events, newest first, and is full unless it holds them all.
    pub open spec fn consistent(self) -> bool {
        &&& self.total == self.hits.wrapping_add(self.misses).wrapping_add(self.bypasses)
        &&& self.seq == self.total
        &&& self.recent.len() <= RECENT_CAPACITY
        &&& self.recent.len() < RECENT_CAPACITY ==> self.seq == self.recent.len()
        &&& forall|k: int|
            0 <= k < self.recent.len() ==> (#[trigger] self.recent[k]).seq
                == self.seq.wrapping_sub((k + 1) as u64)
    }
}

/// The counters and the feed.
pub struct Metrics {
    total: u64,
    hits: u64,
    misses: u64,
    bypasses: u64,
    tokens_saved: u64,
    saved_micros: u64,
    seq: u64,
    recent: VecDeque<Event>,
}

/// The views of a list of events.
pub open spec fn event_views(events: Seq<Event>) -> Seq<EventView> {
    events.map_values(|e: Event| e@)
}

impl View for Metrics {
    type V = MetricsView;

    closed spec fn view(&self) -> MetricsView {
        MetricsView {
            total: self.total,
            hits: self.hits,
            misses: self.misses,
            bypasses: self.bypasses,
            tokens_saved: self.tokens_saved,
            saved_micros: self.saved_micros,
            seq: self.seq,
            recent: event_views(self.recent@),
        }
    }
}

impl Metrics {
    pub fn new() -> (m: Metrics)
        ensures
            m@ == MetricsView::zero(),
            m@.consistent(),
    {
        let m = Metrics {
            total: 0,
            hits: 0,
            misses: 0,
            bypasses: 0,
            tokens_saved: 0,
            saved_micros: 0,
            seq: 0,
            recent: VecDeque::with_capacity(RECENT_CAPACITY),
        };
        assert(event_views(m.recent@) =~= Seq::<EventView>::empty());
        m
    }

    /// Records one request and returns its event. `tokens_saved` and
    /// `saved_micros` are non-zero only for hits.
    pub fn record(
        &mut self,
        model: &str,
        outcome: Outcome,
        tokens_saved: u64,
        saved_micros: u64,
        ts: u64,
    ) -> (event: Event)
        requires
            old(self)@.consistent(),
        ensures
            event@ == old(self)@.event(model@, outcome@, tokens_saved, saved_micros, ts),
            final(self)@ == old(self)@.recorded(
                model@,
                outcome@,
                tokens_saved,
                saved_micros,
                ts,
            ),
            final(self)@.consistent(),
    {
        proof {
            law_record_keeps_counts(self@, model@, outcome@, tokens_saved, saved_micros, ts);
        }
        self.total = self.total.wrapping_add(1);
        let (layer, sim) = match outcome {
            Outcome::Hit { layer, similarity } => {
                self.hits = self.hits.wrapping_add(1);
                (Some(layer), similarity)
            },
            Outcome::Miss => {
                self.misses = self.misses.wrapping_add(1);
                (None, None)
            },
            Outcome::Bypass => {
                self.bypasses = self.bypasses.wrapping_add(1);
                (None, None)
            },
        };
        self.tokens_saved = self.tokens_saved.wrapping_add(tokens_saved);
        self.saved_micros = self.saved_micros.wrapping_add(saved_micros);
        let seq: u64 = self.seq;
        self.seq = self.seq.wrapping_add(1);
        let event = Event {
            seq,
            ts,
            model: model.to_owned(),
            status: outcome.status(),
            layer,
            sim,
            tokens_saved,
            saved_micros,
        };
        let ghost before = self.recent@;
        let copy = event.duplicate();
        self.recent.push_front(copy);
        let ghost full = event_views(self.recent@);
        assert(full =~= seq![event@] + event_views(before));
        if self.recent.len() > RECENT_CAPACITY {
            let _ = self.recent.pop_back();
            assert(event_views(self.recent@) =~= full.take(RECENT_CAPACITY as int));
        }
        event
    }

    /// The current aggregate counters.
    pub fn stats_value(&self) -> (s: Stats)
        ensures
            s == self@.stats(),
    {
        Stats {
            requests: self.total,
            hits: self.hits,
            misses: self.misses,
            bypasses: self.bypasses,
            cacheable: self.hits.wrapping_add(self.misses),
            tokens_saved: self.tokens_saved,
            saved_micros: self.saved_micros,
        }
    }
}

/// Whether a text is a similarity as `show` writes it; none where there is none.
pub open spec fn shown<F: Fn(Score) -> String>(
    show: F,
    sim: Option<Score>,
    text: Option<Seq<char>>,
) -> bool {
    match sim {
        Some(s) => exists|t: String| #[trigger] call_ensures(show, (s,), t) && text == Some(t@),
        None => text is None,
    }
}

/// Whether a text is the hit rate: hits per cacheable request, as `ratio` writes
/// it, and zero before there are any.
pub open spec fn rated<G: Fn(u64, u64) -> String>(ratio: G, stats: Stats, text: Seq<char>) -> bool {
    if stats.cacheable > 0 {
        exists|t: String| #[trigger]
            call_ensures(ratio, (stats.hits, stats.cacheable), t) && text == t@
    } else {
        text == "0.0"@
    }
}

fn rate_of<G: Fn(u64, u64) -> String>(stats: Stats, ratio: G) -> (r: String)
    requires
        forall|a: u64, b: u64| call_requires(ratio, (a, b)),
    ensures
        rated(ratio, stats, r@),
{
    if stats.cacheable > 0 {
        ratio(stats.hits, stats.cacheable)
    } else {
        "0.0".to_owned()
    }
}

/// The message that tells dashboards of one recorded request.
pub open spec fn event_json(stats: JsonView, event: JsonView) -> JsonView {
    JsonView::Object(
        seq![("type"@, JsonView::Text("event"@)), ("stats"@, stats), ("event"@, event)],
    )
}

/// Builds the message that tells dashboards of one recorded request.
pub fn event_value(stats: Json, event: Json) -> (r: Json)
    ensures
        r@ == event_json(stats@, event@),
{
    let ghost expected = event_json(stats@, event@)->Object_0;
    let mut members: Vec<(String, Json)> = Vec::new();
    members.push(("type".to_owned(), Json::text("event")));
    members.push(("stats".to_owned(), stats));
    members.push(("event".to_owned(), event));
    assert(member_views(members@) =~= expected);
    Json::object(members)
}

/// The first message to a dashboard.
pub open spec fn snapshot_json(stats: JsonView, events: Seq<JsonView>) -> JsonView {
    JsonView::Object(
        seq![
            ("type"@, JsonView::Text("snapshot"@)),
            ("stats"@, stats),
            ("events"@, JsonView::List(events)),
        ],
    )
}

/// Builds the first message to a dashboard.
pub fn snapshot_value(stats: Json, events: Vec<Json>) -> (r: Json)
    ensures
        r@ == snapshot_json(stats@, views(events@)),
{
    let ghost expected = snapshot_json(stats@, views(events@))->Object_0;
    let mut members: Vec<(String, Json)> = Vec::new();
    members.push(("type".to_owned(), Json::text("snapshot")));
    members.push(("stats".to_owned(), stats));
    members.push(("events".to_owned(), Json::list(events)));
    assert(member_views(members@) =~= expected);
    Json::object(members)
}

/// Events as JSON, with their similarities in decimal.
pub open spec fn events_json(
    events: Seq<EventView>,
    sims: Seq<Option<Seq<char>>>,
) -> Seq<JsonView> {
    Seq::new(events.len(), |i: int| events[i].json(sims[i]))
}

impl Stats {
    /// The message that tells dashboards of a recorded request, with these
    /// stats. `show` writes a similarity in decimal, `ratio` a quotient.
    pub fn event_message<F: Fn(Score) -> String, G: Fn(u64, u64) -> String>(
        &self,
        event: &Event,
        show: F,
        ratio: G,
    ) -> (r: String)
        requires
            forall|s: Score| call_requires(show, (s,)),
            forall|a: u64, b: u64| call_requires(ratio, (a, b)),
        ensures
            exists|sim: Option<Seq<char>>, rate: Seq<char>|
                #![trigger shown(show, event@.sim, sim), rated(ratio, *self, rate)]
                {
                    &&& shown(show, event@.sim, sim)
                    &&& rated(ratio, *self, rate)
                    &&& r@ == rendered_json(
                        event_json(self.json(rate), event@.json(sim)),
                    )
                },
    {
        let stats = *self;
        let rate = rate_of(stats, ratio);
        let sim = match event.sim {
            Some(s) => Some(show(s)),
            None => None,
        };
        assert(shown(show, event@.sim, text_view(sim)));
        assert(rated(ratio, *self, rate@));
        render_json(&event_value(stats.to_json(rate), event.to_json(sim)))
    }
}

impl Metrics {
    /// The first message to a dashboard: the current stats and the recent events,
    /// newest first. `show` writes a similarity in decimal, `ratio` a quotient.
    pub fn snapshot_message<F: Fn(Score) -> String, G: Fn(u64, u64) -> String>(
        &self,
        show: F,
        ratio: G,
    ) -> (r: String)
        requires
            forall|s: Score| call_requires(show, (s,)),
            forall|a: u64, b: u64| call_requires(ratio, (a, b)),
        ensures
            exists|sims: Seq<Option<Seq<char>>>, rate: Seq<char>|
                #![trigger events_json(self@.recent, sims), rated(ratio, self@.stats(), rate)]
                {
                    &&& sims.len() == self@.recent.len()
                    &&& forall|i: int|
                        0 <= i < sims.len() ==> shown(show, self@.recent[i].sim, #[trigger] sims[i])
                    &&& rated(ratio, self@.stats(), rate)
                    &&& r@ == rendered_json(
                        snapshot_json(
                            self@.stats().json(rate),
                            events_json(self@.recent, sims),
                        ),
                    )
                },
    {
        let stats = self.stats_value();
        let rate = rate_of(stats, ratio);
        assert(rated(ratio, self@.stats(), rate@));
        let mut list: Vec<Json> = Vec::new();
        let ghost mut sims: Seq<Option<Seq<char>>> = Seq::empty();
        let mut i: usize = 0;
        while i < self.recent.len()
            invariant
                i <= self.recent@.len(),
                forall|s: Score| call_requires(show, (s,)),
                self@.recent == event_views(self.recent@),
                sims.len() == i,
                list@.len() == i,
                forall|j: int|
                    0 <= j < sims.len() ==> shown(show, self@.recent[j].sim, #[trigger] sims[j]),
                forall|j: int|
                    0 <= j < list@.len() ==> (#[trigger] list@[j])@ == self@.recent[j].json(sims[j]),
            decreases self.recent@.len() - i,
        {
            let event = &self.recent[i];
            assert(self@.recent[i as int] == event@);
            let sim = match event.sim {
                Some(s) => Some(show(s)),
                None => None,
            };
            assert(shown(show, event@.sim, text_view(sim)));
            proof {
                sims = sims.push(text_view(sim));
            }
            list.push(event.to_json(sim));
            i += 1;
        }
        assert(views(list@) =~= events_json(self@.recent, sims));
        render_json(&snapshot_value(stats.to_json(rate), list))
    }
}

impl Default for Metrics {
    fn default() -> (m: Metrics)
        ensures
            m@ == MetricsView::zero(),
            m@.consistent(),
    {
        Self::new()
    }
}

/// Recording a request keeps the counters consistent: the total stays the sum of
/// the hits, misses and bypasses, and the feed stays the latest events in order.
pub proof fn law_record_keeps_counts(
    m: MetricsView,
    model: Seq<char>,
    outcome: OutcomeView,
    tokens_saved: u64,
    saved_micros: u64,
    ts: u64,
)
    requires
        m.consistent(),
    ensures
        m.recorded(model, outcome, tokens_saved, saved_micros, ts).consistent(),
{
    let after = m.recorded(model, outcome, tokens_saved, saved_micros, ts);
    assert forall|k: int| 0 <= k < after.recent.len() implies (#[trigger] after.recent[k]).seq
        == after.seq.wrapping_sub((k + 1) as u64) by {
        if k > 0 {
            assert(after.recent[k] == m.recent[k - 1]);
        }
    }
}

/// The milliseconds of a time since the Unix epoch, where it is after the epoch,
/// within 64 bits.
pub open spec fn millis_of(elapsed: Option<u128>) -> u64 {
    match elapsed {
        Some(ms) => (ms % 0x1_0000_0000_0000_0000) as u64,
        None => 0,
    }
}

/// The clock reading of an event, from the milliseconds since the Unix epoch; a
/// clock before the epoch reads zero.
pub fn epoch_millis(elapsed: Option<u128>) -> (r: u64)
    ensures
        r == millis_of(elapsed),
{
    match elapsed {
        Some(ms) => (ms % 0x1_0000_0000_0000_0000) as u64,
        None => 0,
    }
}

/// What recording a request changes: the number of requests goes up by one, and so does
/// the count of its outcome alone; the savings are added; and its event leads the feed,
/// of which the newest sixty are kept.
pub proof fn law_recorded(
    m: MetricsView,
    model: Seq<char>,
    outcome: OutcomeView,
    tokens_saved: u64,
    saved_micros: u64,
    ts: u64,
)
    ensures
        ({
            let after = m.recorded(model, outcome, tokens_saved, saved_micros, ts);
            let event = m.event(model, outcome, tokens_saved, saved_micros, ts);
            &&& after.total == m.total.wrapping_add(1)
            &&& after.hits == if outcome is Hit { m.hits.wrapping_add(1) } else { m.hits }
            &&& after.misses == if outcome is Miss { m.misses.wrapping_add(1) } else { m.misses }
            &&& after.bypasses == if outcome is Bypass {
                m.bypasses.wrapping_add(1)
            } else {
                m.bypasses
            }
            &&& after.tokens_saved == m.tokens_saved.wrapping_add(tokens_saved)
            &&& after.saved_micros == m.saved_micros.wrapping_add(saved_micros)
            &&& after.seq == m.seq.wrapping_add(1)
            &&& after.recent.len() == if m.recent.len() < 60 { m.recent.len() + 1 } else { 60 }
            &&& after.recent[0] == event
            &&& forall|k: int|
                0 < k < after.recent.len() ==> #[trigger] after.recent[k] == m.recent[k - 1]
        }),
{
    let after = m.recorded(model, outcome, tokens_saved, saved_micros, ts);
    let event = m.event(model, outcome, tokens_saved, saved_micros, ts);
    let all = seq![event] + m.recent;
    assert(all[0] == event);
    assert forall|k: int| 0 < k < after.recent.len() implies #[trigger] after.recent[k]
        == m.recent[k - 1] by {
        assert(after.recent[k] == all[k]);
    }
}

/// What the event of a request tells: its number, when it was, its model and what it
/// saved as they are, and its outcome by name. Layer and similarity are those of a hit.
pub proof fn law_event(
    m: MetricsView,
    model: Seq<char>,
    outcome: OutcomeView,
    tokens_saved: u64,
    saved_micros: u64,
    ts: u64,
)
    ensures
        ({
            let event = m.event(model, outcome, tokens_saved, saved_micros, ts);
            &&& event.seq == m.seq
            &&& event.ts == ts
            &&& event.model == model
            &&& event.tokens_saved == tokens_saved
            &&& event.saved_micros == saved_micros
            &&& match outcome {
                OutcomeView::Hit { layer, similarity } => event.status == "hit"@ && event.layer
                    == Some(layer) && event.sim == similarity,
                OutcomeView::Miss => event.status == "miss"@ && event.layer is None
                    && event.sim is None,
                OutcomeView::Bypass => event.status == "bypass"@ && event.layer is None
                    && event.sim is None,
            }
        }),
{
}

/// What the aggregate counters are: the counters themselves; and cacheable are the hits
/// and the misses.
pub proof fn law_stats(m: MetricsView)
    ensures
        m.stats().requests == m.total,
        m.stats().hits == m.hits,
        m.stats().misses == m.misses,
        m.stats().bypasses == m.bypasses,
        m.stats().cacheable == m.hits.wrapping_add(m.misses),
        m.stats().tokens_saved == m.tokens_saved,
        m.stats().saved_micros == m.saved_micros,
        MetricsView::zero().total == 0 && MetricsView::zero().seq == 0,
        MetricsView::zero().hits == 0 && MetricsView::zero().misses == 0
            && MetricsView::zero().bypasses == 0,
        MetricsView::zero().tokens_saved == 0 && MetricsView::zero().saved_micros == 0,
        MetricsView::zero().recent.len() == 0,
{
}

/// What the JSON of an event holds, member by member.
pub proof fn law_event_members(event: EventView, sim: Option<Seq<char>>)
    ensures
        event.json(sim) matches JsonView::Object(members) && members == seq![
            ("seq"@, JsonView::Integer(event.seq as int)),
            ("ts"@, JsonView::Integer(event.ts as int)),
            ("model"@, JsonView::Text(event.model)),
            ("status"@, JsonView::Text(event.status)),
            (
                "layer"@,
                if event.layer is Some {
                    JsonView::Text(event.layer->0)
                } else {
                    JsonView::Null
                },
            ),
            (
                "sim"@,
                if sim is Some {
                    JsonView::Real(sim->0)
                } else {
                    JsonView::Null
                },
            ),
            ("tokensSaved"@, JsonView::Integer(event.tokens_saved as int)),
            ("savedMicros"@, JsonView::Integer(event.saved_micros as int)),
        ],
{
}

/// What the messages to dashboards hold, member by member: their type, the counters, and
/// the event or the recent events in order.
pub proof fn law_messages(
    stats: Stats,
    rate: Seq<char>,
    event: JsonView,
    recent: Seq<EventView>,
    sims: Seq<Option<Seq<char>>>,
)
    ensures
        stats.json(rate) matches JsonView::Object(members) && members == seq![
            ("requests"@, JsonView::Integer(stats.requests as int)),
            ("hits"@, JsonView::Integer(stats.hits as int)),
            ("misses"@, JsonView::Integer(stats.misses as int)),
            ("bypasses"@, JsonView::Integer(stats.bypasses as int)),
            ("hitRate"@, JsonView::Real(rate)),
            ("tokensSaved"@, JsonView::Integer(stats.tokens_saved as int)),
            ("savedMicros"@, JsonView::Integer(stats.saved_micros as int)),
        ],
        event_json(stats.json(rate), event) matches JsonView::Object(members) && members == seq![
            ("type"@, JsonView::Text("event"@)),
            ("stats"@, stats.json(rate)),
            ("event"@, event),
        ],
        snapshot_json(stats.json(rate), events_json(recent, sims)) matches JsonView::Object(members)
            && members == seq![
            ("type"@, JsonView::Text("snapshot"@)),
            ("stats"@, stats.json(rate)),
            ("events"@, JsonView::List(events_json(recent, sims))),
        ],
        events_json(recent, sims).len() == recent.len(),
        forall|i: int|
            0 <= i < recent.len() ==> #[trigger] events_json(recent, sims)[i] == recent[i].json(
                sims[i],
            ),
{
}

/// How the hit rate is written: hits per cacheable request, as `ratio` writes it; and as
/// zero before there are any. A similarity is written as `show` writes it.
pub proof fn law_rate_and_similarity<F: Fn(Score) -> String, G: Fn(u64, u64) -> String>(
    show: F,
    ratio: G,
    stats: Stats,
    rate: Seq<char>,
    sim: Option<Score>,
    text: Option<Seq<char>>,
)
    ensures
        rated(ratio, stats, rate) && stats.cacheable == 0 ==> rate == "0.0"@,
        rated(ratio, stats, rate) && stats.cacheable > 0 ==> exists|t: String| #[trigger]
            call_ensures(ratio, (stats.hits, stats.cacheable), t) && rate == t@,
        shown(show, sim, text) ==> (text is Some <==> sim is Some),
        shown(show, sim, text) && sim is Some ==> exists|t: String| #[trigger]
            call_ensures(show, (sim->0,), t) && text == Some(t@),
{
}

/// The clock of events: milliseconds since the epoch as they are, within 64 bits; past
/// these they start over, and before the epoch it is zero.
pub proof fn law_millis(ms: u128)
    ensures
        ms < 0x1_0000_0000_0000_0000 ==> millis_of(Some(ms)) == ms,
        ms >= 0x1_0000_0000_0000_0000 ==> millis_of(Some(ms)) == millis_of(
            Some((ms - 0x1_0000_0000_0000_0000) as u128),
        ),
        millis_of(None) == 0,
{
}

/// The views of an outcome and of an event show all of them.
pub proof fn law_metrics_views(outcome: Outcome, event: Event, events: Seq<Event>, i: int)
    ensures
        outcome matches Outcome::Hit { layer, similarity } ==> outcome@ == (OutcomeView::Hit {
            layer: layer@,
            similarity,
        }),
        outcome is Miss ==> outcome@ is Miss,
        outcome is Bypass ==> outcome@ is Bypass,
        event@.seq == event.seq && event@.ts == event.ts,
        event@.model == event.model@ && event@.status == event.status@,
        event.layer matches Some(l) ==> event@.layer == Some(l@),
        event.layer is None ==> event@.layer is None,
        event@.sim == event.sim,
        event@.tokens_saved == event.tokens_saved && event@.saved_micros == event.saved_micros,
        event_views(events).len() == events.len(),
        0 <= i < events.len() ==> event_views(events)[i] == events[i]@,
{
}

} // verus!
