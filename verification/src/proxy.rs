//! The decisions of the proxy: what is served locally, what is forwarded, what of
//! an upstream response is stored, and how replies are put together.
//!
//! Each request goes through a few of these, with the reading and sending between
//! them left to the caller: `intake` on its head, `chat::analyze_request` on its
//! body and `decide` on the plan; then `serve_hit`, or `relay` once the head of the
//! upstream's response is there, and `finish_miss` once all of it is.
use crate::buffer::{as_slice, content, share};
use crate::cache::{
    answers, law_insert_then_lookup, newer_than, request_key, CacheHit, CacheView, CachedResponse,
    HitLayer, HitView, ResponseFormat, ResponseView, SemanticCache,
};
use crate::chat::{answer_chars, assistant_text_chars, plan_for_body, CachePlan, PlanView};
use crate::dashboard::{is_reserved, reserved, route, route_of, Route};
use crate::headers::{
    append_headers, cacheable_headers, collect_response_headers, copy_response_headers,
    forward_request_headers, headers_view, hop_by_hop, law_headers_travel_by_name,
    law_only_travelling_headers_arrive, law_set_header, law_set_header_keeps_the_others,
    law_set_header_stands_last, named, replaced, set_header, travelling, travels, uncacheable,
    Header, HeaderView, Passage,
};
use crate::json::JsonView;
use crate::metrics::{Outcome, OutcomeView};
use crate::pricing::{price_of, Price, Pricing, CHARS_PER_TOKEN};
use crate::score::Score;
use crate::stream::{
    concat, contents, events, fed, law_clean_end_commits_the_whole_stream,
    law_dropped_or_uncaptured_stream_is_never_committed, law_events_concatenate_to_the_stream,
    split_sse_events, Capture, CaptureView, Tee, TeeView,
    MAX_CACHEABLE_RESPONSE_BYTES,
};
use crate::text::str_view;
use bytes::Bytes;
use vstd::prelude::*;
use vstd::utf8::encode_utf8;

verus! {

/// Upper bound on a buffered request body.
pub const MAX_REQUEST_BODY_BYTES: usize = 104_857_600;

/// The `X-Cachet` status of a response.
#[derive(Debug, Clone, Copy, PartialEq, Eq, Structural)]
pub enum CacheTag {
    Hit,
    Miss,
    Bypass,
}

impl CacheTag {
    /// The text of a status.
    pub open spec fn spec_str(self) -> Seq<char> {
        match self {
            CacheTag::Hit => "hit"@,
            CacheTag::Miss => "miss"@,
            CacheTag::Bypass => "bypass"@,
        }
    }

    pub fn as_str(self) -> (s: &'static str)
        ensures
            s@ == self.spec_str(),
    {
        match self {
            CacheTag::Hit => "hit",
            CacheTag::Miss => "miss",
            CacheTag::Bypass => "bypass",
        }
    }
}

/// A header with a text value.
pub open spec fn text_header(name: Seq<char>, value: Seq<char>) -> HeaderView {
    HeaderView { name, value: encode_utf8(value) }
}

/// Headers stamped with a status.
pub open spec fn stamped(headers: Seq<HeaderView>, tag: CacheTag) -> Seq<HeaderView> {
    replaced(headers, text_header("x-cachet"@, tag.spec_str()))
}

/// Stamps a status on headers.
pub fn set_cache_header(headers: &mut Vec<Header>, tag: CacheTag)
    ensures
        headers_view(final(headers)@) == stamped(headers_view(old(headers)@), tag),
{
    set_header(headers, Header::new("x-cachet", tag.as_str()));
}

/// Whether bytes may stand in a header value: no control character but the tab.
pub open spec fn header_safe(bytes: Seq<u8>) -> bool {
    forall|i: int|
        0 <= i < bytes.len() ==> ((#[trigger] bytes[i]) >= 32 && bytes[i] != 127) || bytes[i] == 9
}

/// Whether a text may stand in a header value.
pub fn is_header_safe(text: &str) -> (r: bool)
    ensures
        r == header_safe(encode_utf8(text@)),
{
    let bytes = text.as_bytes();
    let mut i: usize = 0;
    while i < bytes.len()
        invariant
            i <= bytes@.len(),
            bytes@ == encode_utf8(text@),
            forall|j: int|
                0 <= j < i ==> ((#[trigger] bytes@[j]) >= 32 && bytes@[j] != 127) || bytes@[j] == 9,
        decreases bytes@.len() - i,
    {
        if !((bytes[i] >= 32 && bytes[i] != 127) || bytes[i] == 9) {
            return false;
        }
        i += 1;
    }
    true
}

/// Headers with the score and the layer of a hit. A score that cannot stand in a
/// header is left out.
pub open spec fn diagnosed(
    headers: Seq<HeaderView>,
    score: Seq<char>,
    layer: Seq<char>,
) -> Seq<HeaderView> {
    let scored = if header_safe(encode_utf8(score)) {
        replaced(headers, text_header("x-cachet-score"@, score))
    } else {
        headers
    };
    replaced(scored, text_header("x-cachet-layer"@, layer))
}

/// Adds the score and the layer of a hit.
pub fn add_hit_diagnostics(out: &mut Vec<Header>, score: &str, layer: &str)
    ensures
        headers_view(final(out)@) == diagnosed(headers_view(old(out)@), score@, layer@),
{
    if is_header_safe(score) {
        set_header(out, Header::new("x-cachet-score", score));
    }
    set_header(out, Header::new("x-cachet-layer", layer));
}

/// The body of a reply: one buffer, or a stream of events.
pub enum ReplyBody {
    Whole(Bytes),
    Events(Vec<Bytes>),
}

/// A reply to the client.
pub struct Reply {
    pub status: u16,
    pub headers: Vec<Header>,
    pub body: ReplyBody,
}

/// The body of a reply as mathematics.
pub ghost enum BodyView {
    Whole(Seq<u8>),
    Events(Seq<Seq<u8>>),
}

/// A reply as mathematics.
pub ghost struct ReplyView {
    pub status: u16,
    pub headers: Seq<HeaderView>,
    pub body: BodyView,
}

impl View for Reply {
    type V = ReplyView;

    open spec fn view(&self) -> ReplyView {
        ReplyView {
            status: self.status,
            headers: headers_view(self.headers@),
            body: match self.body {
                ReplyBody::Whole(b) => BodyView::Whole(content(b)),
                ReplyBody::Events(list) => BodyView::Events(contents(list@)),
            },
        }
    }
}

/// Builds a fully buffered reply.
pub fn build_replay_response(
    status: u16,
    headers: &Vec<Header>,
    body: Bytes,
    tag: CacheTag,
) -> (r: Reply)
    ensures
        r@ == (ReplyView {
            status,
            headers: stamped(headers_view(headers@), tag),
            body: BodyView::Whole(content(body)),
        }),
{
    let mut out: Vec<Header> = Vec::new();
    append_headers(&mut out, headers);
    assert(headers_view(out@) =~= headers_view(headers@));
    set_cache_header(&mut out, tag);
    Reply { status, headers: out, body: ReplyBody::Whole(body) }
}

/// The headers of a hit.
pub open spec fn hit_headers(hit: HitView, score: Seq<char>) -> Seq<HeaderView> {
    diagnosed(stamped(hit.response.headers, CacheTag::Hit), score, hit.layer.spec_str())
}

fn hit_head(hit: &CacheHit, score: &str) -> (r: Vec<Header>)
    ensures
        headers_view(r@) == hit_headers(hit@, score@),
{
    let mut out: Vec<Header> = Vec::new();
    append_headers(&mut out, &hit.response.headers);
    assert(headers_view(out@) =~= hit@.response.headers);
    set_cache_header(&mut out, CacheTag::Hit);
    add_hit_diagnostics(&mut out, score, hit.layer.as_str());
    out
}

/// Builds the reply for a buffered hit. `score` is the similarity as text.
pub fn build_cached_response(hit: CacheHit, score: &str) -> (r: Reply)
    ensures
        r@ == (ReplyView {
            status: hit.response.status,
            headers: hit_headers(hit@, score@),
            body: BodyView::Whole(hit@.response.body),
        }),
{
    let headers = hit_head(&hit, score);
    Reply { status: hit.response.status, headers, body: ReplyBody::Whole(hit.response.body) }
}

/// Builds the reply for a streamed hit: the captured bytes are replayed event by
/// event.
pub fn build_streamed_replay(hit: CacheHit, score: &str) -> (r: Reply)
    ensures
        r@ == (ReplyView {
            status: hit.response.status,
            headers: hit_headers(hit@, score@),
            body: BodyView::Events(events(hit@.response.body)),
        }),
{
    let headers = hit_head(&hit, score);
    let list = split_sse_events(&hit.response.body);
    Reply { status: hit.response.status, headers, body: ReplyBody::Events(list) }
}

/// The reply that serves a hit in the format that was asked for.
pub open spec fn hit_reply(hit: HitView, format: ResponseFormat, score: Seq<char>) -> ReplyView {
    ReplyView {
        status: hit.response.status,
        headers: hit_headers(hit, score),
        body: match format {
            ResponseFormat::Streaming => BodyView::Events(events(hit.response.body)),
            ResponseFormat::NonStreaming => BodyView::Whole(hit.response.body),
        },
    }
}

/// What is recorded of a request.
pub struct Report {
    pub model: String,
    pub outcome: Outcome,
    pub tokens_saved: u64,
    pub saved_micros: u64,
}

/// What is recorded of a request, as mathematics.
pub ghost struct ReportView {
    pub model: Seq<char>,
    pub outcome: OutcomeView,
    pub tokens_saved: u64,
    pub saved_micros: u64,
}

impl View for Report {
    type V = ReportView;

    open spec fn view(&self) -> ReportView {
        ReportView {
            model: self.model@,
            outcome: self.outcome@,
            tokens_saved: self.tokens_saved,
            saved_micros: self.saved_micros,
        }
    }
}

/// What is recorded of a request that saved nothing.
pub open spec fn plain(model: Seq<char>, outcome: OutcomeView) -> ReportView {
    ReportView { model, outcome, tokens_saved: 0, saved_micros: 0 }
}

/// A request that was served from the cache.
pub struct Served {
    pub report: Report,
    pub reply: Reply,
}

/// The outcome that a hit is recorded as: the similarity only of a semantic hit.
pub open spec fn hit_outcome(hit: HitView) -> OutcomeView {
    OutcomeView::Hit {
        layer: hit.layer.spec_str(),
        similarity: match hit.layer {
            HitLayer::Semantic => Some(hit.similarity),
            HitLayer::Exact => None,
        },
    }
}

/// The tokens of a prompt and an answer of the given lengths.
pub open spec fn tokens_of(prompt: nat, answer: nat) -> nat {
    prompt / CHARS_PER_TOKEN as nat + answer / CHARS_PER_TOKEN as nat
}

/// Serves a hit: estimates what it saved, from the prompt and from the assistant's
/// text alone, and builds the reply. `score` is the similarity as text; `cost`
/// prices tokens, as in `Pricing::saved`.
pub fn serve_hit<F: Fn(u64, u64, Price, Price) -> u64>(
    pricing: &Pricing,
    model: &str,
    canonical: &str,
    format: ResponseFormat,
    hit: CacheHit,
    score: &str,
    cost: F,
) -> (r: Served)
    requires
        pricing.wf(),
        forall|a: u64, b: u64, p: Price, q: Price| call_requires(cost, (a, b, p, q)),
    ensures
        r.reply@ == hit_reply(hit@, format, score@),
        r.report.model@ == model@,
        r.report.outcome@ == hit_outcome(hit@),
        r.report.tokens_saved == tokens_of(canonical@.len(), answer_chars(
            hit@.response.body,
            format,
        )),
        r.report.tokens_saved <= tokens_of(canonical@.len(), hit@.response.body.len()),
        call_ensures(
            cost,
            (
                (canonical@.len() / CHARS_PER_TOKEN as nat) as u64,
                (answer_chars(hit@.response.body, format) / CHARS_PER_TOKEN as nat) as u64,
                price_of(pricing@, model@).0,
                price_of(pricing@, model@).1,
            ),
            r.report.saved_micros,
        ),
{
    let output_chars = assistant_text_chars(as_slice(&hit.response.body), format);
    let input_chars = canonical.unicode_len();
    let (tokens_saved, saved_micros) = pricing.saved(model, input_chars, output_chars, cost);
    let similarity = match hit.layer {
        HitLayer::Semantic => Some(hit.similarity),
        HitLayer::Exact => None,
    };
    let report = Report {
        model: model.to_owned(),
        outcome: Outcome::Hit { layer: hit.layer.as_str(), similarity },
        tokens_saved,
        saved_micros,
    };
    let reply = match format {
        ResponseFormat::Streaming => build_streamed_replay(hit, score),
        ResponseFormat::NonStreaming => build_cached_response(hit, score),
    };
    Served { report, reply }
}

/// A request to send upstream.
pub struct UpstreamCall {
    pub url: String,
    pub headers: Vec<Header>,
}

/// The URL of a forwarded request: the upstream's base and the client's path and
/// query, verbatim.
pub open spec fn forward_url(base: Seq<char>, path_and_query: Option<Seq<char>>) -> Seq<char> {
    base + match path_and_query {
        Some(pq) => pq,
        None => "/"@,
    }
}

/// What becomes of a request by its head alone.
pub enum Intake {
    /// Answered by the dashboard, never forwarded.
    Dashboard(Route),
    /// Forwarded to the upstream, unless the cache has an answer.
    Forward(UpstreamCall),
}

/// What becomes of a request by its head alone, as mathematics.
pub ghost enum IntakeView {
    Dashboard(Route),
    Forward { url: Seq<char>, headers: Seq<HeaderView> },
}

impl View for Intake {
    type V = IntakeView;

    open spec fn view(&self) -> IntakeView {
        match self {
            Intake::Dashboard(to) => IntakeView::Dashboard(*to),
            Intake::Forward(call) => IntakeView::Forward {
                url: call.url@,
                headers: headers_view(call.headers@),
            },
        }
    }
}

/// The head of a request as mathematics.
pub ghost struct HeadView {
    pub method: Seq<char>,
    pub path: Seq<char>,
    /// The path with the query, where the request has one.
    pub path_and_query: Option<Seq<char>>,
    pub headers: Seq<HeaderView>,
}

/// What becomes of a request by its head: one on the reserved namespace is answered
/// by the dashboard, any other is forwarded.
pub open spec fn taken_in(base: Seq<char>, head: HeadView) -> IntakeView {
    if reserved(head.path) {
        IntakeView::Dashboard(route_of(head.method, head.path))
    } else {
        IntakeView::Forward {
            url: forward_url(base, head.path_and_query),
            headers: travelling(Passage::Upstream, head.headers),
        }
    }
}

/// Decides by the head of a request: the reserved namespace is intercepted before
/// any forwarding.
pub fn intake(
    base: &str,
    method: &str,
    path: &str,
    path_and_query: Option<&str>,
    headers: &Vec<Header>,
) -> (r: Intake)
    ensures
        r@ == taken_in(
            base@,
            (HeadView {
                method: method@,
                path: path@,
                path_and_query: str_view(path_and_query),
                headers: headers_view(headers@),
            }),
        ),
{
    if is_reserved(path) {
        return Intake::Dashboard(route(method, path));
    }
    let mut url = base.to_owned();
    match path_and_query {
        Some(pq) => {
            url.append(pq);
        },
        None => {
            url.append("/");
        },
    }
    Intake::Forward(UpstreamCall { url, headers: forward_request_headers(headers) })
}

/// What is stored of a buffered upstream response: nothing unless it is a 200 of a
/// size within the limit.
pub open spec fn stored_response(
    status: u16,
    upstream: Seq<HeaderView>,
    body: Seq<u8>,
) -> Option<ResponseView> {
    if status == 200 && body.len() <= MAX_CACHEABLE_RESPONSE_BYTES {
        Some(
            ResponseView {
                status,
                headers: travelling(Passage::Stored, travelling(Passage::Reframed, upstream)),
                body,
                format: ResponseFormat::NonStreaming,
            },
        )
    } else {
        None
    }
}

/// The headers of a reply to a miss.
pub open spec fn miss_headers(upstream: Seq<HeaderView>) -> Seq<HeaderView> {
    stamped(travelling(Passage::Reframed, upstream), CacheTag::Miss)
}

/// A miss whose response was buffered.
pub struct BufferedMiss {
    pub reply: Reply,
    /// The response to store, if it may be.
    pub store: Option<CachedResponse>,
    pub report: Report,
}

/// The view of an optional response.
pub open spec fn response_view(r: Option<CachedResponse>) -> Option<ResponseView> {
    match r {
        Some(x) => Some(x@),
        None => None,
    }
}

/// Finishes a non-streaming miss once the upstream's whole response is there.
pub fn finish_miss(model: &str, status: u16, upstream: &Vec<Header>, body: Bytes) -> (r:
    BufferedMiss)
    ensures
        r.reply@ == (ReplyView {
            status,
            headers: miss_headers(headers_view(upstream@)),
            body: BodyView::Whole(content(body)),
        }),
        response_view(r.store) == stored_response(status, headers_view(upstream@), content(body)),
        r.report@ == plain(model@, OutcomeView::Miss),
{
    let headers = collect_response_headers(upstream);
    let size: usize = as_slice(&body).len();
    let store = if status == 200 && size <= MAX_CACHEABLE_RESPONSE_BYTES {
        Some(
            CachedResponse {
                status,
                headers: cacheable_headers(&headers),
                body: share(&body),
                format: ResponseFormat::NonStreaming,
            },
        )
    } else {
        None
    };
    BufferedMiss {
        reply: build_replay_response(status, &headers, body, CacheTag::Miss),
        store,
        report: plain_report(model, Outcome::Miss),
    }
}

fn plain_report(model: &str, outcome: Outcome) -> (r: Report)
    ensures
        r@ == plain(model@, outcome@),
{
    Report { model: model.to_owned(), outcome, tokens_saved: 0, saved_micros: 0 }
}

/// A response whose body is streamed to the client.
pub struct StreamedReply {
    pub status: u16,
    pub headers: Vec<Header>,
    pub tee: Tee,
    pub report: Report,
}

/// A streamed response as mathematics.
pub ghost struct StreamedView {
    pub status: u16,
    pub headers: Seq<HeaderView>,
    pub tee: TeeView,
    pub report: ReportView,
}

impl View for StreamedReply {
    type V = StreamedView;

    open spec fn view(&self) -> StreamedView {
        StreamedView {
            status: self.status,
            headers: headers_view(self.headers@),
            tee: self.tee@,
            report: self.report@,
        }
    }
}

/// The response to a streaming miss. Only a 200 is captured.
pub open spec fn streamed_miss(
    model: Seq<char>,
    canonical: Seq<char>,
    status: u16,
    upstream: Seq<HeaderView>,
) -> StreamedView {
    StreamedView {
        status,
        headers: miss_headers(upstream),
        tee: TeeView::fresh(
            if status == 200 {
                Some(
                    CaptureView {
                        body: Seq::empty(),
                        model,
                        canonical,
                        status,
                        headers: travelling(
                            Passage::Stored,
                            travelling(Passage::Reframed, upstream),
                        ),
                    },
                )
            } else {
                None
            },
        ),
        report: plain(model, OutcomeView::Miss),
    }
}

/// Opens the tee of a streaming miss once the upstream's response head is there.
pub fn open_stream(model: &str, canonical: &str, status: u16, upstream: &Vec<Header>) -> (r:
    StreamedReply)
    ensures
        r@ == streamed_miss(model@, canonical@, status, headers_view(upstream@)),
        r.tee.wf(),
{
    let mut headers = collect_response_headers(upstream);
    let capture = if status == 200 {
        Some(Capture::new(model, canonical, status, cacheable_headers(&headers)))
    } else {
        None
    };
    set_cache_header(&mut headers, CacheTag::Miss);
    StreamedReply {
        status,
        headers,
        tee: Tee::new(capture),
        report: plain_report(model, Outcome::Miss),
    }
}

/// The response to a request that is not cacheable: it is streamed, and never
/// captured.
pub open spec fn bypassed(status: u16, upstream: Seq<HeaderView>) -> StreamedView {
    StreamedView {
        status,
        headers: stamped(travelling(Passage::Through, upstream), CacheTag::Bypass),
        tee: TeeView::fresh(None),
        report: plain(Seq::empty(), OutcomeView::Bypass),
    }
}

/// Passes a response through that is not cacheable.
pub fn pass_through(status: u16, upstream: &Vec<Header>) -> (r: StreamedReply)
    ensures
        r@ == bypassed(status, headers_view(upstream@)),
        r.tee.wf(),
{
    let mut headers: Vec<Header> = Vec::new();
    copy_response_headers(upstream, &mut headers);
    assert(headers_view(headers@) =~= travelling(Passage::Through, headers_view(upstream@)));
    set_cache_header(&mut headers, CacheTag::Bypass);
    proof {
        reveal_strlit("");
        assert(""@ =~= Seq::<char>::empty());
    }
    StreamedReply {
        status,
        headers,
        tee: Tee::new(None),
        report: plain_report("", Outcome::Bypass),
    }
}

/// What becomes of a request once the cache was asked.
pub enum Decision {
    /// Served from the cache, by `serve_hit`.
    Serve { model: String, canonical: String, format: ResponseFormat, hit: CacheHit },
    /// Forwarded, and stored if the answer may be.
    Miss { model: String, canonical: String, format: ResponseFormat },
    /// Forwarded, and never stored.
    Bypass,
}

/// What becomes of a request, as mathematics.
pub ghost enum DecisionView {
    Serve { model: Seq<char>, canonical: Seq<char>, format: ResponseFormat, hit: HitView },
    Miss { model: Seq<char>, canonical: Seq<char>, format: ResponseFormat },
    Bypass,
}

impl View for Decision {
    type V = DecisionView;

    open spec fn view(&self) -> DecisionView {
        match self {
            Decision::Serve { model, canonical, format, hit } => DecisionView::Serve {
                model: model@,
                canonical: canonical@,
                format: *format,
                hit: hit@,
            },
            Decision::Miss { model, canonical, format } => DecisionView::Miss {
                model: model@,
                canonical: canonical@,
                format: *format,
            },
            Decision::Bypass => DecisionView::Bypass,
        }
    }
}

/// What becomes of a planned request, given what the cache answers.
pub open spec fn decided(plan: PlanView, answer: Option<HitView>) -> DecisionView {
    match plan {
        PlanView::Cacheable { model, canonical, format } => match answer {
            Some(hit) => DecisionView::Serve { model, canonical, format, hit },
            None => DecisionView::Miss { model, canonical, format },
        },
        PlanView::Bypass => DecisionView::Bypass,
    }
}

/// Asks the cache about a planned request. A request that is not cacheable is not
/// looked up. `score` gives the similarity of the prompt to a stored embedding.
pub fn decide<E, F: Fn(&E) -> Score>(
    plan: CachePlan,
    cache: &SemanticCache<E>,
    now: u128,
    score: F,
) -> (r: Decision)
    requires
        forall|e: &E| call_requires(score, (e,)),
    ensures
        exists|answer: Option<HitView>|
            {
                &&& r@ == #[trigger] decided(plan@, answer)
                &&& plan@ matches PlanView::Cacheable { model, canonical, format } ==> answers(
                    score,
                    cache@,
                    model,
                    canonical,
                    format,
                    now,
                    answer,
                )
            },
{
    let ghost wanted = plan@;
    match plan {
        CachePlan::Cacheable { model, canonical, format } => {
            match cache.lookup(model.as_str(), canonical.as_str(), format, now, score) {
                Some(hit) => {
                    let ghost answer = Some(hit@);
                    let r = Decision::Serve { model, canonical, format, hit };
                    assert(r@ == decided(wanted, answer));
                    r
                },
                None => {
                    let ghost answer: Option<HitView> = None;
                    let r = Decision::Miss { model, canonical, format };
                    assert(r@ == decided(wanted, answer));
                    r
                },
            }
        },
        CachePlan::Bypass => {
            let ghost answer: Option<HitView> = None;
            let r = Decision::Bypass;
            assert(r@ == decided(wanted, answer));
            r
        },
    }
}

/// How the upstream's response is handed on.
pub enum Relay {
    /// Read to its end first, then finished by `finish_miss`.
    Buffered,
    /// Streamed as it comes.
    Streamed(StreamedReply),
}

/// How the upstream's response is handed on, as mathematics.
pub ghost enum RelayView {
    Buffered,
    Streamed(StreamedView),
}

impl View for Relay {
    type V = RelayView;

    open spec fn view(&self) -> RelayView {
        match self {
            Relay::Buffered => RelayView::Buffered,
            Relay::Streamed(s) => RelayView::Streamed(s@),
        }
    }
}

/// How the upstream's response to a request is handed on: nothing was sent
/// upstream for one that is served.
pub open spec fn relayed(
    decision: DecisionView,
    status: u16,
    upstream: Seq<HeaderView>,
) -> Option<RelayView> {
    match decision {
        DecisionView::Serve { .. } => None,
        DecisionView::Miss { model, canonical, format } => match format {
            ResponseFormat::NonStreaming => Some(RelayView::Buffered),
            ResponseFormat::Streaming => Some(
                RelayView::Streamed(streamed_miss(model, canonical, status, upstream)),
            ),
        },
        DecisionView::Bypass => Some(RelayView::Streamed(bypassed(status, upstream))),
    }
}

/// The view of an optional relay.
pub open spec fn relay_view(r: Option<Relay>) -> Option<RelayView> {
    match r {
        Some(x) => Some(x@),
        None => None,
    }
}

/// Decides how the upstream's response is handed on, once its head is there.
pub fn relay(decision: &Decision, status: u16, upstream: &Vec<Header>) -> (r: Option<Relay>)
    ensures
        relay_view(r) == relayed(decision@, status, headers_view(upstream@)),
        r matches Some(Relay::Streamed(s)) ==> s.tee.wf(),
{
    match decision {
        Decision::Serve { .. } => None,
        Decision::Miss { model, canonical, format } => match format {
            ResponseFormat::NonStreaming => Some(Relay::Buffered),
            ResponseFormat::Streaming => Some(
                Relay::Streamed(
                    open_stream(model.as_str(), canonical.as_str(), status, upstream),
                ),
            ),
        },
        Decision::Bypass => Some(Relay::Streamed(pass_through(status, upstream))),
    }
}

/// What a request meets besides its own head: its body as JSON, the cache's answer,
/// the similarity as text and the micro-dollars saved, and the upstream's response.
pub ghost struct Exchange {
    pub request: Option<JsonView>,
    pub answer: Option<HitView>,
    pub score: Seq<char>,
    pub saved_micros: u64,
    pub status: u16,
    pub upstream: Seq<HeaderView>,
    pub body: Seq<u8>,
}

/// What a request leaves behind: the reply to the client, what is recorded for the
/// dashboard, and what is stored.
pub ghost enum Effect {
    Dashboard(Route),
    Served { reply: ReplyView, report: ReportView },
    Buffered { reply: ReplyView, store: Option<ResponseView>, report: ReportView },
    Streamed(StreamedView),
    Nothing,
}

/// What a request leaves behind, by the steps of `intake`, `decide`, `serve_hit`,
/// `relay` and `finish_miss`.
pub open spec fn effect(base: Seq<char>, head: HeadView, met: Exchange) -> Effect {
    match taken_in(base, head) {
        IntakeView::Dashboard(to) => Effect::Dashboard(to),
        IntakeView::Forward { .. } => {
            let decision = decided(plan_for_body(met.request), met.answer);
            match decision {
                DecisionView::Serve { model, canonical, format, hit } => Effect::Served {
                    reply: hit_reply(hit, format, met.score),
                    report: ReportView {
                        model,
                        outcome: hit_outcome(hit),
                        tokens_saved: tokens_of(
                            canonical.len(),
                            answer_chars(hit.response.body, format),
                        ) as u64,
                        saved_micros: met.saved_micros,
                    },
                },
                DecisionView::Miss { model, .. } => match relayed(
                    decision,
                    met.status,
                    met.upstream,
                ) {
                    Some(RelayView::Buffered) => Effect::Buffered {
                        reply: ReplyView {
                            status: met.status,
                            headers: miss_headers(met.upstream),
                            body: BodyView::Whole(met.body),
                        },
                        store: stored_response(met.status, met.upstream, met.body),
                        report: plain(model, OutcomeView::Miss),
                    },
                    Some(RelayView::Streamed(s)) => Effect::Streamed(s),
                    None => Effect::Nothing,
                },
                DecisionView::Bypass => match relayed(decision, met.status, met.upstream) {
                    Some(RelayView::Streamed(s)) => Effect::Streamed(s),
                    _ => Effect::Nothing,
                },
            }
        },
    }
}

/// Credentials bear on nothing but the request that is sent upstream: two requests
/// with the same method and path, whatever their queries and headers, the
/// `authorization` header among them, are answered, recorded and stored alike when
/// the rest of what they meet is the same. A request always leaves something behind.
pub proof fn law_credentials_bear_on_the_upstream_request_alone(
    base: Seq<char>,
    a: HeadView,
    b: HeadView,
    met: Exchange,
)
    requires
        a.method == b.method,
        a.path == b.path,
    ensures
        effect(base, a, met) == effect(base, b, met),
        taken_in(base, a) is Forward <==> taken_in(base, b) is Forward,
        !(effect(base, a, met) is Nothing),
{
}

/// Every reply carries exactly one `X-Cachet` header, with its status, whatever
/// the upstream sent; a hit carries exactly one layer header too.
pub proof fn law_replies_are_stamped_once(
    headers: Seq<HeaderView>,
    tag: CacheTag,
    hit: HitView,
    score: Seq<char>,
)
    ensures
        named(stamped(headers, tag), "x-cachet"@) == seq![
            text_header("x-cachet"@, tag.spec_str()),
        ],
        named(hit_headers(hit, score), "x-cachet"@) == seq![
            text_header("x-cachet"@, "hit"@),
        ],
        named(hit_headers(hit, score), "x-cachet-layer"@) == seq![
            text_header("x-cachet-layer"@, hit.layer.spec_str()),
        ],
{
    let name = "x-cachet"@;
    reveal_strlit("x-cachet");
    reveal_strlit("x-cachet-score");
    reveal_strlit("x-cachet-layer");
    law_set_header(headers, text_header(name, tag.spec_str()), name);
    let first = stamped(hit.response.headers, CacheTag::Hit);
    law_set_header(hit.response.headers, text_header(name, "hit"@), name);
    let second = if header_safe(encode_utf8(score)) {
        replaced(first, text_header("x-cachet-score"@, score))
    } else {
        first
    };
    law_set_header(first, text_header("x-cachet-score"@, score), name);
    let layer = text_header("x-cachet-layer"@, hit.layer.spec_str());
    assert(name.len() != "x-cachet-score"@.len());
    assert(name.len() != "x-cachet-layer"@.len());
    law_set_header(second, layer, name);
    law_set_header(second, layer, "x-cachet-layer"@);
}

/// No cookie, hop-by-hop header or stale length is ever stored.
pub proof fn law_stored_headers_are_safe_to_replay(upstream: Seq<HeaderView>)
    ensures
        ({
            let stored = travelling(Passage::Stored, travelling(Passage::Reframed, upstream));
            forall|i: int|
                0 <= i < stored.len() ==> !uncacheable((#[trigger] stored[i]).name) && !hop_by_hop(
                    stored[i].name,
                ) && stored[i].name != "content-length"@ && upstream.contains(stored[i])
        }),
{
    let middle = travelling(Passage::Reframed, upstream);
    let stored = travelling(Passage::Stored, middle);
    law_only_travelling_headers_arrive(Passage::Reframed, upstream);
    law_only_travelling_headers_arrive(Passage::Stored, middle);
    assert forall|i: int| 0 <= i < stored.len() implies !uncacheable(
        (#[trigger] stored[i]).name,
    ) && !hop_by_hop(stored[i].name) && stored[i].name != "content-length"@ && upstream.contains(
        stored[i],
    ) by {
        assert(middle.contains(stored[i]));
        let j = middle.index_of(stored[i]);
        assert(travels(Passage::Reframed, middle[j].name));
    }
}

/// Only complete, successful answers to cacheable requests are stored: nothing of a
/// bypassed request, of a response other than a 200, or of one beyond the limit,
/// whatever chunks it comes in.
pub proof fn law_nothing_else_is_stored(
    model: Seq<char>,
    canonical: Seq<char>,
    status: u16,
    upstream: Seq<HeaderView>,
    chunks: Seq<Seq<u8>>,
)
    ensures
        fed(bypassed(status, upstream).tee, chunks).commits() is None,
        status != 200 || concat(chunks).len() > MAX_CACHEABLE_RESPONSE_BYTES ==> {
            &&& stored_response(status, upstream, concat(chunks)) is None
            &&& fed(
                streamed_miss(model, canonical, status, upstream).tee,
                chunks,
            ).commits() is None
        },
{
    let tee = streamed_miss(model, canonical, status, upstream).tee;
    law_dropped_or_uncaptured_stream_is_never_committed(tee, chunks);
    if status == 200 {
        law_clean_end_commits_the_whole_stream(tee.capture->0, chunks);
    }
}

/// A repeated request is served from the cache: once a buffered answer to a miss is
/// stored, the same request hits the exact layer, until the entry expires or newer
/// ones fill the cache, and is answered with the upstream's status and body, stamped
/// as a hit.
pub proof fn law_repeated_request_replays_the_answer<E>(
    cache: CacheView<E>,
    model: Seq<char>,
    canonical: Seq<char>,
    upstream: Seq<HeaderView>,
    body: Seq<u8>,
    embedding: E,
    created: u128,
    now: u128,
    later: u128,
    score: Seq<char>,
) -> (hit: HitView)
    requires
        newer_than(
            cache.survivors(request_key(model, canonical, ResponseFormat::NonStreaming), now),
            created,
        ) < cache.config.max_entries,
        later - created < cache.config.ttl,
        0 < cache.config.ttl,
        body.len() <= MAX_CACHEABLE_RESPONSE_BYTES,
    ensures
        stored_response(200, upstream, body) matches Some(stored) && cache.inserted(
            CacheView::entry_for(model, canonical, stored, embedding, created),
            now,
        ).exact_hit(model, canonical, ResponseFormat::NonStreaming, later) == Some(hit),
        hit_reply(hit, ResponseFormat::NonStreaming, score).status == 200,
        hit_reply(hit, ResponseFormat::NonStreaming, score).body == BodyView::Whole(body),
        named(
            hit_reply(hit, ResponseFormat::NonStreaming, score).headers,
            "x-cachet"@,
        ) == seq![text_header("x-cachet"@, "hit"@)],
{
    let stored = stored_response(200, upstream, body)->0;
    law_insert_then_lookup(
        cache,
        model,
        canonical,
        stored,
        embedding,
        created,
        now,
        model,
        canonical,
        later,
    );
    let hit = cache.inserted(
        CacheView::entry_for(model, canonical, stored, embedding, created),
        now,
    ).exact_hit(model, canonical, ResponseFormat::NonStreaming, later)->0;
    law_replies_are_stamped_once(stored.headers, CacheTag::Hit, hit, score);
    hit
}

/// A repeated streaming request is served from the cache: once a stream has ended
/// cleanly and within the limit, what it commits is found by the same request,
/// until the entry expires or newer ones fill the cache, and is replayed byte for
/// byte, stamped as a hit.
pub proof fn law_repeated_stream_replays_the_bytes<E>(
    cache: CacheView<E>,
    start: CaptureView,
    chunks: Seq<Seq<u8>>,
    embedding: E,
    created: u128,
    now: u128,
    later: u128,
    score: Seq<char>,
) -> (hit: HitView)
    requires
        newer_than(
            cache.survivors(
                request_key(start.model, start.canonical, ResponseFormat::Streaming),
                now,
            ),
            created,
        ) < cache.config.max_entries,
        later - created < cache.config.ttl,
        0 < cache.config.ttl,
        start.body.len() == 0,
        concat(chunks).len() <= MAX_CACHEABLE_RESPONSE_BYTES,
    ensures
        fed(TeeView::fresh(Some(start)), chunks).commits() matches Some(done) && cache.inserted(
            CacheView::entry_for(
                done.model,
                done.canonical,
                done.response(),
                embedding,
                created,
            ),
            now,
        ).exact_hit(start.model, start.canonical, ResponseFormat::Streaming, later) == Some(hit),
        hit_reply(hit, ResponseFormat::Streaming, score).status == start.status,
        hit_reply(hit, ResponseFormat::Streaming, score).body matches BodyView::Events(list)
            && concat(list) == concat(chunks),
        named(
            hit_reply(hit, ResponseFormat::Streaming, score).headers,
            "x-cachet"@,
        ) == seq![text_header("x-cachet"@, "hit"@)],
{
    law_clean_end_commits_the_whole_stream(start, chunks);
    let done = fed(TeeView::fresh(Some(start)), chunks).commits()->0;
    law_insert_then_lookup(
        cache,
        done.model,
        done.canonical,
        done.response(),
        embedding,
        created,
        now,
        start.model,
        start.canonical,
        later,
    );
    law_events_concatenate_to_the_stream(done.body);
    let hit = cache.inserted(
        CacheView::entry_for(done.model, done.canonical, done.response(), embedding, created),
        now,
    ).exact_hit(start.model, start.canonical, ResponseFormat::Streaming, later)->0;
    law_replies_are_stamped_once(done.headers, CacheTag::Hit, hit, score);
    hit
}

/// A hit replays the stored headers, whatever its format: those of every name but the
/// three that tell of the cache are the stored ones, in order. Of these three there is
/// the status, the layer, and the score where it can stand in a header.
pub proof fn law_hit_replays_the_stored_headers(
    hit: HitView,
    format: ResponseFormat,
    score: Seq<char>,
    name: Seq<char>,
)
    ensures
        ({
            let sent = hit_reply(hit, format, score).headers.filter(|h: HeaderView| h.name == name);
            let stored = hit.response.headers.filter(|h: HeaderView| h.name == name);
            if name == "x-cachet"@ {
                sent == seq![HeaderView { name, value: encode_utf8("hit"@) }]
            } else if name == "x-cachet-layer"@ {
                sent == seq![
                    HeaderView {
                        name,
                        value: encode_utf8(
                            match hit.layer {
                                HitLayer::Exact => "exact"@,
                                HitLayer::Semantic => "semantic"@,
                            },
                        ),
                    },
                ]
            } else if name == "x-cachet-score"@ && (forall|i: int|
                0 <= i < encode_utf8(score).len() ==> (32 <= #[trigger] encode_utf8(score)[i]
                    && encode_utf8(score)[i] != 127) || encode_utf8(score)[i] == 9) {
                sent == seq![HeaderView { name, value: encode_utf8(score) }]
            } else {
                sent == stored
            }
        }),
{
    reveal_strlit("x-cachet");
    reveal_strlit("x-cachet-score");
    reveal_strlit("x-cachet-layer");
    assert("x-cachet"@.len() != "x-cachet-score"@.len());
    assert("x-cachet"@.len() != "x-cachet-layer"@.len());
    assert("x-cachet-score"@[9] != "x-cachet-layer"@[9]);
    let status = text_header("x-cachet"@, "hit"@);
    let first = replaced(hit.response.headers, status);
    law_set_header(hit.response.headers, status, name);
    let told = text_header("x-cachet-score"@, score);
    law_set_header(first, told, name);
    let second = if header_safe(encode_utf8(score)) {
        replaced(first, told)
    } else {
        first
    };
    law_set_header(second, text_header("x-cachet-layer"@, hit.layer.spec_str()), name);
}

/// A hit is answered with the stored status and the stored bytes, whole or event by
/// event as the format has it.
pub proof fn law_hit_replays_the_stored_body(hit: HitView, score: Seq<char>)
    ensures
        hit_reply(hit, ResponseFormat::NonStreaming, score).status == hit.response.status,
        hit_reply(hit, ResponseFormat::NonStreaming, score).body == BodyView::Whole(
            hit.response.body,
        ),
        hit_reply(hit, ResponseFormat::Streaming, score).status == hit.response.status,
        hit_reply(hit, ResponseFormat::Streaming, score).body matches BodyView::Events(list)
            && concat(list) == hit.response.body,
        hit_reply(hit, ResponseFormat::Streaming, score).body == BodyView::Events(
            events(hit.response.body),
        ),
{
    law_events_concatenate_to_the_stream(hit.response.body);
}

/// What a reply to a miss, a stored response and a response that is passed through keep
/// of the upstream's headers, name by name: all of a name or none, in order. Besides,
/// replies tell their status.
pub proof fn law_upstream_headers_are_kept(
    model: Seq<char>,
    canonical: Seq<char>,
    status: u16,
    upstream: Seq<HeaderView>,
    body: Seq<u8>,
    name: Seq<char>,
)
    ensures
        ({
            let there = upstream.filter(|h: HeaderView| h.name == name);
            let replied = miss_headers(upstream).filter(|h: HeaderView| h.name == name);
            if name == "x-cachet"@ {
                replied == seq![HeaderView { name, value: encode_utf8("miss"@) }]
            } else if hop_by_hop(name) || name == "content-length"@ {
                replied == Seq::<HeaderView>::empty()
            } else {
                replied == there
            }
        }),
        ({
            let there = upstream.filter(|h: HeaderView| h.name == name);
            let passed = bypassed(status, upstream).headers.filter(|h: HeaderView| h.name == name);
            if name == "x-cachet"@ {
                passed == seq![HeaderView { name, value: encode_utf8("bypass"@) }]
            } else if hop_by_hop(name) {
                passed == Seq::<HeaderView>::empty()
            } else {
                passed == there
            }
        }),
        stored_response(status, upstream, body) matches Some(stored) ==> {
            let there = upstream.filter(|h: HeaderView| h.name == name);
            let kept = stored.headers.filter(|h: HeaderView| h.name == name);
            if hop_by_hop(name) || name == "content-length"@ || name == "set-cookie"@ || name
                == "set-cookie2"@ {
                kept == Seq::<HeaderView>::empty()
            } else {
                kept == there
            }
        },
        streamed_miss(model, canonical, status, upstream).tee.capture matches Some(c) ==> {
            let there = upstream.filter(|h: HeaderView| h.name == name);
            let kept = c.headers.filter(|h: HeaderView| h.name == name);
            if hop_by_hop(name) || name == "content-length"@ || name == "set-cookie"@ || name
                == "set-cookie2"@ {
                kept == Seq::<HeaderView>::empty()
            } else {
                kept == there
            }
        },
{
    reveal(Seq::filter);
    let framed = travelling(Passage::Reframed, upstream);
    let through = travelling(Passage::Through, upstream);
    law_headers_travel_by_name(Passage::Reframed, upstream, name);
    law_headers_travel_by_name(Passage::Through, upstream, name);
    law_headers_travel_by_name(Passage::Stored, framed, name);
    law_set_header(framed, text_header("x-cachet"@, "miss"@), name);
    law_set_header(through, text_header("x-cachet"@, "bypass"@), name);
}

/// What the headers sent upstream are, name by name: those of the client, in order, but
/// for hop-by-hop headers, the host and the length. The path and query follow the base
/// as they are. A reserved path is not forwarded.
pub proof fn law_requests_are_forwarded_as_they_are(
    base: Seq<char>,
    head: HeadView,
    name: Seq<char>,
)
    ensures
        reserved(head.path) ==> taken_in(base, head) == IntakeView::Dashboard(
            route_of(head.method, head.path),
        ),
        !reserved(head.path) ==> (taken_in(base, head) matches IntakeView::Forward { url, headers }
            && url == base + (match head.path_and_query {
            Some(pq) => pq,
            None => "/"@,
        }) && headers.filter(|h: HeaderView| h.name == name) == if hop_by_hop(name) || name
            == "host"@ || name == "content-length"@ {
            Seq::<HeaderView>::empty()
        } else {
            head.headers.filter(|h: HeaderView| h.name == name)
        }),
{
    law_headers_travel_by_name(Passage::Upstream, head.headers, name);
}

/// What is stored of a buffered answer: its status, its bytes and its format; and it is
/// stored exactly if it is a 200 of at most eight mebibytes.
pub proof fn law_stored_response(status: u16, upstream: Seq<HeaderView>, body: Seq<u8>)
    ensures
        stored_response(status, upstream, body) is Some <==> status == 200 && body.len()
            <= 8_388_608,
        stored_response(status, upstream, body) matches Some(stored) ==> stored.status == status
            && stored.body == body && stored.format == ResponseFormat::NonStreaming,
{
}

/// What is captured of a streamed answer: nothing at first, under the model and prompt of
/// the request and with the answer's status; and it is captured exactly if it is a 200.
/// What is passed through is never captured. Both are answered with the upstream's
/// status, and recorded as a miss and as a bypass that saved nothing.
pub proof fn law_streamed_responses(
    model: Seq<char>,
    canonical: Seq<char>,
    status: u16,
    upstream: Seq<HeaderView>,
)
    ensures
        ({
            let miss = streamed_miss(model, canonical, status, upstream);
            &&& miss.status == status
            &&& miss.headers == miss_headers(upstream)
            &&& miss.tee.capture is Some <==> status == 200
            &&& miss.tee.capture matches Some(c) ==> c.body.len() == 0 && c.model == model
                && c.canonical == canonical && c.status == status
            &&& !miss.tee.errored && miss.tee.pending
            &&& miss.report.model == model
            &&& miss.report.outcome is Miss
            &&& miss.report.tokens_saved == 0 && miss.report.saved_micros == 0
        }),
        ({
            let passed = bypassed(status, upstream);
            &&& passed.status == status
            &&& passed.tee.capture is None
            &&& !passed.tee.errored && passed.tee.pending
            &&& passed.report.model.len() == 0
            &&& passed.report.outcome is Bypass
            &&& passed.report.tokens_saved == 0 && passed.report.saved_micros == 0
        }),
{
}

/// What becomes of a request follows from its plan and from the cache's answer alone: a
/// cacheable one is served whatever hit there is, in its own format, and is a miss only
/// where there is none; any other is passed on.
pub proof fn law_decided(
    model: Seq<char>,
    canonical: Seq<char>,
    format: ResponseFormat,
    hit: HitView,
    answer: Option<HitView>,
)
    ensures
        ({
            let plan = PlanView::Cacheable { model, canonical, format };
            &&& decided(plan, Some(hit)) == (DecisionView::Serve { model, canonical, format, hit })
            &&& decided(plan, None) == (DecisionView::Miss { model, canonical, format })
        }),
        decided(PlanView::Bypass, answer) is Bypass,
{
}

/// How an upstream's response is handed on: a miss is buffered or streamed as its format
/// has it, and what is not cacheable is passed through.
pub proof fn law_relayed(
    model: Seq<char>,
    canonical: Seq<char>,
    format: ResponseFormat,
    hit: HitView,
    status: u16,
    upstream: Seq<HeaderView>,
)
    ensures
        relayed(
            DecisionView::Serve { model, canonical, format, hit },
            status,
            upstream,
        ) is None,
        relayed(
            DecisionView::Miss { model, canonical, format: ResponseFormat::NonStreaming },
            status,
            upstream,
        ) == Some(RelayView::Buffered),
        relayed(
            DecisionView::Miss { model, canonical, format: ResponseFormat::Streaming },
            status,
            upstream,
        ) == Some(RelayView::Streamed(streamed_miss(model, canonical, status, upstream))),
        relayed(DecisionView::Bypass, status, upstream) == Some(
            RelayView::Streamed(bypassed(status, upstream)),
        ),
{
}

/// What is recorded of a hit: its layer by name, and the similarity of a semantic one;
/// and it saves a token for each four characters of the prompt and of the answer.
pub proof fn law_hits_are_recorded(hit: HitView, prompt: nat, answer: nat)
    ensures
        hit_outcome(hit) matches OutcomeView::Hit { layer, similarity } && layer == (
        match hit.layer {
            HitLayer::Exact => "exact"@,
            HitLayer::Semantic => "semantic"@,
        }) && similarity == (match hit.layer {
            HitLayer::Exact => None,
            HitLayer::Semantic => Some(hit.similarity),
        }),
        4 * tokens_of(prompt, answer) <= prompt + answer < 4 * tokens_of(prompt, answer) + 7,
        tokens_of(prompt, answer) == prompt / 4 + answer / 4,
        CHARS_PER_TOKEN == 4,
{
}

/// What a reply that saved nothing is recorded as.
pub proof fn law_plain_report(model: Seq<char>, outcome: OutcomeView)
    ensures
        plain(model, outcome).model == model,
        plain(model, outcome).outcome == outcome,
        plain(model, outcome).tokens_saved == 0,
        plain(model, outcome).saved_micros == 0,
{
}

/// A text may stand in a header by its bytes, one by one: none is a control character,
/// but for the tab.
pub proof fn law_header_safe(a: Seq<u8>, byte: u8, b: Seq<u8>)
    ensures
        header_safe(Seq::empty()),
        header_safe(seq![byte]) <==> (32 <= byte && byte != 127) || byte == 9,
        header_safe(a + b) <==> header_safe(a) && header_safe(b),
{
    let all = a + b;
    assert(seq![byte][0] == byte);
    if header_safe(a) && header_safe(b) {
        assert forall|i: int| 0 <= i < all.len() implies ((#[trigger] all[i]) >= 32 && all[i] != 127)
            || all[i] == 9 by {
            if i < a.len() {
                assert(all[i] == a[i]);
            } else {
                assert(all[i] == b[i - a.len()]);
            }
        }
    }
    if header_safe(all) {
        assert forall|i: int| 0 <= i < a.len() implies ((#[trigger] a[i]) >= 32 && a[i] != 127)
            || a[i] == 9 by {
            assert(all[i] == a[i]);
        }
        assert forall|i: int| 0 <= i < b.len() implies ((#[trigger] b[i]) >= 32 && b[i] != 127)
            || b[i] == 9 by {
            assert(all[i + a.len()] == b[i]);
        }
    }
}

/// The names of the statuses that replies are stamped with, and what stamping does.
pub proof fn law_stamps(headers: Seq<HeaderView>, tag: CacheTag)
    ensures
        stamped(headers, tag).last() == (HeaderView {
            name: "x-cachet"@,
            value: encode_utf8(
                match tag {
                    CacheTag::Hit => "hit"@,
                    CacheTag::Miss => "miss"@,
                    CacheTag::Bypass => "bypass"@,
                },
            ),
        }),
        stamped(headers, tag).drop_last() == headers.filter(|h: HeaderView| h.name != "x-cachet"@),
{
    law_set_header_stands_last(headers, text_header("x-cachet"@, tag.spec_str()));
}

/// The score and the layer of a hit are the only headers that diagnostics touch: those of
/// every other name stay as they were, in order.
pub proof fn law_diagnostics(
    headers: Seq<HeaderView>,
    score: Seq<char>,
    layer: Seq<char>,
    name: Seq<char>,
)
    ensures
        ({
            let after = diagnosed(headers, score, layer).filter(|h: HeaderView| h.name == name);
            let before = headers.filter(|h: HeaderView| h.name == name);
            if name == "x-cachet-layer"@ {
                after == seq![HeaderView { name, value: encode_utf8(layer) }]
            } else if name == "x-cachet-score"@ && header_safe(encode_utf8(score)) {
                after == seq![HeaderView { name, value: encode_utf8(score) }]
            } else {
                after == before
            }
        }),
{
    reveal_strlit("x-cachet-score");
    reveal_strlit("x-cachet-layer");
    assert("x-cachet-score"@[9] != "x-cachet-layer"@[9]);
    let told = text_header("x-cachet-score"@, score);
    law_set_header(headers, told, name);
    let scored = if header_safe(encode_utf8(score)) {
        replaced(headers, told)
    } else {
        headers
    };
    law_set_header(scored, text_header("x-cachet-layer"@, layer), name);
}

/// The views of replies, reports and streamed responses show all of them.
pub proof fn law_reply_views(reply: Reply, report: Report, streamed: StreamedReply)
    ensures
        reply@.status == reply.status,
        reply@.headers == headers_view(reply.headers@),
        reply.body matches ReplyBody::Whole(b) ==> reply@.body == BodyView::Whole(content(b)),
        reply.body matches ReplyBody::Events(list) ==> reply@.body == BodyView::Events(
            contents(list@),
        ),
        report@.model == report.model@ && report@.outcome == report.outcome@,
        report@.tokens_saved == report.tokens_saved && report@.saved_micros == report.saved_micros,
        streamed@.status == streamed.status,
        streamed@.headers == headers_view(streamed.headers@),
        streamed@.tee == streamed.tee@,
        streamed@.report == streamed.report@,
{
}

/// The views of the decisions on a request show all of them.
pub proof fn law_decision_views(
    taken: Intake,
    decision: Decision,
    relay: Relay,
    response: CachedResponse,
)
    ensures
        taken matches Intake::Dashboard(to) ==> taken@ == IntakeView::Dashboard(to),
        taken matches Intake::Forward(call) ==> taken@ == (IntakeView::Forward {
            url: call.url@,
            headers: headers_view(call.headers@),
        }),
        decision matches Decision::Serve { model, canonical, format, hit } ==> decision@
            == (DecisionView::Serve { model: model@, canonical: canonical@, format, hit: hit@ }),
        decision matches Decision::Miss { model, canonical, format } ==> decision@
            == (DecisionView::Miss { model: model@, canonical: canonical@, format }),
        decision is Bypass ==> decision@ is Bypass,
        relay is Buffered ==> relay@ is Buffered,
        relay matches Relay::Streamed(s) ==> relay@ == RelayView::Streamed(s@),
        relay_view(Some(relay)) == Some(relay@),
        relay_view(None) is None,
        response_view(Some(response)) == Some(response@),
        response_view(None) is None,
{
}

/// The order of headers is kept across their names: leaving aside the headers that tell
/// of the cache, a hit sends the stored headers as they stand, and a miss and a response
/// that is passed through send what travels of the upstream's. What is stored is what
/// travels on from a reply to a miss.
pub proof fn law_header_order_is_kept(
    hit: HitView,
    format: ResponseFormat,
    score: Seq<char>,
    status: u16,
    upstream: Seq<HeaderView>,
    body: Seq<u8>,
)
    ensures
        ({
            let own = |h: HeaderView|
                h.name != "x-cachet"@ && h.name != "x-cachet-score"@ && h.name
                    != "x-cachet-layer"@;
            hit_reply(hit, format, score).headers.filter(own) == hit.response.headers.filter(own)
        }),
        ({
            let own = |h: HeaderView| h.name != "x-cachet"@;
            &&& miss_headers(upstream).filter(own) == travelling(Passage::Reframed, upstream).filter(
                own,
            )
            &&& bypassed(status, upstream).headers.filter(own) == travelling(
                Passage::Through,
                upstream,
            ).filter(own)
        }),
        stored_response(status, upstream, body) matches Some(stored) ==> stored.headers
            == travelling(Passage::Stored, travelling(Passage::Reframed, upstream)),
{
    let own = |h: HeaderView|
        h.name != "x-cachet"@ && h.name != "x-cachet-score"@ && h.name != "x-cachet-layer"@;
    let status_header = text_header("x-cachet"@, "hit"@);
    let first = replaced(hit.response.headers, status_header);
    law_set_header_keeps_the_others(hit.response.headers, status_header, own);
    let told = text_header("x-cachet-score"@, score);
    law_set_header_keeps_the_others(first, told, own);
    let second = if header_safe(encode_utf8(score)) {
        replaced(first, told)
    } else {
        first
    };
    law_set_header_keeps_the_others(
        second,
        text_header("x-cachet-layer"@, hit.layer.spec_str()),
        own,
    );
    let other = |h: HeaderView| h.name != "x-cachet"@;
    law_set_header_keeps_the_others(
        travelling(Passage::Reframed, upstream),
        text_header("x-cachet"@, "miss"@),
        other,
    );
    law_set_header_keeps_the_others(
        travelling(Passage::Through, upstream),
        text_header("x-cachet"@, "bypass"@),
        other,
    );
}

} // verus!
