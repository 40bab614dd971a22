//! Event streams: cutting a captured stream into events for replay, and capturing
//! a stream while it passes by.
use crate::buffer::{as_slice, buffer, content, extend, freeze, from_text, share, slice, written};
use crate::cache::{CacheView, CachedResponse, ResponseFormat, ResponseView, SemanticCache};
use crate::headers::{headers_view, Header, HeaderView};
use crate::text::str_view;
use bytes::Bytes;
use vstd::prelude::*;
use vstd::utf8::encode_utf8;

verus! {

/// The newline byte.
pub const NEWLINE: u8 = 10;

/// Whether an empty line ends at `i + 1`: two newlines stand at `i` and `i + 1`.
pub open spec fn is_break(data: Seq<u8>, i: int) -> bool {
    0 <= i && i + 1 < data.len() && data[i] == NEWLINE && data[i + 1] == NEWLINE
}

/// The first place of two newlines in a row, if there is one.
pub open spec fn first_break(data: Seq<u8>) -> Option<int>
    decreases data.len(),
{
    if data.len() == 0 {
        None
    } else if is_break(data, 0) {
        Some(0)
    } else {
        match first_break(data.drop_first()) {
            Some(i) => Some(i + 1),
            None => None,
        }
    }
}

/// What `first_break` returns: the first break.
pub proof fn lemma_first_break(data: Seq<u8>)
    ensures
        match first_break(data) {
            Some(i) => is_break(data, i) && forall|j: int| 0 <= j < i ==> !is_break(data, j),
            None => forall|j: int| !is_break(data, j),
        },
    decreases data.len(),
{
    if data.len() > 0 {
        let rest = data.drop_first();
        lemma_first_break(rest);
        assert forall|j: int| is_break(data, j) == (if j > 0 {
            is_break(rest, j - 1)
        } else {
            is_break(data, j)
        }) by {}
    }
}

/// The events of a stream: each ends with the first two newlines in a row; what is
/// left after the last of them is an event of its own.
pub open spec fn events(data: Seq<u8>) -> Seq<Seq<u8>>
    decreases data.len(),
    via events_decreases
{
    match first_break(data) {
        Some(i) => seq![data.take(i + 2)] + events(data.skip(i + 2)),
        None => if data.len() > 0 {
            seq![data]
        } else {
            Seq::empty()
        },
    }
}

#[via_fn]
proof fn events_decreases(data: Seq<u8>) {
    lemma_first_break(data);
}

/// The bytes of a list of buffers, one after the other.
pub open spec fn concat(pieces: Seq<Seq<u8>>) -> Seq<u8>
    decreases pieces.len(),
{
    if pieces.len() == 0 {
        Seq::empty()
    } else {
        concat(pieces.drop_last()) + pieces.last()
    }
}

/// The contents of a list of buffers.
pub open spec fn contents(v: Seq<Bytes>) -> Seq<Seq<u8>> {
    v.map_values(|b: Bytes| content(b))
}

/// Splits the bytes of an event stream into events, without copying.
pub fn split_sse_events(data: &Bytes) -> (r: Vec<Bytes>)
    ensures
        contents(r@) == events(content(*data)),
{
    let ghost all = content(*data);
    let mut out: Vec<Bytes> = Vec::new();
    let bytes = as_slice(data);
    let n: usize = bytes.len();
    let mut start: usize = 0;
    let mut i: usize = 0;
    assert(contents(out@) + events(all) =~= events(all));
    assert(all.skip(0) =~= all);
    while n > 0 && i < n - 1
        invariant
            n == all.len(),
            all == content(*data),
            bytes@ == all,
            start <= i <= n,
            contents(out@) + events(all.skip(start as int)) == events(all),
            forall|j: int| 0 <= j < i - start ==> !is_break(all.skip(start as int), j),
        decreases n - i,
    {
        let ghost rest = all.skip(start as int);
        if bytes[i] == NEWLINE && bytes[i + 1] == NEWLINE {
            let end: usize = i + 2;
            let event = slice(data, start, end);
            let ghost before = out@;
            let ghost piece = content(event);
            out.push(event);
            proof {
                assert(is_break(rest, i - start));
                lemma_first_break(rest);
                assert(first_break(rest) == Some(i - start));
                assert(rest.take(i - start + 2) =~= piece);
                assert(rest.skip(i - start + 2) =~= all.skip(end as int));
                assert(contents(out@) =~= contents(before).push(piece));
                assert(contents(before) + (seq![piece] + events(all.skip(end as int)))
                    =~= contents(before).push(piece) + events(all.skip(end as int)));
            }
            start = end;
            i = end;
        } else {
            assert(!is_break(rest, i - start));
            i += 1;
        }
    }
    proof {
        let rest = all.skip(start as int);
        lemma_first_break(rest);
        assert(first_break(rest) is None);
    }
    if start < n {
        let event = slice(data, start, n);
        let ghost before = out@;
        let ghost piece = content(event);
        out.push(event);
        proof {
            assert(piece =~= all.skip(start as int));
            assert(contents(out@) =~= contents(before) + seq![piece]);
        }
    } else {
        assert(contents(out@) =~= contents(out@) + Seq::<Seq<u8>>::empty());
    }
    out
}

proof fn lemma_concat_front(first: Seq<u8>, rest: Seq<Seq<u8>>)
    ensures
        concat(seq![first] + rest) == first + concat(rest),
    decreases rest.len(),
{
    let all = seq![first] + rest;
    assert(concat(Seq::<Seq<u8>>::empty()) =~= Seq::<u8>::empty());
    if rest.len() == 0 {
        assert(all.drop_last() =~= Seq::<Seq<u8>>::empty());
        assert(concat(all) =~= first + concat(rest));
    } else {
        assert(all.drop_last() =~= seq![first] + rest.drop_last());
        lemma_concat_front(first, rest.drop_last());
        assert(concat(all) =~= first + concat(rest));
    }
}

/// Replay is byte-identical: the events of a stream, put together, are the stream.
pub proof fn law_events_concatenate_to_the_stream(data: Seq<u8>)
    ensures
        concat(events(data)) == data,
    decreases data.len(),
{
    lemma_first_break(data);
    match first_break(data) {
        Some(i) => {
            law_events_concatenate_to_the_stream(data.skip(i + 2));
            lemma_concat_front(data.take(i + 2), events(data.skip(i + 2)));
            assert(data.take(i + 2) + data.skip(i + 2) =~= data);
        },
        None => {
            assert(concat(Seq::<Seq<u8>>::empty()) =~= Seq::<u8>::empty());
            if data.len() > 0 {
                assert(seq![data].drop_last() =~= Seq::<Seq<u8>>::empty());
                assert(concat(seq![data]) =~= data);
            } else {
                assert(data =~= Seq::<u8>::empty());
            }
        },
    }
}

/// Events are well framed: none is empty, each but the last ends with two newlines,
/// and none holds two newlines in a row before its end.
pub proof fn law_events_are_well_framed(data: Seq<u8>)
    ensures
        forall|k: int| 0 <= k < events(data).len() ==> (#[trigger] events(data)[k]).len() > 0,
        forall|k: int|
            0 <= k < events(data).len() - 1 ==> is_break(
                #[trigger] events(data)[k],
                events(data)[k].len() - 2,
            ),
        forall|k: int, j: int|
            0 <= k < events(data).len() && j < events(data)[k].len() - 2 ==> !#[trigger] is_break(
                events(data)[k],
                j,
            ),
    decreases data.len(),
{
    lemma_first_break(data);
    match first_break(data) {
        Some(i) => {
            let head = data.take(i + 2);
            let tail = events(data.skip(i + 2));
            law_events_are_well_framed(data.skip(i + 2));
            assert forall|k: int| 0 <= k < events(data).len() implies (
            #[trigger] events(data)[k]).len() > 0 && (k < events(data).len() - 1 ==> is_break(
                events(data)[k],
                events(data)[k].len() - 2,
            )) by {
                if k > 0 {
                    assert(events(data)[k] == tail[k - 1]);
                } else {
                    assert(events(data)[k] == head);
                }
            }
            assert forall|k: int, j: int|
                0 <= k < events(data).len() && j < events(data)[k].len()
                    - 2 implies !#[trigger] is_break(events(data)[k], j) by {
                if k > 0 {
                    assert(events(data)[k] == tail[k - 1]);
                } else {
                    assert(events(data)[k] == head);
                    assert(!is_break(data, j));
                }
            }
        },
        None => {
            assert forall|k: int, j: int|
                0 <= k < events(data).len() && j < events(data)[k].len()
                    - 2 implies !#[trigger] is_break(events(data)[k], j) by {
                assert(events(data)[k] == data);
            }
        },
    }
}

/// The bytes of `[DONE]`.
pub open spec fn done_mark() -> Seq<u8> {
    seq![91u8, 68u8, 79u8, 78u8, 69u8, 93u8]
}

/// Whether the terminal sentinel stands at `i`.
pub open spec fn done_at(body: Seq<u8>, i: int) -> bool {
    0 <= i && i + 6 <= body.len() && body.subrange(i, i + 6) == done_mark()
}

/// Whether a stream holds the terminal sentinel.
pub open spec fn terminated(body: Seq<u8>) -> bool {
    exists|i: int| done_at(body, i)
}

/// Whether the captured stream holds an OpenAI-style terminal sentinel.
pub fn has_sse_terminator(body: &[u8]) -> (r: bool)
    ensures
        r == terminated(body@),
{
    let n: usize = body.len();
    let mut i: usize = 0;
    while n >= 6 && i <= n - 6
        invariant
            n == body@.len(),
            i <= n,
            forall|j: int| 0 <= j < i ==> !done_at(body@, j),
        decreases n - i,
    {
        if body[i] == 91 && body[i + 1] == 68 && body[i + 2] == 79 && body[i + 3] == 78 && body[i
            + 4] == 69 && body[i + 5] == 93 {
            assert(body@.subrange(i as int, i + 6) =~= done_mark());
            assert(done_at(body@, i as int));
            return true;
        }
        proof {
            let w = body@.subrange(i as int, i + 6);
            if done_at(body@, i as int) {
                assert(w[0] == 91 && w[1] == 68 && w[2] == 79 && w[3] == 78 && w[4] == 69 && w[5]
                    == 93);
            }
        }
        i += 1;
    }
    false
}

/// One frame of the live feed.
pub fn sse_frame(json: &str) -> (r: Bytes)
    ensures
        content(r) == encode_utf8("data: "@ + json@ + "\n\n"@),
{
    let mut text = String::new();
    text.append("data: ");
    text.append(json);
    text.append("\n\n");
    assert(text@ =~= "data: "@ + json@ + "\n\n"@);
    from_text(text)
}

/// Responses larger than this are forwarded but not cached.
pub const MAX_CACHEABLE_RESPONSE_BYTES: usize = 8_388_608;

/// A stream captured so far, with what it is to be stored under.
pub struct Capture {
    chunks: Vec<Bytes>,
    total: usize,
    model: String,
    canonical: String,
    status: u16,
    headers: Vec<Header>,
}

/// A capture as mathematics.
pub ghost struct CaptureView {
    pub body: Seq<u8>,
    pub model: Seq<char>,
    pub canonical: Seq<char>,
    pub status: u16,
    pub headers: Seq<HeaderView>,
}

impl View for Capture {
    type V = CaptureView;

    closed spec fn view(&self) -> CaptureView {
        CaptureView {
            body: concat(contents(self.chunks@)),
            model: self.model@,
            canonical: self.canonical@,
            status: self.status,
            headers: headers_view(self.headers@),
        }
    }
}

impl CaptureView {
    /// The response that a finished capture stores.
    pub open spec fn response(self) -> ResponseView {
        ResponseView {
            status: self.status,
            headers: self.headers,
            body: self.body,
            format: ResponseFormat::Streaming,
        }
    }
}

impl Capture {
    /// The invariant of a capture: the size is that of the captured bytes, and
    /// within the limit.
    pub closed spec fn wf(self) -> bool {
        self.total == self@.body.len() && self.total <= MAX_CACHEABLE_RESPONSE_BYTES
    }

    /// An empty capture.
    pub fn new(model: &str, canonical: &str, status: u16, headers: Vec<Header>) -> (c: Capture)
        ensures
            c.wf(),
            c@ == (CaptureView {
                body: Seq::empty(),
                model: model@,
                canonical: canonical@,
                status,
                headers: headers_view(headers@),
            }),
    {
        let c = Capture {
            chunks: Vec::new(),
            total: 0,
            model: model.to_owned(),
            canonical: canonical.to_owned(),
            status,
            headers,
        };
        assert(contents(c.chunks@) =~= Seq::<Seq<u8>>::empty());
        c
    }

    /// The model that the capture is to be stored under.
    pub fn model(&self) -> (r: &str)
        ensures
            r@ == self@.model,
    {
        self.model.as_str()
    }

    /// The canonical prompt that the capture is to be stored under.
    pub fn canonical(&self) -> (r: &str)
        ensures
            r@ == self@.canonical,
    {
        self.canonical.as_str()
    }

    /// The size of what was captured.
    pub fn size(&self) -> (n: usize)
        requires
            self.wf(),
        ensures
            n == self@.body.len(),
    {
        self.total
    }

    /// Adds a chunk, unless the capture would outgrow the limit; says whether it
    /// still fits.
    pub fn push(&mut self, chunk: &Bytes) -> (fits: bool)
        requires
            old(self).wf(),
        ensures
            fits == (old(self)@.body.len() + content(*chunk).len() <= MAX_CACHEABLE_RESPONSE_BYTES),
            fits ==> final(self).wf() && final(self)@ == (CaptureView {
                body: old(self)@.body + content(*chunk),
                ..old(self)@
            }),
            !fits ==> *final(self) == *old(self),
    {
        let n: usize = as_slice(chunk).len();
        if n > MAX_CACHEABLE_RESPONSE_BYTES - self.total {
            return false;
        }
        let ghost before = self.chunks@;
        self.total = self.total + n;
        self.chunks.push(share(chunk));
        proof {
            assert(contents(self.chunks@).drop_last() =~= contents(before));
            assert(contents(self.chunks@).last() == content(*chunk));
        }
        true
    }

    /// Puts the chunks together and stores them as a streamed response. Says
    /// whether the stream held the terminal sentinel, which is not required.
    pub fn commit<E>(
        self,
        cache: &mut SemanticCache<E>,
        embedding: E,
        created: u128,
        now: u128,
    ) -> (terminator: bool)
        requires
            self.wf(),
            old(cache).wf(),
        ensures
            final(cache).wf(),
            final(cache)@ == old(cache)@.inserted(
                CacheView::entry_for(
                    self@.model,
                    self@.canonical,
                    self@.response(),
                    embedding,
                    created,
                ),
                now,
            ),
            terminator == terminated(self@.body),
    {
        let ghost all = contents(self.chunks@);
        let ghost view = self@;
        let mut buf = buffer(self.total);
        let mut i: usize = 0;
        assert(concat(all.take(0)) =~= Seq::<u8>::empty());
        while i < self.chunks.len()
            invariant
                i <= self.chunks@.len(),
                all == contents(self.chunks@),
                concat(all).len() <= MAX_CACHEABLE_RESPONSE_BYTES,
                written(buf) == concat(all.take(i as int)),
            decreases self.chunks@.len() - i,
        {
            assert(all.take(i + 1).drop_last() =~= all.take(i as int));
            proof {
                lemma_concat_grows(all, i + 1);
            }
            extend(&mut buf, as_slice(&self.chunks[i]));
            i += 1;
        }
        assert(all.take(all.len() as int) =~= all);
        let body = freeze(buf);
        let terminator = has_sse_terminator(as_slice(&body));
        let response = CachedResponse {
            status: self.status,
            headers: self.headers,
            body,
            format: ResponseFormat::Streaming,
        };
        assert(response@ == view.response());
        cache.insert(self.model.as_str(), self.canonical.as_str(), response, embedding, created, now);
        terminator
    }
}

proof fn lemma_concat_grows(pieces: Seq<Seq<u8>>, n: int)
    requires
        0 <= n <= pieces.len(),
    ensures
        concat(pieces.take(n)).len() <= concat(pieces).len(),
    decreases pieces.len(),
{
    if n < pieces.len() {
        assert(pieces.drop_last().take(n) =~= pieces.take(n));
        lemma_concat_grows(pieces.drop_last(), n);
    } else {
        assert(pieces.take(n) =~= pieces);
    }
}

/// What happens to a streamed response body besides being passed on: it is
/// captured, when it may be stored, and its end is logged once.
pub struct Tee {
    capture: Option<Capture>,
    errored: bool,
    pending: bool,
}

/// A tee as mathematics.
pub ghost struct TeeView {
    /// What was captured so far, while it may still be stored.
    pub capture: Option<CaptureView>,
    /// Whether the stream has failed.
    pub errored: bool,
    /// Whether the end of the stream is still to be logged.
    pub pending: bool,
}

impl View for Tee {
    type V = TeeView;

    closed spec fn view(&self) -> TeeView {
        TeeView {
            capture: match self.capture {
                Some(c) => Some(c@),
                None => None,
            },
            errored: self.errored,
            pending: self.pending,
        }
    }
}

impl TeeView {
    /// A tee at the start of a stream.
    pub open spec fn fresh(capture: Option<CaptureView>) -> TeeView {
        TeeView { capture, errored: false, pending: true }
    }

    /// After a chunk: it is added to the capture, which is given up when it
    /// outgrows the limit.
    pub open spec fn chunk(self, bytes: Seq<u8>) -> TeeView {
        TeeView {
            capture: match self.capture {
                Some(c) => if c.body.len() + bytes.len() <= MAX_CACHEABLE_RESPONSE_BYTES {
                    Some(CaptureView { body: c.body + bytes, ..c })
                } else {
                    None
                },
                None => None,
            },
            ..self
        }
    }

    /// After a transport error: the capture is given up for good.
    pub open spec fn failed(self) -> TeeView {
        TeeView { capture: None, errored: true, pending: false }
    }

    /// After a graceful end, or after the client has gone: nothing is left to do.
    pub open spec fn closed_off(self) -> TeeView {
        TeeView { capture: None, pending: false, ..self }
    }

    /// The capture that a graceful end commits: there is one unless the stream has
    /// failed or outgrown the limit, or was not to be captured.
    pub open spec fn commits(self) -> Option<CaptureView> {
        if self.errored {
            None
        } else {
            self.capture
        }
    }
}

/// The view of an optional capture.
pub open spec fn capture_view(c: Option<Capture>) -> Option<CaptureView> {
    match c {
        Some(c) => Some(c@),
        None => None,
    }
}

/// The note that is logged when the end of a stream is still to be logged.
pub open spec fn due(pending: bool, note: Seq<char>) -> Option<Seq<char>> {
    if pending {
        Some(note)
    } else {
        None
    }
}

impl Tee {
    /// The invariant of a tee: its capture is in order, and gone after an error.
    pub closed spec fn wf(self) -> bool {
        &&& self.capture matches Some(c) ==> c.wf()
        &&& self.errored ==> self.capture is None
    }

    /// A tee at the start of a stream, with or without a capture.
    pub fn new(capture: Option<Capture>) -> (t: Tee)
        requires
            capture matches Some(c) ==> c.wf(),
        ensures
            t.wf(),
            t@ == TeeView::fresh(capture_view(capture)),
    {
        Tee { capture, errored: false, pending: true }
    }

    fn finish(&mut self, note: &'static str) -> (r: Option<&'static str>)
        ensures
            str_view(r) == due(old(self).pending, note@),
            final(self).pending == false,
            final(self).capture == old(self).capture,
            final(self).errored == old(self).errored,
    {
        if self.pending {
            self.pending = false;
            Some(note)
        } else {
            None
        }
    }

    /// A chunk passes by. Says whether the capture was given up because of it.
    pub fn on_chunk(&mut self, chunk: &Bytes) -> (over_limit: bool)
        requires
            old(self).wf(),
        ensures
            final(self).wf(),
            final(self)@ == old(self)@.chunk(content(*chunk)),
            over_limit == (old(self)@.capture is Some && final(self)@.capture is None),
    {
        match self.capture.take() {
            Some(mut capture) => {
                if capture.push(chunk) {
                    self.capture = Some(capture);
                    false
                } else {
                    true
                }
            },
            None => false,
        }
    }

    /// The transport fails: the capture is discarded, never to be committed.
    pub fn on_error(&mut self) -> (note: Option<&'static str>)
        requires
            old(self).wf(),
        ensures
            final(self).wf(),
            final(self)@ == old(self)@.failed(),
            str_view(note) == due(old(self)@.pending, "stream_error"@),
    {
        self.errored = true;
        self.capture = None;
        self.finish("stream_error")
    }

    /// The stream ends gracefully. Returns the capture to commit, if there is one.
    pub fn on_end(&mut self) -> (r: (Option<Capture>, Option<&'static str>))
        requires
            old(self).wf(),
        ensures
            final(self).wf(),
            final(self)@ == old(self)@.closed_off(),
            capture_view(r.0) == old(self)@.commits(),
            r.0 matches Some(c) ==> c.wf(),
            str_view(r.1) == due(old(self)@.pending, "completed"@),
    {
        let capture = self.capture.take();
        let note = self.finish("completed");
        (capture, note)
    }

    /// The response is dropped. Before a terminal event that means that the client
    /// has gone; the capture is discarded either way.
    pub fn on_drop(&mut self) -> (note: Option<&'static str>)
        requires
            old(self).wf(),
        ensures
            final(self).wf(),
            final(self)@ == old(self)@.closed_off(),
            str_view(note) == due(old(self)@.pending, "client_disconnected"@),
    {
        self.capture = None;
        self.finish("client_disconnected")
    }
}

/// A tee after a list of chunks.
pub open spec fn fed(tee: TeeView, chunks: Seq<Seq<u8>>) -> TeeView
    decreases chunks.len(),
{
    if chunks.len() == 0 {
        tee
    } else {
        fed(tee, chunks.drop_last()).chunk(chunks.last())
    }
}

/// A stream that ends gracefully commits exactly the bytes that passed by, if they
/// are within the limit, and nothing otherwise.
pub proof fn law_clean_end_commits_the_whole_stream(start: CaptureView, chunks: Seq<Seq<u8>>)
    requires
        start.body.len() == 0,
    ensures
        fed(TeeView::fresh(Some(start)), chunks).commits() == (if concat(chunks).len()
            <= MAX_CACHEABLE_RESPONSE_BYTES {
            Some(CaptureView { body: concat(chunks), ..start })
        } else {
            None::<CaptureView>
        }),
    decreases chunks.len(),
{
    if chunks.len() == 0 {
        assert(start.body =~= concat(chunks));
    } else {
        law_clean_end_commits_the_whole_stream(start, chunks.drop_last());
        lemma_fed_errored(TeeView::fresh(Some(start)), chunks.drop_last());
    }
}

proof fn lemma_fed_errored(tee: TeeView, chunks: Seq<Seq<u8>>)
    ensures
        fed(tee, chunks).errored == tee.errored,
        fed(tee, chunks).pending == tee.pending,
        tee.capture is None ==> fed(tee, chunks).capture is None,
    decreases chunks.len(),
{
    if chunks.len() > 0 {
        lemma_fed_errored(tee, chunks.drop_last());
    }
}

/// A stream that fails is never committed, whatever passes by before or after.
pub proof fn law_failed_stream_is_never_committed(
    tee: TeeView,
    before: Seq<Seq<u8>>,
    after: Seq<Seq<u8>>,
)
    ensures
        fed(fed(tee, before).failed(), after).commits() is None,
{
    lemma_fed_errored(fed(tee, before).failed(), after);
}

/// A stream whose client goes away is never committed, and neither is one that was
/// not to be captured.
pub proof fn law_dropped_or_uncaptured_stream_is_never_committed(
    tee: TeeView,
    chunks: Seq<Seq<u8>>,
)
    ensures
        fed(tee.closed_off(), chunks).commits() is None,
        fed(TeeView::fresh(None), chunks).commits() is None,
{
    lemma_fed_errored(tee.closed_off(), chunks);
    lemma_fed_errored(TeeView::fresh(None), chunks);
}

/// The end of a stream is logged once: after any terminal event no note is due.
pub proof fn law_end_is_logged_once(tee: TeeView, chunks: Seq<Seq<u8>>, note: Seq<char>)
    ensures
        due(fed(tee.failed(), chunks).pending, note) is None,
        due(fed(tee.closed_off(), chunks).pending, note) is None,
        due(fed(TeeView::fresh(None), chunks).pending, note) == Some(note),
{
    lemma_fed_errored(tee.failed(), chunks);
    lemma_fed_errored(tee.closed_off(), chunks);
    lemma_fed_errored(TeeView::fresh(None), chunks);
}

/// Events are cut at two newline bytes in a row.
pub proof fn law_break_is_two_newlines(data: Seq<u8>, i: int)
    ensures
        is_break(data, i) <==> 0 <= i && i + 1 < data.len() && data[i] == 10 && data[i + 1] == 10,
{
}

/// The events of a stream are those of its parts: an event that ends with the first two
/// newlines in a row comes first, and the events of what follows come after it. A stream
/// without two newlines in a row is one event, unless it is empty.
pub proof fn law_events(event: Seq<u8>, rest: Seq<u8>)
    ensures
        events(Seq::empty()) == Seq::<Seq<u8>>::empty(),
        event.len() > 0 && (forall|i: int|
            0 <= i && i + 1 < event.len() ==> !(#[trigger] event[i] == 10 && event[i + 1] == 10))
            ==> events(event) == seq![event],
        event.len() >= 2 && event[event.len() - 2] == 10 && event[event.len() - 1] == 10 && (forall|
            i: int,
        |
            0 <= i && i + 2 < event.len() ==> !(#[trigger] event[i] == 10 && event[i + 1] == 10))
            ==> events(event + rest) == seq![event] + events(rest),
{
    lemma_first_break(Seq::empty());
    lemma_first_break(event);
    lemma_first_break(event + rest);
    assert(events(Seq::empty()) =~= Seq::<Seq<u8>>::empty());
    if event.len() > 0 && (forall|i: int|
        0 <= i && i + 1 < event.len() ==> !(#[trigger] event[i] == 10 && event[i + 1] == 10)) {
        match first_break(event) {
            Some(i) => {
                assert(event[i] == 10);
            },
            None => {},
        }
    }
    if event.len() >= 2 && event[event.len() - 2] == 10 && event[event.len() - 1] == 10 && (forall|
        i: int,
    |
        0 <= i && i + 2 < event.len() ==> !(#[trigger] event[i] == 10 && event[i + 1] == 10)) {
        let all = event + rest;
        let n = event.len() - 2;
        assert(is_break(all, n));
        let i = first_break(all)->0;
        assert(i == n) by {
            if i < n {
                assert(event[i] == 10 && event[i + 1] == 10);
            }
        }
        assert(all.take(i + 2) =~= event);
        assert(all.skip(i + 2) =~= rest);
    }
}

/// A stream is terminated exactly if the bytes of `[DONE]` stand somewhere in it.
pub proof fn law_terminated(before: Seq<u8>, after: Seq<u8>, body: Seq<u8>)
    ensures
        terminated(before + seq![91u8, 68u8, 79u8, 78u8, 69u8, 93u8] + after),
        terminated(body) ==> exists|i: int|
            0 <= i && i + 6 <= body.len() && #[trigger] body.subrange(i, i + 6) == seq![
                91u8,
                68u8,
                79u8,
                78u8,
                69u8,
                93u8,
            ],
{
    let all = before + seq![91u8, 68u8, 79u8, 78u8, 69u8, 93u8] + after;
    let n = before.len() as int;
    assert(all.subrange(n, n + 6) =~= seq![91u8, 68u8, 79u8, 78u8, 69u8, 93u8]);
    assert(done_at(all, n));
    if terminated(body) {
        let i = choose|i: int| done_at(body, i);
        assert(body.subrange(i, i + 6) == done_mark());
    }
}

/// What a capture stores: the captured bytes, with the status and headers that it was
/// opened with, as a streamed response.
pub proof fn law_capture_response(c: CaptureView)
    ensures
        c.response().status == c.status,
        c.response().headers == c.headers,
        c.response().body == c.body,
        c.response().format == ResponseFormat::Streaming,
{
}

/// What becomes of a tee, step by step. A chunk is added to the capture and changes
/// nothing else; past eight mebibytes the capture is gone. An error and an end leave no
/// capture and nothing to log, and only an error marks the stream as failed.
pub proof fn law_tee_steps(tee: TeeView, bytes: Seq<u8>, note: Seq<char>)
    ensures
        tee.chunk(bytes).errored == tee.errored,
        tee.chunk(bytes).pending == tee.pending,
        tee.capture is None ==> tee.chunk(bytes).capture is None,
        tee.capture matches Some(c) ==> match tee.chunk(bytes).capture {
            Some(d) => {
                &&& c.body.len() + bytes.len() <= 8_388_608
                &&& d.body == c.body + bytes
                &&& d.model == c.model
                &&& d.canonical == c.canonical
                &&& d.status == c.status
                &&& d.headers == c.headers
            },
            None => c.body.len() + bytes.len() > 8_388_608,
        },
        tee.failed().capture is None && tee.failed().errored && !tee.failed().pending,
        tee.closed_off().capture is None && tee.closed_off().errored == tee.errored
            && !tee.closed_off().pending,
        !tee.errored ==> tee.commits() == tee.capture,
        tee.errored ==> tee.commits() is None,
        TeeView::fresh(tee.capture).capture == tee.capture,
        !TeeView::fresh(tee.capture).errored && TeeView::fresh(tee.capture).pending,
        due(true, note) == Some(note),
        due(false, note) is None,
        MAX_CACHEABLE_RESPONSE_BYTES == 8_388_608,
{
}

/// The bytes of buffers follow each other.
pub proof fn law_concat(a: Seq<Seq<u8>>, piece: Seq<u8>, b: Seq<Seq<u8>>)
    ensures
        concat(Seq::empty()) == Seq::<u8>::empty(),
        concat(seq![piece]) == piece,
        concat(a + b) == concat(a) + concat(b),
    decreases b.len(),
{
    assert(concat(Seq::empty()) =~= Seq::<u8>::empty());
    assert(seq![piece].drop_last() =~= Seq::<Seq<u8>>::empty());
    assert(concat(seq![piece]) =~= piece);
    if b.len() == 0 {
        assert(a + b =~= a);
        assert(concat(a + b) =~= concat(a) + concat(b));
    } else {
        assert((a + b).drop_last() =~= a + b.drop_last());
        law_concat(a, piece, b.drop_last());
        assert(concat(a + b) =~= concat(a) + concat(b));
    }
}

/// The views of buffers and captures show all of them, each in its place.
pub proof fn law_stream_views(list: Seq<Bytes>, capture: Capture, i: int)
    ensures
        contents(list).len() == list.len(),
        0 <= i < list.len() ==> contents(list)[i] == content(list[i]),
        capture_view(Some(capture)) == Some(capture@),
        capture_view(None) is None,
{
}

} // verus!
