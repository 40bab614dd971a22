//! Reading chat completions: what a request asks, and what a response answers.
use crate::cache::ResponseFormat;
use crate::json::{
    lemma_member_size, list_in, list_size, parse_json, parsed_json, render_json, rendered_json, seen,
    text_in, text_size, views, Json, JsonView,
};
use crate::text::{
    chars_of, has_prefix, joined, law_has_prefix, law_joined, law_parts, law_trimmed,
    lemma_position, lemma_trimmed_start_of, parts, position, same_text, slices, split, starts_with,
    string_of, text_view, trim, trim_start, trimmed, trimmed_end, trimmed_start, utf8_text,
    whitespace,
};
use vstd::prelude::*;
use vstd::utf8::{
    decode_utf8, decode_utf8_encode_utf8, encode_utf8, encode_utf8_decode_utf8,
    encode_utf8_valid_utf8, valid_utf8,
};

verus! {

/// Prompts whose canonical form exceeds this many bytes are not cached.
pub const MAX_CACHEABLE_PROMPT_BYTES: usize = 131_072;

/// The longest model name that is kept.
pub const MAX_MODEL_LEN: usize = 96;

/// The texts of a list of multimodal parts, separated by spaces; parts without a
/// text are skipped, and no space stands at the start.
pub open spec fn part_texts(items: Seq<JsonView>) -> Seq<char>
    decreases items.len(),
{
    if items.len() == 0 {
        Seq::empty()
    } else {
        let before = part_texts(items.drop_last());
        match text_in(items.last().get("text"@)) {
            Some(t) => if before.len() == 0 {
                t
            } else {
                before + " "@ + t
            },
            None => before,
        }
    }
}

/// The text of a message's content: a plain text itself, the texts of multimodal
/// parts, any other value as JSON, and nothing where there is no content.
pub open spec fn content_text(value: Option<JsonView>) -> Seq<char> {
    match value {
        Some(JsonView::Text(t)) => t,
        Some(JsonView::List(items)) => part_texts(items),
        Some(other) => rendered_json(other),
        None => Seq::empty(),
    }
}

/// Extracts the text of a message's content.
pub fn extract_content(content: Option<&Json>) -> (r: String)
    ensures
        r@ == content_text(seen(content)),
{
    match content {
        Some(value) => {
            match value {
                Json::Text(t) => t.clone(),
                Json::List(items) => {
                    let ghost all = views(items@);
                    assert(value@->List_0 =~= all);
                    let mut out = String::new();
                    let mut i: usize = 0;
                    while i < items.len()
                        invariant
                            i <= items@.len(),
                            all == views(items@),
                            out@ == part_texts(all.take(i as int)),
                        decreases items@.len() - i,
                    {
                        assert(all.take(i + 1).drop_last() =~= all.take(i as int));
                        assert(all.take(i + 1).last() == items@[i as int]@);
                        match items[i].get("text") {
                            Some(part) => {
                                match part.as_str() {
                                    Some(text) => {
                                        if !out.as_str().is_empty() {
                                            out.append(" ");
                                        }
                                        out.append(text);
                                        assert(out@ =~= part_texts(all.take(i + 1)));
                                    },
                                    None => {},
                                }
                            },
                            None => {},
                        }
                        i += 1;
                    }
                    assert(all.take(all.len() as int) =~= all);
                    out
                },
                other => render_json(other),
            }
        },
        None => String::new(),
    }
}

/// One line of a canonical prompt: `role: content`.
pub open spec fn message_line(message: JsonView) -> Seq<char> {
    let role = match text_in(message.get("role"@)) {
        Some(r) => r,
        None => "user"@,
    };
    role + ": "@ + content_text(message.get("content"@))
}

/// A conversation as one text, a line per message.
pub open spec fn canonical_prompt(messages: Seq<JsonView>) -> Seq<char> {
    joined(messages.map_values(|m: JsonView| message_line(m)), "\n"@)
}

/// What to do with an incoming request.
pub enum CachePlan {
    /// A chat completion that can be cached.
    Cacheable { model: String, canonical: String, format: ResponseFormat },
    /// Forward without caching.
    Bypass,
}

/// A plan as mathematics.
pub ghost enum PlanView {
    Cacheable { model: Seq<char>, canonical: Seq<char>, format: ResponseFormat },
    Bypass,
}

impl View for CachePlan {
    type V = PlanView;

    open spec fn view(&self) -> PlanView {
        match self {
            CachePlan::Cacheable { model, canonical, format } => PlanView::Cacheable {
                model: model@,
                canonical: canonical@,
                format: *format,
            },
            CachePlan::Bypass => PlanView::Bypass,
        }
    }
}

/// The first characters of a model name, as many as are kept.
pub open spec fn capped_model(model: Seq<char>) -> Seq<char> {
    if model.len() > MAX_MODEL_LEN {
        model.take(MAX_MODEL_LEN as int)
    } else {
        model
    }
}

/// The model that a request names; none where it names no text.
pub open spec fn requested_model(request: JsonView) -> Seq<char> {
    match text_in(request.get("model"@)) {
        Some(m) => capped_model(m),
        None => Seq::empty(),
    }
}

/// The format that a request asks for: streaming only if `stream` is true.
pub open spec fn requested_format(request: JsonView) -> ResponseFormat {
    if request.get("stream"@) == Some(JsonView::Bool(true)) {
        ResponseFormat::Streaming
    } else {
        ResponseFormat::NonStreaming
    }
}

/// The plan for a request: cacheable if it has messages whose canonical form is
/// not too large, and a bypass otherwise.
pub open spec fn plan_for(request: JsonView) -> PlanView {
    match list_in(request.get("messages"@)) {
        Some(messages) => if messages.len() > 0 && encode_utf8(canonical_prompt(messages)).len()
            <= MAX_CACHEABLE_PROMPT_BYTES {
            PlanView::Cacheable {
                model: requested_model(request),
                canonical: canonical_prompt(messages),
                format: requested_format(request),
            }
        } else {
            PlanView::Bypass
        },
        None => PlanView::Bypass,
    }
}

fn canonicalize(messages: &Vec<Json>) -> (r: String)
    ensures
        r@ == canonical_prompt(views(messages@)),
{
    let ghost lines = views(messages@).map_values(|m: JsonView| message_line(m));
    let mut out = String::new();
    let mut i: usize = 0;
    while i < messages.len()
        invariant
            i <= messages@.len(),
            lines == views(messages@).map_values(|m: JsonView| message_line(m)),
            out@ == joined(lines.take(i as int), "\n"@),
        decreases messages@.len() - i,
    {
        let ghost before = out@;
        assert(lines.take(i + 1).drop_last() =~= lines.take(i as int));
        assert(lines.take(i + 1).last() == message_line(messages@[i as int]@));
        let msg = &messages[i];
        if i > 0 {
            out.append("\n");
        }
        let ghost led = out@;
        match msg.get("role") {
            Some(role) => {
                match role.as_str() {
                    Some(text) => {
                        out.append(text);
                    },
                    None => {
                        out.append("user");
                    },
                }
            },
            None => {
                out.append("user");
            },
        }
        out.append(": ");
        let content = extract_content(msg.get("content"));
        out.append(content.as_str());
        proof {
            assert(out@ =~= led + message_line(msg@));
            if i > 0 {
                assert(out@ =~= joined(lines.take(i + 1), "\n"@));
            } else {
                assert(led =~= Seq::<char>::empty());
                assert(out@ =~= message_line(msg@));
            }
        }
        i += 1;
    }
    assert(lines.take(lines.len() as int) =~= lines);
    out
}

fn cap_model(model: &str) -> (r: String)
    ensures
        r@ == capped_model(model@),
{
    let chars = chars_of(model);
    if chars.len() > MAX_MODEL_LEN {
        let r = string_of(&chars[0..MAX_MODEL_LEN]);
        assert(r@ =~= model@.take(MAX_MODEL_LEN as int));
        r
    } else {
        string_of(chars.as_slice())
    }
}

/// Decides what to do with a parsed request.
pub fn plan_request(request: &Json) -> (plan: CachePlan)
    ensures
        plan@ == plan_for(request@),
{
    let messages = match request.get("messages") {
        Some(value) => match value.as_array() {
            Some(m) => m,
            None => {
                return CachePlan::Bypass;
            },
        },
        None => {
            return CachePlan::Bypass;
        },
    };
    if messages.len() == 0 {
        return CachePlan::Bypass;
    }
    let format = match request.get("stream") {
        Some(Json::Bool(true)) => ResponseFormat::Streaming,
        _ => ResponseFormat::NonStreaming,
    };
    let model = match request.get("model") {
        Some(value) => match value.as_str() {
            Some(m) => cap_model(m),
            None => String::new(),
        },
        None => String::new(),
    };
    let canonical = canonicalize(messages);
    if canonical.as_str().as_bytes().len() > MAX_CACHEABLE_PROMPT_BYTES {
        return CachePlan::Bypass;
    }
    CachePlan::Cacheable { model, canonical, format }
}

/// The plan for a request body: anything that is not JSON is bypassed.
pub open spec fn plan_for_body(parsed: Option<JsonView>) -> PlanView {
    match parsed {
        Some(request) => plan_for(request),
        None => PlanView::Bypass,
    }
}

/// Inspects a request body and decides whether it is cacheable.
pub fn analyze_request(body: &[u8]) -> (plan: CachePlan)
    ensures
        plan@ == plan_for_body(parsed_json(body@)),
{
    match parse_json(body) {
        Some(request) => plan_request(&request),
        None => CachePlan::Bypass,
    }
}

/// A cacheable plan stays within its bounds: the model is at most as long as is
/// kept, and the prompt is not empty and not too large.
pub proof fn law_plans_are_bounded(request: JsonView)
    ensures
        plan_for(request) matches PlanView::Cacheable { model, canonical, .. } ==> model.len()
            <= MAX_MODEL_LEN && encode_utf8(canonical).len() <= MAX_CACHEABLE_PROMPT_BYTES
            && canonical.len() > 0,
{
    match list_in(request.get("messages"@)) {
        Some(messages) => {
            if messages.len() > 0 {
                let lines = messages.map_values(|m: JsonView| message_line(m));
                reveal_strlit(": ");
                assert(lines.last() == message_line(messages.last()));
                assert(joined(lines, "\n"@).len() >= lines.last().len());
            }
        },
        None => {},
    }
}

/// The texts that choices hold under `part`, put together: `message` in a buffered
/// answer, `delta` in an event of a streamed one.
pub open spec fn choices_text(choices: Seq<JsonView>, part: Seq<char>) -> Seq<char>
    decreases choices.len(),
{
    if choices.len() == 0 {
        Seq::empty()
    } else {
        let before = choices_text(choices.drop_last(), part);
        match choices.last().get(part) {
            Some(inner) => match text_in(inner.get("content"@)) {
                Some(t) => before + t,
                None => before,
            },
            None => before,
        }
    }
}

/// The text that an answer or event holds, if it has choices at all.
pub open spec fn answer_text(answer: JsonView, part: Seq<char>) -> Option<Seq<char>> {
    match list_in(answer.get("choices"@)) {
        Some(choices) => Some(choices_text(choices, part)),
        None => None,
    }
}

proof fn lemma_choices_size(choices: Seq<JsonView>, part: Seq<char>)
    ensures
        choices_text(choices, part).len() <= list_size(choices),
    decreases choices.len(),
{
    if choices.len() > 0 {
        lemma_choices_size(choices.drop_last(), part);
        lemma_member_size(choices.last(), part);
        match choices.last().get(part) {
            Some(inner) => lemma_member_size(inner, "content"@),
            None => {},
        }
    }
}

/// The text of an answer is no longer than all the texts that the answer holds.
pub proof fn lemma_answer_size(answer: JsonView, part: Seq<char>)
    ensures
        answer_text(answer, part) matches Some(t) ==> t.len() <= text_size(answer),
{
    lemma_member_size(answer, "choices"@);
    match list_in(answer.get("choices"@)) {
        Some(choices) => lemma_choices_size(choices, part),
        None => {},
    }
}

/// The text of a parsed answer or event.
pub fn choice_text(answer: &Json, part: &str) -> (r: Option<String>)
    ensures
        text_view(r) == answer_text(answer@, part@),
{
    let choices = match answer.get("choices") {
        Some(value) => match value.as_array() {
            Some(c) => c,
            None => {
                return None;
            },
        },
        None => {
            return None;
        },
    };
    let ghost all = views(choices@);
    let mut text = String::new();
    let mut i: usize = 0;
    while i < choices.len()
        invariant
            i <= choices@.len(),
            all == views(choices@),
            text@ == choices_text(all.take(i as int), part@),
        decreases choices@.len() - i,
    {
        assert(all.take(i + 1).drop_last() =~= all.take(i as int));
        assert(all.take(i + 1).last() == choices@[i as int]@);
        match choices[i].get(part) {
            Some(inner) => match inner.get("content") {
                Some(value) => match value.as_str() {
                    Some(content) => {
                        text.append(content);
                    },
                    None => {},
                },
                None => {},
            },
            None => {},
        }
        i += 1;
    }
    assert(all.take(all.len() as int) =~= all);
    Some(text)
}

/// A line without the carriage return at its end.
pub open spec fn without_cr(line: Seq<char>) -> Seq<char> {
    if line.len() > 0 && line.last() == '\r' {
        line.drop_last()
    } else {
        line
    }
}

/// The lines among the first parts of a text: every part but the last ended in a
/// newline, and loses the carriage return before it; the last is a line only if it
/// is not empty.
pub open spec fn lines_of(pieces: Seq<Seq<char>>) -> Seq<Seq<char>> {
    let ended = pieces.drop_last().map_values(|p: Seq<char>| without_cr(p));
    if pieces.last().len() > 0 {
        ended.push(pieces.last())
    } else {
        ended
    }
}

/// The lines of a text.
pub open spec fn text_lines(s: Seq<char>) -> Seq<Seq<char>> {
    lines_of(parts(s, '\n'))
}

/// The lines of a text.
pub fn lines(s: &[char]) -> (r: Vec<&[char]>)
    ensures
        slices(r@) == text_lines(s@),
{
    let pieces = split(s, '\n');
    let ghost all = slices(pieces@);
    let n: usize = pieces.len();
    let mut out: Vec<&[char]> = Vec::new();
    let mut i: usize = 0;
    let ghost ended = all.drop_last().map_values(|p: Seq<char>| without_cr(p));
    while i < n - 1
        invariant
            n == pieces@.len(),
            n >= 1,
            i <= n - 1,
            all == slices(pieces@),
            ended == all.drop_last().map_values(|p: Seq<char>| without_cr(p)),
            slices(out@) =~= ended.take(i as int),
        decreases n - i,
    {
        let piece: &[char] = pieces[i];
        let len: usize = piece.len();
        let ghost before = out@;
        let line: &[char] = if len > 0 && piece[len - 1] == '\r' {
            &piece[0..len - 1]
        } else {
            piece
        };
        assert(line@ =~= without_cr(piece@));
        out.push(line);
        assert(slices(out@) =~= slices(before).push(line@));
        assert(ended.take(i + 1) =~= ended.take(i as int).push(ended[i as int]));
        i += 1;
    }
    assert(ended.take(ended.len() as int) =~= ended);
    let rest: &[char] = pieces[n - 1];
    if rest.len() > 0 {
        let ghost before = out@;
        out.push(rest);
        assert(slices(out@) =~= slices(before).push(rest@));
    }
    out
}

/// The payload of a `data:` line, unless it is empty or the terminal sentinel.
pub open spec fn payload_of(line: Seq<char>) -> Option<Seq<char>> {
    let start = trimmed_start(line);
    if has_prefix(start, "data:"@) {
        let payload = trimmed(start.skip("data:"@.len() as int));
        if payload.len() == 0 || payload == "[DONE]"@ {
            None
        } else {
            Some(payload)
        }
    } else {
        None
    }
}

/// The payload of a line of an event stream.
pub fn data_payload(line: &[char]) -> (r: Option<String>)
    ensures
        text_view(r) == payload_of(line@),
{
    let start = trim_start(line);
    let mark = chars_of("data:");
    if starts_with(start, mark.as_slice()) {
        let rest = &start[mark.len()..start.len()];
        assert(rest@ =~= start@.skip(mark@.len() as int));
        let payload = string_of(trim(rest));
        if payload.as_str().is_empty() || same_text(payload.as_str(), "[DONE]") {
            None
        } else {
            Some(payload)
        }
    } else {
        None
    }
}

/// The text of one line of an event stream, if it is a chat chunk.
pub open spec fn line_text(line: Seq<char>) -> Option<Seq<char>> {
    match payload_of(line) {
        Some(payload) => match parsed_json(encode_utf8(payload)) {
            Some(event) => answer_text(event, "delta"@),
            None => None,
        },
        None => None,
    }
}

/// The text so far with that of one more line, if the line is a chat chunk.
pub open spec fn with_chunk(
    before: Option<Seq<char>>,
    chunk: Option<Seq<char>>,
) -> Option<Seq<char>> {
    match (before, chunk) {
        (Some(b), Some(t)) => Some(b + t),
        (None, Some(t)) => Some(t),
        (_, None) => before,
    }
}

/// Adds the text of a chat chunk to the text so far.
pub fn append_chunk(before: Option<String>, chunk: Option<String>) -> (r: Option<String>)
    ensures
        text_view(r) == with_chunk(text_view(before), text_view(chunk)),
{
    match (before, chunk) {
        (Some(mut b), Some(t)) => {
            b.append(t.as_str());
            Some(b)
        },
        (None, Some(t)) => Some(t),
        (b, None) => b,
    }
}

/// How many bytes a list of texts takes in UTF-8.
pub open spec fn encoded_size(list: Seq<Seq<char>>) -> nat
    decreases list.len(),
{
    if list.len() == 0 {
        0
    } else {
        encoded_size(list.drop_last()) + encode_utf8(list.last()).len()
    }
}

proof fn lemma_encoded_concat(a: Seq<char>, b: Seq<char>)
    ensures
        encode_utf8(a + b) == encode_utf8(a) + encode_utf8(b),
    decreases a.len(),
{
    if a.len() == 0 {
        assert(a + b =~= b);
        assert(encode_utf8(a + b) =~= encode_utf8(a) + encode_utf8(b));
    } else {
        assert((a + b).drop_first() =~= a.drop_first() + b);
        lemma_encoded_concat(a.drop_first(), b);
        assert(encode_utf8(a + b) =~= encode_utf8(a) + encode_utf8(b));
    }
}

proof fn lemma_encoded_part(s: Seq<char>, from: int, to: int)
    requires
        0 <= from <= to <= s.len(),
    ensures
        encode_utf8(s.subrange(from, to)).len() <= encode_utf8(s).len(),
{
    assert(s =~= s.take(from) + (s.subrange(from, to) + s.skip(to)));
    lemma_encoded_concat(s.take(from), s.subrange(from, to) + s.skip(to));
    lemma_encoded_concat(s.subrange(from, to), s.skip(to));
}

proof fn lemma_encoded_size_front(first: Seq<char>, rest: Seq<Seq<char>>)
    ensures
        encoded_size(seq![first] + rest) == encode_utf8(first).len() + encoded_size(rest),
    decreases rest.len(),
{
    let all = seq![first] + rest;
    if rest.len() == 0 {
        assert(all.drop_last() =~= Seq::<Seq<char>>::empty());
        assert(encoded_size(all.drop_last()) == 0);
    } else {
        assert(all.drop_last() =~= seq![first] + rest.drop_last());
        lemma_encoded_size_front(first, rest.drop_last());
    }
}

proof fn lemma_parts_size(s: Seq<char>, c: char)
    ensures
        encoded_size(parts(s, c)) <= encode_utf8(s).len(),
        parts(s, c).len() > 0,
    decreases s.len(),
{
    lemma_position(s, c);
    match position(s, c) {
        Some(i) => {
            let rest = s.skip(i + 1);
            lemma_parts_size(rest, c);
            lemma_encoded_size_front(s.take(i), parts(rest, c));
            assert(s =~= s.take(i + 1) + rest);
            lemma_encoded_concat(s.take(i + 1), rest);
            assert(s.take(i) =~= s.take(i + 1).subrange(0, i));
            lemma_encoded_part(s.take(i + 1), 0, i);
        },
        None => {
            assert(seq![s].drop_last() =~= Seq::<Seq<char>>::empty());
            assert(encoded_size(seq![s].drop_last()) == 0);
        },
    }
}

proof fn lemma_without_cr_size(list: Seq<Seq<char>>)
    ensures
        encoded_size(list.map_values(|p: Seq<char>| without_cr(p))) <= encoded_size(list),
    decreases list.len(),
{
    let cut = list.map_values(|p: Seq<char>| without_cr(p));
    if list.len() > 0 {
        let line = list.last();
        lemma_without_cr_size(list.drop_last());
        assert(cut.drop_last() =~= list.drop_last().map_values(|p: Seq<char>| without_cr(p)));
        if line.len() > 0 {
            assert(line.drop_last() =~= line.subrange(0, line.len() - 1));
            lemma_encoded_part(line, 0, line.len() - 1);
        }
    }
}

/// The lines of a text take no more bytes than the text.
proof fn lemma_lines_size(s: Seq<char>)
    ensures
        encoded_size(text_lines(s)) <= encode_utf8(s).len(),
{
    let pieces = parts(s, '\n');
    lemma_parts_size(s, '\n');
    lemma_without_cr_size(pieces.drop_last());
    let ended = pieces.drop_last().map_values(|p: Seq<char>| without_cr(p));
    if pieces.last().len() > 0 {
        assert(ended.push(pieces.last()).drop_last() =~= ended);
    }
}

proof fn lemma_trimmed_part(s: Seq<char>)
    ensures
        encode_utf8(trimmed_start(s)).len() <= encode_utf8(s).len(),
        encode_utf8(trimmed_end(s)).len() <= encode_utf8(s).len(),
    decreases s.len(),
{
    if s.len() > 0 {
        assert(s.drop_first() =~= s.subrange(1, s.len() as int));
        assert(s.drop_last() =~= s.subrange(0, s.len() - 1));
        lemma_encoded_part(s, 1, s.len() as int);
        lemma_encoded_part(s, 0, s.len() - 1);
        lemma_trimmed_part(s.drop_first());
        lemma_trimmed_part(s.drop_last());
    }
}

/// The payload of a line takes no more bytes than the line.
proof fn lemma_payload_size(line: Seq<char>)
    ensures
        payload_of(line) matches Some(p) ==> encode_utf8(p).len() <= encode_utf8(line).len(),
{
    let start = trimmed_start(line);
    lemma_trimmed_part(line);
    if has_prefix(start, "data:"@) {
        let n = "data:"@.len() as int;
        let rest = start.skip(n);
        assert(rest =~= start.subrange(n, start.len() as int));
        lemma_encoded_part(start, n, start.len() as int);
        lemma_trimmed_part(rest);
        lemma_trimmed_part(trimmed_start(rest));
    }
}

/// The texts of the chat chunks among lines, put together, if there is any chunk.
pub open spec fn stream_text(list: Seq<Seq<char>>) -> Option<Seq<char>>
    decreases list.len(),
{
    if list.len() == 0 {
        None
    } else {
        with_chunk(stream_text(list.drop_last()), line_text(list.last()))
    }
}

/// The assistant's text in a response body, if the body is a chat completion of
/// the given format.
pub open spec fn assistant_text(body: Seq<u8>, format: ResponseFormat) -> Option<Seq<char>> {
    match format {
        ResponseFormat::NonStreaming => match parsed_json(body) {
            Some(answer) => answer_text(answer, "message"@),
            None => None,
        },
        ResponseFormat::Streaming => if valid_utf8(body) {
            stream_text(text_lines(decode_utf8(body)))
        } else {
            None
        },
    }
}

/// Pulls the assistant's text out of a response body. `None` if the body does not
/// look like a chat completion. The text has no more characters than the body has
/// bytes.
pub fn extract_assistant_text(body: &[u8], format: ResponseFormat) -> (r: Option<String>)
    ensures
        text_view(r) == assistant_text(body@, format),
        r matches Some(t) ==> t@.len() <= body@.len(),
{
    match format {
        ResponseFormat::NonStreaming => match parse_json(body) {
            Some(answer) => {
                proof {
                    lemma_answer_size(answer@, "message"@);
                }
                choice_text(&answer, "message")
            },
            None => None,
        },
        ResponseFormat::Streaming => {
            let raw = match utf8_text(body) {
                Some(t) => t,
                None => {
                    return None;
                },
            };
            let chars = chars_of(raw.as_str());
            let list = lines(chars.as_slice());
            let ghost all = slices(list@);
            let mut text: Option<String> = None;
            let mut i: usize = 0;
            while i < list.len()
                invariant
                    i <= list@.len(),
                    all == slices(list@),
                    text_view(text) == stream_text(all.take(i as int)),
                    text matches Some(t) ==> t@.len() <= encoded_size(all.take(i as int)),
                decreases list@.len() - i,
            {
                assert(all.take(i + 1).drop_last() =~= all.take(i as int));
                assert(all.take(i + 1).last() == list@[i as int]@);
                proof {
                    lemma_payload_size(list@[i as int]@);
                }
                let chunk = match data_payload(list[i]) {
                    Some(payload) => match parse_json(payload.as_str().as_bytes()) {
                        Some(event) => {
                            proof {
                                lemma_answer_size(event@, "delta"@);
                            }
                            choice_text(&event, "delta")
                        },
                        None => None,
                    },
                    None => None,
                };
                assert(text_view(chunk) == line_text(list@[i as int]@));
                text = append_chunk(text, chunk);
                i += 1;
            }
            assert(all.take(all.len() as int) =~= all);
            proof {
                lemma_lines_size(raw@);
                decode_utf8_encode_utf8(body@);
            }
            text
        },
    }
}

/// The length of an answer, for cost estimation: that of the assistant's text, or of
/// the raw body where there is none.
pub open spec fn answer_chars(body: Seq<u8>, format: ResponseFormat) -> nat {
    match assistant_text(body, format) {
        Some(t) => t.len(),
        None => body.len(),
    }
}

/// Estimates the length of a response's text in characters. Only the model's
/// output counts, not JSON keys or stream framing, so that the estimate never exceeds
/// the size of the body.
pub fn assistant_text_chars(body: &[u8], format: ResponseFormat) -> (n: usize)
    ensures
        n == answer_chars(body@, format),
        n <= body@.len(),
{
    match extract_assistant_text(body, format) {
        Some(text) => text.as_str().unicode_len(),
        None => body.len(),
    }
}

proof fn lemma_parts_of_two(a: Seq<char>, b: Seq<char>, c: char)
    requires
        a.len() > 0,
        a.last() == c,
    ensures
        parts(a, c).len() > 0,
        parts(a, c).last().len() == 0,
        parts(a + b, c) == parts(a, c).drop_last() + parts(b, c),
    decreases a.len(),
{
    lemma_position(a, c);
    lemma_position(a + b, c);
    assert(a[a.len() - 1] == c);
    let i = position(a, c)->0;
    assert((a + b)[i] == c);
    let k = position(a + b, c)->0;
    assert(k == i) by {
        if k < i {
            assert((a + b)[k] == a[k]);
        }
    }
    let rest = a.skip(i + 1);
    assert((a + b).take(i) =~= a.take(i));
    assert((a + b).skip(i + 1) =~= rest + b);
    if rest.len() == 0 {
        assert(rest + b =~= b);
        assert(position(rest, c) is None);
        assert(parts(rest, c) == seq![rest]);
        assert(parts(a, c) =~= seq![a.take(i), rest]);
        assert(parts(a + b, c) =~= parts(a, c).drop_last() + parts(b, c));
    } else {
        lemma_parts_of_two(rest, b, c);
        assert(parts(a, c) =~= seq![a.take(i)] + parts(rest, c));
        assert(parts(a, c).drop_last() =~= seq![a.take(i)] + parts(rest, c).drop_last());
        assert(parts(a + b, c) =~= parts(a, c).drop_last() + parts(b, c));
    }
}

proof fn lemma_lines_of_two(a: Seq<char>, b: Seq<char>)
    requires
        a.len() > 0,
        a.last() == '\n',
    ensures
        text_lines(a + b) == text_lines(a) + text_lines(b),
{
    lemma_parts_of_two(a, b, '\n');
    lemma_parts_size(b, '\n');
    let pa = parts(a, '\n').drop_last();
    let pb = parts(b, '\n');
    assert((pa + pb).drop_last() =~= pa + pb.drop_last());
    assert((pa + pb).last() == pb.last());
    assert(text_lines(a + b) =~= text_lines(a) + text_lines(b));
}

proof fn lemma_stream_text_of_two(x: Seq<Seq<char>>, y: Seq<Seq<char>>)
    ensures
        stream_text(x + y) == with_chunk(stream_text(x), stream_text(y)),
    decreases y.len(),
{
    if y.len() == 0 {
        assert(x + y =~= x);
    } else {
        assert((x + y).drop_last() =~= x + y.drop_last());
        lemma_stream_text_of_two(x, y.drop_last());
        match (stream_text(x), stream_text(y.drop_last()), line_text(y.last())) {
            (Some(p), Some(q), Some(r)) => {
                assert((p + q) + r =~= p + (q + r));
            },
            _ => {},
        }
    }
}

/// The assistant's text of a stream that is cut after a line break is the text of its
/// two parts joined. Where one of them has no chat chunk, it is the text of the other.
pub proof fn law_stream_text_of_two_parts(a: Seq<char>, b: Seq<char>)
    requires
        a.len() > 0,
        a.last() == '\n',
    ensures
        ({
            let format = ResponseFormat::Streaming;
            assistant_text(encode_utf8(a) + encode_utf8(b), format) == with_chunk(
                assistant_text(encode_utf8(a), format),
                assistant_text(encode_utf8(b), format),
            )
        }),
{
    lemma_encoded_concat(a, b);
    encode_utf8_valid_utf8(a);
    encode_utf8_valid_utf8(b);
    encode_utf8_valid_utf8(a + b);
    encode_utf8_decode_utf8(a);
    encode_utf8_decode_utf8(b);
    encode_utf8_decode_utf8(a + b);
    lemma_lines_of_two(a, b);
    lemma_stream_text_of_two(text_lines(a), text_lines(b));
}

/// Every message counts, whatever its role: its line is the role, a colon and a space,
/// and the content. A message that names no role is a user's.
pub proof fn law_message_line(message: JsonView)
    ensures
        message.get("role"@) matches Some(JsonView::Text(r)) ==> message.get("content"@) matches Some(
            JsonView::Text(c),
        ) ==> canonical_prompt(seq![message]) == r + ": "@ + c,
        message.get("role"@) matches Some(JsonView::Text(r)) ==> canonical_prompt(seq![message]) == r
            + ": "@ + content_text(message.get("content"@)),
        !(message.get("role"@) matches Some(JsonView::Text(_))) ==> canonical_prompt(seq![message])
            == "user"@ + ": "@ + content_text(message.get("content"@)),
{
    let lines = seq![message].map_values(|m: JsonView| message_line(m));
    assert(lines[0] == message_line(message));
}

/// The lines of a conversation follow each other in the order of its messages, each on a
/// line of its own.
pub proof fn law_canonical_prompt_of_two_parts(a: Seq<JsonView>, b: Seq<JsonView>)
    ensures
        canonical_prompt(Seq::empty()) == Seq::<char>::empty(),
        a.len() > 0 && b.len() > 0 ==> canonical_prompt(a + b) == canonical_prompt(a) + "\n"@
            + canonical_prompt(b),
{
    let line = |m: JsonView| message_line(m);
    assert(Seq::<JsonView>::empty().map_values(line) =~= Seq::<Seq<char>>::empty());
    if a.len() > 0 && b.len() > 0 {
        assert((a + b).map_values(line) =~= a.map_values(line) + b.map_values(line));
        law_joined(a.map_values(line), Seq::empty(), b.map_values(line), "\n"@);
    }
}

/// Conversations that differ in the text content of one message alone, whatever its role
/// and its other members, have different canonical prompts.
pub proof fn law_contents_tell_conversations_apart(
    before: Seq<JsonView>,
    m: JsonView,
    n: JsonView,
    after: Seq<JsonView>,
)
    requires
        m.get("role"@) == n.get("role"@),
        m.get("content"@) is Some,
        n.get("content"@) is Some,
        m.get("content"@)->0 is Text,
        n.get("content"@)->0 is Text,
        m.get("content"@) != n.get("content"@),
    ensures
        canonical_prompt(before + seq![m] + after) != canonical_prompt(before + seq![n] + after),
{
    lemma_prompt_around(before, m, after);
    lemma_prompt_around(before, n, after);
    law_message_line(m);
    law_message_line(n);
    let head = if before.len() > 0 {
        canonical_prompt(before) + "\n"@
    } else {
        Seq::empty()
    };
    let tail = if after.len() > 0 {
        "\n"@ + canonical_prompt(after)
    } else {
        Seq::empty()
    };
    let role = match m.get("role"@) {
        Some(JsonView::Text(r)) => r,
        _ => "user"@,
    };
    let start = head + role + ": "@;
    let x = m.get("content"@)->0->Text_0;
    let y = n.get("content"@)->0->Text_0;
    let p = canonical_prompt(before + seq![m] + after);
    let q = canonical_prompt(before + seq![n] + after);
    assert(p =~= start + x + tail);
    assert(q =~= start + y + tail);
    if p == q {
        let from = start.len() as int;
        assert(x =~= p.subrange(from, p.len() - tail.len()));
        assert(y =~= q.subrange(from, q.len() - tail.len()));
    }
}

proof fn lemma_prompt_around(before: Seq<JsonView>, m: JsonView, after: Seq<JsonView>)
    ensures
        canonical_prompt(before + seq![m] + after) == (if before.len() > 0 {
            canonical_prompt(before) + "\n"@
        } else {
            Seq::empty()
        }) + canonical_prompt(seq![m]) + (if after.len() > 0 {
            "\n"@ + canonical_prompt(after)
        } else {
            Seq::empty()
        }),
{
    law_canonical_prompt_of_two_parts(before, seq![m]);
    law_canonical_prompt_of_two_parts(before + seq![m], after);
    if before.len() == 0 {
        assert(before + seq![m] =~= seq![m]);
    }
    if after.len() == 0 {
        assert(before + seq![m] + after =~= before + seq![m]);
    }
    assert(canonical_prompt(before + seq![m] + after) =~= (if before.len() > 0 {
        canonical_prompt(before) + "\n"@
    } else {
        Seq::empty()
    }) + canonical_prompt(seq![m]) + (if after.len() > 0 {
        "\n"@ + canonical_prompt(after)
    } else {
        Seq::empty()
    }));
}

/// Requests whose conversations differ in the text content of one message alone, whatever
/// its role, are not planned alike where they are cacheable.
pub proof fn law_contents_tell_requests_apart(
    a: JsonView,
    b: JsonView,
    before: Seq<JsonView>,
    m: JsonView,
    n: JsonView,
    after: Seq<JsonView>,
)
    requires
        a.get("messages"@) == Some(JsonView::List(before + seq![m] + after)),
        b.get("messages"@) == Some(JsonView::List(before + seq![n] + after)),
        m.get("role"@) == n.get("role"@),
        m.get("content"@) is Some,
        n.get("content"@) is Some,
        m.get("content"@)->0 is Text,
        n.get("content"@)->0 is Text,
        m.get("content"@) != n.get("content"@),
    ensures
        plan_for(a) is Cacheable && plan_for(b) is Cacheable ==> plan_for(a)->canonical != plan_for(
            b,
        )->canonical,
{
    law_contents_tell_conversations_apart(before, m, n, after);
}

/// What the text of a content is: a text is taken as it is; of a list the texts of its
/// parts count, in order, with a space between; a part without a text adds nothing.
pub proof fn law_content_text(
    a: Seq<JsonView>,
    part: JsonView,
    b: Seq<JsonView>,
    text: Seq<char>,
    other: JsonView,
)
    ensures
        content_text(None) == Seq::<char>::empty(),
        content_text(Some(JsonView::Text(text))) == text,
        !(other is Text) && !(other is List) ==> content_text(Some(other)) == rendered_json(other),
        content_text(Some(JsonView::List(Seq::empty()))) == Seq::<char>::empty(),
        content_text(Some(JsonView::List(seq![part]))) == match part.get("text"@) {
            Some(JsonView::Text(t)) => t,
            _ => Seq::empty(),
        },
        ({
            let before = content_text(Some(JsonView::List(a)));
            let after = content_text(Some(JsonView::List(b)));
            b.len() == 1 ==> content_text(Some(JsonView::List(a + b))) == match b[0].get("text"@) {
                Some(JsonView::Text(t)) => if before.len() > 0 {
                    before + " "@ + t
                } else {
                    t
                },
                _ => before,
            }
        }),
{
    assert(seq![part].drop_last() =~= Seq::<JsonView>::empty());
    assert(part_texts(seq![part].drop_last()) =~= Seq::<char>::empty());
    assert(part_texts(Seq::empty()) =~= Seq::<char>::empty());
    if b.len() == 1 {
        assert((a + b).drop_last() =~= a);
        assert((a + b).last() == b[0]);
    }
}

/// What the plan for a request is, member by member. Nothing but the members `messages`,
/// `model` and `stream` bears on it.
pub proof fn law_plan(request: JsonView)
    ensures
        (plan_for(request) is Cacheable) <==> (request.get("messages"@) matches Some(
            JsonView::List(messages),
        ) && messages.len() > 0 && encode_utf8(canonical_prompt(messages)).len() <= 131_072),
        plan_for(request) matches PlanView::Cacheable { model, canonical, format } ==> {
            &&& canonical == canonical_prompt(request.get("messages"@)->0->List_0)
            &&& model == match request.get("model"@) {
                Some(JsonView::Text(m)) => if m.len() <= 96 {
                    m
                } else {
                    m.take(96)
                },
                _ => Seq::empty(),
            }
            &&& format == match request.get("stream"@) {
                Some(JsonView::Bool(true)) => ResponseFormat::Streaming,
                _ => ResponseFormat::NonStreaming,
            }
        },
        plan_for_body(Some(request)) == plan_for(request),
        plan_for_body(None) is Bypass,
{
}

/// The text of choices is that of each, in order: a choice whose part holds a text adds
/// exactly this text, whatever else it holds, and any other choice adds nothing.
pub proof fn law_choices_text(
    a: Seq<JsonView>,
    choice: JsonView,
    b: Seq<JsonView>,
    part: Seq<char>,
)
    ensures
        choices_text(Seq::empty(), part) == Seq::<char>::empty(),
        choices_text(seq![choice], part) == match choice.get(part) {
            Some(inner) => match inner.get("content"@) {
                Some(JsonView::Text(t)) => t,
                _ => Seq::empty(),
            },
            None => Seq::empty(),
        },
        choices_text(a + b, part) == choices_text(a, part) + choices_text(b, part),
    decreases b.len(),
{
    assert(choices_text(Seq::empty(), part) =~= Seq::<char>::empty());
    assert(seq![choice].drop_last() =~= Seq::<JsonView>::empty());
    assert(choices_text(seq![choice].drop_last(), part) =~= Seq::<char>::empty());
    assert(choices_text(seq![choice], part) =~= match choice.get(part) {
        Some(inner) => match inner.get("content"@) {
            Some(JsonView::Text(t)) => t,
            _ => Seq::empty(),
        },
        None => Seq::empty(),
    });
    if b.len() == 0 {
        assert(a + b =~= a);
        assert(choices_text(a + b, part) =~= choices_text(a, part) + choices_text(b, part));
    } else {
        assert((a + b).drop_last() =~= a + b.drop_last());
        law_choices_text(a, choice, b.drop_last(), part);
        assert(choices_text(a + b, part) =~= choices_text(a, part) + choices_text(b, part));
    }
}

/// The text of an answer with one choice is the text under the part of this choice; of
/// more choices, that of the first ones followed by that of the others. An answer without
/// a list of choices has none.
pub proof fn law_answer_text(
    answer: JsonView,
    inner: JsonView,
    text: Seq<char>,
    first: JsonView,
    second: JsonView,
    part: Seq<char>,
)
    ensures
        !(answer.get("choices"@) matches Some(JsonView::List(_))) ==> answer_text(answer, part)
            is None,
        (answer.get("choices"@) matches Some(JsonView::List(choices)) && choices.len() == 1
            && choices[0].get(part) == Some(inner) && inner.get("content"@) == Some(
            JsonView::Text(text),
        )) ==> answer_text(answer, part) == Some(text),
        (answer.get("choices"@) is Some && first.get("choices"@) is Some && second.get("choices"@)
            is Some && answer.get("choices"@)->0 is List && first.get("choices"@)->0 is List
            && second.get("choices"@)->0 is List && answer.get("choices"@)->0->List_0 == first.get(
            "choices"@,
        )->0->List_0 + second.get("choices"@)->0->List_0) ==> (answer_text(answer, part) matches Some(
            t,
        ) && answer_text(first, part) is Some && answer_text(second, part) is Some && t
            == answer_text(first, part)->0 + answer_text(second, part)->0),
{
    match answer.get("choices"@) {
        Some(JsonView::List(choices)) => {
            if choices.len() == 1 {
                assert(choices =~= seq![choices[0]]);
                law_choices_text(choices, choices[0], choices, part);
            }
            match (first.get("choices"@), second.get("choices"@)) {
                (Some(JsonView::List(x)), Some(JsonView::List(y))) => {
                    law_choices_text(x, answer, y, part);
                },
                _ => {},
            }
        },
        _ => {},
    }
}

/// A text is read line by line: what stands before a line break is a line, without the
/// carriage return that may end it, and the lines of the rest follow; what is left without
/// a line break is a line unless it is empty.
pub proof fn law_text_lines(line: Seq<char>, rest: Seq<char>)
    requires
        forall|i: int| 0 <= i < line.len() ==> #[trigger] line[i] != '\n',
    ensures
        text_lines(Seq::empty()) == Seq::<Seq<char>>::empty(),
        line.len() > 0 ==> text_lines(line) == seq![line],
        text_lines(line + seq!['\n'] + rest) == seq![
            if line.len() > 0 && line.last() == '\r' {
                line.drop_last()
            } else {
                line
            },
        ] + text_lines(rest),
{
    let cut_line = if line.len() > 0 && line.last() == '\r' {
        line.drop_last()
    } else {
        line
    };
    law_parts(line, '\n', rest);
    law_parts(Seq::empty(), '\n', rest);
    assert(seq![line].drop_last() =~= Seq::<Seq<char>>::empty());
    assert(text_lines(Seq::empty()) =~= Seq::<Seq<char>>::empty());
    if line.len() > 0 {
        assert(text_lines(line) =~= seq![line]);
    }
    let pieces = parts(rest, '\n');
    lemma_parts_size(rest, '\n');
    let all = seq![line] + pieces;
    assert(all.drop_last() =~= seq![line] + pieces.drop_last());
    assert(all.last() == pieces.last());
    assert(text_lines(line + seq!['\n'] + rest) =~= seq![cut_line] + text_lines(rest));
}

/// The payload of a line is what follows `data:`, without the white space around it, be
/// there white space before `data:` or not. An empty payload and `[DONE]` do not count,
/// and a line that starts otherwise has none.
pub proof fn law_payload(
    indent: Seq<char>,
    before: Seq<char>,
    payload: Seq<char>,
    after: Seq<char>,
    line: Seq<char>,
)
    requires
        forall|i: int| 0 <= i < indent.len() ==> whitespace(#[trigger] indent[i]),
        forall|i: int| 0 <= i < before.len() ==> whitespace(#[trigger] before[i]),
        forall|i: int| 0 <= i < after.len() ==> whitespace(#[trigger] after[i]),
        payload.len() > 0 ==> !whitespace(payload[0]) && !whitespace(payload.last()),
    ensures
        payload_of(indent + ("data:"@ + (before + payload + after))) == if payload.len() == 0
            || payload == "[DONE]"@ {
            None
        } else {
            Some(payload)
        },
        !has_prefix(trimmed_start(line), "data:"@) ==> payload_of(line) is None,
{
    let body = before + payload + after;
    reveal_strlit("data:");
    let start = "data:"@ + body;
    assert(start[0] == 'd');
    lemma_trimmed_start_of(indent, start);
    law_has_prefix("data:"@, body, start);
    assert(start.skip("data:"@.len() as int) =~= body);
    law_trimmed(before, payload, after);
}

/// The assistant's text of a body: of a buffered one that of the `message` of its
/// choices; of a streamed one that of the `delta` of the choices of its lines, put
/// together over the lines that hold a chunk.
pub proof fn law_assistant_text(body: Seq<u8>, line: Seq<char>, a: Seq<Seq<char>>, b: Seq<Seq<char>>)
    ensures
        assistant_text(body, ResponseFormat::NonStreaming) == match parsed_json(body) {
            Some(answer) => answer_text(answer, "message"@),
            None => None,
        },
        assistant_text(body, ResponseFormat::Streaming) == if valid_utf8(body) {
            stream_text(text_lines(decode_utf8(body)))
        } else {
            None
        },
        stream_text(Seq::empty()) is None,
        stream_text(seq![line]) == match payload_of(line) {
            Some(payload) => match parsed_json(encode_utf8(payload)) {
                Some(event) => answer_text(event, "delta"@),
                None => None,
            },
            None => None,
        },
        stream_text(a + b) == match (stream_text(a), stream_text(b)) {
            (Some(s), Some(t)) => Some(s + t),
            (Some(s), None) => Some(s),
            (None, Some(t)) => Some(t),
            (None, None) => None,
        },
{
    assert(seq![line].drop_last() =~= Seq::<Seq<char>>::empty());
    assert(stream_text(seq![line].drop_last()) is None);
    lemma_stream_text_of_two(a, b);
}

/// An answer is as long as the assistant's text; where there is none, as the body.
pub proof fn law_answer_chars(body: Seq<u8>, format: ResponseFormat)
    ensures
        assistant_text(body, format) matches Some(t) ==> answer_chars(body, format) == t.len(),
        assistant_text(body, format) is None ==> answer_chars(body, format) == body.len(),
{
}

/// The view of a plan shows all of it.
pub proof fn law_plan_view(plan: CachePlan)
    ensures
        plan is Bypass ==> plan@ is Bypass,
        plan matches CachePlan::Cacheable { model, canonical, format } ==> plan@
            == (PlanView::Cacheable { model: model@, canonical: canonical@, format }),
{
}

} // verus!
