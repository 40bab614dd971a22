//! The dual-layer, fully local semantic cache.
//!
//! A lookup has two layers, cheapest first. The exact layer finds the entry whose
//! key is made of the same response format, model and normalized prompt. On an
//! exact miss the semantic layer takes the most similar live entry of the same
//! model and format, and serves it only if its score reaches the threshold.
//! Entries expire, and the store is capped: expired entries are never served, and
//! both rules are enforced on insert.
//!
//! Similarity is computed by the caller, who holds the embeddings as a type of
//! its own; time is handed in as nanoseconds on a monotonic clock.
use crate::buffer::{content, share};
use crate::headers::{duplicate_headers, headers_view, Header, HeaderView};
use crate::score::{Score, ONE_BITS};
use crate::text::{
    all_ascii, ascii, ascii_lower, ascii_lowered, join, joined, law_runs, lemma_filtered,
    lemma_joined_chars, lemma_joined_lowered, lemma_runs_chars, lemma_runs_joined,
    lemma_runs_mapped, lowercase, same_text, split_whitespace, whitespace, words,
};
use bytes::Bytes;
use vstd::hash_map::StringHashMap;
use vstd::prelude::*;

verus! {

/// Tunable cache behavior.
#[derive(Debug, Clone, Copy)]
pub struct CacheConfig {
    /// Minimum similarity for a semantic hit.
    pub threshold: Score,
    /// Entries at least this old, in nanoseconds, are ignored and evicted.
    pub ttl: u128,
    /// Hard cap on stored entries; the oldest is evicted when exceeded.
    pub max_entries: usize,
}

/// Whether a cached response is a single buffered body or a captured event
/// stream. The two are stored as separate entries and replayed in their own
/// format.
#[derive(Debug, Clone, Copy, PartialEq, Eq, Structural)]
pub enum ResponseFormat {
    NonStreaming,
    Streaming,
}

impl ResponseFormat {
    /// The tag of a format in a cache key.
    pub open spec fn spec_tag(self) -> char {
        match self {
            ResponseFormat::NonStreaming => 'n',
            ResponseFormat::Streaming => 's',
        }
    }

    /// Short tag used in the cache key namespace.
    pub fn tag(self) -> (c: char)
        ensures
            c == self.spec_tag(),
    {
        match self {
            ResponseFormat::NonStreaming => 'n',
            ResponseFormat::Streaming => 's',
        }
    }

    pub fn as_str(self) -> (s: &'static str)
        ensures
            s@ == match self {
                ResponseFormat::NonStreaming => "non-streaming"@,
                ResponseFormat::Streaming => "streaming"@,
            },
    {
        match self {
            ResponseFormat::NonStreaming => "non-streaming",
            ResponseFormat::Streaming => "streaming",
        }
    }
}

/// A response captured verbatim, to be replayed on a hit.
pub struct CachedResponse {
    pub status: u16,
    /// End-to-end response headers needed to reconstruct the reply.
    pub headers: Vec<Header>,
    /// The full body, or the raw bytes of the captured event stream.
    pub body: Bytes,
    pub format: ResponseFormat,
}

/// A captured response as mathematics.
pub ghost struct ResponseView {
    pub status: u16,
    pub headers: Seq<HeaderView>,
    pub body: Seq<u8>,
    pub format: ResponseFormat,
}

impl View for CachedResponse {
    type V = ResponseView;

    open spec fn view(&self) -> ResponseView {
        ResponseView {
            status: self.status,
            headers: headers_view(self.headers@),
            body: content(self.body),
            format: self.format,
        }
    }
}

impl CachedResponse {
    /// An equal response; the body is shared, not copied.
    pub fn duplicate(&self) -> (r: CachedResponse)
        ensures
            r@ == self@,
    {
        CachedResponse {
            status: self.status,
            headers: duplicate_headers(&self.headers),
            body: share(&self.body),
            format: self.format,
        }
    }
}

/// Which layer produced a hit.
#[derive(Debug, Clone, Copy, PartialEq, Eq, Structural)]
pub enum HitLayer {
    Exact,
    Semantic,
}

impl HitLayer {
    /// The name of a layer.
    pub open spec fn spec_str(self) -> Seq<char> {
        match self {
            HitLayer::Exact => "exact"@,
            HitLayer::Semantic => "semantic"@,
        }
    }

    pub fn as_str(self) -> (s: &'static str)
        ensures
            s@ == self.spec_str(),
    {
        match self {
            HitLayer::Exact => "exact",
            HitLayer::Semantic => "semantic",
        }
    }
}

/// A successful cache lookup.
pub struct CacheHit {
    pub layer: HitLayer,
    pub similarity: Score,
    /// The normalized prompt of the entry that matched.
    pub matched_prompt: String,
    pub response: CachedResponse,
}

/// A successful lookup as mathematics.
pub ghost struct HitView {
    pub layer: HitLayer,
    pub similarity: Score,
    pub matched_prompt: Seq<char>,
    pub response: ResponseView,
}

impl View for CacheHit {
    type V = HitView;

    open spec fn view(&self) -> HitView {
        HitView {
            layer: self.layer,
            similarity: self.similarity,
            matched_prompt: self.matched_prompt@,
            response: self.response@,
        }
    }
}

/// The view of an optional hit.
pub open spec fn hit_view(hit: Option<CacheHit>) -> Option<HitView> {
    match hit {
        Some(h) => Some(h@),
        None => None,
    }
}

/// The normal form of a prompt in the exact layer: its words joined by single
/// spaces, in lower case.
pub open spec fn normal_form(s: Seq<char>) -> Seq<char> {
    lowercase(joined(words(s), " "@))
}

/// Light normalization for the exact layer: lowercase and collapse white space.
pub fn normalize_exact(text: &str) -> (r: String)
    ensures
        r@ == normal_form(text@),
{
    join(&split_whitespace(text), " ").as_str().to_lowercase()
}

/// White space does not matter beyond where it stands: a prompt has the normal form
/// of its words joined by single spaces.
pub proof fn law_white_space_is_collapsed(s: Seq<char>)
    ensures
        words(joined(words(s), " "@)) == words(s),
        normal_form(joined(words(s), " "@)) == normal_form(s),
{
    let keep = |c: char| !whitespace(c);
    lemma_runs_chars(s, keep, |c: char| true);
    lemma_runs_joined(words(s), keep);
}

/// A normal form, in any script, is its own normal form, provided that lowercasing it
/// changes nothing and has brought in no further white space.
pub proof fn law_normal_form_is_stable_where_lowercase_is(s: Seq<char>)
    requires
        lowercase(normal_form(s)) == normal_form(s),
        joined(words(normal_form(s)), " "@) == normal_form(s),
    ensures
        normal_form(normal_form(s)) == normal_form(s),
{
}

/// The normal form of a prompt that is in lower case already, in any script, is the
/// prompt with its white space collapsed, and is its own normal form.
pub proof fn law_normal_form_of_lowercase_is_stable(s: Seq<char>)
    requires
        lowercase(joined(words(s), " "@)) == joined(words(s), " "@),
    ensures
        normal_form(s) == joined(words(s), " "@),
        normal_form(normal_form(s)) == normal_form(s),
{
    law_white_space_is_collapsed(s);
}

/// The normal form of an ASCII prompt is its own normal form.
pub proof fn law_normal_form_of_ascii_is_stable(s: Seq<char>)
    requires
        all_ascii(s),
    ensures
        all_ascii(normal_form(s)),
        normal_form(normal_form(s)) == normal_form(s),
{
    let keep = |c: char| !whitespace(c);
    let lower = |c: char| ascii_lower(c);
    let plain = joined(words(s), " "@);
    reveal_strlit(" ");
    lemma_runs_chars(s, keep, |c: char| ascii(c));
    lemma_joined_chars(words(s), " "@, |c: char| ascii(c));
    assert(all_ascii(plain));
    let n = ascii_lowered(plain);
    assert(normal_form(s) == n);
    law_white_space_is_collapsed(s);
    lemma_runs_mapped(plain, keep, lower);
    assert(words(s).map_values(|r: Seq<char>| r.map_values(lower)) =~= words(s).map_values(
        |p: Seq<char>| ascii_lowered(p),
    ));
    assert(ascii_lowered(" "@) =~= " "@);
    lemma_joined_lowered(words(s), " "@);
    assert(joined(words(n), " "@) == n);
    assert(ascii_lowered(n) =~= n);
}

/// The character that separates the parts of a cache key.
pub const UNIT_SEPARATOR: char = '\u{1f}';

/// The key made of a format, a lowercase model and a normalized prompt.
pub open spec fn key_of(format: ResponseFormat, model: Seq<char>, prompt: Seq<char>) -> Seq<char> {
    seq![format.spec_tag(), UNIT_SEPARATOR] + model + seq![UNIT_SEPARATOR] + prompt
}

/// Puts a key together.
pub fn compose_key(format: ResponseFormat, model: &str, prompt: &str) -> (key: String)
    ensures
        key@ == key_of(format, model@, prompt@),
{
    let mut key = String::new();
    key.push(format.tag());
    key.push(UNIT_SEPARATOR);
    key.append(model);
    key.push(UNIT_SEPARATOR);
    key.append(prompt);
    assert(key@ =~= key_of(format, model@, prompt@));
    key
}

/// The cache key of a request.
pub open spec fn request_key(
    model: Seq<char>,
    canonical: Seq<char>,
    format: ResponseFormat,
) -> Seq<char> {
    key_of(format, lowercase(model), normal_form(canonical))
}

/// The cache key: format tag, model namespace and normalized prompt.
pub fn exact_key(model: &str, canonical: &str, format: ResponseFormat) -> (r: String)
    ensures
        r@ == request_key(model@, canonical@, format),
{
    compose_key(format, model.to_lowercase().as_str(), normalize_exact(canonical).as_str())
}

/// A stored response, with what it is found by.
pub struct Entry<E> {
    key: String,
    embedding: E,
    norm_prompt: String,
    model: String,
    response: CachedResponse,
    created: u128,
}

/// An entry as mathematics.
#[verifier::reject_recursive_types(E)]
pub ghost struct EntryView<E> {
    /// The key it is stored under.
    pub key: Seq<char>,
    pub embedding: E,
    /// The normalized prompt.
    pub norm_prompt: Seq<char>,
    pub model: Seq<char>,
    pub response: ResponseView,
    /// When it was made.
    pub created: u128,
}

impl<E> View for Entry<E> {
    type V = EntryView<E>;

    closed spec fn view(&self) -> EntryView<E> {
        EntryView {
            key: self.key@,
            embedding: self.embedding,
            norm_prompt: self.norm_prompt@,
            model: self.model@,
            response: self.response@,
            created: self.created,
        }
    }
}

impl<E> EntryView<E> {
    /// How old the entry is at `now`; nothing is younger than new.
    pub open spec fn age(self, now: u128) -> int {
        if now >= self.created {
            now - self.created
        } else {
            0
        }
    }

    /// Whether the entry has outlived `ttl` at `now`.
    pub open spec fn expired(self, now: u128, ttl: u128) -> bool {
        self.age(now) >= ttl
    }

    /// The hit that serves this entry.
    pub open spec fn hit(self, layer: HitLayer, similarity: Score) -> HitView {
        HitView { layer, similarity, matched_prompt: self.norm_prompt, response: self.response }
    }
}

/// What a cache holds: its entries, in the order in which they were stored.
#[verifier::reject_recursive_types(E)]
pub ghost struct CacheView<E> {
    pub config: CacheConfig,
    pub entries: Seq<EntryView<E>>,
}

/// The position of the entry with the given key, if there is one.
pub open spec fn find_key<E>(entries: Seq<EntryView<E>>, key: Seq<char>) -> Option<int>
    decreases entries.len(),
{
    if entries.len() == 0 {
        None
    } else if entries.last().key == key {
        Some(entries.len() - 1)
    } else {
        find_key(entries.drop_last(), key)
    }
}

/// The positions before `n` of the entries that a semantic lookup considers.
pub open spec fn eligible<E>(
    cache: CacheView<E>,
    model: Seq<char>,
    format: ResponseFormat,
    now: u128,
    n: int,
) -> Seq<int>
    decreases n,
{
    if n <= 0 {
        Seq::empty()
    } else {
        let before = eligible(cache, model, format, now, n - 1);
        if cache.considers(n - 1, model, format, now) {
            before.push(n - 1)
        } else {
            before
        }
    }
}

/// The position of the best of a list of scores: the first, unless a later one
/// exceeds the best before it.
pub open spec fn best(scores: Seq<Score>) -> Option<int>
    decreases scores.len(),
{
    if scores.len() == 0 {
        None
    } else {
        match best(scores.drop_last()) {
            None => Some(0),
            Some(b) => if scores.last().above(scores[b]) {
                Some(scores.len() - 1)
            } else {
                Some(b)
            },
        }
    }
}

/// The position of the oldest entry; of several, the one stored first.
pub open spec fn oldest<E>(entries: Seq<EntryView<E>>) -> int
    decreases entries.len(),
{
    if entries.len() <= 1 {
        0
    } else {
        let o = oldest(entries.drop_last());
        if entries.last().created < entries[o].created {
            entries.len() - 1
        } else {
            o
        }
    }
}

/// What is left when the oldest entries are removed until at most `cap` remain.
pub open spec fn evicted<E>(entries: Seq<EntryView<E>>, cap: int) -> Seq<EntryView<E>>
    decreases entries.len(),
    via evicted_decreases::<E>
{
    if entries.len() <= cap || entries.len() == 0 {
        entries
    } else {
        evicted(entries.remove(oldest(entries)), cap)
    }
}

#[via_fn]
proof fn evicted_decreases<E>(entries: Seq<EntryView<E>>, cap: int) {
    if entries.len() > 0 {
        lemma_oldest(entries);
    }
}

/// What `oldest` returns: a place in the list, with no older entry anywhere and
/// none as old before it.
pub proof fn lemma_oldest<E>(entries: Seq<EntryView<E>>)
    requires
        entries.len() > 0,
    ensures
        0 <= oldest(entries) < entries.len(),
        forall|i: int|
            0 <= i < entries.len() ==> entries[oldest(entries)].created <= (
            #[trigger] entries[i]).created,
        forall|i: int|
            0 <= i < oldest(entries) ==> entries[oldest(entries)].created < (
            #[trigger] entries[i]).created,
    decreases entries.len(),
{
    if entries.len() > 1 {
        let rest = entries.drop_last();
        lemma_oldest(rest);
        assert forall|i: int| 0 <= i < entries.len() implies entries[oldest(entries)].created <= (
        #[trigger] entries[i]).created && (i < oldest(entries) ==> entries[oldest(entries)].created
            < entries[i].created) by {
            if i < rest.len() {
                assert(rest[i] == entries[i]);
            }
        }
    }
}

/// Every entry is stored under the key that its own fields make, and no two
/// under the same key.
pub open spec fn keyed<E>(entries: Seq<EntryView<E>>) -> bool {
    &&& forall|i: int|
        0 <= i < entries.len() ==> (#[trigger] entries[i]).key == key_of(
            entries[i].response.format,
            lowercase(entries[i].model),
            entries[i].norm_prompt,
        )
    &&& forall|i: int, j: int|
        0 <= i < j < entries.len() ==> (#[trigger] entries[i]).key != (#[trigger] entries[j]).key
}

proof fn lemma_filter_keyed<E>(entries: Seq<EntryView<E>>, keep: spec_fn(EntryView<E>) -> bool)
    requires
        keyed(entries),
    ensures
        keyed(entries.filter(keep)),
    decreases entries.len(),
{
    reveal(Seq::filter);
    if entries.len() > 0 {
        let rest = entries.drop_last();
        lemma_filter_keyed(rest, keep);
        lemma_filtered(rest, keep);
        let kept = rest.filter(keep);
        if keep(entries.last()) {
            let all = kept.push(entries.last());
            assert forall|i: int, j: int| 0 <= i < j < all.len() implies (#[trigger] all[i]).key
                != (#[trigger] all[j]).key by {
                if j == kept.len() {
                    assert(rest.contains(kept[i]));
                    let k = rest.index_of(kept[i]);
                    assert(entries[k] == kept[i]);
                }
            }
        }
    }
}

proof fn lemma_evicted_keyed<E>(entries: Seq<EntryView<E>>, cap: int)
    requires
        keyed(entries),
        cap >= 0,
    ensures
        keyed(evicted(entries, cap)),
        evicted(entries, cap).len() <= cap,
    decreases entries.len(),
{
    if entries.len() > cap {
        lemma_oldest(entries);
        let rest = entries.remove(oldest(entries));
        assert forall|i: int, j: int| 0 <= i < j < rest.len() implies (#[trigger] rest[i]).key != (
        #[trigger] rest[j]).key by {
            let o = oldest(entries);
            let a = if i < o { i } else { i + 1 };
            let b = if j < o { j } else { j + 1 };
            assert(entries[a].key != entries[b].key);
        }
        lemma_evicted_keyed(rest, cap);
    }
}

impl<E> CacheView<E> {
    /// Whether a semantic lookup considers the entry at `i`: same model, same
    /// format, not expired.
    pub open spec fn considers(
        self,
        i: int,
        model: Seq<char>,
        format: ResponseFormat,
        now: u128,
    ) -> bool {
        &&& self.entries[i].model == model
        &&& self.entries[i].response.format == format
        &&& !self.entries[i].expired(now, self.config.ttl)
    }

    /// The positions of all the entries that a semantic lookup considers.
    pub open spec fn candidates(
        self,
        model: Seq<char>,
        format: ResponseFormat,
        now: u128,
    ) -> Seq<int> {
        eligible(self, model, format, now, self.entries.len() as int)
    }

    /// The hit of the exact layer: the live entry with the request's key.
    pub open spec fn exact_hit(
        self,
        model: Seq<char>,
        canonical: Seq<char>,
        format: ResponseFormat,
        now: u128,
    ) -> Option<HitView> {
        match find_key(self.entries, request_key(model, canonical, format)) {
            Some(i) => if self.entries[i].expired(now, self.config.ttl) {
                None
            } else {
                Some(self.entries[i].hit(HitLayer::Exact, Score { bits: ONE_BITS }))
            },
            None => None,
        }
    }

    /// The hit of the semantic layer, given the candidates' scores: the best
    /// candidate, if its score reaches the threshold.
    pub open spec fn semantic_hit(self, candidates: Seq<int>, scores: Seq<Score>) -> Option<HitView> {
        match best(scores) {
            Some(b) => if scores[b].at_least(self.config.threshold) {
                Some(self.entries[candidates[b]].hit(HitLayer::Semantic, scores[b]))
            } else {
                None
            },
            None => None,
        }
    }

    /// The entries that are live at `now` and stored under another key.
    pub open spec fn survivors(self, key: Seq<char>, now: u128) -> Seq<EntryView<E>> {
        self.entries.filter(
            |e: EntryView<E>| !e.expired(now, self.config.ttl) && e.key != key,
        )
    }

    /// The cache after an entry is stored: expired entries are dropped, an entry
    /// with the same key is replaced, and the oldest are evicted down to the cap.
    pub open spec fn inserted(self, entry: EntryView<E>, now: u128) -> CacheView<E> {
        CacheView {
            config: self.config,
            entries: evicted(
                self.survivors(entry.key, now).push(entry),
                self.config.max_entries as int,
            ),
        }
    }

    /// The entry made for a response.
    pub open spec fn entry_for(
        model: Seq<char>,
        canonical: Seq<char>,
        response: ResponseView,
        embedding: E,
        created: u128,
    ) -> EntryView<E> {
        EntryView {
            key: request_key(model, canonical, response.format),
            embedding,
            norm_prompt: normal_form(canonical),
            model,
            response,
            created,
        }
    }
}

/// Where each key stands among entries.
spec fn places<E>(entries: Seq<EntryView<E>>) -> Map<Seq<char>, usize>
    decreases entries.len(),
{
    if entries.len() == 0 {
        Map::empty()
    } else {
        places(entries.drop_last()).insert(entries.last().key, (entries.len() - 1) as usize)
    }
}

proof fn lemma_places<E>(entries: Seq<EntryView<E>>, key: Seq<char>)
    requires
        entries.len() <= usize::MAX,
    ensures
        match find_key(entries, key) {
            Some(i) => 0 <= i < entries.len() && places(entries).contains_key(key)
                && places(entries)[key] == i,
            None => !places(entries).contains_key(key),
        },
    decreases entries.len(),
{
    if entries.len() > 0 {
        lemma_places(entries.drop_last(), key);
    }
}

/// The cache. `E` is the type of the embeddings.
pub struct SemanticCache<E> {
    config: CacheConfig,
    /// In the order in which they were stored.
    entries: Vec<Entry<E>>,
    /// Where each key stands among the entries.
    index: StringHashMap<usize>,
}

impl<E> View for SemanticCache<E> {
    type V = CacheView<E>;

    closed spec fn view(&self) -> CacheView<E> {
        CacheView { config: self.config, entries: entry_views(self.entries@) }
    }
}

/// The views of a list of entries.
pub open spec fn entry_views<E>(entries: Seq<Entry<E>>) -> Seq<EntryView<E>> {
    entries.map_values(|e: Entry<E>| e@)
}

impl<E> SemanticCache<E> {
    #[verifier::type_invariant]
    spec fn inv(self) -> bool {
        self.index@ == places(entry_views(self.entries@))
    }

    /// The invariant of a cache: its entries are keyed as they should be, and no
    /// more are stored than the cap allows.
    pub open spec fn wf(self) -> bool {
        keyed(self@.entries) && self@.entries.len() <= self@.config.max_entries
    }

    pub fn new(config: CacheConfig) -> (c: Self)
        ensures
            c.wf(),
            c@.config == config,
            c@.entries.len() == 0,
    {
        let entries: Vec<Entry<E>> = Vec::new();
        let index = StringHashMap::new();
        assert(index@ =~= places(entry_views(entries@)));
        SemanticCache { config, entries, index }
    }

    /// The number of entries stored.
    pub fn len(&self) -> (n: usize)
        ensures
            n == self@.entries.len(),
    {
        self.entries.len()
    }

    fn is_expired(&self, entry: &Entry<E>, now: u128) -> (r: bool)
        ensures
            r == entry@.expired(now, self@.config.ttl),
    {
        now.saturating_sub(entry.created) >= self.config.ttl
    }

    fn position(&self, key: &str) -> (r: Option<usize>)
        ensures
            match r {
                Some(i) => find_key(self@.entries, key@) == Some(i as int) && i
                    < self@.entries.len(),
                None => find_key(self@.entries, key@) is None,
            },
    {
        let n: usize = self.entries.len();
        proof {
            use_type_invariant(self);
            assert(self@.entries.len() == n);
            lemma_places(self@.entries, key@);
        }
        match self.index.get(key) {
            Some(i) => Some(*i),
            None => None,
        }
    }

    /// The exact layer alone.
    pub fn lookup_exact(
        &self,
        model: &str,
        canonical: &str,
        format: ResponseFormat,
        now: u128,
    ) -> (hit: Option<CacheHit>)
        ensures
            hit_view(hit) == self@.exact_hit(model@, canonical@, format, now),
    {
        let key = exact_key(model, canonical, format);
        match self.position(key.as_str()) {
            Some(i) => {
                let entry = &self.entries[i];
                assert(self@.entries[i as int] == entry@);
                if self.is_expired(entry, now) {
                    None
                } else {
                    Some(
                        CacheHit {
                            layer: HitLayer::Exact,
                            similarity: Score::one(),
                            matched_prompt: entry.norm_prompt.clone(),
                            response: entry.response.duplicate(),
                        },
                    )
                }
            },
            None => None,
        }
    }

    /// The positions of the live entries of a model and format.
    pub fn candidates(&self, model: &str, format: ResponseFormat, now: u128) -> (r: Vec<usize>)
        ensures
            r@.map_values(|i: usize| i as int) == self@.candidates(model@, format, now),
            forall|k: int| 0 <= k < r@.len() ==> (#[trigger] r@[k]) < self@.entries.len(),
    {
        let mut out: Vec<usize> = Vec::new();
        let mut i: usize = 0;
        assert(out@.map_values(|i: usize| i as int) =~= Seq::<int>::empty());
        while i < self.entries.len()
            invariant
                i <= self.entries@.len(),
                self@.entries == entry_views(self.entries@),
                out@.map_values(|i: usize| i as int) == eligible(
                    self@,
                    model@,
                    format,
                    now,
                    i as int,
                ),
                forall|k: int| 0 <= k < out@.len() ==> (#[trigger] out@[k]) < i,
            decreases self.entries@.len() - i,
        {
            let entry = &self.entries[i];
            assert(self@.entries[i as int] == entry@);
            if same_text(entry.model.as_str(), model) && entry.response.format == format
                && !self.is_expired(entry, now) {
                let ghost before = out@;
                out.push(i);
                assert(out@.map_values(|i: usize| i as int) =~= before.map_values(
                    |i: usize| i as int,
                ).push(i as int));
            }
            i += 1;
        }
        out
    }

    /// The semantic layer's choice, once the candidates are scored.
    pub fn pick(&self, candidates: &Vec<usize>, scores: &Vec<Score>) -> (hit: Option<CacheHit>)
        requires
            candidates@.len() == scores@.len(),
            forall|k: int| 0 <= k < candidates@.len() ==> (#[trigger] candidates@[k])
                < self@.entries.len(),
        ensures
            hit_view(hit) == self@.semantic_hit(
                candidates@.map_values(|i: usize| i as int),
                scores@,
            ),
    {
        let mut chosen: Option<usize> = None;
        let mut k: usize = 0;
        while k < scores.len()
            invariant
                k <= scores@.len(),
                match chosen {
                    Some(b) => best(scores@.take(k as int)) == Some(b as int) && b < k,
                    None => best(scores@.take(k as int)) is None,
                },
            decreases scores@.len() - k,
        {
            assert(scores@.take(k + 1).drop_last() =~= scores@.take(k as int));
            match chosen {
                None => {
                    chosen = Some(k);
                    proof {
                        if k > 0 {
                            lemma_best(scores@.take(k as int));
                        }
                    }
                },
                Some(b) => {
                    if scores[k].exceeds(scores[b]) {
                        chosen = Some(k);
                    }
                },
            }
            k += 1;
        }
        assert(scores@.take(scores@.len() as int) =~= scores@);
        match chosen {
            Some(b) => {
                if scores[b].reaches(self.config.threshold) {
                    let entry = &self.entries[candidates[b]];
                    assert(self@.entries[candidates@[b as int] as int] == entry@);
                    Some(
                        CacheHit {
                            layer: HitLayer::Semantic,
                            similarity: scores[b],
                            matched_prompt: entry.norm_prompt.clone(),
                            response: entry.response.duplicate(),
                        },
                    )
                } else {
                    None
                }
            },
            None => None,
        }
    }

    /// Looks up a cached response for a model, a canonical prompt and a format.
    /// `score` gives the similarity of the prompt to a stored embedding; it is not
    /// called when the exact layer has a hit.
    pub fn lookup<F: Fn(&E) -> Score>(
        &self,
        model: &str,
        canonical: &str,
        format: ResponseFormat,
        now: u128,
        score: F,
    ) -> (hit: Option<CacheHit>)
        requires
            forall|e: &E| call_requires(score, (e,)),
        ensures
            answers(score, self@, model@, canonical@, format, now, hit_view(hit)),
            // Of a live entry under the request's key the exact layer makes a hit, and of
            // nothing else.
            ({
                let all = self@.entries;
                let ttl = self@.config.ttl;
                let key = request_key(model@, canonical@, format);
                &&& ((forall|a: int, b: int|
                    0 <= a < b < all.len() ==> (#[trigger] all[a]).key != (#[trigger] all[b]).key)
                    && (exists|i: int|
                    0 <= i < all.len() && (#[trigger] all[i]).key == key && !all[i].expired(now, ttl)))
                    ==> (hit_view(hit) matches Some(h) && h.layer == HitLayer::Exact && h.similarity.bits
                    == 0x3f80_0000)
                &&& hit_view(hit) matches Some(h) ==> h.layer == HitLayer::Exact ==> exists|i: int|
                    0 <= i < all.len() && (#[trigger] all[i]).key == key && !all[i].expired(now, ttl)
                        && h.response == all[i].response && h.matched_prompt == all[i].norm_prompt
            }),
            // A semantic hit is a live entry of the model and format that is close enough.
            ({
                let all = self@.entries;
                let ttl = self@.config.ttl;
                hit_view(hit) matches Some(h) ==> h.layer == HitLayer::Semantic ==> h.similarity.at_least(
                    self@.config.threshold,
                ) && exists|j: int|
                    0 <= j < all.len() && (#[trigger] all[j]).model == model@ && all[j].response.format
                        == format && !all[j].expired(now, ttl) && call_ensures(
                        score,
                        (&all[j].embedding,),
                        h.similarity,
                    ) && h.response == all[j].response && h.matched_prompt == all[j].norm_prompt
            }),
            // Where nothing is live under the key, the scores are numbers, and some live entry of
            // the model and format is close enough, the closest of them is served.
            ({
                let all = self@.entries;
                let ttl = self@.config.ttl;
                let key = request_key(model@, canonical@, format);
                let numbers = forall|i: int, s: Score|
                    0 <= i < all.len() && all[i].model == model@ && all[i].response.format == format
                        && !all[i].expired(now, ttl) && #[trigger] call_ensures(
                        score,
                        (&all[i].embedding,),
                        s,
                    ) ==> !s.is_nan();
                let close = exists|i: int|
                    0 <= i < all.len() && (#[trigger] all[i]).model == model@ && all[i].response.format
                        == format && !all[i].expired(now, ttl) && forall|s: Score| #[trigger]
                        call_ensures(score, (&all[i].embedding,), s) ==> s.at_least(self@.config.threshold);
                ((forall|i: int|
                    0 <= i < all.len() && (#[trigger] all[i]).key == key ==> all[i].expired(now, ttl))
                    && numbers && close) ==> (hit_view(hit) matches Some(h) && h.layer == HitLayer::Semantic
                    && exists|j: int|
                    0 <= j < all.len() && (#[trigger] all[j]).model == model@ && all[j].response.format
                        == format && !all[j].expired(now, ttl) && h.response == all[j].response
                        && call_ensures(score, (&all[j].embedding,), h.similarity) && forall|k: int|
                        0 <= k < all.len() && (#[trigger] all[k]).model == model@ && all[k].response.format
                            == format && !all[k].expired(now, ttl) ==> exists|s: Score| #[trigger]
                            call_ensures(score, (&all[k].embedding,), s) && s.rank()
                                <= h.similarity.rank())
            }),
    {
        match self.lookup_exact(model, canonical, format, now) {
            Some(hit) => {
                proof {
                    law_lookup_serves_the_closest(
                        score,
                        self@,
                        model@,
                        canonical@,
                        format,
                        now,
                        Some(hit@),
                    );
                }
                return Some(hit);
            },
            None => {},
        }
        let candidates = self.candidates(model, format, now);
        let ghost places = candidates@.map_values(|i: usize| i as int);
        let mut scores: Vec<Score> = Vec::new();
        let mut k: usize = 0;
        while k < candidates.len()
            invariant
                k <= candidates@.len(),
                scores@.len() == k,
                self@.entries == entry_views(self.entries@),
                forall|e: &E| call_requires(score, (e,)),
                forall|k: int| 0 <= k < candidates@.len() ==> (#[trigger] candidates@[k])
                    < self@.entries.len(),
                forall|j: int|
                    0 <= j < k ==> call_ensures(
                        score,
                        (&self@.entries[candidates@[j] as int].embedding,),
                        #[trigger] scores@[j],
                    ),
            decreases candidates@.len() - k,
        {
            let entry = &self.entries[candidates[k]];
            assert(self@.entries[candidates@[k as int] as int] == entry@);
            let s = score(&entry.embedding);
            scores.push(s);
            k += 1;
        }
        assert(scored(score, self@, places, scores@)) by {
            assert forall|j: int| 0 <= j < scores@.len() implies call_ensures(
                score,
                (&self@.entries[places[j]].embedding,),
                #[trigger] scores@[j],
            ) by {
                assert(places[j] == candidates@[j]);
            }
        }
        let hit = self.pick(&candidates, &scores);
        proof {
            law_lookup_serves_the_closest(
                score,
                self@,
                model@,
                canonical@,
                format,
                now,
                hit_view(hit),
            );
        }
        hit
    }

    /// Stores a response under a model and canonical prompt; its format is part of
    /// the key. `created` is when the entry was made, `now` when it is stored.
    pub fn insert(
        &mut self,
        model: &str,
        canonical: &str,
        response: CachedResponse,
        embedding: E,
        created: u128,
        now: u128,
    )
        requires
            old(self).wf(),
        ensures
            final(self).wf(),
            final(self)@ == old(self)@.inserted(
                CacheView::entry_for(model@, canonical@, response@, embedding, created),
                now,
            ),
    {
        let key = exact_key(model, canonical, response.format);
        let ghost before = self@;
        let ghost fresh = CacheView::entry_for(model@, canonical@, response@, embedding, created);
        let ttl: u128 = self.config.ttl;
        let max_entries: usize = self.config.max_entries;
        let ghost keep = |e: EntryView<E>| !e.expired(now, before.config.ttl) && e.key != fresh.key;
        let entry = Entry {
            key,
            embedding,
            norm_prompt: normalize_exact(canonical),
            model: model.to_owned(),
            response,
            created,
        };
        let config = self.config;
        let mut former: SemanticCache<E> = SemanticCache::new(config);
        std::mem::swap(&mut former, self);
        let stale = former.entries;
        let ghost all = entry_views(stale@);
        let ghost old_entries = stale@;
        let mut kept: Vec<Entry<E>> = Vec::new();
        proof {
            reveal(Seq::filter);
            assert(entry_views(kept@) =~= all.take(0).filter(keep));
        }
        for e in it: stale
            invariant
                it.seq() == old_entries,
                all == entry_views(old_entries),
                ttl == before.config.ttl,
                entry@ == fresh,
                keep == (|e: EntryView<E>|
                    !e.expired(now, before.config.ttl) && e.key != fresh.key),
                entry_views(kept@) == all.take(it.index() as int).filter(keep),
        {
            let ghost i = it.index() as int;
            let ghost prior = kept@;
            proof {
                reveal(Seq::filter);
                assert(all.take(i + 1).drop_last() =~= all.take(i));
                assert(all[i] == e@);
            }
            if now.saturating_sub(e.created) < ttl && !same_text(e.key.as_str(), entry.key.as_str()) {
                let ghost seen = e@;
                kept.push(e);
                assert(entry_views(kept@) =~= entry_views(prior).push(seen));
            }
        }
        assert(all.take(all.len() as int) =~= all);
        let ghost survivors = kept@;
        kept.push(entry);
        proof {
            assert(entry_views(kept@) =~= entry_views(survivors).push(fresh));
            lemma_filter_keyed(all, keep);
            lemma_filtered(all, keep);
            let with = entry_views(kept@);
            assert forall|i: int, j: int| 0 <= i < j < with.len() implies (#[trigger] with[i]).key
                != (#[trigger] with[j]).key by {
                if j == with.len() - 1 {
                    assert(keep(with[i]));
                }
            }
            lemma_evicted_keyed(with, before.config.max_entries as int);
        }
        let ghost full = entry_views(kept@);
        while kept.len() > max_entries
            invariant
                evicted(entry_views(kept@), max_entries as int) == evicted(full, max_entries as int),
            decreases kept@.len(),
        {
            let o = oldest_of(&kept);
            let ghost prior = kept@;
            proof {
                lemma_oldest(entry_views(kept@));
            }
            kept.remove(o);
            assert(entry_views(kept@) =~= entry_views(prior).remove(o as int));
        }
        let index = index_of(&kept);
        *self = SemanticCache { config, entries: kept, index };
        assert(self@.entries =~= evicted(full, max_entries as int));
    }
}

/// Where each key stands among the entries.
fn index_of<E>(entries: &Vec<Entry<E>>) -> (index: StringHashMap<usize>)
    ensures
        index@ == places(entry_views(entries@)),
{
    let ghost all = entry_views(entries@);
    let mut index: StringHashMap<usize> = StringHashMap::new();
    let mut i: usize = 0;
    assert(index@ =~= places(all.take(0)));
    while i < entries.len()
        invariant
            i <= entries@.len(),
            all == entry_views(entries@),
            index@ == places(all.take(i as int)),
        decreases entries@.len() - i,
    {
        assert(all.take(i + 1).drop_last() =~= all.take(i as int));
        assert(all.take(i + 1).last() == entries@[i as int]@);
        index.insert(entries[i].key.clone(), i);
        i += 1;
    }
    assert(all.take(all.len() as int) =~= all);
    index
}

/// The position of the oldest entry.
fn oldest_of<E>(entries: &Vec<Entry<E>>) -> (o: usize)
    requires
        entries@.len() > 0,
    ensures
        o == oldest(entry_views(entries@)),
        o < entries@.len(),
{
    let ghost all = entry_views(entries@);
    let mut o: usize = 0;
    let mut i: usize = 1;
    while i < entries.len()
        invariant
            1 <= i <= entries@.len(),
            o < i,
            all == entry_views(entries@),
            o == oldest(all.take(i as int)),
        decreases entries@.len() - i,
    {
        assert(all.take(i + 1).drop_last() =~= all.take(i as int));
        assert(all[i as int] == entries@[i as int]@);
        assert(all[o as int] == entries@[o as int]@);
        if entries[i].created < entries[o].created {
            o = i;
        }
        i += 1;
    }
    assert(all.take(all.len() as int) =~= all);
    o
}

/// Whether `scores` are scores of the candidates' embeddings.
pub open spec fn scored<E, F: Fn(&E) -> Score>(
    score: F,
    cache: CacheView<E>,
    candidates: Seq<int>,
    scores: Seq<Score>,
) -> bool {
    &&& scores.len() == candidates.len()
    &&& forall|j: int|
        0 <= j < scores.len() ==> call_ensures(
            score,
            (&cache.entries[candidates[j]].embedding,),
            #[trigger] scores[j],
        )
}

/// Whether a lookup may answer with `hit`: that of the exact layer, where it has
/// one; otherwise that of the semantic layer, for scores that `score` gives.
pub open spec fn answers<E, F: Fn(&E) -> Score>(
    score: F,
    cache: CacheView<E>,
    model: Seq<char>,
    canonical: Seq<char>,
    format: ResponseFormat,
    now: u128,
    hit: Option<HitView>,
) -> bool {
    let exact = cache.exact_hit(model, canonical, format, now);
    let candidates = cache.candidates(model, format, now);
    &&& exact is Some ==> hit == exact
    &&& exact is None ==> exists|scores: Seq<Score>|
        {
            &&& #[trigger] scored(score, cache, candidates, scores)
            &&& hit == cache.semantic_hit(candidates, scores)
        }
}

/// The best of a non-empty list of scores is one of them.
pub proof fn lemma_best(scores: Seq<Score>)
    ensures
        scores.len() > 0 ==> (best(scores) matches Some(b) && 0 <= b < scores.len()),
        scores.len() == 0 ==> best(scores) is None,
    decreases scores.len(),
{
    if scores.len() > 0 {
        lemma_best(scores.drop_last());
    }
}

/// Keys of different formats differ: a streamed answer is never found under the
/// key of a buffered one, nor the other way round.
pub proof fn law_key_tells_formats_apart(
    f1: ResponseFormat,
    model1: Seq<char>,
    prompt1: Seq<char>,
    f2: ResponseFormat,
    model2: Seq<char>,
    prompt2: Seq<char>,
)
    requires
        key_of(f1, model1, prompt1) == key_of(f2, model2, prompt2),
    ensures
        f1 == f2,
{
    assert(key_of(f1, model1, prompt1)[0] == f1.spec_tag());
    assert(key_of(f2, model2, prompt2)[0] == f2.spec_tag());
}

/// Keys of different models or prompts differ, as long as no model holds the
/// separator.
pub proof fn law_key_tells_models_and_prompts_apart(
    f1: ResponseFormat,
    model1: Seq<char>,
    prompt1: Seq<char>,
    f2: ResponseFormat,
    model2: Seq<char>,
    prompt2: Seq<char>,
)
    requires
        key_of(f1, model1, prompt1) == key_of(f2, model2, prompt2),
        !model1.contains(UNIT_SEPARATOR),
        !model2.contains(UNIT_SEPARATOR),
    ensures
        model1 == model2,
        prompt1 == prompt2,
{
    let k1 = key_of(f1, model1, prompt1);
    let k2 = key_of(f2, model2, prompt2);
    assert(k1[model1.len() + 2int] == UNIT_SEPARATOR);
    assert(k2[model2.len() + 2int] == UNIT_SEPARATOR);
    if model1.len() < model2.len() {
        assert(k2[model1.len() + 2int] == model2[model1.len() as int]);
    }
    if model2.len() < model1.len() {
        assert(k1[model2.len() + 2int] == model1[model2.len() as int]);
    }
    assert forall|i: int| 0 <= i < model1.len() implies model1[i] == model2[i] by {
        assert(k1[2 + i] == model1[i]);
        assert(k2[2 + i] == model2[i]);
    }
    assert(model1 =~= model2);
    assert(k1.len() == 3 + model1.len() + prompt1.len());
    assert(k2.len() == 3 + model2.len() + prompt2.len());
    assert forall|i: int| 0 <= i < prompt1.len() implies prompt1[i] == prompt2[i] by {
        assert(k1[3 + model1.len() + i] == prompt1[i]);
        assert(k2[3 + model2.len() + i] == prompt2[i]);
    }
    assert(prompt1 =~= prompt2);
}

/// Two requests have the same key exactly when their formats, their models up to
/// letter case and their normalized prompts agree, as long as neither lowercase model
/// holds the separator.
pub proof fn law_request_keys(
    m1: Seq<char>,
    p1: Seq<char>,
    f1: ResponseFormat,
    m2: Seq<char>,
    p2: Seq<char>,
    f2: ResponseFormat,
)
    requires
        !lowercase(m1).contains(UNIT_SEPARATOR),
        !lowercase(m2).contains(UNIT_SEPARATOR),
    ensures
        request_key(m1, p1, f1) == request_key(m2, p2, f2) <==> {
            &&& f1 == f2
            &&& lowercase(m1) == lowercase(m2)
            &&& normal_form(p1) == normal_form(p2)
        },
{
    if request_key(m1, p1, f1) == request_key(m2, p2, f2) {
        law_key_tells_formats_apart(
            f1,
            lowercase(m1),
            normal_form(p1),
            f2,
            lowercase(m2),
            normal_form(p2),
        );
        law_key_tells_models_and_prompts_apart(
            f1,
            lowercase(m1),
            normal_form(p1),
            f2,
            lowercase(m2),
            normal_form(p2),
        );
    }
}

/// Two requests for ASCII models without the separator, whatever their prompts, have
/// the same key exactly when their formats, their models up to letter case and their
/// normalized prompts agree.
pub proof fn law_request_keys_of_ascii_models(
    m1: Seq<char>,
    p1: Seq<char>,
    f1: ResponseFormat,
    m2: Seq<char>,
    p2: Seq<char>,
    f2: ResponseFormat,
)
    requires
        all_ascii(m1),
        all_ascii(m2),
        !m1.contains(UNIT_SEPARATOR),
        !m2.contains(UNIT_SEPARATOR),
    ensures
        request_key(m1, p1, f1) == request_key(m2, p2, f2) <==> {
            &&& f1 == f2
            &&& lowercase(m1) == lowercase(m2)
            &&& normal_form(p1) == normal_form(p2)
        },
{
    lemma_no_separator_from_lowercase(m1);
    lemma_no_separator_from_lowercase(m2);
    law_request_keys(m1, p1, f1, m2, p2, f2);
}

proof fn lemma_no_separator_from_lowercase(model: Seq<char>)
    requires
        all_ascii(model),
        !model.contains(UNIT_SEPARATOR),
    ensures
        !lowercase(model).contains(UNIT_SEPARATOR),
{
    let low = lowercase(model);
    assert forall|i: int| 0 <= i < low.len() implies low[i] != UNIT_SEPARATOR by {
        assert(low[i] == ascii_lower(model[i]));
        assert(model.contains(model[i]));
    }
}

/// What `find_key` returns: the last entry with the key, if any has it.
pub proof fn lemma_find_key<E>(entries: Seq<EntryView<E>>, key: Seq<char>)
    ensures
        match find_key(entries, key) {
            Some(i) => 0 <= i < entries.len() && entries[i].key == key,
            None => forall|i: int| 0 <= i < entries.len() ==> (#[trigger] entries[i]).key != key,
        },
    decreases entries.len(),
{
    if entries.len() > 0 && entries.last().key != key {
        let rest = entries.drop_last();
        lemma_find_key(rest, key);
        if find_key(rest, key) is None {
            assert forall|i: int| 0 <= i < entries.len() implies (#[trigger] entries[i]).key
                != key by {
                if i < rest.len() {
                    assert(rest[i] == entries[i]);
                }
            }
        }
    }
}

/// An exact hit serves the stored response of a live entry whose key is the
/// request's, and its format is the one asked for.
pub proof fn law_exact_hit_is_live_and_of_its_format<E>(
    cache: CacheView<E>,
    model: Seq<char>,
    canonical: Seq<char>,
    format: ResponseFormat,
    now: u128,
) -> (i: int)
    requires
        keyed(cache.entries),
        cache.exact_hit(model, canonical, format, now) is Some,
    ensures
        0 <= i < cache.entries.len(),
        cache.entries[i].key == request_key(model, canonical, format),
        !cache.entries[i].expired(now, cache.config.ttl),
        cache.entries[i].response.format == format,
        cache.exact_hit(model, canonical, format, now) == Some(
            cache.entries[i].hit(HitLayer::Exact, Score { bits: ONE_BITS }),
        ),
{
    let key = request_key(model, canonical, format);
    lemma_find_key(cache.entries, key);
    let i = find_key(cache.entries, key)->0;
    law_key_tells_formats_apart(
        cache.entries[i].response.format,
        lowercase(cache.entries[i].model),
        cache.entries[i].norm_prompt,
        format,
        lowercase(model),
        normal_form(canonical),
    );
    i
}

/// An exact hit is of the model asked for, up to letter case, and of the same
/// normalized prompt, as long as no model holds the key separator.
pub proof fn law_exact_hit_is_of_its_model_and_prompt<E>(
    cache: CacheView<E>,
    model: Seq<char>,
    canonical: Seq<char>,
    format: ResponseFormat,
    now: u128,
) -> (i: int)
    requires
        keyed(cache.entries),
        cache.exact_hit(model, canonical, format, now) is Some,
        !lowercase(model).contains(UNIT_SEPARATOR),
        forall|i: int|
            0 <= i < cache.entries.len() ==> !lowercase(
                (#[trigger] cache.entries[i]).model,
            ).contains(UNIT_SEPARATOR),
    ensures
        0 <= i < cache.entries.len(),
        cache.exact_hit(model, canonical, format, now) == Some(
            cache.entries[i].hit(HitLayer::Exact, Score { bits: ONE_BITS }),
        ),
        lowercase(cache.entries[i].model) == lowercase(model),
        cache.entries[i].norm_prompt == normal_form(canonical),
{
    let i = law_exact_hit_is_live_and_of_its_format(cache, model, canonical, format, now);
    law_key_tells_models_and_prompts_apart(
        format,
        lowercase(cache.entries[i].model),
        cache.entries[i].norm_prompt,
        format,
        lowercase(model),
        normal_form(canonical),
    );
    i
}

/// The candidates of a semantic lookup are exactly the places of the entries it
/// considers, in order.
pub proof fn lemma_eligible<E>(
    cache: CacheView<E>,
    model: Seq<char>,
    format: ResponseFormat,
    now: u128,
    n: int,
)
    requires
        0 <= n <= cache.entries.len(),
    ensures
        forall|k: int|
            0 <= k < eligible(cache, model, format, now, n).len() ==> 0 <= (#[trigger] eligible(
                cache,
                model,
                format,
                now,
                n,
            )[k]) < n && cache.considers(
                eligible(cache, model, format, now, n)[k],
                model,
                format,
                now,
            ),
        forall|i: int|
            0 <= i < n && #[trigger] cache.considers(i, model, format, now) ==> eligible(
                cache,
                model,
                format,
                now,
                n,
            ).contains(i),
    decreases n,
{
    if n > 0 {
        lemma_eligible(cache, model, format, now, n - 1);
        let before = eligible(cache, model, format, now, n - 1);
        let after = eligible(cache, model, format, now, n);
        assert forall|i: int|
            0 <= i < n && #[trigger] cache.considers(i, model, format, now) implies after.contains(
            i,
        ) by {
            if i < n - 1 {
                assert(before.contains(i));
                let k = before.index_of(i);
                assert(after[k] == i);
            } else {
                assert(after.last() == i);
            }
        }
        assert forall|k: int| 0 <= k < after.len() implies 0 <= (#[trigger] after[k]) < n
            && cache.considers(after[k], model, format, now) by {
            if k < before.len() {
                assert(after[k] == before[k]);
            }
        }
    }
}

/// A semantic hit serves the stored response of a live entry of the same model
/// and format, with a score that reaches the threshold.
pub proof fn law_semantic_hit_is_live_and_close<E>(
    cache: CacheView<E>,
    model: Seq<char>,
    format: ResponseFormat,
    now: u128,
    scores: Seq<Score>,
) -> (b: int)
    requires
        scores.len() == cache.candidates(model, format, now).len(),
        cache.semantic_hit(cache.candidates(model, format, now), scores) is Some,
    ensures
        0 <= b < scores.len(),
        ({
            let i = cache.candidates(model, format, now)[b];
            &&& 0 <= i < cache.entries.len()
            &&& cache.entries[i].model == model
            &&& cache.entries[i].response.format == format
            &&& !cache.entries[i].expired(now, cache.config.ttl)
            &&& scores[b].at_least(cache.config.threshold)
            &&& cache.semantic_hit(cache.candidates(model, format, now), scores) == Some(
                cache.entries[i].hit(HitLayer::Semantic, scores[b]),
            )
        }),
{
    lemma_best(scores);
    lemma_eligible(cache, model, format, now, cache.entries.len() as int);
    let b = best(scores)->0;
    assert(cache.considers(cache.candidates(model, format, now)[b], model, format, now));
    b
}

/// What a lookup answers, told by the entries and their scores alone: the exact layer
/// goes first; then, for either format alike, the closest live entry of that very
/// model and format, if it is close enough.
pub proof fn law_lookup_serves_the_closest<E, F: Fn(&E) -> Score>(
    score: F,
    cache: CacheView<E>,
    model: Seq<char>,
    canonical: Seq<char>,
    format: ResponseFormat,
    now: u128,
    hit: Option<HitView>,
)
    requires
        answers(score, cache, model, canonical, format, now, hit),
    ensures
        // Of a live entry under the request's key the exact layer makes a hit, and of
        // nothing else.
        ({
            let all = cache.entries;
            let ttl = cache.config.ttl;
            let key = request_key(model, canonical, format);
            &&& ((forall|a: int, b: int|
                0 <= a < b < all.len() ==> (#[trigger] all[a]).key != (#[trigger] all[b]).key)
                && (exists|i: int|
                0 <= i < all.len() && (#[trigger] all[i]).key == key && !all[i].expired(now, ttl)))
                ==> (hit matches Some(h) && h.layer == HitLayer::Exact && h.similarity.bits
                == 0x3f80_0000)
            &&& hit matches Some(h) ==> h.layer == HitLayer::Exact ==> exists|i: int|
                0 <= i < all.len() && (#[trigger] all[i]).key == key && !all[i].expired(now, ttl)
                    && h.response == all[i].response && h.matched_prompt == all[i].norm_prompt
        }),
        // A semantic hit is a live entry of the model and format that is close enough.
        ({
            let all = cache.entries;
            let ttl = cache.config.ttl;
            hit matches Some(h) ==> h.layer == HitLayer::Semantic ==> h.similarity.at_least(
                cache.config.threshold,
            ) && exists|j: int|
                0 <= j < all.len() && (#[trigger] all[j]).model == model && all[j].response.format
                    == format && !all[j].expired(now, ttl) && call_ensures(
                    score,
                    (&all[j].embedding,),
                    h.similarity,
                ) && h.response == all[j].response && h.matched_prompt == all[j].norm_prompt
        }),
        // Where nothing is live under the key, the scores are numbers, and some live entry of
        // the model and format is close enough, the closest of them is served.
        ({
            let all = cache.entries;
            let ttl = cache.config.ttl;
            let key = request_key(model, canonical, format);
            let numbers = forall|i: int, s: Score|
                0 <= i < all.len() && all[i].model == model && all[i].response.format == format
                    && !all[i].expired(now, ttl) && #[trigger] call_ensures(
                    score,
                    (&all[i].embedding,),
                    s,
                ) ==> !s.is_nan();
            let close = exists|i: int|
                0 <= i < all.len() && (#[trigger] all[i]).model == model && all[i].response.format
                    == format && !all[i].expired(now, ttl) && forall|s: Score| #[trigger]
                    call_ensures(score, (&all[i].embedding,), s) ==> s.at_least(cache.config.threshold);
            ((forall|i: int|
                0 <= i < all.len() && (#[trigger] all[i]).key == key ==> all[i].expired(now, ttl))
                && numbers && close) ==> (hit matches Some(h) && h.layer == HitLayer::Semantic
                && exists|j: int|
                0 <= j < all.len() && (#[trigger] all[j]).model == model && all[j].response.format
                    == format && !all[j].expired(now, ttl) && h.response == all[j].response
                    && call_ensures(score, (&all[j].embedding,), h.similarity) && forall|k: int|
                    0 <= k < all.len() && (#[trigger] all[k]).model == model && all[k].response.format
                        == format && !all[k].expired(now, ttl) ==> exists|s: Score| #[trigger]
                        call_ensures(score, (&all[k].embedding,), s) && s.rank()
                            <= h.similarity.rank())
        }),
{
    let key = request_key(model, canonical, format);
    let n = cache.entries.len() as int;
    let candidates = cache.candidates(model, format, now);
    lemma_find_key(cache.entries, key);
    lemma_eligible(cache, model, format, now, n);
    let exact = cache.exact_hit(model, canonical, format, now);
    if exact is None {
        let scores = choose|scores: Seq<Score>|
            {
                &&& #[trigger] scored(score, cache, candidates, scores)
                &&& hit == cache.semantic_hit(candidates, scores)
            };
        lemma_best(scores);
        assert forall|i: int|
            0 <= i < n && #[trigger] cache.considers(i, model, format, now) implies exists|p: int|
            0 <= p < candidates.len() && candidates[p] == i && call_ensures(
                score,
                (&cache.entries[i].embedding,),
                #[trigger] scores[p],
            ) by {
            let p = candidates.index_of(i);
            assert(call_ensures(score, (&cache.entries[candidates[p]].embedding,), scores[p]));
        }
        assert forall|p: int| 0 <= p < scores.len() implies cache.considers(
            #[trigger] candidates[p],
            model,
            format,
            now,
        ) && call_ensures(
            score,
            (&cache.entries[candidates[p]].embedding,),
            scores[p],
        ) by {
            assert(call_ensures(score, (&cache.entries[candidates[p]].embedding,), scores[p]));
        }
        if (forall|i: int, s: Score|
            0 <= i < n && cache.considers(i, model, format, now) && #[trigger] call_ensures(
                score,
                (&cache.entries[i].embedding,),
                s,
            ) ==> !s.is_nan()) && (exists|i: int|
            0 <= i < n && #[trigger] cache.considers(i, model, format, now) && forall|s: Score|
                #[trigger]
                call_ensures(score, (&cache.entries[i].embedding,), s) ==> s.at_least(
                    cache.config.threshold,
                )) {
            lemma_closest(score, cache, model, format, now, candidates, scores);
            let b = best(scores)->0;
            assert(cache.considers(candidates[b], model, format, now));
            assert forall|k: int|
                0 <= k < n && (#[trigger] cache.entries[k]).model == model
                    && cache.entries[k].response.format == format && !cache.entries[k].expired(
                    now,
                    cache.config.ttl,
                ) implies exists|s: Score| #[trigger]
                call_ensures(score, (&cache.entries[k].embedding,), s) && s.rank()
                    <= scores[b].rank() by {
                assert(cache.considers(k, model, format, now));
            }
        } else if (forall|i: int, s: Score|
            0 <= i < n && cache.entries[i].model == model && cache.entries[i].response.format
                == format && !cache.entries[i].expired(now, cache.config.ttl)
                && #[trigger] call_ensures(score, (&cache.entries[i].embedding,), s)
                ==> !s.is_nan()) {
            assert forall|i: int|
                0 <= i < n && (#[trigger] cache.entries[i]).model == model
                    && cache.entries[i].response.format == format && !cache.entries[i].expired(
                    now,
                    cache.config.ttl,
                ) implies !(forall|s: Score| #[trigger]
                call_ensures(score, (&cache.entries[i].embedding,), s) ==> s.at_least(
                    cache.config.threshold,
                )) by {
                assert(cache.considers(i, model, format, now));
            }
        }
        if hit is Some {
            let b = law_semantic_hit_is_live_and_close(cache, model, format, now, scores);
            assert(call_ensures(score, (&cache.entries[candidates[b]].embedding,), scores[b]));
        }
    }
}

proof fn lemma_closest<E, F: Fn(&E) -> Score>(
    score: F,
    cache: CacheView<E>,
    model: Seq<char>,
    format: ResponseFormat,
    now: u128,
    candidates: Seq<int>,
    scores: Seq<Score>,
)
    requires
        candidates == cache.candidates(model, format, now),
        scored(score, cache, candidates, scores),
        forall|i: int, s: Score|
            0 <= i < cache.entries.len() && cache.considers(i, model, format, now)
                && #[trigger] call_ensures(score, (&cache.entries[i].embedding,), s)
                ==> !s.is_nan(),
        exists|i: int|
            0 <= i < cache.entries.len() && #[trigger] cache.considers(i, model, format, now)
                && forall|s: Score| #[trigger]
                call_ensures(score, (&cache.entries[i].embedding,), s) ==> s.at_least(
                    cache.config.threshold,
                ),
    ensures
        best(scores) matches Some(b) && 0 <= b < scores.len() && scores[b].at_least(
            cache.config.threshold,
        ) && forall|k: int|
            0 <= k < cache.entries.len() && #[trigger] cache.considers(k, model, format, now)
                ==> exists|s: Score| #[trigger]
                call_ensures(score, (&cache.entries[k].embedding,), s) && s.rank()
                    <= scores[b].rank(),
{
    let n = cache.entries.len() as int;
    lemma_eligible(cache, model, format, now, n);
    assert forall|p: int| 0 <= p < scores.len() implies !(#[trigger] scores[p]).is_nan() by {
        assert(cache.considers(candidates[p], model, format, now));
        assert(call_ensures(score, (&cache.entries[candidates[p]].embedding,), scores[p]));
    }
    let near = choose|i: int|
        0 <= i < cache.entries.len() && #[trigger] cache.considers(i, model, format, now)
            && forall|s: Score| #[trigger]
            call_ensures(score, (&cache.entries[i].embedding,), s) ==> s.at_least(
                cache.config.threshold,
            );
    assert(candidates.contains(near));
    let q = candidates.index_of(near);
    assert(call_ensures(score, (&cache.entries[candidates[q]].embedding,), scores[q]));
    law_best_score_is_maximal(scores);
    let b = best(scores)->0;
    assert(scores[q].rank() <= scores[b].rank());
    assert forall|k: int|
        0 <= k < n && #[trigger] cache.considers(k, model, format, now) implies exists|s: Score|
        #[trigger]
        call_ensures(score, (&cache.entries[k].embedding,), s) && s.rank()
            <= scores[b].rank() by {
        assert(candidates.contains(k));
        let p = candidates.index_of(k);
        assert(call_ensures(score, (&cache.entries[candidates[p]].embedding,), scores[p]));
        assert(scores[p].rank() <= scores[b].rank());
    }
}

/// Whatever a lookup answers, it serves the stored response of a live entry of the
/// format asked for: an expired entry is never served, nor a stream in place of a
/// buffered answer, nor the other way round.
pub proof fn law_hits_are_live_and_of_their_format<E, F: Fn(&E) -> Score>(
    score: F,
    cache: CacheView<E>,
    model: Seq<char>,
    canonical: Seq<char>,
    format: ResponseFormat,
    now: u128,
    hit: HitView,
) -> (i: int)
    requires
        keyed(cache.entries),
        answers(score, cache, model, canonical, format, now, Some(hit)),
    ensures
        0 <= i < cache.entries.len(),
        !cache.entries[i].expired(now, cache.config.ttl),
        cache.entries[i].response.format == format,
        hit.response == cache.entries[i].response,
        hit.matched_prompt == cache.entries[i].norm_prompt,
{
    if cache.exact_hit(model, canonical, format, now) is Some {
        law_exact_hit_is_live_and_of_its_format(cache, model, canonical, format, now)
    } else {
        let candidates = cache.candidates(model, format, now);
        let scores = choose|scores: Seq<Score>|
            {
                &&& #[trigger] scored(score, cache, candidates, scores)
                &&& Some(hit) == cache.semantic_hit(candidates, scores)
            };
        let b = law_semantic_hit_is_live_and_close(cache, model, format, now, scores);
        candidates[b]
    }
}

/// Among scores that are numbers, none exceeds the best, and every one before it
/// is below it.
pub proof fn law_best_score_is_maximal(scores: Seq<Score>)
    requires
        scores.len() > 0,
        forall|i: int| 0 <= i < scores.len() ==> !(#[trigger] scores[i]).is_nan(),
    ensures
        best(scores) matches Some(b) && 0 <= b < scores.len() && (forall|i: int|
            0 <= i < scores.len() ==> (#[trigger] scores[i]).rank() <= scores[b].rank()) && (
        forall|i: int| 0 <= i < b ==> (#[trigger] scores[i]).rank() < scores[b].rank()),
    decreases scores.len(),
{
    lemma_best(scores.drop_last());
    if scores.len() > 1 {
        let rest = scores.drop_last();
        assert forall|i: int| 0 <= i < rest.len() implies !(#[trigger] rest[i]).is_nan() by {
            assert(rest[i] == scores[i]);
        }
        law_best_score_is_maximal(rest);
        let b = best(scores)->0;
        assert forall|i: int| 0 <= i < scores.len() implies (#[trigger] scores[i]).rank()
            <= scores[b].rank() && (i < b ==> scores[i].rank() < scores[b].rank()) by {
            if i < rest.len() {
                assert(rest[i] == scores[i]);
            }
        }
    }
}

/// A semantic lookup whose scores are numbers hits exactly when one of the
/// entries it considers scores at least the threshold.
pub proof fn law_semantic_hit_iff_something_close<E>(
    cache: CacheView<E>,
    candidates: Seq<int>,
    scores: Seq<Score>,
)
    requires
        forall|i: int| 0 <= i < scores.len() ==> !(#[trigger] scores[i]).is_nan(),
    ensures
        cache.semantic_hit(candidates, scores) is Some <==> exists|i: int|
            0 <= i < scores.len() && (#[trigger] scores[i]).at_least(cache.config.threshold),
{
    lemma_best(scores);
    if scores.len() > 0 {
        law_best_score_is_maximal(scores);
        let b = best(scores)->0;
        if !scores[b].at_least(cache.config.threshold) {
            assert forall|i: int| 0 <= i < scores.len() implies !(
            #[trigger] scores[i]).at_least(cache.config.threshold) by {
                assert(scores[i].rank() <= scores[b].rank());
            }
        }
    }
}

/// How many entries were made later than the given time.
pub open spec fn newer_than<E>(entries: Seq<EntryView<E>>, created: u128) -> nat
    decreases entries.len(),
{
    if entries.len() == 0 {
        0
    } else {
        newer_than(entries.drop_last(), created) + if entries.last().created > created {
            1nat
        } else {
            0nat
        }
    }
}

proof fn lemma_newer_than_all<E>(entries: Seq<EntryView<E>>, created: u128)
    requires
        forall|i: int| 0 <= i < entries.len() ==> (#[trigger] entries[i]).created > created,
    ensures
        newer_than(entries, created) == entries.len(),
    decreases entries.len(),
{
    if entries.len() > 0 {
        let rest = entries.drop_last();
        assert forall|i: int| 0 <= i < rest.len() implies (#[trigger] rest[i]).created
            > created by {
            assert(rest[i] == entries[i]);
        }
        lemma_newer_than_all(rest, created);
    }
}

proof fn lemma_newer_than_removed<E>(entries: Seq<EntryView<E>>, o: int, created: u128)
    requires
        0 <= o < entries.len(),
        entries[o].created <= created,
    ensures
        newer_than(entries.remove(o), created) == newer_than(entries, created),
    decreases entries.len(),
{
    if o == entries.len() - 1 {
        assert(entries.remove(o) =~= entries.drop_last());
    } else {
        assert(entries.remove(o).drop_last() =~= entries.drop_last().remove(o));
        lemma_newer_than_removed(entries.drop_last(), o, created);
    }
}

/// The last entry stays in place when the oldest are evicted, as long as fewer than
/// `cap` others are newer.
proof fn lemma_newest_stay<E>(entries: Seq<EntryView<E>>, cap: int)
    requires
        entries.len() > 0,
        newer_than(entries, entries.last().created) < cap,
    ensures
        evicted(entries, cap).len() > 0,
        evicted(entries, cap).last() == entries.last(),
    decreases entries.len(),
{
    if entries.len() > cap {
        let last = entries.last();
        let others = entries.drop_last();
        let o = oldest(entries);
        lemma_oldest(entries);
        assert(entries[o].created <= last.created);
        if o == entries.len() - 1 {
            assert forall|i: int| 0 <= i < others.len() implies (#[trigger] others[i]).created
                > last.created by {
                assert(others[i] == entries[i]);
            }
            lemma_newer_than_all(others, last.created);
        }
        let rest = entries.remove(o);
        assert(rest.last() == last);
        lemma_newer_than_removed(entries, o, last.created);
        lemma_newest_stay(rest, cap);
    }
}

/// What was stored is found: after an insert the exact layer answers the same
/// request with the response that was stored, until it expires. So it does for
/// every request that differs only in the case of the model, or in white space
/// and case of the prompt. The one exception is a cache that already holds as many
/// newer entries as it may, or may hold none: there the new entry is the oldest, and
/// is evicted at once.
pub proof fn law_insert_then_lookup<E>(
    cache: CacheView<E>,
    model: Seq<char>,
    canonical: Seq<char>,
    response: ResponseView,
    embedding: E,
    created: u128,
    now: u128,
    asked_model: Seq<char>,
    asked: Seq<char>,
    later: u128,
)
    requires
        newer_than(
            cache.survivors(request_key(model, canonical, response.format), now),
            created,
        ) < cache.config.max_entries,
        !CacheView::entry_for(model, canonical, response, embedding, created).expired(
            later,
            cache.config.ttl,
        ),
        lowercase(asked_model) == lowercase(model),
        normal_form(asked) == normal_form(canonical),
    ensures
        cache.inserted(
            CacheView::entry_for(model, canonical, response, embedding, created),
            now,
        ).exact_hit(asked_model, asked, response.format, later) == Some(
            HitView {
                layer: HitLayer::Exact,
                similarity: Score { bits: ONE_BITS },
                matched_prompt: normal_form(canonical),
                response,
            },
        ),
{
    let entry = CacheView::entry_for(model, canonical, response, embedding, created);
    let kept = cache.survivors(entry.key, now);
    let full = kept.push(entry);
    assert(full.drop_last() =~= kept);
    lemma_newest_stay(full, cache.config.max_entries as int);
}

/// Eviction takes the oldest: nothing that stays is older than anything that
/// goes, and nothing is invented.
proof fn lemma_evicted_oldest<E>(entries: Seq<EntryView<E>>, cap: int)
    ensures
        forall|i: int|
            0 <= i < evicted(entries, cap).len() ==> entries.contains(
                #[trigger] evicted(entries, cap)[i],
            ),
        forall|i: int, j: int|
            0 <= i < evicted(entries, cap).len() && 0 <= j < entries.len() && !evicted(
                entries,
                cap,
            ).contains(#[trigger] entries[j]) ==> entries[j].created <= (#[trigger] evicted(
                entries,
                cap,
            )[i]).created,
    decreases entries.len(),
{
    if entries.len() <= cap || entries.len() == 0 {
        assert forall|i: int| 0 <= i < entries.len() implies entries.contains(
            #[trigger] entries[i],
        ) by {}
    } else {
        lemma_oldest(entries);
        let o = oldest(entries);
        let rest = entries.remove(o);
        let left = evicted(entries, cap);
        lemma_evicted_oldest(rest, cap);
        assert forall|i: int| 0 <= i < left.len() implies entries.contains(#[trigger] left[i]) by {
            assert(rest.contains(left[i]));
            let k = rest.index_of(left[i]);
            assert(entries[if k < o { k } else { k + 1 }] == left[i]);
        }
        assert forall|i: int, j: int|
            0 <= i < left.len() && 0 <= j < entries.len() && !left.contains(
                #[trigger] entries[j],
            ) implies entries[j].created <= (#[trigger] left[i]).created by {
            if j == o {
                assert(entries.contains(left[i]));
                let k = entries.index_of(left[i]);
                assert(entries[o].created <= entries[k].created);
            } else {
                let k = if j < o { j } else { j - 1 };
                assert(rest[k] == entries[j]);
            }
        }
    }
}

/// What an insert leaves: no more entries than the cap; each either the new entry
/// or one that was there, live and under another key; and of the live ones, those
/// that went are no newer than those that stayed.
pub proof fn law_insert_keeps_within_bounds<E>(cache: CacheView<E>, entry: EntryView<E>, now: u128)
    ensures
        ({
            let after = cache.inserted(entry, now).entries;
            &&& after.len() <= cache.config.max_entries
            &&& forall|i: int|
                0 <= i < after.len() ==> (#[trigger] after[i]) == entry || (cache.entries.contains(
                    after[i],
                ) && !after[i].expired(now, cache.config.ttl) && after[i].key != entry.key)
            &&& forall|i: int, j: int|
                0 <= i < after.len() && 0 <= j < cache.entries.len() && !after.contains(
                    #[trigger] cache.entries[j],
                ) && !cache.entries[j].expired(now, cache.config.ttl) && cache.entries[j].key
                    != entry.key ==> cache.entries[j].created <= (#[trigger] after[i]).created
        }),
{
    let keep = |e: EntryView<E>| !e.expired(now, cache.config.ttl) && e.key != entry.key;
    let kept = cache.survivors(entry.key, now);
    let full = kept.push(entry);
    let after = cache.inserted(entry, now).entries;
    lemma_filtered(cache.entries, keep);
    lemma_evicted_oldest(full, cache.config.max_entries as int);
    lemma_evicted_len(full, cache.config.max_entries as int);
    assert forall|i: int| 0 <= i < after.len() implies (#[trigger] after[i]) == entry || (
    cache.entries.contains(after[i]) && !after[i].expired(now, cache.config.ttl) && after[i].key
        != entry.key) by {
        assert(full.contains(after[i]));
        let k = full.index_of(after[i]);
        if k < kept.len() {
            assert(keep(kept[k]));
        }
    }
    assert forall|i: int, j: int|
        0 <= i < after.len() && 0 <= j < cache.entries.len() && !after.contains(
            #[trigger] cache.entries[j],
        ) && !cache.entries[j].expired(now, cache.config.ttl) && cache.entries[j].key
            != entry.key implies cache.entries[j].created <= (#[trigger] after[i]).created by {
        assert(keep(cache.entries[j]));
        let k = kept.index_of(cache.entries[j]);
        assert(full[k] == cache.entries[j]);
    }
}

proof fn lemma_evicted_len<E>(entries: Seq<EntryView<E>>, cap: int)
    ensures
        cap >= 0 ==> evicted(entries, cap).len() <= cap,
    decreases entries.len(),
{
    if entries.len() > cap && entries.len() > 0 {
        lemma_oldest(entries);
        lemma_evicted_len(entries.remove(oldest(entries)), cap);
    }
}

/// While the cap is not exceeded, an insert removes no live entry of another key:
/// a lookup that hit such an entry still does.
pub proof fn law_insert_leaves_other_keys_alone<E>(
    cache: CacheView<E>,
    entry: EntryView<E>,
    now: u128,
    model: Seq<char>,
    canonical: Seq<char>,
    format: ResponseFormat,
    later: u128,
)
    requires
        keyed(cache.entries),
        cache.survivors(entry.key, now).len() < cache.config.max_entries,
        request_key(model, canonical, format) != entry.key,
        later >= now,
    ensures
        cache.inserted(entry, now).exact_hit(model, canonical, format, later) == cache.exact_hit(
            model,
            canonical,
            format,
            later,
        ),
{
    let key = request_key(model, canonical, format);
    let ttl = cache.config.ttl;
    let keep = |e: EntryView<E>| !e.expired(now, ttl) && e.key != entry.key;
    let kept = cache.survivors(entry.key, now);
    let full = kept.push(entry);
    assert(full.drop_last() =~= kept);
    lemma_find_key(cache.entries, key);
    lemma_find_key(kept, key);
    lemma_filtered(cache.entries, keep);
    lemma_filter_keyed(cache.entries, keep);
    match find_key(cache.entries, key) {
        Some(i) => {
            let e = cache.entries[i];
            if !e.expired(later, ttl) {
                assert(!e.expired(now, ttl));
                assert(keep(e));
                assert(kept.contains(e));
                let k = kept.index_of(e);
                assert(find_key(kept, key) is Some);
                let m = find_key(kept, key)->0;
                assert(kept[m].key == kept[k].key);
                assert(m == k);
            } else if find_key(kept, key) is Some {
                let m = find_key(kept, key)->0;
                assert(cache.entries.contains(kept[m]));
                let j = cache.entries.index_of(kept[m]);
                assert(cache.entries[j].key == cache.entries[i].key);
                assert(j == i);
            }
        },
        None => {
            if find_key(kept, key) is Some {
                let m = find_key(kept, key)->0;
                assert(cache.entries.contains(kept[m]));
            }
        },
    }
}

/// When an entry expires: once it is at least as old as the time-to-live. Before its own
/// time it is new.
pub proof fn law_expiry<E>(entry: EntryView<E>, now: u128, ttl: u128)
    ensures
        now >= entry.created ==> (entry.expired(now, ttl) <==> now - entry.created >= ttl),
        now < entry.created ==> (entry.expired(now, ttl) <==> ttl == 0),
{
}

/// What a key is made of: the format's tag, the model in lower case and the normal form
/// of the prompt, each behind a unit separator.
pub proof fn law_key_parts(model: Seq<char>, canonical: Seq<char>)
    ensures
        request_key(model, canonical, ResponseFormat::NonStreaming) == seq!['n', '\u{1f}']
            + lowercase(model) + seq!['\u{1f}'] + normal_form(canonical),
        request_key(model, canonical, ResponseFormat::Streaming) == seq!['s', '\u{1f}'] + lowercase(
            model,
        ) + seq!['\u{1f}'] + normal_form(canonical),
{
}

/// The words of a text: white space stands between them and is no part of them, and
/// nothing else parts them.
pub proof fn law_words(a: Seq<char>, space: char, b: Seq<char>)
    ensures
        words(Seq::empty()) == Seq::<Seq<char>>::empty(),
        a.len() > 0 && (forall|i: int| 0 <= i < a.len() ==> !whitespace(#[trigger] a[i])) ==> words(
            a,
        ) == seq![a],
        whitespace(space) ==> words(a + seq![space] + b) == words(a) + words(b),
{
    let keep = |c: char| !whitespace(c);
    law_runs(a, space, b, keep);
    if a.len() > 0 && (forall|i: int| 0 <= i < a.len() ==> !whitespace(#[trigger] a[i])) {
        assert forall|i: int| 0 <= i < a.len() implies keep(#[trigger] a[i]) by {
            assert(!whitespace(a[i]));
        }
    }
}

/// The normal form of a prompt is its words joined by single spaces, in lower case: of
/// an ASCII prompt the letters are lowered, and no other character changes. Prompts that
/// differ in the case of ASCII letters alone have the same one.
pub proof fn law_normal_form(s: Seq<char>, t: Seq<char>)
    ensures
        normal_form(s) == lowercase(joined(words(s), " "@)),
        all_ascii(s) ==> normal_form(s) == joined(words(s), " "@).map_values(
            |c: char|
                if 'A' <= c <= 'Z' {
                    ((c as u8) + 32) as char
                } else {
                    c
                },
        ),
        all_ascii(s) && all_ascii(t) && ascii_lowered(s) == ascii_lowered(t) ==> normal_form(s)
            == normal_form(t),
{
    if all_ascii(s) {
        lemma_normal_form_of_ascii(s);
        assert(ascii_lowered(joined(words(s), " "@)) =~= joined(words(s), " "@).map_values(
            |c: char|
                if 'A' <= c <= 'Z' {
                    ((c as u8) + 32) as char
                } else {
                    c
                },
        ));
    }
    if all_ascii(t) {
        lemma_normal_form_of_ascii(t);
    }
}

proof fn lemma_normal_form_of_ascii(s: Seq<char>)
    requires
        all_ascii(s),
    ensures
        normal_form(s) == ascii_lowered(joined(words(s), " "@)),
        normal_form(s) == joined(words(ascii_lowered(s)), " "@),
{
    let keep = |c: char| !whitespace(c);
    let lower = |c: char| ascii_lower(c);
    reveal_strlit(" ");
    lemma_runs_chars(s, keep, |c: char| ascii(c));
    lemma_joined_chars(words(s), " "@, |c: char| ascii(c));
    assert(all_ascii(joined(words(s), " "@)));
    assert forall|i: int| 0 <= i < s.len() implies keep(lower(#[trigger] s[i])) == keep(s[i]) by {
        assert(ascii(s[i]));
    }
    lemma_runs_mapped(s, keep, lower);
    assert(words(s).map_values(|r: Seq<char>| r.map_values(lower)) =~= words(s).map_values(
        |p: Seq<char>| ascii_lowered(p),
    ));
    assert(ascii_lowered(" "@) =~= " "@);
    lemma_joined_lowered(words(s), " "@);
}

/// What is stored of a response: the response itself and its embedding, under the key of
/// the request in the response's format, with the model as it was named.
pub proof fn law_entry_for<E>(
    model: Seq<char>,
    canonical: Seq<char>,
    response: ResponseView,
    embedding: E,
    created: u128,
)
    ensures
        ({
            let entry = CacheView::entry_for(model, canonical, response, embedding, created);
            &&& entry.key == request_key(model, canonical, response.format)
            &&& entry.embedding == embedding
            &&& entry.norm_prompt == normal_form(canonical)
            &&& entry.model == model
            &&& entry.response == response
            &&& entry.created == created
        }),
{
}

/// What the best of a list of scores is: the first one, where that is no number; else a
/// number that no other exceeds, and that every number before it falls short of.
pub proof fn law_best_score(scores: Seq<Score>)
    ensures
        scores.len() == 0 ==> best(scores) is None,
        scores.len() > 0 ==> (best(scores) matches Some(b) && 0 <= b < scores.len()),
        scores.len() > 0 && scores[0].is_nan() ==> best(scores) == Some(0int),
        scores.len() > 0 && !scores[0].is_nan() ==> (best(scores) matches Some(b)
            && !scores[b].is_nan() && (forall|i: int|
            0 <= i < scores.len() && !(#[trigger] scores[i]).is_nan() ==> scores[i].rank()
                <= scores[b].rank()) && (forall|i: int|
            0 <= i < b && !(#[trigger] scores[i]).is_nan() ==> scores[i].rank()
                < scores[b].rank())),
    decreases scores.len(),
{
    if scores.len() > 1 {
        let rest = scores.drop_last();
        law_best_score(rest);
        assert(rest[0] == scores[0]);
        if !scores[0].is_nan() {
            let b = best(scores)->0;
            assert forall|i: int| 0 <= i < scores.len() && !(#[trigger] scores[i]).is_nan() implies
                scores[i].rank() <= scores[b].rank() && (i < b ==> scores[i].rank()
                < scores[b].rank()) by {
                if i < rest.len() {
                    assert(rest[i] == scores[i]);
                }
            }
        }
    } else if scores.len() == 1 {
        assert(scores.drop_last().len() == 0);
        assert(best(scores.drop_last()) is None);
    }
}

/// What an insert does. The live entries under other keys stay, in order, and the new
/// entry follows them; where that is one more than the cap, the oldest of them all goes,
/// of several the one stored first, and nothing else; and the cache is never left with
/// fewer entries than it may hold of these.
pub proof fn law_inserted<E>(cache: CacheView<E>, entry: EntryView<E>, now: u128, o: int)
    ensures
        cache.inserted(entry, now).config == cache.config,
        ({
            let full = cache.entries.filter(
                |e: EntryView<E>| !e.expired(now, cache.config.ttl) && e.key != entry.key,
            ).push(entry);
            let after = cache.inserted(entry, now).entries;
            &&& full.len() <= cache.config.max_entries ==> after == full
            &&& full.len() > cache.config.max_entries ==> after.len() == cache.config.max_entries
            &&& (full.len() == cache.config.max_entries + 1 && 0 <= o < full.len() && (forall|
                i: int,
            |
                0 <= i < full.len() ==> full[o].created <= (#[trigger] full[i]).created) && (forall|
                i: int,
            |
                0 <= i < o ==> full[o].created < (#[trigger] full[i]).created)) ==> after
                == full.remove(o)
        }),
{
    let full = cache.entries.filter(
        |e: EntryView<E>| !e.expired(now, cache.config.ttl) && e.key != entry.key,
    ).push(entry);
    let cap = cache.config.max_entries as int;
    lemma_evicted_count(full, cap);
    lemma_oldest(full);
    if full.len() == cap + 1 && 0 <= o < full.len() && (forall|i: int|
        0 <= i < full.len() ==> full[o].created <= (#[trigger] full[i]).created) && (forall|i: int|
        0 <= i < o ==> full[o].created < (#[trigger] full[i]).created) {
        let q = oldest(full);
        assert(full[o].created <= full[q].created);
        assert(full[q].created <= full[o].created);
        assert(o == q);
        let rest = full.remove(q);
        assert(evicted(rest, cap) == rest);
    }
}

proof fn lemma_evicted_count<E>(entries: Seq<EntryView<E>>, cap: int)
    requires
        cap >= 0,
    ensures
        entries.len() > cap ==> evicted(entries, cap).len() == cap,
        entries.len() <= cap ==> evicted(entries, cap) == entries,
    decreases entries.len(),
{
    if entries.len() > cap {
        lemma_oldest(entries);
        lemma_evicted_count(entries.remove(oldest(entries)), cap);
    }
}

/// The key of a format, a model and a prompt, part by part.
pub proof fn law_key_of(model: Seq<char>, prompt: Seq<char>)
    ensures
        key_of(ResponseFormat::NonStreaming, model, prompt) == seq!['n', '\u{1f}'] + model + seq![
            '\u{1f}',
        ] + prompt,
        key_of(ResponseFormat::Streaming, model, prompt) == seq!['s', '\u{1f}'] + model + seq![
            '\u{1f}',
        ] + prompt,
{
}

/// Which entries a semantic lookup considers: the live ones of the model and of the
/// format, all of them, each once and in the order in which they were stored.
pub proof fn law_candidates<E>(
    cache: CacheView<E>,
    model: Seq<char>,
    format: ResponseFormat,
    now: u128,
    i: int,
)
    ensures
        cache.candidates(model, format, now).contains(i) <==> (0 <= i < cache.entries.len()
            && cache.entries[i].model == model && cache.entries[i].response.format == format
            && !cache.entries[i].expired(now, cache.config.ttl)),
        forall|a: int, b: int|
            0 <= a < b < cache.candidates(model, format, now).len() ==> #[trigger] cache.candidates(
                model,
                format,
                now,
            )[a] < #[trigger] cache.candidates(model, format, now)[b],
{
    let n = cache.entries.len() as int;
    lemma_eligible(cache, model, format, now, n);
    lemma_eligible_grows(cache, model, format, now, n);
    if cache.candidates(model, format, now).contains(i) {
        let k = cache.candidates(model, format, now).index_of(i);
        assert(cache.considers(cache.candidates(model, format, now)[k], model, format, now));
    }
    if 0 <= i < n && cache.entries[i].model == model && cache.entries[i].response.format == format
        && !cache.entries[i].expired(now, cache.config.ttl) {
        assert(cache.considers(i, model, format, now));
    }
}

proof fn lemma_eligible_grows<E>(
    cache: CacheView<E>,
    model: Seq<char>,
    format: ResponseFormat,
    now: u128,
    n: int,
)
    requires
        0 <= n <= cache.entries.len(),
    ensures
        forall|a: int, b: int|
            0 <= a < b < eligible(cache, model, format, now, n).len() ==> #[trigger] eligible(
                cache,
                model,
                format,
                now,
                n,
            )[a] < #[trigger] eligible(cache, model, format, now, n)[b],
    decreases n,
{
    if n > 0 {
        lemma_eligible(cache, model, format, now, n - 1);
        lemma_eligible_grows(cache, model, format, now, n - 1);
        let before = eligible(cache, model, format, now, n - 1);
        let all = eligible(cache, model, format, now, n);
        assert forall|a: int, b: int| 0 <= a < b < all.len() implies #[trigger] all[a]
            < #[trigger] all[b] by {
            assert(all[a] == before[a]);
            if b < before.len() {
                assert(all[b] == before[b]);
            }
        }
    }
}

/// What the semantic layer serves, given the scores of its candidates: the candidate of
/// the best score, with this score, if it reaches the threshold; and nothing otherwise.
pub proof fn law_semantic_hit<E>(cache: CacheView<E>, candidates: Seq<int>, scores: Seq<Score>)
    ensures
        match best(scores) {
            Some(b) => if scores[b].at_least(cache.config.threshold) {
                cache.semantic_hit(candidates, scores) matches Some(h) && h.layer
                    == HitLayer::Semantic && h.similarity == scores[b] && h.response
                    == cache.entries[candidates[b]].response && h.matched_prompt
                    == cache.entries[candidates[b]].norm_prompt
            } else {
                cache.semantic_hit(candidates, scores) is None
            },
            None => cache.semantic_hit(candidates, scores) is None,
        },
{
}

/// A lookup that finds nothing live under the request's key asks the semantic layer,
/// whatever the format and whatever the scores are, and answers what that serves.
pub proof fn law_lookup_asks_the_semantic_layer<E, F: Fn(&E) -> Score>(
    score: F,
    cache: CacheView<E>,
    model: Seq<char>,
    canonical: Seq<char>,
    format: ResponseFormat,
    now: u128,
    hit: Option<HitView>,
)
    requires
        answers(score, cache, model, canonical, format, now, hit),
        forall|i: int|
            0 <= i < cache.entries.len() && (#[trigger] cache.entries[i]).key == request_key(
                model,
                canonical,
                format,
            ) ==> cache.entries[i].expired(now, cache.config.ttl),
    ensures
        exists|scores: Seq<Score>|
            #![trigger cache.semantic_hit(cache.candidates(model, format, now), scores)]
            {
                let candidates = cache.candidates(model, format, now);
                &&& scores.len() == candidates.len()
                &&& forall|p: int|
                    0 <= p < scores.len() ==> call_ensures(
                        score,
                        (&cache.entries[candidates[p]].embedding,),
                        #[trigger] scores[p],
                    )
                &&& hit == cache.semantic_hit(candidates, scores)
            },
{
    lemma_find_key(cache.entries, request_key(model, canonical, format));
    assert(cache.exact_hit(model, canonical, format, now) is None);
    let candidates = cache.candidates(model, format, now);
    let scores = choose|scores: Seq<Score>|
        {
            &&& #[trigger] scored(score, cache, candidates, scores)
            &&& hit == cache.semantic_hit(candidates, scores)
        };
    assert(hit == cache.semantic_hit(candidates, scores));
}

/// The views of a response and of a hit show all of them.
pub proof fn law_cache_views(response: CachedResponse, hit: CacheHit)
    ensures
        response@.status == response.status,
        response@.headers == headers_view(response.headers@),
        response@.body == content(response.body),
        response@.format == response.format,
        hit@.layer == hit.layer && hit@.similarity == hit.similarity,
        hit@.matched_prompt == hit.matched_prompt@,
        hit@.response == hit.response@,
        hit_view(Some(hit)) == Some(hit@),
        hit_view(None) is None,
{
}

/// An insert keeps keys apart: where no two entries share a key, none do afterwards.
pub proof fn law_insert_keeps_keys_apart<E>(
    cache: CacheView<E>,
    model: Seq<char>,
    canonical: Seq<char>,
    response: ResponseView,
    embedding: E,
    created: u128,
    now: u128,
)
    requires
        keyed(cache.entries),
    ensures
        ({
            let entry = CacheView::entry_for(model, canonical, response, embedding, created);
            let after = cache.inserted(entry, now).entries;
            forall|a: int, b: int|
                0 <= a < b < after.len() ==> (#[trigger] after[a]).key != (#[trigger] after[b]).key
        }),
{
    let entry = CacheView::entry_for(model, canonical, response, embedding, created);
    let keep = |e: EntryView<E>| !e.expired(now, cache.config.ttl) && e.key != entry.key;
    let kept = cache.survivors(entry.key, now);
    let full = kept.push(entry);
    lemma_filtered(cache.entries, keep);
    lemma_filter_keyed(cache.entries, keep);
    assert forall|i: int, j: int| 0 <= i < j < full.len() implies (#[trigger] full[i]).key != (
    #[trigger] full[j]).key by {
        if j == kept.len() {
            assert(keep(kept[i]));
        }
    }
    lemma_evicted_keyed(full, cache.config.max_entries as int);
}

/// What was stored is served to whoever asks alike: while an entry is live, and is not
/// crowded out by newer ones, every lookup of its model and format, streaming or not,
/// whose prompt scores at least the threshold against it is answered, provided that
/// scores are numbers. The answer is an exact hit, or is at least as close as it.
pub proof fn law_insert_then_rephrased_lookup<E, F: Fn(&E) -> Score>(
    cache: CacheView<E>,
    model: Seq<char>,
    canonical: Seq<char>,
    response: ResponseView,
    embedding: E,
    created: u128,
    now: u128,
    asked: Seq<char>,
    later: u128,
    score: F,
    hit: Option<HitView>,
)
    requires
        keyed(cache.entries),
        newer_than(
            cache.survivors(request_key(model, canonical, response.format), now),
            created,
        ) < cache.config.max_entries,
        later - created < cache.config.ttl,
        0 < cache.config.ttl,
        forall|e: E, s: Score| #[trigger] call_ensures(score, (&e,), s) ==> !s.is_nan(),
        forall|s: Score| #[trigger]
            call_ensures(score, (&embedding,), s) ==> s.at_least(cache.config.threshold),
        answers(
            score,
            cache.inserted(
                CacheView::entry_for(model, canonical, response, embedding, created),
                now,
            ),
            model,
            asked,
            response.format,
            later,
            hit,
        ),
    ensures
        hit matches Some(h) && (h.layer == HitLayer::Exact || (h.layer == HitLayer::Semantic
            && h.response.format == response.format && exists|s: Score| #[trigger]
            call_ensures(score, (&embedding,), s) && s.rank() <= h.similarity.rank())),
{
    let entry = CacheView::entry_for(model, canonical, response, embedding, created);
    let kept = cache.survivors(entry.key, now);
    let full = kept.push(entry);
    let after = cache.inserted(entry, now);
    let n = after.entries.len() - 1;
    assert(full.drop_last() =~= kept);
    lemma_newest_stay(full, cache.config.max_entries as int);
    law_insert_keeps_keys_apart(cache, model, canonical, response, embedding, created, now);
    law_lookup_serves_the_closest(score, after, model, asked, response.format, later, hit);
    assert(after.entries[n] == entry);
    assert(!after.entries[n].expired(later, after.config.ttl));
}

} // verus!
