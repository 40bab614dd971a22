use bytes::Bytes;
use cachet::cache::{
    compose_key, exact_key, normalize_exact, CacheConfig, CacheHit, CachedResponse, HitLayer,
    ResponseFormat, SemanticCache,
};
use cachet::embedder::LocalEmbedder;
use cachet::headers::Header;
use cachet::score::Score;

const NON_STREAMING: ResponseFormat = ResponseFormat::NonStreaming;
const STREAMING: ResponseFormat = ResponseFormat::Streaming;

const SECOND: u128 = 1_000_000_000;
const MILLI: u128 = 1_000_000;

fn embed(text: &str) -> Vec<f32> {
    let counts = LocalEmbedder::new().embed_counts(text);
    let mut vec: Vec<f32> = counts.iter().map(|c| *c as f32).collect();
    let norm = vec.iter().map(|x| x * x).sum::<f32>().sqrt();
    if norm > 0.0 {
        for x in vec.iter_mut() {
            *x /= norm;
        }
    }
    vec
}

fn cosine_similarity(a: &[f32], b: &[f32]) -> f32 {
    let len = a.len().min(b.len());
    let mut dot = 0.0_f32;
    let mut na = 0.0_f32;
    let mut nb = 0.0_f32;
    for i in 0..len {
        dot += a[i] * b[i];
        na += a[i] * a[i];
        nb += b[i] * b[i];
    }
    if na == 0.0 || nb == 0.0 {
        return 0.0;
    }
    dot / (na.sqrt() * nb.sqrt())
}

fn score(x: f32) -> Score {
    Score { bits: x.to_bits() }
}

fn resp(body: &str) -> CachedResponse {
    resp_fmt(body, NON_STREAMING)
}

fn resp_fmt(body: &str, format: ResponseFormat) -> CachedResponse {
    CachedResponse {
        status: 200,
        headers: vec![Header::new("content-type", "application/json")],
        body: Bytes::from(body.to_owned()),
        format,
    }
}

fn cache_of(threshold: f32, ttl: u128, max_entries: usize) -> SemanticCache<Vec<f32>> {
    SemanticCache::new(CacheConfig { threshold: score(threshold), ttl, max_entries })
}

fn cache_with(threshold: f32) -> SemanticCache<Vec<f32>> {
    cache_of(threshold, 3600 * SECOND, 1000)
}

fn put(cache: &mut SemanticCache<Vec<f32>>, model: &str, prompt: &str, response: CachedResponse, at: u128) {
    cache.insert(model, prompt, response, embed(prompt), at, at);
}

fn get(
    cache: &SemanticCache<Vec<f32>>,
    model: &str,
    prompt: &str,
    format: ResponseFormat,
    at: u128,
) -> Option<CacheHit> {
    let query = embed(prompt);
    cache.lookup(model, prompt, format, at, |e: &Vec<f32>| score(cosine_similarity(&query, e)))
}

#[test]
fn exact_hit_then_semantic_then_miss() {
    let france = "user: What is the capital of France?";
    let rephrase = "user: What's France's capital city?";
    let japan = "user: What is the capital of Japan?";
    let ab = cosine_similarity(&embed(france), &embed(rephrase));
    let ac = cosine_similarity(&embed(france), &embed(japan));
    assert!(ab > ac);
    let threshold = (ab + ac) / 2.0;

    let mut cache = cache_with(threshold);
    put(&mut cache, "gpt-4o", france, resp("PARIS"), 0);

    // 1. Exact hit on the identical prompt.
    let hit = get(&cache, "gpt-4o", france, NON_STREAMING, 1).expect("exact hit");
    assert_eq!(hit.layer, HitLayer::Exact);
    assert_eq!(hit.response.body, Bytes::from_static(b"PARIS"));

    // 2. Semantic hit on a rephrase.
    let hit = get(&cache, "gpt-4o", rephrase, NON_STREAMING, 2).expect("semantic hit");
    assert_eq!(hit.layer, HitLayer::Semantic);
    assert!(f32::from_bits(hit.similarity.bits) >= threshold);

    // 3. Miss on a genuinely different question.
    assert!(get(&cache, "gpt-4o", japan, NON_STREAMING, 3).is_none());
}

#[test]
fn model_namespacing() {
    let mut cache = cache_with(0.5);
    put(&mut cache, "gpt-4o", "user: ping", resp("FOUR_O"), 0);
    assert!(get(&cache, "gpt-3.5", "user: ping", NON_STREAMING, 1).is_none());
    assert!(get(&cache, "gpt-4o", "user: ping", NON_STREAMING, 1).is_some());
}

#[test]
fn format_separation() {
    let mut cache = cache_with(0.5);
    // Only a non-streaming entry exists for this prompt.
    put(&mut cache, "gpt-4o", "user: ping", resp_fmt("BLOB", NON_STREAMING), 0);
    // A streaming lookup of the same prompt must miss.
    assert!(get(&cache, "gpt-4o", "user: ping", STREAMING, 1).is_none());
    assert!(get(&cache, "gpt-4o", "user: ping", NON_STREAMING, 1).is_some());

    // Now add a streaming entry for the same prompt; both coexist.
    put(
        &mut cache,
        "gpt-4o",
        "user: ping",
        resp_fmt("data: tok\n\ndata: [DONE]\n\n", STREAMING),
        2,
    );
    let s = get(&cache, "gpt-4o", "user: ping", STREAMING, 3).expect("stream hit");
    assert_eq!(s.response.format, STREAMING);
    let n = get(&cache, "gpt-4o", "user: ping", NON_STREAMING, 3).expect("blob hit");
    assert_eq!(n.response.format, NON_STREAMING);
    assert_eq!(cache.len(), 2);
}

#[test]
fn ttl_expiry() {
    let mut cache = cache_of(0.5, 50 * MILLI, 1000);
    put(&mut cache, "m", "user: hello world", resp("HI"), 0);
    assert!(get(&cache, "m", "user: hello world", NON_STREAMING, 1).is_some());
    // Expired entries are not served.
    assert!(get(&cache, "m", "user: hello world", NON_STREAMING, 80 * MILLI).is_none());
}

#[test]
fn capacity_evicts_oldest() {
    let mut cache = cache_of(0.99, 3600 * SECOND, 2);
    put(&mut cache, "m", "user: first apple", resp("1"), 0);
    put(&mut cache, "m", "user: second banana", resp("2"), 1);
    put(&mut cache, "m", "user: third cherry", resp("3"), 2);
    assert_eq!(cache.len(), 2);
    // Oldest evicted; newest two remain.
    assert!(get(&cache, "m", "user: first apple", NON_STREAMING, 3).is_none());
    assert!(get(&cache, "m", "user: third cherry", NON_STREAMING, 3).is_some());
}

#[test]
fn expiry_starts_at_exactly_the_ttl() {
    let mut cache = cache_of(0.5, 50, 1000);
    put(&mut cache, "m", "user: hello world", resp("HI"), 100);
    assert!(get(&cache, "m", "user: hello world", NON_STREAMING, 149).is_some());
    assert!(get(&cache, "m", "user: hello world", NON_STREAMING, 150).is_none());
    // A clock that reads earlier than the entry was made sees a new entry.
    assert!(get(&cache, "m", "user: hello world", NON_STREAMING, 99).is_some());
    // A lifetime of zero serves nothing.
    let mut never = cache_of(0.5, 0, 1000);
    put(&mut never, "m", "user: hello world", resp("HI"), 0);
    assert!(get(&never, "m", "user: hello world", NON_STREAMING, 0).is_none());
}

#[test]
fn insert_sweeps_expired_entries() {
    let mut cache = cache_of(0.5, 50, 1000);
    put(&mut cache, "m", "user: one", resp("1"), 0);
    put(&mut cache, "m", "user: two", resp("2"), 10);
    assert_eq!(cache.len(), 2);
    put(&mut cache, "m", "user: three", resp("3"), 55);
    assert_eq!(cache.len(), 2);
}

#[test]
fn insert_replaces_the_entry_of_the_same_key() {
    let mut cache = cache_with(0.99);
    put(&mut cache, "m", "user: ping", resp("OLD"), 0);
    put(&mut cache, "M", "USER:   PING", resp("NEW"), 1);
    assert_eq!(cache.len(), 1);
    let hit = get(&cache, "m", "user: ping", NON_STREAMING, 2).expect("hit");
    assert_eq!(hit.response.body, Bytes::from_static(b"NEW"));
    assert_eq!(hit.response.headers[0].name, "content-type");
    assert_eq!(hit.response.headers[0].value, b"application/json".to_vec());
    assert_eq!(hit.response.status, 200);
}

#[test]
fn a_cap_of_zero_stores_nothing() {
    let mut cache = cache_of(0.5, 3600 * SECOND, 0);
    put(&mut cache, "m", "user: ping", resp("X"), 0);
    assert_eq!(cache.len(), 0);
}

#[test]
fn stored_answers_are_found_whatever_case_and_spacing() {
    let mut cache = cache_with(0.99);
    put(&mut cache, "GPT-4o", "user: What  is\tRust?", resp("A language"), 5);
    let hit = cache
        .lookup_exact("gpt-4O", "  USER: what is\nrust?  ", NON_STREAMING, 6)
        .expect("exact hit");
    assert_eq!(hit.layer, HitLayer::Exact);
    assert_eq!(hit.similarity, score(1.0));
    assert_eq!(hit.matched_prompt, "user: what is rust?");
    assert_eq!(hit.response.body, Bytes::from_static(b"A language"));
}

#[test]
fn other_keys_are_left_alone() {
    let mut cache = cache_with(0.99);
    put(&mut cache, "m", "user: apple", resp("1"), 0);
    put(&mut cache, "m", "user: banana", resp("2"), 1);
    let hit = cache.lookup_exact("m", "user: apple", NON_STREAMING, 2).expect("still there");
    assert_eq!(hit.response.body, Bytes::from_static(b"1"));
}

#[test]
fn semantic_layer_picks_the_best_and_checks_the_threshold() {
    let mut cache = cache_with(0.8);
    for (i, name) in ["user: a1", "user: b2", "user: c3"].iter().enumerate() {
        cache.insert("m", name, resp(name), vec![i as f32], i as u128, i as u128);
    }
    let at = |scores: [f32; 3]| {
        cache
            .lookup("m", "user: zz", NON_STREAMING, 10, |e: &Vec<f32>| score(scores[e[0] as usize]))
            .map(|h| (h.response.body, f32::from_bits(h.similarity.bits)))
    };
    assert_eq!(at([0.81, 0.95, 0.9]), Some((Bytes::from_static(b"user: b2"), 0.95)));
    // The threshold itself is a hit, anything below it is none.
    assert_eq!(at([0.1, 0.2, 0.8]), Some((Bytes::from_static(b"user: c3"), 0.8)));
    assert_eq!(at([0.1, 0.2, 0.79]), None);
    // Of equal scores the one stored first is served.
    assert_eq!(at([0.9, 0.9, 0.9]), Some((Bytes::from_static(b"user: a1"), 0.9)));
    // A score that is no number never beats another and never reaches the threshold.
    assert_eq!(at([0.85, f32::NAN, 0.8]), Some((Bytes::from_static(b"user: a1"), 0.85)));
    assert_eq!(at([f32::NAN, 0.95, 0.9]), None);
}

#[test]
fn semantic_candidates_are_live_and_of_the_model_and_format() {
    let mut cache = cache_of(0.5, 100, 1000);
    cache.insert("m", "user: a", resp("1"), vec![0.0], 0, 0);
    cache.insert("n", "user: b", resp("2"), vec![0.0], 50, 50);
    cache.insert("m", "user: c", resp_fmt("3", STREAMING), vec![0.0], 50, 50);
    cache.insert("m", "user: d", resp("4"), vec![0.0], 50, 50);
    assert_eq!(cache.candidates("m", NON_STREAMING, 60), vec![0, 3]);
    assert_eq!(cache.candidates("m", NON_STREAMING, 120), vec![3]);
    assert_eq!(cache.candidates("M", NON_STREAMING, 60), Vec::<usize>::new());
    assert_eq!(cache.candidates("m", STREAMING, 60), vec![2]);
    let hit = cache.pick(&vec![0, 3], &vec![score(0.6), score(0.7)]).expect("hit");
    assert_eq!(hit.layer, HitLayer::Semantic);
    assert_eq!(hit.response.body, Bytes::from_static(b"4"));
    assert!(cache.pick(&Vec::new(), &Vec::new()).is_none());
}

#[test]
fn keys_tell_formats_models_and_prompts_apart() {
    assert_eq!(
        exact_key("GPT-4o", " Hello\tWorld ", NON_STREAMING),
        "n\u{1f}gpt-4o\u{1f}hello world"
    );
    assert_eq!(exact_key("m", "p", STREAMING), "s\u{1f}m\u{1f}p");
    assert_ne!(exact_key("m", "p", STREAMING), exact_key("m", "p", NON_STREAMING));
    assert_ne!(exact_key("a", "p", STREAMING), exact_key("b", "p", STREAMING));
    assert_ne!(exact_key("m", "p", STREAMING), exact_key("m", "q", STREAMING));
    // A model that holds the separator can be mistaken for another.
    assert_eq!(
        compose_key(STREAMING, "a\u{1f}b", "c"),
        compose_key(STREAMING, "a", "b\u{1f}c")
    );
}

#[test]
fn request_keys_agree_exactly_when_requests_do() {
    let models = ["gpt-4o", "GPT-4o", "gpt-4", ""];
    let prompts = ["user: hi", " USER:  hi", "user: ho", "", "\u{1f}"];
    for m1 in models {
        for m2 in models {
            for p1 in prompts {
                for p2 in prompts {
                    for f2 in [NON_STREAMING, STREAMING] {
                        let agree = f2 == STREAMING
                            && m1.to_lowercase() == m2.to_lowercase()
                            && normalize_exact(p1) == normalize_exact(p2);
                        assert_eq!(exact_key(m1, p1, STREAMING) == exact_key(m2, p2, f2), agree);
                    }
                }
            }
        }
    }
}

#[test]
fn lowercase_text_of_any_script_is_stable() {
    for (text, expected) in [("été \n über", "été über"), ("  東京  は ", "東京 は"), ("ςσ  я", "ςσ я")] {
        assert_eq!(normalize_exact(text), expected);
        assert_eq!(normalize_exact(expected), expected);
    }
}

#[test]
fn the_exact_layer_follows_replacement_and_eviction() {
    let mut cache = cache_of(0.99, 3600 * SECOND, 3);
    for (i, p) in ["a", "b", "c", "b", "d", "a"].iter().enumerate() {
        put(&mut cache, "m", p, resp(&i.to_string()), i as u128);
    }
    let body = |p: &str| cache.lookup_exact("m", p, NON_STREAMING, 9).map(|h| h.response.body);
    assert_eq!(cache.len(), 3);
    assert_eq!(body("a"), Some(Bytes::from_static(b"5")));
    assert_eq!(body("b"), Some(Bytes::from_static(b"3")));
    assert_eq!(body("c"), None);
    assert_eq!(body("d"), Some(Bytes::from_static(b"4")));
}

#[test]
fn exact_normalization_lowercases_and_collapses_white_space() {
    assert_eq!(normalize_exact("  What\n\nIS\u{a0}\u{3000}this?\t"), "what is this?");
    assert_eq!(normalize_exact("ÄÖÜ Σ"), "äöü σ");
    assert_eq!(normalize_exact(""), "");
    assert_eq!(normalize_exact(" \t\n"), "");
}

#[test]
fn exact_normalization_is_stable() {
    assert_eq!(normalize_exact("  What's \n\tUP? "), "what's up?");
    assert_eq!(normalize_exact(" \n"), "");
    for text in ["", "  What's \n\tUP? ", "A\u{b}B\u{c}c", "x", "user: Hello,  WORLD!"] {
        let once = normalize_exact(text);
        assert_eq!(normalize_exact(&once), once, "{text:?}");
    }
    // White space is collapsed in any text.
    assert_eq!(normalize_exact("É\u{2003}T"), normalize_exact("É T"));
}

#[test]
fn format_and_layer_names() {
    assert_eq!(NON_STREAMING.as_str(), "non-streaming");
    assert_eq!(STREAMING.as_str(), "streaming");
    assert_eq!(NON_STREAMING.tag(), 'n');
    assert_eq!(STREAMING.tag(), 's');
    assert_eq!(HitLayer::Exact.as_str(), "exact");
    assert_eq!(HitLayer::Semantic.as_str(), "semantic");
}

#[test]
fn duplicated_responses_are_equal() {
    let a = resp_fmt("data: x\n\n", STREAMING);
    let b = a.duplicate();
    assert_eq!(b.status, 200);
    assert_eq!(b.body, a.body);
    assert_eq!(b.format, STREAMING);
    assert_eq!(b.headers.len(), 1);
}
