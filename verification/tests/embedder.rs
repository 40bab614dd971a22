use cachet::embedder::{
    is_stopword, normalize_tokens, select_tokens, split_tokens, LocalEmbedder, COUNT_LIMIT,
    EMBED_DIM, TRIGRAM, WORD,
};

fn embed(e: &LocalEmbedder, text: &str) -> Vec<f32> {
    let mut vec: Vec<f32> = e.embed_counts(text).iter().map(|c| *c as f32).collect();
    let norm = vec.iter().map(|x| x * x).sum::<f32>().sqrt();
    if norm > 0.0 {
        for x in vec.iter_mut() {
            *x /= norm;
        }
    }
    vec
}

fn cosine_similarity(a: &[f32], b: &[f32]) -> f32 {
    let len = a.len().min(b.len());
    let mut dot = 0.0_f32;
    let mut na = 0.0_f32;
    let mut nb = 0.0_f32;
    for i in 0..len {
        dot += a[i] * b[i];
        na += a[i] * a[i];
        nb += b[i] * b[i];
    }
    if na == 0.0 || nb == 0.0 {
        return 0.0;
    }
    dot / (na.sqrt() * nb.sqrt())
}

fn sim(e: &LocalEmbedder, a: &str, b: &str) -> f32 {
    cosine_similarity(&embed(e, a), &embed(e, b))
}

fn owned(list: &[&str]) -> Vec<String> {
    list.iter().map(|t| t.to_string()).collect()
}

#[test]
fn france_triple_scores() {
    let e = LocalEmbedder::new();
    let a = "What is the capital of France?";
    let b = "What's France's capital city?";
    let c = "What is the capital of Japan?";

    let ab = sim(&e, a, b);
    let ac = sim(&e, a, c);
    let aa = sim(&e, a, a);

    println!("identical   A~A = {aa:.4}");
    println!("rephrase    A~B = {ab:.4}  (should be a semantic HIT)");
    println!("diff country A~C = {ac:.4}  (should be a MISS)");

    // Identical text is exactly 1.0.
    assert!((aa - 1.0).abs() < 1e-5);
    // A true rephrase must be more similar than a different country, so that a
    // single threshold can separate them.
    assert!(ab > ac, "rephrase ({ab:.4}) must beat different-country ({ac:.4})");
}

#[test]
fn typo_and_spelling_robustness() {
    let e = LocalEmbedder::new();
    let variant = sim(&e, "Please summarise this document", "Please summarize this docment");
    let unrelated = sim(&e, "Please summarise this document", "How do I bake sourdough bread");
    println!("spelling-variant = {variant:.4}, unrelated = {unrelated:.4}");
    assert!(variant > unrelated, "spelling variant must beat unrelated text");
    assert!(variant > 0.5);
}

#[test]
fn dim_is_const() {
    assert_eq!(LocalEmbedder::new().dim(), EMBED_DIM);
}

#[test]
fn default_embedder_has_the_same_dim() {
    assert_eq!(LocalEmbedder::default().dim(), 512);
}

#[test]
fn default_threshold_separates_rephrase_from_other_question() {
    let e = LocalEmbedder::new();
    let ab = sim(&e, "What is the capital of France?", "What's France's capital city?");
    let ac = sim(&e, "What is the capital of France?", "What is the capital of Japan?");
    assert!(ab >= 0.82);
    assert!(ac < 0.82);
}

#[test]
fn tokens_are_lowercase_alphanumeric_runs() {
    assert_eq!(split_tokens("What's  Rust-2021?"), owned(&["what", "s", "rust", "2021"]));
    assert_eq!(split_tokens("ÀB ÉTÉ"), owned(&["àb", "été"]));
    assert_eq!(split_tokens("..."), Vec::<String>::new());
    assert_eq!(split_tokens("end"), owned(&["end"]));
}

#[test]
fn short_tokens_and_stopwords_are_dropped() {
    assert_eq!(normalize_tokens("user: What is the capital of France?"), owned(&["capital", "france"]));
    assert_eq!(normalize_tokens("x y zebra"), owned(&["zebra"]));
}

#[test]
fn all_stopwords_fall_back_to_the_unfiltered_tokens() {
    assert_eq!(normalize_tokens("What is this?"), owned(&["what", "is", "this"]));
    assert_eq!(select_tokens(&owned(&["the", "a", "of"])), owned(&["the", "of"]));
    // Tokens of one character are kept where there are no others.
    assert_eq!(normalize_tokens("I"), owned(&["i"]));
    assert_eq!(normalize_tokens("a b ?"), owned(&["a", "b"]));
    assert_eq!(select_tokens(&owned(&["i"])), owned(&["i"]));
    for text in ["I", "a b ?", "What is it", "7", "é"] {
        assert!(LocalEmbedder::new().embed_counts(text).iter().any(|c| *c != 0), "{text}");
    }
    // A text without a letter or digit has no tokens.
    assert_eq!(normalize_tokens(" ?! "), Vec::<String>::new());
    assert!(LocalEmbedder::new().embed_counts(" ?! ").iter().all(|c| *c == 0));
}

#[test]
fn ascii_tokens_ignore_case_and_are_stable() {
    for text in ["user: What is the CAPITAL of France?", "What is this?", "I", "", "a B 2 x", "GPT-4o rocks"] {
        let tokens = normalize_tokens(text);
        assert_eq!(normalize_tokens(&text.to_uppercase()), tokens, "{text:?}");
        assert_eq!(normalize_tokens(&tokens.join(" ")), tokens, "{text:?}");
    }
}

#[test]
fn stopwords_of_every_group() {
    for word in ["a", "so", "is", "might", "what", "please", "user", "developer", "s", "t"] {
        assert!(is_stopword(word), "{word}");
    }
    for word in ["france", "The", "", "users"] {
        assert!(!is_stopword(word), "{word}");
    }
}

#[test]
fn word_and_trigram_features_are_hashed_with_their_sign() {
    let e = LocalEmbedder::new();
    let counts = e.embed_counts("hi");
    assert_eq!(counts.len(), EMBED_DIM);
    assert_eq!(counts[212], -1);
    assert_eq!(counts[228], 1);
    assert_eq!(counts[281], 1);
    assert_eq!(counts.iter().map(|c| c.abs()).sum::<i32>(), 3);
    // Features are spelled in UTF-8.
    let counts = e.embed_counts("Été");
    assert_eq!(counts[271], 1);
    assert_eq!(counts[6], -1);
    assert_eq!(counts[213], 1);
    assert_eq!(counts[243], -1);
}

#[test]
fn a_feature_bumps_one_component_up_to_the_limit() {
    let e = LocalEmbedder::new();
    let mut counts = vec![0; EMBED_DIM];
    e.add_feature(&mut counts, WORD, b"paris");
    e.add_feature(&mut counts, TRIGRAM, b"#pa");
    assert_eq!(counts[168], -1);
    assert_eq!(counts[476], 1);
    counts[476] = COUNT_LIMIT;
    e.add_feature(&mut counts, TRIGRAM, b"#pa");
    assert_eq!(counts[476], COUNT_LIMIT);
    // The limit is where single-precision numbers stop counting.
    assert_eq!(COUNT_LIMIT as f32 + 1.0, COUNT_LIMIT as f32);
    assert_eq!((COUNT_LIMIT - 1) as f32 + 1.0, COUNT_LIMIT as f32);
}

#[test]
fn counts_are_signed_sums_of_features() {
    let e = LocalEmbedder::new();
    let one = e.embed_counts("paris");
    let two = e.embed_counts("paris paris");
    for i in 0..EMBED_DIM {
        assert_eq!(two[i], 2 * one[i]);
    }
    assert_eq!(e.count_tokens(&owned(&["paris"])), one);
}

#[test]
fn token_order_does_not_matter() {
    let e = LocalEmbedder::new();
    assert_eq!(
        e.count_tokens(&owned(&["paris", "hi", "paris", "capital"])),
        e.count_tokens(&owned(&["capital", "paris", "paris", "hi"]))
    );
    assert_eq!(e.embed_counts("capital of France"), e.embed_counts("France: capital!"));
    assert_ne!(e.embed_counts("paris"), e.embed_counts("paris paris"));
}
