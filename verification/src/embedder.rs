//! The local lexical embedder: how a prompt is cut into tokens, and how the
//! features of the tokens are hashed into a vector of signed counts.
//!
//! Each token contributes one word feature and one feature per trigram of its
//! characters, wrapped in `#` marks. Both kinds are hashed into the same vector,
//! told apart by a namespace byte. English stopwords and chat-role labels are
//! dropped first, so that content words dominate.
use crate::text::{
    all_ascii, alphanumeric, ascii, ascii_lower, ascii_lowered, char_lowercase, chars_of, joined,
    lemma_filter_all, lemma_filtered, lemma_joined_chars, lemma_runs_chars, lemma_runs_exist,
    lemma_runs_joined, lemma_runs_mapped, law_runs, lower_char, runs, same_text, string_of, texts,
};
use vstd::prelude::*;
use vstd::utf8::encode_utf8;

verus! {

/// Embedding dimensionality.
pub const EMBED_DIM: usize = 512;

/// The hash before any byte.
pub const FNV_OFFSET: u64 = 0xcbf2_9ce4_8422_2325;

/// What the hash is multiplied by after each byte.
pub const FNV_PRIME: u64 = 0x0000_0100_0000_01b3;

/// The largest count that a component reaches: the single-precision number 2^24,
/// to which adding one changes nothing.
pub const COUNT_LIMIT: i32 = 16_777_216;

/// The namespace byte of word features, `w`.
pub const WORD: u8 = 119;

/// The namespace byte of trigram features, `c`.
pub const TRIGRAM: u8 = 99;

/// Articles, conjunctions and prepositions.
pub open spec fn function_word(t: Seq<char>) -> bool {
    ||| t == "a"@
    ||| t == "an"@
    ||| t == "the"@
    ||| t == "of"@
    ||| t == "to"@
    ||| t == "in"@
    ||| t == "on"@
    ||| t == "at"@
    ||| t == "for"@
    ||| t == "and"@
    ||| t == "or"@
    ||| t == "but"@
    ||| t == "if"@
    ||| t == "by"@
    ||| t == "with"@
    ||| t == "from"@
    ||| t == "into"@
    ||| t == "about"@
    ||| t == "as"@
    ||| t == "than"@
    ||| t == "then"@
    ||| t == "so"@
}

/// Forms of be, do and have, and modal verbs.
pub open spec fn auxiliary(t: Seq<char>) -> bool {
    ||| t == "is"@
    ||| t == "are"@
    ||| t == "was"@
    ||| t == "were"@
    ||| t == "be"@
    ||| t == "been"@
    ||| t == "being"@
    ||| t == "am"@
    ||| t == "do"@
    ||| t == "does"@
    ||| t == "did"@
    ||| t == "have"@
    ||| t == "has"@
    ||| t == "had"@
    ||| t == "can"@
    ||| t == "could"@
    ||| t == "will"@
    ||| t == "would"@
    ||| t == "should"@
    ||| t == "may"@
    ||| t == "might"@
}

/// Question words, pronouns and fillers.
pub open spec fn pronoun_or_filler(t: Seq<char>) -> bool {
    ||| t == "what"@
    ||| t == "whats"@
    ||| t == "which"@
    ||| t == "who"@
    ||| t == "whom"@
    ||| t == "whose"@
    ||| t == "when"@
    ||| t == "where"@
    ||| t == "why"@
    ||| t == "how"@
    ||| t == "this"@
    ||| t == "that"@
    ||| t == "these"@
    ||| t == "those"@
    ||| t == "it"@
    ||| t == "its"@
    ||| t == "i"@
    ||| t == "you"@
    ||| t == "he"@
    ||| t == "she"@
    ||| t == "we"@
    ||| t == "they"@
    ||| t == "me"@
    ||| t == "my"@
    ||| t == "your"@
    ||| t == "our"@
    ||| t == "their"@
    ||| t == "his"@
    ||| t == "her"@
    ||| t == "s"@
    ||| t == "t"@
    ||| t == "please"@
}

/// Chat-role labels, which would otherwise dilute every vector.
pub open spec fn role_label(t: Seq<char>) -> bool {
    ||| t == "user"@
    ||| t == "assistant"@
    ||| t == "system"@
    ||| t == "tool"@
    ||| t == "developer"@
}

/// Words that carry little meaning but appear everywhere.
pub open spec fn stopword(t: Seq<char>) -> bool {
    ||| function_word(t)
    ||| auxiliary(t)
    ||| pronoun_or_filler(t)
    ||| role_label(t)
}

/// A run of characters, each in its lowercase form.
pub open spec fn lowered(run: Seq<char>) -> Seq<char>
    decreases run.len(),
{
    if run.len() == 0 {
        Seq::empty()
    } else {
        lowered(run.drop_last()) + char_lowercase(run.last())
    }
}

/// The lowercase alphanumeric runs of a text.
pub open spec fn raw_tokens(s: Seq<char>) -> Seq<Seq<char>> {
    runs(s, |c: char| alphanumeric(c)).map_values(|run: Seq<char>| lowered(run))
}

/// The raw tokens of two characters or more.
pub open spec fn long_tokens(raw: Seq<Seq<char>>) -> Seq<Seq<char>> {
    raw.filter(|t: Seq<char>| t.len() >= 2)
}

/// The long tokens that are not stopwords.
pub open spec fn content_tokens(raw: Seq<Seq<char>>) -> Seq<Seq<char>> {
    long_tokens(raw).filter(|t: Seq<char>| !stopword(t))
}

/// The tokens that matter among raw tokens: the content tokens if there are any; else
/// the long tokens, which are then all stopwords, if there are any; else all of them,
/// so that something is left of every text that has a token.
pub open spec fn selected(raw: Seq<Seq<char>>) -> Seq<Seq<char>> {
    if content_tokens(raw).len() > 0 {
        content_tokens(raw)
    } else if long_tokens(raw).len() > 0 {
        long_tokens(raw)
    } else {
        raw
    }
}

/// The tokens that a text is embedded by.
pub open spec fn tokens(s: Seq<char>) -> Seq<Seq<char>> {
    selected(raw_tokens(s))
}

fn is_function_word(t: &str) -> (r: bool)
    ensures
        r == function_word(t@),
{
    same_text(t, "a")
        || same_text(t, "an")
        || same_text(t, "the")
        || same_text(t, "of")
        || same_text(t, "to")
        || same_text(t, "in")
        || same_text(t, "on")
        || same_text(t, "at")
        || same_text(t, "for")
        || same_text(t, "and")
        || same_text(t, "or")
        || same_text(t, "but")
        || same_text(t, "if")
        || same_text(t, "by")
        || same_text(t, "with")
        || same_text(t, "from")
        || same_text(t, "into")
        || same_text(t, "about")
        || same_text(t, "as")
        || same_text(t, "than")
        || same_text(t, "then")
        || same_text(t, "so")
}

fn is_auxiliary(t: &str) -> (r: bool)
    ensures
        r == auxiliary(t@),
{
    same_text(t, "is")
        || same_text(t, "are")
        || same_text(t, "was")
        || same_text(t, "were")
        || same_text(t, "be")
        || same_text(t, "been")
        || same_text(t, "being")
        || same_text(t, "am")
        || same_text(t, "do")
        || same_text(t, "does")
        || same_text(t, "did")
        || same_text(t, "have")
        || same_text(t, "has")
        || same_text(t, "had")
        || same_text(t, "can")
        || same_text(t, "could")
        || same_text(t, "will")
        || same_text(t, "would")
        || same_text(t, "should")
        || same_text(t, "may")
        || same_text(t, "might")
}

fn is_pronoun_or_filler(t: &str) -> (r: bool)
    ensures
        r == pronoun_or_filler(t@),
{
    same_text(t, "what")
        || same_text(t, "whats")
        || same_text(t, "which")
        || same_text(t, "who")
        || same_text(t, "whom")
        || same_text(t, "whose")
        || same_text(t, "when")
        || same_text(t, "where")
        || same_text(t, "why")
        || same_text(t, "how")
        || same_text(t, "this")
        || same_text(t, "that")
        || same_text(t, "these")
        || same_text(t, "those")
        || same_text(t, "it")
        || same_text(t, "its")
        || same_text(t, "i")
        || same_text(t, "you")
        || same_text(t, "he")
        || same_text(t, "she")
        || same_text(t, "we")
        || same_text(t, "they")
        || same_text(t, "me")
        || same_text(t, "my")
        || same_text(t, "your")
        || same_text(t, "our")
        || same_text(t, "their")
        || same_text(t, "his")
        || same_text(t, "her")
        || same_text(t, "s")
        || same_text(t, "t")
        || same_text(t, "please")
}

fn is_role_label(t: &str) -> (r: bool)
    ensures
        r == role_label(t@),
{
    same_text(t, "user")
        || same_text(t, "assistant")
        || same_text(t, "system")
        || same_text(t, "tool")
        || same_text(t, "developer")
}

/// Whether a token is a stopword.
pub fn is_stopword(token: &str) -> (r: bool)
    ensures
        r == stopword(token@),
{
    is_function_word(token) || is_auxiliary(token) || is_pronoun_or_filler(token) || is_role_label(
        token,
    )
}

/// Cuts a text into its lowercase alphanumeric runs.
pub fn split_tokens(text: &str) -> (r: Vec<String>)
    ensures
        texts(r@) == raw_tokens(text@),
{
    let ghost keep = |c: char| alphanumeric(c);
    let ghost low = |run: Seq<char>| lowered(run);
    let ghost s = text@;
    let mut done: Vec<String> = Vec::new();
    let mut cur = String::new();
    assert(texts(done@) =~= runs(s.take(0), keep).map_values(low));
    for ch in it: text.chars()
        invariant
            it.seq() == s,
            s == text@,
            keep == (|c: char| alphanumeric(c)),
            low == (|run: Seq<char>| lowered(run)),
            ({
                let found = runs(s.take(it.index() as int), keep);
                let pending = it.index() > 0 && keep(s[it.index() - 1]);
                &&& cur@.len() > 0 <==> pending
                &&& pending ==> found.len() > 0 && cur@ == lowered(found.last()) && texts(done@)
                    == found.drop_last().map_values(low)
                &&& !pending ==> texts(done@) == found.map_values(low)
            }),
    {
        let ghost i = it.index() as int;
        let ghost old_done = done@;
        let ghost old_cur = cur@;
        let ghost before = runs(s.take(i), keep);
        let ghost after = runs(s.take(i + 1), keep);
        assert(s.take(i + 1).drop_last() =~= s.take(i));
        assert(s.take(i + 1).last() == ch);
        if ch.is_alphanumeric() {
            let lc = lower_char(ch);
            cur.append(lc.as_str());
            proof {
                assert(keep(ch));
                if old_cur.len() > 0 {
                    assert(after.drop_last() =~= before.drop_last());
                    assert(after.last().drop_last() =~= before.last());
                } else {
                    assert(after.drop_last() =~= before);
                    assert(after.last().drop_last() =~= Seq::<char>::empty());
                    assert(old_cur =~= lowered(Seq::<char>::empty()));
                }
                assert(after.last().last() == ch);
                assert(cur@ =~= lowered(after.last()));
                assert(texts(done@) =~= after.drop_last().map_values(low));
            }
        } else if !cur.as_str().is_empty() {
            done.push(cur);
            proof {
                assert(texts(done@) =~= texts(old_done).push(old_cur));
                assert(before.map_values(low) =~= before.drop_last().map_values(low).push(
                    low(before.last()),
                ));
            }
            cur = String::new();
        }
    }
    assert(s.take(s.len() as int) =~= s);
    if !cur.as_str().is_empty() {
        let ghost old_done = done@;
        let ghost old_cur = cur@;
        done.push(cur);
        proof {
            let found = runs(s, keep);
            assert(texts(done@) =~= texts(old_done).push(old_cur));
            assert(found.map_values(low) =~= found.drop_last().map_values(low).push(
                low(found.last()),
            ));
        }
    }
    done
}

/// Lowercases a text, splits it on everything that is not alphanumeric, drops
/// tokens of one character, and removes stopwords. Falls back to the tokens before
/// a step that would leave nothing.
pub fn normalize_tokens(text: &str) -> (r: Vec<String>)
    ensures
        texts(r@) == tokens(text@),
{
    select_tokens(&split_tokens(text))
}

fn duplicate_texts(list: &Vec<String>) -> (r: Vec<String>)
    ensures
        texts(r@) == texts(list@),
{
    let mut out: Vec<String> = Vec::new();
    let mut i: usize = 0;
    while i < list.len()
        invariant
            i <= list@.len(),
            texts(out@) =~= texts(list@).take(i as int),
        decreases list@.len() - i,
    {
        let ghost before = out@;
        out.push(list[i].clone());
        assert(texts(out@) =~= texts(before).push(list@[i as int]@));
        i += 1;
    }
    assert(texts(list@).take(i as int) =~= texts(list@));
    out
}

/// Drops tokens of one character, and stopwords, as long as something is left.
pub fn select_tokens(raw: &Vec<String>) -> (r: Vec<String>)
    ensures
        texts(r@) == selected(texts(raw@)),
{
    let ghost long = |t: Seq<char>| t.len() >= 2;
    let ghost plain = |t: Seq<char>| !stopword(t);
    let mut kept: Vec<String> = Vec::new();
    let mut content: Vec<String> = Vec::new();
    let mut i: usize = 0;
    proof {
        reveal(Seq::filter);
        assert(texts(kept@) =~= texts(raw@).take(0).filter(long));
        assert(texts(content@) =~= texts(kept@).filter(plain));
    }
    while i < raw.len()
        invariant
            i <= raw@.len(),
            long == (|t: Seq<char>| t.len() >= 2),
            plain == (|t: Seq<char>| !stopword(t)),
            texts(kept@) == texts(raw@).take(i as int).filter(long),
            texts(content@) == texts(kept@).filter(plain),
        decreases raw@.len() - i,
    {
        let ghost old_kept = kept@;
        let ghost old_content = content@;
        let ghost t = raw@[i as int]@;
        proof {
            reveal(Seq::filter);
            assert(texts(raw@).take(i + 1).drop_last() =~= texts(raw@).take(i as int));
            assert(texts(raw@).take(i + 1).last() == t);
        }
        if raw[i].as_str().unicode_len() >= 2 {
            if !is_stopword(raw[i].as_str()) {
                content.push(raw[i].clone());
                assert(texts(content@) =~= texts(old_content).push(t));
            }
            kept.push(raw[i].clone());
            proof {
                assert(texts(kept@) =~= texts(old_kept).push(t));
                assert(texts(kept@).drop_last() =~= texts(old_kept));
            }
        }
        i += 1;
    }
    assert(texts(raw@).take(raw@.len() as int) =~= texts(raw@));
    if content.len() > 0 {
        content
    } else if kept.len() > 0 {
        kept
    } else {
        duplicate_texts(raw)
    }
}

/// One feature of a text: a namespace byte and the bytes that spell it.
pub ghost struct Feature {
    pub ns: u8,
    pub bytes: Seq<u8>,
}

/// A token between two `#` marks.
pub open spec fn wrapped(token: Seq<char>) -> Seq<char> {
    seq!['#'] + token + seq!['#']
}

/// The features of a token: the token itself, then each three neighbouring
/// characters of the wrapped token.
pub open spec fn token_features(token: Seq<char>) -> Seq<Feature> {
    seq![Feature { ns: WORD, bytes: encode_utf8(token) }] + Seq::new(
        token.len(),
        |i: int| Feature { ns: TRIGRAM, bytes: encode_utf8(wrapped(token).subrange(i, i + 3)) },
    )
}

/// The features of a list of tokens, in order.
pub open spec fn features(list: Seq<Seq<char>>) -> Seq<Feature>
    decreases list.len(),
{
    if list.len() == 0 {
        Seq::empty()
    } else {
        features(list.drop_last()) + token_features(list.last())
    }
}

/// The hash after one more byte (FNV-1a).
pub open spec fn fnv_step(h: u64, b: u8) -> u64 {
    (h ^ (b as u64)).wrapping_mul(FNV_PRIME)
}

/// The hash of a namespace byte followed by other bytes.
pub open spec fn fnv(ns: u8, bytes: Seq<u8>) -> u64
    decreases bytes.len(),
{
    if bytes.len() == 0 {
        fnv_step(FNV_OFFSET, ns)
    } else {
        fnv_step(fnv(ns, bytes.drop_last()), bytes.last())
    }
}

/// The component that a hash falls into.
pub open spec fn slot(h: u64, dim: usize) -> usize {
    ((h >> 1) as usize) % dim
}

/// A count after one step up or down, held within the limit.
pub open spec fn bumped(count: i32, up: bool) -> i32 {
    if up && count < COUNT_LIMIT {
        (count + 1) as i32
    } else if !up && count > -COUNT_LIMIT {
        (count - 1) as i32
    } else {
        count
    }
}

/// Counts with one more feature: its component goes up where the lowest bit of
/// the hash is clear and down where it is set.
pub open spec fn with_feature(counts: Seq<i32>, f: Feature, dim: usize) -> Seq<i32> {
    let h = fnv(f.ns, f.bytes);
    let at = slot(h, dim) as int;
    counts.update(at, bumped(counts[at], h & 1 == 0))
}

/// The signed counts of a list of features.
pub open spec fn counts_of(list: Seq<Feature>, dim: usize) -> Seq<i32>
    decreases list.len(),
{
    if list.len() == 0 {
        Seq::new(dim as nat, |i: int| 0i32)
    } else {
        with_feature(counts_of(list.drop_last(), dim), list.last(), dim)
    }
}

/// The signed counts that a text is embedded by.
pub open spec fn text_counts(s: Seq<char>, dim: usize) -> Seq<i32> {
    counts_of(features(tokens(s)), dim)
}

/// The default, fully local lexical embedder.
pub struct LocalEmbedder {
    dim: usize,
}

impl LocalEmbedder {
    /// The dimensionality of its vectors.
    pub closed spec fn spec_dim(self) -> usize {
        self.dim
    }

    #[verifier::type_invariant]
    spec fn inv(self) -> bool {
        self.dim == EMBED_DIM
    }

    pub fn new() -> (e: Self)
        ensures
            e.spec_dim() == EMBED_DIM,
    {
        LocalEmbedder { dim: EMBED_DIM }
    }

    /// The dimensionality of the vectors.
    pub fn dim(&self) -> (d: usize)
        ensures
            d == self.spec_dim(),
            d == EMBED_DIM,
            d == 512,
    {
        proof {
            use_type_invariant(self);
        }
        self.dim
    }

    /// Hashes one feature into the counts. `ns` keeps features of different kinds
    /// apart that are spelled the same. Every feature weighs one.
    pub fn add_feature(&self, counts: &mut Vec<i32>, ns: u8, bytes: &[u8])
        requires
            old(counts)@.len() == self.spec_dim(),
        ensures
            final(counts)@ == with_feature(
                old(counts)@,
                Feature { ns, bytes: bytes@ },
                self.spec_dim(),
            ),
            final(counts)@.len() == old(counts)@.len(),
    {
        proof {
            use_type_invariant(self);
        }
        let mut h: u64 = FNV_OFFSET;
        h = (h ^ (ns as u64)).wrapping_mul(FNV_PRIME);
        let mut i: usize = 0;
        assert(bytes@.take(0) =~= Seq::<u8>::empty());
        while i < bytes.len()
            invariant
                i <= bytes@.len(),
                h == fnv(ns, bytes@.take(i as int)),
            decreases bytes@.len() - i,
        {
            h = (h ^ (bytes[i] as u64)).wrapping_mul(FNV_PRIME);
            assert(bytes@.take(i + 1).drop_last() =~= bytes@.take(i as int));
            i += 1;
        }
        assert(bytes@.take(bytes@.len() as int) =~= bytes@);
        let at: usize = ((h >> 1) as usize) % self.dim;
        let up = h & 1 == 0;
        let count: i32 = counts[at];
        if up && count < COUNT_LIMIT {
            counts.set(at, count + 1);
        } else if !up && count > -COUNT_LIMIT {
            counts.set(at, count - 1);
        } else {
            assert(counts@ =~= counts@.update(at as int, count));
        }
    }

    /// Embeds a text as the signed counts of its features, before they are scaled
    /// to unit length.
    pub fn embed_counts(&self, text: &str) -> (counts: Vec<i32>)
        ensures
            counts@ == text_counts(text@, self.spec_dim()),
            counts@.len() == EMBED_DIM,
    {
        self.count_tokens(&normalize_tokens(text))
    }

    /// The signed counts of the features of tokens.
    pub fn count_tokens(&self, list: &Vec<String>) -> (counts: Vec<i32>)
        ensures
            counts@ == counts_of(features(texts(list@)), self.spec_dim()),
            counts@.len() == EMBED_DIM,
    {
        proof {
            use_type_invariant(self);
        }
        let ghost all = texts(list@);
        let ghost dim = self.spec_dim();
        let mut counts: Vec<i32> = Vec::new();
        let mut i: usize = 0;
        while i < self.dim
            invariant
                i <= self.dim,
                counts@ == Seq::new(i as nat, |j: int| 0i32),
            decreases self.dim - i,
        {
            counts.push(0);
            assert(counts@ =~= Seq::new((i + 1) as nat, |j: int| 0i32));
            i += 1;
        }
        let mut t: usize = 0;
        while t < list.len()
            invariant
                t <= list@.len(),
                all == texts(list@),
                dim == self.spec_dim(),
                counts@.len() == dim,
                counts@ == counts_of(features(all.take(t as int)), dim),
            decreases list@.len() - t,
        {
            let ghost done = features(all.take(t as int));
            let ghost token = list@[t as int]@;
            let ghost own = token_features(token);
            assert(all.take(t + 1).drop_last() =~= all.take(t as int));
            assert(all.take(t + 1).last() == token);
            self.add_feature(&mut counts, WORD, list[t].as_str().as_bytes());
            assert((done + own.take(1)).drop_last() =~= done);
            let chars = chars_of(list[t].as_str());
            let mut w: Vec<char> = Vec::new();
            w.push('#');
            let mut k: usize = 0;
            while k < chars.len()
                invariant
                    k <= chars@.len(),
                    chars@ == token,
                    w@ == seq!['#'] + token.take(k as int),
                decreases chars@.len() - k,
            {
                w.push(chars[k]);
                assert(w@ =~= seq!['#'] + token.take(k + 1));
                k += 1;
            }
            w.push('#');
            assert(token.take(token.len() as int) =~= token);
            assert(w@ =~= wrapped(token));
            let n: usize = chars.len();
            let m: usize = w.len();
            let mut j: usize = 0;
            while j < n
                invariant
                    j <= n,
                    n == token.len(),
                    m == n + 2,
                    w@ == wrapped(token),
                    own == token_features(token),
                    dim == self.spec_dim(),
                    counts@.len() == dim,
                    counts@ == counts_of(done + own.take(j + 1), dim),
                decreases n - j,
            {
                let trigram = string_of(&w[j..j + 3]);
                self.add_feature(&mut counts, TRIGRAM, trigram.as_str().as_bytes());
                assert((done + own.take(j + 2)).drop_last() =~= done + own.take(j + 1));
                assert((done + own.take(j + 2)).last() == own[j + 1]);
                j += 1;
            }
            assert(own.take(own.len() as int) =~= own);
            t += 1;
        }
        assert(all.take(all.len() as int) =~= all);
        counts
    }
}

impl Default for LocalEmbedder {
    fn default() -> (e: Self)
        ensures
            e.spec_dim() == EMBED_DIM,
    {
        Self::new()
    }
}

/// What the selected tokens are: something is left whenever there is a token at all;
/// a token of one character is left only when there is none longer; and stopwords are
/// left only when every long token is one.
pub proof fn law_tokens(raw: Seq<Seq<char>>)
    ensures
        selected(raw).len() == 0 <==> raw.len() == 0,
        long_tokens(raw).len() > 0 ==> forall|i: int|
            0 <= i < selected(raw).len() ==> (#[trigger] selected(raw)[i]).len() >= 2,
        (forall|i: int| 0 <= i < selected(raw).len() ==> !stopword(#[trigger] selected(raw)[i])) || (
        forall|i: int| 0 <= i < long_tokens(raw).len() ==> stopword(#[trigger] long_tokens(raw)[i])),
        forall|i: int|
            0 <= i < selected(raw).len() ==> raw.contains(#[trigger] selected(raw)[i]),
{
    let long = |t: Seq<char>| t.len() >= 2;
    let plain = |t: Seq<char>| !stopword(t);
    let all = long_tokens(raw);
    let content = content_tokens(raw);
    lemma_filtered(raw, long);
    lemma_filtered(all, plain);
    assert forall|i: int| 0 <= i < content.len() implies (#[trigger] content[i]).len() >= 2
        && raw.contains(content[i]) by {
        let j = all.index_of(content[i]);
        assert(long(all[j]));
        assert(raw.contains(all[j]));
    }
    if content.len() == 0 {
        assert forall|i: int| 0 <= i < all.len() implies stopword(#[trigger] all[i]) by {
            if !stopword(all[i]) {
                assert(plain(all[i]));
                assert(content.contains(all[i]));
            }
        }
    }
    assert forall|i: int| 0 <= i < raw.len() implies raw.contains(#[trigger] raw[i]) by {}
}

/// A text with a letter or digit is embedded by at least one feature, be it made of
/// stopwords alone.
pub proof fn law_text_with_a_letter_has_features(s: Seq<char>, i: int)
    requires
        0 <= i < s.len(),
        alphanumeric(s[i]),
    ensures
        tokens(s).len() > 0,
        features(tokens(s)).len() > 0,
{
    lemma_runs_exist(s, |c: char| alphanumeric(c), i);
    law_tokens(raw_tokens(s));
}

proof fn lemma_lowered_ascii(run: Seq<char>)
    requires
        all_ascii(run),
    ensures
        lowered(run) == ascii_lowered(run),
    decreases run.len(),
{
    if run.len() > 0 {
        lemma_lowered_ascii(run.drop_last());
        assert(ascii(run[run.len() - 1]));
    }
    assert(lowered(run) =~= ascii_lowered(run));
}

/// The raw tokens of an ASCII text are the runs of its lowercase form.
proof fn lemma_raw_tokens_ascii(s: Seq<char>)
    requires
        all_ascii(s),
    ensures
        raw_tokens(s) == runs(ascii_lowered(s), |c: char| alphanumeric(c)),
{
    let keep = |c: char| alphanumeric(c);
    let lower = |c: char| ascii_lower(c);
    lemma_runs_chars(s, keep, |c: char| ascii(c));
    assert forall|i: int| 0 <= i < s.len() implies keep(lower(#[trigger] s[i])) == keep(s[i]) by {
        assert(ascii(s[i]));
    }
    lemma_runs_mapped(s, keep, lower);
    assert forall|i: int| 0 <= i < runs(s, keep).len() implies lowered(
        #[trigger] runs(s, keep)[i],
    ) == runs(s, keep)[i].map_values(lower) by {
        lemma_lowered_ascii(runs(s, keep)[i]);
    }
    assert(raw_tokens(s) =~= runs(s, keep).map_values(|r: Seq<char>| r.map_values(lower)));
}

/// The tokens of an ASCII text do not depend on the case of its letters.
pub proof fn law_tokens_of_ascii_ignore_case(a: Seq<char>, b: Seq<char>)
    requires
        all_ascii(a),
        all_ascii(b),
        ascii_lowered(a) == ascii_lowered(b),
    ensures
        tokens(a) == tokens(b),
{
    lemma_raw_tokens_ascii(a);
    lemma_raw_tokens_ascii(b);
}

/// The tokens of an ASCII text, joined by spaces, have themselves as tokens.
pub proof fn law_tokens_of_ascii_are_stable(s: Seq<char>)
    requires
        all_ascii(s),
    ensures
        tokens(joined(tokens(s), " "@)) == tokens(s),
{
    let keep = |c: char| alphanumeric(c);
    let fixed = |c: char| ascii(c) && ascii_lower(c) == c;
    let low = ascii_lowered(s);
    let raw = raw_tokens(s);
    let list = tokens(s);
    reveal_strlit(" ");
    lemma_raw_tokens_ascii(s);
    assert forall|i: int| 0 <= i < low.len() implies fixed(#[trigger] low[i]) by {
        assert(ascii(s[i]));
    }
    lemma_runs_chars(low, keep, fixed);
    law_tokens(raw);
    assert forall|i: int| 0 <= i < list.len() implies (#[trigger] list[i]).len() > 0 by {
        assert(raw[raw.index_of(list[i])].len() > 0);
    }
    assert forall|i: int, j: int| 0 <= i < list.len() && 0 <= j < list[i].len() implies keep(
        #[trigger] list[i][j],
    ) && fixed(list[i][j]) by {
        assert(keep(raw[raw.index_of(list[i])][j]));
    }
    let text = joined(list, " "@);
    lemma_joined_chars(list, " "@, fixed);
    assert(all_ascii(text)) by {
        assert forall|i: int| 0 <= i < text.len() implies ascii(#[trigger] text[i]) by {
            assert(fixed(text[i]));
        }
    }
    assert(ascii_lowered(text) =~= text) by {
        assert forall|i: int| 0 <= i < text.len() implies ascii_lower(text[i]) == text[i] by {
            assert(fixed(text[i]));
        }
    }
    lemma_raw_tokens_ascii(text);
    lemma_runs_joined(list, keep);
    lemma_selected_twice(raw);
}

/// Selecting among selected tokens drops nothing more.
proof fn lemma_selected_twice(raw: Seq<Seq<char>>)
    ensures
        selected(selected(raw)) == selected(raw),
{
    let long = |t: Seq<char>| t.len() >= 2;
    let plain = |t: Seq<char>| !stopword(t);
    let all = long_tokens(raw);
    let content = content_tokens(raw);
    lemma_filtered(raw, long);
    lemma_filtered(all, plain);
    if content.len() > 0 {
        law_tokens(raw);
        assert(all.len() > 0);
        lemma_filter_all(content, long);
        lemma_filter_all(content, plain);
    } else if all.len() > 0 {
        lemma_filter_all(all, long);
    }
}

/// How far the features that fall into a component push it, up minus down.
pub open spec fn net(list: Seq<Feature>, dim: usize, at: int) -> int
    decreases list.len(),
{
    if list.len() == 0 {
        0
    } else {
        let h = fnv(list.last().ns, list.last().bytes);
        let rest = net(list.drop_last(), dim, at);
        if slot(h, dim) != at {
            rest
        } else if h & 1 == 0 {
            rest + 1
        } else {
            rest - 1
        }
    }
}

/// Up to the limit on features, each component is the plain signed sum of the
/// features that fall into it, and no component exceeds their number.
pub proof fn law_counts_are_signed_sums(list: Seq<Feature>, dim: usize, at: int)
    requires
        list.len() <= COUNT_LIMIT,
        0 <= at < dim,
    ensures
        counts_of(list, dim).len() == dim,
        counts_of(list, dim)[at] == net(list, dim, at),
        -list.len() <= net(list, dim, at) <= list.len(),
    decreases list.len(),
{
    if list.len() > 0 {
        law_counts_are_signed_sums(list.drop_last(), dim, at);
    }
}

proof fn lemma_net_concat(a: Seq<Feature>, b: Seq<Feature>, dim: usize, at: int)
    ensures
        net(a + b, dim, at) == net(a, dim, at) + net(b, dim, at),
    decreases b.len(),
{
    if b.len() == 0 {
        assert(a + b =~= a);
    } else {
        assert((a + b).drop_last() =~= a + b.drop_last());
        lemma_net_concat(a, b.drop_last(), dim, at);
    }
}

/// The sum of a measure over tokens.
spec fn total(list: Seq<Seq<char>>, measure: spec_fn(Seq<char>) -> int) -> int
    decreases list.len(),
{
    if list.len() == 0 {
        0
    } else {
        total(list.drop_last(), measure) + measure(list.last())
    }
}

proof fn lemma_total_removed(list: Seq<Seq<char>>, i: int, measure: spec_fn(Seq<char>) -> int)
    requires
        0 <= i < list.len(),
    ensures
        total(list, measure) == total(list.remove(i), measure) + measure(list[i]),
    decreases list.len(),
{
    if i == list.len() - 1 {
        assert(list.remove(i) =~= list.drop_last());
    } else {
        assert(list.remove(i).drop_last() =~= list.drop_last().remove(i));
        lemma_total_removed(list.drop_last(), i, measure);
    }
}

proof fn lemma_total_reordered(
    a: Seq<Seq<char>>,
    b: Seq<Seq<char>>,
    measure: spec_fn(Seq<char>) -> int,
)
    requires
        a.to_multiset() == b.to_multiset(),
    ensures
        total(a, measure) == total(b, measure),
    decreases a.len(),
{
    broadcast use vstd::seq_lib::group_to_multiset_ensures;

    assert(a.len() == a.to_multiset().len());
    assert(b.len() == b.to_multiset().len());
    if a.len() > 0 {
        let n = a.len() - 1;
        assert(a.contains(a[n]));
        assert(b.to_multiset().count(a[n]) > 0);
        assert(b.contains(a[n]));
        let i = b.index_of(a[n]);
        assert(a.remove(n) =~= a.drop_last());
        assert(a.remove(n).to_multiset() =~= b.remove(i).to_multiset());
        lemma_total_reordered(a.drop_last(), b.remove(i), measure);
        lemma_total_removed(b, i, measure);
    }
}

proof fn lemma_features_total(list: Seq<Seq<char>>, dim: usize, at: int)
    ensures
        net(features(list), dim, at) == total(list, |t: Seq<char>| net(token_features(t), dim, at)),
        features(list).len() == total(list, |t: Seq<char>| token_features(t).len() as int),
    decreases list.len(),
{
    if list.len() > 0 {
        lemma_features_total(list.drop_last(), dim, at);
        lemma_net_concat(features(list.drop_last()), token_features(list.last()), dim, at);
    }
}

/// The order of tokens does not matter: lists that hold the same tokens, each as often,
/// have the same counts, up to the limit on features.
pub proof fn law_token_order_does_not_matter(a: Seq<Seq<char>>, b: Seq<Seq<char>>, dim: usize)
    requires
        a.to_multiset() == b.to_multiset(),
        features(a).len() <= COUNT_LIMIT,
        0 < dim,
    ensures
        counts_of(features(a), dim) == counts_of(features(b), dim),
{
    lemma_counts_len(features(a), dim);
    lemma_counts_len(features(b), dim);
    assert forall|at: int| 0 <= at < dim implies counts_of(features(a), dim)[at] == counts_of(
        features(b),
        dim,
    )[at] by {
        lemma_features_total(a, dim, at);
        lemma_features_total(b, dim, at);
        lemma_total_reordered(a, b, |t: Seq<char>| net(token_features(t), dim, at));
        lemma_total_reordered(a, b, |t: Seq<char>| token_features(t).len() as int);
        law_counts_are_signed_sums(features(a), dim, at);
        law_counts_are_signed_sums(features(b), dim, at);
    }
    assert(counts_of(features(a), dim) =~= counts_of(features(b), dim));
}

proof fn lemma_counts_len(list: Seq<Feature>, dim: usize)
    requires
        0 < dim,
    ensures
        counts_of(list, dim).len() == dim,
    decreases list.len(),
{
    if list.len() > 0 {
        lemma_counts_len(list.drop_last(), dim);
    }
}

/// A token is a stopword exactly if it is one of these words. Each is made of one to nine
/// lowercase letters of ASCII and of nothing else.
pub proof fn law_stopwords(t: Seq<char>)
    ensures
        stopword(t) <==> (
            t == "a"@ || t == "an"@ || t == "the"@ || t == "of"@ || t == "to"@ || t == "in"@ || t
            == "on"@ || t == "at"@ || t == "for"@ || t == "and"@ || t == "or"@ || t == "but"@ || t
            == "if"@ || t == "by"@ || t == "with"@ || t == "from"@ || t == "into"@ || t ==
            "about"@ || t == "as"@ || t == "than"@ || t == "then"@ || t == "so"@ || t == "is"@ ||
            t == "are"@ || t == "was"@ || t == "were"@ || t == "be"@ || t == "been"@ || t ==
            "being"@ || t == "am"@ || t == "do"@ || t == "does"@ || t == "did"@ || t == "have"@ ||
            t == "has"@ || t == "had"@ || t == "can"@ || t == "could"@ || t == "will"@ || t ==
            "would"@ || t == "should"@ || t == "may"@ || t == "might"@ || t == "what"@ || t ==
            "whats"@ || t == "which"@ || t == "who"@ || t == "whom"@ || t == "whose"@ || t ==
            "when"@ || t == "where"@ || t == "why"@ || t == "how"@ || t == "this"@ || t == "that"@
            || t == "these"@ || t == "those"@ || t == "it"@ || t == "its"@ || t == "i"@ || t ==
            "you"@ || t == "he"@ || t == "she"@ || t == "we"@ || t == "they"@ || t == "me"@ || t
            == "my"@ || t == "your"@ || t == "our"@ || t == "their"@ || t == "his"@ || t == "her"@
            || t == "s"@ || t == "t"@ || t == "please"@ || t == "user"@ || t == "assistant"@ || t
            == "system"@ || t == "tool"@ || t == "developer"@),
        stopword(t) ==> 0 < t.len() <= 9,
        stopword(t) ==> forall|i: int| 0 <= i < t.len() ==> 'a' <= #[trigger] t[i] <= 'z',
{
    if function_word(t) {
        lemma_letters_of_function_word(t);
    }
    if auxiliary(t) {
        lemma_letters_of_auxiliary(t);
    }
    if pronoun_or_filler(t) {
        lemma_letters_of_pronoun_or_filler(t);
    }
    if role_label(t) {
        lemma_letters_of_role_label(t);
    }
}

proof fn lemma_letters_of_function_word(t: Seq<char>)
    requires
        function_word(t),
    ensures
        0 < t.len() <= 9,
        forall|i: int| 0 <= i < t.len() ==> 'a' <= #[trigger] t[i] <= 'z',
{
    reveal_strlit("a");
    reveal_strlit("an");
    reveal_strlit("the");
    reveal_strlit("of");
    reveal_strlit("to");
    reveal_strlit("in");
    reveal_strlit("on");
    reveal_strlit("at");
    reveal_strlit("for");
    reveal_strlit("and");
    reveal_strlit("or");
    reveal_strlit("but");
    reveal_strlit("if");
    reveal_strlit("by");
    reveal_strlit("with");
    reveal_strlit("from");
    reveal_strlit("into");
    reveal_strlit("about");
    reveal_strlit("as");
    reveal_strlit("than");
    reveal_strlit("then");
    reveal_strlit("so");
}

proof fn lemma_letters_of_auxiliary(t: Seq<char>)
    requires
        auxiliary(t),
    ensures
        0 < t.len() <= 9,
        forall|i: int| 0 <= i < t.len() ==> 'a' <= #[trigger] t[i] <= 'z',
{
    reveal_strlit("is");
    reveal_strlit("are");
    reveal_strlit("was");
    reveal_strlit("were");
    reveal_strlit("be");
    reveal_strlit("been");
    reveal_strlit("being");
    reveal_strlit("am");
    reveal_strlit("do");
    reveal_strlit("does");
    reveal_strlit("did");
    reveal_strlit("have");
    reveal_strlit("has");
    reveal_strlit("had");
    reveal_strlit("can");
    reveal_strlit("could");
    reveal_strlit("will");
    reveal_strlit("would");
    reveal_strlit("should");
    reveal_strlit("may");
    reveal_strlit("might");
}

proof fn lemma_letters_of_pronoun_or_filler(t: Seq<char>)
    requires
        pronoun_or_filler(t),
    ensures
        0 < t.len() <= 9,
        forall|i: int| 0 <= i < t.len() ==> 'a' <= #[trigger] t[i] <= 'z',
{
    reveal_strlit("what");
    reveal_strlit("whats");
    reveal_strlit("which");
    reveal_strlit("who");
    reveal_strlit("whom");
    reveal_strlit("whose");
    reveal_strlit("when");
    reveal_strlit("where");
    reveal_strlit("why");
    reveal_strlit("how");
    reveal_strlit("this");
    reveal_strlit("that");
    reveal_strlit("these");
    reveal_strlit("those");
    reveal_strlit("it");
    reveal_strlit("its");
    reveal_strlit("i");
    reveal_strlit("you");
    reveal_strlit("he");
    reveal_strlit("she");
    reveal_strlit("we");
    reveal_strlit("they");
    reveal_strlit("me");
    reveal_strlit("my");
    reveal_strlit("your");
    reveal_strlit("our");
    reveal_strlit("their");
    reveal_strlit("his");
    reveal_strlit("her");
    reveal_strlit("s");
    reveal_strlit("t");
    reveal_strlit("please");
}

proof fn lemma_letters_of_role_label(t: Seq<char>)
    requires
        role_label(t),
    ensures
        0 < t.len() <= 9,
        forall|i: int| 0 <= i < t.len() ==> 'a' <= #[trigger] t[i] <= 'z',
{
    reveal_strlit("user");
    reveal_strlit("assistant");
    reveal_strlit("system");
    reveal_strlit("tool");
    reveal_strlit("developer");
}

/// Which raw tokens are left, and in which order: those of two characters or more that
/// are no stopwords; where there are none, those of two characters or more; where there
/// are none of these either, all of them.
pub proof fn law_selected(raw: Seq<Seq<char>>)
    ensures
        ({
            let long = raw.filter(|t: Seq<char>| t.len() >= 2);
            let content = long.filter(|t: Seq<char>| !stopword(t));
            selected(raw) == if content.len() > 0 {
                content
            } else if long.len() > 0 {
                long
            } else {
                raw
            }
        }),
        forall|i: int|
            0 <= i < raw.len() && raw[i].len() >= 2 && !stopword(raw[i]) ==> selected(raw).contains(
                #[trigger] raw[i],
            ),
{
    let long = |t: Seq<char>| t.len() >= 2;
    let plain = |t: Seq<char>| !stopword(t);
    let all = raw.filter(long);
    lemma_filtered(raw, long);
    lemma_filtered(all, plain);
    assert forall|i: int|
        0 <= i < raw.len() && raw[i].len() >= 2 && !stopword(raw[i]) implies selected(raw).contains(
        #[trigger] raw[i],
    ) by {
        assert(long(raw[i]));
        let j = all.index_of(raw[i]);
        assert(plain(all[j]));
        assert(all.filter(plain).contains(all[j]));
    }
}

/// A raw token of two characters or more that holds anything but a lowercase letter of
/// ASCII, such as a digit, is among the tokens that the text is embedded by.
pub proof fn law_tokens_with_a_digit_are_kept(s: Seq<char>, i: int, j: int)
    requires
        0 <= i < raw_tokens(s).len(),
        raw_tokens(s)[i].len() >= 2,
        0 <= j < raw_tokens(s)[i].len(),
        !('a' <= raw_tokens(s)[i][j] <= 'z'),
    ensures
        tokens(s).contains(raw_tokens(s)[i]),
{
    law_stopwords(raw_tokens(s)[i]);
    law_selected(raw_tokens(s));
}

/// How a text is cut: at every character that is neither letter nor digit, and nowhere
/// else; and a word of letters and digits of ASCII is one raw token, which differs from
/// the word in the case of its letters alone.
pub proof fn law_raw_tokens(a: Seq<char>, sep: char, b: Seq<char>)
    ensures
        raw_tokens(Seq::empty()) == Seq::<Seq<char>>::empty(),
        !alphanumeric(sep) ==> raw_tokens(a + seq![sep] + b) == raw_tokens(a) + raw_tokens(b),
        sep <= '\u{7f}' ==> (alphanumeric(sep) <==> '0' <= sep <= '9' || 'A' <= sep <= 'Z' || 'a'
            <= sep <= 'z'),
        a.len() > 0 && (forall|i: int|
            0 <= i < a.len() ==> '0' <= #[trigger] a[i] <= '9' || 'A' <= a[i] <= 'Z' || 'a' <= a[i]
                <= 'z') ==> raw_tokens(a) == seq![
            a.map_values(
                |c: char|
                    if 'A' <= c <= 'Z' {
                        ((c as u8) + 32) as char
                    } else {
                        c
                    },
            ),
        ],
{
    let keep = |c: char| alphanumeric(c);
    law_runs(a, sep, b, keep);
    assert(raw_tokens(Seq::empty()) =~= Seq::<Seq<char>>::empty());
    if !alphanumeric(sep) {
        assert(!keep(sep));
        assert(raw_tokens(a + seq![sep] + b) =~= raw_tokens(a) + raw_tokens(b));
    }
    if a.len() > 0 && (forall|i: int|
        0 <= i < a.len() ==> '0' <= #[trigger] a[i] <= '9' || 'A' <= a[i] <= 'Z' || 'a' <= a[i]
            <= 'z') {
        assert forall|i: int| 0 <= i < a.len() implies keep(#[trigger] a[i]) by {
            assert('0' <= a[i] <= '9' || 'A' <= a[i] <= 'Z' || 'a' <= a[i] <= 'z');
        }
        lemma_lowered_ascii(a);
        assert(ascii_lowered(a) =~= a.map_values(
            |c: char|
                if 'A' <= c <= 'Z' {
                    ((c as u8) + 32) as char
                } else {
                    c
                },
        ));
        assert(raw_tokens(a) =~= seq![ascii_lowered(a)]);
    }
}

/// The features of a text: those of its tokens, one after the other; of each token the
/// token itself, then every three neighbouring characters of it between two `#` marks,
/// as many as it has characters.
pub proof fn law_features(a: Seq<Seq<char>>, token: Seq<char>, b: Seq<Seq<char>>)
    ensures
        features(Seq::empty()) == Seq::<Feature>::empty(),
        features(a + b) == features(a) + features(b),
        features(seq![token]).len() == token.len() + 1,
        features(seq![token])[0] == (Feature { ns: 119, bytes: encode_utf8(token) }),
        forall|i: int|
            0 <= i < token.len() ==> #[trigger] features(seq![token])[i + 1] == (Feature {
                ns: 99,
                bytes: encode_utf8((seq!['#'] + token + seq!['#']).subrange(i, i + 3)),
            }),
    decreases b.len(),
{
    assert(features(Seq::empty()) =~= Seq::<Feature>::empty());
    assert(seq![token].drop_last() =~= Seq::<Seq<char>>::empty());
    assert(features(seq![token]) =~= token_features(token));
    if b.len() == 0 {
        assert(a + b =~= a);
        assert(features(a + b) =~= features(a) + features(b));
    } else {
        assert((a + b).drop_last() =~= a + b.drop_last());
        law_features(a, token, b.drop_last());
        assert(features(a + b) =~= features(a) + features(b));
    }
}

/// The hash of a feature: its namespace byte and then each of its bytes, from the left,
/// is mixed into the offset by exclusive or and a multiplication by the prime.
pub proof fn law_fnv(ns: u8, bytes: Seq<u8>, b: u8)
    ensures
        fnv(ns, Seq::empty()) == (0xcbf2_9ce4_8422_2325u64 ^ (ns as u64)).wrapping_mul(
            0x0000_0100_0000_01b3,
        ),
        fnv(ns, bytes.push(b)) == (fnv(ns, bytes) ^ (b as u64)).wrapping_mul(0x0000_0100_0000_01b3),
{
    assert(bytes.push(b).drop_last() =~= bytes);
}

/// What one more feature does to the counts: the component that its hash falls into goes
/// up by one where the lowest bit of the hash is clear and down by one where it is set,
/// short of the limit, and every other component stays. Before any feature all are zero.
pub proof fn law_one_more_feature(list: Seq<Feature>, f: Feature, dim: usize, at: int)
    requires
        0 <= at < dim,
    ensures
        counts_of(Seq::empty(), dim).len() == dim,
        counts_of(Seq::empty(), dim)[at] == 0,
        counts_of(list.push(f), dim).len() == dim,
        ({
            let h = fnv(f.ns, f.bytes);
            let before = counts_of(list, dim)[at];
            let after = counts_of(list.push(f), dim)[at];
            if at != ((h >> 1) as usize) % dim {
                after == before
            } else if h & 1 == 0 {
                after == if before < 16_777_216 { before + 1 } else { before as int }
            } else {
                after == if before > -16_777_216 { before - 1 } else { before as int }
            }
        }),
{
    lemma_counts_len(list, dim);
    lemma_counts_len(list.push(f), dim);
    lemma_counts_bounded(list, dim, at);
    assert(list.push(f).drop_last() =~= list);
}

proof fn lemma_counts_bounded(list: Seq<Feature>, dim: usize, at: int)
    requires
        0 <= at < dim,
    ensures
        -COUNT_LIMIT <= counts_of(list, dim)[at] <= COUNT_LIMIT,
    decreases list.len(),
{
    lemma_counts_len(list, dim);
    if list.len() > 0 {
        lemma_counts_len(list.drop_last(), dim);
        lemma_counts_bounded(list.drop_last(), dim, at);
    }
}

/// A text is embedded by the features of its selected tokens, and by nothing else of it:
/// texts with the same raw tokens are embedded alike.
pub proof fn law_text_counts(a: Seq<char>, b: Seq<char>, dim: usize)
    ensures
        text_counts(a, dim) == counts_of(features(selected(raw_tokens(a))), dim),
        raw_tokens(a) == raw_tokens(b) ==> text_counts(a, dim) == text_counts(b, dim),
{
}

/// A word of letters and digits of any script is one raw token, made of the lowercase
/// forms of its characters, one after the other.
pub proof fn law_raw_token_of_a_word(word: Seq<char>, c: char, rest: Seq<char>)
    ensures
        lowered(Seq::empty()) == Seq::<char>::empty(),
        lowered(seq![c] + rest) == char_lowercase(c) + lowered(rest),
        word.len() > 0 && (forall|i: int| 0 <= i < word.len() ==> alphanumeric(#[trigger] word[i]))
            ==> raw_tokens(word) == seq![lowered(word)],
    decreases rest.len(),
{
    let keep = |c: char| alphanumeric(c);
    assert(lowered(Seq::empty()) =~= Seq::<char>::empty());
    if word.len() > 0 && (forall|i: int| 0 <= i < word.len() ==> alphanumeric(#[trigger] word[i])) {
        assert forall|i: int| 0 <= i < word.len() implies keep(#[trigger] word[i]) by {
            assert(alphanumeric(word[i]));
        }
        law_runs(word, c, rest, keep);
        assert(raw_tokens(word) =~= seq![lowered(word)]);
    }
    let all = seq![c] + rest;
    if rest.len() == 0 {
        assert(all.drop_last() =~= rest);
        assert(lowered(all) =~= char_lowercase(c) + lowered(rest));
    } else {
        assert(all.drop_last() =~= seq![c] + rest.drop_last());
        law_raw_token_of_a_word(word, c, rest.drop_last());
        assert(lowered(all) =~= char_lowercase(c) + lowered(rest));
    }
}

/// The tokens of a text are those selected of its raw tokens.
pub proof fn law_tokens_of_a_text(s: Seq<char>)
    ensures
        tokens(s) == selected(raw_tokens(s)),
{
}

} // verus!
