//! Text as sequences of characters: the Unicode facts taken from the standard
//! library, and the splitting, trimming and joining that the rest is built on.
use vstd::prelude::*;
use vstd::utf8::{decode_utf8, valid_utf8};

verus! {

/// Whether a character is ASCII.
pub open spec fn ascii(c: char) -> bool {
    c <= '\u{7f}'
}

/// Whether every character of a text is ASCII.
pub open spec fn all_ascii(s: Seq<char>) -> bool {
    forall|i: int| 0 <= i < s.len() ==> ascii(#[trigger] s[i])
}

/// A letter of the ASCII alphabet in lower case; any other character itself.
pub open spec fn ascii_lower(c: char) -> char {
    if 'A' <= c <= 'Z' {
        ((c as u8) + 32) as char
    } else {
        c
    }
}

/// A text with the letters of the ASCII alphabet in lower case.
pub open spec fn ascii_lowered(s: Seq<char>) -> Seq<char> {
    s.map_values(|c: char| ascii_lower(c))
}

/// A letter or digit of ASCII.
pub open spec fn ascii_alphanumeric(c: char) -> bool {
    '0' <= c <= '9' || 'A' <= c <= 'Z' || 'a' <= c <= 'z'
}

/// Whether `char::is_alphanumeric` holds of a character, read where it is not ASCII.
pub uninterp spec fn wide_alphanumeric(c: char) -> bool;

/// The characters that `char::to_lowercase` yields for a character, read where it is
/// not ASCII.
pub uninterp spec fn wide_char_lowercase(c: char) -> Seq<char>;

/// The text that `str::to_lowercase` returns, read where it is not all ASCII.
pub uninterp spec fn wide_lowercase(s: Seq<char>) -> Seq<char>;

/// Whether a character is a letter or digit.
pub open spec fn alphanumeric(c: char) -> bool {
    if ascii(c) {
        ascii_alphanumeric(c)
    } else {
        wide_alphanumeric(c)
    }
}

/// Whether a character is white space: the characters with Unicode's property
/// `White_Space`.
pub open spec fn whitespace(c: char) -> bool {
    ||| '\u{9}' <= c <= '\u{d}'
    ||| c == ' '
    ||| c == '\u{85}'
    ||| c == '\u{a0}'
    ||| c == '\u{1680}'
    ||| '\u{2000}' <= c <= '\u{200a}'
    ||| c == '\u{2028}'
    ||| c == '\u{2029}'
    ||| c == '\u{202f}'
    ||| c == '\u{205f}'
    ||| c == '\u{3000}'
}

/// The lowercase form of a character, of one or more characters.
pub open spec fn char_lowercase(c: char) -> Seq<char> {
    if ascii(c) {
        seq![ascii_lower(c)]
    } else {
        wide_char_lowercase(c)
    }
}

/// A text in lower case.
pub open spec fn lowercase(s: Seq<char>) -> Seq<char> {
    if all_ascii(s) {
        ascii_lowered(s)
    } else {
        wide_lowercase(s)
    }
}

/// `char::is_alphanumeric`: of ASCII characters it holds of the letters and digits;
/// of others it is a function of the character, by Unicode's tables.
pub assume_specification[ char::is_alphanumeric ](c: char) -> (b: bool)
    ensures
        ascii(c) ==> b == ascii_alphanumeric(c),
        !ascii(c) ==> b == wide_alphanumeric(c),
;

/// `char::is_whitespace` holds of the characters with Unicode's property
/// `White_Space`.
pub assume_specification[ char::is_whitespace ](c: char) -> (b: bool)
    ensures
        b == whitespace(c),
;

/// `str::to_lowercase`: of an ASCII text it changes the letters alone; of others it
/// is a function of the text, by Unicode's tables.
pub assume_specification[ str::to_lowercase ](s: &str) -> (r: String)
    ensures
        all_ascii(s@) ==> r@ == ascii_lowered(s@),
        !all_ascii(s@) ==> r@ == wide_lowercase(s@),
;

/// `String::push` appends one character.
pub assume_specification[ String::push ](s: &mut String, c: char)
    ensures
        final(s)@ == old(s)@.push(c),
;

/// `char::to_lowercase` yields one or more characters: of an ASCII character its
/// lowercase form alone, of others a function of the character, by Unicode's tables.
#[verifier::external_body]
pub(crate) fn lower_char(c: char) -> (r: String)
    ensures
        ascii(c) ==> r@ == seq![ascii_lower(c)],
        !ascii(c) ==> r@ == wide_char_lowercase(c),
        r@.len() >= 1,
{
    c.to_lowercase().to_string()
}

/// `str::eq`: two texts are equal when their characters are.
#[verifier::external_body]
pub(crate) fn same_text(a: &str, b: &str) -> (r: bool)
    ensures
        r == (a@ == b@),
{
    a == b
}

/// `std::str::from_utf8` succeeds on valid UTF-8 alone, and gives the text that
/// the bytes encode.
#[verifier::external_body]
pub(crate) fn utf8_text(bytes: &[u8]) -> (r: Option<String>)
    ensures
        r is Some <==> valid_utf8(bytes@),
        r matches Some(s) ==> s@ == decode_utf8(bytes@),
{
    std::str::from_utf8(bytes).ok().map(|s| s.to_owned())
}

/// The characters of a text, as a vector.
pub fn chars_of(s: &str) -> (r: Vec<char>)
    ensures
        r@ == s@,
{
    let mut out: Vec<char> = Vec::new();
    for c in it: s.chars()
        invariant
            it.seq() == s@,
            out@ == s@.take(it.index() as int),
    {
        out.push(c);
    }
    assert(s@.take(s@.len() as int) =~= s@);
    out
}

/// The text that a slice of characters spells.
pub fn string_of(chars: &[char]) -> (r: String)
    ensures
        r@ == chars@,
{
    let mut out = String::new();
    let mut i: usize = 0;
    while i < chars.len()
        invariant
            i <= chars@.len(),
            out@ == chars@.take(i as int),
        decreases chars@.len() - i,
    {
        out.push(chars[i]);
        assert(chars@.take(i + 1) =~= chars@.take(i as int).push(chars@[i as int]));
        i += 1;
    }
    assert(chars@.take(chars@.len() as int) =~= chars@);
    out
}

/// The maximal runs of characters for which `keep` holds, in order: a kept
/// character extends the last run when the character before it is kept, and
/// opens a new run otherwise.
pub open spec fn runs(s: Seq<char>, keep: spec_fn(char) -> bool) -> Seq<Seq<char>>
    decreases s.len(),
{
    if s.len() == 0 {
        Seq::empty()
    } else {
        let before = runs(s.drop_last(), keep);
        if !keep(s.last()) {
            before
        } else if s.len() >= 2 && keep(s[s.len() - 2]) {
            before.drop_last().push(before.last().push(s.last()))
        } else {
            before.push(seq![s.last()])
        }
    }
}

/// Every run is non-empty and made of kept characters of the text.
pub proof fn lemma_runs_chars(
    s: Seq<char>,
    keep: spec_fn(char) -> bool,
    also: spec_fn(char) -> bool,
)
    requires
        forall|i: int| 0 <= i < s.len() ==> also(#[trigger] s[i]),
    ensures
        forall|i: int|
            0 <= i < runs(s, keep).len() ==> (#[trigger] runs(s, keep)[i]).len() > 0,
        forall|i: int, j: int|
            0 <= i < runs(s, keep).len() && 0 <= j < runs(s, keep)[i].len() ==> keep(
                #[trigger] runs(s, keep)[i][j],
            ) && also(runs(s, keep)[i][j]),
        s.len() > 0 && keep(s.last()) ==> runs(s, keep).len() > 0,
    decreases s.len(),
{
    if s.len() > 0 {
        let rest = s.drop_last();
        let before = runs(rest, keep);
        assert forall|i: int| 0 <= i < rest.len() implies also(#[trigger] rest[i]) by {
            assert(also(s[i]));
        }
        lemma_runs_chars(rest, keep, also);
        assert forall|i: int, j: int|
            0 <= i < runs(s, keep).len() && 0 <= j < runs(s, keep)[i].len() implies keep(
            #[trigger] runs(s, keep)[i][j],
        ) && also(runs(s, keep)[i][j]) by {
            if i < before.len() && j < before[i].len() {
                assert(keep(before[i][j]));
            } else {
                assert(runs(s, keep)[i][j] == s[s.len() - 1]);
            }
        }
        assert forall|i: int| 0 <= i < runs(s, keep).len() implies (#[trigger] runs(
            s,
            keep,
        )[i]).len() > 0 by {
            if i < before.len() {
                assert(before[i].len() > 0);
            }
        }
    }
}

/// A text with a kept character has a run.
pub proof fn lemma_runs_exist(s: Seq<char>, keep: spec_fn(char) -> bool, i: int)
    requires
        0 <= i < s.len(),
        keep(s[i]),
    ensures
        runs(s, keep).len() > 0,
    decreases s.len(),
{
    lemma_runs_chars(s, keep, |c: char| true);
    if i < s.len() - 1 {
        lemma_runs_exist(s.drop_last(), keep, i);
        if keep(s.last()) && s.len() >= 2 && keep(s[s.len() - 2]) {
            assert(runs(s, keep).len() == runs(s.drop_last(), keep).len());
        }
    }
}

/// Runs of characters that are changed one by one, without changing which are kept,
/// are the runs with their characters so changed.
pub proof fn lemma_runs_mapped(
    s: Seq<char>,
    keep: spec_fn(char) -> bool,
    change: spec_fn(char) -> char,
)
    requires
        forall|i: int| 0 <= i < s.len() ==> keep(change(#[trigger] s[i])) == keep(s[i]),
    ensures
        runs(s.map_values(change), keep) == runs(s, keep).map_values(
            |r: Seq<char>| r.map_values(change),
        ),
    decreases s.len(),
{
    let each = |r: Seq<char>| r.map_values(change);
    let t = s.map_values(change);
    if s.len() == 0 {
        assert(runs(t, keep) =~= runs(s, keep).map_values(each));
    } else {
        let rest = s.drop_last();
        assert forall|i: int| 0 <= i < rest.len() implies keep(change(#[trigger] rest[i])) == keep(
            rest[i],
        ) by {
            assert(keep(change(s[i])) == keep(s[i]));
        }
        lemma_runs_mapped(rest, keep, change);
        lemma_runs_chars(rest, keep, |c: char| true);
        assert(t.drop_last() =~= rest.map_values(change));
        assert(keep(change(s[s.len() - 1])) == keep(s.last()));
        if keep(s.last()) {
            if s.len() >= 2 {
                assert(keep(change(s[s.len() - 2])) == keep(s[s.len() - 2]));
            }
            if s.len() >= 2 && keep(s[s.len() - 2]) {
                let before = runs(rest, keep);
                assert(rest.last() == s[s.len() - 2]);
                assert(each(before.last().push(s.last())) =~= each(before.last()).push(
                    change(s.last()),
                ));
            } else {
                assert(each(seq![s.last()]) =~= seq![change(s.last())]);
            }
        }
        assert(runs(t, keep) =~= runs(s, keep).map_values(each));
    }
}

proof fn lemma_runs_append(before: Seq<char>, word: Seq<char>, keep: spec_fn(char) -> bool)
    requires
        word.len() > 0,
        forall|i: int| 0 <= i < word.len() ==> keep(#[trigger] word[i]),
        before.len() > 0 ==> !keep(before.last()),
    ensures
        runs(before + word, keep) == runs(before, keep).push(word),
    decreases word.len(),
{
    let s = before + word;
    let short = word.drop_last();
    assert(s.drop_last() =~= before + short);
    assert(keep(word[word.len() - 1]));
    if short.len() == 0 {
        assert(s.drop_last() =~= before);
        assert(word =~= seq![s.last()]);
    } else {
        assert forall|i: int| 0 <= i < short.len() implies keep(#[trigger] short[i]) by {
            assert(keep(word[i]));
        }
        lemma_runs_append(before, short, keep);
        assert(keep(word[word.len() - 2]));
        assert(s[s.len() - 2] == word[word.len() - 2]);
        assert(runs(before, keep).push(short).drop_last() =~= runs(before, keep));
        assert(short.push(word.last()) =~= word);
    }
}

/// Pieces of kept characters, joined by a space that is not kept, are the runs of
/// what they are joined to.
pub proof fn lemma_runs_joined(pieces: Seq<Seq<char>>, keep: spec_fn(char) -> bool)
    requires
        !keep(' '),
        forall|i: int| 0 <= i < pieces.len() ==> (#[trigger] pieces[i]).len() > 0,
        forall|i: int, j: int|
            0 <= i < pieces.len() && 0 <= j < pieces[i].len() ==> keep(#[trigger] pieces[i][j]),
    ensures
        runs(joined(pieces, " "@), keep) == pieces,
    decreases pieces.len(),
{
    reveal_strlit(" ");
    if pieces.len() == 0 {
        assert(runs(joined(pieces, " "@), keep) =~= pieces);
    } else {
        let rest = pieces.drop_last();
        let last = pieces.last();
        assert(pieces[pieces.len() - 1].len() > 0);
        assert forall|j: int| 0 <= j < last.len() implies keep(#[trigger] last[j]) by {
            assert(keep(pieces[pieces.len() - 1][j]));
        }
        assert forall|i: int| 0 <= i < rest.len() implies (#[trigger] rest[i]).len() > 0 by {
            assert(pieces[i].len() > 0);
        }
        assert forall|i: int, j: int| 0 <= i < rest.len() && 0 <= j < rest[i].len() implies keep(
            #[trigger] rest[i][j],
        ) by {
            assert(keep(pieces[i][j]));
        }
        lemma_runs_joined(rest, keep);
        if pieces.len() == 1 {
            lemma_runs_append(Seq::empty(), last, keep);
            assert(Seq::<char>::empty() + last =~= last);
            assert(runs(Seq::<char>::empty(), keep) =~= Seq::<Seq<char>>::empty());
            assert(runs(joined(pieces, " "@), keep) =~= pieces);
        } else {
            let head = joined(rest, " "@);
            let open = head + " "@;
            assert(open.drop_last() =~= head);
            assert(open.last() == ' ');
            lemma_runs_append(open, last, keep);
            assert(rest.push(last) =~= pieces);
        }
    }
}

/// What holds of the characters of all pieces and of the separator holds of the
/// characters of the joined text.
pub proof fn lemma_joined_chars(
    pieces: Seq<Seq<char>>,
    sep: Seq<char>,
    pred: spec_fn(char) -> bool,
)
    requires
        forall|i: int| 0 <= i < sep.len() ==> pred(#[trigger] sep[i]),
        forall|i: int, j: int|
            0 <= i < pieces.len() && 0 <= j < pieces[i].len() ==> pred(#[trigger] pieces[i][j]),
    ensures
        forall|i: int| 0 <= i < joined(pieces, sep).len() ==> pred(#[trigger] joined(pieces, sep)[i]),
    decreases pieces.len(),
{
    let all = joined(pieces, sep);
    if pieces.len() > 0 {
        let rest = pieces.drop_last();
        let last = pieces.len() - 1;
        assert forall|i: int, j: int| 0 <= i < rest.len() && 0 <= j < rest[i].len() implies pred(
            #[trigger] rest[i][j],
        ) by {
            assert(pred(pieces[i][j]));
        }
        lemma_joined_chars(rest, sep, pred);
        assert forall|i: int| 0 <= i < all.len() implies pred(#[trigger] all[i]) by {
            if pieces.len() == 1 {
                assert(pred(pieces[0][i]));
            } else {
                let head = joined(rest, sep);
                if i < head.len() {
                    assert(pred(head[i]));
                } else if i < head.len() + sep.len() {
                    assert(pred(sep[i - head.len()]));
                } else {
                    assert(pred(pieces[last][i - head.len() - sep.len()]));
                }
            }
        }
    }
}

/// Lowering joined pieces is joining the lowered pieces, where the separator has no
/// letters.
pub proof fn lemma_joined_lowered(pieces: Seq<Seq<char>>, sep: Seq<char>)
    requires
        ascii_lowered(sep) == sep,
    ensures
        ascii_lowered(joined(pieces, sep)) == joined(
            pieces.map_values(|p: Seq<char>| ascii_lowered(p)),
            sep,
        ),
    decreases pieces.len(),
{
    let low = pieces.map_values(|p: Seq<char>| ascii_lowered(p));
    if pieces.len() == 0 {
        assert(ascii_lowered(joined(pieces, sep)) =~= joined(low, sep));
    } else if pieces.len() > 1 {
        let rest = pieces.drop_last();
        lemma_joined_lowered(rest, sep);
        assert(low.drop_last() =~= rest.map_values(|p: Seq<char>| ascii_lowered(p)));
        let head = joined(rest, sep);
        assert(ascii_lowered(head + sep + pieces.last()) =~= ascii_lowered(head) + ascii_lowered(
            sep,
        ) + ascii_lowered(pieces.last()));
    }
}

/// A filter that everything passes changes nothing.
pub proof fn lemma_filter_all<A>(s: Seq<A>, pred: spec_fn(A) -> bool)
    requires
        forall|i: int| 0 <= i < s.len() ==> pred(#[trigger] s[i]),
    ensures
        s.filter(pred) == s,
    decreases s.len(),
{
    reveal(Seq::filter);
    if s.len() > 0 {
        let rest = s.drop_last();
        assert forall|i: int| 0 <= i < rest.len() implies pred(#[trigger] rest[i]) by {
            assert(pred(s[i]));
        }
        lemma_filter_all(rest, pred);
        assert(pred(s[s.len() - 1]));
        assert(rest.push(s.last()) =~= s);
    }
}

/// What a filter keeps was there before, and satisfies the predicate.
pub proof fn lemma_filtered<A>(s: Seq<A>, pred: spec_fn(A) -> bool)
    ensures
        s.filter(pred).len() <= s.len(),
        forall|i: int|
            0 <= i < s.filter(pred).len() ==> pred(#[trigger] s.filter(pred)[i]) && s.contains(
                s.filter(pred)[i],
            ),
        forall|i: int| 0 <= i < s.len() && pred(#[trigger] s[i]) ==> s.filter(pred).contains(s[i]),
    decreases s.len(),
{
    reveal(Seq::filter);
    if s.len() > 0 {
        let rest = s.drop_last();
        lemma_filtered(rest, pred);
        assert forall|i: int| 0 <= i < s.filter(pred).len() implies pred(
            #[trigger] s.filter(pred)[i],
        ) && s.contains(s.filter(pred)[i]) by {
            if i < rest.filter(pred).len() {
                let j = rest.index_of(rest.filter(pred)[i]);
                assert(s[j] == rest[j]);
            } else {
                assert(s[s.len() - 1] == s.filter(pred)[i]);
            }
        }
        assert forall|i: int| 0 <= i < s.len() && pred(#[trigger] s[i]) implies s.filter(
            pred,
        ).contains(s[i]) by {
            if i < rest.len() {
                assert(rest[i] == s[i]);
                let j = rest.filter(pred).index_of(s[i]);
                assert(s.filter(pred)[j] == s[i]);
            } else {
                assert(s.filter(pred)[rest.filter(pred).len() as int] == s[i]);
            }
        }
    }
}

/// The words of a text: its runs of characters other than white space.
pub open spec fn words(s: Seq<char>) -> Seq<Seq<char>> {
    runs(s, |c: char| !whitespace(c))
}

/// The view of an optional text.
pub open spec fn text_view(t: Option<String>) -> Option<Seq<char>> {
    match t {
        Some(s) => Some(s@),
        None => None,
    }
}

/// The view of an optional borrowed text.
pub open spec fn str_view(t: Option<&str>) -> Option<Seq<char>> {
    match t {
        Some(s) => Some(s@),
        None => None,
    }
}

/// The views of a list of texts.
pub open spec fn texts(v: Seq<String>) -> Seq<Seq<char>> {
    v.map_values(|t: String| t@)
}

/// The words of a text, in order.
pub fn split_whitespace(s: &str) -> (r: Vec<String>)
    ensures
        texts(r@) == words(s@),
{
    let ghost keep = |c: char| !whitespace(c);
    let mut done: Vec<String> = Vec::new();
    let mut cur = String::new();
    assert(texts(done@) =~= runs(s@.take(0), keep));
    for c in it: s.chars()
        invariant
            it.seq() == s@,
            keep == (|c: char| !whitespace(c)),
            ({
                let seen = s@.take(it.index() as int);
                let open = it.index() > 0 && keep(s@[it.index() - 1]);
                &&& cur@.len() > 0 <==> open
                &&& runs(seen, keep) == if open { texts(done@).push(cur@) } else { texts(done@) }
            }),
    {
        let ghost i = it.index() as int;
        let ghost old_done = done@;
        let ghost old_cur = cur@;
        assert(s@.take(i + 1).drop_last() =~= s@.take(i));
        assert(s@.take(i + 1).last() == c);
        if !c.is_whitespace() {
            cur.push(c);
            assert(texts(done@).push(old_cur).drop_last() =~= texts(done@));
            assert(seq![c] =~= Seq::<char>::empty().push(c));
            assert(old_cur.len() == 0 ==> old_cur =~= Seq::<char>::empty());
        } else if !cur.as_str().is_empty() {
            done.push(cur);
            assert(texts(done@) =~= texts(old_done).push(old_cur));
            cur = String::new();
        }
    }
    assert(s@.take(s@.len() as int) =~= s@);
    if !cur.as_str().is_empty() {
        let ghost old_done = done@;
        let ghost old_cur = cur@;
        done.push(cur);
        assert(texts(done@) =~= texts(old_done).push(old_cur));
    }
    done
}

/// The pieces of a list, put together with `sep` between neighbours.
pub open spec fn joined(pieces: Seq<Seq<char>>, sep: Seq<char>) -> Seq<char>
    decreases pieces.len(),
{
    if pieces.len() == 0 {
        Seq::empty()
    } else if pieces.len() == 1 {
        pieces[0]
    } else {
        joined(pieces.drop_last(), sep) + sep + pieces.last()
    }
}

/// Joins texts with `sep` between neighbours.
pub fn join(pieces: &Vec<String>, sep: &str) -> (r: String)
    ensures
        r@ == joined(texts(pieces@), sep@),
{
    let mut out = String::new();
    let mut i: usize = 0;
    while i < pieces.len()
        invariant
            i <= pieces@.len(),
            out@ == joined(texts(pieces@).take(i as int), sep@),
        decreases pieces@.len() - i,
    {
        let ghost before = texts(pieces@).take(i as int);
        let ghost after = texts(pieces@).take(i + 1);
        assert(after.drop_last() =~= before);
        assert(after.last() == pieces@[i as int]@);
        if i > 0 {
            out.append(sep);
        }
        out.append(pieces[i].as_str());
        assert(i == 0 ==> out@ =~= after[0]);
        i += 1;
    }
    assert(texts(pieces@).take(pieces@.len() as int) =~= texts(pieces@));
    out
}

/// The text without the white space it starts with.
pub open spec fn trimmed_start(s: Seq<char>) -> Seq<char>
    decreases s.len(),
{
    if s.len() > 0 && whitespace(s[0]) {
        trimmed_start(s.drop_first())
    } else {
        s
    }
}

/// The text without the white space it ends with.
pub open spec fn trimmed_end(s: Seq<char>) -> Seq<char>
    decreases s.len(),
{
    if s.len() > 0 && whitespace(s.last()) {
        trimmed_end(s.drop_last())
    } else {
        s
    }
}

/// The text without the white space at both of its ends.
pub open spec fn trimmed(s: Seq<char>) -> Seq<char> {
    trimmed_end(trimmed_start(s))
}

/// Drops leading white space.
pub fn trim_start(s: &[char]) -> (r: &[char])
    ensures
        r@ == trimmed_start(s@),
{
    let mut i: usize = 0;
    assert(s@.skip(0) =~= s@);
    while i < s.len() && s[i].is_whitespace()
        invariant
            i <= s@.len(),
            trimmed_start(s@) == trimmed_start(s@.skip(i as int)),
        decreases s@.len() - i,
    {
        assert(s@.skip(i as int).drop_first() =~= s@.skip(i + 1));
        i += 1;
    }
    let r = &s[i..s.len()];
    assert(r@ =~= s@.skip(i as int));
    r
}

/// Drops trailing white space.
pub fn trim_end(s: &[char]) -> (r: &[char])
    ensures
        r@ == trimmed_end(s@),
{
    let mut n: usize = s.len();
    assert(s@.take(n as int) =~= s@);
    while n > 0 && s[n - 1].is_whitespace()
        invariant
            n <= s@.len(),
            trimmed_end(s@) == trimmed_end(s@.take(n as int)),
        decreases n,
    {
        assert(s@.take(n as int).drop_last() =~= s@.take(n - 1));
        n -= 1;
    }
    let r = &s[0..n];
    assert(r@ =~= s@.take(n as int));
    r
}

/// Drops white space at both ends.
pub fn trim(s: &[char]) -> (r: &[char])
    ensures
        r@ == trimmed(s@),
{
    trim_end(trim_start(s))
}

/// Whether a text starts with another.
pub open spec fn has_prefix(s: Seq<char>, prefix: Seq<char>) -> bool {
    prefix.len() <= s.len() && s.take(prefix.len() as int) == prefix
}

/// Whether the characters start with those of `prefix`.
pub fn starts_with(s: &[char], prefix: &[char]) -> (r: bool)
    ensures
        r == has_prefix(s@, prefix@),
{
    if prefix.len() > s.len() {
        return false;
    }
    let mut i: usize = 0;
    while i < prefix.len()
        invariant
            i <= prefix@.len() <= s@.len(),
            forall|j: int| 0 <= j < i ==> s@[j] == prefix@[j],
        decreases prefix@.len() - i,
    {
        if s[i] != prefix[i] {
            assert(s@.take(prefix@.len() as int)[i as int] != prefix@[i as int]);
            return false;
        }
        i += 1;
    }
    assert(s@.take(prefix@.len() as int) =~= prefix@);
    true
}

/// The first position at which a character stands, if it occurs.
pub open spec fn position(s: Seq<char>, c: char) -> Option<int>
    decreases s.len(),
{
    if s.len() == 0 {
        None
    } else if s[0] == c {
        Some(0)
    } else {
        match position(s.drop_first(), c) {
            Some(i) => Some(i + 1),
            None => None,
        }
    }
}

/// What `position` returns: the first place of the character.
pub proof fn lemma_position(s: Seq<char>, c: char)
    ensures
        match position(s, c) {
            Some(i) => 0 <= i < s.len() && s[i] == c && forall|j: int| 0 <= j < i ==> s[j] != c,
            None => forall|j: int| 0 <= j < s.len() ==> s[j] != c,
        },
    decreases s.len(),
{
    if s.len() > 0 && s[0] != c {
        lemma_position(s.drop_first(), c);
        assert(forall|j: int| 1 <= j < s.len() ==> s[j] == s.drop_first()[j - 1]);
    }
}

/// Finds the first place of a character.
pub fn find(s: &[char], c: char) -> (r: Option<usize>)
    ensures
        match r {
            Some(i) => position(s@, c) == Some(i as int),
            None => position(s@, c) is None,
        },
        r matches Some(i) ==> i < s@.len(),
{
    let mut i: usize = 0;
    while i < s.len()
        invariant
            i <= s@.len(),
            forall|j: int| 0 <= j < i ==> s@[j] != c,
        decreases s@.len() - i,
    {
        if s[i] == c {
            proof {
                lemma_position(s@, c);
            }
            return Some(i);
        }
        i += 1;
    }
    proof {
        lemma_position(s@, c);
    }
    None
}

/// The two sides of the first `c` in a text, if it occurs.
pub open spec fn cut(s: Seq<char>, c: char) -> Option<(Seq<char>, Seq<char>)> {
    match position(s, c) {
        Some(i) => Some((s.take(i), s.skip(i + 1))),
        None => None,
    }
}

/// Splits at the first `c`.
pub fn split_once(s: &[char], c: char) -> (r: Option<(&[char], &[char])>)
    ensures
        match r {
            Some((a, b)) => cut(s@, c) == Some((a@, b@)),
            None => cut(s@, c) is None,
        },
{
    match find(s, c) {
        Some(i) => {
            let n: usize = s.len();
            let a = &s[0..i];
            let b = &s[i + 1..n];
            assert(a@ =~= s@.take(i as int));
            assert(b@ =~= s@.skip(i + 1));
            Some((a, b))
        },
        None => None,
    }
}

/// The parts of a text between the occurrences of `c`.
pub open spec fn parts(s: Seq<char>, c: char) -> Seq<Seq<char>>
    decreases s.len(),
    via parts_decreases
{
    match position(s, c) {
        Some(i) => seq![s.take(i)] + parts(s.skip(i + 1), c),
        None => seq![s],
    }
}

#[via_fn]
proof fn parts_decreases(s: Seq<char>, c: char) {
    lemma_position(s, c);
}

/// The views of a list of character slices.
pub open spec fn slices(v: Seq<&[char]>) -> Seq<Seq<char>> {
    v.map_values(|t: &[char]| t@)
}

/// Splits at every `c`.
pub fn split(s: &[char], c: char) -> (r: Vec<&[char]>)
    ensures
        slices(r@) == parts(s@, c),
        r@.len() >= 1,
{
    let mut out: Vec<&[char]> = Vec::new();
    let mut rest: &[char] = s;
    assert(slices(out@) + parts(rest@, c) =~= parts(s@, c));
    loop
        invariant
            slices(out@) + parts(rest@, c) == parts(s@, c),
        decreases rest@.len(),
    {
        let ghost before = out@;
        match split_once(rest, c) {
            Some((a, b)) => {
                out.push(a);
                proof {
                    lemma_position(rest@, c);
                    assert(slices(out@) =~= slices(before).push(a@));
                    assert(slices(before) + (seq![a@] + parts(b@, c)) =~= slices(before).push(a@)
                        + parts(b@, c));
                }
                rest = b;
            },
            None => {
                out.push(rest);
                assert(slices(out@) =~= slices(before) + seq![rest@]);
                return out;
            },
        }
    }
}

/// Runs end at every character that is not kept, and nowhere else: an empty text has
/// none, a word of kept characters is one run, and the runs around a character that is
/// not kept are those before it and those after it.
pub proof fn law_runs(a: Seq<char>, sep: char, b: Seq<char>, keep: spec_fn(char) -> bool)
    ensures
        runs(Seq::empty(), keep) == Seq::<Seq<char>>::empty(),
        a.len() > 0 && (forall|i: int| 0 <= i < a.len() ==> keep(#[trigger] a[i])) ==> runs(a, keep)
            == seq![a],
        !keep(sep) ==> runs(a + seq![sep] + b, keep) == runs(a, keep) + runs(b, keep),
{
    assert(runs(Seq::empty(), keep) =~= Seq::<Seq<char>>::empty());
    if a.len() > 0 && (forall|i: int| 0 <= i < a.len() ==> keep(#[trigger] a[i])) {
        lemma_runs_append(Seq::empty(), a, keep);
        assert(Seq::<char>::empty() + a =~= a);
        assert(Seq::<Seq<char>>::empty().push(a) =~= seq![a]);
    }
    if !keep(sep) {
        lemma_runs_around(a, sep, b, keep);
    }
}

proof fn lemma_runs_around(a: Seq<char>, sep: char, b: Seq<char>, keep: spec_fn(char) -> bool)
    requires
        !keep(sep),
    ensures
        runs(a + seq![sep] + b, keep) == runs(a, keep) + runs(b, keep),
    decreases b.len(),
{
    let s = a + seq![sep] + b;
    if b.len() == 0 {
        assert(s.drop_last() =~= a);
        assert(runs(s, keep) =~= runs(a, keep) + runs(b, keep));
    } else {
        let rest = b.drop_last();
        assert(s.drop_last() =~= a + seq![sep] + rest);
        lemma_runs_around(a, sep, rest, keep);
        lemma_runs_chars(rest, keep, |c: char| true);
        if b.len() >= 2 {
            assert(s[s.len() - 2] == b[b.len() - 2]);
            assert(rest.last() == b[b.len() - 2]);
        } else {
            assert(s[s.len() - 2] == sep);
        }
        assert(runs(s, keep) =~= runs(a, keep) + runs(b, keep));
    }
}

/// Joining keeps every piece as it is: of no pieces it gives nothing, of one the piece,
/// and of two lists what each gives, with the separator between.
pub proof fn law_joined(a: Seq<Seq<char>>, piece: Seq<char>, b: Seq<Seq<char>>, sep: Seq<char>)
    ensures
        joined(Seq::empty(), sep) == Seq::<char>::empty(),
        joined(seq![piece], sep) == piece,
        a.len() > 0 && b.len() > 0 ==> joined(a + b, sep) == joined(a, sep) + sep + joined(b, sep),
    decreases b.len(),
{
    if a.len() > 0 && b.len() > 0 {
        assert((a + b).drop_last() =~= a + b.drop_last());
        if b.len() == 1 {
            assert(a + b.drop_last() =~= a);
        } else {
            law_joined(a, piece, b.drop_last(), sep);
        }
        assert(joined(a + b, sep) =~= joined(a, sep) + sep + joined(b, sep));
    }
}

/// Trimming the start takes away white space alone, and all of it that the text starts
/// with.
pub proof fn law_trimmed_start(s: Seq<char>)
    ensures
        trimmed_start(s).len() <= s.len(),
        trimmed_start(s) == s.skip(s.len() - trimmed_start(s).len()),
        forall|i: int| 0 <= i < s.len() - trimmed_start(s).len() ==> whitespace(#[trigger] s[i]),
        trimmed_start(s).len() > 0 ==> !whitespace(trimmed_start(s)[0]),
    decreases s.len(),
{
    if s.len() > 0 && whitespace(s[0]) {
        let rest = s.drop_first();
        law_trimmed_start(rest);
        assert(s.skip(s.len() - trimmed_start(s).len()) =~= rest.skip(
            rest.len() - trimmed_start(rest).len(),
        ));
        assert forall|i: int| 0 <= i < s.len() - trimmed_start(s).len() implies whitespace(
            #[trigger] s[i],
        ) by {
            if i > 0 {
                assert(rest[i - 1] == s[i]);
            }
        }
    } else {
        assert(s.skip(0) =~= s);
    }
}

/// Trimming the end takes away white space alone, and all of it that the text ends with.
pub proof fn law_trimmed_end(s: Seq<char>)
    ensures
        trimmed_end(s).len() <= s.len(),
        trimmed_end(s) == s.take(trimmed_end(s).len() as int),
        forall|i: int| trimmed_end(s).len() <= i < s.len() ==> whitespace(#[trigger] s[i]),
        trimmed_end(s).len() > 0 ==> !whitespace(trimmed_end(s).last()),
    decreases s.len(),
{
    if s.len() > 0 && whitespace(s.last()) {
        let rest = s.drop_last();
        law_trimmed_end(rest);
        assert(s.take(trimmed_end(s).len() as int) =~= rest.take(trimmed_end(rest).len() as int));
        assert forall|i: int| trimmed_end(s).len() <= i < s.len() implies whitespace(
            #[trigger] s[i],
        ) by {
            if i < rest.len() {
                assert(rest[i] == s[i]);
            }
        }
    } else {
        assert(s.take(s.len() as int) =~= s);
    }
}

/// Trimming a text between white space gives the text back, where it neither starts nor
/// ends with white space, and nothing where there is white space alone.
pub proof fn law_trimmed(before: Seq<char>, text: Seq<char>, after: Seq<char>)
    requires
        forall|i: int| 0 <= i < before.len() ==> whitespace(#[trigger] before[i]),
        forall|i: int| 0 <= i < after.len() ==> whitespace(#[trigger] after[i]),
        text.len() > 0 ==> !whitespace(text[0]) && !whitespace(text.last()),
    ensures
        trimmed_start(before + text) == text,
        trimmed(before + text + after) == text,
{
    lemma_trimmed_start_of(before, text);
    if text.len() > 0 {
        lemma_trimmed_start_of(before, text + after);
        assert(before + (text + after) =~= before + text + after);
        lemma_trimmed_end_of(text, after);
    } else {
        let all = before + after;
        assert(before + text + after =~= all);
        assert forall|i: int| 0 <= i < all.len() implies whitespace(#[trigger] all[i]) by {
            if i < before.len() {
                assert(all[i] == before[i]);
            } else {
                assert(all[i] == after[i - before.len()]);
            }
        }
        lemma_trimmed_start_of(all, text);
        assert(all + text =~= all);
        assert(trimmed_end(text) =~= text);
    }
}

/// Trimming the start takes away the white space before a text that starts otherwise.
pub proof fn lemma_trimmed_start_of(before: Seq<char>, text: Seq<char>)
    requires
        forall|i: int| 0 <= i < before.len() ==> whitespace(#[trigger] before[i]),
        text.len() > 0 ==> !whitespace(text[0]),
    ensures
        trimmed_start(before + text) == text,
    decreases before.len(),
{
    let s = before + text;
    if before.len() == 0 {
        assert(s =~= text);
    } else {
        let rest = before.drop_first();
        assert(s[0] == before[0]);
        assert(s.drop_first() =~= rest + text);
        assert forall|i: int| 0 <= i < rest.len() implies whitespace(#[trigger] rest[i]) by {
            assert(rest[i] == before[i + 1]);
        }
        lemma_trimmed_start_of(rest, text);
    }
}

proof fn lemma_trimmed_end_of(text: Seq<char>, after: Seq<char>)
    requires
        forall|i: int| 0 <= i < after.len() ==> whitespace(#[trigger] after[i]),
        text.len() > 0 ==> !whitespace(text.last()),
    ensures
        trimmed_end(text + after) == text,
    decreases after.len(),
{
    let s = text + after;
    if after.len() == 0 {
        assert(s =~= text);
    } else {
        let rest = after.drop_last();
        assert(s.last() == after[after.len() - 1]);
        assert(s.drop_last() =~= text + rest);
        assert forall|i: int| 0 <= i < rest.len() implies whitespace(#[trigger] rest[i]) by {
            assert(rest[i] == after[i]);
        }
        lemma_trimmed_end_of(text, rest);
    }
}

/// A text starts with another exactly if it is the other with something after it.
pub proof fn law_has_prefix(prefix: Seq<char>, rest: Seq<char>, s: Seq<char>)
    ensures
        has_prefix(prefix + rest, prefix),
        has_prefix(s, prefix) ==> s == prefix + s.skip(prefix.len() as int),
{
    assert((prefix + rest).take(prefix.len() as int) =~= prefix);
    if has_prefix(s, prefix) {
        assert(s =~= s.take(prefix.len() as int) + s.skip(prefix.len() as int));
    }
}

/// A text is cut at the first occurrence of a character, which is on neither side; a
/// text without it is not cut.
pub proof fn law_cut(a: Seq<char>, c: char, b: Seq<char>)
    requires
        forall|i: int| 0 <= i < a.len() ==> #[trigger] a[i] != c,
    ensures
        cut(a + seq![c] + b, c) == Some((a, b)),
        cut(a, c) is None,
{
    let s = a + seq![c] + b;
    lemma_position(a, c);
    lemma_position(s, c);
    assert(s[a.len() as int] == c);
    let i = position(s, c)->0;
    assert(i == a.len()) by {
        if i < a.len() {
            assert(s[i] == a[i]);
        }
    }
    assert(s.take(i) =~= a);
    assert(s.skip(i + 1) =~= b);
}

/// A text without a character is one part; the parts around an occurrence are those
/// before it and those after it.
pub proof fn law_parts(a: Seq<char>, c: char, b: Seq<char>)
    ensures
        (forall|i: int| 0 <= i < a.len() ==> #[trigger] a[i] != c) ==> parts(a, c) == seq![a],
        parts(a + seq![c] + b, c) == parts(a, c) + parts(b, c),
    decreases a.len(),
{
    let s = a + seq![c] + b;
    lemma_position(a, c);
    lemma_position(s, c);
    assert(s[a.len() as int] == c);
    let k = position(s, c)->0;
    match position(a, c) {
        None => {
            assert(k == a.len()) by {
                if k < a.len() {
                    assert(s[k] == a[k]);
                }
            }
            assert(s.take(k) =~= a);
            assert(s.skip(k + 1) =~= b);
            assert(parts(s, c) =~= parts(a, c) + parts(b, c));
        },
        Some(i) => {
            assert(s[i] == a[i]);
            assert(k == i) by {
                if k < i {
                    assert(s[k] == a[k]);
                }
            }
            let rest = a.skip(i + 1);
            assert(s.take(i) =~= a.take(i));
            assert(s.skip(i + 1) =~= rest + seq![c] + b);
            law_parts(rest, c, b);
            assert(parts(s, c) =~= parts(a, c) + parts(b, c));
        },
    }
}

/// The views of texts and of lists of texts show all that there is: every character, and
/// every text in its place.
pub proof fn law_text_views(
    text: String,
    borrowed: &str,
    list: Seq<String>,
    pieces: Seq<&[char]>,
    i: int,
)
    ensures
        text_view(Some(text)) == Some(text@),
        text_view(None) is None,
        str_view(Some(borrowed)) == Some(borrowed@),
        str_view(None) is None,
        texts(list).len() == list.len(),
        0 <= i < list.len() ==> texts(list)[i] == list[i]@,
        slices(pieces).len() == pieces.len(),
        0 <= i < pieces.len() ==> slices(pieces)[i] == pieces[i]@,
{
}

} // verus!
