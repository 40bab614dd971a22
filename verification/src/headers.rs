//! HTTP headers as plain lists, and the rules on which of them travel.
use crate::text::{ascii_lower, chars_of, lemma_filtered, same_text};
use vstd::prelude::*;

verus! {

/// One header. Names are in lower case, as HTTP/2 has them.
pub struct Header {
    pub name: String,
    pub value: Vec<u8>,
}

/// One header as mathematics.
pub ghost struct HeaderView {
    pub name: Seq<char>,
    pub value: Seq<u8>,
}

impl View for Header {
    type V = HeaderView;

    open spec fn view(&self) -> HeaderView {
        HeaderView { name: self.name@, value: self.value@ }
    }
}

impl Header {
    /// A header with the given name and a text value.
    pub fn new(name: &str, value: &str) -> (h: Header)
        ensures
            h@ == (HeaderView { name: name@, value: vstd::utf8::encode_utf8(value@) }),
    {
        let bytes = value.as_bytes();
        Header { name: name.to_owned(), value: vstd::slice::slice_to_vec(bytes) }
    }

    /// A header equal to this one.
    pub fn duplicate(&self) -> (h: Header)
        ensures
            h@ == self@,
    {
        Header {
            name: self.name.clone(),
            value: vstd::slice::slice_to_vec(self.value.as_slice()),
        }
    }
}

/// The views of a list of headers.
pub open spec fn headers_view(v: Seq<Header>) -> Seq<HeaderView> {
    v.map_values(|h: Header| h@)
}

/// A list of headers equal to the given one.
pub fn duplicate_headers(headers: &Vec<Header>) -> (r: Vec<Header>)
    ensures
        headers_view(r@) == headers_view(headers@),
{
    let mut out: Vec<Header> = Vec::new();
    append_headers(&mut out, headers);
    assert(headers_view(out@) =~= headers_view(headers@));
    out
}

/// Appends every header of a list, in order.
pub fn append_headers(out: &mut Vec<Header>, headers: &Vec<Header>)
    ensures
        headers_view(final(out)@) == headers_view(old(out)@) + headers_view(headers@),
{
    let ghost start = headers_view(out@);
    let ghost all = headers_view(headers@);
    let mut i: usize = 0;
    assert(start + all.take(0) =~= start);
    while i < headers.len()
        invariant
            i <= headers@.len(),
            all == headers_view(headers@),
            headers_view(out@) == start + all.take(i as int),
        decreases headers@.len() - i,
    {
        let ghost before = out@;
        out.push(headers[i].duplicate());
        assert(headers_view(out@) =~= headers_view(before).push(all[i as int]));
        assert(start + all.take(i + 1) =~= (start + all.take(i as int)).push(all[i as int]));
        i += 1;
    }
    assert(all.take(all.len() as int) =~= all);
}

/// Whether two texts are equal up to the case of ASCII letters.
pub open spec fn same_letters(a: Seq<char>, b: Seq<char>) -> bool {
    &&& a.len() == b.len()
    &&& forall|i: int| 0 <= i < a.len() ==> ascii_lower(#[trigger] a[i]) == ascii_lower(b[i])
}

fn lower_ascii(c: char) -> (r: char)
    ensures
        r == ascii_lower(c),
{
    if 'A' <= c && c <= 'Z' {
        ((c as u8) + 32) as char
    } else {
        c
    }
}

/// Compares two texts up to the case of ASCII letters.
pub fn eq_ignore_ascii_case(a: &str, b: &str) -> (r: bool)
    ensures
        r == same_letters(a@, b@),
{
    let x = chars_of(a);
    let y = chars_of(b);
    if x.len() != y.len() {
        return false;
    }
    let mut i: usize = 0;
    while i < x.len()
        invariant
            i <= x@.len(),
            x@ == a@,
            y@ == b@,
            x@.len() == y@.len(),
            forall|j: int| 0 <= j < i ==> ascii_lower(#[trigger] a@[j]) == ascii_lower(b@[j]),
        decreases x@.len() - i,
    {
        if lower_ascii(x[i]) != lower_ascii(y[i]) {
            return false;
        }
        i += 1;
    }
    true
}

/// The hop-by-hop headers (RFC 9110, section 7.6.1), which describe a single
/// transport hop.
pub open spec fn hop_by_hop(name: Seq<char>) -> bool {
    ||| same_letters(name, "connection"@)
    ||| same_letters(name, "keep-alive"@)
    ||| same_letters(name, "proxy-authenticate"@)
    ||| same_letters(name, "proxy-authorization"@)
    ||| same_letters(name, "te"@)
    ||| same_letters(name, "trailers"@)
    ||| same_letters(name, "transfer-encoding"@)
    ||| same_letters(name, "upgrade"@)
}

/// Whether a header describes a single transport hop.
pub fn is_hop_by_hop(name: &str) -> (r: bool)
    ensures
        r == hop_by_hop(name@),
{
    eq_ignore_ascii_case(name, "connection")
        || eq_ignore_ascii_case(name, "keep-alive")
        || eq_ignore_ascii_case(name, "proxy-authenticate")
        || eq_ignore_ascii_case(name, "proxy-authorization")
        || eq_ignore_ascii_case(name, "te")
        || eq_ignore_ascii_case(name, "trailers")
        || eq_ignore_ascii_case(name, "transfer-encoding")
        || eq_ignore_ascii_case(name, "upgrade")
}

/// Headers that belong to one requester and are never replayed to another.
pub open spec fn uncacheable(name: Seq<char>) -> bool {
    name == "set-cookie"@ || name == "set-cookie2"@
}

/// Whether a response header must not be stored.
pub fn is_uncacheable_response_header(name: &str) -> (r: bool)
    ensures
        r == uncacheable(name@),
{
    same_text(name, "set-cookie") || same_text(name, "set-cookie2")
}

/// Where a list of headers is going.
#[derive(Clone, Copy, PartialEq, Eq, Structural)]
pub enum Passage {
    /// From the client to the upstream: end-to-end headers but `Host` and
    /// `Content-Length`, which the upstream connection sets anew.
    Upstream,
    /// From the upstream to the client, on a response that is passed through.
    Through,
    /// From the upstream to the client, on a response whose body is re-framed:
    /// without `Content-Length`.
    Reframed,
    /// From a response into the cache: without per-requester headers.
    Stored,
}

/// Whether a header travels.
pub open spec fn travels(passage: Passage, name: Seq<char>) -> bool {
    match passage {
        Passage::Upstream => !hop_by_hop(name) && name != "host"@ && name != "content-length"@,
        Passage::Through => !hop_by_hop(name),
        Passage::Reframed => !hop_by_hop(name) && name != "content-length"@,
        Passage::Stored => !uncacheable(name),
    }
}

/// The headers that travel, in order.
pub open spec fn travelling(passage: Passage, headers: Seq<HeaderView>) -> Seq<HeaderView> {
    headers.filter(|h: HeaderView| travels(passage, h.name))
}

fn may_travel(passage: Passage, name: &str) -> (r: bool)
    ensures
        r == travels(passage, name@),
{
    match passage {
        Passage::Upstream => !is_hop_by_hop(name) && !same_text(name, "host") && !same_text(
            name,
            "content-length",
        ),
        Passage::Through => !is_hop_by_hop(name),
        Passage::Reframed => !is_hop_by_hop(name) && !same_text(name, "content-length"),
        Passage::Stored => !is_uncacheable_response_header(name),
    }
}

/// Appends the headers that travel.
fn carry(passage: Passage, headers: &Vec<Header>, out: &mut Vec<Header>)
    ensures
        headers_view(final(out)@) == headers_view(old(out)@) + travelling(
            passage,
            headers_view(headers@),
        ),
{
    let ghost start = headers_view(out@);
    let ghost all = headers_view(headers@);
    let ghost keep = |h: HeaderView| travels(passage, h.name);
    let mut i: usize = 0;
    proof {
        reveal(Seq::filter);
        assert(start + all.take(0).filter(keep) =~= start);
    }
    while i < headers.len()
        invariant
            i <= headers@.len(),
            all == headers_view(headers@),
            keep == (|h: HeaderView| travels(passage, h.name)),
            headers_view(out@) == start + all.take(i as int).filter(keep),
        decreases headers@.len() - i,
    {
        let ghost before = out@;
        proof {
            reveal(Seq::filter);
            assert(all.take(i + 1).drop_last() =~= all.take(i as int));
        }
        if may_travel(passage, headers[i].name.as_str()) {
            out.push(headers[i].duplicate());
            proof {
                assert(headers_view(out@) =~= headers_view(before).push(all[i as int]));
                assert(start + all.take(i + 1).filter(keep) =~= (start + all.take(
                    i as int,
                ).filter(keep)).push(all[i as int]));
            }
        }
        i += 1;
    }
    assert(all.take(all.len() as int) =~= all);
}

/// The headers to send upstream: everything end-to-end, but not hop-by-hop
/// headers, the inbound `Host`, or `Content-Length`.
pub fn forward_request_headers(incoming: &Vec<Header>) -> (r: Vec<Header>)
    ensures
        headers_view(r@) == travelling(Passage::Upstream, headers_view(incoming@)),
{
    let mut out: Vec<Header> = Vec::new();
    carry(Passage::Upstream, incoming, &mut out);
    assert(headers_view(out@) =~= travelling(Passage::Upstream, headers_view(incoming@)));
    out
}

/// Copies upstream response headers onto a passed-through response, dropping
/// only hop-by-hop headers.
pub fn copy_response_headers(upstream: &Vec<Header>, out: &mut Vec<Header>)
    ensures
        headers_view(final(out)@) == headers_view(old(out)@) + travelling(
            Passage::Through,
            headers_view(upstream@),
        ),
{
    carry(Passage::Through, upstream, out);
}

/// The response headers forwarded on a miss: neither hop-by-hop headers nor
/// `Content-Length`, which is recomputed from the body.
pub fn collect_response_headers(upstream: &Vec<Header>) -> (r: Vec<Header>)
    ensures
        headers_view(r@) == travelling(Passage::Reframed, headers_view(upstream@)),
{
    let mut out: Vec<Header> = Vec::new();
    carry(Passage::Reframed, upstream, &mut out);
    assert(headers_view(out@) =~= travelling(Passage::Reframed, headers_view(upstream@)));
    out
}

/// The response headers that are safe to store and replay.
pub fn cacheable_headers(headers: &Vec<Header>) -> (r: Vec<Header>)
    ensures
        headers_view(r@) == travelling(Passage::Stored, headers_view(headers@)),
{
    let mut out: Vec<Header> = Vec::new();
    carry(Passage::Stored, headers, &mut out);
    assert(headers_view(out@) =~= travelling(Passage::Stored, headers_view(headers@)));
    out
}

/// A list in which the given header is the only one of its name: every header of
/// that name is dropped, and the given one stands at the end.
pub open spec fn replaced(headers: Seq<HeaderView>, header: HeaderView) -> Seq<HeaderView> {
    headers.filter(|h: HeaderView| h.name != header.name).push(header)
}

/// Sets a header, replacing any of the same name.
pub fn set_header(out: &mut Vec<Header>, header: Header)
    ensures
        headers_view(final(out)@) == replaced(headers_view(old(out)@), header@),
{
    let ghost all = headers_view(out@);
    let ghost keep = |h: HeaderView| h.name != header.name@;
    let mut kept: Vec<Header> = Vec::new();
    let mut i: usize = 0;
    proof {
        reveal(Seq::filter);
        assert(headers_view(kept@) =~= all.take(0).filter(keep));
    }
    while i < out.len()
        invariant
            i <= out@.len(),
            all == headers_view(out@),
            keep == (|h: HeaderView| h.name != header.name@),
            headers_view(kept@) == all.take(i as int).filter(keep),
        decreases out@.len() - i,
    {
        let ghost before = kept@;
        proof {
            reveal(Seq::filter);
            assert(all.take(i + 1).drop_last() =~= all.take(i as int));
        }
        if !same_text(out[i].name.as_str(), header.name.as_str()) {
            kept.push(out[i].duplicate());
            assert(headers_view(kept@) =~= headers_view(before).push(all[i as int]));
        }
        i += 1;
    }
    assert(all.take(all.len() as int) =~= all);
    let ghost before = kept@;
    let ghost last = header@;
    kept.push(header);
    assert(headers_view(kept@) =~= headers_view(before).push(last));
    *out = kept;
}

/// Only headers that may travel arrive, each of them does, and none is invented.
pub proof fn law_only_travelling_headers_arrive(passage: Passage, headers: Seq<HeaderView>)
    ensures
        forall|i: int|
            0 <= i < travelling(passage, headers).len() ==> travels(
                passage,
                (#[trigger] travelling(passage, headers)[i]).name,
            ) && headers.contains(travelling(passage, headers)[i]),
        forall|i: int|
            0 <= i < headers.len() && travels(passage, (#[trigger] headers[i]).name)
                ==> travelling(passage, headers).contains(headers[i]),
{
    lemma_filtered(headers, |h: HeaderView| travels(passage, h.name));
}

/// The headers of a given name.
pub open spec fn named(headers: Seq<HeaderView>, name: Seq<char>) -> Seq<HeaderView> {
    headers.filter(|h: HeaderView| h.name == name)
}

proof fn lemma_named_of_others(headers: Seq<HeaderView>, dropped: Seq<char>, name: Seq<char>)
    ensures
        named(headers.filter(|h: HeaderView| h.name != dropped), name) == (if name == dropped {
            Seq::empty()
        } else {
            named(headers, name)
        }),
    decreases headers.len(),
{
    reveal(Seq::filter);
    let others = |h: HeaderView| h.name != dropped;
    if headers.len() > 0 {
        let rest = headers.drop_last();
        lemma_named_of_others(rest, dropped, name);
        if others(headers.last()) {
            let kept = rest.filter(others).push(headers.last());
            assert(kept.drop_last() =~= rest.filter(others));
        }
    }
}

/// Setting a header leaves it as the only one of its name, and leaves the headers
/// of every other name as they were.
pub proof fn law_set_header(headers: Seq<HeaderView>, header: HeaderView, name: Seq<char>)
    ensures
        named(replaced(headers, header), name) == (if name == header.name {
            seq![header]
        } else {
            named(headers, name)
        }),
{
    reveal(Seq::filter);
    lemma_named_of_others(headers, header.name, name);
    let kept = headers.filter(|h: HeaderView| h.name != header.name);
    assert(kept.push(header).drop_last() =~= kept);
    assert(named(replaced(headers, header), name) =~= if name == header.name {
        seq![header]
    } else {
        named(headers, name)
    });
}

/// Credentials reach the upstream: an `authorization` header is forwarded as it is,
/// whatever else a request carries.
pub proof fn law_authorization_travels_upstream(headers: Seq<HeaderView>, i: int)
    requires
        0 <= i < headers.len(),
        headers[i].name == "authorization"@,
    ensures
        travelling(Passage::Upstream, headers).contains(headers[i]),
{
    reveal_strlit("authorization");
    reveal_strlit("connection");
    reveal_strlit("keep-alive");
    reveal_strlit("proxy-authenticate");
    reveal_strlit("proxy-authorization");
    reveal_strlit("te");
    reveal_strlit("trailers");
    reveal_strlit("transfer-encoding");
    reveal_strlit("upgrade");
    reveal_strlit("host");
    reveal_strlit("content-length");
    assert(travels(Passage::Upstream, headers[i].name));
    law_only_travelling_headers_arrive(Passage::Upstream, headers);
}

proof fn lemma_same_letters(name: Seq<char>, word: Seq<char>)
    requires
        forall|i: int| 0 <= i < word.len() ==> !('A' <= #[trigger] word[i] <= 'Z'),
    ensures
        same_letters(name, word) <==> name.map_values(
            |c: char|
                if 'A' <= c <= 'Z' {
                    ((c as u8) + 32) as char
                } else {
                    c
                },
        ) == word,
{
    let low = name.map_values(
        |c: char|
            if 'A' <= c <= 'Z' {
                ((c as u8) + 32) as char
            } else {
                c
            },
    );
    if same_letters(name, word) {
        assert forall|i: int| 0 <= i < low.len() implies low[i] == word[i] by {
            assert(ascii_lower(name[i]) == ascii_lower(word[i]));
        }
        assert(low =~= word);
    }
    if low == word {
        assert forall|i: int| 0 <= i < name.len() implies ascii_lower(#[trigger] name[i])
            == ascii_lower(word[i]) by {
            assert(low[i] == word[i]);
        }
    }
}

/// The hop-by-hop headers are these eight, in any case of their letters, and no others.
pub proof fn law_hop_by_hop(name: Seq<char>)
    ensures
        ({
            let low = name.map_values(
                |c: char|
                    if 'A' <= c <= 'Z' {
                        ((c as u8) + 32) as char
                    } else {
                        c
                    },
            );
            hop_by_hop(name) <==> low == "connection"@ || low == "keep-alive"@ || low
                == "proxy-authenticate"@ || low == "proxy-authorization"@ || low == "te"@ || low
                == "trailers"@ || low == "transfer-encoding"@ || low == "upgrade"@
        }),
{
    reveal_strlit("connection");
    reveal_strlit("keep-alive");
    reveal_strlit("proxy-authenticate");
    reveal_strlit("proxy-authorization");
    reveal_strlit("te");
    reveal_strlit("trailers");
    reveal_strlit("transfer-encoding");
    reveal_strlit("upgrade");
    lemma_same_letters(name, "connection"@);
    lemma_same_letters(name, "keep-alive"@);
    lemma_same_letters(name, "proxy-authenticate"@);
    lemma_same_letters(name, "proxy-authorization"@);
    lemma_same_letters(name, "te"@);
    lemma_same_letters(name, "trailers"@);
    lemma_same_letters(name, "transfer-encoding"@);
    lemma_same_letters(name, "upgrade"@);
}

/// Which headers travel where: end-to-end headers upstream, but for the host and the
/// length; end-to-end headers on what is passed through, and on what is re-framed but
/// for the length; and all but cookies into the cache.
pub proof fn law_travels(name: Seq<char>)
    ensures
        travels(Passage::Upstream, name) <==> !hop_by_hop(name) && name != "host"@ && name
            != "content-length"@,
        travels(Passage::Through, name) <==> !hop_by_hop(name),
        travels(Passage::Reframed, name) <==> !hop_by_hop(name) && name != "content-length"@,
        travels(Passage::Stored, name) <==> name != "set-cookie"@ && name != "set-cookie2"@,
{
}

/// Headers travel one by one and in order: what travels of two lists is what travels of
/// each, and a header travels by its name alone, its value unchanged.
pub proof fn law_headers_travel_one_by_one(
    passage: Passage,
    a: Seq<HeaderView>,
    header: HeaderView,
    b: Seq<HeaderView>,
)
    ensures
        travelling(passage, Seq::empty()) == Seq::<HeaderView>::empty(),
        travelling(passage, seq![header]) == if travels(passage, header.name) {
            seq![header]
        } else {
            Seq::empty()
        },
        travelling(passage, a + b) == travelling(passage, a) + travelling(passage, b),
    decreases b.len(),
{
    reveal(Seq::filter);
    let keep = |h: HeaderView| travels(passage, h.name);
    assert(seq![header].drop_last() =~= Seq::<HeaderView>::empty());
    assert(seq![header].drop_last().filter(keep) =~= Seq::<HeaderView>::empty());
    assert(travelling(passage, Seq::empty()) =~= Seq::<HeaderView>::empty());
    assert(travelling(passage, seq![header]) =~= if travels(passage, header.name) {
        seq![header]
    } else {
        Seq::empty()
    });
    if b.len() == 0 {
        assert(a + b =~= a);
        assert(travelling(passage, a + b) =~= travelling(passage, a) + travelling(passage, b));
    } else {
        assert((a + b).drop_last() =~= a + b.drop_last());
        law_headers_travel_one_by_one(passage, a, header, b.drop_last());
        assert(travelling(passage, a + b) =~= travelling(passage, a) + travelling(passage, b));
    }
}

/// All headers of a name travel or none does: those that arrive are the ones that were
/// there, in order.
pub proof fn law_headers_travel_by_name(
    passage: Passage,
    headers: Seq<HeaderView>,
    name: Seq<char>,
)
    ensures
        travelling(passage, headers).filter(|h: HeaderView| h.name == name) == if travels(
            passage,
            name,
        ) {
            headers.filter(|h: HeaderView| h.name == name)
        } else {
            Seq::empty()
        },
    decreases headers.len(),
{
    reveal(Seq::filter);
    let keep = |h: HeaderView| travels(passage, h.name);
    let same = |h: HeaderView| h.name == name;
    if headers.len() > 0 {
        let rest = headers.drop_last();
        law_headers_travel_by_name(passage, rest, name);
        if keep(headers.last()) {
            let kept = rest.filter(keep).push(headers.last());
            assert(kept.drop_last() =~= rest.filter(keep));
        }
    }
    assert(travelling(passage, headers).filter(same) =~= if travels(passage, name) {
        headers.filter(same)
    } else {
        Seq::empty()
    });
}

/// A header that is set stands last, and the headers of other names stand before it as
/// they did.
pub proof fn law_set_header_stands_last(headers: Seq<HeaderView>, header: HeaderView)
    ensures
        replaced(headers, header).len() > 0,
        replaced(headers, header).last() == header,
        replaced(headers, header).drop_last() == headers.filter(
            |h: HeaderView| h.name != header.name,
        ),
{
    let others = headers.filter(|h: HeaderView| h.name != header.name);
    assert(others.push(header).drop_last() =~= others);
}

/// The view of a header is its name and its value, and that of a list shows every header
/// in its place.
pub proof fn law_header_views(header: Header, headers: Seq<Header>, i: int)
    ensures
        header@.name == header.name@,
        header@.value == header.value@,
        headers_view(headers).len() == headers.len(),
        0 <= i < headers.len() ==> headers_view(headers)[i] == headers[i]@,
{
}

/// Texts have the same letters exactly if they are equal once the capital letters of ASCII
/// are lowered in both.
pub proof fn law_same_letters(a: Seq<char>, b: Seq<char>)
    ensures
        ({
            let low = |c: char|
                if 'A' <= c <= 'Z' {
                    ((c as u8) + 32) as char
                } else {
                    c
                };
            same_letters(a, b) <==> a.map_values(low) == b.map_values(low)
        }),
{
    let low = |c: char|
        if 'A' <= c <= 'Z' {
            ((c as u8) + 32) as char
        } else {
            c
        };
    if same_letters(a, b) {
        assert forall|i: int| 0 <= i < a.len() implies low(a[i]) == low(b[i]) by {
            assert(ascii_lower(a[i]) == ascii_lower(b[i]));
        }
        assert(a.map_values(low) =~= b.map_values(low));
    }
    if a.map_values(low) == b.map_values(low) {
        assert(a.map_values(low).len() == b.map_values(low).len());
        assert forall|i: int| 0 <= i < a.len() implies ascii_lower(#[trigger] a[i]) == ascii_lower(
            b[i],
        ) by {
            assert(a.map_values(low)[i] == b.map_values(low)[i]);
        }
    }
}

/// Setting a header changes nothing about headers that are picked out by a rule that no
/// header of its name meets, not even their order.
pub proof fn law_set_header_keeps_the_others(
    headers: Seq<HeaderView>,
    header: HeaderView,
    pick: spec_fn(HeaderView) -> bool,
)
    requires
        forall|h: HeaderView| #[trigger] pick(h) ==> h.name != header.name,
    ensures
        replaced(headers, header).filter(pick) == headers.filter(pick),
{
    reveal(Seq::filter);
    let others = headers.filter(|h: HeaderView| h.name != header.name);
    lemma_picked_of_others(headers, header.name, pick);
    assert(others.push(header).drop_last() =~= others);
    assert(!pick(header));
}

proof fn lemma_picked_of_others(
    headers: Seq<HeaderView>,
    dropped: Seq<char>,
    pick: spec_fn(HeaderView) -> bool,
)
    requires
        forall|h: HeaderView| #[trigger] pick(h) ==> h.name != dropped,
    ensures
        headers.filter(|h: HeaderView| h.name != dropped).filter(pick) == headers.filter(pick),
    decreases headers.len(),
{
    reveal(Seq::filter);
    let others = |h: HeaderView| h.name != dropped;
    if headers.len() > 0 {
        let rest = headers.drop_last();
        lemma_picked_of_others(rest, dropped, pick);
        if others(headers.last()) {
            let kept = rest.filter(others).push(headers.last());
            assert(kept.drop_last() =~= rest.filter(others));
        } else {
            assert(!pick(headers.last()));
        }
    }
}

} // verus!
