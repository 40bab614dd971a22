//! Model prices and the cost estimate.
//!
//! Prices drive the dashboard's "$ saved" figure. They are approximate public
//! list prices, in dollars per million tokens, and may be overridden.
use crate::text::{
    all_ascii, ascii_lowered, chars_of, cut, has_prefix, law_cut, law_has_prefix, lowercase, parts,
    same_text, slices, split, split_once, starts_with, string_of, trim, trimmed,
};
use vstd::prelude::*;

verus! {

/// A price in dollars per million tokens, held as the bit pattern of an IEEE
/// double-precision number.
#[derive(Debug, Clone, Copy, PartialEq, Eq, Structural)]
pub struct Price {
    pub bits: u64,
}

/// The bit pattern of 0.15.
pub const P_0_15: u64 = 0x3fc3_3333_3333_3333;

/// The bit pattern of 0.50.
pub const P_0_50: u64 = 0x3fe0_0000_0000_0000;

/// The bit pattern of 0.60.
pub const P_0_60: u64 = 0x3fe3_3333_3333_3333;

/// The bit pattern of 1.00.
pub const P_1: u64 = 0x3ff0_0000_0000_0000;

/// The bit pattern of 1.50.
pub const P_1_50: u64 = 0x3ff8_0000_0000_0000;

/// The bit pattern of 2.50.
pub const P_2_50: u64 = 0x4004_0000_0000_0000;

/// The bit pattern of 3.00.
pub const P_3: u64 = 0x4008_0000_0000_0000;

/// The bit pattern of 10.00.
pub const P_10: u64 = 0x4024_0000_0000_0000;

/// The bit pattern of 30.00.
pub const P_30: u64 = 0x403e_0000_0000_0000;

/// The bit pattern of 60.00.
pub const P_60: u64 = 0x404e_0000_0000_0000;

/// Characters per token, by the common rule of thumb for English.
pub const CHARS_PER_TOKEN: usize = 4;

/// A pair of an input and an output price.
pub open spec fn prices(input: u64, output: u64) -> (Price, Price) {
    (Price { bits: input }, Price { bits: output })
}

/// The built-in list prices, by model prefix.
pub open spec fn builtin() -> Map<Seq<char>, (Price, Price)> {
    Map::<Seq<char>, (Price, Price)>::empty()
        .insert("gpt-4o-mini"@, prices(P_0_15, P_0_60))
        .insert("gpt-4o"@, prices(P_2_50, P_10))
        .insert("gpt-4-turbo"@, prices(P_10, P_30))
        .insert("gpt-4"@, prices(P_30, P_60))
        .insert("gpt-3.5-turbo"@, prices(P_0_50, P_1_50))
}

/// The prices of models that no prefix matches.
pub open spec fn fallback() -> (Price, Price) {
    prices(P_1, P_3)
}

/// The length of the longest prefix of `s`, of at most `n` characters, that has a
/// price.
pub open spec fn longest_priced(
    table: Map<Seq<char>, (Price, Price)>,
    s: Seq<char>,
    n: int,
) -> Option<int>
    decreases n + 1,
{
    if n < 0 {
        None
    } else if table.contains_key(s.take(n)) {
        Some(n)
    } else {
        longest_priced(table, s, n - 1)
    }
}

/// The prices of a lowercase name: those of the longest prefix of it that has any,
/// or the fallback.
pub open spec fn price_of_name(table: Map<Seq<char>, (Price, Price)>, name: Seq<char>) -> (
    Price,
    Price,
) {
    match longest_priced(table, name, name.len() as int) {
        Some(n) => table[name.take(n)],
        None => fallback(),
    }
}

/// The prices of a model, whatever the case of its name.
pub open spec fn price_of(table: Map<Seq<char>, (Price, Price)>, model: Seq<char>) -> (
    Price,
    Price,
) {
    price_of_name(table, lowercase(model))
}

/// One override as it is written: a model, an input price and an output price.
pub struct OverrideText {
    pub model: String,
    pub input: String,
    pub output: String,
}

/// One override as mathematics.
pub ghost struct OverrideTextView {
    pub model: Seq<char>,
    pub input: Seq<char>,
    pub output: Seq<char>,
}

impl View for OverrideText {
    type V = OverrideTextView;

    open spec fn view(&self) -> OverrideTextView {
        OverrideTextView { model: self.model@, input: self.input@, output: self.output@ }
    }
}

/// The override that a part `model=input/output` spells, if it has that shape.
pub open spec fn override_in(part: Seq<char>) -> Option<OverrideTextView> {
    match cut(part, '=') {
        Some((model, amounts)) => match cut(amounts, '/') {
            Some((input, output)) => Some(
                OverrideTextView {
                    model: lowercase(trimmed(model)),
                    input: trimmed(input),
                    output: trimmed(output),
                },
            ),
            None => None,
        },
        None => None,
    }
}

/// The overrides that a list of parts spells; parts of another shape are skipped.
pub open spec fn overrides_in(list: Seq<Seq<char>>) -> Seq<OverrideTextView>
    decreases list.len(),
{
    if list.len() == 0 {
        Seq::empty()
    } else {
        match override_in(list.last()) {
            Some(o) => overrides_in(list.drop_last()).push(o),
            None => overrides_in(list.drop_last()),
        }
    }
}

/// The views of a list of overrides.
pub open spec fn override_texts(v: Seq<OverrideText>) -> Seq<OverrideTextView> {
    v.map_values(|o: OverrideText| o@)
}

/// Reads a list of overrides, `model=in/out,model=in/out`. The amounts are left as
/// text.
pub fn read_overrides(raw: &str) -> (r: Vec<OverrideText>)
    ensures
        override_texts(r@) == overrides_in(parts(raw@, ',')),
{
    let chars = chars_of(raw);
    let list = split(chars.as_slice(), ',');
    let ghost all = slices(list@);
    let mut out: Vec<OverrideText> = Vec::new();
    let mut i: usize = 0;
    assert(override_texts(out@) =~= overrides_in(all.take(0)));
    while i < list.len()
        invariant
            i <= list@.len(),
            all == slices(list@),
            override_texts(out@) == overrides_in(all.take(i as int)),
        decreases list@.len() - i,
    {
        assert(all.take(i + 1).drop_last() =~= all.take(i as int));
        assert(all.take(i + 1).last() == list@[i as int]@);
        match split_once(list[i], '=') {
            Some((model, amounts)) => {
                match split_once(amounts, '/') {
                    Some((input, output)) => {
                        let ghost before = out@;
                        let o = OverrideText {
                            model: string_of(trim(model)).as_str().to_lowercase(),
                            input: string_of(trim(input)),
                            output: string_of(trim(output)),
                        };
                        let ghost seen = o@;
                        out.push(o);
                        assert(override_texts(out@) =~= override_texts(before).push(seen));
                    },
                    None => {},
                }
            },
            None => {},
        }
        i += 1;
    }
    assert(all.take(all.len() as int) =~= all);
    out
}

/// One override with its amounts read as numbers, where they are numbers.
pub struct PriceOverride {
    pub model: String,
    pub input: Option<Price>,
    pub output: Option<Price>,
}

/// A price table with a list of overrides applied in order. An override whose
/// amounts are not both numbers is skipped.
pub open spec fn overridden(
    table: Map<Seq<char>, (Price, Price)>,
    overrides: Seq<PriceOverride>,
) -> Map<Seq<char>, (Price, Price)>
    decreases overrides.len(),
{
    if overrides.len() == 0 {
        table
    } else {
        let before = overridden(table, overrides.drop_last());
        let o = overrides.last();
        match (o.input, o.output) {
            (Some(input), Some(output)) => before.insert(o.model@, (input, output)),
            _ => before,
        }
    }
}

/// A row of the price table.
struct Row {
    prefix: String,
    input: Price,
    output: Price,
}

/// The resolved price table.
pub struct Pricing {
    /// Longest prefix first.
    rows: Vec<Row>,
}

spec fn has_row(rows: Seq<Row>, prefix: Seq<char>, i: int) -> bool {
    0 <= i < rows.len() && rows[i].prefix@ == prefix
}

spec fn row_map(rows: Seq<Row>) -> Map<Seq<char>, (Price, Price)> {
    Map::new(
        |p: Seq<char>| exists|i: int| has_row(rows, p, i),
        |p: Seq<char>|
            {
                let i = choose|i: int| has_row(rows, p, i);
                (rows[i].input, rows[i].output)
            },
    )
}

spec fn distinct(rows: Seq<Row>) -> bool {
    forall|i: int, j: int|
        0 <= i < j < rows.len() ==> (#[trigger] rows[i]).prefix@ != (#[trigger] rows[j]).prefix@
}

spec fn longest_first(rows: Seq<Row>) -> bool {
    forall|i: int, j: int|
        0 <= i < j < rows.len() ==> (#[trigger] rows[i]).prefix@.len() >= (
        #[trigger] rows[j]).prefix@.len()
}

proof fn lemma_row_map(rows: Seq<Row>)
    requires
        distinct(rows),
    ensures
        forall|i: int|
            0 <= i < rows.len() ==> row_map(rows).contains_key((#[trigger] rows[i]).prefix@)
                && row_map(rows)[rows[i].prefix@] == (rows[i].input, rows[i].output),
{
    assert forall|i: int| 0 <= i < rows.len() implies row_map(rows).contains_key(
        (#[trigger] rows[i]).prefix@,
    ) && row_map(rows)[rows[i].prefix@] == (rows[i].input, rows[i].output) by {
        assert(has_row(rows, rows[i].prefix@, i));
        let j = choose|j: int| has_row(rows, rows[i].prefix@, j);
        assert(has_row(rows, rows[i].prefix@, j));
    }
}

/// What `longest_priced` returns: a priced prefix, and none longer.
pub proof fn lemma_longest_priced(table: Map<Seq<char>, (Price, Price)>, s: Seq<char>, n: int)
    ensures
        match longest_priced(table, s, n) {
            Some(k) => 0 <= k <= n && table.contains_key(s.take(k)) && forall|m: int|
                k < m <= n ==> !table.contains_key(#[trigger] s.take(m)),
            None => forall|m: int| 0 <= m <= n ==> !table.contains_key(#[trigger] s.take(m)),
        },
    decreases n + 1,
{
    if n >= 0 && !table.contains_key(s.take(n)) {
        lemma_longest_priced(table, s, n - 1);
    }
}

impl View for Pricing {
    type V = Map<Seq<char>, (Price, Price)>;

    closed spec fn view(&self) -> Map<Seq<char>, (Price, Price)> {
        row_map(self.rows@)
    }
}

impl Pricing {
    /// The invariant of a table: no prefix twice, longer prefixes first.
    pub closed spec fn wf(self) -> bool {
        distinct(self.rows@) && longest_first(self.rows@)
    }

    /// Builds the table: the built-in prices, with the overrides that
    /// `CACHET_PRICING` spells applied in order.
    pub fn from_env(overrides: &Vec<PriceOverride>) -> (p: Pricing)
        ensures
            p.wf(),
            p@ == overridden(builtin(), overrides@),
    {
        let mut p = Pricing { rows: Vec::new() };
        assert(p@ =~= Map::<Seq<char>, (Price, Price)>::empty());
        p.set_price("gpt-4o-mini", Price { bits: P_0_15 }, Price { bits: P_0_60 });
        p.set_price("gpt-4o", Price { bits: P_2_50 }, Price { bits: P_10 });
        p.set_price("gpt-4-turbo", Price { bits: P_10 }, Price { bits: P_30 });
        p.set_price("gpt-4", Price { bits: P_30 }, Price { bits: P_60 });
        p.set_price("gpt-3.5-turbo", Price { bits: P_0_50 }, Price { bits: P_1_50 });
        let mut i: usize = 0;
        assert(overrides@.take(0) =~= Seq::<PriceOverride>::empty());
        while i < overrides.len()
            invariant
                i <= overrides@.len(),
                p.wf(),
                p@ == overridden(builtin(), overrides@.take(i as int)),
            decreases overrides@.len() - i,
        {
            assert(overrides@.take(i + 1).drop_last() =~= overrides@.take(i as int));
            let o = &overrides[i];
            match (o.input, o.output) {
                (Some(input), Some(output)) => {
                    p.set_price(o.model.as_str(), input, output);
                },
                _ => {},
            }
            i += 1;
        }
        assert(overrides@.take(overrides@.len() as int) =~= overrides@);
        p
    }

    /// Sets the prices of a prefix.
    pub fn set_price(&mut self, prefix: &str, input: Price, output: Price)
        requires
            old(self).wf(),
        ensures
            final(self).wf(),
            final(self)@ == old(self)@.insert(prefix@, (input, output)),
    {
        let ghost before = self.rows@;
        let n: usize = prefix.unicode_len();
        let mut at: usize = 0;
        proof {
            lemma_row_map(before);
        }
        while at < self.rows.len() && self.rows[at].prefix.as_str().unicode_len() >= n
            invariant
                at <= self.rows@.len(),
                self.rows@ == before,
                n == prefix@.len(),
                distinct(before),
                longest_first(before),
                self@ == old(self)@,
                old(self)@ == row_map(before),
                forall|i: int|
                    0 <= i < at ==> (#[trigger] before[i]).prefix@.len() >= n
                        && before[i].prefix@ != prefix@,
            decreases self.rows@.len() - at,
        {
            if same_text(self.rows[at].prefix.as_str(), prefix) {
                let row = Row { prefix: prefix.to_owned(), input, output };
                self.rows.set(at, row);
                proof {
                    let after = self.rows@;
                    assert forall|i: int, j: int| 0 <= i < j < after.len() implies (
                    #[trigger] after[i]).prefix@ != (#[trigger] after[j]).prefix@
                        && after[i].prefix@.len() >= after[j].prefix@.len() by {
                        assert(before[i].prefix@ == after[i].prefix@);
                        assert(before[j].prefix@ == after[j].prefix@);
                    }
                    lemma_row_map(before);
                    lemma_row_map(after);
                    lemma_set_row(before, after, at as int);
                }
                return;
            }
            at += 1;
        }
        let row = Row { prefix: prefix.to_owned(), input, output };
        self.rows.insert(at, row);
        proof {
            lemma_new_row(before, self.rows@, at as int, row);
        }
    }

    /// The prices of a model.
    pub fn price(&self, model: &str) -> (r: (Price, Price))
        requires
            self.wf(),
        ensures
            r == price_of(self@, model@),
    {
        self.price_by_name(model.to_lowercase().as_str())
    }

    /// The prices of a model by its lowercase name.
    pub fn price_by_name(&self, lower: &str) -> (r: (Price, Price))
        requires
            self.wf(),
        ensures
            r == price_of_name(self@, lower@),
    {
        let name = chars_of(lower);
        let ghost s = name@;
        let ghost top = s.len() as int;
        proof {
            lemma_longest_priced(self@, s, top);
            lemma_row_map(self.rows@);
        }
        let mut i: usize = 0;
        while i < self.rows.len()
            invariant
                i <= self.rows@.len(),
                self.wf(),
                s == name@,
                s == lower@,
                top == s.len(),
                forall|j: int| 0 <= j < i ==> !has_prefix(s, (#[trigger] self.rows@[j]).prefix@),
            decreases self.rows@.len() - i,
        {
            let prefix = chars_of(self.rows[i].prefix.as_str());
            if starts_with(name.as_slice(), prefix.as_slice()) {
                proof {
                    lemma_longest_priced(self@, s, top);
                    lemma_row_map(self.rows@);
                    let k = self.rows@[i as int].prefix@.len() as int;
                    assert(s.take(k) == self.rows@[i as int].prefix@);
                    assert forall|m: int| k < m <= top implies !self@.contains_key(
                        #[trigger] s.take(m),
                    ) by {
                        if self@.contains_key(s.take(m)) {
                            let j = choose|j: int| has_row(self.rows@, s.take(m), j);
                            assert(has_row(self.rows@, s.take(m), j));
                            assert(has_prefix(s, self.rows@[j].prefix@));
                        }
                    }
                    assert(self@.contains_key(s.take(k)));
                    assert(longest_priced(self@, s, top) == Some(k));
                }
                return (self.rows[i].input, self.rows[i].output);
            }
            i += 1;
        }
        proof {
            if longest_priced(self@, s, top) is Some {
                let k = longest_priced(self@, s, top)->0;
                let j = choose|j: int| has_row(self.rows@, s.take(k), j);
                assert(has_row(self.rows@, s.take(k), j));
                assert(has_prefix(s, self.rows@[j].prefix@));
            }
        }
        (Price { bits: P_1 }, Price { bits: P_3 })
    }

    /// Estimates the tokens and the micro-dollars that a served hit saves: it
    /// avoids sending the prompt and regenerating the answer. `cost` gives the
    /// micro-dollars of numbers of input and output tokens at the model's prices.
    pub fn saved<F: Fn(u64, u64, Price, Price) -> u64>(
        &self,
        model: &str,
        input_chars: usize,
        output_chars: usize,
        cost: F,
    ) -> (r: (u64, u64))
        requires
            self.wf(),
            forall|a: u64, b: u64, p: Price, q: Price| call_requires(cost, (a, b, p, q)),
        ensures
            r.0 == input_chars / CHARS_PER_TOKEN + output_chars / CHARS_PER_TOKEN,
            call_ensures(
                cost,
                (
                    (input_chars / CHARS_PER_TOKEN) as u64,
                    (output_chars / CHARS_PER_TOKEN) as u64,
                    price_of(self@, model@).0,
                    price_of(self@, model@).1,
                ),
                r.1,
            ),
    {
        let input_tokens: u64 = (input_chars / CHARS_PER_TOKEN) as u64;
        let output_tokens: u64 = (output_chars / CHARS_PER_TOKEN) as u64;
        let (input_price, output_price) = self.price(model);
        let micros: u64 = cost(input_tokens, output_tokens, input_price, output_price);
        (input_tokens + output_tokens, micros)
    }
}

proof fn lemma_set_row(before: Seq<Row>, after: Seq<Row>, at: int)
    requires
        distinct(before),
        distinct(after),
        0 <= at < before.len(),
        after == before.update(at, after[at]),
        after[at].prefix@ == before[at].prefix@,
    ensures
        row_map(after) == row_map(before).insert(
            after[at].prefix@,
            (after[at].input, after[at].output),
        ),
{
    lemma_row_map(before);
    lemma_row_map(after);
    let expected = row_map(before).insert(after[at].prefix@, (after[at].input, after[at].output));
    assert forall|p: Seq<char>|
        #![trigger row_map(after).dom().contains(p)]
        #![trigger expected.dom().contains(p)]
        row_map(after).dom().contains(p) == expected.dom().contains(p) && (row_map(
            after,
        ).dom().contains(p) ==> row_map(after)[p] == expected[p]) by {
        if row_map(after).contains_key(p) {
            let i = choose|i: int| has_row(after, p, i);
            assert(has_row(after, p, i));
            assert(has_row(before, p, i));
            assert(before[i].prefix@ == p);
            assert(after[i].prefix@ == p);
        }
        if row_map(before).contains_key(p) {
            let i = choose|i: int| has_row(before, p, i);
            assert(has_row(before, p, i));
            assert(has_row(after, p, i));
        }
        if p == after[at].prefix@ {
            assert(has_row(after, p, at));
        }
    }
    assert(row_map(after).dom() =~= expected.dom());
    assert(row_map(after) =~= expected);
}

proof fn lemma_new_row(before: Seq<Row>, after: Seq<Row>, at: int, row: Row)
    requires
        distinct(before),
        longest_first(before),
        0 <= at <= before.len(),
        after == before.insert(at, row),
        forall|i: int|
            0 <= i < at ==> (#[trigger] before[i]).prefix@.len() >= row.prefix@.len()
                && before[i].prefix@ != row.prefix@,
        at < before.len() ==> before[at].prefix@.len() < row.prefix@.len(),
    ensures
        distinct(after),
        longest_first(after),
        row_map(after) == row_map(before).insert(row.prefix@, (row.input, row.output)),
{
    assert forall|i: int| at <= i < before.len() implies (#[trigger] before[i]).prefix@.len()
        < row.prefix@.len() by {
        if i > at {
            assert(before[at].prefix@.len() >= before[i].prefix@.len());
        }
    }
    assert forall|i: int, j: int| 0 <= i < j < after.len() implies (#[trigger] after[i]).prefix@
        != (#[trigger] after[j]).prefix@ && after[i].prefix@.len() >= after[j].prefix@.len() by {
        let a = if i < at { i } else { i - 1 };
        let b = if j < at { j } else { j - 1 };
        if i == at {
            assert(after[j] == before[b]);
        } else if j == at {
            assert(after[i] == before[a]);
        } else {
            assert(after[i] == before[a]);
            assert(after[j] == before[b]);
        }
    }
    lemma_row_map(before);
    lemma_row_map(after);
    let expected = row_map(before).insert(row.prefix@, (row.input, row.output));
    assert forall|p: Seq<char>|
        #![trigger row_map(after).dom().contains(p)]
        #![trigger expected.dom().contains(p)]
        row_map(after).dom().contains(p) == expected.dom().contains(p) && (row_map(
            after,
        ).dom().contains(p) ==> row_map(after)[p] == expected[p]) by {
        if row_map(after).contains_key(p) {
            let i = choose|i: int| has_row(after, p, i);
            assert(has_row(after, p, i));
            assert(after[i].prefix@ == p);
            if i != at {
                let a = if i < at { i } else { i - 1 };
                assert(before[a] == after[i]);
                assert(has_row(before, p, a));
            }
        }
        if row_map(before).contains_key(p) {
            let a = choose|a: int| has_row(before, p, a);
            assert(has_row(before, p, a));
            let i = if a < at { a } else { a + 1 };
            assert(after[i] == before[a]);
            assert(has_row(after, p, i));
        }
        if p == row.prefix@ {
            assert(after[at] == row);
            assert(has_row(after, p, at));
        }
    }
    assert(row_map(after).dom() =~= expected.dom());
    assert(row_map(after) =~= expected);
}

/// The price of a model is that of the longest prefix that has one: some priced
/// prefix of its name gives it, and no longer prefix is priced.
pub proof fn law_longest_prefix_wins(table: Map<Seq<char>, (Price, Price)>, model: Seq<char>)
    ensures
        ({
            let name = lowercase(model);
            ||| (price_of(table, model) == fallback() && forall|p: Seq<char>| #[trigger]
                table.contains_key(p) ==> !has_prefix(name, p))
            ||| exists|p: Seq<char>| #[trigger]
                table.contains_key(p) && has_prefix(name, p) && price_of(table, model) == table[p]
                    && forall|q: Seq<char>| #[trigger]
                    table.contains_key(q) && has_prefix(name, q) ==> q.len() <= p.len()
        }),
{
    let name = lowercase(model);
    let top = name.len() as int;
    lemma_longest_priced(table, name, top);
    match longest_priced(table, name, top) {
        Some(k) => {
            let p = name.take(k);
            assert(p.take(k) =~= p);
            assert(has_prefix(name, p));
            assert forall|q: Seq<char>| #[trigger]
                table.contains_key(q) && has_prefix(name, q) implies q.len() <= p.len() by {
                assert(name.take(q.len() as int) == q);
            }
        },
        None => {
            assert forall|p: Seq<char>| #[trigger] table.contains_key(p) implies !has_prefix(
                name,
                p,
            ) by {
                if has_prefix(name, p) {
                    assert(name.take(p.len() as int) == p);
                }
            }
        },
    }
}

/// The built-in prices, as bit patterns of double-precision numbers: these five prefixes
/// have one, and no other; every other model has the fallback.
pub proof fn law_builtin_prices(prefix: Seq<char>)
    ensures
        builtin().contains_key(prefix) <==> prefix == "gpt-4o-mini"@ || prefix == "gpt-4o"@ || prefix
            == "gpt-4-turbo"@ || prefix == "gpt-4"@ || prefix == "gpt-3.5-turbo"@,
        builtin()["gpt-4o-mini"@].0.bits == 0x3fc3_3333_3333_3333,
        builtin()["gpt-4o-mini"@].1.bits == 0x3fe3_3333_3333_3333,
        builtin()["gpt-4o"@].0.bits == 0x4004_0000_0000_0000,
        builtin()["gpt-4o"@].1.bits == 0x4024_0000_0000_0000,
        builtin()["gpt-4-turbo"@].0.bits == 0x4024_0000_0000_0000,
        builtin()["gpt-4-turbo"@].1.bits == 0x403e_0000_0000_0000,
        builtin()["gpt-4"@].0.bits == 0x403e_0000_0000_0000,
        builtin()["gpt-4"@].1.bits == 0x404e_0000_0000_0000,
        builtin()["gpt-3.5-turbo"@].0.bits == 0x3fe0_0000_0000_0000,
        builtin()["gpt-3.5-turbo"@].1.bits == 0x3ff8_0000_0000_0000,
        fallback().0.bits == 0x3ff0_0000_0000_0000,
        fallback().1.bits == 0x4008_0000_0000_0000,
{
    reveal_strlit("gpt-4o-mini");
    reveal_strlit("gpt-4o");
    reveal_strlit("gpt-4-turbo");
    reveal_strlit("gpt-4");
    reveal_strlit("gpt-3.5-turbo");
    assert("gpt-4o-mini"@.len() == 11);
    assert("gpt-4o"@.len() == 6);
    assert("gpt-4-turbo"@.len() == 11);
    assert("gpt-4"@.len() == 5);
    assert("gpt-3.5-turbo"@.len() == 13);
    assert("gpt-4o-mini"@[5] != "gpt-4-turbo"@[5]);
}

/// Overrides are applied one by one: one with both amounts sets the price of its model
/// and of no other, and one without changes nothing.
pub proof fn law_overridden(
    table: Map<Seq<char>, (Price, Price)>,
    overrides: Seq<PriceOverride>,
    o: PriceOverride,
    name: Seq<char>,
)
    ensures
        overridden(table, Seq::empty()) == table,
        o.input is None || o.output is None ==> overridden(table, overrides.push(o)) == overridden(
            table,
            overrides,
        ),
        o.input is Some && o.output is Some ==> {
            let before = overridden(table, overrides);
            let after = overridden(table, overrides.push(o));
            &&& after.contains_key(o.model@)
            &&& after[o.model@] == (o.input->0, o.output->0)
            &&& name != o.model@ ==> (after.contains_key(name) <==> before.contains_key(name))
            &&& name != o.model@ && before.contains_key(name) ==> after[name] == before[name]
        },
{
    assert(overrides.push(o).drop_last() =~= overrides);
}

/// What an override spells: the model before the first `=`, in lower case, and the
/// amounts around the first `/` after it, all without the white space around them. A part
/// without `=`, or without `/` after it, spells none.
pub proof fn law_override_in(model: Seq<char>, input: Seq<char>, output: Seq<char>)
    requires
        forall|i: int| 0 <= i < model.len() ==> #[trigger] model[i] != '=',
        forall|i: int| 0 <= i < input.len() ==> #[trigger] input[i] != '/',
    ensures
        override_in(model + seq!['='] + (input + seq!['/'] + output)) == Some(
            OverrideTextView {
                model: lowercase(trimmed(model)),
                input: trimmed(input),
                output: trimmed(output),
            },
        ),
        override_in(model + seq!['='] + input) is None,
        override_in(model) is None,
{
    law_cut(model, '=', input + seq!['/'] + output);
    law_cut(model, '=', input);
    law_cut(input, '/', output);
}

/// Overrides are read part by part and in order; a part that spells none is skipped.
pub proof fn law_overrides_in(a: Seq<Seq<char>>, part: Seq<char>, b: Seq<Seq<char>>)
    ensures
        overrides_in(Seq::empty()) == Seq::<OverrideTextView>::empty(),
        overrides_in(seq![part]) == match override_in(part) {
            Some(o) => seq![o],
            None => Seq::empty(),
        },
        overrides_in(a + b) == overrides_in(a) + overrides_in(b),
    decreases b.len(),
{
    assert(seq![part].drop_last() =~= Seq::<Seq<char>>::empty());
    assert(overrides_in(seq![part].drop_last()) =~= Seq::<OverrideTextView>::empty());
    assert(overrides_in(seq![part]) =~= match override_in(part) {
        Some(o) => seq![o],
        None => Seq::empty(),
    });
    if b.len() == 0 {
        assert(a + b =~= a);
        assert(overrides_in(a + b) =~= overrides_in(a) + overrides_in(b));
    } else {
        assert((a + b).drop_last() =~= a + b.drop_last());
        law_overrides_in(a, part, b.drop_last());
        assert(overrides_in(a + b) =~= overrides_in(a) + overrides_in(b));
    }
}

/// The price of a model by the prefixes of its name: a priced prefix, with none longer
/// that is priced, gives the price; a name without one has the fallback. The case of the
/// letters of an ASCII name does not matter.
pub proof fn law_price(
    table: Map<Seq<char>, (Price, Price)>,
    prefix: Seq<char>,
    rest: Seq<char>,
    model: Seq<char>,
    other: Seq<char>,
)
    ensures
        lowercase(model) == prefix + rest && table.contains_key(prefix) && (forall|q: Seq<char>|
            #[trigger]
            table.contains_key(q) && q.len() > prefix.len() ==> !has_prefix(lowercase(model), q))
            ==> price_of(table, model) == table[prefix],
        (forall|q: Seq<char>| #[trigger] table.contains_key(q) ==> !has_prefix(lowercase(model), q))
            ==> price_of(table, model) == (
            Price { bits: 0x3ff0_0000_0000_0000 },
            Price { bits: 0x4008_0000_0000_0000 },
        ),
        all_ascii(model) && all_ascii(other) && ascii_lowered(model) == ascii_lowered(other)
            ==> price_of(table, model) == price_of(table, other),
{
    let name = lowercase(model);
    law_longest_prefix_wins(table, model);
    law_has_prefix(prefix, rest, name);
    if name == prefix + rest && table.contains_key(prefix) && (forall|q: Seq<char>| #[trigger]
        table.contains_key(q) && q.len() > prefix.len() ==> !has_prefix(name, q)) {
        assert(has_prefix(name, prefix));
        let p = choose|p: Seq<char>| #[trigger]
            table.contains_key(p) && has_prefix(name, p) && price_of(table, model) == table[p]
                && forall|q: Seq<char>| #[trigger]
                table.contains_key(q) && has_prefix(name, q) ==> q.len() <= p.len();
        assert(p.len() == prefix.len());
        assert(p == prefix);
    }
}

/// The views of overrides show all of them, each in its place.
pub proof fn law_override_views(o: OverrideText, list: Seq<OverrideText>, i: int)
    ensures
        o@.model == o.model@ && o@.input == o.input@ && o@.output == o.output@,
        override_texts(list).len() == list.len(),
        0 <= i < list.len() ==> override_texts(list)[i] == list[i]@,
{
}

/// The price of a lowercase name, by the same rule as that of a model: a priced prefix
/// that is as long as any gives it, and without one it is the fallback.
pub proof fn law_price_of_name(
    table: Map<Seq<char>, (Price, Price)>,
    name: Seq<char>,
    prefix: Seq<char>,
    model: Seq<char>,
)
    ensures
        table.contains_key(prefix) && has_prefix(name, prefix) && (forall|q: Seq<char>| #[trigger]
            table.contains_key(q) && q.len() > prefix.len() ==> !has_prefix(name, q))
            ==> price_of_name(table, name) == table[prefix],
        (forall|q: Seq<char>| #[trigger] table.contains_key(q) ==> !has_prefix(name, q))
            ==> price_of_name(table, name) == (
            Price { bits: 0x3ff0_0000_0000_0000 },
            Price { bits: 0x4008_0000_0000_0000 },
        ),
        price_of(table, model) == price_of_name(table, lowercase(model)),
{
    let top = name.len() as int;
    lemma_longest_priced(table, name, top);
    if table.contains_key(prefix) && has_prefix(name, prefix) && (forall|q: Seq<char>| #[trigger]
        table.contains_key(q) && q.len() > prefix.len() ==> !has_prefix(name, q)) {
        let n = prefix.len() as int;
        assert(name.take(n) == prefix);
        let k = longest_priced(table, name, top)->0;
        assert(k >= n);
        if k > n {
            assert(has_prefix(name, name.take(k)));
        }
    }
    if forall|q: Seq<char>| #[trigger] table.contains_key(q) ==> !has_prefix(name, q) {
        match longest_priced(table, name, top) {
            Some(k) => {
                assert(has_prefix(name, name.take(k)));
            },
            None => {},
        }
    }
}

} // verus!
