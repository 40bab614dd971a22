//! Runtime configuration, from the values of environment variables.
use crate::cache::CacheConfig;
use crate::score::Score;
use crate::text::{chars_of, has_prefix, starts_with, string_of, text_view};
use vstd::prelude::*;

verus! {

/// Default listen port.
pub const DEFAULT_PORT: u16 = 8080;

/// The bit pattern of 0.82, the default similarity floor. With the lexical embedder
/// a genuine rephrase scores above it and a different question well below.
pub const DEFAULT_THRESHOLD_BITS: u32 = 0x3f51_eb85;

/// Default entry time-to-live, in seconds.
pub const DEFAULT_TTL_SECS: u64 = 3600;

/// Default maximum number of cached entries.
pub const DEFAULT_MAX_ENTRIES: usize = 10_000;

/// The nanoseconds of a second.
pub const NANOS_PER_SEC: u128 = 1_000_000_000;

/// The values of the environment variables, where they are set.
pub struct EnvVars {
    /// `CACHET_HOST`, and its legacy alias.
    pub host: Option<String>,
    pub legacy_host: Option<String>,
    /// `CACHET_PORT`, and its legacy alias.
    pub port: Option<String>,
    pub legacy_port: Option<String>,
    /// `CACHET_UPSTREAM`, and its legacy alias.
    pub upstream: Option<String>,
    pub legacy_upstream: Option<String>,
    /// `CACHET_THRESHOLD`.
    pub threshold: Option<String>,
    /// `CACHET_TTL_SECS`.
    pub ttl_secs: Option<String>,
    /// `CACHET_MAX_ENTRIES`.
    pub max_entries: Option<String>,
}

/// The first of two values that is set.
pub open spec fn either(
    primary: Option<Seq<char>>,
    legacy: Option<Seq<char>>,
) -> Option<Seq<char>> {
    match primary {
        Some(p) => Some(p),
        None => legacy,
    }
}

/// Reads a variable, falling back to its legacy alias if unset.
pub fn env_with_fallback(primary: &Option<String>, legacy: &Option<String>) -> (r: Option<String>)
    ensures
        text_view(r) == either(text_view(*primary), text_view(*legacy)),
{
    match primary {
        Some(p) => Some(p.clone()),
        None => match legacy {
            Some(l) => Some(l.clone()),
            None => None,
        },
    }
}

/// The value of a decimal digit.
pub open spec fn digit_value(c: char) -> int {
    c as int - '0' as int
}

/// Whether a character is a decimal digit.
pub open spec fn is_digit(c: char) -> bool {
    '0' <= c <= '9'
}

/// The number that a list of digits spells.
pub open spec fn digits_value(s: Seq<char>) -> nat
    decreases s.len(),
{
    if s.len() == 0 {
        0
    } else {
        (digits_value(s.drop_last()) * 10 + digit_value(s.last())) as nat
    }
}

/// Whether a text is made of digits, at least one.
pub open spec fn all_digits(s: Seq<char>) -> bool {
    s.len() > 0 && forall|i: int| 0 <= i < s.len() ==> is_digit(#[trigger] s[i])
}

/// The number that a text spells in decimal: digits, with an optional plus sign
/// before them, and nothing else.
pub open spec fn decimal(s: Seq<char>) -> Option<nat> {
    let digits = if s.len() > 0 && s[0] == '+' {
        s.skip(1)
    } else {
        s
    };
    if all_digits(digits) {
        Some(digits_value(digits))
    } else {
        None
    }
}

/// The number that a text spells, if it is at most `max`.
pub open spec fn decimal_within(s: Seq<char>, max: int) -> Option<nat> {
    match decimal(s) {
        Some(n) => if n <= max {
            Some(n)
        } else {
            None
        },
        None => None,
    }
}

proof fn lemma_digits_grow(s: Seq<char>, n: int)
    requires
        0 <= n <= s.len(),
        forall|i: int| 0 <= i < s.len() ==> is_digit(#[trigger] s[i]),
    ensures
        digits_value(s.take(n)) <= digits_value(s),
    decreases s.len(),
{
    if n < s.len() {
        assert(s.drop_last().take(n) =~= s.take(n));
        assert forall|i: int| 0 <= i < s.drop_last().len() implies is_digit(
            #[trigger] s.drop_last()[i],
        ) by {
            assert(is_digit(s[i]));
        }
        lemma_digits_grow(s.drop_last(), n);
        assert(is_digit(s.last()));
    } else {
        assert(s.take(n) =~= s);
    }
}

/// Parses a decimal number of at most `max`.
pub fn parse_decimal(text: &str, max: u64) -> (r: Option<u64>)
    ensures
        match r {
            Some(n) => decimal_within(text@, max as int) == Some(n as nat),
            None => decimal_within(text@, max as int) is None,
        },
{
    let chars = chars_of(text);
    let total: usize = chars.len();
    let signed = total > 0 && chars[0] == '+';
    let first: usize = if signed {
        1
    } else {
        0
    };
    let digits = &chars[first..total];
    let ghost s = digits@;
    assert(s =~= if signed {
        text@.skip(1)
    } else {
        text@
    });
    if digits.len() == 0 {
        return None;
    }
    let mut value: u64 = 0;
    let mut i: usize = 0;
    while i < digits.len()
        invariant
            i <= digits@.len(),
            s == digits@,
            s.len() > 0,
            s == if text@.len() > 0 && text@[0] == '+' {
                text@.skip(1)
            } else {
                text@
            },
            forall|j: int| 0 <= j < i ==> is_digit(#[trigger] s[j]),
            value == digits_value(s.take(i as int)),
            value <= max,
        decreases digits@.len() - i,
    {
        let c: char = digits[i];
        if !('0' <= c && c <= '9') {
            assert(!is_digit(s[i as int]));
            return None;
        }
        let d: u128 = (c as u128) - ('0' as u128);
        let next: u128 = (value as u128) * 10 + d;
        assert(s.take(i + 1).drop_last() =~= s.take(i as int));
        assert(next == digits_value(s.take(i + 1)));
        if next > max as u128 {
            proof {
                if all_digits(s) {
                    lemma_digits_grow(s, i + 1);
                }
            }
            return None;
        }
        value = next as u64;
        i += 1;
    }
    assert(s.take(s.len() as int) =~= s);
    Some(value)
}

/// A digit as a character.
pub open spec fn digit_char(d: int) -> char {
    (d + '0' as int) as char
}

/// A number in decimal, without leading zeros.
pub open spec fn decimal_text(n: nat) -> Seq<char>
    decreases n,
{
    if n < 10 {
        seq![digit_char(n as int)]
    } else {
        decimal_text(n / 10).push(digit_char((n % 10) as int))
    }
}

/// Appends a number in decimal.
fn push_decimal(out: &mut String, n: u16)
    ensures
        final(out)@ == old(out)@ + decimal_text(n as nat),
    decreases n,
{
    let ghost before = out@;
    if n >= 10 {
        push_decimal(out, n / 10);
    }
    let c: char = ((n % 10) as u8 + '0' as u8) as char;
    out.push(c);
    assert(out@ =~= before + decimal_text(n as nat));
}

/// What is written in decimal is read back.
pub proof fn law_decimal_round_trip(n: nat)
    ensures
        decimal(decimal_text(n)) == Some(n),
{
    lemma_decimal_text(n);
    assert(is_digit(decimal_text(n)[0]));
}

proof fn lemma_decimal_text(n: nat)
    ensures
        all_digits(decimal_text(n)),
        digits_value(decimal_text(n)) == n,
    decreases n,
{
    let s = decimal_text(n);
    if n < 10 {
        assert(s.drop_last() =~= Seq::<char>::empty());
        assert(digits_value(Seq::<char>::empty()) == 0);
    } else {
        lemma_decimal_text(n / 10);
        assert(s.drop_last() =~= decimal_text(n / 10));
        assert forall|i: int| 0 <= i < s.len() implies is_digit(#[trigger] s[i]) by {
            if i < s.len() - 1 {
                assert(is_digit(decimal_text(n / 10)[i]));
            }
        }
    }
}

/// Why a configuration is refused, with the value at fault.
pub enum ConfigError {
    /// The port is not a number of 16 bits.
    Port(String),
    /// Host and port make no socket address.
    Address(String),
    /// The upstream does not start with `http://` or `https://`.
    Upstream(String),
    /// The threshold is not a number.
    Threshold(String),
    /// The threshold is not between 0 and 1.
    ThresholdRange(String),
    /// The time-to-live is not a whole number.
    TtlSecs(String),
    /// The cap is not a whole number.
    MaxEntries(String),
}

/// A refusal as mathematics.
pub ghost enum ConfigErrorView {
    Port(Seq<char>),
    Address(Seq<char>),
    Upstream(Seq<char>),
    Threshold(Seq<char>),
    ThresholdRange(Seq<char>),
    TtlSecs(Seq<char>),
    MaxEntries(Seq<char>),
}

impl View for ConfigError {
    type V = ConfigErrorView;

    open spec fn view(&self) -> ConfigErrorView {
        match self {
            ConfigError::Port(s) => ConfigErrorView::Port(s@),
            ConfigError::Address(s) => ConfigErrorView::Address(s@),
            ConfigError::Upstream(s) => ConfigErrorView::Upstream(s@),
            ConfigError::Threshold(s) => ConfigErrorView::Threshold(s@),
            ConfigError::ThresholdRange(s) => ConfigErrorView::ThresholdRange(s@),
            ConfigError::TtlSecs(s) => ConfigErrorView::TtlSecs(s@),
            ConfigError::MaxEntries(s) => ConfigErrorView::MaxEntries(s@),
        }
    }
}

/// The configuration.
pub struct Config {
    /// Address to bind to, as `host:port`.
    pub listen_addr: String,
    /// Upstream base URL, without trailing slashes.
    pub upstream_base: String,
    /// Semantic cache tuning.
    pub cache: CacheConfig,
}

/// The configuration as mathematics.
pub ghost struct ConfigView {
    pub listen_addr: Seq<char>,
    pub upstream_base: Seq<char>,
    pub cache: CacheConfig,
}

impl View for Config {
    type V = ConfigView;

    open spec fn view(&self) -> ConfigView {
        ConfigView {
            listen_addr: self.listen_addr@,
            upstream_base: self.upstream_base@,
            cache: self.cache,
        }
    }
}

/// The view of a resolved configuration.
pub open spec fn config_view(r: Result<Config, ConfigError>) -> Result<
    ConfigView,
    ConfigErrorView,
> {
    match r {
        Ok(c) => Ok(c@),
        Err(e) => Err(e@),
    }
}

/// A text without the slashes at its end.
pub open spec fn without_slashes(s: Seq<char>) -> Seq<char>
    decreases s.len(),
{
    if s.len() > 0 && s.last() == '/' {
        without_slashes(s.drop_last())
    } else {
        s
    }
}

fn strip_slashes(text: &str) -> (r: String)
    ensures
        r@ == without_slashes(text@),
{
    let chars = chars_of(text);
    let mut n: usize = chars.len();
    assert(chars@.take(n as int) =~= chars@);
    while n > 0 && chars[n - 1] == '/'
        invariant
            n <= chars@.len(),
            without_slashes(chars@) == without_slashes(chars@.take(n as int)),
        decreases n,
    {
        assert(chars@.take(n as int).drop_last() =~= chars@.take(n - 1));
        n -= 1;
    }
    let r = string_of(&chars[0..n]);
    assert(r@ =~= chars@.take(n as int));
    r
}

impl EnvVars {
    /// The host to bind to.
    pub open spec fn spec_host(self) -> Seq<char> {
        match either(text_view(self.host), text_view(self.legacy_host)) {
            Some(h) => h,
            None => "127.0.0.1"@,
        }
    }

    /// The text of the port, if it is set.
    pub open spec fn spec_port(self) -> Option<Seq<char>> {
        either(text_view(self.port), text_view(self.legacy_port))
    }

    /// The address to bind to, or the refusal of the port.
    pub open spec fn spec_bind(self) -> Result<Seq<char>, ConfigErrorView> {
        match self.spec_port() {
            Some(raw) => match decimal_within(raw, 65535) {
                Some(n) => Ok(self.spec_host() + ":"@ + decimal_text(n)),
                None => Err(ConfigErrorView::Port(raw)),
            },
            None => Ok(self.spec_host() + ":"@ + decimal_text(DEFAULT_PORT as nat)),
        }
    }

    /// The upstream base URL.
    pub open spec fn spec_upstream(self) -> Seq<char> {
        without_slashes(
            match either(text_view(self.upstream), text_view(self.legacy_upstream)) {
                Some(u) => u,
                None => "https://api.openai.com"@,
            },
        )
    }

    /// The similarity floor, given the number that the variable spells, if it
    /// spells one.
    pub open spec fn spec_threshold(self, parsed: Option<Score>) -> Result<Score, ConfigErrorView> {
        match self.threshold {
            Some(raw) => match parsed {
                Some(score) => if score.in_unit_range() {
                    Ok(score)
                } else {
                    Err(ConfigErrorView::ThresholdRange(raw@))
                },
                None => Err(ConfigErrorView::Threshold(raw@)),
            },
            None => Ok(Score { bits: DEFAULT_THRESHOLD_BITS }),
        }
    }

    /// The time-to-live in seconds.
    pub open spec fn spec_ttl_secs(self) -> Result<nat, ConfigErrorView> {
        match self.ttl_secs {
            Some(raw) => match decimal_within(raw@, u64::MAX as int) {
                Some(n) => Ok(n),
                None => Err(ConfigErrorView::TtlSecs(raw@)),
            },
            None => Ok(DEFAULT_TTL_SECS as nat),
        }
    }

    /// The cap on entries.
    pub open spec fn spec_max_entries(self) -> Result<nat, ConfigErrorView> {
        match self.max_entries {
            Some(raw) => match decimal_within(raw@, usize::MAX as int) {
                Some(n) => Ok(n),
                None => Err(ConfigErrorView::MaxEntries(raw@)),
            },
            None => Ok(DEFAULT_MAX_ENTRIES as nat),
        }
    }

    /// The configuration, or the first refusal: of the port, the address, the
    /// upstream, the threshold, the time-to-live and the cap, in this order.
    pub open spec fn resolved(self, address_ok: bool, parsed: Option<Score>) -> Result<
        ConfigView,
        ConfigErrorView,
    > {
        match self.spec_bind() {
            Err(e) => Err(e),
            Ok(listen_addr) => if !address_ok {
                Err(ConfigErrorView::Address(listen_addr))
            } else if !has_prefix(self.spec_upstream(), "http://"@) && !has_prefix(
                self.spec_upstream(),
                "https://"@,
            ) {
                Err(ConfigErrorView::Upstream(self.spec_upstream()))
            } else {
                match (self.spec_threshold(parsed), self.spec_ttl_secs(), self.spec_max_entries()) {
                    (Err(e), _, _) => Err(e),
                    (_, Err(e), _) => Err(e),
                    (_, _, Err(e)) => Err(e),
                    (Ok(threshold), Ok(secs), Ok(cap)) => Ok(
                        ConfigView {
                            listen_addr,
                            upstream_base: self.spec_upstream(),
                            cache: CacheConfig {
                                threshold,
                                ttl: (secs * NANOS_PER_SEC as nat) as u128,
                                max_entries: cap as usize,
                            },
                        },
                    ),
                }
            },
        }
    }

    /// The address to bind to, as text.
    pub fn bind_address(&self) -> (r: Result<String, ConfigError>)
        ensures
            match r {
                Ok(s) => self.spec_bind() == Ok::<Seq<char>, ConfigErrorView>(s@),
                Err(e) => self.spec_bind() == Err::<Seq<char>, ConfigErrorView>(e@),
            },
    {
        let mut out = match env_with_fallback(&self.host, &self.legacy_host) {
            Some(h) => h,
            None => "127.0.0.1".to_owned(),
        };
        let port: u16 = match env_with_fallback(&self.port, &self.legacy_port) {
            Some(raw) => match parse_decimal(raw.as_str(), 65535) {
                Some(n) => n as u16,
                None => {
                    return Err(ConfigError::Port(raw));
                },
            },
            None => DEFAULT_PORT,
        };
        out.append(":");
        push_decimal(&mut out, port);
        Ok(out)
    }
}

impl Config {
    /// Builds the configuration from environment variables. `address_ok` says
    /// whether the address to bind to is a socket address; `parsed` is the number
    /// that the threshold spells, if it spells one.
    pub fn from_env(vars: &EnvVars, address_ok: bool, parsed: Option<Score>) -> (r: Result<
        Config,
        ConfigError,
    >)
        ensures
            config_view(r) == vars.resolved(address_ok, parsed),
    {
        let listen_addr = match vars.bind_address() {
            Ok(a) => a,
            Err(e) => {
                return Err(e);
            },
        };
        if !address_ok {
            return Err(ConfigError::Address(listen_addr));
        }
        let upstream_base = match env_with_fallback(&vars.upstream, &vars.legacy_upstream) {
            Some(u) => strip_slashes(u.as_str()),
            None => strip_slashes("https://api.openai.com"),
        };
        let base = chars_of(upstream_base.as_str());
        if !starts_with(base.as_slice(), chars_of("http://").as_slice()) && !starts_with(
            base.as_slice(),
            chars_of("https://").as_slice(),
        ) {
            return Err(ConfigError::Upstream(upstream_base));
        }
        let threshold = match &vars.threshold {
            Some(raw) => match parsed {
                Some(score) => {
                    if !score.is_unit() {
                        return Err(ConfigError::ThresholdRange(raw.clone()));
                    }
                    score
                },
                None => {
                    return Err(ConfigError::Threshold(raw.clone()));
                },
            },
            None => Score { bits: DEFAULT_THRESHOLD_BITS },
        };
        let ttl_secs: u64 = match &vars.ttl_secs {
            Some(raw) => match parse_decimal(raw.as_str(), u64::MAX) {
                Some(n) => n,
                None => {
                    return Err(ConfigError::TtlSecs(raw.clone()));
                },
            },
            None => DEFAULT_TTL_SECS,
        };
        let max_entries: usize = match &vars.max_entries {
            Some(raw) => match parse_decimal(raw.as_str(), usize::MAX as u64) {
                Some(n) => n as usize,
                None => {
                    return Err(ConfigError::MaxEntries(raw.clone()));
                },
            },
            None => DEFAULT_MAX_ENTRIES,
        };
        let ttl: u128 = (ttl_secs as u128) * NANOS_PER_SEC;
        Ok(
            Config {
                listen_addr,
                upstream_base,
                cache: CacheConfig { threshold, ttl, max_entries },
            },
        )
    }
}

/// A resolved configuration is sound: the upstream is an HTTP URL without slashes at
/// its end, the threshold is between 0 and 1, and the address was accepted.
pub proof fn law_resolved_config_is_sound(vars: EnvVars, address_ok: bool, parsed: Option<Score>)
    ensures
        vars.resolved(address_ok, parsed) matches Ok(c) ==> {
            &&& address_ok
            &&& has_prefix(c.upstream_base, "http://"@) || has_prefix(c.upstream_base, "https://"@)
            &&& !(c.upstream_base.len() > 0 && c.upstream_base.last() == '/')
            &&& c.cache.threshold.in_unit_range()
        },
{
    lemma_without_slashes(
        match either(text_view(vars.upstream), text_view(vars.legacy_upstream)) {
            Some(u) => u,
            None => "https://api.openai.com"@,
        },
    );
}

proof fn lemma_without_slashes(s: Seq<char>)
    ensures
        !(without_slashes(s).len() > 0 && without_slashes(s).last() == '/'),
    decreases s.len(),
{
    if s.len() > 0 && s.last() == '/' {
        lemma_without_slashes(s.drop_last());
    }
}

/// A variable wins over its legacy alias, which counts only where the variable is unset.
pub proof fn law_either(primary: Seq<char>, legacy: Option<Seq<char>>)
    ensures
        either(Some(primary), legacy) == Some(primary),
        either(None, legacy) == legacy,
{
}

/// How a number is read: digit by digit, each worth ten times the next; a plus sign may
/// stand before them, and nothing else anywhere.
pub proof fn law_decimal(s: Seq<char>, c: char)
    ensures
        decimal(Seq::empty()) is None,
        '0' <= c <= '9' ==> decimal(seq![c]) == Some((c as int - '0' as int) as nat),
        decimal(s) is Some && '0' <= c <= '9' ==> decimal(s.push(c)) == Some(
            (decimal(s)->0 * 10 + (c as int - '0' as int)) as nat,
        ),
        s.len() > 0 && !('0' <= c <= '9') ==> decimal(s.push(c)) is None,
        s.len() > 0 && s != seq!['+'] && decimal(s) is None ==> decimal(s.push(c)) is None,
        s.len() > 0 && s[0] != '+' ==> decimal(seq!['+'] + s) == decimal(s),
        decimal(seq!['+']) is None,
{
    let one = seq![c];
    assert(one.drop_last() =~= Seq::<char>::empty());
    assert(digits_value(Seq::<char>::empty()) == 0);
    assert(one[0] == c);
    assert(seq!['+'].skip(1) =~= Seq::<char>::empty());
    let t = s.push(c);
    if s.len() > 0 {
        let signed = s[0] == '+';
        let d = if signed {
            s.skip(1)
        } else {
            s
        };
        let e = if signed {
            t.skip(1)
        } else {
            t
        };
        assert(t[0] == s[0]);
        assert(e =~= d.push(c));
        assert(e.drop_last() =~= d);
        assert(e[e.len() - 1] == c);
        if all_digits(e) && d.len() > 0 {
            assert forall|i: int| 0 <= i < d.len() implies is_digit(#[trigger] d[i]) by {
                assert(e[i] == d[i]);
            }
        }
        if signed && d.len() == 0 {
            assert(s =~= seq!['+']);
        }
        if all_digits(d) && is_digit(c) {
            assert forall|i: int| 0 <= i < e.len() implies is_digit(#[trigger] e[i]) by {
                if i < d.len() {
                    assert(e[i] == d[i]);
                }
            }
        }
        if !signed {
            assert((seq!['+'] + s).skip(1) =~= s);
        }
    }
}

/// A number counts up to a limit, and is refused past it.
pub proof fn law_decimal_within(s: Seq<char>, max: int)
    ensures
        decimal_within(s, max) is Some <==> (decimal(s) matches Some(n) && n <= max),
        decimal_within(s, max) is Some ==> decimal_within(s, max) == decimal(s),
{
}

/// How a number is written: in digits, without zeros before it. Zero is one digit.
pub proof fn law_decimal_text_is_plain(n: nat)
    ensures
        forall|i: int| 0 <= i < decimal_text(n).len() ==> '0' <= #[trigger] decimal_text(n)[i] <= '9',
        n == 0 ==> decimal_text(n) == seq!['0'],
        n > 0 ==> decimal_text(n)[0] != '0',
{
    lemma_decimal_text(n);
    assert forall|i: int| 0 <= i < decimal_text(n).len() implies '0' <= #[trigger] decimal_text(n)[i]
        <= '9' by {
        assert(is_digit(decimal_text(n)[i]));
    }
    if n > 0 {
        lemma_no_leading_zero(n);
    }
}

proof fn lemma_no_leading_zero(n: nat)
    requires
        n > 0,
    ensures
        decimal_text(n).len() > 0,
        decimal_text(n)[0] != '0',
    decreases n,
{
    if n >= 10 {
        lemma_no_leading_zero(n / 10);
    }
}

/// Taking the slashes off the end of a text takes off slashes alone, and all of them.
pub proof fn law_without_slashes(s: Seq<char>)
    ensures
        without_slashes(s).len() <= s.len(),
        without_slashes(s) == s.take(without_slashes(s).len() as int),
        forall|i: int| without_slashes(s).len() <= i < s.len() ==> #[trigger] s[i] == '/',
        without_slashes(s).len() > 0 ==> without_slashes(s).last() != '/',
    decreases s.len(),
{
    if s.len() > 0 && s.last() == '/' {
        let rest = s.drop_last();
        law_without_slashes(rest);
        assert(s.take(without_slashes(s).len() as int) =~= rest.take(
            without_slashes(rest).len() as int,
        ));
        assert forall|i: int| without_slashes(s).len() <= i < s.len() implies #[trigger] s[i]
            == '/' by {
            if i < rest.len() {
                assert(rest[i] == s[i]);
            }
        }
    } else {
        assert(s.take(s.len() as int) =~= s);
    }
}

/// What the address is made of: the host, a colon and the port. The variables win over
/// their legacy aliases; unset, the host is 127.0.0.1 and the port 8080. A port that is no
/// number of 16 bits is refused, and nothing else is.
pub proof fn law_bind(vars: EnvVars)
    ensures
        ({
            let host = match (vars.host, vars.legacy_host) {
                (Some(h), _) => h@,
                (None, Some(h)) => h@,
                (None, None) => "127.0.0.1"@,
            };
            let port = match (vars.port, vars.legacy_port) {
                (Some(p), _) => Some(p@),
                (None, Some(p)) => Some(p@),
                (None, None) => None,
            };
            match port {
                Some(raw) => match decimal(raw) {
                    Some(n) => if n <= 65535 {
                        vars.spec_bind() == Ok::<Seq<char>, ConfigErrorView>(
                            host + ":"@ + decimal_text(n),
                        )
                    } else {
                        vars.spec_bind() == Err::<Seq<char>, ConfigErrorView>(
                            ConfigErrorView::Port(raw),
                        )
                    },
                    None => vars.spec_bind() == Err::<Seq<char>, ConfigErrorView>(
                        ConfigErrorView::Port(raw),
                    ),
                },
                None => vars.spec_bind() == Ok::<Seq<char>, ConfigErrorView>(
                    host + ":"@ + decimal_text(8080),
                ),
            }
        }),
{
}

/// What a resolved configuration holds: the address; the upstream that is set, or the
/// default, without the slashes at its end; the threshold that is set, or 0.82; the
/// time-to-live that is set, or an hour, in nanoseconds; and the cap that is set, or ten
/// thousand.
pub proof fn law_resolved_values(vars: EnvVars, address_ok: bool, parsed: Option<Score>)
    ensures
        vars.resolved(address_ok, parsed) matches Ok(c) ==> {
            &&& vars.spec_bind() == Ok::<Seq<char>, ConfigErrorView>(c.listen_addr)
            &&& c.upstream_base == without_slashes(
                match (vars.upstream, vars.legacy_upstream) {
                    (Some(u), _) => u@,
                    (None, Some(u)) => u@,
                    (None, None) => "https://api.openai.com"@,
                },
            )
            &&& vars.threshold is Some ==> parsed == Some(c.cache.threshold)
            &&& vars.threshold is None ==> c.cache.threshold.bits == 0x3f51_eb85
            &&& vars.ttl_secs matches Some(raw) ==> (decimal(raw@) matches Some(n) && c.cache.ttl
                == n * 1_000_000_000)
            &&& vars.ttl_secs is None ==> c.cache.ttl == 3_600_000_000_000
            &&& vars.max_entries matches Some(raw) ==> decimal(raw@) == Some(
                c.cache.max_entries as nat,
            )
            &&& vars.max_entries is None ==> c.cache.max_entries == 10_000
        },
{
}

/// When a configuration is refused, and for what: the first of the port, the address, the
/// upstream, the threshold, the time-to-live and the cap that is at fault; and where none
/// is, it is accepted.
pub proof fn law_refused_values(vars: EnvVars, address_ok: bool, parsed: Option<Score>)
    ensures
        ({
            let r = vars.resolved(address_ok, parsed);
            let base = without_slashes(
                match (vars.upstream, vars.legacy_upstream) {
                    (Some(u), _) => u@,
                    (None, Some(u)) => u@,
                    (None, None) => "https://api.openai.com"@,
                },
            );
            let http = has_prefix(base, "http://"@) || has_prefix(base, "https://"@);
            if vars.spec_bind() is Err {
                r == Err::<ConfigView, ConfigErrorView>(vars.spec_bind()->Err_0)
            } else if !address_ok {
                r == Err::<ConfigView, ConfigErrorView>(
                    ConfigErrorView::Address(vars.spec_bind()->Ok_0),
                )
            } else if !http {
                r == Err::<ConfigView, ConfigErrorView>(ConfigErrorView::Upstream(base))
            } else if vars.threshold is Some && parsed is None {
                r == Err::<ConfigView, ConfigErrorView>(
                    ConfigErrorView::Threshold((vars.threshold->0)@),
                )
            } else if vars.threshold is Some && !(parsed->0).in_unit_range() {
                r == Err::<ConfigView, ConfigErrorView>(
                    ConfigErrorView::ThresholdRange((vars.threshold->0)@),
                )
            } else if vars.ttl_secs is Some && (decimal((vars.ttl_secs->0)@) is None || decimal(
                (vars.ttl_secs->0)@,
            )->0 > u64::MAX) {
                r == Err::<ConfigView, ConfigErrorView>(
                    ConfigErrorView::TtlSecs((vars.ttl_secs->0)@),
                )
            } else if vars.max_entries is Some && (decimal((vars.max_entries->0)@) is None || decimal(
                (vars.max_entries->0)@,
            )->0 > usize::MAX) {
                r == Err::<ConfigView, ConfigErrorView>(
                    ConfigErrorView::MaxEntries((vars.max_entries->0)@),
                )
            } else {
                r is Ok
            }
        }),
{
}

/// The view of a configuration, or of its refusal, shows all of it.
pub proof fn law_config_views(config: Config, error: ConfigError)
    ensures
        config@.listen_addr == config.listen_addr@,
        config@.upstream_base == config.upstream_base@,
        config@.cache == config.cache,
        config_view(Ok(config)) == Ok::<ConfigView, ConfigErrorView>(config@),
        config_view(Err(error)) == Err::<ConfigView, ConfigErrorView>(error@),
        error matches ConfigError::Port(s) ==> error@ == ConfigErrorView::Port(s@),
        error matches ConfigError::Address(s) ==> error@ == ConfigErrorView::Address(s@),
        error matches ConfigError::Upstream(s) ==> error@ == ConfigErrorView::Upstream(s@),
        error matches ConfigError::Threshold(s) ==> error@ == ConfigErrorView::Threshold(s@),
        error matches ConfigError::ThresholdRange(s) ==> error@ == ConfigErrorView::ThresholdRange(
            s@,
        ),
        error matches ConfigError::TtlSecs(s) ==> error@ == ConfigErrorView::TtlSecs(s@),
        error matches ConfigError::MaxEntries(s) ==> error@ == ConfigErrorView::MaxEntries(s@),
{
}

} // verus!
