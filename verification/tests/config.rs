use cachet::config::{env_with_fallback, parse_decimal, Config, ConfigError, EnvVars};
use cachet::score::Score;

fn unset() -> EnvVars {
    EnvVars {
        host: None,
        legacy_host: None,
        port: None,
        legacy_port: None,
        upstream: None,
        legacy_upstream: None,
        threshold: None,
        ttl_secs: None,
        max_entries: None,
    }
}

fn some(s: &str) -> Option<String> {
    Some(s.to_string())
}

fn load(vars: &EnvVars) -> Result<Config, ConfigError> {
    let address_ok = match vars.bind_address() {
        Ok(a) => !a.contains(' '),
        Err(_) => false,
    };
    let parsed = vars
        .threshold
        .as_ref()
        .and_then(|t| t.parse::<f32>().ok())
        .map(|x| Score { bits: x.to_bits() });
    Config::from_env(vars, address_ok, parsed)
}

#[test]
fn defaults() {
    let c = load(&unset()).ok().expect("valid");
    assert_eq!(c.listen_addr, "127.0.0.1:8080");
    assert_eq!(c.upstream_base, "https://api.openai.com");
    assert_eq!(f32::from_bits(c.cache.threshold.bits), 0.82);
    assert_eq!(c.cache.ttl, 3600 * 1_000_000_000);
    assert_eq!(c.cache.max_entries, 10_000);
}

#[test]
fn every_variable_is_read() {
    let vars = EnvVars {
        host: some("0.0.0.0"),
        port: some("+9000"),
        upstream: some("http://localhost:11434///"),
        threshold: some("0.85"),
        ttl_secs: some("60"),
        max_entries: some("5"),
        ..unset()
    };
    let c = load(&vars).ok().expect("valid");
    assert_eq!(c.listen_addr, "0.0.0.0:9000");
    assert_eq!(c.upstream_base, "http://localhost:11434");
    assert_eq!(f32::from_bits(c.cache.threshold.bits), 0.85);
    assert_eq!(c.cache.ttl, 60_000_000_000);
    assert_eq!(c.cache.max_entries, 5);
}

#[test]
fn legacy_names_are_fallbacks() {
    let vars = EnvVars {
        legacy_host: some("127.0.0.2"),
        legacy_port: some("0"),
        legacy_upstream: some("https://api.anthropic.com"),
        ..unset()
    };
    let c = load(&vars).ok().expect("valid");
    assert_eq!(c.listen_addr, "127.0.0.2:0");
    assert_eq!(c.upstream_base, "https://api.anthropic.com");
    let vars = EnvVars { port: some("65535"), legacy_port: some("1"), ..unset() };
    assert_eq!(load(&vars).ok().expect("valid").listen_addr, "127.0.0.1:65535");
    assert_eq!(env_with_fallback(&some("a"), &some("b")), some("a"));
    assert_eq!(env_with_fallback(&None, &some("b")), some("b"));
    assert_eq!(env_with_fallback(&None, &None), None);
}

#[test]
fn bad_ports_are_refused() {
    for raw in ["", "x", "65536", "-1", "8080 ", "+", "99999999999999999999"] {
        let vars = EnvVars { port: some(raw), ..unset() };
        assert!(matches!(load(&vars), Err(ConfigError::Port(got)) if got == raw), "{raw:?}");
    }
}

#[test]
fn bad_addresses_are_refused() {
    let vars = EnvVars { host: some("not a host"), ..unset() };
    assert!(matches!(load(&vars), Err(ConfigError::Address(a)) if a == "not a host:8080"));
}

#[test]
fn bad_upstreams_are_refused() {
    for raw in ["ftp://x", "api.openai.com", "", "http:/", "http://"] {
        let vars = EnvVars { upstream: some(raw), ..unset() };
        let stripped = raw.trim_end_matches('/');
        assert!(matches!(load(&vars), Err(ConfigError::Upstream(u)) if u == stripped), "{raw:?}");
    }
}

#[test]
fn bad_thresholds_are_refused() {
    let vars = EnvVars { threshold: some("high"), ..unset() };
    assert!(matches!(load(&vars), Err(ConfigError::Threshold(t)) if t == "high"));
    for raw in ["-0.1", "1.1", "NaN", "inf", "-inf"] {
        let vars = EnvVars { threshold: some(raw), ..unset() };
        assert!(matches!(load(&vars), Err(ConfigError::ThresholdRange(t)) if t == raw), "{raw:?}");
    }
    for raw in ["0", "-0.0", "1", "1.0", "0.5"] {
        let vars = EnvVars { threshold: some(raw), ..unset() };
        assert!(load(&vars).is_ok(), "{raw:?}");
    }
}

#[test]
fn bad_limits_are_refused() {
    let vars = EnvVars { ttl_secs: some("1h"), ..unset() };
    assert!(matches!(load(&vars), Err(ConfigError::TtlSecs(t)) if t == "1h"));
    let vars = EnvVars { ttl_secs: some("18446744073709551616"), ..unset() };
    assert!(matches!(load(&vars), Err(ConfigError::TtlSecs(_))));
    let vars = EnvVars { ttl_secs: some("18446744073709551615"), ..unset() };
    assert_eq!(
        load(&vars).ok().expect("valid").cache.ttl,
        u64::MAX as u128 * 1_000_000_000
    );
    let vars = EnvVars { max_entries: some("-5"), ..unset() };
    assert!(matches!(load(&vars), Err(ConfigError::MaxEntries(t)) if t == "-5"));
}

#[test]
fn the_first_refusal_is_told() {
    let vars = EnvVars {
        port: some("x"),
        upstream: some("y"),
        threshold: some("z"),
        ttl_secs: some("w"),
        ..unset()
    };
    assert!(matches!(load(&vars), Err(ConfigError::Port(_))));
    let vars = EnvVars { port: None, ..vars };
    assert!(matches!(load(&vars), Err(ConfigError::Upstream(_))));
    let vars = EnvVars { upstream: None, ..vars };
    assert!(matches!(load(&vars), Err(ConfigError::Threshold(_))));
    let vars = EnvVars { threshold: None, ..vars };
    assert!(matches!(load(&vars), Err(ConfigError::TtlSecs(_))));
}

#[test]
fn decimals_are_parsed_as_the_standard_library_does() {
    for raw in ["0", "007", "65535", "65536", "+1", "++1", "-0", "", " 1", "1 ", "１", "4294967296", "99999"] {
        assert_eq!(parse_decimal(raw, 65535), raw.parse::<u16>().ok().map(|n| n as u64), "{raw:?}");
        assert_eq!(parse_decimal(raw, u64::MAX), raw.parse::<u64>().ok(), "{raw:?}");
    }
}
