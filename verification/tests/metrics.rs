use cachet::metrics::{epoch_millis, Event, Metrics, Outcome, Stats, RECENT_CAPACITY};
use cachet::score::Score;
use serde_json::Value;

fn show(s: Score) -> String {
    (f32::from_bits(s.bits) as f64).to_string()
}

fn ratio(a: u64, b: u64) -> String {
    (a as f64 / b as f64).to_string()
}

fn snapshot(m: &Metrics) -> Value {
    serde_json::from_str(&m.snapshot_message(show, ratio)).unwrap()
}

fn semantic(x: f32) -> Outcome {
    Outcome::Hit { layer: "semantic", similarity: Some(Score { bits: x.to_bits() }) }
}

const EXACT: Outcome = Outcome::Hit { layer: "exact", similarity: None };

#[test]
fn every_request_is_counted_once() {
    let mut m = Metrics::new();
    m.record("a", EXACT, 10, 20, 1);
    m.record("a", semantic(0.9), 5, 6, 2);
    m.record("b", Outcome::Miss, 0, 0, 3);
    m.record("", Outcome::Bypass, 0, 0, 4);
    assert_eq!(
        m.stats_value(),
        Stats {
            requests: 4,
            hits: 2,
            misses: 1,
            bypasses: 1,
            cacheable: 3,
            tokens_saved: 15,
            saved_micros: 26,
        }
    );
}

#[test]
fn events_are_numbered_from_zero() {
    let mut m = Metrics::default();
    let e = m.record("gpt-4o", semantic(0.5), 7, 8, 99);
    assert_eq!((e.seq, e.ts, e.model.as_str(), e.status), (0, 99, "gpt-4o", "hit"));
    assert_eq!(e.layer, Some("semantic"));
    assert_eq!(e.sim, Some(Score { bits: 0.5_f32.to_bits() }));
    assert_eq!((e.tokens_saved, e.saved_micros), (7, 8));
    let e = m.record("", Outcome::Bypass, 0, 0, 100);
    assert_eq!((e.seq, e.status), (1, "bypass"));
    assert_eq!(e.layer, None);
    assert_eq!(e.sim, None);
    assert_eq!(m.record("x", Outcome::Miss, 0, 0, 101).status, "miss");
    assert_eq!(e.duplicate().seq, 1);
    assert_eq!(EXACT.status(), "hit");
}

#[test]
fn the_feed_keeps_the_latest_events_newest_first() {
    let mut m = Metrics::new();
    for i in 0..(RECENT_CAPACITY as u64 + 5) {
        m.record("m", Outcome::Miss, 0, 0, i);
    }
    let events = snapshot(&m)["events"].as_array().unwrap().clone();
    assert_eq!(events.len(), RECENT_CAPACITY);
    assert_eq!(events[0]["seq"], 64);
    assert_eq!(events[59]["seq"], 5);
    assert_eq!(m.stats_value().requests, 65);
}

#[test]
fn snapshot_messages() {
    let mut m = Metrics::new();
    assert_eq!(
        m.snapshot_message(show, ratio),
        "{\"events\":[],\"stats\":{\"bypasses\":0,\"hitRate\":0.0,\"hits\":0,\"misses\":0,\
         \"requests\":0,\"savedMicros\":0,\"tokensSaved\":0},\"type\":\"snapshot\"}"
    );
    m.record("a\"b", semantic(0.5), 1, 2, 3);
    m.record("m", Outcome::Miss, 0, 0, 4);
    assert_eq!(
        m.snapshot_message(show, ratio),
        "{\"events\":[{\"layer\":null,\"model\":\"m\",\"savedMicros\":0,\"seq\":1,\"sim\":null,\
         \"status\":\"miss\",\"tokensSaved\":0,\"ts\":4},{\"layer\":\"semantic\",\
         \"model\":\"a\\\"b\",\"savedMicros\":2,\"seq\":0,\"sim\":0.5,\"status\":\"hit\",\
         \"tokensSaved\":1,\"ts\":3}],\"stats\":{\"bypasses\":0,\"hitRate\":0.5,\"hits\":1,\
         \"misses\":1,\"requests\":2,\"savedMicros\":2,\"tokensSaved\":1},\"type\":\"snapshot\"}"
    );
}

#[test]
fn event_messages_carry_the_stats() {
    let mut m = Metrics::new();
    m.record("m", Outcome::Miss, 0, 0, 1);
    let e = m.record("m", semantic(0.87), 3, 4, 2);
    let message: Value = serde_json::from_str(&m.stats_value().event_message(&e, show, ratio)).unwrap();
    assert_eq!(message["type"], "event");
    assert_eq!(message["stats"]["hitRate"], 0.5);
    assert_eq!(message["stats"]["requests"], 2);
    assert_eq!(message["event"]["sim"], 0.87_f32 as f64);
    assert_eq!(message["event"]["layer"], "semantic");
    assert_eq!(message["event"]["ts"], 2);
    // Bypasses do not count into the hit rate.
    let e = m.record("", Outcome::Bypass, 0, 0, 3);
    let message: Value = serde_json::from_str(&m.stats_value().event_message(&e, show, ratio)).unwrap();
    assert_eq!(message["stats"]["hitRate"], 0.5);
    assert_eq!(message["event"]["sim"], Value::Null);
}

#[test]
fn a_similarity_that_is_no_number_is_null() {
    let mut m = Metrics::new();
    m.record("m", semantic(f32::NAN), 0, 0, 0);
    assert_eq!(snapshot(&m)["events"][0]["sim"], Value::Null);
}

#[test]
fn sums_wrap_around() {
    let mut m = Metrics::new();
    m.record("m", EXACT, u64::MAX, u64::MAX, 0);
    m.record("m", EXACT, 2, 3, 0);
    assert_eq!(m.stats_value().tokens_saved, 1);
    assert_eq!(m.stats_value().saved_micros, 2);
}

#[test]
fn clock_readings() {
    assert_eq!(epoch_millis(None), 0);
    assert_eq!(epoch_millis(Some(1_700_000_000_123)), 1_700_000_000_123);
    assert_eq!(epoch_millis(Some(1 << 64)), 0);
}

#[test]
fn events_in_json() {
    let e = Event {
        seq: 1,
        ts: 2,
        model: "m".to_string(),
        status: "hit",
        layer: Some("exact"),
        sim: None,
        tokens_saved: 3,
        saved_micros: 4,
    };
    let json = e.to_json(None);
    assert_eq!(json.get("layer").unwrap().as_str(), Some("exact"));
    assert_eq!(json.get("model").unwrap().as_str(), Some("m"));
    assert!(json.get("absent").is_none());
}
