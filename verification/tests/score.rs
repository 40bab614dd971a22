use cachet::score::Score;

fn score(x: f32) -> Score {
    Score { bits: x.to_bits() }
}

const SAMPLES: [f32; 14] = [
    0.0,
    -0.0,
    1.0,
    -1.0,
    0.82,
    0.81999999,
    1.0000001,
    f32::MIN_POSITIVE,
    1e-45,
    -1e-45,
    f32::MAX,
    f32::INFINITY,
    f32::NEG_INFINITY,
    f32::NAN,
];

#[test]
fn scores_compare_as_numbers_do() {
    for a in SAMPLES {
        for b in SAMPLES {
            assert_eq!(score(a).exceeds(score(b)), a > b, "{a} > {b}");
            assert_eq!(score(a).reaches(score(b)), a >= b, "{a} >= {b}");
        }
        assert_eq!(score(a).is_unit(), (0.0..=1.0).contains(&a), "{a}");
    }
}

#[test]
fn one_is_one() {
    assert_eq!(Score::one(), score(1.0));
}
