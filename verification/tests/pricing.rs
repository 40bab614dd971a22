use cachet::pricing::{read_overrides, Price, PriceOverride, Pricing};

fn price(x: f64) -> Price {
    Price { bits: x.to_bits() }
}

fn amounts(pair: (Price, Price)) -> (f64, f64) {
    (f64::from_bits(pair.0.bits), f64::from_bits(pair.1.bits))
}

fn pricing(raw: &str) -> Pricing {
    let list: Vec<PriceOverride> = read_overrides(raw)
        .into_iter()
        .map(|o| PriceOverride {
            input: o.input.parse().ok().map(price),
            output: o.output.parse().ok().map(price),
            model: o.model,
        })
        .collect();
    Pricing::from_env(&list)
}

fn cost(input: u64, output: u64, p: Price, q: Price) -> u64 {
    let dollars = input as f64 / 1e6 * f64::from_bits(p.bits)
        + output as f64 / 1e6 * f64::from_bits(q.bits);
    (dollars * 1e6).round() as u64
}

#[test]
fn built_in_prices() {
    let p = pricing("");
    for (model, input, output) in [
        ("gpt-4o-mini", 0.15, 0.60),
        ("gpt-4o", 2.50, 10.00),
        ("gpt-4-turbo", 10.00, 30.00),
        ("gpt-4", 30.00, 60.00),
        ("gpt-3.5-turbo", 0.50, 1.50),
        ("unknown", 1.00, 3.00),
        ("", 1.00, 3.00),
    ] {
        assert_eq!(amounts(p.price(model)), (input, output), "{model}");
    }
}

#[test]
fn longest_prefix_wins_in_any_case() {
    let p = pricing("");
    assert_eq!(amounts(p.price("GPT-4o-Mini-2024-07-18")), (0.15, 0.60));
    assert_eq!(amounts(p.price("gpt-4o-2024")), (2.50, 10.00));
    assert_eq!(amounts(p.price("gpt-4-turbo-preview")), (10.00, 30.00));
    assert_eq!(amounts(p.price("gpt-4-0613")), (30.00, 60.00));
    assert_eq!(amounts(p.price("my-gpt-4")), (1.00, 3.00));
    assert_eq!(amounts(p.price_by_name("gpt-4o")), (2.50, 10.00));
    assert_eq!(amounts(p.price_by_name("GPT-4o")), (1.00, 3.00));
}

#[test]
fn overrides_replace_and_extend_the_table() {
    let p = pricing("gpt-4o=2/8, My-Model = 1 / 2 ,gpt-4o-mini-x=9/9,my-model=3/4");
    assert_eq!(amounts(p.price("gpt-4o")), (2.0, 8.0));
    assert_eq!(amounts(p.price("my-model-7b")), (3.0, 4.0));
    assert_eq!(amounts(p.price("gpt-4o-mini-x1")), (9.0, 9.0));
    assert_eq!(amounts(p.price("gpt-4o-mini-y")), (0.15, 0.60));
}

#[test]
fn malformed_overrides_are_skipped() {
    let p = pricing("gpt-4o,gpt-4o=5,gpt-4o=a/b,gpt-4o=1/x,,=,gpt-4=7/8/9");
    assert_eq!(amounts(p.price("gpt-4o")), (2.50, 10.00));
    assert_eq!(amounts(p.price("gpt-4")), (30.00, 60.00));
    // An empty prefix matches every model that nothing longer does.
    assert_eq!(amounts(pricing("=5/6").price("unknown")), (5.0, 6.0));
}

#[test]
fn overrides_are_cut_at_the_first_marks() {
    let list = read_overrides("A=b=c/d/e, x = 1 / 2 ,nothing");
    assert_eq!(list.len(), 2);
    assert_eq!(list[0].model, "a");
    assert_eq!(list[0].input, "b=c");
    assert_eq!(list[0].output, "d/e");
    assert_eq!(list[1].model, "x");
    assert_eq!(list[1].input, "1");
    assert_eq!(list[1].output, "2");
    assert!(read_overrides("").is_empty());
}

#[test]
fn savings_count_four_characters_per_token() {
    let p = pricing("");
    assert_eq!(p.saved("gpt-4o", 4_000_000, 2_000_000, cost), (1_500_000, 7_500_000));
    assert_eq!(p.saved("gpt-4o", 3, 3, cost), (0, 0));
    // 100 input tokens at 2.50 and 25 output tokens at 10.00 per million.
    assert_eq!(p.saved("gpt-4o", 403, 101, cost), (125, 500));
    assert_eq!(p.saved("gpt-4o-mini", 40, 0, cost), (10, 2));
}

#[test]
fn prices_can_be_set_one_by_one() {
    let mut p = pricing("");
    p.set_price("gpt", price(7.0), price(8.0));
    assert_eq!(amounts(p.price("gpt-9")), (7.0, 8.0));
    assert_eq!(amounts(p.price("gpt-4")), (30.0, 60.0));
    p.set_price("gpt", price(1.5), price(2.5));
    assert_eq!(amounts(p.price("gpt-9")), (1.5, 2.5));
}
