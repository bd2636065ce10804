use ldk_node::json::JsonNumber;

fn from_float(x: f64) -> u64 {
    JsonNumber::Binary64 { bits: x.to_bits(), text: x.to_string() }.btc_per_kvb_to_sat_per_kwu()
}

fn float_rate(x: f64) -> u64 {
    (x * 25_000_000.0).round() as u64
}

#[test]
fn usual_rates_are_exact() {
    assert_eq!(from_float(0.00001), 250);
    assert_eq!(from_float(0.0001), 2500);
    assert_eq!(from_float(0.00001234), 309);
    assert_eq!(from_float(0.5), 12_500_000);
    assert_eq!(from_float(0.0), 0);
}

#[test]
fn rates_are_those_of_binary64_arithmetic() {
    let mut x = 1.0e-12;
    while x < 1.0e15 {
        for y in [x, x * 1.1, x * 1.37, x * 1.9999999999999998] {
            assert_eq!(from_float(y), float_rate(y), "{}", y);
        }
        x *= 1.618;
    }
    for sats in 0..20_000u64 {
        let x = sats as f64 / 100_000_000.0;
        assert_eq!(from_float(x), float_rate(x));
    }
}

#[test]
fn halves_round_up() {
    // 2^-7 * 25_000_000 is 195312.5.
    assert_eq!(from_float(0.0078125), 195_313);
    assert_eq!(float_rate(0.0078125), 195_313);
}

#[test]
fn extreme_numbers_saturate() {
    assert_eq!(from_float(f64::MAX), u64::MAX);
    assert_eq!(from_float(f64::INFINITY), u64::MAX);
    assert_eq!(from_float(1.0e12), u64::MAX);
    assert_eq!(from_float(f64::NAN), 0);
    assert_eq!(from_float(-0.5), 0);
    assert_eq!(from_float(-0.0), 0);
    assert_eq!(from_float(f64::NEG_INFINITY), 0);
    assert_eq!(from_float(f64::MIN_POSITIVE), 0);
    assert_eq!(from_float(5.0e-324), 0);
}

#[test]
fn integers_are_rates_too() {
    for n in [0, 1, 2, 3, 360_287_970, 360_287_971, 1 << 40, (1 << 53) + 1, u64::MAX] {
        assert_eq!(
            JsonNumber::PosInt(n).btc_per_kvb_to_sat_per_kwu(),
            float_rate(n as f64),
            "{}",
            n
        );
    }
    assert_eq!(JsonNumber::PosInt(1).btc_per_kvb_to_sat_per_kwu(), 25_000_000);
    assert_eq!(JsonNumber::NegInt(-1).btc_per_kvb_to_sat_per_kwu(), 0);
    assert_eq!(JsonNumber::NegInt(i64::MIN).btc_per_kvb_to_sat_per_kwu(), 0);
    assert_eq!(JsonNumber::NegInt(2).btc_per_kvb_to_sat_per_kwu(), 50_000_000);
}

#[test]
fn a_rate_in_satoshis_comes_out_nearest_to_its_quarter() {
    for k in 0..5_000i64 {
        let rate = from_float(k as f64 / 100_000_000.0) as i64;
        assert!((4 * rate - k).abs() <= 2);
    }
}
