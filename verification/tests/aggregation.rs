use price_gauge::{compute_statistics, AggregationError, Price, PriceSample};

fn sample(price: &str, time: u64) -> PriceSample {
    PriceSample { price_usd: price.to_string(), time }
}

#[test]
fn test_get_coin_info() {
    let coin_data = vec![
        sample("13.8", 1356998400000),
        sample("13.98", 1357084800000),
        sample("13.9", 1357084800000),
    ];
    let coin_info = compute_statistics(&coin_data, "bitcoin");
    assert!(coin_info.is_ok());
    let coin_info = coin_info.unwrap();
    assert_eq!(coin_info.name, "bitcoin");
    assert_eq!(coin_info.high, Price::parse("13.98").unwrap());
    assert_eq!(coin_info.low, Price::parse("13.8").unwrap());
    assert_eq!(coin_info.current, Price::parse("13.9").unwrap());
}

#[test]
fn high_is_max_low_is_min_skipping_unparsable() {
    let series = vec![
        sample("10", 1),
        sample("bogus", 2),
        sample("2.5", 3),
        sample("7", 4),
    ];
    let stats = compute_statistics(&series, "asset").unwrap();
    assert_eq!(stats.high, Price::parse("10").unwrap());
    assert_eq!(stats.low, Price::parse("2.5").unwrap());
    assert_eq!(stats.current, Price::parse("7").unwrap());
}

#[test]
fn current_is_last_not_max() {
    // The last sample is the smallest price: current tracks it anyway.
    let series = vec![sample("100", 1), sample("50", 2), sample("1", 3)];
    let stats = compute_statistics(&series, "asset").unwrap();
    assert_eq!(stats.high, Price::parse("100").unwrap());
    assert_eq!(stats.low, Price::parse("1").unwrap());
    assert_eq!(stats.current, Price::parse("1").unwrap());
}

#[test]
fn empty_series_yields_sentinels_and_zero_current() {
    let series: Vec<PriceSample> = Vec::new();
    let stats = compute_statistics(&series, "empty").unwrap();
    assert_eq!(stats.current.units, 0);
    assert_eq!(stats.high, Price::negative_sentinel());
    assert_eq!(stats.low, Price::positive_sentinel());
    // The empty series is the one case where current exceeds the high.
    assert!(stats.current.units > stats.high.units);
}

#[test]
fn unparsable_last_sample_is_a_hard_error() {
    let series = vec![sample("13.8", 1), sample("oops", 2)];
    let err = compute_statistics(&series, "asset");
    assert_eq!(err.unwrap_err(), AggregationError::UnparsablePrice);
}

#[test]
fn unparsable_middle_sample_is_skipped_silently() {
    let series = vec![sample("not-a-number", 1), sample("4", 2)];
    let stats = compute_statistics(&series, "asset").unwrap();
    assert_eq!(stats.high, Price::parse("4").unwrap());
    assert_eq!(stats.low, Price::parse("4").unwrap());
    assert_eq!(stats.current, Price::parse("4").unwrap());
}

#[test]
fn all_samples_unparsable_fails_on_last() {
    let series = vec![sample("x", 1), sample("y", 2)];
    assert_eq!(
        compute_statistics(&series, "asset").unwrap_err(),
        AggregationError::UnparsablePrice
    );
}

#[test]
fn aggregation_is_deterministic() {
    let series = vec![sample("3.25", 1), sample("junk", 2), sample("9.5", 3)];
    let a = compute_statistics(&series, "asset").unwrap();
    let b = compute_statistics(&series, "asset").unwrap();
    assert_eq!(a.name, b.name);
    assert_eq!(a.high, b.high);
    assert_eq!(a.low, b.low);
    assert_eq!(a.current, b.current);
}
