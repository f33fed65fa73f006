use btc_wealth::category::WealthCategory;
use btc_wealth::distribution::{BitcoinDistribution, DataProcessor, PercentileCalculator, WealthRange};
use btc_wealth::percentile::{validate_bitcoin_amount, CalcError};
use btc_wealth::validate::{ValidationError, ValidationWarning};

const BTC: u64 = 100_000_000;

fn bucket(min: u64, max: Option<u64>, count: u64, sats: u64, pa: u64, ps: u64) -> WealthRange {
    WealthRange {
        min_sats: min,
        max_sats: max,
        address_count: count,
        total_sats: sats,
        percentage_of_addresses: pa,
        percentage_of_supply: ps,
    }
}

fn dist(ranges: Vec<WealthRange>, total: u64, supply: u64) -> BitcoinDistribution {
    BitcoinDistribution {
        ranges,
        total_addresses: total,
        total_supply: supply,
        timestamp: 0,
        data_source: "test".to_string(),
    }
}

/// [0, 1) with 90 addresses holding 10 coins; [1, open) with 10 holding 90.
fn two_buckets() -> BitcoinDistribution {
    dist(
        vec![
            bucket(0, Some(BTC), 90, 10 * BTC, 900_000, 100_000),
            bucket(BTC, None, 10, 90 * BTC, 100_000, 900_000),
        ],
        100,
        100 * BTC,
    )
}

#[test]
fn category_boundaries() {
    assert_eq!(WealthCategory::from_btc_amount(0), WealthCategory::Dust);
    assert_eq!(WealthCategory::from_btc_amount(99_999), WealthCategory::Dust);
    assert_eq!(WealthCategory::from_btc_amount(100_000), WealthCategory::Shrimp);
    assert_eq!(WealthCategory::from_btc_amount(BTC - 1), WealthCategory::Fish);
    assert_eq!(WealthCategory::from_btc_amount(BTC), WealthCategory::Dolphin);
    assert_eq!(WealthCategory::from_btc_amount(1000 * BTC), WealthCategory::Humpback);
    assert_eq!(WealthCategory::Shrimp.as_str(), "Shrimp");
    assert_eq!(WealthCategory::Humpback.btc_range(), "1000+ BTC");
    assert_eq!(WealthCategory::Shark.color_class(), "text-orange-500");
    assert_eq!(WealthCategory::Crab.emoji(), "\u{1F980}");
    assert!(WealthCategory::Dust.description().starts_with("Minimal"));
}

#[test]
fn percentile_in_closed_bucket() {
    let calc = PercentileCalculator::new();
    let r = calc.calculate_user_percentile(BTC / 2, &two_buckets()).unwrap();
    assert_eq!(r.percentile, 450_000);
    assert_eq!(r.addresses_below, 45_000_000);
    assert_eq!(r.rank, 55_000_000);
    assert_eq!(r.addresses_above, 55_000_000);
    assert_eq!(r.wealth_category, WealthCategory::Fish);
    assert_eq!(r.comparison_metrics.vs_median_ratio, 1_000_000);
    assert_eq!(r.comparison_metrics.vs_mean_ratio, 90_909);
    assert_eq!(r.comparison_metrics.supply_share, 5_000);
    assert_eq!(r.comparison_metrics.days_at_thousandth_per_day, 500);
    assert_eq!(r.comparison_metrics.days_at_hundredth_per_day, 50);
    assert_eq!(r.comparison_metrics.days_at_tenth_per_day, 5);
}

#[test]
fn percentile_in_open_bucket() {
    let calc = PercentileCalculator::new();
    let r = calc.calculate_user_percentile(2 * BTC, &two_buckets()).unwrap();
    assert_eq!(r.percentile, 915_051);
    assert_eq!(r.addresses_below, 91_505_140);
    assert_eq!(r.rank, 8_494_860);
    assert_eq!(r.wealth_category, WealthCategory::Dolphin);
    let r = calc.calculate_user_percentile(10 * BTC, &two_buckets()).unwrap();
    assert_eq!(r.percentile, 950_000);
    let r = calc.calculate_user_percentile(5000 * BTC, &two_buckets()).unwrap();
    assert_eq!(r.percentile, 999_000);
}

#[test]
fn amount_at_percentile_inverts_lookup() {
    let calc = PercentileCalculator::new();
    let d = two_buckets();
    assert_eq!(calc.calculate_amount_at_percentile(450_000, &d), BTC / 2);
    assert_eq!(calc.calculate_amount_at_percentile(950_000, &d), 10 * BTC);
    assert_eq!(calc.calculate_amount_at_percentile(0, &d), 0);
    for p in [1u64, 10_000, 250_000, 450_000, 899_999, 900_000] {
        let a = calc.calculate_amount_at_percentile(p, &d);
        assert_eq!(calc.calculate_user_percentile(a, &d).unwrap().percentile, p);
    }
    for p in [900_001u64, 950_000, 990_000, 998_000] {
        let a = calc.calculate_amount_at_percentile(p, &d);
        let back = calc.calculate_user_percentile(a, &d).unwrap().percentile;
        assert!(back >= p && back <= p + 5_000, "{} {} {}", p, a, back);
        let below = calc.calculate_user_percentile(a - 1, &d).unwrap().percentile;
        assert!(below < p, "{} {} {}", p, a, below);
    }
}

#[test]
fn thresholds_for_canonical_percentiles() {
    let calc = PercentileCalculator::new();
    let t = calc.calculate_percentile_thresholds(&two_buckets()).unwrap();
    let expected: Vec<(u64, u64)> = vec![
        (10_000, 1_111_112),
        (50_000, 5_555_556),
        (100_000, 11_111_112),
        (250_000, 27_777_778),
        (500_000, 55_555_556),
        (750_000, 83_333_334),
        (900_000, 100_000_000),
        (950_000, 1_000_000_000),
        (990_000, 6_309_590_072),
        (999_000, 9_549_957_736),
    ];
    assert_eq!(t, expected);
}

#[test]
fn threshold_past_every_bucket_is_highest_edge() {
    let calc = PercentileCalculator::new();
    let d = dist(vec![bucket(0, Some(BTC), 10, BTC, 400_000, 1_000_000)], 10, BTC);
    assert_eq!(calc.calculate_amount_at_percentile(500_000, &d), BTC);
}

#[test]
fn percentile_is_monotone_on_samples() {
    let calc = PercentileCalculator::new();
    let d = two_buckets();
    let mut last = 0u64;
    for a in [0u64, 1, 1000, BTC / 3, BTC - 1, BTC, BTC + 1, 3 * BTC, 99 * BTC, 100 * BTC, 20_000 * BTC] {
        let p = calc.calculate_user_percentile(a, &d).unwrap().percentile;
        assert!(p >= last);
        last = p;
    }
}

#[test]
fn invalid_inputs_are_errors() {
    let calc = PercentileCalculator::new();
    let over = 2_100_000_000_000_001u64;
    assert_eq!(calc.calculate_user_percentile(over, &two_buckets()), Err(CalcError::InvalidAmount));
    assert_eq!(validate_bitcoin_amount(over), Err(CalcError::InvalidAmount));
    assert_eq!(validate_bitcoin_amount(21_000_000 * BTC), Ok(()));
    let empty = dist(vec![], 100, BTC);
    assert_eq!(
        DataProcessor::new().validate_distribution(&empty),
        Err(ValidationError::EmptyRanges)
    );
    assert_eq!(
        calc.calculate_user_percentile(BTC, &empty),
        Err(CalcError::Invalid(ValidationError::EmptyRanges))
    );
}

#[test]
fn amount_outside_every_bucket() {
    let calc = PercentileCalculator::new();
    let d = dist(vec![bucket(0, Some(BTC), 10, BTC, 1_000_000, 1_000_000)], 10, BTC);
    assert_eq!(calc.calculate_user_percentile(2 * BTC, &d), Err(CalcError::NotInAnyRange));
    assert_eq!(DataProcessor::new().find_range_for_amount(2 * BTC, &d), None);
    assert_eq!(DataProcessor::new().find_range_for_amount(BTC / 2, &d), Some(d.ranges[0]));
}

#[test]
fn validation_errors_in_order() {
    let dp = DataProcessor::new();
    let good = bucket(0, Some(BTC), 10, BTC, 1_000_000, 1_000_000);
    assert_eq!(dp.validate_distribution(&dist(vec![good], 0, BTC)), Err(ValidationError::ZeroTotalAddresses));
    assert_eq!(dp.validate_distribution(&dist(vec![good], 10, 0)), Err(ValidationError::NonPositiveSupply));
    assert_eq!(
        dp.validate_distribution(&dist(vec![good], 10, 21_000_001 * BTC)),
        Err(ValidationError::SupplyExceedsCap)
    );
    let flat = bucket(BTC, Some(BTC), 1, 0, 0, 0);
    assert_eq!(dp.validate_distribution(&dist(vec![good, flat], 10, BTC)), Err(ValidationError::InvalidBounds(1)));
    let pa = bucket(0, Some(BTC), 1, 0, 1_000_001, 0);
    assert_eq!(dp.validate_distribution(&dist(vec![pa], 10, BTC)), Err(ValidationError::InvalidAddressPercentage(0)));
    let ps = bucket(0, None, 1, 0, 0, 1_000_001);
    assert_eq!(dp.validate_distribution(&dist(vec![ps], 10, BTC)), Err(ValidationError::InvalidSupplyPercentage(0)));
    let huge = bucket(0, Some(BTC), u64::MAX, 0, 0, 0);
    assert_eq!(
        dp.validate_distribution(&dist(vec![huge, huge], 10, BTC)),
        Err(ValidationError::AddressCountOverflow)
    );
}

#[test]
fn validation_warnings() {
    let dp = DataProcessor::new();
    assert_eq!(dp.validate_distribution(&two_buckets()), Ok(vec![]));
    let d = dist(
        vec![
            bucket(2 * BTC, None, 10, 90 * BTC, 100_000, 800_000),
            bucket(0, Some(BTC), 80, 10 * BTC, 900_000, 100_000),
        ],
        100,
        100 * BTC,
    );
    assert_eq!(
        dp.validate_distribution(&d),
        Ok(vec![
            ValidationWarning::AddressCountMismatch,
            ValidationWarning::SupplyShareSum,
            ValidationWarning::Discontinuity(BTC, 2 * BTC),
        ])
    );
}

#[test]
fn statistics_of_two_buckets() {
    let s = DataProcessor::new().calculate_statistics(&two_buckets());
    assert_eq!(s.gini_coefficient, 800_000);
    assert_eq!(s.mean_amount, 550_000_000);
    assert_eq!(s.median_amount, 50_000_000);
    assert_eq!(s.top_1_percent_wealth, 90_000);
    assert_eq!(s.top_5_percent_wealth, 450_000);
    assert_eq!(s.top_10_percent_wealth, 900_000);
    assert_eq!(s.hhi_index, 820_000);
}

#[test]
fn gini_of_equal_shares_is_zero() {
    let d = dist(
        vec![
            bucket(0, Some(BTC), 25, 25 * BTC, 250_000, 250_000),
            bucket(BTC, Some(2 * BTC), 25, 25 * BTC, 250_000, 250_000),
            bucket(2 * BTC, Some(3 * BTC), 25, 25 * BTC, 250_000, 250_000),
            bucket(3 * BTC, None, 25, 25 * BTC, 250_000, 250_000),
        ],
        100,
        100 * BTC,
    );
    assert_eq!(DataProcessor::new().calculate_statistics(&d).gini_coefficient, 0);
}

#[test]
fn gini_with_all_supply_on_top() {
    let d = dist(
        vec![
            bucket(0, Some(BTC), 999, 0, 999_000, 0),
            bucket(BTC, None, 1, 100 * BTC, 1_000, 1_000_000),
        ],
        1000,
        100 * BTC,
    );
    let s = DataProcessor::new().calculate_statistics(&d);
    assert_eq!(s.gini_coefficient, 999_000);
    assert_eq!(s.hhi_index, 1_000_000);
}

#[test]
fn concentration_of_everyone_is_whole_supply() {
    let calc = PercentileCalculator::new();
    let c = calc.calculate_wealth_concentration(&two_buckets()).unwrap();
    assert_eq!(c.gini_coefficient, 800_000);
    assert_eq!(c.hhi_index, 820_000);
    assert_eq!(
        c.concentration_ratios,
        vec![(1_000, 9_000), (5_000, 45_000), (10_000, 90_000), (50_000, 450_000), (100_000, 900_000), (250_000, 916_666)]
    );
    assert_eq!(c.percentile_thresholds, calc.calculate_percentile_thresholds(&two_buckets()).unwrap());
}

#[test]
fn sorting_keeps_equal_floors_in_order() {
    let dp = DataProcessor::new();
    let a = bucket(5, Some(9), 1, 0, 0, 0);
    let b = bucket(0, Some(5), 2, 0, 0, 0);
    let c = bucket(5, Some(7), 3, 0, 0, 0);
    let mut v = vec![a, b, c];
    dp.sort_ranges(&mut v);
    assert_eq!(v, vec![b, a, c]);
}

#[test]
fn merging_overlapping_buckets() {
    let dp = DataProcessor::new();
    let a = bucket(0, Some(10), 1, 5, 100, 200);
    let b = bucket(5, Some(20), 2, 6, 300, 400);
    let c = bucket(30, None, 4, 7, 500, 600);
    let d = bucket(40, Some(50), 8, 1, 1, 1);
    let m = dp.merge_ranges(vec![c, b, a]);
    assert_eq!(m, vec![bucket(0, Some(20), 3, 11, 400, 600), c]);
    let m = dp.merge_ranges(vec![d, c]);
    assert_eq!(m, vec![bucket(30, None, 12, 8, 501, 601)]);
    assert_eq!(dp.merge_ranges(vec![]), vec![]);
    let big = bucket(0, Some(10), u64::MAX, 0, 0, 0);
    assert_eq!(dp.merge_ranges(vec![big, big])[0].address_count, u64::MAX);
}

#[test]
fn cumulative_shares() {
    let dp = DataProcessor::new();
    let c = dp.calculate_cumulative_distribution(&two_buckets());
    assert_eq!(c, vec![(Some(BTC), 900_000, 100_000), (None, 1_000_000, 1_000_000)]);
}

#[test]
fn top_hundred_percent_holds_everything() {
    let calc = PercentileCalculator::new();
    assert_eq!(calc.calculate_top_percent_wealth(1_000_000, &two_buckets()), 1_000_000);
    assert_eq!(calc.calculate_top_percent_wealth(0, &two_buckets()), 0);
    assert_eq!(calc.calculate_top_percent_wealth(550_000, &two_buckets()), 950_000);
}

#[test]
fn threshold_inverts_share_without_rounding() {
    let calc = PercentileCalculator::new();
    let d = dist(
        vec![
            bucket(0, Some(7_000_000), 7, 7_000_000, 700_000, 10_000),
            bucket(7_000_000, None, 3, 100 * BTC, 300_000, 990_000),
        ],
        10,
        100 * BTC,
    );
    assert_eq!(calc.calculate_amount_at_percentile(1, &d), 10);
    assert_eq!(calc.calculate_user_percentile(10, &d).unwrap().percentile, 1);
    assert_eq!(calc.calculate_user_percentile(9, &d).unwrap().percentile, 0);
}

#[test]
fn bounds_above_supply_cap_are_accepted() {
    let dp = DataProcessor::new();
    let wide = bucket(0, Some(22_000_000 * BTC), 10, BTC, 1_000_000, 1_000_000);
    assert_eq!(dp.validate_distribution(&dist(vec![wide], 10, BTC)), Ok(vec![]));
    let pa = bucket(22_000_000 * BTC, None, 1, 0, 1_000_001, 0);
    assert_eq!(
        dp.validate_distribution(&dist(vec![wide, pa], 10, BTC)),
        Err(ValidationError::InvalidAddressPercentage(1))
    );
    let too_high = bucket(u64::MAX / 50, None, 1, 0, 0, 0);
    assert_eq!(
        dp.validate_distribution(&dist(vec![too_high], 10, BTC)),
        Err(ValidationError::InvalidBounds(0))
    );
}

#[test]
fn percentile_is_capped_at_one_whole() {
    let calc = PercentileCalculator::new();
    let d = dist(vec![bucket(0, Some(BTC), 100, BTC, 1_000_000, 1_000_000)], 1, BTC);
    let r = calc.calculate_user_percentile(BTC / 2, &d).unwrap();
    assert_eq!(r.percentile, 1_000_000);
    assert_eq!(r.addresses_below, 50_000_000);
    assert_eq!(r.rank, 0);
}

#[test]
fn percentile_and_addresses_below_agree() {
    let calc = PercentileCalculator::new();
    let d = dist(vec![bucket(0, Some(2), 1, 2, 1_000_000, 1_000_000)], 1, 2);
    let r = calc.calculate_user_percentile(1, &d).unwrap();
    assert_eq!(r.percentile, 500_000);
    assert_eq!(r.addresses_below, 500_000);
    assert_eq!(r.rank, 500_000);
}
