use btc_wealth::api::{ApiConfig, ApiResponse};
use btc_wealth::format::{format_number_with_commas, format_rank};
use btc_wealth::theme::Theme;

#[test]
fn ranks_with_suffixes() {
    assert_eq!(format_rank(1), "1st");
    assert_eq!(format_rank(2), "2nd");
    assert_eq!(format_rank(3), "3rd");
    assert_eq!(format_rank(4), "4th");
    assert_eq!(format_rank(11), "11th");
    assert_eq!(format_rank(12), "12th");
    assert_eq!(format_rank(13), "13th");
    assert_eq!(format_rank(22), "22nd");
    assert_eq!(format_rank(111), "111th");
    assert_eq!(format_rank(1_001), "1,001st");
    assert_eq!(format_rank(1_234_567), "1,234,567th");
}

#[test]
fn numbers_with_commas() {
    assert_eq!(format_number_with_commas(0), "0");
    assert_eq!(format_number_with_commas(999), "999");
    assert_eq!(format_number_with_commas(1000), "1,000");
    assert_eq!(format_number_with_commas(100_000), "100,000");
    assert_eq!(format_number_with_commas(u64::MAX), "18,446,744,073,709,551,615");
}

#[test]
fn api_values() {
    let c = ApiConfig::default();
    assert_eq!(c.base_url, "https://bitinfocharts.com/api");
    assert_eq!(c.timeout_ms, 10_000);
    assert_eq!(c.retry_count, 3);
    assert!(c.api_key.is_none());
    let ok = ApiResponse::success(7u32, 42);
    assert!(ok.success);
    assert_eq!(ok.data, Some(7));
    assert_eq!(ok.timestamp, 42);
    let err: ApiResponse<u32> = ApiResponse::error("down".to_string(), 5);
    assert!(!err.success);
    assert_eq!(err.error, Some("down".to_string()));
}

#[test]
fn theme_names() {
    assert_eq!(Theme::Light.to_string(), "light");
    assert_eq!(Theme::Dark.to_string(), "dark");
    assert_eq!(Theme::from_string("dark"), Some(Theme::Dark));
    assert_eq!(Theme::from_string("light"), Some(Theme::Light));
    assert_eq!(Theme::from_string("Dark"), None);
    assert_eq!(Theme::from_string(""), None);
    assert_eq!(Theme::Light.toggle(), Theme::Dark);
    assert_eq!(Theme::Dark.toggle(), Theme::Light);
    assert_eq!(Theme::default(), Theme::Light);
}
