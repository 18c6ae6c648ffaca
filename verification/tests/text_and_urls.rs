use evetrade::text::{decimal_string, format_number, parse_bool, parse_u32, push_decimal, same_text};
use evetrade::urls::{get_esi_scrape_url, get_gatecamp_url, get_market_browser_url, get_market_data_url};

#[test]
fn decimal_string_writes_digits() {
    assert_eq!(decimal_string(0), "0");
    assert_eq!(decimal_string(7), "7");
    assert_eq!(decimal_string(10), "10");
    assert_eq!(decimal_string(1234567), "1234567");
    assert_eq!(decimal_string(u64::MAX), "18446744073709551615");
}

#[test]
fn push_decimal_appends() {
    let mut s = String::from("id=");
    push_decimal(&mut s, 305);
    assert_eq!(s, "id=305");
}

#[test]
fn format_number_groups_thousands() {
    assert_eq!(format_number(0), "0");
    assert_eq!(format_number(999), "999");
    assert_eq!(format_number(1000), "1,000");
    assert_eq!(format_number(1234567), "1,234,567");
    assert_eq!(format_number(123456), "123,456");
    assert_eq!(format_number(-5), "-5");
    assert_eq!(format_number(-1234), "-1,234");
    assert_eq!(format_number(-20_000_000), "-20,000,000");
    assert_eq!(format_number(i64::MAX), "9,223,372,036,854,775,807");
    assert_eq!(format_number(i64::MIN + 1), "-9,223,372,036,854,775,807");
}

#[test]
fn format_number_without_commas_is_the_number() {
    for v in [0i64, 5, 12, 999, 1000, 65536, 7_000_001, -42, -123_456_789] {
        let text = format_number(v);
        let digits: String = text.chars().filter(|c| *c != ',' && *c != '-').collect();
        assert_eq!(digits, v.unsigned_abs().to_string());
        assert_eq!(text.starts_with('-'), v < 0);
    }
}

#[test]
fn parse_u32_follows_str_parse() {
    let cases = ["42", "+7", "-1", "", "+", "-", "4294967295", "4294967296", "12a", "0.0", "007", " 1", "99999999999999999999"];
    for c in cases {
        assert_eq!(parse_u32(c), c.parse::<u32>().ok(), "input {:?}", c);
    }
    assert_eq!(parse_u32("42"), Some(42));
    assert_eq!(parse_u32("0.0"), None);
}

#[test]
fn printed_numbers_parse_back() {
    for n in [0u32, 1, 9, 10, 4096, 60003760, u32::MAX] {
        assert_eq!(parse_u32(&decimal_string(n as u64)), Some(n));
    }
}

#[test]
fn parse_bool_accepts_true_and_false_only() {
    assert_eq!(parse_bool("true"), Some(true));
    assert_eq!(parse_bool("false"), Some(false));
    assert_eq!(parse_bool("True"), None);
    assert_eq!(parse_bool(""), None);
    assert_eq!(parse_bool("1"), None);
}

#[test]
fn same_text_compares_characters() {
    assert!(same_text("Jita", "Jita"));
    assert!(!same_text("Jita", "jita"));
    assert!(!same_text("Jita", "Jit"));
}

#[test]
fn data_source_urls() {
    assert_eq!(get_esi_scrape_url(), "https://data.everef.net/esi-scrape/eve-ref-esi-scrape-latest.tar.xz");
    assert_eq!(get_market_data_url(), "https://data.everef.net/market-orders/market-orders-latest.v3.csv.bz2");
}

#[test]
fn market_browser_url_names_the_type() {
    assert_eq!(get_market_browser_url(34), "https://evemarketbrowser.com/region/0/type/34");
    assert_eq!(get_market_browser_url(0), "https://evemarketbrowser.com/region/0/type/0");
}

#[test]
fn gatecamp_url_of_short_paths_is_empty() {
    assert_eq!(get_gatecamp_url(vec![], "secure"), "");
    assert_eq!(get_gatecamp_url(vec!["Jita".to_string()], "secure"), "");
}

#[test]
fn gatecamp_url_lists_endpoints_then_middle_systems() {
    let three = vec!["Jita".to_string(), "Perimeter".to_string(), "Urlen".to_string()];
    assert_eq!(get_gatecamp_url(three, "secure"), "https://eve-gatecheck.space/eve/#Jita:Urlen:secure");
    let five = vec![
        "Jita".to_string(),
        "Perimeter".to_string(),
        "Sobaseki".to_string(),
        "Urlen".to_string(),
        "Amarr".to_string(),
    ];
    assert_eq!(
        get_gatecamp_url(five, "shortest"),
        "https://eve-gatecheck.space/eve/#Jita:Amarr,Sobaseki,Urlen:shortest"
    );
}
