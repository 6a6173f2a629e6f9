use mock_routes::app_requirements::HttpMethods;
use mock_routes::tokenizer::ast::{parse_u16, parse_usize};

#[test]
fn method_lookup_is_case_sensitive_and_exact() {
    assert_eq!(HttpMethods::from_name("GET"), Some(HttpMethods::GET));
    assert_eq!(HttpMethods::from_name("POST"), Some(HttpMethods::POST));
    assert_eq!(HttpMethods::from_name("PUT"), Some(HttpMethods::PUT));
    assert_eq!(HttpMethods::from_name("PATCH"), Some(HttpMethods::PATCH));
    assert_eq!(HttpMethods::from_name("DELETE"), Some(HttpMethods::DELETE));
    assert_eq!(HttpMethods::from_name("get"), None);
    assert_eq!(HttpMethods::from_name("HEAD"), None);
    assert_eq!(HttpMethods::from_name(""), None);
}

#[test]
fn method_names_round_trip_through_lookup() {
    assert_eq!(HttpMethods::GET.name(), "GET");
    assert_eq!(
        HttpMethods::from_name(HttpMethods::DELETE.name()),
        Some(HttpMethods::DELETE)
    );
}

#[test]
fn numeral_parsing_reads_digits_only_and_respects_the_range() {
    assert_eq!(parse_u16("0"), Some(0));
    assert_eq!(parse_u16("0200"), Some(200));
    assert_eq!(parse_u16("65535"), Some(65535));
    assert_eq!(parse_u16("65536"), None);
    assert_eq!(parse_u16(""), None);
    assert_eq!(parse_u16("12a"), None);
    assert_eq!(parse_u16("-1"), None);
    assert_eq!(parse_usize("18446744073709551615"), Some(usize::MAX));
    assert_eq!(parse_usize("18446744073709551616"), None);
    assert_eq!(parse_usize("7"), Some(7));
}
