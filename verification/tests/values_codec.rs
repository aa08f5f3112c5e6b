use eccer::error::Error;
use eccer::opt::Command;
use eccer::values::EndpointUrl;
use eccer::values::Timestamp;
use eccer::values::format_u64;
use eccer::values::parse_u64;

#[test]
fn url_parsing_normalizes() {
    // The parsed form carries the serialization, not the input text.
    let u = EndpointUrl::parse("https://example.com").unwrap();
    assert_eq!(u.as_str(), "https://example.com/");
    let v = EndpointUrl::parse("HTTPS://EXAMPLE.COM/Path").unwrap();
    assert_eq!(v.as_str(), "https://example.com/Path");
}

#[test]
fn url_parsing_rejects_relative_references() {
    assert_eq!(EndpointUrl::parse("not a url at all").unwrap_err(), Error::MalformedUrl);
    assert_eq!(EndpointUrl::parse("/only/a/path").unwrap_err(), Error::MalformedUrl);
}

#[test]
fn timestamp_parsing_normalizes() {
    // The `Z` suffix re-serializes as the explicit zero offset.
    let t = Timestamp::parse("2020-01-01T00:00:00Z").unwrap();
    assert_eq!(t.as_str(), "2020-01-01T00:00:00+00:00");
    let u = Timestamp::parse("2020-01-01T01:30:00+01:30").unwrap();
    assert_eq!(u.as_str(), "2020-01-01T00:00:00+00:00");
}

#[test]
fn timestamp_parsing_rejects_garbage() {
    assert_eq!(Timestamp::parse("yesterday-ish").unwrap_err(), Error::MalformedDate);
}

#[test]
fn the_clock_yields_a_parseable_instant() {
    let now = Timestamp::now();
    let reparsed = Timestamp::parse(now.as_str()).unwrap();
    assert_eq!(reparsed.as_str(), now.as_str());
}

#[test]
fn counters_format_as_plain_decimal() {
    assert_eq!(format_u64(0), "0");
    assert_eq!(format_u64(7), "7");
    assert_eq!(format_u64(105), "105");
    assert_eq!(format_u64(u64::MAX), "18446744073709551615");
}

#[test]
fn counters_parse_back() {
    assert_eq!(parse_u64("0"), Some(0));
    assert_eq!(parse_u64("105"), Some(105));
    assert_eq!(parse_u64("007"), Some(7));
    assert_eq!(parse_u64("18446744073709551615"), Some(u64::MAX));
    assert_eq!(parse_u64("18446744073709551616"), None);
    assert_eq!(parse_u64(""), None);
    assert_eq!(parse_u64("7seven"), None);
    assert_eq!(parse_u64("-1"), None);
}

#[test]
fn the_default_role_is_the_server() {
    assert_eq!(Command::default(), Command::Server);
}
