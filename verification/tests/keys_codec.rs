use eccer::error::Error;
use eccer::keys::EndpointKey;
use eccer::keys::PrefixedKey;
use eccer::keys::PropertyKey;

fn key(service: &str, instance: &str, endpoint: &str) -> EndpointKey {
    EndpointKey {
        service_name: service.to_owned(),
        instance_name: instance.to_owned(),
        endpoint_name: endpoint.to_owned(),
    }
}

#[test]
fn endpoint_key_encodes_as_delimiter_join() {
    assert_eq!(key("a", "1", "web").encode(), "a/1/web");
    assert_eq!(key("myservice", "1", "https").encode(), "myservice/1/https");
}

#[test]
fn endpoint_key_round_trip() {
    let k = key("myservice", "1", "https");
    let decoded = EndpointKey::decode(&k.encode()).unwrap();
    assert_eq!(decoded, k);
}

#[test]
fn round_trip_nested_under_property_and_prefix() {
    // The round-trip law holds nested under any property name and any
    // global prefix.
    let k = key("svc", "inst", "ep");
    let storage = PrefixedKey::new(
        "eccer".to_owned(),
        PropertyKey::new("url".to_owned(), k.encode()).encode(),
    )
    .encode();
    assert_eq!(storage, "eccer/url/svc/inst/ep");

    let outer = PrefixedKey::decode(&storage).unwrap();
    assert_eq!(outer.prefix, "eccer");
    let property = PropertyKey::decode(&outer.key).unwrap();
    assert_eq!(property.inner.prefix, "url");
    let inner = EndpointKey::decode(&property.inner.key).unwrap();
    assert_eq!(inner, k);
}

#[test]
fn empty_inner_key_marks_the_scan_boundary() {
    let scan = PrefixedKey::new(
        "eccer".to_owned(),
        PropertyKey::new("url".to_owned(), String::new()).encode(),
    )
    .encode();
    assert_eq!(scan, "eccer/url/");
}

#[test]
fn decode_rejects_too_few_segments() {
    assert_eq!(EndpointKey::decode("noslashes").unwrap_err(), Error::MalformedKey);
    assert_eq!(EndpointKey::decode("a/b").unwrap_err(), Error::MalformedKey);
    assert_eq!(PrefixedKey::decode("nodelimiter").unwrap_err(), Error::MalformedKey);
}

#[test]
fn decode_takes_the_first_two_delimiters() {
    let k = EndpointKey::decode("a/b/c/d").unwrap();
    assert_eq!(k.service_name, "a");
    assert_eq!(k.instance_name, "b");
    assert_eq!(k.endpoint_name, "c/d");
}

#[test]
fn decode_keeps_empty_segments() {
    let k = EndpointKey::decode("a//b").unwrap();
    assert_eq!(k.service_name, "a");
    assert_eq!(k.instance_name, "");
    assert_eq!(k.endpoint_name, "b");
}
