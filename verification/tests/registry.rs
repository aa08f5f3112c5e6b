use eccer::db::Db;
use eccer::error::Error;
use eccer::keys::EndpointKey;
use eccer::kv::KvClient;
use eccer::kv::MemKv;
use eccer::values::EndpointUrl;
use eccer::values::Timestamp;

fn key(service: &str, instance: &str, endpoint: &str) -> EndpointKey {
    EndpointKey {
        service_name: service.to_owned(),
        instance_name: instance.to_owned(),
        endpoint_name: endpoint.to_owned(),
    }
}

fn fresh_db() -> Db<MemKv> {
    Db::new(MemKv::new(), "eccer".to_owned())
}

#[test]
fn register_then_get_returns_the_url() {
    let mut db = fresh_db();
    let k = key("a", "1", "web");
    let url = EndpointUrl::parse("https://example.com/health").unwrap();
    db.add_endpoint_url(&k, &url).unwrap();
    let got = db.get_endpoint_url(&k).unwrap();
    assert_eq!(got.as_str(), url.as_str());
}

#[test]
fn get_on_unregistered_key_is_not_found() {
    let db = fresh_db();
    assert_eq!(db.get_endpoint_url(&key("a", "1", "web")).unwrap_err(), Error::NotFound);
}

#[test]
fn reregistration_overwrites() {
    let mut db = fresh_db();
    let k = key("a", "1", "web");
    let first = EndpointUrl::parse("https://old.example.com/").unwrap();
    let second = EndpointUrl::parse("https://new.example.com/").unwrap();
    db.add_endpoint_url(&k, &first).unwrap();
    db.add_endpoint_url(&k, &second).unwrap();
    assert_eq!(db.get_endpoint_url(&k).unwrap().as_str(), second.as_str());
}

#[test]
fn enumeration_returns_exactly_the_registered_set() {
    let mut db = fresh_db();
    let keys = [key("a", "1", "web"), key("a", "2", "web"), key("b", "1", "rpc")];
    for (i, k) in keys.iter().enumerate() {
        let url = EndpointUrl::parse(&format!("https://host{}.example.com/", i)).unwrap();
        db.add_endpoint_url(k, &url).unwrap();
    }
    let mut records = db.get_all_endpoint_urls().unwrap();
    assert_eq!(records.len(), 3);
    records.sort_by(|r, s| r.key.encode().cmp(&s.key.encode()));
    assert_eq!(records[0].key, keys[0]);
    assert_eq!(records[1].key, keys[1]);
    assert_eq!(records[2].key, keys[2]);
    assert_eq!(records[2].url.as_str(), "https://host2.example.com/");
}

#[test]
fn scenario_register_read_enumerate() {
    let mut db = fresh_db();
    let k = key("a", "1", "web");
    let url = EndpointUrl::parse("https://example.com").unwrap();
    db.add_endpoint_url(&k, &url).unwrap();
    // The url crate serializes the authority form with a trailing slash.
    assert_eq!(db.get_endpoint_url(&k).unwrap().as_str(), "https://example.com/");
    let records = db.get_all_endpoint_urls().unwrap();
    assert_eq!(records.len(), 1);
    assert_eq!(records[0].key, k);
    assert_eq!(records[0].url.as_str(), "https://example.com/");
}

#[test]
fn stats_default_on_a_key_with_only_a_url() {
    let mut db = fresh_db();
    let k = key("a", "1", "web");
    let url = EndpointUrl::parse("https://example.com/").unwrap();
    db.add_endpoint_url(&k, &url).unwrap();
    let stats = db.get_endpoint_stats(&k).unwrap();
    assert_eq!(stats.key, k);
    assert_eq!(stats.url.as_str(), "https://example.com/");
    assert!(stats.last_success.is_none());
    assert!(stats.last_failure.is_none());
    assert_eq!(stats.success_count, 0);
    assert_eq!(stats.failure_count, 0);
}

#[test]
fn stats_on_unregistered_key_is_not_found() {
    let db = fresh_db();
    assert_eq!(db.get_endpoint_stats(&key("a", "1", "web")).unwrap_err(), Error::NotFound);
}

#[test]
fn counting_five_successes() {
    let mut db = fresh_db();
    let k = key("a", "1", "web");
    let url = EndpointUrl::parse("https://example.com/").unwrap();
    db.add_endpoint_url(&k, &url).unwrap();
    let stamps = [
        "2020-01-01T00:00:01Z",
        "2020-01-01T00:00:02Z",
        "2020-01-01T00:00:03Z",
        "2020-01-01T00:00:04Z",
        "2020-01-01T00:00:05Z",
    ];
    for (i, text) in stamps.iter().enumerate() {
        let ts = Timestamp::parse(text).unwrap();
        let count = db.record_endpoint_success(&k, &ts).unwrap();
        assert_eq!(count, i as u64 + 1);
    }
    let stats = db.get_endpoint_stats(&k).unwrap();
    assert_eq!(stats.success_count, 5);
    assert_eq!(stats.failure_count, 0);
    // The most recent call's timestamp, in its re-serialized form.
    assert_eq!(stats.last_success.unwrap().as_str(), "2020-01-01T00:00:05+00:00");
    assert!(stats.last_failure.is_none());
}

#[test]
fn failure_counting_is_symmetric() {
    let mut db = fresh_db();
    let k = key("a", "1", "web");
    let url = EndpointUrl::parse("https://example.com/").unwrap();
    db.add_endpoint_url(&k, &url).unwrap();
    let ts = Timestamp::parse("2020-06-01T12:00:00Z").unwrap();
    assert_eq!(db.record_endpoint_failure(&k, &ts).unwrap(), 1);
    assert_eq!(db.record_endpoint_failure(&k, &ts).unwrap(), 2);
    let stats = db.get_endpoint_stats(&k).unwrap();
    assert_eq!(stats.failure_count, 2);
    assert_eq!(stats.success_count, 0);
    assert_eq!(stats.last_failure.unwrap().as_str(), "2020-06-01T12:00:00+00:00");
}

#[test]
fn delete_removes_every_property() {
    let mut db = fresh_db();
    let k = key("a", "1", "web");
    let url = EndpointUrl::parse("https://example.com/").unwrap();
    db.add_endpoint_url(&k, &url).unwrap();
    let ts = Timestamp::parse("2020-06-01T12:00:00Z").unwrap();
    db.record_endpoint_success(&k, &ts).unwrap();
    db.record_endpoint_failure(&k, &ts).unwrap();
    db.delete_endpoint(&k).unwrap();
    assert_eq!(db.get_endpoint_url(&k).unwrap_err(), Error::NotFound);
    assert_eq!(db.get_endpoint_stats(&k).unwrap_err(), Error::NotFound);
    // Re-registration starts over from zero counters.
    db.add_endpoint_url(&k, &url).unwrap();
    let stats = db.get_endpoint_stats(&k).unwrap();
    assert_eq!(stats.success_count, 0);
    assert_eq!(stats.failure_count, 0);
}

#[test]
fn corrupt_storage_key_fails_the_whole_scan() {
    let mut store = MemKv::new();
    store.put("eccer/url/toofewsegments", "https://example.com/").unwrap();
    let db = Db::new(store, "eccer".to_owned());
    assert_eq!(db.get_all_endpoint_urls().unwrap_err(), Error::MalformedKey);
}

#[test]
fn corrupt_url_value_is_malformed() {
    let mut store = MemKv::new();
    store.put("eccer/url/a/1/web", "not a url at all").unwrap();
    let db = Db::new(store, "eccer".to_owned());
    let k = key("a", "1", "web");
    assert_eq!(db.get_endpoint_url(&k).unwrap_err(), Error::MalformedUrl);
    assert_eq!(db.get_all_endpoint_urls().unwrap_err(), Error::MalformedUrl);
}

#[test]
fn corrupt_timestamp_value_is_malformed() {
    let mut store = MemKv::new();
    store.put("eccer/url/a/1/web", "https://example.com/").unwrap();
    store.put("eccer/last_success/a/1/web", "yesterday-ish").unwrap();
    let db = Db::new(store, "eccer".to_owned());
    assert_eq!(db.get_endpoint_stats(&key("a", "1", "web")).unwrap_err(), Error::MalformedDate);
}

#[test]
fn corrupt_counter_value_is_malformed() {
    let mut store = MemKv::new();
    store.put("eccer/url/a/1/web", "https://example.com/").unwrap();
    store.put("eccer/success_count/a/1/web", "7seven").unwrap();
    let db = Db::new(store, "eccer".to_owned());
    let k = key("a", "1", "web");
    assert_eq!(db.get_endpoint_stats(&k).unwrap_err(), Error::MalformedCount);
    let ts = Timestamp::parse("2020-06-01T12:00:00Z").unwrap();
    let mut db = db;
    assert_eq!(db.record_endpoint_success(&k, &ts).unwrap_err(), Error::MalformedCount);
}
