use eccer::db::Db;
use eccer::error::Error;
use eccer::keys::EndpointKey;
use eccer::kv::MemKv;
use eccer::values::EndpointUrl;
use eccer::values::Timestamp;
use eccer::worker::ProbeOutcome;
use eccer::worker::ProbeRecord;
use eccer::worker::is_success_status;
use eccer::worker::outcome_success;
use eccer::worker::ping_url_lookup;
use eccer::worker::record_probe_outcome;

fn key(service: &str, instance: &str, endpoint: &str) -> EndpointKey {
    EndpointKey {
        service_name: service.to_owned(),
        instance_name: instance.to_owned(),
        endpoint_name: endpoint.to_owned(),
    }
}

#[test]
fn status_classification() {
    assert!(!is_success_status(199));
    assert!(is_success_status(200));
    assert!(is_success_status(204));
    assert!(is_success_status(299));
    assert!(!is_success_status(300));
    assert!(!is_success_status(404));
    assert!(!is_success_status(503));
}

#[test]
fn transport_errors_count_as_failure() {
    assert!(!outcome_success(&ProbeOutcome::NoResponse));
    assert!(outcome_success(&ProbeOutcome::Response { status: 200 }));
    assert!(!outcome_success(&ProbeOutcome::Response { status: 500 }));
}

#[test]
fn success_outcome_records_a_success() {
    let mut db = Db::new(MemKv::new(), "eccer".to_owned());
    let k = key("a", "1", "web");
    db.add_endpoint_url(&k, &EndpointUrl::parse("https://example.com/").unwrap()).unwrap();
    let now = Timestamp::parse("2020-06-01T12:00:00Z").unwrap();
    let rec = record_probe_outcome(
        &mut db,
        &k,
        &ProbeOutcome::Response { status: 200 },
        &now,
        Some(3),
    )
    .unwrap();
    match rec {
        ProbeRecord::Success { count } => assert_eq!(count, 1),
        ProbeRecord::Failure { .. } => panic!("a 200 response is a success"),
    }
    let stats = db.get_endpoint_stats(&k).unwrap();
    assert_eq!(stats.success_count, 1);
    assert_eq!(stats.failure_count, 0);
}

#[test]
fn three_failures_evict_the_endpoint() {
    let mut db = Db::new(MemKv::new(), "eccer".to_owned());
    let k = key("a", "1", "web");
    db.add_endpoint_url(&k, &EndpointUrl::parse("https://example.com/").unwrap()).unwrap();
    let now = Timestamp::parse("2020-06-01T12:00:00Z").unwrap();
    for expected in 1u64..=3u64 {
        let rec = record_probe_outcome(
            &mut db,
            &k,
            &ProbeOutcome::Response { status: 503 },
            &now,
            Some(3),
        )
        .unwrap();
        match rec {
            ProbeRecord::Failure { count, evicted } => {
                assert_eq!(count, expected);
                assert_eq!(evicted, expected >= 3);
            },
            ProbeRecord::Success { .. } => panic!("a 503 response is a failure"),
        }
    }
    assert_eq!(db.get_endpoint_url(&k).unwrap_err(), Error::NotFound);
}

#[test]
fn ping_for_a_deleted_key_is_a_no_op() {
    let mut db = Db::new(MemKv::new(), "eccer".to_owned());
    let k = key("a", "1", "web");
    db.add_endpoint_url(&k, &EndpointUrl::parse("https://example.com/").unwrap()).unwrap();
    let now = Timestamp::parse("2020-06-01T12:00:00Z").unwrap();
    for _ in 0..3 {
        record_probe_outcome(&mut db, &k, &ProbeOutcome::Response { status: 503 }, &now, Some(3))
            .unwrap();
    }
    // The endpoint is gone; a late ping resolves to a skip, not an error.
    assert!(ping_url_lookup(&db, &k).unwrap().is_none());
}

#[test]
fn below_the_threshold_nothing_is_evicted() {
    let mut db = Db::new(MemKv::new(), "eccer".to_owned());
    let k = key("a", "1", "web");
    db.add_endpoint_url(&k, &EndpointUrl::parse("https://example.com/").unwrap()).unwrap();
    let now = Timestamp::parse("2020-06-01T12:00:00Z").unwrap();
    for _ in 0..2 {
        record_probe_outcome(&mut db, &k, &ProbeOutcome::NoResponse, &now, Some(3)).unwrap();
    }
    assert!(db.get_endpoint_url(&k).is_ok());
    let stats = db.get_endpoint_stats(&k).unwrap();
    assert_eq!(stats.failure_count, 2);
}

#[test]
fn without_a_threshold_failures_only_accumulate() {
    let mut db = Db::new(MemKv::new(), "eccer".to_owned());
    let k = key("a", "1", "web");
    db.add_endpoint_url(&k, &EndpointUrl::parse("https://example.com/").unwrap()).unwrap();
    let now = Timestamp::parse("2020-06-01T12:00:00Z").unwrap();
    for _ in 0..5 {
        let rec =
            record_probe_outcome(&mut db, &k, &ProbeOutcome::NoResponse, &now, None).unwrap();
        match rec {
            ProbeRecord::Failure { evicted, .. } => assert!(!evicted),
            ProbeRecord::Success { .. } => panic!("no response is a failure"),
        }
    }
    assert!(db.get_endpoint_url(&k).is_ok());
}

#[test]
fn ping_lookup_finds_the_current_url() {
    let mut db = Db::new(MemKv::new(), "eccer".to_owned());
    let k = key("a", "1", "web");
    db.add_endpoint_url(&k, &EndpointUrl::parse("https://old.example.com/").unwrap()).unwrap();
    // The worker re-fetches at probe time, so a change after enqueueing
    // is reflected.
    db.add_endpoint_url(&k, &EndpointUrl::parse("https://new.example.com/").unwrap()).unwrap();
    let url = ping_url_lookup(&db, &k).unwrap().unwrap();
    assert_eq!(url.as_str(), "https://new.example.com/");
}
