use eccer::db::EndpointRecord;
use eccer::dispatch::cycle_messages;
use eccer::keys::EndpointKey;
use eccer::queue::subject;
use eccer::values::EndpointUrl;

fn record(service: &str, instance: &str, endpoint: &str, url: &str) -> EndpointRecord {
    EndpointRecord {
        key: EndpointKey {
            service_name: service.to_owned(),
            instance_name: instance.to_owned(),
            endpoint_name: endpoint.to_owned(),
        },
        url: EndpointUrl::parse(url).unwrap(),
    }
}

#[test]
fn subjects_are_namespace_prefixed() {
    assert_eq!(subject("eccer", "ping"), "eccer.ping");
    assert_eq!(subject("eccer", "hello"), "eccer.hello");
    assert_eq!(subject("eccer", "worker"), "eccer.worker");
}

#[test]
fn one_cycle_is_one_heartbeat_then_one_ping_per_record() {
    let records = vec![
        record("a", "1", "web", "https://a.example.com/"),
        record("b", "2", "rpc", "https://b.example.com/"),
    ];
    let msgs = cycle_messages("eccer", &records);
    assert_eq!(msgs.len(), 3);
    assert_eq!(msgs[0].subject, "eccer.hello");
    assert_eq!(msgs[0].payload, "Hello, world!");
    assert_eq!(msgs[1].subject, "eccer.ping");
    assert_eq!(msgs[1].payload, "a/1/web");
    assert_eq!(msgs[2].subject, "eccer.ping");
    assert_eq!(msgs[2].payload, "b/2/rpc");
}

#[test]
fn three_ticks_with_one_endpoint_produce_one_ping_each() {
    let records = vec![record("a", "1", "web", "https://a.example.com/")];
    for _tick in 0..3 {
        let msgs = cycle_messages("eccer", &records);
        let pings: Vec<_> = msgs.iter().filter(|m| m.subject == "eccer.ping").collect();
        assert_eq!(pings.len(), 1);
        assert_eq!(pings[0].payload, "a/1/web");
    }
}

#[test]
fn an_empty_registry_still_heartbeats() {
    let msgs = cycle_messages("eccer", &Vec::new());
    assert_eq!(msgs.len(), 1);
    assert_eq!(msgs[0].subject, "eccer.hello");
}
