//! End-to-end scenarios over the bridge: validation, correlation, the
//! inbound router, and the settling of calls.

use mqtt_bridge::bridge::{Bridge, Delivery, DispatchError};
use mqtt_bridge::registry::ServiceDescriptor;

fn announce(bridge: &mut Bridge, body: &str) -> Delivery {
    bridge.on_delivery(&b"announce".to_vec(), &body.as_bytes().to_vec())
}

fn deliver(bridge: &mut Bridge, topic: &str, body: &str) -> Delivery {
    bridge.on_delivery(&topic.as_bytes().to_vec(), &body.as_bytes().to_vec())
}

#[test]
fn happy_path() {
    let mut bridge = Bridge::new();
    let d = announce(&mut bridge, r#"{"service":"svc1","capabilities":["ping"]}"#);
    assert!(matches!(d, Delivery::Registered));

    let r = bridge.invoke_begin(
        &b"svc1".to_vec(),
        &b"ping".to_vec(),
        &br#"{"n":1}"#.to_vec(),
    );
    let prepared = r.ok().expect("a registered action must open a call");
    assert_eq!(prepared.topic, b"outbound/svc1/ping".to_vec());

    // The envelope is well-formed JSON carrying exactly the call's parts.
    let env: serde_json::Value = serde_json::from_slice(&prepared.envelope).unwrap();
    assert_eq!(env["service"], serde_json::Value::String("svc1".into()));
    assert_eq!(env["action"], serde_json::Value::String("ping".into()));
    assert_eq!(env["payload"]["n"], serde_json::Value::from(1));
    let wire_id = env["id"].as_str().unwrap().to_string();
    assert_eq!(wire_id.len(), 32);

    // A reply echoing the identifier resolves the call.
    let reply = format!(r#"{{"id":"{}","payload":{{"n":1,"pong":true}}}}"#, wire_id);
    let d = deliver(&mut bridge, "inbound/svc1", &reply);
    assert!(matches!(d, Delivery::Matched(_)));

    let out = bridge.invoke_finish(prepared.id).expect("resolved call must succeed");
    let val: serde_json::Value = serde_json::from_slice(&out).unwrap();
    assert_eq!(val["n"], serde_json::Value::from(1));
    assert_eq!(val["pong"], serde_json::Value::Bool(true));
    // The correlation identifier never reaches the caller.
    assert!(val.get("id").is_none());
    assert_eq!(val.as_object().unwrap().len(), 2);
    assert!(!bridge.is_pending(prepared.id));
}

#[test]
fn unknown_service() {
    let mut bridge = Bridge::new();
    let r = bridge.invoke_begin(&b"nope".to_vec(), &b"ping".to_vec(), &b"{}".to_vec());
    assert_eq!(r.err(), Some(DispatchError::UnknownService));
    // Nothing was opened, so nothing could have been published.
    assert_eq!(bridge.pending_len(), 0);
}

#[test]
fn unsupported_action() {
    let mut bridge = Bridge::new();
    announce(&mut bridge, r#"{"service":"svc1","capabilities":["ping"]}"#);
    let r = bridge.invoke_begin(&b"svc1".to_vec(), &b"pong".to_vec(), &b"{}".to_vec());
    assert_eq!(r.err(), Some(DispatchError::UnsupportedAction));
    assert_eq!(bridge.pending_len(), 0);
}

#[test]
fn timeout_cleans_the_table() {
    let mut bridge = Bridge::new();
    announce(&mut bridge, r#"{"service":"svc1","capabilities":["ping"]}"#);
    let prepared = bridge
        .invoke_begin(&b"svc1".to_vec(), &b"ping".to_vec(), &b"{}".to_vec())
        .ok()
        .unwrap();
    assert!(bridge.is_pending(prepared.id));
    // No reply arrives within the caller's bound; the caller settles.
    let out = bridge.invoke_finish(prepared.id);
    assert_eq!(out.err(), Some(DispatchError::Timeout));
    assert!(!bridge.is_pending(prepared.id));
    assert_eq!(bridge.pending_len(), 0);
}

#[test]
fn late_reply_is_a_noop() {
    let mut bridge = Bridge::new();
    announce(&mut bridge, r#"{"service":"svc1","capabilities":["ping"]}"#);
    let expired = bridge
        .invoke_begin(&b"svc1".to_vec(), &b"ping".to_vec(), &b"{}".to_vec())
        .ok()
        .unwrap();
    // Another call stays in flight while the first times out.
    let live = bridge
        .invoke_begin(&b"svc1".to_vec(), &b"ping".to_vec(), &b"{}".to_vec())
        .ok()
        .unwrap();
    assert!(bridge.invoke_finish(expired.id).is_err());

    let reply = format!(
        r#"{{"id":"{}","payload":{{"late":true}}}}"#,
        hex_id(expired.id)
    );
    let d = deliver(&mut bridge, "inbound/svc1", &reply);
    assert!(matches!(d, Delivery::Unmatched));
    // The other pending call is untouched: it still times out, unresolved.
    assert!(bridge.is_pending(live.id));
    let out = bridge.invoke_finish(live.id);
    assert_eq!(out.err(), Some(DispatchError::Timeout));
}

#[test]
fn duplicate_reply_resolves_once() {
    let mut bridge = Bridge::new();
    announce(&mut bridge, r#"{"service":"svc1","capabilities":["ping"]}"#);
    let prepared = bridge
        .invoke_begin(&b"svc1".to_vec(), &b"ping".to_vec(), &b"{}".to_vec())
        .ok()
        .unwrap();
    let reply = format!(r#"{{"id":"{}","payload":1}}"#, hex_id(prepared.id));
    let second = format!(r#"{{"id":"{}","payload":2}}"#, hex_id(prepared.id));
    assert!(matches!(deliver(&mut bridge, "t", &reply), Delivery::Matched(_)));
    assert!(matches!(deliver(&mut bridge, "t", &second), Delivery::Unmatched));
    // The first resolution is the one the caller sees.
    let out = bridge.invoke_finish(prepared.id).unwrap();
    assert_eq!(out, b"1".to_vec());
}

#[test]
fn registry_overwrite() {
    let mut bridge = Bridge::new();
    announce(&mut bridge, r#"{"service":"svc1","capabilities":["ping"]}"#);
    announce(&mut bridge, r#"{"service":"svc1","capabilities":["ping","pong"]}"#);
    let d = bridge.lookup(&b"svc1".to_vec()).expect("svc1 must be known");
    assert_eq!(d.capabilities, vec![b"ping".to_vec(), b"pong".to_vec()]);
    // The second announcement also unlocks the new action.
    let r = bridge.invoke_begin(&b"svc1".to_vec(), &b"pong".to_vec(), &b"{}".to_vec());
    assert!(r.is_ok());
}

#[test]
fn self_topics_are_ignored() {
    let mut bridge = Bridge::new();
    announce(&mut bridge, r#"{"service":"svc1","capabilities":["ping"]}"#);
    let prepared = bridge
        .invoke_begin(&b"svc1".to_vec(), &b"ping".to_vec(), &b"{}".to_vec())
        .ok()
        .unwrap();
    // A correct reply on one of the bridge's own topics must not resolve.
    let reply = format!(r#"{{"id":"{}","payload":1}}"#, hex_id(prepared.id));
    let d = deliver(&mut bridge, "outbound/svc1/ping", &reply);
    assert!(matches!(d, Delivery::SelfOriginated));
    // Delivered on a foreign topic, the same bytes do resolve.
    let d = deliver(&mut bridge, "inbound/svc1", &reply);
    assert!(matches!(d, Delivery::Matched(_)));
}

#[test]
fn malformed_deliveries_are_dropped() {
    let mut bridge = Bridge::new();
    assert!(matches!(
        announce(&mut bridge, "not json at all"),
        Delivery::Malformed
    ));
    assert!(matches!(
        announce(&mut bridge, r#"{"service":"svc1","capabilities":[1,2]}"#),
        Delivery::Malformed
    ));
    assert!(bridge.lookup(&b"svc1".to_vec()).is_none());
    assert!(matches!(
        deliver(&mut bridge, "inbound/x", r#"{"payload":1}"#),
        Delivery::Malformed
    ));
    assert!(matches!(
        deliver(&mut bridge, "inbound/x", r#"{"id":"zz","payload":1}"#),
        Delivery::Malformed
    ));
    assert_eq!(bridge.pending_len(), 0);
}

#[test]
fn list_snapshots_every_service() {
    let mut bridge = Bridge::new();
    announce(&mut bridge, r#"{"service":"a","capabilities":["x"]}"#);
    announce(&mut bridge, r#"{"service":"b","capabilities":["y","z"]}"#);
    let mut names: Vec<Vec<u8>> = bridge.list().iter().map(|d| d.name.clone()).collect();
    names.sort();
    assert_eq!(names, vec![b"a".to_vec(), b"b".to_vec()]);
}

#[test]
fn register_by_descriptor() {
    let mut bridge = Bridge::new();
    bridge.register(ServiceDescriptor {
        name: b"svc9".to_vec(),
        capabilities: vec![b"go".to_vec()],
    });
    let r = bridge.invoke_begin(&b"svc9".to_vec(), &b"go".to_vec(), &b"{}".to_vec());
    assert!(r.is_ok());
}

fn hex_id(id: u128) -> String {
    let v = mqtt_bridge::codec::id_to_hex(id);
    String::from_utf8(v).unwrap()
}
