//! The service registry: insert-or-replace by name, lookup, and listing.

use mqtt_bridge::registry::{caps_contain, Registry, ServiceDescriptor};

fn descriptor(name: &str, caps: &[&str]) -> ServiceDescriptor {
    ServiceDescriptor {
        name: name.as_bytes().to_vec(),
        capabilities: caps.iter().map(|c| c.as_bytes().to_vec()).collect(),
    }
}

#[test]
fn lookup_sees_the_registration() {
    let mut r = Registry::new();
    assert!(r.lookup(&b"svc1".to_vec()).is_none());
    r.register(descriptor("svc1", &["ping"]));
    let d = r.lookup(&b"svc1".to_vec()).expect("registered name must be found");
    assert_eq!(d.name, b"svc1".to_vec());
    assert_eq!(d.capabilities, vec![b"ping".to_vec()]);
    assert!(r.lookup(&b"svc2".to_vec()).is_none());
}

#[test]
fn last_announcement_wins_whole() {
    let mut r = Registry::new();
    r.register(descriptor("svc1", &["ping"]));
    r.register(descriptor("svc1", &["pong", "echo"]));
    let d = r.lookup(&b"svc1".to_vec()).unwrap();
    assert_eq!(d.capabilities, vec![b"pong".to_vec(), b"echo".to_vec()]);
    assert_eq!(r.list().len(), 1);
}

#[test]
fn list_holds_each_name_once() {
    let mut r = Registry::new();
    r.register(descriptor("a", &["x"]));
    r.register(descriptor("b", &[]));
    r.register(descriptor("a", &["y"]));
    let mut names: Vec<Vec<u8>> = r.list().iter().map(|d| d.name.clone()).collect();
    names.sort();
    assert_eq!(names, vec![b"a".to_vec(), b"b".to_vec()]);
}

#[test]
fn capability_membership() {
    let caps = vec![b"ping".to_vec(), b"pong".to_vec()];
    assert!(caps_contain(&caps, &b"ping".to_vec()));
    assert!(caps_contain(&caps, &b"pong".to_vec()));
    assert!(!caps_contain(&caps, &b"peng".to_vec()));
    assert!(!caps_contain(&Vec::new(), &b"ping".to_vec()));
}

#[test]
fn snapshot_copies_the_descriptor() {
    let d = descriptor("svc1", &["ping"]);
    let s = d.snapshot();
    assert_eq!(s.name, d.name);
    assert_eq!(s.capabilities, d.capabilities);
}
