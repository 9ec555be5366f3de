//! Exact expected values for the byte-level codecs.

use mqtt_bridge::codec::{
    build_request, build_topic, bytes_eq, id_to_hex, is_self_topic_exec, parse_hex_id,
};

#[test]
fn hex_rendering_is_32_lowercase_digits() {
    assert_eq!(id_to_hex(0), b"00000000000000000000000000000000".to_vec());
    assert_eq!(id_to_hex(255), b"000000000000000000000000000000ff".to_vec());
    assert_eq!(
        id_to_hex(0x0123_4567_89ab_cdef_0123_4567_89ab_cdef),
        b"0123456789abcdef0123456789abcdef".to_vec()
    );
    assert_eq!(id_to_hex(u128::MAX), b"ffffffffffffffffffffffffffffffff".to_vec());
}

#[test]
fn hex_parsing_inverts_rendering() {
    for id in [0u128, 1, 15, 16, 255, 0xdead_beef, u128::MAX / 3, u128::MAX] {
        assert_eq!(parse_hex_id(&id_to_hex(id)), Some(id));
    }
}

#[test]
fn hex_parsing_rejects_everything_else() {
    assert_eq!(parse_hex_id(&b"".to_vec()), None);
    assert_eq!(parse_hex_id(&b"00".to_vec()), None);
    // Upper case is not the bridge's own rendering.
    assert_eq!(parse_hex_id(&b"0123456789ABCDEF0123456789ABCDEF".to_vec()), None);
    assert_eq!(parse_hex_id(&b"0123456789abcdef0123456789abcdeg".to_vec()), None);
    // 33 digits.
    assert_eq!(parse_hex_id(&b"000000000000000000000000000000000".to_vec()), None);
}

#[test]
fn request_envelope_exact_bytes() {
    let env = build_request(
        &b"00000000000000000000000000000001".to_vec(),
        &b"svc1".to_vec(),
        &b"ping".to_vec(),
        &br#"{"n":1}"#.to_vec(),
    );
    assert_eq!(
        env,
        br#"{"id":"00000000000000000000000000000001","service":"svc1","action":"ping","payload":{"n":1}}"#
            .to_vec()
    );
}

#[test]
fn request_envelope_escapes_names() {
    let env = build_request(
        &b"00000000000000000000000000000001".to_vec(),
        &b"s\"vc".to_vec(),
        &b"a\\b\nc".to_vec(),
        &b"null".to_vec(),
    );
    let expected = br#"{"id":"00000000000000000000000000000001","service":"s\"vc","action":"a\\b\u000ac","payload":null}"#.to_vec();
    assert_eq!(env, expected);
    // The escaping keeps the envelope valid JSON even for hostile names.
    let val: serde_json::Value = serde_json::from_slice(&env).unwrap();
    assert_eq!(val["service"].as_str(), Some("s\"vc"));
    assert_eq!(val["action"].as_str(), Some("a\\b\nc"));
}

#[test]
fn topics_are_deterministic() {
    assert_eq!(
        build_topic(&b"svc1".to_vec(), &b"ping".to_vec()),
        b"outbound/svc1/ping".to_vec()
    );
    assert!(is_self_topic_exec(&b"outbound/svc1/ping".to_vec()));
    assert!(is_self_topic_exec(&b"outbound/".to_vec()));
    assert!(!is_self_topic_exec(&b"outbound".to_vec()));
    assert!(!is_self_topic_exec(&b"inbound/svc1".to_vec()));
    assert!(!is_self_topic_exec(&b"announce".to_vec()));
}

#[test]
fn byte_equality() {
    assert!(bytes_eq(&b"abc".to_vec(), &b"abc".to_vec()));
    assert!(!bytes_eq(&b"abc".to_vec(), &b"abd".to_vec()));
    assert!(!bytes_eq(&b"abc".to_vec(), &b"ab".to_vec()));
    assert!(bytes_eq(&b"".to_vec(), &b"".to_vec()));
}
