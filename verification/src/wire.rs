//! Trusted views of inbound deliveries: the two JSON shapes the bridge
//! reads from the bus are decoded by serde_json behind named results.

use vstd::prelude::*;

verus! {

/// What a delivery's bytes denote as a reply envelope: the bytes of its
/// `id` string and the serialization of its `payload`, or nothing when the
/// bytes are not a JSON object with a string `id` and a `payload` member.
pub uninterp spec fn reply_parts_of(b: Seq<u8>) -> Option<(Seq<u8>, Seq<u8>)>;

/// Relies on serde_json::from_slice and serde_json::to_vec: decodes a reply
/// envelope `{"id": <string>, "payload": <any>, ...}` and hands back the
/// identifier's bytes and the payload re-serialized. serde_json keeps
/// object members ordered, so the result is a function of the bytes alone.
#[verifier::external_body]
pub fn parse_reply(bytes: &Vec<u8>) -> (r: Option<(Vec<u8>, Vec<u8>)>)
    ensures
        match (r, reply_parts_of(bytes@)) {
            (Some(p), Some(q)) => p.0@ == q.0 && p.1@ == q.1,
            (None, None) => true,
            _ => false,
        },
{
    let v: serde_json::Value = serde_json::from_slice(bytes).ok()?;
    let id = v.get("id")?.as_str()?.as_bytes().to_vec();
    let payload = serde_json::to_vec(v.get("payload")?).ok()?;
    Some((id, payload))
}

/// What a delivery's bytes denote as a service announcement: the service
/// name's bytes and the capability list, or nothing when the bytes are not
/// a JSON object `{"service": <string>, "capabilities": [<string>, ...]}`.
pub uninterp spec fn announcement_of(b: Seq<u8>) -> Option<(Seq<u8>, Seq<Seq<u8>>)>;

/// Relies on serde_json::from_slice: decodes a service announcement and
/// hands back the name's bytes and the capabilities' bytes, in order.
/// serde_json's decoding is a function of the bytes alone.
#[verifier::external_body]
pub fn parse_announcement(bytes: &Vec<u8>) -> (r: Option<(Vec<u8>, Vec<Vec<u8>>)>)
    ensures
        match (r, announcement_of(bytes@)) {
            (Some(p), Some(q)) => p.0@ == q.0 && p.1@.map_values(|c: Vec<u8>| c@) == q.1,
            (None, None) => true,
            _ => false,
        },
{
    let v: serde_json::Value = serde_json::from_slice(bytes).ok()?;
    let name = v.get("service")?.as_str()?.as_bytes().to_vec();
    let caps = v.get("capabilities")?.as_array()?;
    let caps = caps.iter().map(|c| c.as_str().map(|s| s.as_bytes().to_vec())).collect::<
        Option<Vec<Vec<u8>>>,
    >()?;
    Some((name, caps))
}

} // verus!
