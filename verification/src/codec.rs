//! Byte-level codecs the bridge owns: the hexadecimal rendering of
//! correlation identifiers, JSON string escaping, and the framing of
//! request envelopes and topics.

use vstd::prelude::*;

verus! {

/// True when the two byte vectors hold the same bytes.
pub fn bytes_eq(a: &Vec<u8>, b: &Vec<u8>) -> (r: bool)
    ensures
        r == (a@ == b@),
{
    if a.len() != b.len() {
        assert(a@ != b@);
        return false;
    }
    let mut i: usize = 0;
    while i < a.len()
        invariant
            0 <= i <= a.len(),
            a.len() == b.len(),
            forall|j: int| 0 <= j < i ==> a@[j] == b@[j],
        decreases a.len() - i,
    {
        if a[i] != b[i] {
            return false;
        }
        i = i + 1;
    }
    proof {
        assert(a@ =~= b@);
    }
    true
}

/// A copy of the byte vector with the same contents.
pub fn clone_bytes(v: &Vec<u8>) -> (r: Vec<u8>)
    ensures
        r@ == v@,
{
    let mut out: Vec<u8> = Vec::new();
    let mut i: usize = 0;
    while i < v.len()
        invariant
            0 <= i <= v.len(),
            out@ == v@.take(i as int),
        decreases v.len() - i,
    {
        out.push(v[i]);
        proof {
            assert(v@.take(i + 1) =~= v@.take(i as int).push(v@[i as int]));
        }
        i = i + 1;
    }
    proof {
        assert(v@.take(v@.len() as int) =~= v@);
    }
    out
}

/// The lower-case hexadecimal digit for a nibble.
pub open spec fn hex_digit(n: u8) -> u8 {
    if n < 10 {
        (0x30 + n) as u8
    } else {
        (0x61 + (n - 10)) as u8
    }
}

/// Executable form of `hex_digit`.
pub fn hex_digit_exec(n: u8) -> (r: u8)
    requires
        n < 16,
    ensures
        r == hex_digit(n),
{
    if n < 10 {
        0x30 + n
    } else {
        0x61 + (n - 10)
    }
}

/// The last `n` lower-case hexadecimal digits of `v`, most significant first.
pub open spec fn hex_digits(v: u128, n: nat) -> Seq<u8>
    decreases n,
{
    if n == 0 {
        Seq::empty()
    } else {
        hex_digits(v / 16, (n - 1) as nat).push(hex_digit((v % 16) as u8))
    }
}

/// The full 32-digit rendering of a correlation identifier.
pub open spec fn hex_of_id(v: u128) -> Seq<u8> {
    hex_digits(v, 32)
}

/// 16 raised to `n`.
pub open spec fn pow16(n: nat) -> int
    decreases n,
{
    if n == 0 {
        1
    } else {
        16 * pow16((n - 1) as nat)
    }
}

/// Powers of 16 are positive.
pub proof fn lemma_pow16_positive(n: nat)
    ensures
        pow16(n) >= 1,
    decreases n,
{
    if n > 0 {
        lemma_pow16_positive((n - 1) as nat);
    }
}

/// Powers of 16 grow with the exponent.
pub proof fn lemma_pow16_mono(a: nat, b: nat)
    requires
        a <= b,
    ensures
        pow16(a) <= pow16(b),
    decreases b,
{
    if a < b {
        lemma_pow16_mono(a, (b - 1) as nat);
        lemma_pow16_positive((b - 1) as nat);
    }
}

/// True when `b` is a lower-case hexadecimal digit.
pub open spec fn is_hex_digit(b: u8) -> bool {
    (0x30 <= b && b <= 0x39) || (0x61 <= b && b <= 0x66)
}

/// The value of a lower-case hexadecimal digit.
pub open spec fn hex_val(b: u8) -> u8 {
    if b <= 0x39 {
        (b - 0x30) as u8
    } else {
        ((b - 0x61) + 10) as u8
    }
}

pub open spec fn all_hex(s: Seq<u8>) -> bool {
    forall|i: int| 0 <= i < s.len() ==> is_hex_digit(s[i])
}

/// The numeric value of a big-endian sequence of hexadecimal digits.
pub open spec fn hex_value(s: Seq<u8>) -> int
    decreases s.len(),
{
    if s.len() == 0 {
        0
    } else {
        hex_value(s.drop_last()) * 16 + hex_val(s.last())
    }
}

/// A byte sequence parses as a correlation identifier exactly when it is 32
/// lower-case hexadecimal digits; the identifier is their value.
pub open spec fn parse_hex32(s: Seq<u8>) -> Option<u128> {
    if s.len() == 32 && all_hex(s) {
        Some(hex_value(s) as u128)
    } else {
        None
    }
}

/// A rendering holds exactly `n` digits, all of them hexadecimal.
pub proof fn lemma_hex_digits_wf(v: u128, n: nat)
    ensures
        hex_digits(v, n).len() == n,
        all_hex(hex_digits(v, n)),
    decreases n,
{
    if n > 0 {
        lemma_hex_digits_wf(v / 16, (n - 1) as nat);
        let s = hex_digits(v, n);
        assert forall|i: int| 0 <= i < s.len() implies is_hex_digit(s[i]) by {
            if i < n - 1 {
                assert(s[i] == hex_digits(v / 16, (n - 1) as nat)[i]);
            }
        }
    }
}

/// The value of `n` hexadecimal digits lies under 16 to the `n`: the cast
/// in `parse_hex32` to the 128-bit identifier loses nothing.
pub proof fn lemma_hex_value_bound(s: Seq<u8>)
    requires
        all_hex(s),
    ensures
        0 <= hex_value(s) < pow16(s.len()),
    decreases s.len(),
{
    if s.len() > 0 {
        lemma_hex_value_bound(s.drop_last());
        let h = hex_value(s.drop_last());
        let p = pow16((s.len() - 1) as nat);
        assert(h * 16 <= (p - 1) * 16) by (nonlinear_arith)
            requires
                h <= p - 1,
        ;
    }
}

/// Rendering a value that fits in `n` digits and reading the digits back
/// yields the value.
pub proof fn lemma_hex_value_of_digits(v: u128, n: nat)
    requires
        v < pow16(n),
    ensures
        hex_value(hex_digits(v, n)) == v,
    decreases n,
{
    if n == 0 {
        assert(v == 0);
    } else {
        let q = v / 16;
        let p = pow16((n - 1) as nat);
        assert(q < p) by (nonlinear_arith)
            requires
                v < 16 * p,
                q == v / 16,
                p >= 0,
        ;
        lemma_hex_value_of_digits(q, (n - 1) as nat);
        let s = hex_digits(v, n);
        assert(s.drop_last() =~= hex_digits(q, (n - 1) as nat));
        assert(hex_val(hex_digit((v % 16) as u8)) == v % 16);
        assert(hex_value(s) == (v / 16) * 16 + v % 16);
        assert((v / 16) * 16 + v % 16 == v) by (nonlinear_arith);
    }
    if n > 0 {
        lemma_pow16_positive((n - 1) as nat);
    }
}

/// A published identifier is always recovered from a reply that echoes it
/// verbatim: rendering then parsing is the identity.
pub proof fn lemma_id_round_trip(v: u128)
    ensures
        parse_hex32(hex_of_id(v)) == Some(v),
{
    lemma_hex_digits_wf(v, 32);
    assert(pow16(32) == 0x100000000000000000000000000000000) by {
        reveal_with_fuel(pow16, 33);
    }
    lemma_hex_value_of_digits(v, 32);
}

/// Appends the last `n` hexadecimal digits of `v` to `out`.
fn push_hex(v: u128, n: usize, out: &mut Vec<u8>)
    ensures
        final(out)@ == old(out)@ + hex_digits(v, n as nat),
    decreases n,
{
    if n == 0 {
        proof {
            assert(out@ + hex_digits(v, 0) =~= out@);
        }
    } else {
        push_hex(v / 16, n - 1, out);
        out.push(hex_digit_exec((v % 16) as u8));
        proof {
            assert(old(out)@ + hex_digits(v / 16, (n - 1) as nat).push(
                hex_digit((v % 16) as u8),
            ) =~= (old(out)@ + hex_digits(v / 16, (n - 1) as nat)).push(
                hex_digit((v % 16) as u8),
            ));
        }
    }
}

/// Renders a correlation identifier as its 32-digit hexadecimal form.
pub fn id_to_hex(v: u128) -> (r: Vec<u8>)
    ensures
        r@ == hex_of_id(v),
        r@.len() == 32,
{
    let mut out: Vec<u8> = Vec::new();
    push_hex(v, 32, &mut out);
    proof {
        assert(out@ =~= hex_of_id(v));
        lemma_hex_digits_wf(v, 32);
    }
    out
}

/// Parses a 32-digit lower-case hexadecimal correlation identifier.
pub fn parse_hex_id(s: &Vec<u8>) -> (r: Option<u128>)
    ensures
        r == parse_hex32(s@),
{
    if s.len() != 32 {
        return None;
    }
    let mut acc: u128 = 0;
    let mut i: usize = 0;
    while i < 32
        invariant
            0 <= i <= 32,
            s@.len() == 32,
            forall|j: int| 0 <= j < i ==> is_hex_digit(s@[j]),
            acc == hex_value(s@.take(i as int)),
            acc < pow16(i as nat),
        decreases 32 - i,
    {
        let b = s[i];
        if !((0x30 <= b && b <= 0x39) || (0x61 <= b && b <= 0x66)) {
            assert(!is_hex_digit(s@[i as int]));
            return None;
        }
        let d: u8 = if b <= 0x39 {
            b - 0x30
        } else {
            (b - 0x61) + 10
        };
        proof {
            let p = pow16(i as nat);
            lemma_pow16_mono((i + 1) as nat, 32);
            assert(pow16(32) == 0x100000000000000000000000000000000) by {
        reveal_with_fuel(pow16, 33);
    }
            assert(acc * 16 + 15 < 16 * p) by (nonlinear_arith)
                requires
                    acc < p,
                    p >= 1,
            ;
            assert(s@.take(i + 1).drop_last() =~= s@.take(i as int));
            assert(s@.take(i + 1).last() == s@[i as int]);
        }
        acc = acc * 16 + (d as u128);
        i = i + 1;
    }
    proof {
        assert(s@.take(32) =~= s@);
    }
    Some(acc)
}

/// The escaped form of one byte inside a JSON string literal: quote and
/// backslash get a backslash prefix, control bytes become a `\u00` sequence,
/// everything else stands as itself.
pub open spec fn esc_byte(b: u8) -> Seq<u8> {
    if b == 0x22 || b == 0x5c {
        seq![0x5cu8, b]
    } else if b < 0x20 {
        seq![0x5cu8, 0x75u8, 0x30u8, 0x30u8, hex_digit(b / 16), hex_digit((b % 16) as u8)]
    } else {
        seq![b]
    }
}

/// The JSON string escaping of a whole byte sequence.
pub open spec fn json_escaped(s: Seq<u8>) -> Seq<u8>
    decreases s.len(),
{
    if s.len() == 0 {
        Seq::empty()
    } else {
        json_escaped(s.drop_last()) + esc_byte(s.last())
    }
}

/// Appends the JSON string escaping of `src` to `out`.
pub fn escape_into(src: &Vec<u8>, out: &mut Vec<u8>)
    ensures
        final(out)@ == old(out)@ + json_escaped(src@),
{
    let mut i: usize = 0;
    proof {
        assert(out@ =~= old(out)@ + json_escaped(src@.take(0)));
    }
    while i < src.len()
        invariant
            0 <= i <= src.len(),
            out@ == old(out)@ + json_escaped(src@.take(i as int)),
        decreases src.len() - i,
    {
        let b = src[i];
        let ghost before = out@;
        if b == 0x22 || b == 0x5c {
            out.push(0x5c);
            out.push(b);
        } else if b < 0x20 {
            out.push(0x5c);
            out.push(0x75);
            out.push(0x30);
            out.push(0x30);
            out.push(hex_digit_exec(b / 16));
            out.push(hex_digit_exec(b % 16));
        } else {
            out.push(b);
        }
        proof {
            assert(out@ =~= before + esc_byte(src@[i as int]));
            assert(src@.take(i + 1).drop_last() =~= src@.take(i as int));
            assert(src@.take(i + 1).last() == src@[i as int]);
            assert(out@ =~= old(out)@ + json_escaped(src@.take(i + 1)));
        }
        i = i + 1;
    }
    proof {
        assert(src@.take(src@.len() as int) =~= src@);
    }
}

} // verus!

verus! {

/// The opening of a request envelope: the bytes of `{"id":"`.
pub open spec fn lit_id_key() -> Seq<u8> {
    seq![0x7bu8, 0x22, 0x69, 0x64, 0x22, 0x3a, 0x22]
}

/// The bytes of `","service":"`.
pub open spec fn lit_service_key() -> Seq<u8> {
    seq![0x22u8, 0x2c, 0x22, 0x73, 0x65, 0x72, 0x76, 0x69, 0x63, 0x65, 0x22, 0x3a, 0x22]
}

/// The bytes of `","action":"`.
pub open spec fn lit_action_key() -> Seq<u8> {
    seq![0x22u8, 0x2c, 0x22, 0x61, 0x63, 0x74, 0x69, 0x6f, 0x6e, 0x22, 0x3a, 0x22]
}

/// The bytes of `","payload":`.
pub open spec fn lit_payload_key() -> Seq<u8> {
    seq![0x22u8, 0x2c, 0x22, 0x70, 0x61, 0x79, 0x6c, 0x6f, 0x61, 0x64, 0x22, 0x3a]
}

/// The topic prefix the bridge publishes requests under: `outbound/`.
pub open spec fn topic_prefix() -> Seq<u8> {
    seq![0x6fu8, 0x75, 0x74, 0x62, 0x6f, 0x75, 0x6e, 0x64, 0x2f]
}

/// The well-known topic workers announce themselves on: `announce`.
pub open spec fn announce_topic() -> Seq<u8> {
    seq![0x61u8, 0x6e, 0x6e, 0x6f, 0x75, 0x6e, 0x63, 0x65]
}

/// The wire form of a request envelope:
/// `{"id":"<id>","service":"<service>","action":"<action>","payload":<payload>}`,
/// with service and action JSON-escaped, the identifier spliced verbatim
/// (its hexadecimal form needs no escape), and the payload, already a JSON
/// document the bridge does not interpret, spliced verbatim.
pub open spec fn encoded_request(id: Seq<u8>, service: Seq<u8>, action: Seq<u8>, payload: Seq<u8>) -> Seq<u8> {
    lit_id_key() + id + lit_service_key() + json_escaped(service) + lit_action_key()
        + json_escaped(action) + lit_payload_key() + payload + seq![0x7du8]
}

/// The deterministic topic a request for `service`/`action` is published on:
/// `outbound/<service>/<action>`.
pub open spec fn request_topic(service: Seq<u8>, action: Seq<u8>) -> Seq<u8> {
    topic_prefix() + service + seq![0x2fu8] + action
}

/// A topic the bridge itself publishes on: one that begins with the
/// request prefix. Deliveries there are self-originated and are ignored.
pub open spec fn is_self_topic(t: Seq<u8>) -> bool {
    t.len() >= topic_prefix().len() && t.take(topic_prefix().len() as int) == topic_prefix()
}

/// Appends all of `src` to `out`.
pub fn push_all(src: &Vec<u8>, out: &mut Vec<u8>)
    ensures
        final(out)@ == old(out)@ + src@,
{
    let mut i: usize = 0;
    proof {
        assert(out@ =~= old(out)@ + src@.take(0));
    }
    while i < src.len()
        invariant
            0 <= i <= src.len(),
            out@ == old(out)@ + src@.take(i as int),
        decreases src.len() - i,
    {
        out.push(src[i]);
        proof {
            assert(old(out)@ + src@.take(i + 1) =~= (old(out)@ + src@.take(i as int)).push(
                src@[i as int],
            ));
        }
        i = i + 1;
    }
    proof {
        assert(src@.take(src@.len() as int) =~= src@);
    }
}

/// The executable form of `topic_prefix`.
pub fn topic_prefix_exec() -> (r: Vec<u8>)
    ensures
        r@ == topic_prefix(),
{
    let v: Vec<u8> = vec![0x6f, 0x75, 0x74, 0x62, 0x6f, 0x75, 0x6e, 0x64, 0x2f];
    proof {
        assert(v@ =~= topic_prefix());
    }
    v
}

/// The executable form of `announce_topic`.
pub fn announce_topic_exec() -> (r: Vec<u8>)
    ensures
        r@ == announce_topic(),
{
    let v: Vec<u8> = vec![0x61, 0x6e, 0x6e, 0x6f, 0x75, 0x6e, 0x63, 0x65];
    proof {
        assert(v@ =~= announce_topic());
    }
    v
}

/// Builds the wire form of a request envelope.
pub fn build_request(id: &Vec<u8>, service: &Vec<u8>, action: &Vec<u8>, payload: &Vec<u8>) -> (r:
    Vec<u8>)
    ensures
        r@ == encoded_request(id@, service@, action@, payload@),
{
    let mut out: Vec<u8> = vec![0x7b, 0x22, 0x69, 0x64, 0x22, 0x3a, 0x22];
    proof {
        assert(out@ =~= lit_id_key());
    }
    push_all(id, &mut out);
    let skey: Vec<u8> = vec![
        0x22,
        0x2c,
        0x22,
        0x73,
        0x65,
        0x72,
        0x76,
        0x69,
        0x63,
        0x65,
        0x22,
        0x3a,
        0x22,
    ];
    proof {
        assert(skey@ =~= lit_service_key());
    }
    push_all(&skey, &mut out);
    escape_into(service, &mut out);
    let akey: Vec<u8> = vec![0x22, 0x2c, 0x22, 0x61, 0x63, 0x74, 0x69, 0x6f, 0x6e, 0x22, 0x3a, 0x22];
    proof {
        assert(akey@ =~= lit_action_key());
    }
    push_all(&akey, &mut out);
    escape_into(action, &mut out);
    let pkey: Vec<u8> = vec![0x22, 0x2c, 0x22, 0x70, 0x61, 0x79, 0x6c, 0x6f, 0x61, 0x64, 0x22, 0x3a];
    proof {
        assert(pkey@ =~= lit_payload_key());
    }
    push_all(&pkey, &mut out);
    push_all(payload, &mut out);
    out.push(0x7d);
    proof {
        assert(out@ =~= encoded_request(id@, service@, action@, payload@));
    }
    out
}

/// Builds the topic a request for `service`/`action` is published on.
pub fn build_topic(service: &Vec<u8>, action: &Vec<u8>) -> (r: Vec<u8>)
    ensures
        r@ == request_topic(service@, action@),
{
    let mut out = topic_prefix_exec();
    push_all(service, &mut out);
    out.push(0x2f);
    push_all(action, &mut out);
    proof {
        assert(out@ =~= request_topic(service@, action@));
    }
    out
}

/// Decides whether a delivery arrived on a topic the bridge publishes on.
pub fn is_self_topic_exec(t: &Vec<u8>) -> (r: bool)
    ensures
        r == is_self_topic(t@),
{
    let prefix = topic_prefix_exec();
    if t.len() < prefix.len() {
        return false;
    }
    let mut i: usize = 0;
    while i < prefix.len()
        invariant
            0 <= i <= prefix.len(),
            prefix.len() <= t.len(),
            prefix@ == topic_prefix(),
            forall|j: int| 0 <= j < i ==> t@[j] == prefix@[j],
        decreases prefix.len() - i,
    {
        if t[i] != prefix[i] {
            assert(t@.take(topic_prefix().len() as int)[i as int] != topic_prefix()[i as int]);
            return false;
        }
        i = i + 1;
    }
    proof {
        assert(t@.take(topic_prefix().len() as int) =~= topic_prefix());
    }
    true
}

} // verus!
