//! The SOCKS5 wire codec, CONNECT only: server-side method negotiation
//! and username/password sub-negotiation, request address decoding,
//! reply construction, and the client-side greeting, authentication and
//! CONNECT request used towards an upstream SOCKS5 proxy.
//!
//! The client-side sub-negotiation message deliberately begins with the
//! byte 0x05, matching the upstream implementations this proxy speaks
//! to, although the sub-negotiation RFC gives the version byte as 0x01.

use vstd::prelude::*;
use crate::host::{
    bytes_groups, groups_bytes, ipv4_string_bytes, ipv6_string_bytes, ipv4_text, ipv6_text,
    lemma_bytes_groups_id, lemma_ipv6_text_not_ipv4, lemma_parse_ipv4_text, lemma_parse_ipv6_text,
    parse_ipv4, parse_ipv6, spec_host_type, spec_parse_ipv4, spec_parse_ipv6, HostType,
};
use crate::text::{bytes_eq, string_from_utf8};
use vstd::utf8::valid_utf8;

verus! {

use vstd::string::StringSliceAdditionalSpecFns;

/// What the method negotiation decided.
#[derive(Debug, Clone, Copy, PartialEq, Eq, Structural)]
pub enum AuthDecision {
    /// No authentication required; proceed to the request.
    NoAuth,
    /// Username/password sub-negotiation follows.
    SubNegotiate,
    /// No acceptable method; the connection closes.
    Reject,
}

/// The two-byte answer to a greeting, and what follows it.
pub open spec fn spec_greeting_reply(auth_enable: bool, methods: Seq<u8>) -> (Seq<u8>, AuthDecision) {
    if !auth_enable {
        (seq![5u8, 0u8], AuthDecision::NoAuth)
    } else if methods.contains(2u8) {
        (seq![5u8, 2u8], AuthDecision::SubNegotiate)
    } else {
        (seq![5u8, 255u8], AuthDecision::Reject)
    }
}

/// Answers a client greeting: without authentication the no-auth method
/// is granted; with it, username/password is selected when offered and
/// the greeting is rejected otherwise.
pub fn greeting_reply(auth_enable: bool, methods: &[u8]) -> (r: (Vec<u8>, AuthDecision))
    ensures
        (r.0@, r.1) == spec_greeting_reply(auth_enable, methods@),
{
    if !auth_enable {
        let mut reply: Vec<u8> = Vec::new();
        reply.push(5);
        reply.push(0);
        assert(reply@ =~= seq![5u8, 0u8]);
        return (reply, AuthDecision::NoAuth);
    }
    let n = methods.len();
    let mut i: usize = 0;
    let mut found = false;
    while i < n
        invariant
            i <= n,
            n == methods@.len(),
            found == methods@.take(i as int).contains(2u8),
        decreases n - i,
    {
        if methods[i] == 2 {
            assert(methods@.take(i + 1)[i as int] == 2u8);
            found = true;
        } else {
            assert(methods@.take(i + 1).drop_last() =~= methods@.take(i as int));
            assert(methods@.take(i + 1).contains(2u8) == methods@.take(i as int).contains(2u8))
                by {
                if methods@.take(i as int).contains(2u8) {
                    let k = choose|k: int|
                        0 <= k < i && #[trigger] methods@.take(i as int)[k] == 2u8;
                    assert(methods@.take(i + 1)[k] == 2u8);
                }
                if methods@.take(i + 1).contains(2u8) {
                    let k = choose|k: int|
                        0 <= k < i + 1 && #[trigger] methods@.take(i + 1)[k] == 2u8;
                    assert(k < i);
                    assert(methods@.take(i as int)[k] == 2u8);
                }
            }
        }
        i = i + 1;
    }
    assert(methods@.take(n as int) =~= methods@);
    let mut reply: Vec<u8> = Vec::new();
    reply.push(5);
    if found {
        reply.push(2);
        assert(reply@ =~= seq![5u8, 2u8]);
        (reply, AuthDecision::SubNegotiate)
    } else {
        reply.push(255);
        assert(reply@ =~= seq![5u8, 255u8]);
        (reply, AuthDecision::Reject)
    }
}

/// Whether the offered credentials match the configured ones: both must
/// be configured, and the raw bytes must spell them exactly.
pub open spec fn spec_credentials_ok(
    expected_user: Option<String>,
    expected_pass: Option<String>,
    username: Seq<u8>,
    password: Seq<u8>,
) -> bool {
    &&& expected_user matches Some(u) && vstd::utf8::encode_utf8(u@) == username
    &&& expected_pass matches Some(p) && vstd::utf8::encode_utf8(p@) == password
}

/// Answers the username/password sub-negotiation: `01 00` on a match,
/// `01 01` otherwise, including when no credential is configured.
pub fn auth_reply(
    expected_user: &Option<String>,
    expected_pass: &Option<String>,
    username: &Vec<u8>,
    password: &Vec<u8>,
) -> (r: (Vec<u8>, bool))
    ensures
        r.1 == spec_credentials_ok(*expected_user, *expected_pass, username@, password@),
        r.1 ==> r.0@ == seq![1u8, 0u8],
        !r.1 ==> r.0@ == seq![1u8, 1u8],
{
    let ok = match (expected_user, expected_pass) {
        (Some(u), Some(p)) => {
            let user_ok = bytes_eq(u.as_str().as_bytes(), username.as_slice());
            let pass_ok = bytes_eq(p.as_str().as_bytes(), password.as_slice());
            user_ok && pass_ok
        },
        _ => false,
    };
    let mut reply: Vec<u8> = Vec::new();
    reply.push(1);
    if ok {
        reply.push(0);
        assert(reply@ =~= seq![1u8, 0u8]);
        (reply, true)
    } else {
        reply.push(1);
        assert(reply@ =~= seq![1u8, 1u8]);
        (reply, false)
    }
}

/// What examining the four request head bytes decides.
#[derive(Debug, Clone, Copy, PartialEq, Eq, Structural)]
pub enum RequestCheck {
    /// A CONNECT request; the address type byte follows.
    Connect,
    /// Not SOCKS version five; the connection closes without a reply.
    BadVersion,
    /// A command other than CONNECT; answered with `REP = 0x07`.
    BadCommand,
    /// An address type other than IPv4, domain or IPv6.
    BadAddressType,
}

/// Checks the four-byte request head `VER CMD RSV ATYP`.
pub fn check_request_head(head: &[u8]) -> (r: RequestCheck)
    requires
        head@.len() == 4,
    ensures
        r == RequestCheck::BadVersion <==> head@[0] != 5,
        r == RequestCheck::BadCommand <==> head@[0] == 5 && head@[1] != 1,
        r == RequestCheck::BadAddressType <==> head@[0] == 5 && head@[1] == 1 && head@[3] != 1
            && head@[3] != 3 && head@[3] != 4,
        r == RequestCheck::Connect <==> head@[0] == 5 && head@[1] == 1 && (head@[3] == 1
            || head@[3] == 3 || head@[3] == 4),
{
    if head[0] != 5 {
        RequestCheck::BadVersion
    } else if head[1] != 1 {
        RequestCheck::BadCommand
    } else if head[3] == 1 || head[3] == 3 || head[3] == 4 {
        RequestCheck::Connect
    } else {
        RequestCheck::BadAddressType
    }
}

/// How many address bytes follow the address type byte; a domain address
/// instead announces its length in one further byte.
#[derive(Debug, Clone, Copy, PartialEq, Eq, Structural)]
pub enum AddrLen {
    Fixed(usize),
    LengthPrefixed,
}

/// The number of address bytes each address type carries.
pub fn addr_len(atyp: u8) -> (r: Option<AddrLen>)
    ensures
        atyp == 1 <==> r == Some(AddrLen::Fixed(4usize)),
        atyp == 4 <==> r == Some(AddrLen::Fixed(16usize)),
        atyp == 3 <==> r == Some(AddrLen::LengthPrefixed),
        r is None <==> atyp != 1 && atyp != 3 && atyp != 4,
{
    if atyp == 1 {
        Some(AddrLen::Fixed(4))
    } else if atyp == 3 {
        Some(AddrLen::LengthPrefixed)
    } else if atyp == 4 {
        Some(AddrLen::Fixed(16))
    } else {
        None
    }
}

/// The target host a request address denotes, as text: a dotted quad,
/// the domain itself, or the eight-group IPv6 form.
pub open spec fn spec_addr_host(atyp: u8, raw: Seq<u8>) -> Option<Seq<u8>> {
    if atyp == 1 {
        Some(ipv4_text(raw[0], raw[1], raw[2], raw[3]))
    } else if atyp == 3 {
        if valid_utf8(raw) {
            Some(raw)
        } else {
            None
        }
    } else {
        Some(ipv6_text(bytes_groups(raw)))
    }
}

/// Renders the address bytes of a CONNECT request as the target host
/// string.  A domain that is not UTF-8 is rejected.
pub fn addr_to_host(atyp: u8, raw: &Vec<u8>) -> (r: Option<String>)
    requires
        atyp == 1 || atyp == 3 || atyp == 4,
        atyp == 1 ==> raw@.len() == 4,
        atyp == 4 ==> raw@.len() == 16,
    ensures
        r is Some <==> spec_addr_host(atyp, raw@) is Some,
        r matches Some(h) ==> spec_addr_host(atyp, raw@) == Some(vstd::utf8::encode_utf8(h@)),
{
    if atyp == 1 {
        let text = ipv4_string_bytes(raw.as_slice());
        let r = string_from_utf8(text);
        proof {
            crate::host::lemma_ip_text_ascii_v4(raw@[0], raw@[1], raw@[2], raw@[3]);
        }
        r
    } else if atyp == 3 {
        string_from_utf8_copy(raw)
    } else {
        let mut groups: Vec<u16> = Vec::new();
        let mut i: usize = 0;
        while i < 8
            invariant
                i <= 8,
                raw@.len() == 16,
                groups@.len() == i,
                forall|k: int|
                    0 <= k < i ==> #[trigger] groups@[k] == bytes_groups(raw@)[k],
            decreases 8 - i,
        {
            let hi = raw[2 * i];
            let lo = raw[2 * i + 1];
            let g: u16 = (hi as u16) * 256 + (lo as u16);
            groups.push(g);
            i = i + 1;
        }
        assert(groups@ =~= bytes_groups(raw@));
        let text = ipv6_string_bytes(groups.as_slice());
        let r = string_from_utf8(text);
        proof {
            crate::host::lemma_ip_text_ascii_v6(bytes_groups(raw@));
        }
        r
    }
}

fn string_from_utf8_copy(raw: &Vec<u8>) -> (r: Option<String>)
    ensures
        r is Some <==> valid_utf8(raw@),
        r matches Some(s) ==> vstd::utf8::encode_utf8(s@) == raw@,
{
    let mut copy: Vec<u8> = Vec::new();
    let n = raw.len();
    let mut i: usize = 0;
    while i < n
        invariant
            i <= n,
            n == raw@.len(),
            copy@ =~= raw@.take(i as int),
        decreases n - i,
    {
        copy.push(raw[i]);
        assert(copy@ =~= raw@.take(i + 1));
        i = i + 1;
    }
    assert(raw@.take(n as int) =~= raw@);
    string_from_utf8(copy)
}

/// The big-endian bytes of a port number.
pub open spec fn port_be(p: u16) -> Seq<u8> {
    seq![(p as int / 256) as u8, (p as int % 256) as u8]
}

/// Reads a big-endian port.
pub fn parse_port(b: &[u8]) -> (r: u16)
    requires
        b@.len() == 2,
    ensures
        r as int == b@[0] * 256 + b@[1],
        port_be(r) == b@,
{
    let r = (b[0] as u16) * 256 + (b[1] as u16);
    proof {
        vstd::arithmetic::div_mod::lemma_div_multiples_vanish_fancy(b@[0] as int, b@[1] as int, 256);
        vstd::arithmetic::div_mod::lemma_mod_multiples_vanish(b@[0] as int, b@[1] as int, 256);
        vstd::arithmetic::div_mod::lemma_small_mod(b@[1] as nat, 256);
        assert(port_be(r) =~= b@);
    }
    r
}

/// The ten-byte reply `05 REP 00 01 0.0.0.0 0`, as the server answers a
/// CONNECT request.
pub fn socks5_reply(rep: u8) -> (r: Vec<u8>)
    ensures
        r@ == seq![5u8, rep, 0u8, 1u8, 0u8, 0u8, 0u8, 0u8, 0u8, 0u8],
{
    let mut reply: Vec<u8> = Vec::new();
    reply.push(5);
    reply.push(rep);
    reply.push(0);
    reply.push(1);
    reply.push(0);
    reply.push(0);
    reply.push(0);
    reply.push(0);
    reply.push(0);
    reply.push(0);
    assert(reply@ =~= seq![5u8, rep, 0u8, 1u8, 0u8, 0u8, 0u8, 0u8, 0u8, 0u8]);
    reply
}

/// The client greeting towards an upstream SOCKS5 proxy: one method,
/// no-auth or username/password.
pub fn client_greeting(auth_enable: bool) -> (r: Vec<u8>)
    ensures
        auth_enable ==> r@ == seq![5u8, 1u8, 2u8],
        !auth_enable ==> r@ == seq![5u8, 1u8, 0u8],
{
    let mut g: Vec<u8> = Vec::new();
    g.push(5);
    g.push(1);
    if auth_enable {
        g.push(2);
        assert(g@ =~= seq![5u8, 1u8, 2u8]);
    } else {
        g.push(0);
        assert(g@ =~= seq![5u8, 1u8, 0u8]);
    }
    g
}

/// Checks the upstream's method selection against what was requested.
pub fn check_method_reply(reply: &[u8], auth_enable: bool) -> (r: bool)
    requires
        reply@.len() == 2,
    ensures
        r == (reply@[0] == 5 && reply@[1] == (if auth_enable { 2u8 } else { 0u8 })),
{
    let want: u8 = if auth_enable { 2 } else { 0 };
    reply[0] == 5 && reply[1] == want
}

/// The username/password message sent upstream, with the leading 0x05
/// version byte this proxy's upstreams expect.
pub fn client_auth_message(username: &str, password: &str) -> (r: Option<Vec<u8>>)
    ensures
        r is Some <==> username.spec_bytes().len() <= 255 && password.spec_bytes().len() <= 255,
        r matches Some(v) ==> v@ == seq![5u8, username.spec_bytes().len() as u8]
            + username.spec_bytes() + seq![password.spec_bytes().len() as u8]
            + password.spec_bytes(),
{
    let ub = username.as_bytes();
    let pb = password.as_bytes();
    if ub.len() > 255 || pb.len() > 255 {
        return None;
    }
    let mut msg: Vec<u8> = Vec::new();
    msg.push(5);
    msg.push(ub.len() as u8);
    let mut i: usize = 0;
    let un = ub.len();
    while i < un
        invariant
            i <= un,
            un == ub@.len(),
            ub@ == username.spec_bytes(),
            msg@ == seq![5u8, un as u8] + ub@.take(i as int),
        decreases un - i,
    {
        msg.push(ub[i]);
        assert(msg@ =~= seq![5u8, un as u8] + ub@.take(i + 1));
        i = i + 1;
    }
    assert(ub@.take(un as int) =~= ub@);
    msg.push(pb.len() as u8);
    let pn = pb.len();
    let ghost base = msg@;
    let mut j: usize = 0;
    while j < pn
        invariant
            j <= pn,
            pn == pb@.len(),
            pb@ == password.spec_bytes(),
            msg@ == base + pb@.take(j as int),
        decreases pn - j,
    {
        msg.push(pb[j]);
        assert(msg@ =~= base + pb@.take(j + 1));
        j = j + 1;
    }
    assert(pb@.take(pn as int) =~= pb@);
    proof {
        assert(base =~= seq![5u8, un as u8] + ub@ + seq![pn as u8]);
        assert(msg@ =~= seq![5u8, username.spec_bytes().len() as u8] + username.spec_bytes()
            + seq![password.spec_bytes().len() as u8] + password.spec_bytes());
    }
    Some(msg)
}

/// Checks the two-byte sub-negotiation answer: the status must be zero.
pub fn check_auth_reply(reply: &[u8]) -> (r: bool)
    requires
        reply@.len() == 2,
    ensures
        r == (reply@[1] == 0),
{
    reply[1] == 0
}

/// Checks the first four bytes of the upstream's CONNECT reply: the
/// reply code must be zero.
pub fn check_reply_head(reply: &[u8]) -> (r: bool)
    requires
        reply@.len() == 4,
    ensures
        r == (reply@[1] == 0),
{
    reply[1] == 0
}

/// The wire form of one request address: the address type byte, then
/// the raw address, a domain prefixed with its length.
pub open spec fn spec_wire_addr(atyp: u8, raw: Seq<u8>) -> Seq<u8> {
    if atyp == 3 {
        seq![atyp, raw.len() as u8] + raw
    } else {
        seq![atyp] + raw
    }
}

/// The address part of a CONNECT request for a target host, derived by
/// classifying the host text.  A domain longer than the one-byte length
/// field allows has no encoding.
pub open spec fn spec_socks5_addr(host: Seq<u8>) -> Option<Seq<u8>> {
    match spec_host_type(host) {
        HostType::Ipv4 => {
            let (a, b, c, d) = spec_parse_ipv4(host).unwrap();
            Some(seq![1u8, a, b, c, d])
        },
        HostType::Ipv6 => Some(seq![4u8] + groups_bytes(spec_parse_ipv6(host).unwrap())),
        HostType::Domain => if 1 <= host.len() <= 255 {
            Some(seq![3u8, host.len() as u8] + host)
        } else {
            None
        },
    }
}

/// The whole CONNECT request for a target: `05 01 00`, the address, and
/// the big-endian port.
pub open spec fn spec_socks5_request(host: Seq<u8>, port: u16) -> Option<Seq<u8>> {
    match spec_socks5_addr(host) {
        None => None,
        Some(addr) => Some(seq![5u8, 1u8, 0u8] + addr + port_be(port)),
    }
}

/// Builds the CONNECT request sent to an upstream SOCKS5 proxy for a
/// target host and port.
pub fn socks5_connect_request(host: &str, port: u16) -> (r: Option<Vec<u8>>)
    ensures
        r is Some <==> spec_socks5_request(host.spec_bytes(), port) is Some,
        r matches Some(v) ==> spec_socks5_request(host.spec_bytes(), port) == Some(v@),
{
    let hb = host.as_bytes();
    let mut msg: Vec<u8> = Vec::new();
    msg.push(5);
    msg.push(1);
    msg.push(0);
    assert(msg@ =~= seq![5u8, 1u8, 0u8]);
    let ghost head = msg@;
    if let Some((a, b, c, d)) = parse_ipv4(hb) {
        msg.push(1);
        msg.push(a);
        msg.push(b);
        msg.push(c);
        msg.push(d);
        assert(msg@ =~= head + seq![1u8, a, b, c, d]);
    } else if let Some(groups) = parse_ipv6(hb) {
        msg.push(4);
        let mut i: usize = 0;
        while i < 8
            invariant
                i <= 8,
                groups@.len() == 8,
                msg@ == head + seq![4u8] + groups_bytes(groups@).take(2 * i as int),
            decreases 8 - i,
        {
            let g = groups[i];
            msg.push((g / 256) as u8);
            msg.push((g % 256) as u8);
            assert(msg@ =~= head + seq![4u8] + groups_bytes(groups@).take(2 * (i + 1)));
            i = i + 1;
        }
        assert(groups_bytes(groups@).take(16) =~= groups_bytes(groups@));
    } else {
        let n = hb.len();
        if n == 0 || n > 255 {
            return None;
        }
        msg.push(3);
        msg.push(n as u8);
        let ghost base = msg@;
        let mut i: usize = 0;
        while i < n
            invariant
                i <= n,
                n == hb@.len(),
                msg@ == base + hb@.take(i as int),
            decreases n - i,
        {
            msg.push(hb[i]);
            assert(msg@ =~= base + hb@.take(i + 1));
            i = i + 1;
        }
        assert(hb@.take(n as int) =~= hb@);
        assert(msg@ =~= head + (seq![3u8, n as u8] + hb@));
    }
    let ghost with_addr = msg@;
    msg.push((port / 256) as u8);
    msg.push((port % 256) as u8);
    assert(msg@ =~= with_addr + port_be(port));
    proof {
        assert(spec_socks5_addr(host.spec_bytes()) matches Some(addr) && with_addr == head + addr);
    }
    Some(msg)
}

/// Law: the address a SOCKS5 client sent is re-encoded byte-identically
/// when the bridge builds the upstream CONNECT request: the address
/// type, the address bytes and the port round-trip through the textual
/// host form.  A domain that itself spells an IPv4 or IPv6 literal is
/// the one exception, and is excluded by the classification premise.
pub proof fn lemma_socks5_addr_round_trip(atyp: u8, raw: Seq<u8>, host: Seq<u8>)
    requires
        atyp == 1 || atyp == 3 || atyp == 4,
        atyp == 1 ==> raw.len() == 4 && host == ipv4_text(raw[0], raw[1], raw[2], raw[3]),
        atyp == 4 ==> raw.len() == 16 && host == ipv6_text(bytes_groups(raw)),
        atyp == 3 ==> 1 <= raw.len() <= 255 && host == raw && spec_host_type(raw)
            == HostType::Domain,
    ensures
        spec_socks5_addr(host) == Some(spec_wire_addr(atyp, raw)),
{
    if atyp == 1 {
        lemma_parse_ipv4_text(raw[0], raw[1], raw[2], raw[3]);
        assert(spec_host_type(host) == HostType::Ipv4);
        assert(seq![1u8, raw[0], raw[1], raw[2], raw[3]] =~= spec_wire_addr(1, raw));
    } else if atyp == 4 {
        let g = bytes_groups(raw);
        lemma_parse_ipv6_text(g);
        lemma_ipv6_text_not_ipv4(g);
        assert(spec_host_type(host) == HostType::Ipv6);
        lemma_bytes_groups_id(raw);
        assert(seq![4u8] + groups_bytes(g) =~= spec_wire_addr(4, raw));
    } else {
        assert(spec_socks5_addr(host) == Some(seq![3u8, raw.len() as u8] + raw));
    }
}

/// Law: in a SOCKS5-to-SOCKS5 bridge the whole upstream CONNECT request
/// is `05 01 00` followed byte-identically by the address type, address
/// bytes and port bytes the client sent.
pub proof fn lemma_socks5_request_round_trip(
    atyp: u8,
    raw: Seq<u8>,
    host: Seq<u8>,
    port_bytes: Seq<u8>,
    port: u16,
)
    requires
        atyp == 1 || atyp == 3 || atyp == 4,
        atyp == 1 ==> raw.len() == 4 && host == ipv4_text(raw[0], raw[1], raw[2], raw[3]),
        atyp == 4 ==> raw.len() == 16 && host == ipv6_text(bytes_groups(raw)),
        atyp == 3 ==> 1 <= raw.len() <= 255 && host == raw && spec_host_type(raw)
            == HostType::Domain,
        port_bytes.len() == 2,
        port as int == port_bytes[0] * 256 + port_bytes[1],
    ensures
        spec_socks5_request(host, port) == Some(
            seq![5u8, 1u8, 0u8] + spec_wire_addr(atyp, raw) + port_bytes,
        ),
{
    lemma_socks5_addr_round_trip(atyp, raw, host);
    vstd::arithmetic::div_mod::lemma_div_multiples_vanish_fancy(
        port_bytes[0] as int,
        port_bytes[1] as int,
        256,
    );
    vstd::arithmetic::div_mod::lemma_mod_multiples_vanish(
        port_bytes[0] as int,
        port_bytes[1] as int,
        256,
    );
    vstd::arithmetic::div_mod::lemma_small_mod(port_bytes[1] as nat, 256);
    assert(port_be(port) =~= port_bytes);
}

} // verus!
