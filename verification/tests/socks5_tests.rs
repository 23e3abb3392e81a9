use x_proxy::socks5::{
    addr_len, addr_to_host, auth_reply, check_auth_reply, check_method_reply, check_reply_head,
    check_request_head, client_auth_message, client_greeting, greeting_reply, parse_port,
    socks5_connect_request, socks5_reply, AddrLen, AuthDecision, RequestCheck,
};

#[test]
fn greeting_without_auth_grants_no_auth() {
    let (reply, decision) = greeting_reply(false, &[0x00, 0x02]);
    assert_eq!(reply, vec![0x05, 0x00]);
    assert_eq!(decision, AuthDecision::NoAuth);
}

#[test]
fn greeting_with_auth_selects_userpass() {
    // The client greets `05 01 02`; the method list holds 0x02.
    let (reply, decision) = greeting_reply(true, &[0x02]);
    assert_eq!(reply, vec![0x05, 0x02]);
    assert_eq!(decision, AuthDecision::SubNegotiate);
}

#[test]
fn greeting_with_auth_rejects_without_userpass() {
    let (reply, decision) = greeting_reply(true, &[0x00, 0x01]);
    assert_eq!(reply, vec![0x05, 0xFF]);
    assert_eq!(decision, AuthDecision::Reject);
}

#[test]
fn auth_good_credentials() {
    // Sub-negotiation `01 01 75 01 70`: username "u", password "p".
    let (reply, ok) = auth_reply(
        &Some("u".to_string()),
        &Some("p".to_string()),
        &vec![0x75],
        &vec![0x70],
    );
    assert!(ok);
    assert_eq!(reply, vec![0x01, 0x00]);
}

#[test]
fn auth_bad_credentials() {
    let (reply, ok) = auth_reply(
        &Some("u".to_string()),
        &Some("p".to_string()),
        &vec![0x78],
        &vec![0x70],
    );
    assert!(!ok);
    assert_eq!(reply, vec![0x01, 0x01]);
}

#[test]
fn auth_missing_configured_credential_fails() {
    let (reply, ok) = auth_reply(&None, &Some("p".to_string()), &vec![0x75], &vec![0x70]);
    assert!(!ok);
    assert_eq!(reply, vec![0x01, 0x01]);
}

#[test]
fn request_head_connect() {
    assert_eq!(check_request_head(&[0x05, 0x01, 0x00, 0x01]), RequestCheck::Connect);
    assert_eq!(check_request_head(&[0x05, 0x01, 0x00, 0x03]), RequestCheck::Connect);
    assert_eq!(check_request_head(&[0x05, 0x01, 0x00, 0x04]), RequestCheck::Connect);
}

#[test]
fn request_head_rejects_bad_version_command_and_atyp() {
    assert_eq!(check_request_head(&[0x04, 0x01, 0x00, 0x01]), RequestCheck::BadVersion);
    assert_eq!(check_request_head(&[0x05, 0x02, 0x00, 0x01]), RequestCheck::BadCommand);
    assert_eq!(check_request_head(&[0x05, 0x01, 0x00, 0x05]), RequestCheck::BadAddressType);
}

#[test]
fn addr_lengths_per_type() {
    assert_eq!(addr_len(0x01), Some(AddrLen::Fixed(4)));
    assert_eq!(addr_len(0x03), Some(AddrLen::LengthPrefixed));
    assert_eq!(addr_len(0x04), Some(AddrLen::Fixed(16)));
    assert_eq!(addr_len(0x02), None);
}

#[test]
fn addr_to_host_ipv4() {
    let host = addr_to_host(0x01, &vec![127, 0, 0, 1]).unwrap();
    assert_eq!(host, "127.0.0.1");
}

#[test]
fn addr_to_host_domain() {
    let host = addr_to_host(0x03, &b"example.com".to_vec()).unwrap();
    assert_eq!(host, "example.com");
}

#[test]
fn addr_to_host_domain_rejects_bad_utf8() {
    assert!(addr_to_host(0x03, &vec![0xFF, 0xFE]).is_none());
}

#[test]
fn addr_to_host_ipv6_fixed_width_lowercase() {
    let mut raw = vec![0u8; 16];
    raw[0] = 0x20;
    raw[1] = 0x01;
    raw[2] = 0x0d;
    raw[3] = 0xb8;
    raw[15] = 0x01;
    let host = addr_to_host(0x04, &raw).unwrap();
    assert_eq!(host, "2001:0db8:0000:0000:0000:0000:0000:0001");
}

#[test]
fn port_round_trip() {
    assert_eq!(parse_port(&[0x00, 0x50]), 80);
    assert_eq!(parse_port(&[0x01, 0xBB]), 443);
    assert_eq!(parse_port(&[0xFF, 0xFF]), 65535);
}

#[test]
fn server_reply_bytes() {
    assert_eq!(socks5_reply(0x00), vec![5, 0, 0, 1, 0, 0, 0, 0, 0, 0]);
    assert_eq!(socks5_reply(0x07), vec![5, 7, 0, 1, 0, 0, 0, 0, 0, 0]);
    assert_eq!(socks5_reply(0x01), vec![5, 1, 0, 1, 0, 0, 0, 0, 0, 0]);
}

#[test]
fn client_greeting_bytes() {
    assert_eq!(client_greeting(false), vec![0x05, 0x01, 0x00]);
    assert_eq!(client_greeting(true), vec![0x05, 0x01, 0x02]);
}

#[test]
fn method_reply_checks() {
    assert!(check_method_reply(&[0x05, 0x00], false));
    assert!(!check_method_reply(&[0x05, 0x02], false));
    assert!(check_method_reply(&[0x05, 0x02], true));
    assert!(!check_method_reply(&[0x04, 0x02], true));
}

#[test]
fn client_auth_message_uses_version_five() {
    // The wire format deliberately leads with 0x05, not the RFC 1929
    // sub-negotiation version byte.
    let msg = client_auth_message("u", "p").unwrap();
    assert_eq!(msg, vec![0x05, 0x01, 0x75, 0x01, 0x70]);
}

#[test]
fn client_auth_message_rejects_oversized_credentials() {
    let long = "x".repeat(256);
    assert!(client_auth_message(&long, "p").is_none());
    assert!(client_auth_message("u", &long).is_none());
}

#[test]
fn client_auth_message_accepts_largest_credentials() {
    let user = "u".repeat(255);
    let pass = "p".repeat(255);
    let msg = client_auth_message(&user, &pass).unwrap();
    assert_eq!(msg.len(), 1 + 1 + 255 + 1 + 255);
    assert_eq!(msg[0], 0x05);
    assert_eq!(msg[1], 255);
    assert_eq!(msg[2 + 255], 255);
}

#[test]
fn auth_reply_checks() {
    assert!(check_auth_reply(&[0x05, 0x00]));
    assert!(!check_auth_reply(&[0x05, 0x01]));
    assert!(check_reply_head(&[0x05, 0x00, 0x00, 0x01]));
    assert!(!check_reply_head(&[0x05, 0x04, 0x00, 0x01]));
}

#[test]
fn connect_request_for_domain() {
    // A plain GET for httpbin.org:80 routed through a SOCKS5 upstream.
    let msg = socks5_connect_request("httpbin.org", 80).unwrap();
    let mut expected = vec![0x05, 0x01, 0x00, 0x03, 0x0b];
    expected.extend_from_slice(b"httpbin.org");
    expected.extend_from_slice(&[0x00, 0x50]);
    assert_eq!(msg, expected);
}

#[test]
fn connect_request_for_ipv4() {
    let msg = socks5_connect_request("127.0.0.1", 80).unwrap();
    assert_eq!(msg, vec![0x05, 0x01, 0x00, 0x01, 127, 0, 0, 1, 0x00, 0x50]);
}

#[test]
fn connect_request_for_ipv6() {
    let msg = socks5_connect_request("2001:0db8:0000:0000:0000:0000:0000:0001", 443).unwrap();
    let mut expected = vec![0x05, 0x01, 0x00, 0x04];
    expected.extend_from_slice(&[
        0x20, 0x01, 0x0d, 0xb8, 0, 0, 0, 0, 0, 0, 0, 0, 0, 0, 0, 0x01,
    ]);
    expected.extend_from_slice(&[0x01, 0xBB]);
    assert_eq!(msg, expected);
}

#[test]
fn connect_request_rejects_oversized_domain() {
    let long = "a".repeat(256);
    assert!(socks5_connect_request(&long, 80).is_none());
}

#[test]
fn connect_request_accepts_largest_domain() {
    let long = "a".repeat(255);
    let msg = socks5_connect_request(&long, 80).unwrap();
    assert_eq!(msg[3], 0x03);
    assert_eq!(msg[4], 255);
    assert_eq!(msg.len(), 3 + 2 + 255 + 2);
}

#[test]
fn socks5_to_socks5_address_round_trip() {
    // The address bytes a client sent re-appear byte-identically in the
    // upstream request: ATYP, ADDR and PORT all round-trip.
    let raw = vec![10, 20, 30, 40];
    let host = addr_to_host(0x01, &raw).unwrap();
    let port = parse_port(&[0x1F, 0x90]);
    let msg = socks5_connect_request(&host, port).unwrap();
    assert_eq!(&msg[3..8], &[0x01, 10, 20, 30, 40][..]);
    assert_eq!(&msg[8..10], &[0x1F, 0x90][..]);

    let mut raw6 = vec![0u8; 16];
    raw6[1] = 0xfe;
    raw6[8] = 0x12;
    let host6 = addr_to_host(0x04, &raw6).unwrap();
    let msg6 = socks5_connect_request(&host6, port).unwrap();
    assert_eq!(msg6[3], 0x04);
    assert_eq!(&msg6[4..20], &raw6[..]);

    let domain = b"proxy.test".to_vec();
    let hostd = addr_to_host(0x03, &domain).unwrap();
    let msgd = socks5_connect_request(&hostd, port).unwrap();
    assert_eq!(msgd[3], 0x03);
    assert_eq!(msgd[4] as usize, domain.len());
    assert_eq!(&msgd[5..5 + domain.len()], &domain[..]);
}
