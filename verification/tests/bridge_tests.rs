use x_proxy::bridge::{after_tunnel_established, http_upstream_payload, ClientAction};

#[test]
fn connect_preamble_is_rewritten() {
    // The HTTP-to-HTTP cell replaces a CONNECT preamble with a freshly
    // built CONNECT head for the routed target.
    let preamble = b"CONNECT example.com:443 HTTP/1.1\r\nHost: example.com:443\r\n\r\n".to_vec();
    let sent = http_upstream_payload(&preamble, "example.com", 443);
    assert_eq!(
        sent,
        b"CONNECT example.com:443 HTTP/1.1\r\nHost: example.com:443\r\n\r\n".to_vec()
    );
}

#[test]
fn plain_preamble_is_forwarded_verbatim() {
    let preamble = b"GET /ip HTTP/1.1\r\nHost: httpbin.org\r\nX-Odd:  kept  as-is\r\n\r\n".to_vec();
    let sent = http_upstream_payload(&preamble, "httpbin.org", 80);
    assert_eq!(sent, preamble);
}

#[test]
fn connect_rewrite_targets_routed_host() {
    // Rewriting builds the head from the routed target, not from the
    // original request line.
    let preamble = b"CONNECT original.test:1 HTTP/1.1\r\n\r\n".to_vec();
    let sent = http_upstream_payload(&preamble, "routed.test", 8443);
    assert_eq!(
        sent,
        b"CONNECT routed.test:8443 HTTP/1.1\r\nHost: routed.test:8443\r\n\r\n".to_vec()
    );
}

#[test]
fn tunnel_follow_up_depends_on_method() {
    let connect = b"CONNECT a.test:443 HTTP/1.1\r\n\r\n".to_vec();
    let get = b"GET / HTTP/1.1\r\nHost: a.test\r\n\r\n".to_vec();
    assert_eq!(after_tunnel_established(&connect), ClientAction::ReplyEstablished);
    assert_eq!(after_tunnel_established(&get), ClientAction::ForwardPreamble);
}
