use x_proxy::http_head::{
    connect_head, find_host, http_200_established, http_400, http_502, is_connect, parse_url,
    reason_phrase, response_is_success, separate_headers, RequestHead, ResponseHead,
};

#[test]
fn canned_responses() {
    assert_eq!(
        http_400(),
        b"HTTP/1.1 400 Bad Request\r\nContent-Length: 0\r\n\r\n".to_vec()
    );
    assert_eq!(
        http_502(),
        b"HTTP/1.1 502 Bad Gateway\r\nContent-Length: 0\r\n\r\n".to_vec()
    );
    assert_eq!(
        http_200_established(),
        b"HTTP/1.1 200 Connection Established\r\n\r\n".to_vec()
    );
}

#[test]
fn connect_detection() {
    assert!(is_connect(b"CONNECT example.com:443 HTTP/1.1\r\n\r\n"));
    assert!(!is_connect(b"GET / HTTP/1.1\r\n\r\n"));
    assert!(!is_connect(b"CONNECT"));
    assert!(!is_connect(b""));
}

#[test]
fn connect_head_exact_bytes() {
    let head = connect_head("example.com", 443);
    assert_eq!(
        head,
        b"CONNECT example.com:443 HTTP/1.1\r\nHost: example.com:443\r\n\r\n".to_vec()
    );
}

#[test]
fn find_host_with_port() {
    let preamble = b"GET / HTTP/1.1\r\nHost: example.com:8443\r\nAccept: */*\r\n\r\n";
    let (host, port) = find_host(preamble).unwrap();
    assert_eq!(host, "example.com");
    assert_eq!(port, 8443);
}

#[test]
fn find_host_defaults_to_port_80() {
    let preamble = b"GET /ip HTTP/1.1\r\nHost: httpbin.org\r\n\r\n";
    let (host, port) = find_host(preamble).unwrap();
    assert_eq!(host, "httpbin.org");
    assert_eq!(port, 80);
}

#[test]
fn find_host_trims_the_value() {
    let preamble = b"GET / HTTP/1.1\r\nHost: \tpadded.test \r\n\r\n";
    let (host, port) = find_host(preamble).unwrap();
    assert_eq!(host, "padded.test");
    assert_eq!(port, 80);
}

#[test]
fn find_host_takes_first_host_line() {
    let preamble = b"GET / HTTP/1.1\r\nHost: first.test\r\nHost: second.test\r\n\r\n";
    let (host, _) = find_host(preamble).unwrap();
    assert_eq!(host, "first.test");
}

#[test]
fn find_host_is_case_sensitive_and_total() {
    assert!(find_host(b"GET / HTTP/1.1\r\nhost: lower.test\r\n\r\n").is_none());
    assert!(find_host(b"GET / HTTP/1.1\r\n\r\n").is_none());
    assert!(find_host(b"").is_none());
}

#[test]
fn find_host_rejects_bad_port() {
    assert!(find_host(b"GET / HTTP/1.1\r\nHost: a.test:notaport\r\n\r\n").is_none());
    assert!(find_host(b"GET / HTTP/1.1\r\nHost: a.test:99999\r\n\r\n").is_none());
}

#[test]
fn request_decode_fields() {
    let head = RequestHead::decode(b"GET /ip HTTP/1.1\r\nHost: httpbin.org\r\nAccept: */*\r\n\r\n")
        .unwrap();
    assert_eq!(head.method, "GET");
    assert_eq!(head.uri, "/ip");
    assert_eq!(head.version, "HTTP/1.1");
    assert_eq!(head.headers.len(), 2);
    assert_eq!(head.headers[0].0, "host");
    assert_eq!(head.headers[0].1, "httpbin.org");
    assert_eq!(head.headers[1].0, "accept");
    assert_eq!(head.headers[1].1, "*/*");
}

#[test]
fn request_decode_rejects_malformed() {
    assert!(RequestHead::decode(b"").is_none());
    assert!(RequestHead::decode(b"GET /\r\n\r\n").is_none());
    assert!(RequestHead::decode(b"GET / HTTP/1.1 extra\r\n\r\n").is_none());
    assert!(RequestHead::decode(b"GET / HTTP/1.1\r\nno-colon-here\r\n\r\n").is_none());
}

#[test]
fn request_encode_round() {
    let head = RequestHead::decode(b"GET / HTTP/1.1\r\nHost: a.test\r\n\r\n").unwrap();
    let bytes = head.encode();
    assert_eq!(bytes, b"GET / HTTP/1.1\r\nhost: a.test\r\n\r\n".to_vec());
}

#[test]
fn response_decode_fields() {
    let head = ResponseHead::decode(b"HTTP/1.1 200 OK\r\nContent-Length: 2\r\n\r\nok").unwrap();
    assert_eq!(head.version, "HTTP/1.1");
    assert_eq!(head.status, 200);
    assert_eq!(head.headers[0].0, "content-length");
    assert_eq!(head.headers[0].1, "2");
}

#[test]
fn response_decode_rejects_malformed() {
    assert!(ResponseHead::decode(b"").is_none());
    assert!(ResponseHead::decode(b"HTTP/1.1\r\n\r\n").is_none());
    assert!(ResponseHead::decode(b"HTTP/1.1 abc\r\n\r\n").is_none());
}

#[test]
fn response_encode_bytes() {
    let head = ResponseHead {
        status: 502,
        version: "HTTP/1.1".to_string(),
        headers: vec![("content-length".to_string(), "0".to_string())],
    };
    assert_eq!(
        head.encode(),
        b"HTTP/1.1 502 Bad Gateway\r\ncontent-length: 0\r\n\r\n".to_vec()
    );
}

#[test]
fn reason_phrases() {
    assert_eq!(reason_phrase(200), "OK");
    assert_eq!(reason_phrase(502), "Bad Gateway");
    assert_eq!(reason_phrase(418), "Unknown Status");
}

#[test]
fn success_statuses() {
    assert!(response_is_success(b"HTTP/1.1 200 OK\r\n\r\n"));
    assert!(response_is_success(b"HTTP/1.1 204 No Content\r\n\r\n"));
    assert!(!response_is_success(b"HTTP/1.1 502 Bad Gateway\r\n\r\n"));
    assert!(!response_is_success(b"garbage"));
}

#[test]
fn separate_headers_at_first_empty_line() {
    let (head, body) = separate_headers(b"HTTP/1.1 200 OK\r\nA: b\r\n\r\nbody bytes").unwrap();
    assert_eq!(head, "HTTP/1.1 200 OK\r\nA: b");
    assert_eq!(body, b"body bytes".to_vec());
}

#[test]
fn separate_headers_without_terminator() {
    assert!(separate_headers(b"HTTP/1.1 200 OK\r\nA: b\r\n").is_none());
}

#[test]
fn parse_url_forms() {
    let (host, port, path) = parse_url("http://files.test/rules/list.yaml").unwrap();
    assert_eq!(host, "files.test");
    assert_eq!(port, 80);
    assert_eq!(path, "/rules/list.yaml");

    let (host, port, path) = parse_url("http://files.test:8080/a").unwrap();
    assert_eq!(host, "files.test");
    assert_eq!(port, 8080);
    assert_eq!(path, "/a");

    let (host, port, _) = parse_url("bare.test").unwrap();
    assert_eq!(host, "bare.test");
    assert_eq!(port, 80);

    assert!(parse_url("http://files.test:badport/a").is_none());
}
