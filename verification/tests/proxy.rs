use mellow_client::headers::{copy_headers, first_header_value, is_upgrade, Header};
use mellow_client::rewrite::{rewrite_location, rewrite_set_cookie};
use mellow_client::target::{stable_hash, Target, PROXY_PORT_BASE, PROXY_PORT_SPAN};

fn text(v: Vec<u8>) -> String {
    String::from_utf8(v).unwrap()
}

#[test]
fn target_parse_host_port() {
    let t = Target::parse("https://192.168.1.5:6767").unwrap();
    assert_eq!(
        (t.host.as_str(), t.port, t.authority.as_str()),
        ("192.168.1.5", 6767, "192.168.1.5:6767")
    );
    let t = Target::parse("https://chat.lan/").unwrap();
    assert_eq!((t.host.as_str(), t.port), ("chat.lan", 443));
    let t = Target::parse("http://[::1]:6767").unwrap();
    assert_eq!((t.host.as_str(), t.port), ("[::1]", 6767));
    assert!(Target::parse("ftp://x").is_err());
}

#[test]
fn stable_port_is_deterministic_and_in_range() {
    let a = PROXY_PORT_BASE + (stable_hash("https://192.168.1.5:6767") % PROXY_PORT_SPAN);
    let b = PROXY_PORT_BASE + (stable_hash("https://192.168.1.5:6767") % PROXY_PORT_SPAN);
    let c = PROXY_PORT_BASE + (stable_hash("https://192.168.1.9:6767") % PROXY_PORT_SPAN);
    assert_eq!(a, b);
    assert_ne!(a, c);
    assert!((21500..31500).contains(&a));
}

#[test]
fn location_absolute_rewritten_relative_kept() {
    let v = rewrite_location(
        &b"https://192.168.1.5:6767/login?x=1".to_vec(),
        "http://127.0.0.1:21500",
    );
    assert_eq!(text(v), "http://127.0.0.1:21500/login?x=1");
    let v = rewrite_location(&b"/dash".to_vec(), "http://127.0.0.1:21500");
    assert_eq!(text(v), "/dash");
}

#[test]
fn set_cookie_secure_dropped_domain_rewritten() {
    let v = rewrite_set_cookie(
        &b"sid=abc; Path=/; HttpOnly; Secure; Domain=192.168.1.5; SameSite=None".to_vec(),
    );
    assert_eq!(
        text(v),
        "sid=abc; Path=/; HttpOnly; Domain=127.0.0.1; SameSite=Lax"
    );
    let v = rewrite_set_cookie(&b"t=1".to_vec());
    assert_eq!(text(v), "t=1");
}

#[test]
fn upgrade_detection() {
    let req = vec![
        Header::new("connection", b"Upgrade"),
        Header::new("upgrade", b"websocket"),
    ];
    assert!(is_upgrade(&req));
    let req = vec![Header::new("connection", b"keep-alive")];
    assert!(!is_upgrade(&req));
}

#[test]
fn hop_by_hop_not_copied() {
    let from = vec![
        Header::new("host", b"127.0.0.1:21500"),
        Header::new("connection", b"keep-alive"),
        Header::new("cookie", b"a=b"),
    ];
    let mut to = Vec::new();
    copy_headers(&from, &mut to);
    assert!(first_header_value(&to, "host").is_none());
    assert!(first_header_value(&to, "connection").is_none());
    assert_eq!(first_header_value(&to, "cookie").unwrap(), b"a=b".to_vec());
}

use mellow_client::headers::{local_origin, upstream_request_headers, upstream_target};
use mellow_client::rewrite::rewrite_response_headers;
use mellow_client::target::{preferred_port, split_authority};
use mellow_client::upgrade::{check_upgrade_status, parse_response_header_line, upgrade_request_head, HeaderLine};

fn pairs(hs: &[Header]) -> Vec<(String, Vec<u8>)> {
    hs.iter().map(|h| (h.name.clone(), h.value.clone())).collect()
}

#[test]
fn split_authority_cases() {
    assert_eq!(split_authority("[::1]", 443), ("[::1]".to_string(), 443));
    assert_eq!(split_authority("[::1]x", 80), ("[::1]".to_string(), 80));
    assert_eq!(split_authority("[::1]:bad", 80), ("[::1]".to_string(), 80));
    assert_eq!(split_authority("h:", 80), ("h:".to_string(), 80));
    assert_eq!(split_authority(":80", 443), (":80".to_string(), 443));
    assert_eq!(split_authority("a:b:8080", 443), ("a:b".to_string(), 8080));
    assert_eq!(split_authority("[::1", 443), ("[:".to_string(), 1));
}

#[test]
fn target_errors_and_paths() {
    assert_eq!(Target::parse("no-scheme").err().unwrap(), "proxy: invalid url");
    assert_eq!(Target::parse("ws://x").err().unwrap(), "proxy: unsupported scheme");
    let t = Target::parse("http://host:8080/some/path").unwrap();
    assert_eq!((t.host.as_str(), t.port, t.authority.as_str()), ("host", 8080, "host:8080"));
}

#[test]
fn preferred_port_in_range() {
    for u in ["https://192.168.1.5:6767", "", "http://x"] {
        let p = preferred_port(u);
        assert!((21500..31500).contains(&p));
        assert_eq!(p, PROXY_PORT_BASE + stable_hash(u) % PROXY_PORT_SPAN);
    }
}

#[test]
fn location_without_path_and_invalid_bytes() {
    let v = rewrite_location(&b"http://192.168.1.5:6767".to_vec(), "http://127.0.0.1:21500");
    assert_eq!(text(v), "http://127.0.0.1:21500");
    let raw = vec![b'h', b't', 0xff];
    assert_eq!(rewrite_location(&raw, "http://127.0.0.1:21500"), raw);
}

#[test]
fn set_cookie_case_and_order() {
    let v = rewrite_set_cookie(&b"a=1; SameSite=None; secure; DOMAIN=x".to_vec());
    assert_eq!(text(v), "a=1; SameSite=Lax; Domain=127.0.0.1");
    let v = rewrite_set_cookie(&b"a=1; SECURE; samesite=none".to_vec());
    assert_eq!(text(v), "a=1; SameSite=Lax");
}

#[test]
fn samesite_none_before_secure_becomes_lax() {
    let v = rewrite_set_cookie(&b"sid=abc; SameSite=None; Secure".to_vec());
    assert_eq!(text(v), "sid=abc; SameSite=Lax");
}

#[test]
fn origin_and_upstream_request() {
    let req = vec![
        Header::new("host", b"127.0.0.1:21500"),
        Header::new("keep-alive", b"5"),
        Header::new("accept", b"*/*"),
    ];
    assert_eq!(local_origin(&req), "http://127.0.0.1:21500");
    assert_eq!(local_origin(&Vec::new()), "http://127.0.0.1");
    let up = upstream_request_headers(&req, "192.168.1.5:6767");
    assert_eq!(
        pairs(&up),
        vec![
            ("accept".to_string(), b"*/*".to_vec()),
            ("host".to_string(), b"192.168.1.5:6767".to_vec()),
        ]
    );
    let up = upstream_request_headers(&Vec::new(), "bad\nauthority");
    assert_eq!(pairs(&up), vec![("host".to_string(), b"localhost".to_vec())]);
    assert_eq!(upstream_target(None), "/");
    assert_eq!(upstream_target(Some("/a?b")), "/a?b");
}

#[test]
fn response_headers_rewritten() {
    let res = vec![
        Header::new("transfer-encoding", b"chunked"),
        Header::new("location", b"https://192.168.1.5:6767/target"),
        Header::new("set-cookie", b"sid=abc; Path=/; HttpOnly; Secure"),
        Header::new("content-type", b"text/html"),
    ];
    let out = rewrite_response_headers(&res, "http://127.0.0.1:21500");
    assert_eq!(
        pairs(&out),
        vec![
            ("location".to_string(), b"http://127.0.0.1:21500/target".to_vec()),
            ("set-cookie".to_string(), b"sid=abc; Path=/; HttpOnly".to_vec()),
            ("content-type".to_string(), b"text/html".to_vec()),
        ]
    );
}

#[test]
fn websocket_handshake_head() {
    let req = vec![
        Header::new("host", b"127.0.0.1:21500"),
        Header::new("upgrade", b"websocket"),
        Header::new("connection", b"Upgrade"),
        Header::new("keep-alive", b"5"),
        Header::new("sec-websocket-key", b"dGhlIHNhbXBsZSBub25jZQ=="),
    ];
    let head = upgrade_request_head("GET", "/ws", &req, "192.168.1.5:6767");
    assert_eq!(
        head,
        "GET /ws HTTP/1.1\r\nupgrade: websocket\r\nconnection: Upgrade\r\nsec-websocket-key: dGhlIHNhbXBsZSBub25jZQ==\r\nHost: 192.168.1.5:6767\r\n\r\n"
    );
}

#[test]
fn websocket_answer_lines() {
    assert!(check_upgrade_status("HTTP/1.1 101 Switching Protocols\r\n").is_ok());
    assert_eq!(
        check_upgrade_status("HTTP/1.1 404 Not Found\r\n").unwrap_err(),
        "proxy ws: upstream said HTTP/1.1 404 Not Found"
    );
    assert!(matches!(parse_response_header_line("\r\n"), HeaderLine::End));
    assert!(matches!(parse_response_header_line("no colon\r\n"), HeaderLine::Skip));
    assert!(matches!(parse_response_header_line("bad name: x\r\n"), HeaderLine::Skip));
    match parse_response_header_line("Sec-WebSocket-Accept:  abc= \r\n") {
        HeaderLine::Field(h) => {
            assert_eq!(h.name, "sec-websocket-accept");
            assert_eq!(h.value, b"abc=".to_vec());
        }
        _ => panic!("expected a header"),
    }
}

#[test]
fn plain_cookie_passes_unchanged() {
    let raw = b"a=1; Path=/; HttpOnly; SameSite=None; Max-Age=60".to_vec();
    assert_eq!(rewrite_set_cookie(&raw), raw);
}

#[test]
fn set_cookie_rewrite_twice_is_once() {
    for raw in [
        b"sid=abc; SameSite=None; Secure; Domain=x.lan; Path=/".to_vec(),
        b"a=1; samesite=none".to_vec(),
        b"a=1;; ; b".to_vec(),
    ] {
        let once = rewrite_set_cookie(&raw);
        assert_eq!(rewrite_set_cookie(&once), once);
    }
}
