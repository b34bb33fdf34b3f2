use mellow_client::address::{host_port_of, normalize_url};
use mellow_client::discovery::{discovered_from, Discovered, DiscoveryLog};
use mellow_client::keepalive::{set_badge, set_connected};
use mellow_client::navigation::{decide_navigation, NavAction, Navigation, Origin};
use mellow_client::registry::{local_proxy_url, ProxyRegistry, ProxyRoute};
use mellow_client::settings::Settings;
use mellow_client::shell::{
    is_launcher_page, launcher_base, launcher_target, reach_verdict, unread_tooltip, use_proxy,
};

fn err(r: Result<String, String>) -> String {
    r.unwrap_err()
}

#[test]
fn normalize_adds_scheme_and_default_port() {
    assert_eq!(normalize_url("192.168.1.5").unwrap(), "https://192.168.1.5:6767");
    assert_eq!(normalize_url("  http://chat.lan:80/ ").unwrap(), "http://chat.lan:80");
    assert_eq!(
        normalize_url("chat.yourdomain.com:443").unwrap(),
        "https://chat.yourdomain.com:443"
    );
    assert_eq!(normalize_url("https://box//").unwrap(), "https://box:6767");
    assert_eq!(normalize_url("a:+80").unwrap(), "https://a:+80");
}

#[test]
fn normalize_refusals() {
    assert_eq!(
        err(normalize_url("   ")),
        "Enter a server address, e.g. 192.168.1.5:6767"
    );
    assert_eq!(err(normalize_url("///")), "Enter a server address, e.g. 192.168.1.5:6767");
    assert_eq!(
        err(normalize_url("https://a/b")),
        "That does not look like a server address"
    );
    assert_eq!(err(normalize_url("my server")), "That does not look like a server address");
    assert_eq!(err(normalize_url("http://")), "Invalid port in address");
    assert_eq!(err(normalize_url("a:xyz")), "Invalid port in address");
    assert_eq!(err(normalize_url(":80")), "Invalid port in address");
    assert_eq!(err(normalize_url("a:70000")), "Invalid port in address");
}

#[test]
fn normalize_is_idempotent_on_examples() {
    for input in ["192.168.1.5", " http://chat.lan/ ", "a:+80", "host:1"] {
        let once = normalize_url(input).unwrap();
        assert_eq!(normalize_url(&once).unwrap(), once);
        assert!(host_port_of(&once).is_ok());
    }
}

#[test]
fn host_port_of_reads_saved_urls() {
    assert_eq!(
        host_port_of("https://192.168.1.5:6767").unwrap(),
        ("192.168.1.5".to_string(), 6767)
    );
    assert_eq!(host_port_of("https://chat.lan/x").unwrap(), ("chat.lan".to_string(), 443));
    assert_eq!(host_port_of("http://h").unwrap(), ("h".to_string(), 80));
    assert_eq!(host_port_of("nope").unwrap_err(), "Invalid url");
    assert_eq!(host_port_of("https://h:99999").unwrap_err(), "Invalid port");
}

#[test]
fn remember_moves_to_end_and_keeps_five() {
    let mut s = Settings::default();
    for u in ["a", "b", "c", "d", "e", "f"] {
        s.remember(u.to_string());
    }
    assert_eq!(s.servers, vec!["b", "c", "d", "e", "f"]);
    s.remember("c".to_string());
    assert_eq!(s.servers, vec!["b", "d", "e", "f", "c"]);
    assert_eq!(s.last.as_deref(), Some("c"));
    s.remember("c".to_string());
    assert_eq!(s.servers, vec!["b", "d", "e", "f", "c"]);
}

#[test]
fn forget_removes_and_clears_last() {
    let mut s = Settings { servers: vec!["a".to_string(), "b".to_string()], last: Some("b".to_string()) };
    assert!(!s.forget(&"a".to_string()));
    assert_eq!(s.servers, vec!["b"]);
    assert_eq!(s.last.as_deref(), Some("b"));
    assert!(s.forget(&"b".to_string()));
    assert!(s.servers.is_empty());
    assert_eq!(s.last, None);
}

#[test]
fn registry_routes_and_records() {
    let mut r = ProxyRegistry::new();
    let t = "https://192.168.1.5:6767".to_string();
    assert!(matches!(r.route(false, &t), ProxyRoute::Direct));
    assert!(matches!(r.route(true, &t), ProxyRoute::Start));
    assert_eq!(r.record_started(t.clone(), 21877), "http://127.0.0.1:21877");
    match r.route(true, &t) {
        ProxyRoute::Existing(u) => assert_eq!(u, "http://127.0.0.1:21877"),
        _ => panic!("expected the existing proxy"),
    }
    assert!(r.has_port(21877));
    assert!(!r.has_port(21878));
    r.insert(t.clone(), 30000);
    assert_eq!(r.port_for(&t), Some(30000));
    assert!(!r.has_port(21877));
    assert_eq!(local_proxy_url(7), "http://127.0.0.1:7");
}

#[test]
fn discovery_reads_replies_once_per_url() {
    let mut log = DiscoveryLog::new();
    assert!(log.receive(br#"{"service":"mellow","port":7000,"https":false,"name":"Home"}"#, "192.168.1.5"));
    assert!(!log.receive(br#"{"service":"mellow","port":7000,"https":false,"name":"Again"}"#, "192.168.1.5"));
    assert!(log.receive(br#"{"service":"mellow"}"#, "192.168.1.9"));
    assert!(!log.receive(br#"{"service":"other"}"#, "192.168.1.7"));
    assert!(!log.receive(b"not json", "192.168.1.8"));
    let found: Vec<(String, String)> = log.into_results().into_iter().map(|d| (d.url, d.name)).collect();
    assert_eq!(
        found,
        vec![
            ("http://192.168.1.5:7000".to_string(), "Home".to_string()),
            ("https://192.168.1.9:6767".to_string(), "Mellow".to_string()),
        ]
    );
}

#[test]
fn discovered_from_defaults() {
    let d: Discovered = discovered_from(Some("mellow".to_string()), None, None, None, "10.0.0.2").unwrap();
    assert_eq!((d.url.as_str(), d.name.as_str()), ("https://10.0.0.2:6767", "Mellow"));
    assert!(discovered_from(None, Some(1), Some(true), None, "10.0.0.2").is_none());
}

fn nav(url: &str, scheme: &str, host: Option<&str>, port: Option<u16>, path: &str, param: Option<&str>) -> Navigation {
    Navigation {
        url: url.to_string(),
        scheme: scheme.to_string(),
        host: host.map(|h| h.to_string()),
        port,
        path: path.to_string(),
        url_param: param.map(|p| p.to_string()),
    }
}

#[test]
fn navigation_decisions() {
    let mut proxies = ProxyRegistry::new();
    proxies.insert("https://192.168.1.5:6767".to_string(), 21877);
    let saved = vec![Origin { host: Some("192.168.1.5".to_string()), port: Some(6767) }];

    let (a, c) = decide_navigation(&nav("mellow-desktop://open-url?url=x", "mellow-desktop", Some("open-url"), None, "", Some("https://example.com/")), &saved, &proxies);
    assert!(matches!(a, NavAction::OpenExternal(ref u) if u == "https://example.com/"));
    assert_eq!(c, None);
    let (a, _) = decide_navigation(&nav("mellow-desktop://open-url", "mellow-desktop", Some("open-url"), None, "", None), &saved, &proxies);
    assert!(matches!(a, NavAction::Block));
    let (a, _) = decide_navigation(&nav("mellow-desktop:/switch-server", "mellow-desktop", None, None, "/switch-server", None), &saved, &proxies);
    assert!(matches!(a, NavAction::SwitchServer));
    let (a, c) = decide_navigation(&nav("https://192.168.1.5:6767/", "https", Some("192.168.1.5"), Some(6767), "/", None), &saved, &proxies);
    assert!(matches!(a, NavAction::Allow));
    assert_eq!(c, Some(true));
    let (a, c) = decide_navigation(&nav("http://127.0.0.1:21877/", "http", Some("127.0.0.1"), Some(21877), "/", None), &saved, &proxies);
    assert!(matches!(a, NavAction::Allow));
    assert_eq!(c, Some(true));
    let (a, c) = decide_navigation(&nav("http://tauri.localhost/index.html", "http", Some("tauri.localhost"), None, "/index.html", None), &saved, &proxies);
    assert!(matches!(a, NavAction::Allow));
    assert_eq!(c, Some(false));
    let (a, c) = decide_navigation(&nav("https://example.com/", "https", Some("example.com"), None, "/", None), &saved, &proxies);
    assert!(matches!(a, NavAction::OpenExternal(ref u) if u == "https://example.com/"));
    assert_eq!(c, None);
    let (a, _) = decide_navigation(&nav("tauri://localhost", "tauri", Some("localhost"), None, "", None), &saved, &proxies);
    assert!(matches!(a, NavAction::Allow));
}

#[test]
fn keepalive_dispatches_on_change_only() {
    let mut flag = false;
    assert!(!set_connected(&mut flag, false));
    assert!(set_connected(&mut flag, true));
    assert!(!set_connected(&mut flag, true));
    assert!(flag);
    assert_eq!(set_badge(true, "3+").as_deref(), Some("3+"));
    assert_eq!(set_badge(false, "3+"), None);
}

#[test]
fn shell_decisions() {
    assert!(use_proxy(false, None));
    assert!(!use_proxy(true, None));
    assert!(use_proxy(true, Some("1")));
    assert!(!use_proxy(true, Some("yes")));
    assert_eq!(reach_verdict("https://a:1".to_string(), true).unwrap(), "https://a:1");
    assert_eq!(reach_verdict("https://a:1".to_string(), false).unwrap_err(), "Could not reach https://a:1");
    assert_eq!(launcher_target(None), "http://tauri.localhost/index.html");
    let stored = "http://tauri.localhost/index.html?x=1".to_string();
    assert_eq!(launcher_target(Some(&stored)), stored);
    assert_eq!(launcher_base(Some(&stored)), "http://tauri.localhost/index.html");
    assert!(is_launcher_page("http://tauri.localhost/index.html"));
    assert!(!is_launcher_page("about:blank"));
    assert_eq!(unread_tooltip(""), "Mellow");
    assert_eq!(unread_tooltip("12"), "(12) Mellow");
}

#[test]
fn normalized_url_names_its_host_and_default_port() {
    let u = normalize_url("  chat.lan/ ").unwrap();
    assert_eq!(u, "https://chat.lan:6767");
    assert_eq!(host_port_of(&u).unwrap(), ("chat.lan".to_string(), 6767));
    let u = normalize_url("http://10.0.0.2:8080").unwrap();
    assert_eq!(host_port_of(&u).unwrap(), ("10.0.0.2".to_string(), 8080));
}
