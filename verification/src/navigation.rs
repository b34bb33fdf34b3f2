//! What the window does when a page navigates: the app's own
//! `mellow-desktop:` links, the launcher, saved servers and their local
//! proxies stay in the window; other web pages open in the browser.

use vstd::prelude::*;
use crate::registry::ProxyRegistry;
use crate::text::owned;

verus! {

broadcast use vstd::string::group_string_axioms;

/// A navigation as the window reports it, taken apart.
pub struct Navigation {
    /// The full URL.
    pub url: String,
    pub scheme: String,
    pub host: Option<String>,
    pub port: Option<u16>,
    pub path: String,
    /// The decoded value of the first `url` query parameter.
    pub url_param: Option<String>,
}

/// The host and port of a saved server's URL.
pub struct Origin {
    pub host: Option<String>,
    pub port: Option<u16>,
}

/// What the window does.
pub enum NavAction {
    /// Let the page load in the window.
    Allow,
    /// Stay where it is.
    Block,
    /// Stay where it is and open this URL in the system browser.
    OpenExternal(String),
    /// Stay where it is, then go back to the launcher.
    SwitchServer,
}

/// The view of an optional string.
pub open spec fn text_opt(o: Option<String>) -> Option<Seq<char>> {
    match o {
        Some(s) => Some(s@),
        None => None,
    }
}

/// The action as plain values: 0 allow, 1 block, 2 open this URL outside,
/// 3 switch server.
pub open spec fn action_view(a: NavAction) -> (int, Seq<char>) {
    match a {
        NavAction::Allow => (0, seq![]),
        NavAction::Block => (1, seq![]),
        NavAction::OpenExternal(u) => (2, u@),
        NavAction::SwitchServer => (3, seq![]),
    }
}

/// Whether the navigation leads to the launcher page.
pub open spec fn is_launcher(nav: Navigation) -> bool {
    text_opt(nav.host) == Some("tauri.localhost"@) || text_opt(nav.host) == Some("localhost"@)
        || nav.scheme@ == "tauri"@
}

/// Whether the navigation leads to a saved server (same host and port).
pub open spec fn is_saved_server(nav: Navigation, saved: Seq<Origin>) -> bool {
    exists|i: int|
        0 <= i < saved.len() && text_opt(#[trigger] saved[i].host) == text_opt(nav.host)
            && saved[i].port == nav.port
}

/// Whether the navigation leads to one of this process's local proxies.
pub open spec fn is_proxied_server(nav: Navigation, proxies: Map<Seq<char>, u16>) -> bool {
    text_opt(nav.host) == Some("127.0.0.1"@) && match nav.port {
        Some(p) => exists|k: Seq<char>| proxies.contains_key(k) && #[trigger] proxies[k] == p,
        None => false,
    }
}

/// What the window does with `nav`, as `action_view`, and what the
/// keep-alive service is told (`Some(connected)`, or nothing).
pub open spec fn navigation_outcome(
    nav: Navigation,
    saved: Seq<Origin>,
    proxies: Map<Seq<char>, u16>,
) -> ((int, Seq<char>), Option<bool>) {
    if nav.scheme@ == "mellow-desktop"@ {
        if text_opt(nav.host) == Some("open-url"@) {
            match nav.url_param {
                Some(t) => ((2, t@), None),
                None => ((1, seq![]), None),
            }
        } else if text_opt(nav.host) == Some("switch-server"@) || nav.path@ == "/switch-server"@ {
            ((3, seq![]), None)
        } else {
            ((1, seq![]), None)
        }
    } else if nav.scheme@ == "http"@ || nav.scheme@ == "https"@ {
        let launcher = is_launcher(nav);
        let server = is_saved_server(nav, saved);
        let proxied = is_proxied_server(nav, proxies);
        let connected = if launcher {
            Some(false)
        } else if server || proxied {
            Some(true)
        } else {
            None
        };
        if !launcher && !server && !proxied {
            ((2, nav.url@), connected)
        } else {
            ((0, seq![]), connected)
        }
    } else {
        ((0, seq![]), None)
    }
}

fn opt_is(o: &Option<String>, lit: &str) -> (b: bool)
    ensures
        b == (text_opt(*o) == Some(lit@)),
{
    match o {
        Some(s) => *s == owned(lit),
        None => false,
    }
}

/// Decides what the window does with a navigation.
pub fn decide_navigation(nav: &Navigation, saved: &Vec<Origin>, proxies: &ProxyRegistry) -> (r: (
    NavAction,
    Option<bool>,
))
    ensures
        (action_view(r.0), r.1) == navigation_outcome(*nav, saved@, proxies@),
{
    let scheme = &nav.scheme;
    if *scheme == owned("mellow-desktop") {
        if opt_is(&nav.host, "open-url") {
            return match &nav.url_param {
                Some(t) => (NavAction::OpenExternal(t.clone()), None),
                None => (NavAction::Block, None),
            };
        } else if opt_is(&nav.host, "switch-server") || nav.path == owned("/switch-server") {
            return (NavAction::SwitchServer, None);
        } else {
            return (NavAction::Block, None);
        }
    }
    if !(*scheme == owned("http") || *scheme == owned("https")) {
        return (NavAction::Allow, None);
    }
    let launcher = opt_is(&nav.host, "tauri.localhost") || opt_is(&nav.host, "localhost") || *scheme
        == owned("tauri");
    let mut server = false;
    let mut i: usize = 0;
    while i < saved.len()
        invariant
            i <= saved.len(),
            server == exists|j: int|
                0 <= j < i && text_opt(#[trigger] saved@[j].host) == text_opt(nav.host)
                    && saved@[j].port == nav.port,
        decreases saved.len() - i,
    {
        let same_host = match (&saved[i].host, &nav.host) {
            (Some(a), Some(b)) => *a == *b,
            (None, None) => true,
            _ => false,
        };
        let ghost before = server;
        if same_host && saved[i].port == nav.port {
            server = true;
        }
        assert(server == (before || (text_opt(saved@[i as int].host) == text_opt(nav.host)
            && saved@[i as int].port == nav.port)));
        i = i + 1;
    }
    let proxied = opt_is(&nav.host, "127.0.0.1") && match nav.port {
        Some(p) => proxies.has_port(p),
        None => false,
    };
    let connected = if launcher {
        Some(false)
    } else if server || proxied {
        Some(true)
    } else {
        None
    };
    if !launcher && !server && !proxied {
        (NavAction::OpenExternal(nav.url.clone()), connected)
    } else {
        (NavAction::Allow, connected)
    }
}

/// The app's own `mellow-desktop:` links never load in the window and
/// tell the keep-alive service nothing: `open-url` opens its `url`
/// parameter in the browser and does nothing without one; a link to
/// `switch-server`, named as its host or as its path, goes back to the
/// launcher; any other is blocked.
pub proof fn lemma_app_links(nav: Navigation, saved: Seq<Origin>, proxies: Map<Seq<char>, u16>)
    requires
        nav.scheme@ == "mellow-desktop"@,
    ensures
        ({
            let (a, k) = navigation_outcome(nav, saved, proxies);
            &&& k is None
            &&& a.0 != 0
            &&& text_opt(nav.host) == Some("open-url"@) ==> a == match nav.url_param {
                Some(t) => (2int, t@),
                None => (1int, Seq::<char>::empty()),
            }
            &&& text_opt(nav.host) == Some("switch-server"@) ==> a.0 == 3
            &&& text_opt(nav.host) != Some("open-url"@) && nav.path@ == "/switch-server"@ ==> a.0 == 3
            &&& text_opt(nav.host) != Some("open-url"@) && text_opt(nav.host) != Some(
                "switch-server"@,
            ) && nav.path@ != "/switch-server"@ ==> a.0 == 1
        }),
{
    reveal_strlit("open-url");
    reveal_strlit("switch-server");
    assert("open-url"@.len() != "switch-server"@.len());
}

} // verus!
