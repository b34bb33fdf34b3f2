//! Small decisions of the desktop shell: whether to serve servers through
//! the local proxy, what a reachability probe means for the user, where
//! "switch server" leads, and the tray tooltip.

use vstd::prelude::*;
use crate::text::{chars_of, find_char, find_char_in, has_prefix, owned, starts_with_range, text_of};

verus! {

broadcast use vstd::string::group_string_axioms;

/// Whether server pages are served through the local proxy: always off
/// Windows; on Windows only when `MELLOW_PROXY` is `1`.
pub open spec fn proxy_wanted(on_windows: bool, mellow_proxy: Option<Seq<char>>) -> bool {
    !on_windows || mellow_proxy == Some("1"@)
}

/// Whether server pages are served through the local proxy, given the
/// platform and the value of `MELLOW_PROXY` (if it is set and is text).
pub fn use_proxy(on_windows: bool, mellow_proxy: Option<&str>) -> (r: bool)
    ensures
        r == proxy_wanted(
            on_windows,
            match mellow_proxy {
                Some(v) => Some(v@),
                None => None,
            },
        ),
{
    if !on_windows {
        return true;
    }
    match mellow_proxy {
        Some(v) => owned(v) == owned("1"),
        None => false,
    }
}

/// The message when the server at `url` did not answer.
pub open spec fn unreachable_message(url: Seq<char>) -> Seq<char> {
    "Could not reach "@ + url
}

/// What a reachability probe of the (normalized) server URL `url` means
/// for the user: the URL to go on with, or why not.
pub fn reach_verdict(url: String, reachable: bool) -> (r: Result<String, String>)
    ensures
        reachable ==> (r matches Ok(u) && u@ == url@),
        !reachable ==> (r matches Err(e) && e@ == unreachable_message(url@)),
{
    if reachable {
        Ok(url)
    } else {
        let mut e = owned("Could not reach ");
        e.append(url.as_str());
        Err(e)
    }
}

/// The page of the app that lists the servers.
pub open spec fn default_launcher() -> Seq<char> {
    "http://tauri.localhost/index.html"@
}

/// The launcher page the window was first shown, or the app's own.
pub open spec fn launcher_target_of(stored: Option<Seq<char>>) -> Seq<char> {
    match stored {
        Some(u) => u,
        None => default_launcher(),
    }
}

/// Where "switch server" from the tray or a command leads.
pub fn launcher_target(stored: Option<&String>) -> (r: String)
    ensures
        r@ == launcher_target_of(
            match stored {
                Some(u) => Some(u@),
                None => None,
            },
        ),
{
    match stored {
        Some(u) => u.clone(),
        None => owned("http://tauri.localhost/index.html"),
    }
}

/// The launcher page without its query (the text before the first `?`).
pub open spec fn launcher_base_of(stored: Option<Seq<char>>) -> Seq<char> {
    let t = launcher_target_of(stored);
    match find_char(t, '?') {
        Some(i) => t.take(i as int),
        None => t,
    }
}

/// Where the "change server" button on a server page leads.
pub fn launcher_base(stored: Option<&String>) -> (r: String)
    ensures
        r@ == launcher_base_of(
            match stored {
                Some(u) => Some(u@),
                None => None,
            },
        ),
{
    let t = launcher_target(stored);
    let v = chars_of(t.as_str());
    assert(v@.subrange(0, v.len() as int) =~= v@);
    match find_char_in(&v, 0, v.len(), '?') {
        Some(i) => {
            assert(v@.take(i as int) =~= v@.subrange(0, i as int));
            text_of(&v, 0, i)
        },
        None => t,
    }
}

/// A URL the window shows is worth remembering as the launcher: anything
/// but an `about:` page.
pub fn is_launcher_page(url: &str) -> (r: bool)
    ensures
        r == !has_prefix(url@, "about:"@),
{
    let v = chars_of(url);
    let p = chars_of("about:");
    assert(v@.subrange(0, v.len() as int) =~= v@);
    !starts_with_range(&v, 0, v.len(), &p)
}

/// The tray tooltip for an unread count as the page title shows it
/// (`""`, `"3"`, `"99+"`).
pub open spec fn unread_tooltip_of(count: Seq<char>) -> Seq<char> {
    if count.len() == 0 {
        "Mellow"@
    } else {
        "("@ + count + ") Mellow"@
    }
}

/// The tray tooltip for an unread count.
pub fn unread_tooltip(count: &str) -> (r: String)
    ensures
        r@ == unread_tooltip_of(count@),
{
    if count.is_empty() {
        owned("Mellow")
    } else {
        let mut t = owned("(");
        t.append(count);
        t.append(") Mellow");
        t
    }
}

} // verus!
