//! Finding Mellow servers on the local network: what a discovery reply
//! says, and the list of servers found, one entry per URL.

use vstd::prelude::*;
use crate::address::DEFAULT_PORT;
use crate::number::{decimal, push_decimal};
use crate::text::{has_prefix, owned};

verus! {

broadcast use vstd::string::group_string_axioms;

/// Member `key` of the JSON object that `bytes` hold, read as a string,
/// as a `u64` and as a boolean (each `None` where it is not one).
pub uninterp spec fn json_member(bytes: Seq<u8>, key: Seq<char>) -> (
    Option<Seq<char>>,
    Option<u64>,
    Option<bool>,
);

/// The view of a member as `json_member_of` returns it.
pub open spec fn member_view(m: (Option<String>, Option<u64>, Option<bool>)) -> (
    Option<Seq<char>>,
    Option<u64>,
    Option<bool>,
) {
    (
        match m.0 {
            Some(s) => Some(s@),
            None => None,
        },
        m.1,
        m.2,
    )
}

/// `serde_json::from_slice::<Value>`, then `Value::get(key)`, then
/// `Value::as_str`, `Value::as_u64` and `Value::as_bool` on the member:
/// all `None` where `bytes` are not JSON or the member is missing. Which
/// texts parse, and to what, is named here, not stated.
#[verifier::external_body]
fn json_member_of(bytes: &[u8], key: &str) -> (r: (Option<String>, Option<u64>, Option<bool>))
    ensures
        member_view(r) == json_member(bytes@, key@),
{
    let v: serde_json::Value = match serde_json::from_slice(bytes) {
        Ok(v) => v,
        Err(_) => return (None, None, None),
    };
    let m = match v.get(key) {
        Some(m) => m,
        None => return (None, None, None),
    };
    let text = match m.as_str() {
        Some(t) => Some(t.to_string()),
        None => None,
    };
    (text, m.as_u64(), m.as_bool())
}

/// A server found on the network: its URL and the name it announces.
pub struct Discovered {
    pub url: String,
    pub name: String,
}

impl View for Discovered {
    type V = (Seq<char>, Seq<char>);

    open spec fn view(&self) -> (Seq<char>, Seq<char>) {
        (self.url@, self.name@)
    }
}

/// What a discovery reply from `peer_ip` announces: nothing unless its
/// `service` is `mellow`; otherwise the URL `scheme://peer_ip:port` (port
/// 6767 and `https` unless the reply says otherwise) and its `name`
/// (`Mellow` unless given).
pub open spec fn announced(
    service: Option<Seq<char>>,
    port: Option<u64>,
    https: Option<bool>,
    name: Option<Seq<char>>,
    peer_ip: Seq<char>,
) -> Option<(Seq<char>, Seq<char>)> {
    if service == Some("mellow"@) {
        let scheme = if https != Some(false) {
            "https"@
        } else {
            "http"@
        };
        let p = match port {
            Some(p) => p as nat,
            None => DEFAULT_PORT as nat,
        };
        let n = match name {
            Some(n) => n,
            None => "Mellow"@,
        };
        Some((scheme + "://"@ + peer_ip + ":"@ + decimal(p), n))
    } else {
        None
    }
}

/// The view of an optional string.
pub open spec fn opt_view(o: Option<String>) -> Option<Seq<char>> {
    match o {
        Some(s) => Some(s@),
        None => None,
    }
}

/// The view of an optional discovered server.
pub open spec fn opt_found(o: Option<Discovered>) -> Option<(Seq<char>, Seq<char>)> {
    match o {
        Some(d) => Some(d@),
        None => None,
    }
}

/// The server that a discovery reply with these members announces.
pub fn discovered_from(
    service: Option<String>,
    port: Option<u64>,
    https: Option<bool>,
    name: Option<String>,
    peer_ip: &str,
) -> (r: Option<Discovered>)
    ensures
        opt_found(r) == announced(opt_view(service), port, https, opt_view(name), peer_ip@),
{
    let is_mellow = match &service {
        Some(s) => *s == owned("mellow"),
        None => false,
    };
    if !is_mellow {
        return None;
    }
    let mut url = match https {
        Some(false) => owned("http"),
        _ => owned("https"),
    };
    url.append("://");
    url.append(peer_ip);
    url.append(":");
    let p: u64 = match port {
        Some(p) => p,
        None => DEFAULT_PORT as u64,
    };
    push_decimal(&mut url, p);
    let name = match name {
        Some(n) => n,
        None => owned("Mellow"),
    };
    Some(Discovered { url, name })
}

/// The servers found so far, in the order they answered, one per URL.
pub struct DiscoveryLog {
    found: Vec<Discovered>,
}

/// The views of a list of found servers.
pub open spec fn found_views(v: Seq<Discovered>) -> Seq<(Seq<char>, Seq<char>)> {
    v.map_values(|d: Discovered| d@)
}

/// No two entries share a URL.
pub open spec fn urls_distinct(s: Seq<(Seq<char>, Seq<char>)>) -> bool {
    forall|i: int, j: int| 0 <= i < j < s.len() ==> s[i].0 != s[j].0
}

/// Some entry has the URL `url`.
pub open spec fn has_url(s: Seq<(Seq<char>, Seq<char>)>, url: Seq<char>) -> bool {
    exists|i: int| 0 <= i < s.len() && #[trigger] s[i].0 == url
}

/// The list after a server `d` answers: unchanged if its URL is already
/// there, else `d` appended.
pub open spec fn after_answer(s: Seq<(Seq<char>, Seq<char>)>, d: (Seq<char>, Seq<char>)) -> Seq<
    (Seq<char>, Seq<char>),
> {
    if has_url(s, d.0) {
        s
    } else {
        s.push(d)
    }
}

impl View for DiscoveryLog {
    type V = Seq<(Seq<char>, Seq<char>)>;

    closed spec fn view(&self) -> Seq<(Seq<char>, Seq<char>)> {
        found_views(self.found@)
    }
}

impl DiscoveryLog {
    #[verifier::type_invariant]
    closed spec fn one_per_url(&self) -> bool {
        urls_distinct(found_views(self.found@))
    }

    /// Nothing found yet.
    pub fn new() -> (r: DiscoveryLog)
        ensures
            r@ == Seq::<(Seq<char>, Seq<char>)>::empty(),
    {
        let r = DiscoveryLog { found: Vec::new() };
        assert(found_views(r.found@) =~= Seq::<(Seq<char>, Seq<char>)>::empty());
        r
    }

    /// Adds the server `d` unless one with its URL was found already;
    /// returns whether it was added.
    pub fn add(&mut self, d: Discovered) -> (added: bool)
        ensures
            added == !has_url(old(self)@, d@.0),
            final(self)@ == after_answer(old(self)@, d@),
    {
        proof {
            use_type_invariant(&*self);
        }
        let ghost s = found_views(self.found@);
        let mut i: usize = 0;
        while i < self.found.len()
            invariant
                i <= self.found.len(),
                s == found_views(self.found@),
                forall|j: int| 0 <= j < i ==> s[j].0 != d@.0,
            decreases self.found.len() - i,
        {
            assert(s[i as int] == self.found[i as int]@);
            if self.found[i].url == d.url {
                assert(s[i as int].0 == d@.0);
                return false;
            }
            i = i + 1;
        }
        assert(!has_url(s, d@.0));
        let ghost dv = d@;
        let mut found = Vec::new();
        std::mem::swap(&mut found, &mut self.found);
        found.push(d);
        assert(found_views(found@) =~= s.push(dv));
        assert(urls_distinct(found_views(found@))) by {
            let v = found_views(found@);
            assert forall|a: int, b: int| 0 <= a < b < v.len() implies v[a].0 != v[b].0 by {
                if b == v.len() - 1 {
                    assert(v[a] == s[a]);
                }
            }
        }
        self.found = found;
        true
    }

    /// Takes in a discovery reply `reply` from `peer_ip`: a Mellow server it
    /// announces is added unless its URL was found already. Returns whether
    /// one was added.
    pub fn receive(&mut self, reply: &[u8], peer_ip: &str) -> (added: bool)
        ensures
            match announced(
                json_member(reply@, "service"@).0,
                json_member(reply@, "port"@).1,
                json_member(reply@, "https"@).2,
                json_member(reply@, "name"@).0,
                peer_ip@,
            ) {
                Some(d) => added == !has_url(old(self)@, d.0) && final(self)@ == after_answer(
                    old(self)@,
                    d,
                ),
                None => !added && final(self)@ == old(self)@,
            },
    {
        let service = json_member_of(reply, "service").0;
        let is_mellow = match &service {
            Some(s) => *s == owned("mellow"),
            None => false,
        };
        if !is_mellow {
            return false;
        }
        let port = json_member_of(reply, "port").1;
        let https = json_member_of(reply, "https").2;
        let name = json_member_of(reply, "name").0;
        match discovered_from(service, port, https, name, peer_ip) {
            Some(d) => self.add(d),
            None => false,
        }
    }

    /// The servers found, in the order they answered; no two share a URL.
    pub fn into_results(self) -> (r: Vec<Discovered>)
        ensures
            found_views(r@) == self@,
            urls_distinct(found_views(r@)),
    {
        proof {
            use_type_invariant(&self);
        }
        self.found
    }
}

/// A reply from a Mellow server announces it at `peer_ip`: over `https`
/// unless the reply's `https` member is `false`, and over `http` exactly
/// then; on the reply's port, 6767 where it gives none; under the reply's
/// name, `Mellow` where it gives none. A reply of any other service
/// announces nothing.
pub proof fn lemma_announced(
    service: Option<Seq<char>>,
    port: Option<u64>,
    https: Option<bool>,
    name: Option<Seq<char>>,
    peer_ip: Seq<char>,
)
    ensures
        service != Some("mellow"@) ==> announced(service, port, https, name, peer_ip) is None,
        service == Some("mellow"@) ==> (announced(service, port, https, name, peer_ip) matches Some(d)
            && (has_prefix(d.0, "https://"@) <==> https != Some(false)) && (has_prefix(
            d.0,
            "http://"@,
        ) <==> https == Some(false)) && d.0 == (if https == Some(false) {
            "http://"@
        } else {
            "https://"@
        }) + peer_ip + ":"@ + decimal(
            match port {
                Some(p) => p as nat,
                None => DEFAULT_PORT as nat,
            },
        ) && d.1 == match name {
            Some(n) => n,
            None => "Mellow"@,
        }),
{
    reveal_strlit("https");
    reveal_strlit("http");
    reveal_strlit("://");
    reveal_strlit("https://");
    reveal_strlit("http://");
    if service == Some("mellow"@) {
        let d = announced(service, port, https, name, peer_ip)->0;
        let rest = peer_ip + ":"@ + decimal(
            match port {
                Some(p) => p as nat,
                None => DEFAULT_PORT as nat,
            },
        );
        if https == Some(false) {
            assert(d.0 =~= "http://"@ + rest);
            assert(d.0.take(7) =~= "http://"@);
            assert(!has_prefix(d.0, "https://"@)) by {
                if d.0.len() >= 8 {
                    assert(d.0.take(8)[4] == d.0[4]);
                }
            }
        } else {
            assert(d.0 =~= "https://"@ + rest);
            assert(d.0.take(8) =~= "https://"@);
            assert(!has_prefix(d.0, "http://"@)) by {
                assert(d.0.take(7)[4] == d.0[4]);
            }
        }
    }
}

} // verus!
