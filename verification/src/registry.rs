//! The proxies this process has started: one per server URL, each on its
//! own local port.

use vstd::prelude::*;
use crate::number::{decimal, push_decimal};
use crate::text::owned;

verus! {

broadcast use vstd::string::group_string_axioms;

/// The proxies started so far, as (server URL, local port) pairs.
pub struct ProxyRegistry {
    entries: Vec<(String, u16)>,
}

/// The texts of the entries.
pub open spec fn entry_views(es: Seq<(String, u16)>) -> Seq<(Seq<char>, u16)> {
    es.map_values(|e: (String, u16)| (e.0@, e.1))
}

/// The map that a list of entries stands for; a later entry for a URL
/// wins over an earlier one.
pub open spec fn map_of(es: Seq<(Seq<char>, u16)>) -> Map<Seq<char>, u16>
    decreases es.len(),
{
    if es.len() == 0 {
        Map::empty()
    } else {
        map_of(es.drop_last()).insert(es.last().0, es.last().1)
    }
}

/// No URL has two entries.
pub open spec fn keys_distinct(es: Seq<(Seq<char>, u16)>) -> bool {
    forall|i: int, j: int| 0 <= i < j < es.len() ==> es[i].0 != es[j].0
}

/// With one entry per URL, the map holds exactly the entries.
proof fn lemma_map_of(es: Seq<(Seq<char>, u16)>)
    requires
        keys_distinct(es),
    ensures
        forall|k: Seq<char>| #[trigger]
            map_of(es).contains_key(k) <==> exists|i: int| 0 <= i < es.len() && es[i].0 == k,
        forall|i: int| 0 <= i < es.len() ==> #[trigger] map_of(es)[es[i].0] == es[i].1,
    decreases es.len(),
{
    if es.len() > 0 {
        let d = es.drop_last();
        assert(keys_distinct(d));
        lemma_map_of(d);
        assert(map_of(es) == map_of(d).insert(es.last().0, es.last().1));
        assert forall|k: Seq<char>| #[trigger] map_of(es).contains_key(k) <==> exists|i: int|
            0 <= i < es.len() && es[i].0 == k by {
            if map_of(es).contains_key(k) && k != es.last().0 {
                assert(map_of(d).contains_key(k));
                let i = choose|i: int| 0 <= i < d.len() && d[i].0 == k;
                assert(d[i] == es[i]);
                assert(es[i].0 == k);
            }
            if map_of(es).contains_key(k) && k == es.last().0 {
                assert(es[es.len() - 1].0 == k);
            }
            if exists|i: int| 0 <= i < es.len() && es[i].0 == k {
                let i = choose|i: int| 0 <= i < es.len() && es[i].0 == k;
                if i < es.len() - 1 {
                    assert(d[i].0 == k);
                    assert(map_of(d).contains_key(k));
                }
            }
        }
        assert forall|i: int| 0 <= i < es.len() implies #[trigger] map_of(es)[es[i].0] == es[i].1 by {
            if i < es.len() - 1 {
                assert(d[i] == es[i]);
                assert(es[i].0 != es[es.len() - 1].0);
                assert(map_of(d).contains_key(d[i].0));
                assert(map_of(d)[d[i].0] == d[i].1);
            }
        }
    }
}

/// `es` with the entries for `k` taken out, the rest in order.
pub open spec fn without_key(es: Seq<(Seq<char>, u16)>, k: Seq<char>) -> Seq<(Seq<char>, u16)>
    decreases es.len(),
{
    if es.len() == 0 {
        seq![]
    } else {
        let prev = without_key(es.drop_last(), k);
        if es.last().0 == k {
            prev
        } else {
            prev.push(es.last())
        }
    }
}

/// Taking out the entries of a URL takes it out of the map, keeps the
/// other entries, and keeps one entry per URL.
proof fn lemma_without_key(es: Seq<(Seq<char>, u16)>, k: Seq<char>)
    ensures
        map_of(without_key(es, k)) == map_of(es).remove(k),
        forall|e: (Seq<char>, u16)| #[trigger] without_key(es, k).contains(e) ==> es.contains(e),
        keys_distinct(es) ==> keys_distinct(without_key(es, k)),
    decreases es.len(),
{
    if es.len() > 0 {
        let d = es.drop_last();
        lemma_without_key(d, k);
        let prev = without_key(d, k);
        assert(prev.push(es.last()).drop_last() =~= prev);
        assert(map_of(without_key(es, k)) =~= map_of(es).remove(k));
        assert forall|e: (Seq<char>, u16)| #[trigger] without_key(es, k).contains(e) implies es.contains(
            e,
        ) by {
            let j = choose|j: int| 0 <= j < without_key(es, k).len() && without_key(es, k)[j] == e;
            if j < prev.len() {
                assert(prev[j] == e);
                assert(prev.contains(e));
                let i = choose|i: int| 0 <= i < d.len() && d[i] == e;
                assert(es[i] == e);
            } else {
                assert(es[es.len() - 1] == e);
            }
        }
        if keys_distinct(es) {
            assert(keys_distinct(d));
            if es.last().0 != k {
                let w = prev.push(es.last());
                assert forall|a: int, b: int| 0 <= a < b < w.len() implies w[a].0 != w[b].0 by {
                    if b == w.len() - 1 {
                        assert(w[a] == prev[a]);
                        assert(prev.contains(prev[a]));
                        assert(d.contains(prev[a]));
                        let i = choose|i: int| 0 <= i < d.len() && d[i] == prev[a];
                        assert(es[i].0 != es[es.len() - 1].0);
                    }
                }
            }
        }
    } else {
        assert(map_of(without_key(es, k)) =~= map_of(es).remove(k));
    }
}

impl View for ProxyRegistry {
    type V = Map<Seq<char>, u16>;

    closed spec fn view(&self) -> Map<Seq<char>, u16> {
        map_of(entry_views(self.entries@))
    }
}

impl ProxyRegistry {
    #[verifier::type_invariant]
    closed spec fn one_entry_per_url(&self) -> bool {
        keys_distinct(entry_views(self.entries@))
    }

    /// No proxies yet.
    pub fn new() -> (r: ProxyRegistry)
        ensures
            r@ == Map::<Seq<char>, u16>::empty(),
    {
        ProxyRegistry { entries: Vec::new() }
    }

    /// The port of the proxy for `target`, if one was started.
    #[verifier::loop_isolation(false)]
    pub fn port_for(&self, target: &String) -> (r: Option<u16>)
        ensures
            r == (if self@.contains_key(target@) {
                Some(self@[target@])
            } else {
                None::<u16>
            }),
    {
        proof {
            use_type_invariant(self);
            lemma_map_of(entry_views(self.entries@));
        }
        let ghost ev = entry_views(self.entries@);
        let mut i: usize = 0;
        while i < self.entries.len()
            invariant
                i <= self.entries.len(),
                ev == entry_views(self.entries@),
                forall|j: int| 0 <= j < i ==> ev[j].0 != target@,
            decreases self.entries.len() - i,
        {
            assert(ev[i as int] == (self.entries[i as int].0@, self.entries[i as int].1));
            if self.entries[i].0 == *target {
                return Some(self.entries[i].1);
            }
            i = i + 1;
        }
        None
    }

    /// Records that the proxy for `target` listens on `port`.
    pub fn insert(&mut self, target: String, port: u16)
        ensures
            final(self)@ == old(self)@.insert(target@, port),
    {
        proof {
            use_type_invariant(&*self);
        }
        let ghost ev = entry_views(self.entries@);
        let mut kept: Vec<(String, u16)> = Vec::new();
        let mut i: usize = 0;
        while i < self.entries.len()
            invariant
                i <= self.entries.len(),
                ev == entry_views(self.entries@),
                entry_views(kept@) == without_key(ev.take(i as int), target@),
            decreases self.entries.len() - i,
        {
            assert(ev.take(i + 1).drop_last() =~= ev.take(i as int));
            assert(ev.take(i + 1).last() == ev[i as int]);
            assert(ev[i as int] == (self.entries[i as int].0@, self.entries[i as int].1));
            let ghost prev = entry_views(kept@);
            if self.entries[i].0 != target {
                let e = (self.entries[i].0.clone(), self.entries[i].1);
                kept.push(e);
                assert(entry_views(kept@) =~= prev.push(ev[i as int]));
            }
            i = i + 1;
        }
        assert(ev.take(ev.len() as int) =~= ev);
        let ghost w = entry_views(kept@);
        proof {
            lemma_without_key(ev, target@);
        }
        assert(!w.contains((target@, port))) by {
            if w.contains((target@, port)) {
                let j = choose|j: int| 0 <= j < w.len() && w[j] == (target@, port);
                lemma_without_key_keys(ev, target@, j);
            }
        }
        kept.push((target, port));
        assert(entry_views(kept@) =~= w.push((target@, port)));
        assert(keys_distinct(entry_views(kept@))) by {
            let v = entry_views(kept@);
            assert forall|a: int, b: int| 0 <= a < b < v.len() implies v[a].0 != v[b].0 by {
                if b == v.len() - 1 {
                    assert(v[a] == w[a]);
                    lemma_without_key_keys(ev, target@, a);
                }
            }
        }
        assert(w.push((target@, port)).drop_last() =~= w);
        assert(map_of(entry_views(kept@)) =~= map_of(w).insert(target@, port));
        self.entries = kept;
    }

    /// Whether some started proxy listens on `port`.
    #[verifier::loop_isolation(false)]
    pub fn has_port(&self, port: u16) -> (r: bool)
        ensures
            r == exists|k: Seq<char>| self@.contains_key(k) && #[trigger] self@[k] == port,
    {
        proof {
            use_type_invariant(self);
            lemma_map_of(entry_views(self.entries@));
        }
        let ghost ev = entry_views(self.entries@);
        let mut i: usize = 0;
        while i < self.entries.len()
            invariant
                i <= self.entries.len(),
                ev == entry_views(self.entries@),
                forall|j: int| 0 <= j < i ==> ev[j].1 != port,
            decreases self.entries.len() - i,
        {
            assert(ev[i as int] == (self.entries[i as int].0@, self.entries[i as int].1));
            if self.entries[i].1 == port {
                assert(self@.contains_key(ev[i as int].0));
                assert(self@[ev[i as int].0] == port);
                return true;
            }
            i = i + 1;
        }
        assert forall|k: Seq<char>| self@.contains_key(k) implies #[trigger] self@[k] != port by {
            let j = choose|j: int| 0 <= j < ev.len() && ev[j].0 == k;
            assert(self@[ev[j].0] == ev[j].1);
        }
        false
    }
}

/// Every entry left by `without_key(es, k)` is for a URL other than `k`.
proof fn lemma_without_key_keys(es: Seq<(Seq<char>, u16)>, k: Seq<char>, j: int)
    requires
        0 <= j < without_key(es, k).len(),
    ensures
        without_key(es, k)[j].0 != k,
    decreases es.len(),
{
    if es.len() > 0 {
        let prev = without_key(es.drop_last(), k);
        if j < prev.len() {
            lemma_without_key_keys(es.drop_last(), k, j);
            assert(without_key(es, k)[j] == prev[j]);
        }
    }
}


/// The URL at which the proxy on local `port` serves its server.
pub open spec fn local_proxy_url_of(port: u16) -> Seq<char> {
    "http://127.0.0.1:"@ + decimal(port as nat)
}

/// The URL at which the proxy on local `port` serves its server.
pub fn local_proxy_url(port: u16) -> (r: String)
    ensures
        r@ == local_proxy_url_of(port),
{
    let mut out = owned("http://127.0.0.1:");
    push_decimal(&mut out, port as u64);
    out
}

/// Where the window should go for a server.
pub enum ProxyRoute {
    /// To the server's own URL: no proxy is used on this platform.
    Direct,
    /// To the proxy already serving the server, at this URL.
    Existing(String),
    /// A proxy for the server has to be started first.
    Start,
}

impl ProxyRegistry {
    /// Where the window should go for the server `target`.
    pub fn route(&self, use_proxy: bool, target: &String) -> (r: ProxyRoute)
        ensures
            !use_proxy ==> r is Direct,
            use_proxy && self@.contains_key(target@) ==> (match r {
                ProxyRoute::Existing(u) => u@ == local_proxy_url_of(self@[target@]),
                _ => false,
            }),
            use_proxy && !self@.contains_key(target@) ==> r is Start,
    {
        if !use_proxy {
            return ProxyRoute::Direct;
        }
        match self.port_for(target) {
            Some(port) => ProxyRoute::Existing(local_proxy_url(port)),
            None => ProxyRoute::Start,
        }
    }

    /// Records the proxy just started for `target` on `port`, and returns
    /// the URL it serves the server at.
    pub fn record_started(&mut self, target: String, port: u16) -> (r: String)
        ensures
            final(self)@ == old(self)@.insert(target@, port),
            r@ == local_proxy_url_of(port),
    {
        self.insert(target, port);
        local_proxy_url(port)
    }
}

/// A port recorded for a server is found again for it, and its proxy port
/// counts as a proxy port; other servers keep theirs.
pub proof fn lemma_registry_read_after_write(
    m: Map<Seq<char>, u16>,
    target: Seq<char>,
    port: u16,
    other: Seq<char>,
)
    ensures
        m.insert(target, port).contains_key(target),
        m.insert(target, port)[target] == port,
        exists|k: Seq<char>| m.insert(target, port).contains_key(k) && #[trigger] m.insert(target, port)[k] == port,
        other != target ==> (m.insert(target, port).contains_key(other) == m.contains_key(other)),
        other != target && m.contains_key(other) ==> m.insert(target, port)[other] == m[other],
{
    assert(m.insert(target, port)[target] == port);
}

} // verus!
