//! The settings the client keeps on disk: the servers it has connected
//! to, newest last, and the one it connected to last.

use vstd::prelude::*;

verus! {

broadcast use vstd::string::group_string_axioms;

/// How many servers the list keeps.
pub const MAX_SAVED_SERVERS: usize = 5;

/// The saved servers and the last one connected to.
pub struct Settings {
    pub servers: Vec<String>,
    pub last: Option<String>,
}

/// The texts of a list of strings.
pub open spec fn texts(v: Seq<String>) -> Seq<Seq<char>> {
    v.map_values(|s: String| s@)
}

/// The text of an optional string.
pub open spec fn opt_text(o: Option<String>) -> Option<Seq<char>> {
    match o {
        Some(s) => Some(s@),
        None => None,
    }
}

impl View for Settings {
    type V = (Seq<Seq<char>>, Option<Seq<char>>);

    open spec fn view(&self) -> (Seq<Seq<char>>, Option<Seq<char>>) {
        (texts(self.servers@), opt_text(self.last))
    }
}

impl Default for Settings {
    /// No saved servers and none connected to.
    fn default() -> (s: Settings)
        ensures
            s@ == (Seq::<Seq<char>>::empty(), None::<Seq<char>>),
    {
        let s = Settings { servers: Vec::new(), last: None };
        assert(texts(s.servers@) =~= Seq::<Seq<char>>::empty());
        s
    }
}

/// `s` with every occurrence of `url` taken out, the rest in order.
pub open spec fn without(s: Seq<Seq<char>>, url: Seq<char>) -> Seq<Seq<char>>
    decreases s.len(),
{
    if s.len() == 0 {
        seq![]
    } else {
        let prev = without(s.drop_last(), url);
        if s.last() == url {
            prev
        } else {
            prev.push(s.last())
        }
    }
}

/// The newest `n` entries of `s` (its last `n`), or all of `s`.
pub open spec fn newest(s: Seq<Seq<char>>, n: nat) -> Seq<Seq<char>> {
    if s.len() > n {
        s.skip(s.len() - n)
    } else {
        s
    }
}

/// The server list after connecting to `url`: `url` moved (or added) to
/// the end, and only the newest five kept.
pub open spec fn remembered(s: Seq<Seq<char>>, url: Seq<char>) -> Seq<Seq<char>> {
    newest(without(s, url).push(url), MAX_SAVED_SERVERS as nat)
}

impl Settings {
    /// Records a connection to `url`: it becomes the newest saved server
    /// and the last one connected to.
    pub fn remember(&mut self, url: String)
        ensures
            final(self)@ == (remembered(old(self)@.0, url@), Some(url@)),
    {
        let ghost s = texts(self.servers@);
        let mut kept: Vec<String> = Vec::new();
        let mut i: usize = 0;
        while i < self.servers.len()
            invariant
                i <= self.servers.len(),
                s == texts(self.servers@),
                texts(kept@) == without(s.take(i as int), url@),
            decreases self.servers.len() - i,
        {
            assert(s.take(i + 1).drop_last() =~= s.take(i as int));
            assert(s.take(i + 1).last() == self.servers[i as int]@);
            let ghost prev = texts(kept@);
            if self.servers[i] != url {
                kept.push(self.servers[i].clone());
                assert(texts(kept@) =~= prev.push(self.servers[i as int]@));
            }
            i = i + 1;
        }
        assert(s.take(s.len() as int) =~= s);
        let ghost w = texts(kept@);
        kept.push(url.clone());
        assert(texts(kept@) =~= w.push(url@));
        let from: usize = if kept.len() > MAX_SAVED_SERVERS {
            kept.len() - MAX_SAVED_SERVERS
        } else {
            0
        };
        let mut out: Vec<String> = Vec::new();
        let mut j: usize = from;
        while j < kept.len()
            invariant
                from <= j <= kept.len(),
                texts(out@) == texts(kept@).subrange(from as int, j as int),
            decreases kept.len() - j,
        {
            let ghost prev = texts(out@);
            out.push(kept[j].clone());
            assert(texts(out@) =~= prev.push(kept[j as int]@));
            assert(texts(kept@).subrange(from as int, j + 1) =~= texts(kept@).subrange(
                from as int,
                j as int,
            ).push(kept[j as int]@));
            j = j + 1;
        }
        assert(texts(out@) =~= newest(texts(kept@), MAX_SAVED_SERVERS as nat));
        self.servers = out;
        self.last = Some(url);
    }

    /// Forgets the saved server `url`; where it was the last one connected
    /// to, there is no last one any more. Returns whether it was.
    pub fn forget(&mut self, url: &String) -> (was_last: bool)
        ensures
            was_last == (old(self)@.1 == Some(url@)),
            final(self)@.0 == without(old(self)@.0, url@),
            final(self)@.1 == (if was_last {
                None
            } else {
                old(self)@.1
            }),
    {
        let was_last = match &self.last {
            Some(l) => *l == *url,
            None => false,
        };
        let ghost s = texts(self.servers@);
        let mut kept: Vec<String> = Vec::new();
        let mut i: usize = 0;
        while i < self.servers.len()
            invariant
                i <= self.servers.len(),
                s == texts(self.servers@),
                texts(kept@) == without(s.take(i as int), url@),
            decreases self.servers.len() - i,
        {
            assert(s.take(i + 1).drop_last() =~= s.take(i as int));
            assert(s.take(i + 1).last() == self.servers[i as int]@);
            let ghost prev = texts(kept@);
            if self.servers[i] != *url {
                kept.push(self.servers[i].clone());
                assert(texts(kept@) =~= prev.push(self.servers[i as int]@));
            }
            i = i + 1;
        }
        assert(s.take(s.len() as int) =~= s);
        self.servers = kept;
        if was_last {
            self.last = None;
        }
        was_last
    }
}


/// No entry of `s` occurs twice.
pub open spec fn distinct(s: Seq<Seq<char>>) -> bool {
    forall|i: int, j: int| 0 <= i < j < s.len() ==> s[i] != s[j]
}

/// What `without` keeps: entries of `s` other than `url`, and all of them.
pub proof fn lemma_without(s: Seq<Seq<char>>, url: Seq<char>)
    ensures
        forall|x: Seq<char>| #[trigger] without(s, url).contains(x) <==> (s.contains(x) && x != url),
        without(s, url).len() <= s.len(),
    decreases s.len(),
{
    if s.len() > 0 {
        lemma_without(s.drop_last(), url);
        let prev = without(s.drop_last(), url);
        assert forall|x: Seq<char>| #[trigger] without(s, url).contains(x) <==> (s.contains(x) && x
            != url) by {
            if s.contains(x) && x != url {
                let i = choose|i: int| 0 <= i < s.len() && s[i] == x;
                if i < s.len() - 1 {
                    assert(s.drop_last()[i] == x);
                    assert(prev.contains(x));
                    let k = choose|k: int| 0 <= k < prev.len() && prev[k] == x;
                    if s.last() != url {
                        assert(prev.push(s.last())[k] == x);
                    }
                } else {
                    assert(prev.push(s.last())[prev.len() as int] == x);
                }
            }
            if without(s, url).contains(x) {
                let k = choose|k: int| 0 <= k < without(s, url).len() && without(s, url)[k] == x;
                if k < prev.len() {
                    assert(prev[k] == x);
                    assert(prev.contains(x));
                    let i = choose|i: int| 0 <= i < s.drop_last().len() && s.drop_last()[i] == x;
                    assert(s[i] == x);
                } else {
                    assert(s[s.len() - 1] == x);
                }
            }
        }
    } else {
        assert forall|x: Seq<char>| #[trigger] without(s, url).contains(x) <==> (s.contains(x) && x
            != url) by {
            if s.contains(x) {
                let i = choose|i: int| 0 <= i < s.len() && s[i] == x;
            }
        }
    }
}

/// Taking out entries keeps a list without repeats free of repeats.
pub proof fn lemma_without_distinct(s: Seq<Seq<char>>, url: Seq<char>)
    requires
        distinct(s),
    ensures
        distinct(without(s, url)),
    decreases s.len(),
{
    if s.len() > 0 {
        assert(distinct(s.drop_last()));
        lemma_without_distinct(s.drop_last(), url);
        lemma_without(s.drop_last(), url);
        let prev = without(s.drop_last(), url);
        if s.last() != url {
            assert(!prev.contains(s.last())) by {
                if prev.contains(s.last()) {
                    assert(s.drop_last().contains(s.last()));
                    let i = choose|i: int| 0 <= i < s.drop_last().len() && s.drop_last()[i] == s.last();
                    assert(s[i] == s[s.len() - 1]);
                }
            }
            let w = prev.push(s.last());
            assert forall|i: int, j: int| 0 <= i < j < w.len() implies w[i] != w[j] by {
                if j == w.len() - 1 {
                    assert(w[i] == prev[i]);
                    if w[i] == w[j] {
                        assert(prev.contains(s.last()));
                    }
                }
            }
        }
    }
}

/// A list that does not hold `url` loses nothing when `url` is taken out.
proof fn lemma_without_absent(s: Seq<Seq<char>>, url: Seq<char>)
    requires
        !s.contains(url),
    ensures
        without(s, url) == s,
    decreases s.len(),
{
    if s.len() > 0 {
        assert(!s.drop_last().contains(url)) by {
            if s.drop_last().contains(url) {
                let i = choose|i: int| 0 <= i < s.drop_last().len() && s.drop_last()[i] == url;
                assert(s[i] == url);
            }
        }
        lemma_without_absent(s.drop_last(), url);
        assert(s.last() != url) by {
            if s.last() == url {
                assert(s[s.len() - 1] == url);
            }
        }
        assert(s.drop_last().push(s.last()) =~= s);
    }
}

/// After connecting to `url`, it is the newest saved server and saved only
/// once, at most five servers are saved, and the others keep their order:
/// they are the newest four of the old list with `url` taken out.
pub proof fn lemma_remember_newest(s: Seq<Seq<char>>, url: Seq<char>)
    ensures
        remembered(s, url).len() >= 1,
        remembered(s, url).len() <= MAX_SAVED_SERVERS,
        remembered(s, url).last() == url,
        forall|i: int| 0 <= i < remembered(s, url).len() - 1 ==> #[trigger] remembered(s, url)[i] != url,
        remembered(s, url).drop_last() == newest(without(s, url), (MAX_SAVED_SERVERS - 1) as nat),
{
    let w = without(s, url);
    lemma_without(s, url);
    let r = remembered(s, url);
    let p = w.push(url);
    if p.len() > MAX_SAVED_SERVERS {
        assert(r =~= p.skip(p.len() - 5));
        assert(r.drop_last() =~= w.skip(w.len() - 4));
    } else {
        assert(r == p);
        assert(r.drop_last() =~= w);
    }
    assert forall|i: int| 0 <= i < r.len() - 1 implies #[trigger] r[i] != url by {
        let k = if p.len() > MAX_SAVED_SERVERS { i + p.len() - 5 } else { i };
        assert(r[i] == w[k]);
        assert(w.contains(w[k]));
    }
}

/// Connecting keeps a saved-server list free of repeats.
pub proof fn lemma_remember_distinct(s: Seq<Seq<char>>, url: Seq<char>)
    requires
        distinct(s),
    ensures
        distinct(remembered(s, url)),
{
    lemma_without_distinct(s, url);
    lemma_without(s, url);
    let w = without(s, url);
    let p = w.push(url);
    assert(distinct(p)) by {
        assert forall|i: int, j: int| 0 <= i < j < p.len() implies p[i] != p[j] by {
            if j == p.len() - 1 {
                assert(p[i] == w[i]);
                assert(w.contains(w[i]));
            }
        }
    }
    let r = remembered(s, url);
    if p.len() > MAX_SAVED_SERVERS {
        let d = p.len() - 5;
        assert forall|i: int, j: int| 0 <= i < j < r.len() implies r[i] != r[j] by {
            assert(r[i] == p[i + d]);
            assert(r[j] == p[j + d]);
        }
    }
}

/// Connecting to the same server twice leaves the list as connecting once.
pub proof fn lemma_remember_idempotent(s: Seq<Seq<char>>, url: Seq<char>)
    ensures
        remembered(remembered(s, url), url) == remembered(s, url),
{
    let r = remembered(s, url);
    lemma_remember_newest(s, url);
    assert(!r.drop_last().contains(url)) by {
        if r.drop_last().contains(url) {
            let i = choose|i: int| 0 <= i < r.drop_last().len() && r.drop_last()[i] == url;
            assert(r[i] == url);
        }
    }
    lemma_without_absent(r.drop_last(), url);
    assert(r.drop_last().push(url) =~= r);
    assert(without(r, url) == without(r.drop_last(), url));
    assert(without(r, url).push(url) =~= r);
}

/// A forgotten server is no longer saved, and the others stay.
pub proof fn lemma_forget_removes(s: Seq<Seq<char>>, url: Seq<char>)
    ensures
        !without(s, url).contains(url),
        forall|x: Seq<char>| x != url && #[trigger] s.contains(x) ==> without(s, url).contains(x),
{
    lemma_without(s, url);
}

} // verus!
