//! HTTP header lists as the local proxy sees them, and what it forwards
//! of them in each direction.

use vstd::prelude::*;
use vstd::slice::slice_to_vec;
use vstd::string::StrSliceExecFns;
use vstd::utf8::encode_utf8;
use crate::text::{
    chars_of, eq_range, find, lemma_find_from, lower, lower_range, occurs_at, owned, push_char,
};

verus! {

broadcast use vstd::string::group_string_axioms;

/// One header line: its name and the raw bytes of its value.
pub struct Header {
    pub name: String,
    pub value: Vec<u8>,
}

impl View for Header {
    type V = (Seq<char>, Seq<u8>);

    open spec fn view(&self) -> (Seq<char>, Seq<u8>) {
        (self.name@, self.value@)
    }
}

impl Header {
    /// A header named `name` with the value bytes `value`.
    pub fn new(name: &str, value: &[u8]) -> (h: Header)
        ensures
            h@ == (name@, value@),
    {
        Header { name: owned(name), value: slice_to_vec(value) }
    }
}

/// The views of a list of headers.
pub open spec fn views(hs: Seq<Header>) -> Seq<(Seq<char>, Seq<u8>)> {
    hs.map_values(|h: Header| h@)
}

/// A byte that `HeaderValue::to_str` accepts: visible ASCII or tab.
pub open spec fn is_visible_ascii(b: u8) -> bool {
    (32 <= b && b < 127) || b == 9
}

/// A byte that `HeaderValue::from_str` accepts: anything but the control
/// characters other than tab, and DEL.
pub open spec fn is_value_byte(b: u8) -> bool {
    (32 <= b && b != 127) || b == 9
}

/// `HeaderValue::to_str`: the value as text when every byte is visible
/// ASCII or tab.
pub open spec fn value_text(v: Seq<u8>) -> Option<Seq<char>> {
    if forall|i: int| 0 <= i < v.len() ==> is_visible_ascii(#[trigger] v[i]) {
        Some(v.map_values(|b: u8| b as char))
    } else {
        None
    }
}

/// `HeaderValue::from_str`: the UTF-8 bytes of `t` when each of them may
/// stand in a header value.
pub open spec fn value_from_text(t: Seq<char>) -> Option<Seq<u8>> {
    if forall|i: int| 0 <= i < encode_utf8(t).len() ==> is_value_byte(#[trigger] encode_utf8(t)[i]) {
        Some(encode_utf8(t))
    } else {
        None
    }
}

/// `HeaderValue::from_str(t)`, or `fallback` where `t` cannot be a value.
pub open spec fn value_or(t: Seq<char>, fallback: Seq<u8>) -> Seq<u8> {
    match value_from_text(t) {
        Some(b) => b,
        None => fallback,
    }
}

/// The hop-by-hop headers, which a proxy does not forward (by lower-case
/// name).
pub open spec fn is_hop_by_hop(n: Seq<char>) -> bool {
    ||| n == "connection"@
    ||| n == "keep-alive"@
    ||| n == "proxy-authenticate"@
    ||| n == "proxy-authorization"@
    ||| n == "te"@
    ||| n == "trailers"@
    ||| n == "transfer-encoding"@
}

/// `value_text(v)`.
pub fn text_of_value(v: &Vec<u8>) -> (r: Option<String>)
    ensures
        match r {
            Some(t) => value_text(v@) == Some(t@),
            None => value_text(v@) is None,
        },
{
    let mut out = String::new();
    let mut i: usize = 0;
    while i < v.len()
        invariant
            i <= v.len(),
            forall|j: int| 0 <= j < i ==> is_visible_ascii(#[trigger] v@[j]),
            out@ == v@.take(i as int).map_values(|b: u8| b as char),
        decreases v.len() - i,
    {
        let b = v[i];
        if !((32 <= b && b < 127) || b == 9) {
            assert(!is_visible_ascii(v@[i as int]));
            return None;
        }
        push_char(&mut out, b as char);
        assert(v@.take(i + 1).map_values(|b: u8| b as char) =~= v@.take(i as int).map_values(
            |b: u8| b as char,
        ).push(b as char));
        i = i + 1;
    }
    assert(v@.take(v.len() as int) =~= v@);
    Some(out)
}

/// `value_from_text(t@)`.
pub fn value_of_text(t: &String) -> (r: Option<Vec<u8>>)
    ensures
        match r {
            Some(b) => value_from_text(t@) == Some(b@),
            None => value_from_text(t@) is None,
        },
{
    let b = t.as_str().as_bytes_vec();
    assert(b@ == encode_utf8(t@));
    let mut i: usize = 0;
    while i < b.len()
        invariant
            i <= b.len(),
            b@ == encode_utf8(t@),
            forall|j: int| 0 <= j < i ==> is_value_byte(#[trigger] b@[j]),
        decreases b.len() - i,
    {
        let x = b[i];
        if !((32 <= x && x != 127) || x == 9) {
            assert(!is_value_byte(b@[i as int]));
            return None;
        }
        i = i + 1;
    }
    Some(b)
}

/// `value_or(t@, fallback@)`.
pub fn value_or_exec(t: &String, fallback: &Vec<u8>) -> (r: Vec<u8>)
    ensures
        r@ == value_or(t@, fallback@),
{
    match value_of_text(t) {
        Some(b) => b,
        None => slice_to_vec(fallback.as_slice()),
    }
}

/// Whether the lower-case form of `name` is `lit`.
pub fn lower_is(name: &String, lit: &str) -> (b: bool)
    ensures
        b == (lower(name@) == lit@),
{
    let v = chars_of(name.as_str());
    let l = lower_range(&v, 0, v.len());
    assert(v@.subrange(0, v.len() as int) =~= v@);
    let p = chars_of(lit);
    assert(l@.subrange(0, l.len() as int) =~= l@);
    eq_range(&l, 0, l.len(), &p)
}

/// Whether `name`, in lower case, is a hop-by-hop header.
pub fn hop_by_hop(name: &String) -> (b: bool)
    ensures
        b == is_hop_by_hop(lower(name@)),
{
    lower_is(name, "connection") || lower_is(name, "keep-alive") || lower_is(
        name,
        "proxy-authenticate",
    ) || lower_is(name, "proxy-authorization") || lower_is(name, "te") || lower_is(
        name,
        "trailers",
    ) || lower_is(name, "transfer-encoding")
}

/// A copy of `h`.
pub fn copy_header(h: &Header) -> (r: Header)
    ensures
        r@ == h@,
{
    Header { name: h.name.clone(), value: slice_to_vec(h.value.as_slice()) }
}

/// A request header that the proxy passes on to the server: neither a
/// hop-by-hop header nor `Host`, which it writes itself.
pub open spec fn keeps_request_header(h: (Seq<char>, Seq<u8>)) -> bool {
    !is_hop_by_hop(lower(h.0)) && lower(h.0) != "host"@
}

/// The headers of `hs` that the proxy passes on to the server, in order.
pub open spec fn forwarded_request_headers(hs: Seq<(Seq<char>, Seq<u8>)>) -> Seq<
    (Seq<char>, Seq<u8>),
>
    decreases hs.len(),
{
    if hs.len() == 0 {
        seq![]
    } else {
        let prev = forwarded_request_headers(hs.drop_last());
        if keeps_request_header(hs.last()) {
            prev.push(hs.last())
        } else {
            prev
        }
    }
}

/// Appends to `to` the headers of `from` that the proxy forwards.
pub fn copy_headers(from: &Vec<Header>, to: &mut Vec<Header>)
    ensures
        views(final(to)@) == views(old(to)@) + forwarded_request_headers(views(from@)),
{
    let mut i: usize = 0;
    while i < from.len()
        invariant
            i <= from.len(),
            views(to@) == views(old(to)@) + forwarded_request_headers(views(from@.take(i as int))),
        decreases from.len() - i,
    {
        let h = &from[i];
        assert(views(from@.take(i + 1)).drop_last() =~= views(from@.take(i as int)));
        assert(views(from@.take(i + 1)).last() == h@);
        let skip = hop_by_hop(&h.name) || lower_is(&h.name, "host");
        if !skip {
            let c = copy_header(h);
            let ghost prev = views(to@);
            to.push(c);
            assert(views(to@) =~= prev.push(h@));
            assert(views(to@) =~= views(old(to)@) + forwarded_request_headers(
                views(from@.take(i + 1)),
            ));
        } else {
            assert(views(to@) =~= views(old(to)@) + forwarded_request_headers(
                views(from@.take(i + 1)),
            ));
        }
        i = i + 1;
    }
    assert(from@.take(from.len() as int) =~= from@);
}


/// The value of the first header of `hs` whose lower-case name is `name`
/// (what `HeaderMap::get` returns).
pub open spec fn first_value(hs: Seq<(Seq<char>, Seq<u8>)>, name: Seq<char>) -> Option<Seq<u8>>
    decreases hs.len(),
{
    if hs.len() == 0 {
        None
    } else if lower(hs[0].0) == name {
        Some(hs[0].1)
    } else {
        first_value(hs.drop_first(), name)
    }
}

/// The value of the first header in `hs` named `name` (any case).
pub fn first_header_value(hs: &Vec<Header>, name: &str) -> (r: Option<Vec<u8>>)
    ensures
        match r {
            Some(v) => first_value(views(hs@), name@) == Some(v@),
            None => first_value(views(hs@), name@) is None,
        },
{
    let mut i: usize = 0;
    assert(views(hs@).skip(0) =~= views(hs@));
    while i < hs.len()
        invariant
            i <= hs.len(),
            first_value(views(hs@), name@) == first_value(views(hs@).skip(i as int), name@),
        decreases hs.len() - i,
    {
        assert(views(hs@).skip(i as int)[0] == hs@[i as int]@);
        assert(views(hs@).skip(i as int).drop_first() =~= views(hs@).skip(i + 1));
        if lower_is(&hs[i].name, name) {
            return Some(slice_to_vec(hs[i].value.as_slice()));
        }
        i = i + 1;
    }
    None
}

/// A request asks for a protocol upgrade (a WebSocket): one of its
/// `Connection` values, as text, holds `upgrade` in any case, and it has an
/// `Upgrade` header.
pub open spec fn asks_upgrade(hs: Seq<(Seq<char>, Seq<u8>)>) -> bool {
    &&& exists|i: int|
        0 <= i < hs.len() && lower(#[trigger] hs[i].0) == "connection"@ && (match value_text(hs[i].1) {
            Some(t) => find(lower(t), "upgrade"@) is Some,
            None => false,
        })
    &&& exists|i: int| 0 <= i < hs.len() && lower(#[trigger] hs[i].0) == "upgrade"@
}

/// Whether the text `t` holds `upgrade` in any case.
fn mentions_upgrade(t: &String) -> (b: bool)
    ensures
        b == (find(lower(t@), "upgrade"@) is Some),
{
    let v = chars_of(t.as_str());
    let l = lower_range(&v, 0, v.len());
    assert(v@.subrange(0, v.len() as int) =~= v@);
    let p = chars_of("upgrade");
    crate::text::find_from_exec(&l, &p, 0).is_some()
}

/// Whether a request with headers `hs` asks for a protocol upgrade.
pub fn is_upgrade(hs: &Vec<Header>) -> (b: bool)
    ensures
        b == asks_upgrade(views(hs@)),
{
    let ghost w = views(hs@);
    let mut conn_up = false;
    let mut has_upgrade = false;
    let mut i: usize = 0;
    while i < hs.len()
        invariant
            i <= hs.len(),
            w == views(hs@),
            conn_up == exists|j: int|
                0 <= j < i && lower(#[trigger] w[j].0) == "connection"@ && (match value_text(w[j].1) {
                    Some(t) => find(lower(t), "upgrade"@) is Some,
                    None => false,
                }),
            has_upgrade == exists|j: int| 0 <= j < i && lower(#[trigger] w[j].0) == "upgrade"@,
        decreases hs.len() - i,
    {
        let h = &hs[i];
        assert(w[i as int] == h@);
        assert(lower(w[i as int].0) == lower(h.name@));
        let ghost old_conn = conn_up;
        let ghost old_up = has_upgrade;
        if lower_is(&h.name, "connection") {
            match text_of_value(&h.value) {
                Some(t) => {
                    if mentions_upgrade(&t) {
                        conn_up = true;
                    }
                },
                None => {},
            }
        }
        if lower_is(&h.name, "upgrade") {
            has_upgrade = true;
        }
        let ghost here_conn = lower(w[i as int].0) == "connection"@ && (match value_text(w[i as int].1) {
            Some(t) => find(lower(t), "upgrade"@) is Some,
            None => false,
        });
        assert(conn_up == (old_conn || here_conn));
        assert(has_upgrade == (old_up || lower(w[i as int].0) == "upgrade"@));
        i = i + 1;
    }
    conn_up && has_upgrade
}

/// The origin the browser used to reach the proxy: `http://` and the text
/// of the first `Host` header, or `127.0.0.1` where there is none or it is
/// not text.
pub open spec fn local_origin_of(hs: Seq<(Seq<char>, Seq<u8>)>) -> Seq<char> {
    "http://"@ + match first_value(hs, "host"@) {
        Some(v) => match value_text(v) {
            Some(t) => t,
            None => "127.0.0.1"@,
        },
        None => "127.0.0.1"@,
    }
}

/// The origin the browser used to reach the proxy.
pub fn local_origin(hs: &Vec<Header>) -> (r: String)
    ensures
        r@ == local_origin_of(views(hs@)),
{
    let mut out = owned("http://");
    let host = match first_header_value(hs, "host") {
        Some(v) => match text_of_value(&v) {
            Some(t) => t,
            None => owned("127.0.0.1"),
        },
        None => owned("127.0.0.1"),
    };
    out.append(host.as_str());
    out
}

/// The request target sent upstream: the path and query, or `/`.
pub open spec fn request_target(path_and_query: Option<Seq<char>>) -> Seq<char> {
    match path_and_query {
        Some(p) => p,
        None => "/"@,
    }
}

/// The request target sent upstream.
pub fn upstream_target(path_and_query: Option<&str>) -> (r: String)
    ensures
        r@ == request_target(match path_and_query {
            Some(p) => Some(p@),
            None => None,
        }),
{
    match path_and_query {
        Some(p) => owned(p),
        None => owned("/"),
    }
}

/// The headers of a request as the proxy sends it upstream: the forwarded
/// ones, then `Host` set to the server's authority (`localhost` where the
/// authority cannot be a header value).
pub open spec fn upstream_headers(hs: Seq<(Seq<char>, Seq<u8>)>, authority: Seq<char>) -> Seq<
    (Seq<char>, Seq<u8>),
> {
    forwarded_request_headers(hs).push(("host"@, value_or(authority, encode_utf8("localhost"@))))
}

/// The headers of a request as the proxy sends it upstream.
pub fn upstream_request_headers(from: &Vec<Header>, authority: &str) -> (r: Vec<Header>)
    ensures
        views(r@) == upstream_headers(views(from@), authority@),
{
    let mut r: Vec<Header> = Vec::new();
    copy_headers(from, &mut r);
    let fallback = "localhost".as_bytes_vec();
    let value = value_or_exec(&owned(authority), &fallback);
    let ghost prev = views(r@);
    r.push(Header { name: owned("host"), value });
    assert(views(r@) =~= prev.push(r@.last()@));
    r
}


/// Nothing hop-by-hop and no `Host` header from the browser reaches the
/// server, and everything forwarded came from the browser's request.
pub proof fn lemma_forwarded_request_headers(hs: Seq<(Seq<char>, Seq<u8>)>)
    ensures
        forall|i: int|
            0 <= i < forwarded_request_headers(hs).len() ==> keeps_request_header(
                #[trigger] forwarded_request_headers(hs)[i],
            ),
        forall|i: int|
            0 <= i < forwarded_request_headers(hs).len() ==> hs.contains(
                #[trigger] forwarded_request_headers(hs)[i],
            ),
    decreases hs.len(),
{
    if hs.len() > 0 {
        lemma_forwarded_request_headers(hs.drop_last());
        let prev = forwarded_request_headers(hs.drop_last());
        assert forall|i: int| 0 <= i < forwarded_request_headers(hs).len() implies hs.contains(
            #[trigger] forwarded_request_headers(hs)[i],
        ) by {
            if i < prev.len() {
                assert(forwarded_request_headers(hs)[i] == prev[i]);
                assert(hs.drop_last().contains(prev[i]));
                let k = choose|k: int| 0 <= k < hs.drop_last().len() && hs.drop_last()[k] == prev[i];
                assert(hs[k] == prev[i]);
            } else {
                assert(hs[hs.len() - 1] == forwarded_request_headers(hs)[i]);
            }
        }
        assert forall|i: int| 0 <= i < forwarded_request_headers(hs).len() implies keeps_request_header(
            #[trigger] forwarded_request_headers(hs)[i],
        ) by {
            if i < prev.len() {
                assert(forwarded_request_headers(hs)[i] == prev[i]);
            }
        }
    }
}

/// The request the server gets carries exactly one `Host` header, the
/// last, and no hop-by-hop header.
pub proof fn lemma_upstream_single_host(hs: Seq<(Seq<char>, Seq<u8>)>, authority: Seq<char>)
    ensures
        ({
            let u = upstream_headers(hs, authority);
            &&& u.len() >= 1
            &&& u.last().0 == "host"@
            &&& forall|i: int| 0 <= i < u.len() - 1 ==> lower(#[trigger] u[i].0) != "host"@
            &&& forall|i: int| 0 <= i < u.len() - 1 ==> !is_hop_by_hop(lower(#[trigger] u[i].0))
        }),
{
    lemma_forwarded_request_headers(hs);
    let f = forwarded_request_headers(hs);
    let u = upstream_headers(hs, authority);
    assert forall|i: int| 0 <= i < u.len() - 1 implies lower(#[trigger] u[i].0) != "host"@
        && !is_hop_by_hop(lower(u[i].0)) by {
        assert(u[i] == f[i]);
        assert(keeps_request_header(f[i]));
    }
}

/// A request is a protocol upgrade exactly when the text of one of its
/// `Connection` headers, in lower case, holds `upgrade` somewhere (so a
/// list such as `keep-alive, Upgrade` counts as well as `Upgrade` alone),
/// and one of its headers is named `Upgrade`.
pub proof fn lemma_upgrade_request(hs: Seq<(Seq<char>, Seq<u8>)>)
    ensures
        asks_upgrade(hs) <==> ({
            &&& exists|i: int, k: int|
                #![trigger hs[i], occurs_at(lower(value_text(hs[i].1)->0), "upgrade"@, k)]
                0 <= i < hs.len() && lower(hs[i].0) == "connection"@ && value_text(hs[i].1) is Some
                    && occurs_at(lower(value_text(hs[i].1)->0), "upgrade"@, k)
            &&& exists|j: int| 0 <= j < hs.len() && lower(#[trigger] hs[j].0) == "upgrade"@
        }),
{
    if asks_upgrade(hs) {
        let i = choose|i: int|
            0 <= i < hs.len() && lower(#[trigger] hs[i].0) == "connection"@ && (match value_text(
                hs[i].1,
            ) {
                Some(t) => find(lower(t), "upgrade"@) is Some,
                None => false,
            });
        let t = value_text(hs[i].1)->0;
        lemma_find_from(lower(t), "upgrade"@, 0);
        let k = find(lower(t), "upgrade"@)->0 as int;
        assert(occurs_at(lower(value_text(hs[i].1)->0), "upgrade"@, k));
    }
    if exists|i: int, k: int|
        #![trigger hs[i], occurs_at(lower(value_text(hs[i].1)->0), "upgrade"@, k)]
        0 <= i < hs.len() && lower(hs[i].0) == "connection"@ && value_text(hs[i].1) is Some
            && occurs_at(lower(value_text(hs[i].1)->0), "upgrade"@, k) {
        let (i, k) = choose|i: int, k: int|
            #![trigger hs[i], occurs_at(lower(value_text(hs[i].1)->0), "upgrade"@, k)]
            0 <= i < hs.len() && lower(hs[i].0) == "connection"@ && value_text(hs[i].1) is Some
                && occurs_at(lower(value_text(hs[i].1)->0), "upgrade"@, k);
        let t = value_text(hs[i].1)->0;
        lemma_find_from(lower(t), "upgrade"@, 0);
        assert(find(lower(t), "upgrade"@) is Some);
        assert(lower(hs[i].0) == "connection"@ && (match value_text(hs[i].1) {
            Some(t) => find(lower(t), "upgrade"@) is Some,
            None => false,
        }));
    }
}

/// Every request header that is neither hop-by-hop nor `Host` reaches the
/// server, in the order the browser sent them and unchanged, repeated
/// headers included; no other header does.
pub proof fn lemma_forwarded_request_headers_all(hs: Seq<(Seq<char>, Seq<u8>)>)
    ensures
        forwarded_request_headers(hs) == hs.filter(
            |h: (Seq<char>, Seq<u8>)| !is_hop_by_hop(lower(h.0)) && lower(h.0) != "host"@,
        ),
    decreases hs.len(),
{
    reveal(Seq::filter);
    if hs.len() > 0 {
        lemma_forwarded_request_headers_all(hs.drop_last());
    }
}

/// The value a server reads for `name` is that of the first header the
/// browser sent under that name, in any case; nothing when there is none.
pub proof fn lemma_first_value(hs: Seq<(Seq<char>, Seq<u8>)>, name: Seq<char>)
    ensures
        match first_value(hs, name) {
            Some(v) => exists|i: int|
                0 <= i < hs.len() && lower(#[trigger] hs[i].0) == name && hs[i].1 == v && forall|
                    j: int,
                | 0 <= j < i ==> lower(#[trigger] hs[j].0) != name,
            None => forall|i: int| 0 <= i < hs.len() ==> lower(#[trigger] hs[i].0) != name,
        },
    decreases hs.len(),
{
    if hs.len() > 0 && lower(hs[0].0) != name {
        let t = hs.drop_first();
        lemma_first_value(t, name);
        match first_value(t, name) {
            Some(v) => {
                let i = choose|i: int|
                    0 <= i < t.len() && lower(#[trigger] t[i].0) == name && t[i].1 == v && forall|
                        j: int,
                    | 0 <= j < i ==> lower(#[trigger] t[j].0) != name;
                assert(hs[i + 1] == t[i]);
                assert forall|j: int| 0 <= j < i + 1 implies lower(#[trigger] hs[j].0) != name by {
                    if j > 0 {
                        assert(hs[j] == t[j - 1]);
                    }
                }
            },
            None => {
                assert forall|i: int| 0 <= i < hs.len() implies lower(#[trigger] hs[i].0) != name by {
                    if i > 0 {
                        assert(hs[i] == t[i - 1]);
                    }
                }
            },
        }
    } else if hs.len() > 0 {
        assert(lower(hs[0].0) == name);
    }
}

} // verus!
