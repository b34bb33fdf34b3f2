//! How the local proxy rewrites a server's response so that the browser,
//! which talks to `http://127.0.0.1:<port>`, stays on the proxy: absolute
//! redirects point back at the proxy, and cookies lose what would make the
//! browser drop them on a plain-HTTP origin.

use vstd::prelude::*;
use vstd::slice::slice_to_vec;
use vstd::utf8::{encode_utf8, is_ascii_chars, is_ascii_chars_encode_utf8};
use crate::headers::{
    copy_header, hop_by_hop, is_hop_by_hop, is_value_byte, is_visible_ascii, lower_is, text_of_value,
    value_from_text, value_or,
    value_or_exec,
    value_text, views, Header,
};
use crate::text::{
    chars_of, eq_range, occurs_at, lemma_find_from, find, find_char, find_char_in, has_prefix, lemma_split_nonempty, lower,
    lower_range, owned, pieces_view, push_chars, split, split_exec, starts_with_range,
};

verus! {

broadcast use vstd::string::group_string_axioms;

/// A `Location` text after its scheme prefix of length `n`: the origin
/// followed by the path from the first `/` on, or the origin alone where
/// there is no path; `v` stays where the result cannot be a value.
pub open spec fn location_with_origin(s: Seq<char>, n: int, origin: Seq<char>, v: Seq<u8>) -> Seq<
    u8,
> {
    match find_char(s.skip(n), '/') {
        Some(i) => value_or(origin + s.skip(n + i), v),
        None => value_or(origin, v),
    }
}

/// A `Location` value with an absolute `https://` or `http://` URL points
/// at `origin` instead; a relative one, or one that is not text, stays.
pub open spec fn rewritten_location(v: Seq<u8>, origin: Seq<char>) -> Seq<u8> {
    match value_text(v) {
        None => v,
        Some(s) => if has_prefix(s, "https://"@) {
            location_with_origin(s, "https://"@.len() as int, origin, v)
        } else if has_prefix(s, "http://"@) {
            location_with_origin(s, "http://"@.len() as int, origin, v)
        } else {
            v
        },
    }
}

/// Rewrites a `Location` value to point at `origin`.
pub fn rewrite_location(value: &Vec<u8>, origin: &str) -> (r: Vec<u8>)
    ensures
        r@ == rewritten_location(value@, origin@),
{
    let text = match text_of_value(value) {
        Some(t) => t,
        None => {
            return slice_to_vec(value.as_slice());
        },
    };
    let s = chars_of(text.as_str());
    let https = chars_of("https://");
    let http = chars_of("http://");
    assert(s@.subrange(0, s.len() as int) =~= s@);
    let n: usize = if starts_with_range(&s, 0, s.len(), &https) {
        https.len()
    } else if starts_with_range(&s, 0, s.len(), &http) {
        http.len()
    } else {
        return slice_to_vec(value.as_slice());
    };
    assert(s@.skip(n as int) =~= s@.subrange(n as int, s.len() as int));
    let mut out = owned(origin);
    match find_char_in(&s, n, s.len(), '/') {
        Some(i) => {
            assert(s@.skip(n as int + (i - n)) =~= s@.subrange(i as int, s.len() as int));
            push_chars(&mut out, &s, i, s.len());
        },
        None => {},
    }
    value_or_exec(&out, value)
}

/// What one `; `-separated cookie attribute after the first becomes, given
/// whether the cookie loses its `Secure`: `Secure` is dropped,
/// `SameSite=None` becomes `SameSite=Lax` when `Secure` is dropped (a cookie
/// without `Secure` may not be `SameSite=None`), any `Domain` is set to
/// `127.0.0.1`, and everything else stays. Names match in any case.
pub open spec fn cookie_attr(attr: Seq<char>, drops_secure: bool) -> Seq<char> {
    let l = lower(attr);
    if l == "secure"@ {
        seq![]
    } else if l == "samesite=none"@ && drops_secure {
        "; SameSite=Lax"@
    } else if (match find_char(l, '=') {
        Some(k) => l.take(k as int) == "domain"@,
        None => false,
    }) {
        "; Domain=127.0.0.1"@
    } else {
        "; "@ + attr
    }
}

/// Some attribute of the cookie is `Secure` (in any case), which the
/// proxy drops.
pub open spec fn has_secure(attrs: Seq<Seq<char>>) -> bool {
    exists|i: int| 0 <= i < attrs.len() && lower(#[trigger] attrs[i]) == "secure"@
}

/// The text that the attributes `attrs` become, in order, given whether
/// the cookie loses its `Secure`.
pub open spec fn cookie_attrs(attrs: Seq<Seq<char>>, drops_secure: bool) -> Seq<char>
    decreases attrs.len(),
{
    if attrs.len() == 0 {
        seq![]
    } else {
        cookie_attrs(attrs.drop_last(), drops_secure) + cookie_attr(attrs.last(), drops_secure)
    }
}

/// A `Set-Cookie` text rewritten: its first piece (the name and value)
/// kept, then each attribute as `cookie_attr` says, where the cookie loses
/// its `Secure` when any of its attributes is `Secure`.
pub open spec fn rewritten_cookie_text(s: Seq<char>) -> Seq<char> {
    let parts = split(s, "; "@);
    parts[0] + cookie_attrs(parts.drop_first(), has_secure(parts.drop_first()))
}

/// A `Set-Cookie` value rewritten for the local origin; one that is not
/// text, or whose rewrite cannot be a value, stays.
pub open spec fn rewritten_set_cookie(v: Seq<u8>) -> Seq<u8> {
    match value_text(v) {
        None => v,
        Some(s) => value_or(rewritten_cookie_text(s), v),
    }
}

/// Rewrites a `Set-Cookie` value for the local origin.
pub fn rewrite_set_cookie(value: &Vec<u8>) -> (r: Vec<u8>)
    ensures
        r@ == rewritten_set_cookie(value@),
{
    let text = match text_of_value(value) {
        Some(t) => t,
        None => {
            return slice_to_vec(value.as_slice());
        },
    };
    let s = chars_of(text.as_str());
    let sep = chars_of("; ");
    proof {
        reveal_strlit("; ");
    }
    let parts = split_exec(&s, &sep);
    let ghost pv = pieces_view(parts@);
    let ghost attrs = pv.drop_first();
    proof {
        lemma_split_nonempty(s@, sep@);
    }
    let secure = chars_of("secure");
    let none = chars_of("samesite=none");
    let domain = chars_of("domain");
    let mut drops: bool = false;
    let mut i: usize = 1;
    while i < parts.len()
        invariant
            1 <= i <= parts.len(),
            pv == pieces_view(parts@),
            attrs == pv.drop_first(),
            secure@ == "secure"@,
            drops == exists|j: int| 0 <= j < i - 1 && lower(#[trigger] attrs[j]) == "secure"@,
        decreases parts.len() - i,
    {
        let attr = &parts[i];
        assert(attrs[i - 1] == attr@);
        let l = lower_range(attr, 0, attr.len());
        assert(attr@.subrange(0, attr.len() as int) =~= attr@);
        assert(l@.subrange(0, l.len() as int) =~= l@);
        let ghost before = drops;
        if eq_range(&l, 0, l.len(), &secure) {
            drops = true;
        }
        assert(drops == (before || lower(attrs[i - 1]) == "secure"@));
        i = i + 1;
    }
    assert(drops == has_secure(attrs));
    let mut out = String::new();
    push_chars(&mut out, &parts[0], 0, parts[0].len());
    assert(parts[0]@.subrange(0, parts[0]@.len() as int) =~= pv[0]);
    let mut i: usize = 1;
    assert(pv.subrange(1, 1) =~= Seq::<Seq<char>>::empty());
    while i < parts.len()
        invariant
            1 <= i <= parts.len(),
            pv == pieces_view(parts@),
            secure@ == "secure"@,
            none@ == "samesite=none"@,
            domain@ == "domain"@,
            out@ == pv[0] + cookie_attrs(pv.subrange(1, i as int), drops),
        decreases parts.len() - i,
    {
        let attr = &parts[i];
        assert(pv[i as int] == attr@);
        assert(pv.subrange(1, i + 1).drop_last() =~= pv.subrange(1, i as int));
        assert(pv.subrange(1, i + 1).last() == attr@);
        let l = lower_range(attr, 0, attr.len());
        assert(attr@.subrange(0, attr.len() as int) =~= attr@);
        assert(l@.subrange(0, l.len() as int) =~= l@);
        let ghost before = out@;
        if eq_range(&l, 0, l.len(), &secure) {
        } else if eq_range(&l, 0, l.len(), &none) && drops {
            out.append("; SameSite=Lax");
        } else if match find_char_in(&l, 0, l.len(), '=') {
            Some(k) => eq_range(&l, 0, k, &domain) && {
                assert(l@.take(k as int) =~= l@.subrange(0, k as int));
                true
            },
            None => false,
        } {
            out.append("; Domain=127.0.0.1");
        } else {
            out.append("; ");
            push_chars(&mut out, attr, 0, attr.len());
        }
        assert(out@ =~= before + cookie_attr(attr@, drops));
        i = i + 1;
    }
    assert(pv.subrange(1, parts.len() as int) =~= pv.drop_first());
    value_or_exec(&out, value)
}

/// What the proxy passes back of one response header: `Location` and
/// `Set-Cookie` rewritten, the rest as it came.
pub open spec fn response_header_out(h: (Seq<char>, Seq<u8>), origin: Seq<char>) -> (
    Seq<char>,
    Seq<u8>,
) {
    if lower(h.0) == "location"@ {
        (h.0, rewritten_location(h.1, origin))
    } else if lower(h.0) == "set-cookie"@ {
        (h.0, rewritten_set_cookie(h.1))
    } else {
        h
    }
}

/// The headers of a server response as the proxy passes them back: the
/// hop-by-hop ones dropped, the others in order, rewritten by
/// `response_header_out`.
pub open spec fn rewritten_response_headers(
    hs: Seq<(Seq<char>, Seq<u8>)>,
    origin: Seq<char>,
) -> Seq<(Seq<char>, Seq<u8>)>
    decreases hs.len(),
{
    if hs.len() == 0 {
        seq![]
    } else {
        let prev = rewritten_response_headers(hs.drop_last(), origin);
        if is_hop_by_hop(lower(hs.last().0)) {
            prev
        } else {
            prev.push(response_header_out(hs.last(), origin))
        }
    }
}

/// The headers of a server response as the proxy passes them back to the
/// browser at `origin`.
pub fn rewrite_response_headers(hs: &Vec<Header>, origin: &str) -> (r: Vec<Header>)
    ensures
        views(r@) == rewritten_response_headers(views(hs@), origin@),
{
    let mut r: Vec<Header> = Vec::new();
    let mut i: usize = 0;
    while i < hs.len()
        invariant
            i <= hs.len(),
            views(r@) == rewritten_response_headers(views(hs@.take(i as int)), origin@),
        decreases hs.len() - i,
    {
        let h = &hs[i];
        assert(views(hs@.take(i + 1)).drop_last() =~= views(hs@.take(i as int)));
        assert(views(hs@.take(i + 1)).last() == h@);
        if !hop_by_hop(&h.name) {
            let out = if lower_is(&h.name, "location") {
                Header { name: h.name.clone(), value: rewrite_location(&h.value, origin) }
            } else if lower_is(&h.name, "set-cookie") {
                Header { name: h.name.clone(), value: rewrite_set_cookie(&h.value) }
            } else {
                copy_header(h)
            };
            assert(out@ == response_header_out(h@, origin@));
            let ghost prev = views(r@);
            r.push(out);
            assert(views(r@) =~= prev.push(out@));
        }
        i = i + 1;
    }
    assert(hs@.take(hs.len() as int) =~= hs@);
    r
}


/// A relative `Location`, or one that is not an absolute `http(s)` URL,
/// is passed back as it came.
pub proof fn lemma_relative_location_kept(v: Seq<u8>, origin: Seq<char>)
    requires
        value_text(v) matches Some(s) && !has_prefix(s, "https://"@) && !has_prefix(s, "http://"@),
    ensures
        rewritten_location(v, origin) == v,
{
}

/// An absolute `Location` whose rewrite can be a header value now starts
/// with the proxy's origin.
pub proof fn lemma_absolute_location_points_home(v: Seq<u8>, origin: Seq<char>)
    requires
        value_text(v) matches Some(s) && (has_prefix(s, "https://"@) || has_prefix(s, "http://"@)),
        value_from_text(origin) is Some,
    ensures
        ({
            let s = value_text(v)->0;
            let n = if has_prefix(s, "https://"@) {
                "https://"@.len() as int
            } else {
                "http://"@.len() as int
            };
            let text = match find_char(s.skip(n), '/') {
                Some(i) => origin + s.skip(n + i),
                None => origin,
            };
            &&& has_prefix(text, origin)
            &&& value_from_text(text) is Some ==> rewritten_location(v, origin) == encode_utf8(text)
        }),
{
    let s = value_text(v)->0;
    let n = if has_prefix(s, "https://"@) {
        "https://"@.len() as int
    } else {
        "http://"@.len() as int
    };
    match find_char(s.skip(n), '/') {
        Some(i) => {
            assert((origin + s.skip(n + i)).take(origin.len() as int) =~= origin);
        },
        None => {
            assert(origin.take(origin.len() as int) =~= origin);
        },
    }
}

/// Hop-by-hop headers of a response never reach the browser, and every
/// header that does keeps its name.
pub proof fn lemma_response_headers_no_hop(hs: Seq<(Seq<char>, Seq<u8>)>, origin: Seq<char>)
    ensures
        forall|i: int|
            0 <= i < rewritten_response_headers(hs, origin).len() ==> !is_hop_by_hop(
                lower(#[trigger] rewritten_response_headers(hs, origin)[i].0),
            ),
    decreases hs.len(),
{
    if hs.len() > 0 {
        lemma_response_headers_no_hop(hs.drop_last(), origin);
        let prev = rewritten_response_headers(hs.drop_last(), origin);
        assert forall|i: int| 0 <= i < rewritten_response_headers(hs, origin).len() implies !is_hop_by_hop(
            lower(#[trigger] rewritten_response_headers(hs, origin)[i].0),
        ) by {
            if i < prev.len() {
                assert(rewritten_response_headers(hs, origin)[i] == prev[i]);
            }
        }
    }
}


/// The pieces `ps` joined back, each preceded by `sep`.
pub open spec fn join_after(ps: Seq<Seq<char>>, sep: Seq<char>) -> Seq<char>
    decreases ps.len(),
{
    if ps.len() == 0 {
        seq![]
    } else {
        sep + ps[0] + join_after(ps.drop_first(), sep)
    }
}

proof fn lemma_join_after_push(ps: Seq<Seq<char>>, sep: Seq<char>, x: Seq<char>)
    ensures
        join_after(ps.push(x), sep) == join_after(ps, sep) + sep + x,
    decreases ps.len(),
{
    if ps.len() == 0 {
        assert(ps.push(x).drop_first() =~= Seq::<Seq<char>>::empty());
        assert(ps.push(x)[0] == x);
        assert(join_after(Seq::<Seq<char>>::empty(), sep) == Seq::<char>::empty());
        assert(join_after(ps.push(x), sep) == sep + x + join_after(Seq::<Seq<char>>::empty(), sep));
        assert(join_after(ps.push(x), sep) =~= sep + x + seq![]);
        assert(join_after(ps, sep) + sep + x =~= sep + x + seq![]);
    } else {
        lemma_join_after_push(ps.drop_first(), sep, x);
        assert(ps.push(x).drop_first() =~= ps.drop_first().push(x));
        assert(join_after(ps.push(x), sep) =~= join_after(ps, sep) + sep + x);
    }
}

/// Splitting at `sep` and joining back gives the text again.
proof fn lemma_split_join(s: Seq<char>, sep: Seq<char>)
    requires
        sep.len() > 0,
    ensures
        split(s, sep)[0] + join_after(split(s, sep).drop_first(), sep) == s,
    decreases s.len(),
{
    crate::text::lemma_find_from(s, sep, 0);
    match find(s, sep) {
        Some(i) => {
            let rest = s.skip((i + sep.len()) as int);
            lemma_split_join(rest, sep);
            crate::text::lemma_split_nonempty(rest, sep);
            let p = split(rest, sep);
            assert(split(s, sep) == seq![s.take(i as int)] + p);
            assert(split(s, sep).drop_first() =~= p);
            assert(split(s, sep)[0] == s.take(i as int));
            assert(p.drop_first() == p.drop_first());
            assert(join_after(p, sep) == sep + p[0] + join_after(p.drop_first(), sep));
            assert(s =~= s.take(i as int) + sep + rest);
            assert(s.take(i as int) + (sep + p[0] + join_after(p.drop_first(), sep)) =~= s.take(
                i as int,
            ) + sep + (p[0] + join_after(p.drop_first(), sep)));
        },
        None => {
            assert(split(s, sep) == seq![s]);
            assert(split(s, sep).drop_first() =~= Seq::<Seq<char>>::empty());
            assert(s + seq![] =~= s);
        },
    }
}

/// A cookie attribute the proxy leaves alone: neither `Secure` nor a
/// `Domain` (in any case).
pub open spec fn plain_cookie_attr(a: Seq<char>) -> bool {
    &&& lower(a) != "secure"@
    &&& !(match find_char(lower(a), '=') {
        Some(k) => lower(a).take(k as int) == "domain"@,
        None => false,
    })
}

/// An attribute that a second pass of the rewrite passes back as it is:
/// not `Secure`, and emitted as `; ` and itself when no `Secure` was dropped.
spec fn stays(x: Seq<char>) -> bool {
    &&& lower(x) != "secure"@
    &&& cookie_attr(x, false) == "; "@ + x
}

proof fn lemma_staying_attrs(attrs: Seq<Seq<char>>)
    requires
        forall|i: int| 0 <= i < attrs.len() ==> stays(#[trigger] attrs[i]),
    ensures
        cookie_attrs(attrs, false) == join_after(attrs, "; "@),
        !has_secure(attrs),
    decreases attrs.len(),
{
    if attrs.len() > 0 {
        let d = attrs.drop_last();
        assert forall|i: int| 0 <= i < d.len() implies stays(#[trigger] d[i]) by {
            assert(d[i] == attrs[i]);
        }
        lemma_staying_attrs(d);
        assert(stays(attrs[attrs.len() - 1]));
        lemma_join_after_push(d, "; "@, attrs.last());
        assert(d.push(attrs.last()) =~= attrs);
        assert(join_after(d, "; "@) + ("; "@ + attrs.last()) =~= join_after(d, "; "@) + "; "@
            + attrs.last());
    }
    assert(!has_secure(attrs)) by {
        if has_secure(attrs) {
            let j = choose|j: int| 0 <= j < attrs.len() && lower(#[trigger] attrs[j]) == "secure"@;
            assert(stays(attrs[j]));
        }
    }
}

/// A `Set-Cookie` value without `Secure` or `Domain` attributes reaches
/// the browser as the server sent it.
pub proof fn lemma_plain_cookie_kept(v: Seq<u8>)
    requires
        value_text(v) is Some,
        forall|i: int|
            1 <= i < split(value_text(v)->0, "; "@).len() ==> plain_cookie_attr(
                #[trigger] split(value_text(v)->0, "; "@)[i],
            ),
    ensures
        rewritten_set_cookie(v) == v,
{
    reveal_strlit("; ");
    let s = value_text(v)->0;
    let parts = split(s, "; "@);
    let attrs = parts.drop_first();
    assert forall|i: int| 0 <= i < attrs.len() implies stays(#[trigger] attrs[i]) by {
        assert(attrs[i] == parts[i + 1]);
        assert(plain_cookie_attr(attrs[i]));
    }
    lemma_staying_attrs(attrs);
    lemma_split_join(s, "; "@);
    assert(rewritten_cookie_text(s) == s);
    assert(is_ascii_chars(s)) by {
        assert forall|i: int| 0 <= i < s.len() implies '\0' <= #[trigger] s[i] <= '\u{7f}' by {
            assert(is_visible_ascii(v[i]));
            assert(s[i] == v[i] as char);
        }
    }
    is_ascii_chars_encode_utf8(s);
    assert(encode_utf8(s) =~= v) by {
        assert forall|i: int| 0 <= i < v.len() implies encode_utf8(s)[i] == v[i] by {
            assert(s[i] == v[i] as char);
            assert(s[i] as u8 == encode_utf8(s)[i]);
        }
    }
    assert forall|i: int| 0 <= i < encode_utf8(s).len() implies is_value_byte(#[trigger] encode_utf8(s)[i]) by {
        assert(is_visible_ascii(v[i]));
    }
}


/// No cookie attribute the proxy emits is `Secure`: each attribute becomes
/// nothing, or `; ` and an attribute that is not `Secure` in any case.
pub proof fn lemma_secure_never_emitted(a: Seq<char>, dropped_secure: bool)
    ensures
        cookie_attr(a, dropped_secure) == Seq::<char>::empty() || exists|x: Seq<char>|
            cookie_attr(a, dropped_secure) == "; "@ + x && lower(x) != "secure"@,
{
    reveal_strlit("secure");
    reveal_strlit("; ");
    reveal_strlit("; SameSite=Lax");
    reveal_strlit("; Domain=127.0.0.1");
    let l = lower(a);
    if l == "secure"@ {
    } else if l == "samesite=none"@ && dropped_secure {
        let x = "SameSite=Lax"@;
        reveal_strlit("SameSite=Lax");
        assert("; SameSite=Lax"@ =~= "; "@ + x);
        assert(lower(x).len() != "secure"@.len());
    } else if (match find_char(l, '=') {
        Some(k) => l.take(k as int) == "domain"@,
        None => false,
    }) {
        let x = "Domain=127.0.0.1"@;
        reveal_strlit("Domain=127.0.0.1");
        assert("; Domain=127.0.0.1"@ =~= "; "@ + x);
        assert(lower(x).len() != "secure"@.len());
    } else {
        assert(lower(a) != "secure"@);
    }
}

/// A character a header value may carry as text: visible ASCII or tab.
spec fn is_visible_char(c: char) -> bool {
    (' ' <= c && c <= '~') || c == '\t'
}

/// Every character of `s` is visible ASCII or tab.
spec fn visible_text(s: Seq<char>) -> bool {
    forall|i: int| 0 <= i < s.len() ==> is_visible_char(#[trigger] s[i])
}

/// `s` holds no `; `.
spec fn no_separator(s: Seq<char>) -> bool {
    forall|k: int| !occurs_at(s, "; "@, k)
}

/// What a kept attribute (one that is not `Secure`) is passed back as,
/// without the `; ` before it.
spec fn attr_out(a: Seq<char>, drops_secure: bool) -> Seq<char> {
    let l = lower(a);
    if l == "samesite=none"@ && drops_secure {
        "SameSite=Lax"@
    } else if (match find_char(l, '=') {
        Some(k) => l.take(k as int) == "domain"@,
        None => false,
    }) {
        "Domain=127.0.0.1"@
    } else {
        a
    }
}

/// The attributes passed back, in order, each without the `; ` before it.
spec fn kept_attrs(attrs: Seq<Seq<char>>, drops_secure: bool) -> Seq<Seq<char>>
    decreases attrs.len(),
{
    if attrs.len() == 0 {
        seq![]
    } else if lower(attrs.last()) == "secure"@ {
        kept_attrs(attrs.drop_last(), drops_secure)
    } else {
        kept_attrs(attrs.drop_last(), drops_secure).push(attr_out(attrs.last(), drops_secure))
    }
}

proof fn lemma_cookie_attrs_join(attrs: Seq<Seq<char>>, d: bool)
    ensures
        cookie_attrs(attrs, d) == join_after(kept_attrs(attrs, d), "; "@),
    decreases attrs.len(),
{
    reveal_strlit("; ");
    reveal_strlit("; SameSite=Lax");
    reveal_strlit("SameSite=Lax");
    reveal_strlit("; Domain=127.0.0.1");
    reveal_strlit("Domain=127.0.0.1");
    if attrs.len() > 0 {
        let d0 = attrs.drop_last();
        let a = attrs.last();
        lemma_cookie_attrs_join(d0, d);
        if lower(a) == "secure"@ {
            assert(cookie_attrs(attrs, d) =~= cookie_attrs(d0, d));
        } else {
            let x = attr_out(a, d);
            assert(cookie_attr(a, d) =~= "; "@ + x);
            lemma_join_after_push(kept_attrs(d0, d), "; "@, x);
            assert(join_after(kept_attrs(d0, d), "; "@) + ("; "@ + x) =~= join_after(
                kept_attrs(d0, d),
                "; "@,
            ) + "; "@ + x);
        }
    }
}

proof fn lemma_visible_concat(a: Seq<char>, b: Seq<char>)
    requires
        visible_text(a),
        visible_text(b),
    ensures
        visible_text(a + b),
{
    assert forall|i: int| 0 <= i < (a + b).len() implies is_visible_char(#[trigger] (a + b)[i]) by {
        if i < a.len() {
            assert((a + b)[i] == a[i]);
        } else {
            assert((a + b)[i] == b[i - a.len()]);
        }
    }
}

proof fn lemma_attr_out(a: Seq<char>, d: bool)
    requires
        lower(a) != "secure"@,
        no_separator(a),
        visible_text(a),
    ensures
        stays(attr_out(a, d)),
        no_separator(attr_out(a, d)),
        visible_text(attr_out(a, d)),
        d ==> lower(attr_out(a, d)) != "samesite=none"@,
{
    reveal_strlit("; ");
    reveal_strlit("secure");
    reveal_strlit("samesite=none");
    reveal_strlit("domain");
    reveal_strlit("SameSite=Lax");
    reveal_strlit("Domain=127.0.0.1");
    reveal_strlit("; SameSite=Lax");
    reveal_strlit("; Domain=127.0.0.1");
    let l = lower(a);
    let x = attr_out(a, d);
    let lx = lower(x);
    assert(lx.len() == x.len());
    if l == "samesite=none"@ && d {
        assert(x == "SameSite=Lax"@);
        assert(lx[0] == 's');
        assert(lx.len() != "samesite=none"@.len());
        assert(!(match find_char(lx, '=') {
            Some(k) => lx.take(k as int) == "domain"@,
            None => false,
        })) by {
            lemma_find_from(lx, seq!['='], 0);
            if let Some(k) = find_char(lx, '=') {
                if lx.take(k as int) == "domain"@ {
                    assert(lx.take(k as int).len() == 6);
                    assert(lx.take(k as int)[0] == lx[0]);
                }
            }
        }
        assert(cookie_attr(x, false) =~= "; "@ + x);
        assert forall|k: int| !occurs_at(x, "; "@, k) by {
            if occurs_at(x, "; "@, k) {
                assert(x.subrange(k, k + 2)[0] == x[k]);
            }
        }
    } else if (match find_char(l, '=') {
        Some(k) => l.take(k as int) == "domain"@,
        None => false,
    }) {
        assert(x == "Domain=127.0.0.1"@);
        assert(lx.take(6) =~= "domain"@);
        assert(lx.len() != "samesite=none"@.len());
        assert(lx.subrange(6, 7) =~= seq!['=']);
        lemma_find_from(lx, seq!['='], 0);
        assert(occurs_at(lx, seq!['='], 6));
        assert(find_char(lx, '=') == Some(6nat)) by {
            let j = find_char(lx, '=')->0;
            if j < 6 {
                assert(lx.subrange(j as int, j + 1int)[0] == lx[j as int]);
            }
        }
        assert(cookie_attr(x, false) =~= "; "@ + x);
        assert forall|k: int| !occurs_at(x, "; "@, k) by {
            if occurs_at(x, "; "@, k) {
                assert(x.subrange(k, k + 2)[0] == x[k]);
            }
        }
    } else {
        assert(x == a);
    }
}

proof fn lemma_kept_attrs(attrs: Seq<Seq<char>>, d: bool)
    requires
        forall|i: int| 0 <= i < attrs.len() ==> no_separator(#[trigger] attrs[i]),
        forall|i: int| 0 <= i < attrs.len() ==> visible_text(#[trigger] attrs[i]),
    ensures
        forall|i: int|
            0 <= i < kept_attrs(attrs, d).len() ==> stays(#[trigger] kept_attrs(attrs, d)[i]),
        forall|i: int|
            0 <= i < kept_attrs(attrs, d).len() ==> no_separator(
                #[trigger] kept_attrs(attrs, d)[i],
            ),
        forall|i: int|
            0 <= i < kept_attrs(attrs, d).len() ==> visible_text(
                #[trigger] kept_attrs(attrs, d)[i],
            ),
        forall|i: int|
            0 <= i < kept_attrs(attrs, d).len() ==> (d ==> lower(#[trigger] kept_attrs(attrs, d)[i])
                != "samesite=none"@),
    decreases attrs.len(),
{
    if attrs.len() > 0 {
        let d0 = attrs.drop_last();
        assert forall|i: int| 0 <= i < d0.len() implies no_separator(#[trigger] d0[i])
            && visible_text(d0[i]) by {
            assert(d0[i] == attrs[i]);
        }
        lemma_kept_attrs(d0, d);
        let a = attrs.last();
        assert(no_separator(attrs[attrs.len() - 1]) && visible_text(attrs[attrs.len() - 1]));
        let k0 = kept_attrs(d0, d);
        let k1 = kept_attrs(attrs, d);
        if lower(a) != "secure"@ {
            lemma_attr_out(a, d);
            let x = attr_out(a, d);
            assert(k1 == k0.push(x));
            assert forall|i: int| 0 <= i < k1.len() implies stays(#[trigger] k1[i]) && no_separator(
                k1[i],
            ) && visible_text(k1[i]) && (d ==> lower(k1[i]) != "samesite=none"@) by {
                if i < k0.len() {
                    assert(k1[i] == k0[i]);
                } else {
                    assert(k1[i] == x);
                }
            }
        } else {
            assert(k1 == k0);
        }
    }
}

proof fn lemma_split_pieces(s: Seq<char>)
    requires
        visible_text(s),
    ensures
        forall|i: int|
            0 <= i < split(s, "; "@).len() ==> no_separator(#[trigger] split(s, "; "@)[i])
                && visible_text(split(s, "; "@)[i]),
    decreases s.len(),
{
    reveal_strlit("; ");
    let sep = "; "@;
    lemma_find_from(s, sep, 0);
    match find(s, sep) {
        Some(j) => {
            let rest = s.skip(j + 2int);
            assert(visible_text(rest)) by {
                assert forall|i: int| 0 <= i < rest.len() implies is_visible_char(#[trigger] rest[i]) by {
                    assert(rest[i] == s[i + j + 2]);
                }
            }
            lemma_split_pieces(rest);
            let p0 = s.take(j as int);
            assert(split(s, sep) == seq![p0] + split(rest, sep));
            assert forall|k: int| !occurs_at(p0, sep, k) by {
                if occurs_at(p0, sep, k) {
                    assert(p0.subrange(k, k + 2) =~= s.subrange(k, k + 2));
                    assert(occurs_at(s, sep, k));
                }
            }
            assert forall|i: int|
                0 <= i < split(s, sep).len() implies no_separator(#[trigger] split(s, sep)[i])
                && visible_text(split(s, sep)[i]) by {
                if i == 0 {
                    assert(split(s, sep)[i] == p0);
                    assert forall|m: int| 0 <= m < p0.len() implies is_visible_char(#[trigger] p0[m]) by {
                        assert(p0[m] == s[m]);
                    }
                } else {
                    assert(split(s, sep)[i] == split(rest, sep)[i - 1]);
                }
            }
        },
        None => {
            assert(split(s, sep) == seq![s]);
            assert forall|i: int|
                0 <= i < split(s, sep).len() implies no_separator(#[trigger] split(s, sep)[i])
                && visible_text(split(s, sep)[i]) by {
                assert(split(s, sep)[i] == s);
            }
        },
    }
}

proof fn lemma_split_of_join(p0: Seq<char>, qs: Seq<Seq<char>>)
    requires
        no_separator(p0),
        forall|i: int| 0 <= i < qs.len() ==> no_separator(#[trigger] qs[i]),
    ensures
        split(p0 + join_after(qs, "; "@), "; "@) == seq![p0] + qs,
    decreases qs.len(),
{
    reveal_strlit("; ");
    let sep = "; "@;
    let s = p0 + join_after(qs, sep);
    lemma_find_from(s, sep, 0);
    if qs.len() == 0 {
        assert(s =~= p0);
        assert(find(s, sep) is None) by {
            if let Some(j) = find(s, sep) {
                assert(occurs_at(p0, sep, j as int));
            }
        }
        assert(seq![p0] + qs =~= seq![p0]);
    } else {
        let q0 = qs[0];
        let rest = qs.drop_first();
        let tail = q0 + join_after(rest, sep);
        assert(s =~= p0 + sep + tail);
        let n = p0.len() as int;
        assert(s.subrange(n, n + 2) =~= sep);
        assert(occurs_at(s, sep, n));
        let j = find(s, sep)->0;
        assert(j == n) by {
            if j < n {
                assert(s.subrange(j as int, j + 2int)[0] == s[j as int]);
                assert(s.subrange(j as int, j + 2int)[1] == s[j + 1int]);
                if j + 2 <= n {
                    assert(p0.subrange(j as int, j + 2int) =~= s.subrange(j as int, j + 2int));
                    assert(occurs_at(p0, sep, j as int));
                } else {
                    assert(s[j + 1int] == sep[0]);
                }
            }
        }
        assert(s.take(n) =~= p0);
        assert(s.skip(n + 2) =~= tail);
        assert forall|i: int| 0 <= i < rest.len() implies no_separator(#[trigger] rest[i]) by {
            assert(rest[i] == qs[i + 1]);
        }
        lemma_split_of_join(q0, rest);
        assert(split(s, sep) == seq![p0] + split(tail, sep));
        assert(seq![q0] + rest =~= qs);
    }
}

proof fn lemma_join_visible(qs: Seq<Seq<char>>)
    requires
        forall|i: int| 0 <= i < qs.len() ==> visible_text(#[trigger] qs[i]),
    ensures
        visible_text(join_after(qs, "; "@)),
    decreases qs.len(),
{
    reveal_strlit("; ");
    if qs.len() > 0 {
        let rest = qs.drop_first();
        assert forall|i: int| 0 <= i < rest.len() implies visible_text(#[trigger] rest[i]) by {
            assert(rest[i] == qs[i + 1]);
        }
        lemma_join_visible(rest);
        assert(visible_text("; "@)) by {
            assert forall|i: int| 0 <= i < 2 implies is_visible_char(#[trigger] "; "@[i]) by {}
        }
        assert(visible_text(qs[0]));
        lemma_visible_concat("; "@, qs[0]);
        lemma_visible_concat("; "@ + qs[0], join_after(rest, "; "@));
    }
}

/// Visible text is a header value whose text is that text again.
proof fn lemma_visible_value(t: Seq<char>)
    requires
        visible_text(t),
    ensures
        value_from_text(t) == Some(encode_utf8(t)),
        value_text(encode_utf8(t)) == Some(t),
{
    assert(is_ascii_chars(t)) by {
        assert forall|i: int| 0 <= i < t.len() implies '\0' <= #[trigger] t[i] <= '\u{7f}' by {
            assert(is_visible_char(t[i]));
        }
    }
    is_ascii_chars_encode_utf8(t);
    let e = encode_utf8(t);
    assert forall|i: int| 0 <= i < e.len() implies is_value_byte(#[trigger] e[i])
        && is_visible_ascii(e[i]) by {
        assert(is_visible_char(t[i]));
        assert(t[i] as u8 == e[i]);
    }
    let m = e.map_values(|b: u8| b as char);
    assert(m =~= t) by {
        assert forall|i: int| 0 <= i < t.len() implies #[trigger] m[i] == t[i] by {
            assert(is_visible_char(t[i]));
            assert(t[i] as u8 == e[i]);
        }
    }
}

/// Rewriting a `Set-Cookie` value a second time changes nothing: what the
/// proxy passes back is already fit for the local origin.
pub proof fn lemma_set_cookie_idempotent(v: Seq<u8>)
    ensures
        rewritten_set_cookie(rewritten_set_cookie(v)) == rewritten_set_cookie(v),
{
    reveal_strlit("; ");
    if let Some(s) = value_text(v) {
        assert(visible_text(s)) by {
            assert forall|i: int| 0 <= i < s.len() implies is_visible_char(#[trigger] s[i]) by {
                assert(is_visible_ascii(v[i]));
                assert(s[i] == v[i] as char);
            }
        }
        let sep = "; "@;
        let parts = split(s, sep);
        lemma_split_nonempty(s, sep);
        lemma_split_pieces(s);
        let attrs = parts.drop_first();
        let d = has_secure(attrs);
        let qs = kept_attrs(attrs, d);
        let p0 = parts[0];
        assert(no_separator(p0) && visible_text(p0));
        assert forall|i: int| 0 <= i < attrs.len() implies no_separator(#[trigger] attrs[i])
            && visible_text(attrs[i]) by {
            assert(attrs[i] == parts[i + 1]);
        }
        lemma_kept_attrs(attrs, d);
        lemma_cookie_attrs_join(attrs, d);
        let t = p0 + join_after(qs, sep);
        assert(rewritten_cookie_text(s) == t);
        lemma_join_visible(qs);
        lemma_visible_concat(p0, join_after(qs, sep));
        lemma_visible_value(t);
        let e = encode_utf8(t);
        assert(rewritten_set_cookie(v) == e);
        lemma_split_of_join(p0, qs);
        let parts2 = split(t, sep);
        assert(parts2[0] == p0);
        assert(parts2.drop_first() =~= qs);
        lemma_staying_attrs(qs);
        assert(rewritten_cookie_text(t) == t);
    }
}

/// Once the proxy drops a cookie's `Secure`, the cookie it passes back has
/// no attribute that is `SameSite=None` or `Secure` (in any case),
/// wherever the two stood in what the server sent.
pub proof fn lemma_no_samesite_none_without_secure(v: Seq<u8>)
    requires
        value_text(v) matches Some(s) && has_secure(split(s, "; "@).drop_first()),
    ensures
        value_text(rewritten_set_cookie(v)) matches Some(t) && forall|i: int|
            1 <= i < split(t, "; "@).len() ==> lower(#[trigger] split(t, "; "@)[i])
                != "samesite=none"@ && lower(split(t, "; "@)[i]) != "secure"@,
{
    reveal_strlit("; ");
    let s = value_text(v)->0;
    assert(visible_text(s)) by {
        assert forall|i: int| 0 <= i < s.len() implies is_visible_char(#[trigger] s[i]) by {
            assert(is_visible_ascii(v[i]));
            assert(s[i] == v[i] as char);
        }
    }
    let sep = "; "@;
    let parts = split(s, sep);
    lemma_split_nonempty(s, sep);
    lemma_split_pieces(s);
    let attrs = parts.drop_first();
    let qs = kept_attrs(attrs, true);
    let p0 = parts[0];
    assert(no_separator(p0) && visible_text(p0));
    assert forall|i: int| 0 <= i < attrs.len() implies no_separator(#[trigger] attrs[i])
        && visible_text(attrs[i]) by {
        assert(attrs[i] == parts[i + 1]);
    }
    lemma_kept_attrs(attrs, true);
    lemma_cookie_attrs_join(attrs, true);
    let t = p0 + join_after(qs, sep);
    assert(rewritten_cookie_text(s) == t);
    lemma_join_visible(qs);
    lemma_visible_concat(p0, join_after(qs, sep));
    lemma_visible_value(t);
    lemma_split_of_join(p0, qs);
    let parts2 = split(t, sep);
    assert forall|i: int| 1 <= i < parts2.len() implies lower(#[trigger] parts2[i])
        != "samesite=none"@ && lower(parts2[i]) != "secure"@ by {
        assert(parts2[i] == qs[i - 1]);
        assert(stays(qs[i - 1]));
    }
}

/// Every response header whose lower-case name is not hop-by-hop is passed
/// back, in the order the server sent them, each as `response_header_out`
/// makes it; repeated headers (several `Set-Cookie`, `Vary` or `Link`)
/// each pass; no other header does.
pub proof fn lemma_response_headers_all_passed(hs: Seq<(Seq<char>, Seq<u8>)>, origin: Seq<char>)
    ensures
        rewritten_response_headers(hs, origin) == hs.filter(
            |h: (Seq<char>, Seq<u8>)| !is_hop_by_hop(lower(h.0)),
        ).map_values(|h: (Seq<char>, Seq<u8>)| response_header_out(h, origin)),
    decreases hs.len(),
{
    reveal(Seq::filter);
    if hs.len() > 0 {
        lemma_response_headers_all_passed(hs.drop_last(), origin);
        let f = hs.drop_last().filter(|h: (Seq<char>, Seq<u8>)| !is_hop_by_hop(lower(h.0)));
        let x = hs.last();
        if !is_hop_by_hop(lower(x.0)) {
            assert(f.push(x).map_values(|h: (Seq<char>, Seq<u8>)| response_header_out(h, origin))
                =~= f.map_values(|h: (Seq<char>, Seq<u8>)| response_header_out(h, origin)).push(
                response_header_out(x, origin),
            ));
        }
    }
}

/// One more header at the end of a response: a hop-by-hop one adds
/// nothing, any other adds itself, rewritten, after what came before,
/// whatever headers of the same name came before it.
pub proof fn lemma_response_headers_push(
    hs: Seq<(Seq<char>, Seq<u8>)>,
    h: (Seq<char>, Seq<u8>),
    origin: Seq<char>,
)
    ensures
        !is_hop_by_hop(lower(h.0)) ==> rewritten_response_headers(hs.push(h), origin)
            == rewritten_response_headers(hs, origin).push(response_header_out(h, origin)),
        is_hop_by_hop(lower(h.0)) ==> rewritten_response_headers(hs.push(h), origin)
            == rewritten_response_headers(hs, origin),
        rewritten_response_headers(hs.push(h), origin).len() == rewritten_response_headers(
            hs,
            origin,
        ).len() + if is_hop_by_hop(lower(h.0)) {
            0int
        } else {
            1int
        },
{
    assert(hs.push(h).drop_last() =~= hs);
    assert(hs.push(h).last() == h);
}

} // verus!
