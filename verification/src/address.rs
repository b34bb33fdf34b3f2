//! Server addresses as the user types them, and the host and port a saved
//! server URL names.

use vstd::prelude::*;
use crate::number::{
    all_digits, decimal, is_digit, lemma_decimal, lemma_parse_decimal_u16, parse_u16, parse_u16_range,
    push_decimal,
};
use crate::text::{
    chars_of, find, find_char, find_from, is_ws, occurs_at, find_char_in, find_from_exec, has_char, has_char_in, has_prefix,
    lemma_find_from, owned, push_chars, rfind_char, rfind_char_in, starts_with_range, text_of,
    trim, trim_end_char, trim_end_char_bound, trim_range,
};

verus! {

broadcast use vstd::string::group_string_axioms;

/// The port a Mellow server listens on when the address names none.
pub const DEFAULT_PORT: u16 = 6767;

/// The message for an empty address.
pub open spec fn msg_empty_address() -> Seq<char> {
    "Enter a server address, e.g. 192.168.1.5:6767"@
}

/// The message for an address with a path or a space in it.
pub open spec fn msg_not_address() -> Seq<char> {
    "That does not look like a server address"@
}

/// The message for an address whose text after the last `:` is no port.
pub open spec fn msg_bad_port_in_address() -> Seq<char> {
    "Invalid port in address"@
}

/// The scheme an address asks for and the text after it: `http://` and
/// `https://` are taken off the front; anything else means `https`.
pub open spec fn scheme_split(t: Seq<char>) -> (Seq<char>, Seq<char>) {
    if has_prefix(t, "http://"@) {
        ("http"@, t.skip("http://"@.len() as int))
    } else if has_prefix(t, "https://"@) {
        ("https"@, t.skip("https://"@.len() as int))
    } else {
        ("https"@, t)
    }
}

/// What `normalize_url` makes of `input`: white space and trailing `/`
/// dropped, `https` assumed where no scheme is given, and the default
/// port added where none is given; or the reason the input is refused.
pub open spec fn normalized_url(input: Seq<char>) -> Result<Seq<char>, Seq<char>> {
    let t = trim_end_char(trim(input), '/');
    if t.len() == 0 {
        Err(msg_empty_address())
    } else {
        let scheme = scheme_split(t).0;
        let rest = trim_end_char(scheme_split(t).1, '/');
        if rest.len() == 0 || has_char(rest, '/') || has_char(rest, ' ') {
            Err(msg_not_address())
        } else {
            match rfind_char(rest, ':') {
                Some(j) => if j > 0 && parse_u16(rest.skip(j + 1int)) is Some {
                    Ok(scheme + "://"@ + rest)
                } else {
                    Err(msg_bad_port_in_address())
                },
                None => Ok(scheme + "://"@ + rest + ":"@ + decimal(DEFAULT_PORT as nat)),
            }
        }
    }
}

/// The view of a `Result<String, String>`.
pub open spec fn text_result(r: Result<String, String>) -> Result<Seq<char>, Seq<char>> {
    match r {
        Ok(s) => Ok(s@),
        Err(e) => Err(e@),
    }
}

/// Turns what the user typed into a server URL `scheme://host:port`.
pub fn normalize_url(input: &str) -> (r: Result<String, String>)
    ensures
        text_result(r) == normalized_url(input@),
{
    let v = chars_of(input);
    let (a, b) = trim_range(&v, 0, v.len());
    assert(v@.subrange(0, v.len() as int) =~= v@);
    let e = trim_end_char_bound(&v, a, b, '/');
    let ghost t = v@.subrange(a as int, e as int);
    assert(t == trim_end_char(trim(input@), '/'));
    if e == a {
        return Err(owned("Enter a server address, e.g. 192.168.1.5:6767"));
    }
    let http = chars_of("http://");
    let https = chars_of("https://");
    let is_http = starts_with_range(&v, a, e, &http);
    let is_https = !is_http && starts_with_range(&v, a, e, &https);
    let rs: usize = if is_http {
        a + http.len()
    } else if is_https {
        a + https.len()
    } else {
        a
    };
    assert(v@.subrange(rs as int, e as int) == scheme_split(t).1) by {
        if is_http {
            assert(t.skip(http@.len() as int) =~= v@.subrange(rs as int, e as int));
        } else if is_https {
            assert(t.skip(https@.len() as int) =~= v@.subrange(rs as int, e as int));
        }
    }
    let re = trim_end_char_bound(&v, rs, e, '/');
    let ghost rest = v@.subrange(rs as int, re as int);
    if re == rs || has_char_in(&v, rs, re, '/') || has_char_in(&v, rs, re, ' ') {
        return Err(owned("That does not look like a server address"));
    }
    let mut out = if is_http {
        owned("http")
    } else {
        owned("https")
    };
    assert(out@ == scheme_split(t).0);
    match rfind_char_in(&v, rs, re, ':') {
        Some(j) => {
            assert(rest.skip(j - rs + 1) =~= v@.subrange(j + 1, re as int));
            if j > rs && parse_u16_range(&v, j + 1, re).is_some() {
                out.append("://");
                push_chars(&mut out, &v, rs, re);
                Ok(out)
            } else {
                Err(owned("Invalid port in address"))
            }
        },
        None => {
            out.append("://");
            push_chars(&mut out, &v, rs, re);
            out.append(":");
            push_decimal(&mut out, DEFAULT_PORT as u64);
            Ok(out)
        },
    }
}

/// The message for a URL without `://`.
pub open spec fn msg_invalid_url() -> Seq<char> {
    "Invalid url"@
}

/// The message for a URL whose text after the last `:` is no port.
pub open spec fn msg_invalid_port() -> Seq<char> {
    "Invalid port"@
}

/// The host and port that a saved server URL names: the text between
/// `://` and the first `/`, split at its last `:`; without a `:`, port 443
/// for a URL that starts with `https` and 80 otherwise.
pub open spec fn url_host_port(url: Seq<char>) -> Result<(Seq<char>, u16), Seq<char>> {
    match find(url, "://"@) {
        None => Err(msg_invalid_url()),
        Some(i) => {
            let rest = url.skip(i + ("://"@.len() as int));
            let host = match find_char(rest, '/') {
                Some(k) => rest.take(k as int),
                None => rest,
            };
            match rfind_char(host, ':') {
                Some(j) => match parse_u16(host.skip(j + 1int)) {
                    Some(p) => Ok((host.take(j as int), p)),
                    None => Err(msg_invalid_port()),
                },
                None => Ok((host, if has_prefix(url, "https"@) { 443u16 } else { 80u16 })),
            }
        },
    }
}

/// The host and port that `url` names.
pub fn host_port_of(url: &str) -> (r: Result<(String, u16), String>)
    ensures
        match r {
            Ok((h, p)) => url_host_port(url@) == Ok::<(Seq<char>, u16), Seq<char>>((h@, p)),
            Err(e) => url_host_port(url@) == Err::<(Seq<char>, u16), Seq<char>>(e@),
        },
{
    let v = chars_of(url);
    let sep = chars_of("://");
    let i = match find_from_exec(&v, &sep, 0) {
        Some(i) => i,
        None => {
            return Err(owned("Invalid url"));
        },
    };
    proof {
        lemma_find_from(v@, sep@, 0);
    }
    assert(find_from(v@, sep@, 0) == Some(i as nat));
    assert(i + sep@.len() <= v@.len());
    let n: usize = sep.len();
    assert(i + n <= v.len());
    let rs: usize = i + n;
    let ghost rest = v@.skip(rs as int);
    assert(rest =~= v@.subrange(rs as int, v.len() as int));
    let he: usize = match find_char_in(&v, rs, v.len(), '/') {
        Some(k) => k,
        None => v.len(),
    };
    let ghost host = v@.subrange(rs as int, he as int);
    assert(host == (match find_char(rest, '/') {
        Some(k) => rest.take(k as int),
        None => rest,
    })) by {
        match find_char(rest, '/') {
            Some(k) => {
                assert(rest.take(k as int) =~= host);
            },
            None => {},
        }
    }
    match rfind_char_in(&v, rs, he, ':') {
        Some(j) => {
            assert(host.skip(j - rs + 1) =~= v@.subrange(j + 1, he as int));
            assert(host.take(j - rs) =~= v@.subrange(rs as int, j as int));
            match parse_u16_range(&v, j + 1, he) {
                Some(p) => Ok((text_of(&v, rs, j), p)),
                None => Err(owned("Invalid port")),
            }
        },
        None => {
            let https = chars_of("https");
            let port: u16 = if starts_with_range(&v, 0, v.len(), &https) {
                443
            } else {
                80
            };
            assert(v@.subrange(0, v.len() as int) =~= v@);
            Ok((text_of(&v, rs, he), port))
        },
    }
}


proof fn lemma_rfind_char(s: Seq<char>, c: char)
    ensures
        rfind_char(s, c) matches Some(j) ==> j < s.len() && s[j as int] == c,
    decreases s.len(),
{
    if s.len() > 0 && s.last() != c {
        lemma_rfind_char(s.drop_last(), c);
    }
}

proof fn lemma_trim_noop(s: Seq<char>)
    requires
        s.len() > 0,
        !is_ws(s[0]),
        !is_ws(s.last()),
    ensures
        trim(s) == s,
{
}

proof fn lemma_parse_u16_ends_in_digit(s: Seq<char>)
    requires
        parse_u16(s) is Some,
    ensures
        s.len() > 0,
        is_digit(s.last()),
{
    let d = if s.len() > 1 && s[0] == '+' {
        s.drop_first()
    } else {
        s
    };
    assert(is_digit(d[d.len() - 1]));
    assert(d.last() == s.last());
}

/// The last `c` in `a`, then `c`, then text without `c`, is the middle one.
proof fn lemma_rfind_char_after(a: Seq<char>, c: char, b: Seq<char>)
    requires
        !has_char(b, c),
    ensures
        rfind_char(a.push(c) + b, c) == Some(a.len()),
    decreases b.len(),
{
    if b.len() == 0 {
        assert(a.push(c) + b =~= a.push(c));
    } else {
        assert(!has_char(b.drop_last(), c)) by {
            if has_char(b.drop_last(), c) {
                let i = choose|i: int| 0 <= i < b.drop_last().len() && b.drop_last()[i] == c;
                assert(b[i] == c);
            }
        }
        lemma_rfind_char_after(a, c, b.drop_last());
        assert((a.push(c) + b).drop_last() =~= a.push(c) + b.drop_last());
        assert(b.last() != c) by {
            assert(b[b.len() - 1] == b.last());
        }
    }
}

proof fn lemma_has_char_concat(a: Seq<char>, b: Seq<char>, c: char)
    ensures
        has_char(a + b, c) <==> (has_char(a, c) || has_char(b, c)),
{
    if has_char(a + b, c) {
        let i = choose|i: int| 0 <= i < (a + b).len() && (a + b)[i] == c;
        if i < a.len() {
            assert(a[i] == c);
        } else {
            assert(b[i - a.len()] == c);
        }
    }
    if has_char(a, c) {
        let i = choose|i: int| 0 <= i < a.len() && a[i] == c;
        assert((a + b)[i] == c);
    }
    if has_char(b, c) {
        let i = choose|i: int| 0 <= i < b.len() && b[i] == c;
        assert((a + b)[a.len() + i] == c);
    }
}

proof fn lemma_digits_have_no(s: Seq<char>, c: char)
    requires
        all_digits(s),
        !is_digit(c),
    ensures
        !has_char(s, c),
{
    if has_char(s, c) {
        let i = choose|i: int| 0 <= i < s.len() && s[i] == c;
        assert(is_digit(s[i]));
    }
}

/// The text after the scheme of a normalized URL: what it is made of.
proof fn lemma_normalized_parts(input: Seq<char>)
    requires
        normalized_url(input) is Ok,
    ensures
        ({
            let t = trim_end_char(trim(input), '/');
            let scheme = scheme_split(t).0;
            let rest = trim_end_char(scheme_split(t).1, '/');
            let tail = match rfind_char(rest, ':') {
                Some(j) => rest,
                None => rest + ":"@ + decimal(DEFAULT_PORT as nat),
            };
            &&& scheme == "http"@ || scheme == "https"@
            &&& normalized_url(input) == Ok::<Seq<char>, Seq<char>>(scheme + "://"@ + tail)
            &&& tail.len() > 0
            &&& is_digit(tail.last())
            &&& !has_char(tail, '/')
            &&& !has_char(tail, ' ')
            &&& rest.len() > 0
            &&& match rfind_char(tail, ':') {
                Some(j) => j > 0 && parse_u16(tail.skip(j + 1int)) is Some,
                None => false,
            }
        }),
{
    reveal_strlit(":");
    let t = trim_end_char(trim(input), '/');
    let scheme = scheme_split(t).0;
    let rest = trim_end_char(scheme_split(t).1, '/');
    match rfind_char(rest, ':') {
        Some(j) => {
            lemma_rfind_char(rest, ':');
            lemma_parse_u16_ends_in_digit(rest.skip(j + 1int));
            assert(rest.skip(j + 1int).last() == rest.last());
        },
        None => {
            let d = decimal(DEFAULT_PORT as nat);
            lemma_decimal(DEFAULT_PORT as nat);
            lemma_parse_decimal_u16(DEFAULT_PORT);
            let tail = rest + ":"@ + d;
            assert(":"@ =~= seq![':']);
            assert(rest + ":"@ =~= rest.push(':'));
            assert(tail.last() == d.last());
            assert(is_digit(d[d.len() - 1]));
            lemma_digits_have_no(d, '/');
            lemma_digits_have_no(d, ' ');
            lemma_digits_have_no(d, ':');
            lemma_has_char_concat(rest, ":"@, '/');
            lemma_has_char_concat(rest, ":"@, ' ');
            lemma_has_char_concat(rest + ":"@, d, '/');
            lemma_has_char_concat(rest + ":"@, d, ' ');
            lemma_rfind_char_after(rest, ':', d);
            assert(tail =~= rest.push(':') + d);
            assert(tail.skip(rest.len() + 1int) =~= d);
            assert(scheme + "://"@ + rest + ":"@ + d =~= scheme + "://"@ + tail);
        },
    }
}

/// Normalizing a normalized URL gives it back: a server URL saved after
/// normalization is found again when it is normalized once more.
pub proof fn lemma_normalize_idempotent(input: Seq<char>)
    requires
        normalized_url(input) is Ok,
    ensures
        normalized_url(normalized_url(input)->Ok_0) == normalized_url(input),
{
    reveal_strlit("http://");
    reveal_strlit("https://");
    reveal_strlit("http");
    reveal_strlit("https");
    reveal_strlit("://");
    lemma_normalized_parts(input);
    let t = trim_end_char(trim(input), '/');
    let scheme = scheme_split(t).0;
    let rest = trim_end_char(scheme_split(t).1, '/');
    let tail = match rfind_char(rest, ':') {
        Some(j) => rest,
        None => rest + ":"@ + decimal(DEFAULT_PORT as nat),
    };
    let n = scheme + "://"@ + tail;
    assert(n.last() == tail.last());
    assert(n[0] == 'h');
    lemma_trim_noop(n);
    assert(trim_end_char(n, '/') == n);
    if scheme == "http"@ {
        assert(n.take(7) =~= "http://"@);
        assert(has_prefix(n, "http://"@));
        assert(n.skip("http://"@.len() as int) =~= tail);
    } else {
        assert(scheme == "https"@);
        assert(!has_prefix(n, "http://"@)) by {
            assert(n[4] == 's');
            assert("http://"@[4] == ':');
            if n.len() >= 7 {
                assert(n.take(7)[4] == n[4]);
            }
        }
        assert(n.take(8) =~= "https://"@);
        assert(has_prefix(n, "https://"@));
        assert(n.skip("https://"@.len() as int) =~= tail);
    }
    assert(scheme_split(n).0 == scheme);
    assert(scheme_split(n).1 == tail);
    assert(trim_end_char(tail, '/') == tail);
}

/// A normalized server URL always names a host and a port: it reads
/// `http://` or `https://`, then a non-empty host without `/`, then `:`
/// and the port's digits; and where the address typed (trimmed, its
/// scheme taken off) holds no `:`, the port is the default one.
pub proof fn lemma_normalized_has_host_port(input: Seq<char>)
    requires
        normalized_url(input) is Ok,
    ensures
        ({
            let u = normalized_url(input)->Ok_0;
            let r = url_host_port(u);
            let rest = trim_end_char(scheme_split(trim_end_char(trim(input), '/')).1, '/');
            &&& r is Ok
            &&& r->Ok_0.0.len() > 0
            &&& !has_char(r->Ok_0.0, '/')
            &&& exists|sch: Seq<char>, ps: Seq<char>|
                #![trigger sch + "://"@ + r->Ok_0.0 + ":"@ + ps]
                (sch == "http"@ || sch == "https"@) && u == sch + "://"@ + r->Ok_0.0 + ":"@ + ps
                    && parse_u16(ps) == Some(r->Ok_0.1)
            &&& !has_char(rest, ':') ==> r->Ok_0.1 == DEFAULT_PORT
        }),
{
    reveal_strlit("http");
    reveal_strlit("https");
    reveal_strlit("://");
    reveal_strlit(":");
    lemma_normalized_parts(input);
    let t = trim_end_char(trim(input), '/');
    let scheme = scheme_split(t).0;
    let rest = trim_end_char(scheme_split(t).1, '/');
    let tail = match rfind_char(rest, ':') {
        Some(j) => rest,
        None => rest + ":"@ + decimal(DEFAULT_PORT as nat),
    };
    let n = scheme + "://"@ + tail;
    let sep = "://"@;
    let k = scheme.len();
    assert(n.subrange(k as int, k + 3int) =~= sep);
    lemma_find_from(n, sep, 0);
    assert(occurs_at(n, sep, k as int));
    let f = find(n, sep);
    assert(f is Some);
    let i = f->0;
    assert(i <= k);
    assert(i == k) by {
        if i < k {
            assert(n.subrange(i as int, i + 3int)[0] == sep[0]);
            assert(n[i as int] == scheme[i as int]);
        }
    }
    assert(n.skip(i + 3int) =~= tail);
    lemma_find_from(tail, seq!['/'], 0);
    assert(find_char(tail, '/') is None) by {
        if find_char(tail, '/') is Some {
            let j = find_char(tail, '/')->0;
            assert(tail.subrange(j as int, j + 1int)[0] == '/');
            assert(tail[j as int] == '/');
        }
    }
    let j = rfind_char(tail, ':')->0;
    lemma_rfind_char(tail, ':');
    let h = tail.take(j as int);
    let ps = tail.skip(j + 1int);
    let p = parse_u16(ps)->0;
    assert(url_host_port(n) == Ok::<(Seq<char>, u16), Seq<char>>((h, p)));
    assert(!has_char(h, '/')) by {
        if has_char(h, '/') {
            let x = choose|x: int| 0 <= x < h.len() && h[x] == '/';
            assert(tail[x] == '/');
        }
    }
    assert(tail =~= h + ":"@ + ps);
    assert(n =~= scheme + "://"@ + h + ":"@ + ps);
    if !has_char(rest, ':') {
        lemma_rfind_char(rest, ':');
        assert(rfind_char(rest, ':') is None) by {
            if rfind_char(rest, ':') is Some {
                let x = rfind_char(rest, ':')->0;
                assert(rest[x as int] == ':');
            }
        }
        let d = decimal(DEFAULT_PORT as nat);
        lemma_decimal(DEFAULT_PORT as nat);
        lemma_parse_decimal_u16(DEFAULT_PORT);
        lemma_digits_have_no(d, ':');
        lemma_rfind_char_after(rest, ':', d);
        assert(rest + ":"@ =~= rest.push(':'));
        assert(tail =~= rest.push(':') + d);
        assert(j == rest.len());
        assert(ps =~= d);
    }
    assert((scheme == "http"@ || scheme == "https"@) && n == scheme + "://"@ + h + ":"@ + ps
        && parse_u16(ps) == Some(p));
}

} // verus!
