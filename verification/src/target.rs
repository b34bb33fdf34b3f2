//! The upstream server that a local proxy forwards to, and the local port
//! it prefers for that server.

use sha2::Digest;
use vstd::prelude::*;
use vstd::string::StringSliceAdditionalSpecFns;
use crate::number::{parse_u16, parse_u16_range};
use crate::text::{
    chars_of, eq_range, find, find_char, find_char_in, find_from, find_from_exec, lemma_find_from,
    owned, rfind_char, rfind_char_in, text_of, trim_end_char, trim_end_char_bound,
};

verus! {

broadcast use vstd::string::group_string_axioms;

/// The first port of the range in which proxies prefer to listen.
pub const PROXY_PORT_BASE: u32 = 21500;

/// The number of ports in that range.
pub const PROXY_PORT_SPAN: u32 = 10000;

/// The SHA-256 digest of `data`.
pub uninterp spec fn sha256(data: Seq<u8>) -> Seq<u8>;

/// `sha2::Sha256::digest`: the SHA-256 digest of `data`, which is 32 bytes
/// long. Which bytes it holds is only named here, not stated.
#[verifier::external_body]
fn sha256_digest(data: &[u8]) -> (d: Vec<u8>)
    ensures
        d@ == sha256(data@),
        d@.len() == 32,
{
    sha2::Sha256::digest(data).to_vec()
}

/// The first four bytes of `d`, read as a big-endian number.
pub open spec fn be_u32(d: Seq<u8>) -> u32 {
    (d[0] as int * 0x1000000 + d[1] as int * 0x10000 + d[2] as int * 0x100 + d[3] as int) as u32
}

/// A hash of `s` that is the same in every run: the first four bytes of
/// the SHA-256 digest of its UTF-8 bytes, big-endian.
pub open spec fn stable_hash_of(s: &str) -> u32 {
    be_u32(sha256(s.spec_bytes()))
}

/// A hash of `s` that is the same in every run.
pub fn stable_hash(s: &str) -> (h: u32)
    ensures
        h == stable_hash_of(s),
{
    let d = sha256_digest(s.as_bytes());
    let h: u32 = (d[0] as u32) * 0x1000000 + (d[1] as u32) * 0x10000 + (d[2] as u32) * 0x100
        + (d[3] as u32);
    h
}

/// The port the proxy for `target_url` tries first, fixed for the URL so
/// that the browser sees the same origin (and keeps its login) across runs.
pub open spec fn preferred_port_of(target_url: &str) -> u32 {
    (PROXY_PORT_BASE + stable_hash_of(target_url) % PROXY_PORT_SPAN) as u32
}

/// The port the proxy for `target_url` tries first; always in
/// `21500..31500`.
pub fn preferred_port(target_url: &str) -> (p: u32)
    ensures
        p == preferred_port_of(target_url),
        PROXY_PORT_BASE <= p < PROXY_PORT_BASE + PROXY_PORT_SPAN,
{
    PROXY_PORT_BASE + stable_hash(target_url) % PROXY_PORT_SPAN
}

/// The host and port of an authority `host[:port]`, with `default_port`
/// where none is given. A bracketed IPv6 host (`[::1]:6767`) keeps its
/// brackets, and its port is read after the `]`; otherwise the text is
/// split at its last `:` where a non-empty host and a port are on either
/// side.
pub open spec fn authority_parts(a: Seq<char>, default_port: u16) -> (Seq<char>, u16) {
    if a.len() > 0 && a[0] == '[' && find_char(a.drop_first(), ']') is Some {
        let i = find_char(a.drop_first(), ']')->0;
        let after = a.skip(i + 2int);
        let port = if after.len() > 0 && after[0] == ':' && parse_u16(after.drop_first()) is Some {
            parse_u16(after.drop_first())->0
        } else {
            default_port
        };
        (a.take(i + 2int), port)
    } else {
        match rfind_char(a, ':') {
            Some(j) => if j > 0 && parse_u16(a.skip(j + 1int)) is Some {
                (a.take(j as int), parse_u16(a.skip(j + 1int))->0)
            } else {
                (a, default_port)
            },
            None => (a, default_port),
        }
    }
}

/// Splits an authority into host and port.
pub fn split_authority(authority: &str, default_port: u16) -> (r: (String, u16))
    ensures
        (r.0@, r.1) == authority_parts(authority@, default_port),
{
    let v = chars_of(authority);
    let n = v.len();
    if n > 0 && v[0] == '[' {
        assert(v@.drop_first() =~= v@.subrange(1, n as int));
        match find_char_in(&v, 1, n, ']') {
            Some(k) => {
                let ghost i = k - 1;
                assert(v@.take(i + 2) =~= v@.subrange(0, k + 1));
                let ghost after = v@.skip(i + 2);
                assert(after =~= v@.subrange(k + 1, n as int));
                let port: u16 = if k + 1 < n && v[k + 1] == ':' {
                    assert(after.drop_first() =~= v@.subrange(k + 2, n as int));
                    match parse_u16_range(&v, k + 2, n) {
                        Some(p) => p,
                        None => default_port,
                    }
                } else {
                    default_port
                };
                return (text_of(&v, 0, k + 1), port);
            },
            None => {},
        }
    }
    assert(v@.subrange(0, n as int) =~= v@);
    match rfind_char_in(&v, 0, n, ':') {
        Some(j) => {
            assert(v@.skip(j + 1int) =~= v@.subrange(j + 1, n as int));
            assert(v@.take(j as int) =~= v@.subrange(0, j as int));
            if j > 0 {
                match parse_u16_range(&v, j + 1, n) {
                    Some(p) => {
                        return (text_of(&v, 0, j), p);
                    },
                    None => {},
                }
            }
            (text_of(&v, 0, n), default_port)
        },
        None => (text_of(&v, 0, n), default_port),
    }
}

/// The upstream server of a proxy: its host and port, and the authority
/// (`host[:port]` as written in the URL) that goes into `Host` headers and
/// the TCP connection.
#[derive(Clone)]
pub struct Target {
    pub host: String,
    pub port: u16,
    pub authority: String,
}

impl View for Target {
    type V = (Seq<char>, u16, Seq<char>);

    open spec fn view(&self) -> (Seq<char>, u16, Seq<char>) {
        (self.host@, self.port, self.authority@)
    }
}

/// The message for a proxy target without `://`.
pub open spec fn msg_proxy_invalid_url() -> Seq<char> {
    "proxy: invalid url"@
}

/// The message for a proxy target with a scheme other than `http` and
/// `https`.
pub open spec fn msg_proxy_unsupported_scheme() -> Seq<char> {
    "proxy: unsupported scheme"@
}

/// What `Target::parse` makes of `url`: the scheme must be `http` or
/// `https`; the authority is the text after `://` up to the first `/`
/// (trailing `/` dropped first), with port 443 or 80 by scheme where none
/// is given.
pub open spec fn target_of(url: Seq<char>) -> Result<(Seq<char>, u16, Seq<char>), Seq<char>> {
    match find(url, "://"@) {
        None => Err(msg_proxy_invalid_url()),
        Some(i) => {
            let scheme = url.take(i as int);
            if scheme != "https"@ && scheme != "http"@ {
                Err(msg_proxy_unsupported_scheme())
            } else {
                let rest = trim_end_char(url.skip(i + ("://"@.len() as int)), '/');
                let authority = match find_char(rest, '/') {
                    Some(k) => rest.take(k as int),
                    None => rest,
                };
                let parts = authority_parts(
                    authority,
                    if scheme == "https"@ {
                        443u16
                    } else {
                        80u16
                    },
                );
                Ok((parts.0, parts.1, authority))
            }
        },
    }
}

impl Target {
    /// Reads the upstream server out of a URL such as
    /// `https://192.168.1.5:6767`.
    pub fn parse(url: &str) -> (r: Result<Target, String>)
        ensures
            match r {
                Ok(t) => target_of(url@) == Ok::<(Seq<char>, u16, Seq<char>), Seq<char>>(t@),
                Err(e) => target_of(url@) == Err::<(Seq<char>, u16, Seq<char>), Seq<char>>(e@),
            },
    {
        let v = chars_of(url);
        let sep = chars_of("://");
        let i = match find_from_exec(&v, &sep, 0) {
            Some(i) => i,
            None => {
                return Err(owned("proxy: invalid url"));
            },
        };
        proof {
            lemma_find_from(v@, sep@, 0);
        }
        assert(find_from(v@, sep@, 0) == Some(i as nat));
        let n: usize = sep.len();
        assert(i + n <= v.len());
        let https = chars_of("https");
        let http = chars_of("http");
        assert(v@.take(i as int) =~= v@.subrange(0, i as int));
        let is_https = eq_range(&v, 0, i, &https);
        let is_http = eq_range(&v, 0, i, &http);
        if !is_https && !is_http {
            return Err(owned("proxy: unsupported scheme"));
        }
        let rs: usize = i + n;
        let re = trim_end_char_bound(&v, rs, v.len(), '/');
        assert(v@.skip(i + ("://"@.len() as int)) =~= v@.subrange(rs as int, v.len() as int));
        let ghost rest = v@.subrange(rs as int, re as int);
        let ae: usize = match find_char_in(&v, rs, re, '/') {
            Some(k) => {
                assert(rest.take(k - rs) =~= v@.subrange(rs as int, k as int));
                k
            },
            None => re,
        };
        let authority = text_of(&v, rs, ae);
        let (host, port) = split_authority(
            authority.as_str(),
            if is_https {
                443
            } else {
                80
            },
        );
        Ok(Target { host, port, authority })
    }
}

} // verus!
