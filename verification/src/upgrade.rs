//! The WebSocket path of the local proxy: the handshake request it writes
//! to the server, and how it reads the server's answer line by line.

use vstd::prelude::*;
use crate::headers::{
    hop_by_hop, is_hop_by_hop, lower_is, text_of_value, value_from_text, value_of_text,
    value_text, views, Header,
};
use crate::text::{
    chars_of, find, find_char, find_char_in, find_from_exec, lower, lower_range, owned,
    push_chars, text_of, trim, trim_end_line_break, lemma_find_from, is_ws, occurs_at, trim_start, trim_end, trim_end_line_break_bound, trim_range,
};

verus! {

broadcast use vstd::string::group_string_axioms;

/// The line that one request header adds to the handshake: `Host` and the
/// hop-by-hop headers other than `Connection` are left out (the
/// `Connection`/`Upgrade` pair must reach the server), as are values that
/// are not text.
pub open spec fn handshake_header_line(h: (Seq<char>, Seq<u8>)) -> Seq<char> {
    let l = lower(h.0);
    if l == "host"@ || (is_hop_by_hop(l) && l != "connection"@) {
        seq![]
    } else {
        match value_text(h.1) {
            Some(v) => h.0 + ": "@ + v + "\r\n"@,
            None => seq![],
        }
    }
}

/// The header lines of the handshake, in the order of `hs`.
pub open spec fn handshake_header_lines(hs: Seq<(Seq<char>, Seq<u8>)>) -> Seq<char>
    decreases hs.len(),
{
    if hs.len() == 0 {
        seq![]
    } else {
        handshake_header_lines(hs.drop_last()) + handshake_header_line(hs.last())
    }
}

/// The HTTP/1.1 handshake the proxy writes to the server: the request
/// line, the forwarded header lines, and `Host` set to the server's
/// authority.
pub open spec fn handshake_head(
    method: Seq<char>,
    target: Seq<char>,
    hs: Seq<(Seq<char>, Seq<u8>)>,
    authority: Seq<char>,
) -> Seq<char> {
    method + " "@ + target + " HTTP/1.1\r\n"@ + handshake_header_lines(hs) + "Host: "@ + authority
        + "\r\n\r\n"@
}

/// The WebSocket handshake request for the server.
pub fn upgrade_request_head(method: &str, target: &str, hs: &Vec<Header>, authority: &str) -> (r:
    String)
    ensures
        r@ == handshake_head(method@, target@, views(hs@), authority@),
{
    let mut out = owned(method);
    out.append(" ");
    out.append(target);
    out.append(" HTTP/1.1\r\n");
    let ghost start = out@;
    let mut i: usize = 0;
    while i < hs.len()
        invariant
            i <= hs.len(),
            out@ == start + handshake_header_lines(views(hs@.take(i as int))),
        decreases hs.len() - i,
    {
        let h = &hs[i];
        assert(views(hs@.take(i + 1)).drop_last() =~= views(hs@.take(i as int)));
        assert(views(hs@.take(i + 1)).last() == h@);
        let ghost before = out@;
        let skip = lower_is(&h.name, "host") || (hop_by_hop(&h.name) && !lower_is(
            &h.name,
            "connection",
        ));
        if !skip {
            match text_of_value(&h.value) {
                Some(v) => {
                    out.append(h.name.as_str());
                    out.append(": ");
                    out.append(v.as_str());
                    out.append("\r\n");
                },
                None => {},
            }
        }
        assert(out@ =~= before + handshake_header_line(h@));
        i = i + 1;
    }
    assert(hs@.take(hs.len() as int) =~= hs@);
    out.append("Host: ");
    out.append(authority);
    out.append("\r\n\r\n");
    out
}

/// The message when the server refuses the upgrade with status line
/// `line`.
pub open spec fn upgrade_refused_message(line: Seq<char>) -> Seq<char> {
    "proxy ws: upstream said "@ + trim(line)
}

/// The server's status line accepts the upgrade: it holds ` 101 `.
pub open spec fn switches_protocols(line: Seq<char>) -> bool {
    find(line, " 101 "@) is Some
}

/// Checks the server's answer to the handshake.
pub fn check_upgrade_status(line: &str) -> (r: Result<(), String>)
    ensures
        r is Ok <==> switches_protocols(line@),
        r matches Err(e) ==> e@ == upgrade_refused_message(line@),
{
    let v = chars_of(line);
    let p = chars_of(" 101 ");
    if find_from_exec(&v, &p, 0).is_some() {
        Ok(())
    } else {
        let (a, b) = trim_range(&v, 0, v.len());
        assert(v@.subrange(0, v.len() as int) =~= v@);
        let mut out = owned("proxy ws: upstream said ");
        push_chars(&mut out, &v, a, b);
        Err(out)
    }
}

/// A character that may stand in a header name (an HTTP token character).
pub open spec fn is_token_char(c: char) -> bool {
    ||| ('a' <= c && c <= 'z')
    ||| ('A' <= c && c <= 'Z')
    ||| ('0' <= c && c <= '9')
    ||| c == '!' || c == '#' || c == '$' || c == '%' || c == '&' || c == '\'' || c == '*'
    ||| c == '+' || c == '-' || c == '.' || c == '^' || c == '_' || c == '`' || c == '|'
    ||| c == '~'
}

/// `HeaderName::from_bytes` accepts the UTF-8 bytes of `n`: one to 65535
/// token characters.
pub open spec fn is_header_name(n: Seq<char>) -> bool {
    &&& 1 <= n.len() <= 65535
    &&& forall|i: int| 0 <= i < n.len() ==> is_token_char(#[trigger] n[i])
}

fn token_char(c: char) -> (b: bool)
    ensures
        b == is_token_char(c),
{
    ('a' <= c && c <= 'z') || ('A' <= c && c <= 'Z') || ('0' <= c && c <= '9') || c == '!' || c
        == '#' || c == '$' || c == '%' || c == '&' || c == '\'' || c == '*' || c == '+' || c == '-'
        || c == '.' || c == '^' || c == '_' || c == '`' || c == '|' || c == '~'
}

fn header_name_range(v: &Vec<char>, lo: usize, hi: usize) -> (b: bool)
    requires
        lo <= hi <= v.len(),
    ensures
        b == is_header_name(v@.subrange(lo as int, hi as int)),
{
    if hi == lo || hi - lo > 65535 {
        return false;
    }
    let mut i: usize = lo;
    while i < hi
        invariant
            lo <= i <= hi <= v.len(),
            forall|j: int| lo <= j < i ==> is_token_char(#[trigger] v@[j]),
        decreases hi - i,
    {
        if !token_char(v[i]) {
            assert(!is_token_char(v@.subrange(lo as int, hi as int)[i - lo]));
            return false;
        }
        i = i + 1;
    }
    assert forall|j: int| 0 <= j < hi - lo implies is_token_char(
        #[trigger] v@.subrange(lo as int, hi as int)[j],
    ) by {
        assert(v@.subrange(lo as int, hi as int)[j] == v@[lo + j]);
    }
    true
}

/// What one line of the server's handshake answer (after the status line)
/// means.
pub enum HeaderLine {
    /// The empty line that ends the header block.
    End,
    /// A line that is no usable header; it is passed over.
    Skip,
    /// A header, its name in lower case.
    Field(Header),
}

/// The view of a `HeaderLine`.
pub open spec fn header_line_view(l: HeaderLine) -> Option<Option<(Seq<char>, Seq<u8>)>> {
    match l {
        HeaderLine::End => None,
        HeaderLine::Skip => Some(None),
        HeaderLine::Field(h) => Some(Some(h@)),
    }
}

/// What a line of the answer means: line breaks at its end dropped, an
/// empty line ends the headers; otherwise it is `name: value` split at the
/// first `:`, both sides trimmed, and a header where the name is a header
/// name and the value can be a header value. `None` is the end, `Some(None)`
/// a line passed over.
pub open spec fn header_line_meaning(line: Seq<char>) -> Option<Option<(Seq<char>, Seq<u8>)>> {
    let t = trim_end_line_break(line);
    if t.len() == 0 {
        None
    } else {
        match find_char(t, ':') {
            None => Some(None),
            Some(k) => {
                let name = trim(t.take(k as int));
                let value = trim(t.skip(k + 1int));
                if is_header_name(name) && value_from_text(value) is Some {
                    Some(Some((lower(name), value_from_text(value)->0)))
                } else {
                    Some(None)
                }
            },
        }
    }
}

/// Reads one line of the server's handshake answer.
pub fn parse_response_header_line(line: &str) -> (r: HeaderLine)
    ensures
        header_line_view(r) == header_line_meaning(line@),
{
    let v = chars_of(line);
    let e = trim_end_line_break_bound(&v, 0, v.len());
    assert(v@.subrange(0, v.len() as int) =~= v@);
    let ghost t = v@.subrange(0, e as int);
    if e == 0 {
        return HeaderLine::End;
    }
    match find_char_in(&v, 0, e, ':') {
        None => HeaderLine::Skip,
        Some(k) => {
            assert(t.take(k as int) =~= v@.subrange(0, k as int));
            assert(t.skip(k + 1int) =~= v@.subrange(k + 1, e as int));
            let (na, nb) = trim_range(&v, 0, k);
            let (va, vb) = trim_range(&v, k + 1, e);
            if !header_name_range(&v, na, nb) {
                return HeaderLine::Skip;
            }
            let value = match value_of_text(&text_of(&v, va, vb)) {
                Some(b) => b,
                None => {
                    return HeaderLine::Skip;
                },
            };
            let lname = lower_range(&v, na, nb);
            let name = text_of(&lname, 0, lname.len());
            assert(lname@.subrange(0, lname.len() as int) =~= lname@);
            HeaderLine::Field(Header { name, value })
        },
    }
}

proof fn lemma_trim_line_break(x: Seq<char>, eol: Seq<char>)
    requires
        x.len() > 0,
        x.last() != '\r' && x.last() != '\n',
        forall|i: int| 0 <= i < eol.len() ==> #[trigger] eol[i] == '\r' || eol[i] == '\n',
    ensures
        trim_end_line_break(x + eol) == x,
    decreases eol.len(),
{
    if eol.len() == 0 {
        assert(x + eol =~= x);
    } else {
        assert((x + eol).drop_last() =~= x + eol.drop_last());
        assert((x + eol).last() == eol[eol.len() - 1]);
        lemma_trim_line_break(x, eol.drop_last());
    }
}

/// A handshake answer line `name:value`, with any line break after it,
/// where `name` is a header name, is split at its first `:` (the one right
/// after the name), whatever `:` the value holds: it is the header `name`
/// in lower case with the trimmed value, where that can be a header value,
/// and is passed over otherwise.
pub proof fn lemma_header_line_split_at_first_colon(
    name: Seq<char>,
    value: Seq<char>,
    eol: Seq<char>,
)
    requires
        is_header_name(name),
        value.len() == 0 || (value.last() != '\r' && value.last() != '\n'),
        forall|i: int| 0 <= i < eol.len() ==> #[trigger] eol[i] == '\r' || eol[i] == '\n',
    ensures
        header_line_meaning(name + ":"@ + value + eol) == if value_from_text(trim(value)) is Some {
            Some(Some((lower(name), value_from_text(trim(value))->0)))
        } else {
            Some(None::<(Seq<char>, Seq<u8>)>)
        },
{
    reveal_strlit(":");
    let t = name + ":"@ + value;
    assert(t.len() > 0);
    assert(t.last() != '\r' && t.last() != '\n') by {
        if value.len() == 0 {
            assert(t.last() == ':');
        } else {
            assert(t.last() == value.last());
        }
    }
    lemma_trim_line_break(t, eol);
    let n = name.len() as int;
    assert(t.subrange(n, n + 1) =~= seq![':']);
    lemma_find_from(t, seq![':'], 0);
    assert(occurs_at(t, seq![':'], n));
    assert(find_char(t, ':') is Some);
    assert(find_char(t, ':') == Some(n as nat)) by {
        let j = find_char(t, ':')->0;
        if j < n {
            assert(t.subrange(j as int, j + 1int)[0] == t[j as int]);
            assert(t[j as int] == name[j as int]);
            assert(is_token_char(name[j as int]));
        }
    }
    assert(t.take(n) =~= name);
    assert(t.skip(n + 1) =~= value);
    assert(!is_ws(name[0]) && is_token_char(name[0]));
    assert(!is_ws(name.last())) by {
        assert(is_token_char(name[name.len() - 1]));
    }
    assert(trim_start(name) == name);
    assert(trim_end(name) == name);
}

} // verus!
