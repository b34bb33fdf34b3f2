//! Character-sequence helpers shared by the rest of the crate, each with a
//! specification over `Seq<char>`.

use vstd::prelude::*;

verus! {

broadcast use vstd::string::group_string_axioms;

/// Unicode `White_Space`, the set that `char::is_whitespace` (and so
/// `str::trim`) uses.
pub open spec fn is_ws(c: char) -> bool {
    ||| ('\u{9}' <= c && c <= '\u{d}')
    ||| c == ' '
    ||| c == '\u{85}'
    ||| c == '\u{a0}'
    ||| c == '\u{1680}'
    ||| ('\u{2000}' <= c && c <= '\u{200a}')
    ||| c == '\u{2028}'
    ||| c == '\u{2029}'
    ||| c == '\u{202f}'
    ||| c == '\u{205f}'
    ||| c == '\u{3000}'
}

/// `s` without its leading white space.
pub open spec fn trim_start(s: Seq<char>) -> Seq<char>
    decreases s.len(),
{
    if s.len() > 0 && is_ws(s[0]) {
        trim_start(s.drop_first())
    } else {
        s
    }
}

/// `s` without its trailing white space.
pub open spec fn trim_end(s: Seq<char>) -> Seq<char>
    decreases s.len(),
{
    if s.len() > 0 && is_ws(s.last()) {
        trim_end(s.drop_last())
    } else {
        s
    }
}

/// `str::trim`: white space removed from both ends.
pub open spec fn trim(s: Seq<char>) -> Seq<char> {
    trim_end(trim_start(s))
}

/// `str::trim_end_matches(c)` for a single character `c`.
pub open spec fn trim_end_char(s: Seq<char>, c: char) -> Seq<char>
    decreases s.len(),
{
    if s.len() > 0 && s.last() == c {
        trim_end_char(s.drop_last(), c)
    } else {
        s
    }
}

/// `str::trim_end_matches(['\r', '\n'])`.
pub open spec fn trim_end_line_break(s: Seq<char>) -> Seq<char>
    decreases s.len(),
{
    if s.len() > 0 && (s.last() == '\r' || s.last() == '\n') {
        trim_end_line_break(s.drop_last())
    } else {
        s
    }
}

/// `p` occurs in `s` starting at index `i`.
pub open spec fn occurs_at(s: Seq<char>, p: Seq<char>, i: int) -> bool {
    0 <= i && i + p.len() <= s.len() && s.subrange(i, i + p.len()) == p
}

/// The first index at or after `i` where `p` occurs in `s`.
pub open spec fn find_from(s: Seq<char>, p: Seq<char>, i: nat) -> Option<nat>
    decreases s.len() + 1 - i,
{
    if i + p.len() > s.len() {
        None
    } else if s.subrange(i as int, (i + p.len()) as int) == p {
        Some(i)
    } else {
        find_from(s, p, i + 1)
    }
}

/// What `find_from` returns: an occurrence at or after `i`, with none between.
pub proof fn lemma_find_from(s: Seq<char>, p: Seq<char>, i: nat)
    ensures
        match find_from(s, p, i) {
            Some(j) => i <= j && j + p.len() <= s.len() && s.subrange(j as int, (j + p.len()) as int) == p
                && forall|k: int| i <= k < j ==> !occurs_at(s, p, k),
            None => forall|k: int| i <= k ==> !occurs_at(s, p, k),
        },
    decreases s.len() + 1 - i,
{
    if i + p.len() > s.len() {
    } else if s.subrange(i as int, (i + p.len()) as int) == p {
    } else {
        lemma_find_from(s, p, i + 1);
    }
}

/// `str::find`: the first index where `p` occurs in `s`.
pub open spec fn find(s: Seq<char>, p: Seq<char>) -> Option<nat> {
    find_from(s, p, 0)
}

/// The first index of the character `c` in `s`.
pub open spec fn find_char(s: Seq<char>, c: char) -> Option<nat> {
    find(s, seq![c])
}

/// The last index of the character `c` in `s` (what `rsplit_once` splits at).
pub open spec fn rfind_char(s: Seq<char>, c: char) -> Option<nat>
    decreases s.len(),
{
    if s.len() == 0 {
        None
    } else if s.last() == c {
        Some((s.len() - 1) as nat)
    } else {
        rfind_char(s.drop_last(), c)
    }
}

/// `s` holds the character `c`.
pub open spec fn has_char(s: Seq<char>, c: char) -> bool {
    exists|i: int| 0 <= i < s.len() && s[i] == c
}

/// `str::starts_with`.
pub open spec fn has_prefix(s: Seq<char>, p: Seq<char>) -> bool {
    p.len() <= s.len() && s.take(p.len() as int) == p
}

/// `char::to_ascii_lowercase`.
pub open spec fn lower_char(c: char) -> char {
    if 'A' <= c && c <= 'Z' {
        ((c as u32) + 32) as char
    } else {
        c
    }
}

/// `str::to_ascii_lowercase`.
pub open spec fn lower(s: Seq<char>) -> Seq<char> {
    s.map_values(|c: char| lower_char(c))
}

/// `str::split(sep)` for a non-empty separator: the pieces between the
/// non-overlapping occurrences of `sep`, left to right.
pub open spec fn split(s: Seq<char>, sep: Seq<char>) -> Seq<Seq<char>>
    decreases s.len(),
{
    if sep.len() == 0 {
        seq![s]
    } else {
        proof {
            lemma_find_from(s, sep, 0);
        }
        match find(s, sep) {
            Some(i) => seq![s.take(i as int)] + split(s.skip((i + sep.len()) as int), sep),
            None => seq![s],
        }
    }
}

/// `String::push`, which appends one character.
#[verifier::external_body]
pub(crate) fn push_char(s: &mut String, c: char)
    ensures
        final(s)@ == old(s)@.push(c),
{
    s.push(c)
}

/// The characters of `s`, in order.
pub fn chars_of(s: &str) -> (v: Vec<char>)
    ensures
        v@ == s@,
{
    let mut v: Vec<char> = Vec::new();
    for c in it: s.chars()
        invariant
            it.seq() == s@,
            v@ == s@.take(it.index() as int),
    {
        v.push(c);
    }
    assert(v@ =~= s@);
    v
}

/// Appends the characters `v[lo..hi]` to `out`.
pub fn push_chars(out: &mut String, v: &Vec<char>, lo: usize, hi: usize)
    requires
        lo <= hi <= v.len(),
    ensures
        final(out)@ == old(out)@ + v@.subrange(lo as int, hi as int),
{
    let mut i: usize = lo;
    while i < hi
        invariant
            lo <= i <= hi <= v.len(),
            out@ == old(out)@ + v@.subrange(lo as int, i as int),
        decreases hi - i,
    {
        push_char(out, v[i]);
        assert(v@.subrange(lo as int, i + 1) =~= v@.subrange(lo as int, i as int).push(v@[i as int]));
        i = i + 1;
    }
}

/// The string made of `v[lo..hi]`.
pub fn text_of(v: &Vec<char>, lo: usize, hi: usize) -> (s: String)
    requires
        lo <= hi <= v.len(),
    ensures
        s@ == v@.subrange(lo as int, hi as int),
{
    let mut s = String::new();
    push_chars(&mut s, v, lo, hi);
    s
}

/// A copy of `v[lo..hi]`.
pub fn copy_range(v: &Vec<char>, lo: usize, hi: usize) -> (r: Vec<char>)
    requires
        lo <= hi <= v.len(),
    ensures
        r@ == v@.subrange(lo as int, hi as int),
{
    let mut r: Vec<char> = Vec::new();
    let mut i: usize = lo;
    while i < hi
        invariant
            lo <= i <= hi <= v.len(),
            r@ == v@.subrange(lo as int, i as int),
        decreases hi - i,
    {
        r.push(v[i]);
        assert(v@.subrange(lo as int, i + 1) =~= v@.subrange(lo as int, i as int).push(v@[i as int]));
        i = i + 1;
    }
    r
}

/// `char::is_whitespace`.
pub fn is_ws_exec(c: char) -> (b: bool)
    ensures
        b == is_ws(c),
{
    ('\u{9}' <= c && c <= '\u{d}') || c == ' ' || c == '\u{85}' || c == '\u{a0}' || c
        == '\u{1680}' || ('\u{2000}' <= c && c <= '\u{200a}') || c == '\u{2028}' || c
        == '\u{2029}' || c == '\u{202f}' || c == '\u{205f}' || c == '\u{3000}'
}

/// The end of `trim_end_char(v[..hi], c)` inside `v`.
pub fn trim_end_char_bound(v: &Vec<char>, lo: usize, hi: usize, c: char) -> (r: usize)
    requires
        lo <= hi <= v.len(),
    ensures
        lo <= r <= hi,
        v@.subrange(lo as int, r as int) == trim_end_char(v@.subrange(lo as int, hi as int), c),
{
    let mut e: usize = hi;
    while e > lo && v[e - 1] == c
        invariant
            lo <= e <= hi <= v.len(),
            trim_end_char(v@.subrange(lo as int, hi as int), c) == trim_end_char(
                v@.subrange(lo as int, e as int),
                c,
            ),
        decreases e,
    {
        assert(v@.subrange(lo as int, e as int).drop_last() =~= v@.subrange(lo as int, e - 1));
        e = e - 1;
    }
    e
}

/// Whether `p` occurs in `s` at index `i`.
pub fn matches_at(s: &Vec<char>, p: &Vec<char>, i: usize) -> (b: bool)
    requires
        i <= s.len(),
    ensures
        b == (i + p.len() <= s.len() && s@.subrange(i as int, i + p.len()) == p@),
{
    if p.len() > s.len() - i {
        return false;
    }
    let mut k: usize = 0;
    while k < p.len()
        invariant
            i + p.len() <= s.len(),
            k <= p.len(),
            forall|j: int| 0 <= j < k ==> s@[i + j] == p@[j],
        decreases p.len() - k,
    {
        if s[i + k] != p[k] {
            assert(s@.subrange(i as int, i + p.len())[k as int] != p@[k as int]);
            return false;
        }
        k = k + 1;
    }
    assert(s@.subrange(i as int, i + p.len()) =~= p@);
    true
}

/// `find_from(s, p, start)`.
pub fn find_from_exec(s: &Vec<char>, p: &Vec<char>, start: usize) -> (r: Option<usize>)
    requires
        start <= s.len(),
    ensures
        match r {
            Some(i) => find_from(s@, p@, start as nat) == Some(i as nat),
            None => find_from(s@, p@, start as nat) is None,
        },
{
    let mut i: usize = start;
    while i <= s.len()
        invariant
            start <= i,
            find_from(s@, p@, start as nat) == find_from(s@, p@, i as nat),
        decreases s.len() + 1 - i,
    {
        if p.len() > s.len() - i {
            return None;
        }
        assert(p@.len() == 0 ==> s@.subrange(i as int, i as int) =~= p@);
        if matches_at(s, p, i) {
            return Some(i);
        }
        i = i + 1;
    }
    None
}

/// `find_char(s, c)` restricted to `s[lo..hi]`, as an index into `s`.
pub fn find_char_in(s: &Vec<char>, lo: usize, hi: usize, c: char) -> (r: Option<usize>)
    requires
        lo <= hi <= s.len(),
    ensures
        match r {
            Some(i) => lo <= i < hi && find_char(s@.subrange(lo as int, hi as int), c) == Some(
                (i - lo) as nat,
            ),
            None => find_char(s@.subrange(lo as int, hi as int), c) is None,
        },
{
    let ghost t = s@.subrange(lo as int, hi as int);
    let mut i: usize = lo;
    while i < hi
        invariant
            lo <= i <= hi <= s.len(),
            t == s@.subrange(lo as int, hi as int),
            find_char(t, c) == find_from(t, seq![c], (i - lo) as nat),
        decreases hi - i,
    {
        assert(t.subrange(i - lo, i - lo + 1) =~= seq![s@[i as int]]);
        assert(s@[i as int] != c ==> seq![s@[i as int]] != seq![c]) by {
            if s@[i as int] != c {
                assert(seq![s@[i as int]][0] != seq![c][0]);
            }
        }
        if s[i] == c {
            return Some(i);
        }
        i = i + 1;
    }
    None
}

/// `rfind_char(s[lo..hi], c)`, as an index into `s`.
pub fn rfind_char_in(s: &Vec<char>, lo: usize, hi: usize, c: char) -> (r: Option<usize>)
    requires
        lo <= hi <= s.len(),
    ensures
        match r {
            Some(i) => lo <= i < hi && rfind_char(s@.subrange(lo as int, hi as int), c) == Some(
                (i - lo) as nat,
            ),
            None => rfind_char(s@.subrange(lo as int, hi as int), c) is None,
        },
{
    let mut e: usize = hi;
    while e > lo
        invariant
            lo <= e <= hi <= s.len(),
            rfind_char(s@.subrange(lo as int, hi as int), c) == rfind_char(
                s@.subrange(lo as int, e as int),
                c,
            ),
        decreases e,
    {
        if s[e - 1] == c {
            return Some(e - 1);
        }
        assert(s@.subrange(lo as int, e as int).drop_last() =~= s@.subrange(lo as int, e - 1));
        e = e - 1;
    }
    None
}

/// Whether `s[lo..hi]` holds `c`.
pub fn has_char_in(s: &Vec<char>, lo: usize, hi: usize, c: char) -> (b: bool)
    requires
        lo <= hi <= s.len(),
    ensures
        b == has_char(s@.subrange(lo as int, hi as int), c),
{
    let mut i: usize = lo;
    while i < hi
        invariant
            lo <= i <= hi <= s.len(),
            forall|j: int| lo <= j < i ==> s@[j] != c,
        decreases hi - i,
    {
        if s[i] == c {
            assert(s@.subrange(lo as int, hi as int)[i - lo] == c);
            return true;
        }
        i = i + 1;
    }
    assert(!has_char(s@.subrange(lo as int, hi as int), c)) by {
        assert forall|j: int| 0 <= j < hi - lo implies s@.subrange(lo as int, hi as int)[j] != c by {
            assert(s@.subrange(lo as int, hi as int)[j] == s@[lo + j]);
        }
    }
    false
}

/// Whether `s[lo..hi]` equals `p`.
pub fn eq_range(s: &Vec<char>, lo: usize, hi: usize, p: &Vec<char>) -> (b: bool)
    requires
        lo <= hi <= s.len(),
    ensures
        b == (s@.subrange(lo as int, hi as int) == p@),
{
    if hi - lo != p.len() {
        return false;
    }
    matches_at(s, p, lo)
}

/// `char::to_ascii_lowercase`.
pub fn lower_char_exec(c: char) -> (r: char)
    ensures
        r == lower_char(c),
{
    if 'A' <= c && c <= 'Z' {
        let b: u8 = c as u8;
        let l: u8 = b + 32;
        assert(l as char == ((c as u32) + 32) as char);
        l as char
    } else {
        c
    }
}

/// `lower(s[lo..hi])`.
pub fn lower_range(s: &Vec<char>, lo: usize, hi: usize) -> (r: Vec<char>)
    requires
        lo <= hi <= s.len(),
    ensures
        r@ == lower(s@.subrange(lo as int, hi as int)),
{
    let mut r: Vec<char> = Vec::new();
    let mut i: usize = lo;
    while i < hi
        invariant
            lo <= i <= hi <= s.len(),
            r@ == lower(s@.subrange(lo as int, i as int)),
        decreases hi - i,
    {
        r.push(lower_char_exec(s[i]));
        assert(lower(s@.subrange(lo as int, i + 1)) =~= lower(s@.subrange(lo as int, i as int)).push(
            lower_char(s@[i as int]),
        ));
        i = i + 1;
    }
    r
}


/// Whether `s[lo..hi]` starts with `p`.
pub fn starts_with_range(s: &Vec<char>, lo: usize, hi: usize, p: &Vec<char>) -> (b: bool)
    requires
        lo <= hi <= s.len(),
    ensures
        b == has_prefix(s@.subrange(lo as int, hi as int), p@),
{
    if p.len() > hi - lo {
        return false;
    }
    let b = matches_at(s, p, lo);
    assert(s@.subrange(lo as int, hi as int).take(p.len() as int) =~= s@.subrange(
        lo as int,
        lo + p.len(),
    ));
    b
}

/// An owned copy of `s`.
pub fn owned(s: &str) -> (r: String)
    ensures
        r@ == s@,
{
    s.to_owned()
}


/// Searching a suffix of `s` is searching `s` itself, shifted.
pub proof fn lemma_find_from_skip(s: Seq<char>, p: Seq<char>, k: nat, j: nat)
    requires
        k <= s.len(),
    ensures
        find_from(s.skip(k as int), p, j) == (match find_from(s, p, k + j) {
            Some(x) => Some((x - k) as nat),
            None => None::<nat>,
        }),
    decreases s.len() + 1 - (k + j),
{
    if k + j + p.len() > s.len() {
    } else {
        let a: int = (k + j) as int;
        let b: int = a + p.len();
        assert(s.skip(k as int).subrange(j as int, j + p.len() as int) =~= s.subrange(a, b));
        if s.subrange(a, b) == p {
        } else {
            lemma_find_from_skip(s, p, k, j + 1);
        }
    }
}

/// The views of a list of character vectors.
pub open spec fn pieces_view(ps: Seq<Vec<char>>) -> Seq<Seq<char>> {
    ps.map_values(|v: Vec<char>| v@)
}

/// `split(s, sep)`, each piece as a vector.
pub fn split_exec(s: &Vec<char>, sep: &Vec<char>) -> (r: Vec<Vec<char>>)
    requires
        sep.len() > 0,
    ensures
        pieces_view(r@) == split(s@, sep@),
{
    let mut r: Vec<Vec<char>> = Vec::new();
    let mut start: usize = 0;
    assert(s@.skip(0) =~= s@);
    loop
        invariant
            start <= s.len(),
            sep.len() > 0,
            split(s@, sep@) == pieces_view(r@) + split(s@.skip(start as int), sep@),
        decreases s.len() - start,
    {
        let ghost rest = s@.skip(start as int);
        proof {
            lemma_find_from_skip(s@, sep@, start as nat, 0);
            lemma_find_from(s@, sep@, start as nat);
        }
        match find_from_exec(s, sep, start) {
            Some(i) => {
                let piece = copy_range(s, start, i);
                let ghost prev = pieces_view(r@);
                r.push(piece);
                assert(pieces_view(r@) =~= prev.push(piece@));
                assert(rest.take(i - start) =~= piece@);
                assert(rest.skip(i - start + sep.len()) =~= s@.skip(i + sep.len()));
                assert(split(rest, sep@) == seq![piece@] + split(s@.skip(i + sep.len()), sep@));
                assert(pieces_view(r@) + split(s@.skip(i + sep.len()), sep@) =~= prev + (seq![
                    piece@,
                ] + split(s@.skip(i + sep.len()), sep@)));
                start = i + sep.len();
            },
            None => {
                let piece = copy_range(s, start, s.len());
                let ghost prev = pieces_view(r@);
                r.push(piece);
                assert(pieces_view(r@) =~= prev.push(piece@));
                assert(rest =~= piece@);
                assert(split(rest, sep@) == seq![piece@]);
                assert(pieces_view(r@) =~= prev + seq![piece@]);
                return r;
            },
        }
    }
}

/// A split always has a first piece.
pub proof fn lemma_split_nonempty(s: Seq<char>, sep: Seq<char>)
    ensures
        split(s, sep).len() >= 1,
{
    if sep.len() > 0 {
        match find(s, sep) {
            Some(i) => {},
            None => {},
        }
    }
}


/// The bounds `(a, b)` of `trim(v[lo..hi])` inside `v`.
pub fn trim_range(v: &Vec<char>, lo: usize, hi: usize) -> (r: (usize, usize))
    requires
        lo <= hi <= v.len(),
    ensures
        lo <= r.0 <= r.1 <= hi,
        v@.subrange(r.0 as int, r.1 as int) == trim(v@.subrange(lo as int, hi as int)),
{
    let ghost t = v@.subrange(lo as int, hi as int);
    let mut a: usize = lo;
    assert(t.skip(0) =~= t);
    while a < hi && is_ws_exec(v[a])
        invariant
            lo <= a <= hi <= v.len(),
            t == v@.subrange(lo as int, hi as int),
            trim_start(t) == trim_start(v@.subrange(a as int, hi as int)),
        decreases hi - a,
    {
        assert(v@.subrange(a as int, hi as int).drop_first() =~= v@.subrange(a + 1, hi as int));
        a = a + 1;
    }
    assert(trim_start(v@.subrange(a as int, hi as int)) == v@.subrange(a as int, hi as int));
    let mut b: usize = hi;
    while b > a && is_ws_exec(v[b - 1])
        invariant
            lo <= a <= b <= hi <= v.len(),
            t == v@.subrange(lo as int, hi as int),
            trim_start(t) == v@.subrange(a as int, hi as int),
            trim_end(v@.subrange(a as int, hi as int)) == trim_end(v@.subrange(a as int, b as int)),
        decreases b,
    {
        assert(v@.subrange(a as int, b as int).drop_last() =~= v@.subrange(a as int, b - 1));
        b = b - 1;
    }
    (a, b)
}

/// The end of `trim_end_line_break(v[lo..hi])` inside `v`.
pub fn trim_end_line_break_bound(v: &Vec<char>, lo: usize, hi: usize) -> (r: usize)
    requires
        lo <= hi <= v.len(),
    ensures
        lo <= r <= hi,
        v@.subrange(lo as int, r as int) == trim_end_line_break(v@.subrange(lo as int, hi as int)),
{
    let mut e: usize = hi;
    while e > lo && (v[e - 1] == '\r' || v[e - 1] == '\n')
        invariant
            lo <= e <= hi <= v.len(),
            trim_end_line_break(v@.subrange(lo as int, hi as int)) == trim_end_line_break(
                v@.subrange(lo as int, e as int),
            ),
        decreases e,
    {
        assert(v@.subrange(lo as int, e as int).drop_last() =~= v@.subrange(lo as int, e - 1));
        e = e - 1;
    }
    e
}

} // verus!
