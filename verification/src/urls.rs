//! Extracting URLs from free chat text, and splitting query strings into
//! percent-decoded key/value pairs.

use crate::words::is_space;
use vstd::prelude::*;
use vstd::string::StringSliceAdditionalSpecFns;

verus! {

/// Whether `c` may appear inside a URL, as the extractor counts them:
/// letters, digits, the URL-safe punctuation and the control characters.
pub open spec fn is_url_char(c: char) -> bool {
    (97 <= c as int <= 122) || (65 <= c as int <= 90) || (48 <= c as int <= 57) || c == '$' || c
        == '-' || c == '_' || c == '.' || c == '+' || c == '!' || c == '*' || c == '\'' || c == '('
        || c == ')' || c == ';' || c == '/' || c == '?' || c == ':' || c == '@' || c == '=' || c
        == '&'
}

/// Whether `c` may appear inside a URL.
pub fn is_url_character(c: char) -> (r: bool)
    ensures
        r == is_url_char(c),
{
    let v: u32 = c as u32;
    (97 <= v && v <= 122) || (65 <= v && v <= 90) || (48 <= v && v <= 57) || c == '$' || c == '-'
        || c == '_' || c == '.' || c == '+' || c == '!' || c == '*' || c == '\'' || c == '(' || c
        == ')' || c == ';' || c == '/' || c == '?' || c == ':' || c == '@' || c == '=' || c == '&'
}

/// The length of `s` once trailing whitespace is dropped.
pub open spec fn rtrim_idx(s: Seq<char>) -> int
    decreases s.len(),
{
    if s.len() == 0 {
        0
    } else if is_space(s.last()) {
        rtrim_idx(s.drop_last())
    } else {
        s.len() as int
    }
}

/// The first position at or after `i` holding non-whitespace, or the length
/// of `s` when there is none.
pub open spec fn find_nonspace(s: Seq<char>, i: int) -> int
    decreases s.len() - i
        when 0 <= i <= s.len()
{
    if i >= s.len() {
        s.len() as int
    } else if !is_space(s[i]) {
        i
    } else {
        find_nonspace(s, i + 1)
    }
}

/// `s` with leading and trailing whitespace dropped.
pub open spec fn trim_of(s: Seq<char>) -> Seq<char> {
    let t = s.take(rtrim_idx(s));
    t.skip(find_nonspace(t, 0))
}

/// Dropping trailing whitespace never lengthens a string.
pub proof fn lemma_rtrim_le(s: Seq<char>)
    ensures
        0 <= rtrim_idx(s) <= s.len(),
    decreases s.len(),
{
    if s.len() > 0 && is_space(s.last()) {
        lemma_rtrim_le(s.drop_last());
    }
}

/// `find_nonspace` stays within bounds.
pub proof fn lemma_find_nonspace_le(s: Seq<char>, i: int)
    requires
        0 <= i <= s.len(),
    ensures
        i <= find_nonspace(s, i) <= s.len(),
    decreases s.len() - i,
{
    if i < s.len() && is_space(s[i]) {
        lemma_find_nonspace_le(s, i + 1);
    }
}

/// Trimming never lengthens a string.
pub proof fn lemma_trim_le(s: Seq<char>)
    ensures
        trim_of(s).len() <= s.len(),
{
    lemma_rtrim_le(s);
    let t = s.take(rtrim_idx(s));
    lemma_find_nonspace_le(t, 0);
}

/// Drop leading and trailing whitespace.
pub fn trim(s: &str) -> (r: &str)
    ensures
        r@ == trim_of(s@),
{
    let ghost sv = s@;
    let len = s.unicode_len();
    proof {
        assert(sv.take(len as int) =~= sv);
    }
    let mut e: usize = len;
    while e > 0 && space_char(s.get_char(e - 1))
        invariant
            0 <= e <= len == sv.len(),
            s@ == sv,
            rtrim_idx(sv) == rtrim_idx(sv.take(e as int)),
        decreases e,
    {
        proof {
            let t = sv.take(e as int);
            assert(t.last() == sv[e - 1]);
            assert(t.drop_last() =~= sv.take(e - 1));
        }
        e = e - 1;
    }
    proof {
        if e > 0 {
            let t = sv.take(e as int);
            assert(t.last() == sv[e - 1]);
        }
        assert(rtrim_idx(sv) == e);
    }
    let ghost t = sv.take(e as int);
    let mut b: usize = 0;
    while b < e && space_char(s.get_char(b))
        invariant
            0 <= b <= e <= len == sv.len(),
            s@ == sv,
            t == sv.take(e as int),
            find_nonspace(t, 0) == find_nonspace(t, b as int),
        decreases e - b,
    {
        proof {
            assert(t[b as int] == sv[b as int]);
        }
        b = b + 1;
    }
    proof {
        if b < e {
            assert(t[b as int] == sv[b as int]);
        }
        assert(find_nonspace(t, 0) == b);
    }
    let r = s.substring_char(b, e);
    proof {
        assert(r@ =~= t.skip(b as int));
    }
    r
}

/// Whether `c` is whitespace.
fn space_char(c: char) -> (r: bool)
    ensures
        r == is_space(c),
{
    c == ' ' || c == '\t' || c == '\r' || c == '\n'
}

/// Whether the four characters at `p` spell out "http".
pub open spec fn has_http_at(s: Seq<char>, p: int) -> bool {
    &&& p + 4 <= s.len()
    &&& s[p] == 'h'
    &&& s[p + 1] == 't'
    &&& s[p + 2] == 't'
    &&& s[p + 3] == 'p'
}

/// The first position at or after `i` where "http" starts, or the length of
/// `s` when there is none.
pub open spec fn find_http(s: Seq<char>, i: int) -> int
    decreases s.len() - i
        when 0 <= i <= s.len()
{
    if i + 4 > s.len() {
        s.len() as int
    } else if has_http_at(s, i) {
        i
    } else {
        find_http(s, i + 1)
    }
}

/// The first position at or after `i` whose character cannot appear in a
/// URL, or the length of `s` when there is none.
pub open spec fn find_nonurl(s: Seq<char>, i: int) -> int
    decreases s.len() - i
        when 0 <= i <= s.len()
{
    if i >= s.len() {
        s.len() as int
    } else if !is_url_char(s[i]) {
        i
    } else {
        find_nonurl(s, i + 1)
    }
}

/// Whether the `url` crate accepts `s` as a URL. The result depends on the
/// characters of `s` alone.
pub uninterp spec fn url_parse_ok(s: Seq<char>) -> bool;

/// Relies on url::Url::parse: tells a well-formed absolute URL from
/// anything else.
#[verifier::external_body]
fn url_accepts(s: &str) -> (r: bool)
    ensures
        r == url_parse_ok(s@),
{
    url::Url::parse(s).is_ok()
}

/// The first accepted URL of `s` together with the message state after it:
/// text up to the next "http" is discarded, the candidate runs over URL
/// characters, and a candidate the parser refuses is skipped. The state is
/// trimmed after every candidate. `None` means no accepted URL remains; the
/// state is then whatever was left when the search gave up.
pub open spec fn url_split(s: Seq<char>) -> (Option<Seq<char>>, Seq<char>)
    decreases s.len(),
{
    if s.len() == 0 {
        (None, s)
    } else {
        let p = find_http(s, 0);
        if p == s.len() {
            (None, s)
        } else {
            let m = s.skip(p);
            let e = find_nonurl(m, 0);
            let cand = m.take(e);
            let rest = trim_of(m.skip(e));
            if url_parse_ok(cand) {
                (Some(cand), rest)
            } else {
                proof {
                    lemma_find_http(s, 0);
                    lemma_url_split_step(s, p, e);
                }
                url_split(rest)
            }
        }
    }
}

/// `find_http` stays within bounds and lands on an occurrence when it finds
/// one.
pub proof fn lemma_find_http(s: Seq<char>, i: int)
    requires
        0 <= i <= s.len(),
    ensures
        i <= find_http(s, i) <= s.len(),
        find_http(s, i) < s.len() ==> has_http_at(s, find_http(s, i)),
    decreases s.len() - i,
{
    if i + 4 <= s.len() && !has_http_at(s, i) {
        lemma_find_http(s, i + 1);
    }
}

/// One search step strictly shrinks the message.
pub proof fn lemma_url_split_step(s: Seq<char>, p: int, e: int)
    requires
        0 <= p < s.len(),
        has_http_at(s, p),
        e == find_nonurl(s.skip(p), 0),
    ensures
        trim_of(s.skip(p).skip(e)).len() < s.len(),
{
    let m = s.skip(p);
    lemma_find_nonurl_ge_4(m);
    lemma_find_nonspace_le(m, 0);
    lemma_trim_le(m.skip(e));
}

/// A candidate that starts with "http" spans at least those four characters.
pub proof fn lemma_find_nonurl_ge_4(m: Seq<char>)
    requires
        has_http_at(m, 0),
    ensures
        4 <= find_nonurl(m, 0) <= m.len(),
{
    assert(is_url_char(m[0]));
    assert(is_url_char(m[1]));
    assert(is_url_char(m[2]));
    assert(is_url_char(m[3]));
    assert(find_nonurl(m, 0) == find_nonurl(m, 1));
    assert(find_nonurl(m, 1) == find_nonurl(m, 2));
    assert(find_nonurl(m, 2) == find_nonurl(m, 3));
    assert(find_nonurl(m, 3) == find_nonurl(m, 4));
    lemma_find_nonurl_bounds(m, 4);
}

/// `find_nonurl` stays within bounds.
proof fn lemma_find_nonurl_bounds(s: Seq<char>, i: int)
    requires
        0 <= i <= s.len(),
    ensures
        i <= find_nonurl(s, i) <= s.len(),
        find_nonurl(s, i) < s.len() ==> !is_url_char(s[find_nonurl(s, i)]),
    decreases s.len() - i,
{
    if i < s.len() && is_url_char(s[i]) {
        lemma_find_nonurl_bounds(s, i + 1);
    }
}


/// An extractor over the URLs of a chat message.
pub struct Urls<'a> {
    message: &'a str,
}

impl<'a> View for Urls<'a> {
    type V = Seq<char>;

    closed spec fn view(&self) -> Seq<char> {
        self.message@
    }
}

impl<'a> Urls<'a> {
    /// Extract all URLs from the given message.
    pub fn new(message: &'a str) -> (r: Urls<'a>)
        ensures
            r@ == trim_of(message@),
    {
        Urls { message: trim(message) }
    }

    /// The next URL of the message, as `url_split` describes it.
    pub fn next(&mut self) -> (r: Option<&'a str>)
        ensures
            match url_split(old(self)@) {
                (Some(u), st) => r matches Some(t) && t@ == u && final(self)@ == st,
                (None, st) => r is None && final(self)@ == st,
            },
    {
        let mut cur: &'a str = self.message;
        loop
            invariant
                url_split(old(self)@) == url_split(cur@),
            decreases cur@.len(),
        {
            let s = cur;
            let ghost sv = s@;
            let len = s.unicode_len();
            if len == 0 {
                self.message = s;
                return None;
            }
            if len < 4 {
                proof {
                    assert(find_http(sv, 0) == sv.len());
                }
                self.message = s;
                return None;
            }
            let mut p: usize = 0;
            while p <= len - 4 && !has_http(s, p)
                invariant
                    4 <= len == sv.len(),
                    0 <= p <= len,
                    s@ == sv,
                    find_http(sv, 0) == find_http(sv, p as int),
                decreases len - p,
            {
                p = p + 1;
            }
            if p > len - 4 {
                proof {
                    assert(find_http(sv, 0) == sv.len());
                }
                self.message = s;
                return None;
            }
            proof {
                assert(find_http(sv, 0) == p);
            }
            let ghost m = sv.skip(p as int);
            let mut j: usize = p;
            while j < len && is_url_character(s.get_char(j))
                invariant
                    p <= j <= len == sv.len(),
                    s@ == sv,
                    m == sv.skip(p as int),
                    find_nonurl(m, 0) == find_nonurl(m, j - p),
                decreases len - j,
            {
                proof {
                    assert(m[j - p] == sv[j as int]);
                }
                j = j + 1;
            }
            proof {
                if j < len {
                    assert(m[j - p] == sv[j as int]);
                }
                assert(find_nonurl(m, 0) == j - p);
            }
            let cand = s.substring_char(p, j);
            let rest = trim(s.substring_char(j, len));
            proof {
                assert(cand@ =~= m.take(j - p));
                assert(sv.subrange(j as int, len as int) =~= m.skip(j - p));
            }
            if url_accepts(cand) {
                self.message = rest;
                return Some(cand);
            }
            proof {
                lemma_url_split_step(sv, p as int, j - p);
            }
            cur = rest;
        }
    }
}

/// A hexadecimal digit's value, or 16 for any other byte.
pub open spec fn hex_val(b: u8) -> int {
    if 48 <= b <= 57 {
        b - 48
    } else if 65 <= b <= 70 {
        b - 55
    } else if 97 <= b <= 102 {
        b - 87
    } else {
        16
    }
}

/// Whether `b` is a hexadecimal digit.
pub open spec fn is_hex(b: u8) -> bool {
    hex_val(b) < 16
}

/// `bs` with every `%XX` escape replaced by the byte it names; a `%` that
/// no two hexadecimal digits follow passes through unchanged.
pub open spec fn pct_decode(bs: Seq<u8>) -> Seq<u8>
    decreases bs.len(),
{
    if bs.len() == 0 {
        Seq::empty()
    } else if bs[0] == 37 && bs.len() >= 3 && is_hex(bs[1]) && is_hex(bs[2]) {
        seq![(hex_val(bs[1]) * 16 + hex_val(bs[2])) as u8] + pct_decode(bs.skip(3))
    } else {
        seq![bs[0]] + pct_decode(bs.skip(1))
    }
}

/// The first position at or after `i` holding the byte `b`, or the length
/// of `s` when there is none.
pub open spec fn find_byte(s: Seq<u8>, b: u8, i: int) -> int
    decreases s.len() - i
        when 0 <= i <= s.len()
{
    if i >= s.len() {
        s.len() as int
    } else if s[i] == b {
        i
    } else {
        find_byte(s, b, i + 1)
    }
}

/// The next key/value pair of the query string `q` and what follows it:
/// the segment up to the next `&`, split at its first `=` if it has one,
/// both sides percent-decoded. `None` means `q` is exhausted.
pub open spec fn qp_split(q: Seq<u8>) -> Option<((Seq<u8>, Option<Seq<u8>>), Seq<u8>)> {
    if q.len() == 0 {
        None
    } else {
        let a = find_byte(q, 38, 0);
        let seg = q.take(a);
        let rest = if a < q.len() {
            q.skip(a + 1)
        } else {
            q.skip(a)
        };
        let e = find_byte(seg, 61, 0);
        if e < seg.len() {
            Some(((pct_decode(seg.take(e)), Some(pct_decode(seg.skip(e + 1)))), rest))
        } else {
            Some(((pct_decode(seg), None), rest))
        }
    }
}

/// Decode the query string `query` into key/value pairs.
pub fn query_pairs(query: &str) -> (r: QueryPairs<'_>)
    ensures
        r@ == query.spec_bytes(),
{
    QueryPairs { query: query.as_bytes() }
}

/// A splitter over the key/value pairs of a query string.
pub struct QueryPairs<'a> {
    query: &'a [u8],
}

impl<'a> View for QueryPairs<'a> {
    type V = Seq<u8>;

    closed spec fn view(&self) -> Seq<u8> {
        self.query@
    }
}

impl<'a> QueryPairs<'a> {
    /// Take the next key/value pair, as `qp_split` describes it.
    pub fn next(&mut self) -> (r: Option<(Vec<u8>, Option<Vec<u8>>)>)
        ensures
            match qp_split(old(self)@) {
                None => r is None && final(self)@ == old(self)@,
                Some(pr) => {
                    &&& r matches Some(kv)
                    &&& kv.0@ == pr.0.0
                    &&& match (kv.1, pr.0.1) {
                        (Some(v), Some(vs)) => v@ == vs,
                        (None, None) => true,
                        _ => false,
                    }
                    &&& final(self)@ == pr.1
                },
            },
    {
        let q = self.query;
        let ghost qv = q@;
        let len = q.len();
        if len == 0 {
            return None;
        }
        let mut a: usize = 0;
        while a < len && *vstd::slice::slice_index_get(q, a) != 38u8
            invariant
                0 <= a <= len == qv.len(),
                q@ == qv,
                find_byte(qv, 38, 0) == find_byte(qv, 38, a as int),
            decreases len - a,
        {
            a = a + 1;
        }
        proof {
            assert(find_byte(qv, 38, 0) == a);
        }
        let seg = vstd::slice::slice_subrange(q, 0, a);
        let ghost segv = seg@;
        proof {
            assert(segv =~= qv.take(a as int));
        }
        if a < len {
            self.query = vstd::slice::slice_subrange(q, a + 1, len);
            proof {
                assert(self.query@ =~= qv.skip(a + 1));
            }
        } else {
            self.query = vstd::slice::slice_subrange(q, a, len);
            proof {
                assert(self.query@ =~= qv.skip(a as int));
            }
        }
        let slen = seg.len();
        let mut e: usize = 0;
        while e < slen && *vstd::slice::slice_index_get(seg, e) != 61u8
            invariant
                0 <= e <= slen == segv.len(),
                seg@ == segv,
                find_byte(segv, 61, 0) == find_byte(segv, 61, e as int),
            decreases slen - e,
        {
            e = e + 1;
        }
        proof {
            assert(find_byte(segv, 61, 0) == e);
        }
        if e < slen {
            let key = pct_decode_bytes(vstd::slice::slice_subrange(seg, 0, e));
            let value = pct_decode_bytes(vstd::slice::slice_subrange(seg, e + 1, slen));
            proof {
                assert(segv.take(e as int) =~= segv.subrange(0, e as int));
                assert(segv.skip(e + 1) =~= segv.subrange(e + 1, slen as int));
            }
            Some((key, Some(value)))
        } else {
            let key = pct_decode_bytes(seg);
            Some((key, None))
        }
    }
}

/// Replace every `%XX` escape of `seg` by the byte it names.
fn pct_decode_bytes(seg: &[u8]) -> (r: Vec<u8>)
    ensures
        r@ == pct_decode(seg@),
{
    let ghost sv = seg@;
    let len = seg.len();
    let mut out: Vec<u8> = Vec::new();
    let mut k: usize = 0;
    proof {
        assert(sv.skip(0) =~= sv);
        assert(out@ + pct_decode(sv.skip(0)) =~= pct_decode(sv));
    }
    while k < len
        invariant
            0 <= k <= len == sv.len(),
            seg@ == sv,
            pct_decode(sv) == out@ + pct_decode(sv.skip(k as int)),
        decreases len - k,
    {
        let b = *vstd::slice::slice_index_get(seg, k);
        let ghost before = sv.skip(k as int);
        proof {
            assert(before[0] == sv[k as int]);
        }
        if b == 37 && len - k > 2 {
            let h1 = *vstd::slice::slice_index_get(seg, k + 1);
            let h2 = *vstd::slice::slice_index_get(seg, k + 2);
            proof {
                assert(before[1] == sv[k + 1]);
                assert(before[2] == sv[k + 2]);
            }
            let v1 = hex_digit(h1);
            let v2 = hex_digit(h2);
            if v1 < 16 && v2 < 16 {
                out.push(v1 * 16 + v2);
                proof {
                    assert(before.skip(3) =~= sv.skip(k + 3));
                    assert(pct_decode(before) == seq![(hex_val(before[1]) * 16 + hex_val(
                        before[2],
                    )) as u8] + pct_decode(before.skip(3)));
                    assert(out@ + pct_decode(sv.skip(k + 3)) =~= pct_decode(sv));
                }
                k = k + 3;
                continue ;
            }
        }
        out.push(b);
        proof {
            assert(before.skip(1) =~= sv.skip(k + 1));
            assert(out@ + pct_decode(sv.skip(k + 1)) =~= pct_decode(sv));
        }
        k = k + 1;
    }
    proof {
        assert(sv.skip(len as int) =~= Seq::<u8>::empty());
        assert(out@ =~= pct_decode(sv));
    }
    out
}

/// The value of the hexadecimal digit `b`, or 16 for any other byte.
fn hex_digit(b: u8) -> (r: u8)
    ensures
        r == hex_val(b),
{
    if 48 <= b && b <= 57 {
        b - 48
    } else if 65 <= b && b <= 70 {
        b - 55
    } else if 97 <= b && b <= 102 {
        b - 87
    } else {
        16
    }
}

/// Whether the four characters at `p` spell out "http".
fn has_http(s: &str, p: usize) -> (r: bool)
    requires
        p + 4 <= s@.len(),
        s@.len() <= usize::MAX,
    ensures
        r == has_http_at(s@, p as int),
{
    s.get_char(p) == 'h' && s.get_char(p + 1) == 't' && s.get_char(p + 2) == 't' && s.get_char(
        p + 3,
    ) == 'p'
}

} // verus!
