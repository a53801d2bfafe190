//! The request-line parser: the only part of the server that reads wire
//! bytes and decides anything.
//!
//! A buffer read from a connection is interpreted as UTF-8 text. The first
//! line is split on ASCII whitespace; the first token must name a known
//! method and the second is the request-target, which is normalized to a
//! path: absolute URIs lose their scheme and authority, and a query suffix
//! is discarded. [`spec_parse`] states this mathematically over the decoded
//! character sequence, and [`Request::parse`] is proved to compute it.

use vstd::prelude::*;
use vstd::string::*;
use vstd::utf8::{decode_utf8, valid_utf8, encode_utf8_decode_utf8};
use crate::http::{Method, ParseError, ServerError};

verus! {

/// The five ASCII whitespace characters, as `str::split_ascii_whitespace`
/// understands them.
pub open spec fn is_ascii_whitespace(c: char) -> bool {
    c == ' ' || c == '\t' || c == '\n' || c == '\r' || c == '\x0C'
}

/// Every character of `s` is ASCII whitespace (vacuously true of the empty
/// sequence).
pub open spec fn all_whitespace(s: Seq<char>) -> bool {
    forall|i: int| 0 <= i < s.len() ==> is_ascii_whitespace(#[trigger] s[i])
}

/// The least index `j >= i` with `s[j] == c`, or `s.len()` if no such index
/// exists.
pub open spec fn find_char_from(s: Seq<char>, i: int, c: char) -> int
    decreases s.len() - i,
{
    if i < 0 || i >= s.len() {
        s.len() as int
    } else if s[i] == c {
        i
    } else {
        find_char_from(s, i + 1, c)
    }
}

/// The least index `j >= i` holding ASCII whitespace, or `s.len()`.
pub open spec fn find_whitespace(s: Seq<char>, i: int) -> int
    decreases s.len() - i,
{
    if i < 0 || i >= s.len() {
        s.len() as int
    } else if is_ascii_whitespace(s[i]) {
        i
    } else {
        find_whitespace(s, i + 1)
    }
}

/// The least index `j >= i` holding a non-whitespace character, or `s.len()`.
pub open spec fn find_non_whitespace(s: Seq<char>, i: int) -> int
    decreases s.len() - i,
{
    if i < 0 || i >= s.len() {
        s.len() as int
    } else if !is_ascii_whitespace(s[i]) {
        i
    } else {
        find_non_whitespace(s, i + 1)
    }
}

/// `s` begins with `prefix`.
pub open spec fn starts_with(s: Seq<char>, prefix: Seq<char>) -> bool {
    s.len() >= prefix.len() && s.subrange(0, prefix.len() as int) == prefix
}

/// `path` truncated at (and excluding) its first `?`; unchanged when it has
/// none.
pub open spec fn strip_query(path: Seq<char>) -> Seq<char> {
    path.take(find_char_from(path, 0, '?'))
}

/// The request line: the text up to the first newline. A trailing `\r` needs
/// no special handling here because the line is only ever tokenized on ASCII
/// whitespace, which `\r` is.
pub open spec fn request_line(text: Seq<char>) -> Seq<char> {
    text.take(find_char_from(text, 0, '\n'))
}

/// The path component of a request-target. A target beginning with `http` is
/// an absolute URI: the path starts at the third `/`, past the scheme and
/// authority, and its absence is an error. A target beginning with `/` is
/// the path itself. Anything else is unparseable. In both successful cases
/// the query suffix is discarded.
pub open spec fn spec_path_of_target(target: Seq<char>) -> Result<Seq<char>, ParseError> {
    if starts_with(target, seq!['h', 't', 't', 'p']) {
        let s1 = find_char_from(target, 0, '/');
        let s2 = find_char_from(target, s1 + 1, '/');
        let s3 = find_char_from(target, s2 + 1, '/');
        if s3 == target.len() {
            Err(ParseError::MissingPath)
        } else {
            Ok(strip_query(target.subrange(s3, target.len() as int)))
        }
    } else if target.len() > 0 && target[0] == '/' {
        Ok(strip_query(target))
    } else {
        Err(ParseError::UnparseableTarget)
    }
}

/// `find_char_from` stays in bounds, finds no earlier occurrence, and lands
/// on `c` unless it ran off the end.
pub proof fn lemma_find_char_bounds(s: Seq<char>, i: int, c: char)
    requires
        0 <= i <= s.len(),
    ensures
        i <= find_char_from(s, i, c) <= s.len(),
        forall|j: int| i <= j < find_char_from(s, i, c) ==> s[j] != c,
        find_char_from(s, i, c) < s.len() ==> s[find_char_from(s, i, c)] == c,
    decreases s.len() - i,
{
    if i < s.len() && s[i] != c {
        lemma_find_char_bounds(s, i + 1, c);
    }
}

/// An index before which `c` never occurs, and which holds `c` unless it is
/// the length, is exactly what `find_char_from` returns.
pub proof fn lemma_find_char_is(s: Seq<char>, i: int, c: char, r: int)
    requires
        0 <= i <= r <= s.len(),
        forall|j: int| i <= j < r ==> s[j] != c,
        r < s.len() ==> s[r] == c,
    ensures
        find_char_from(s, i, c) == r,
    decreases r - i,
{
    if i < s.len() && s[i] != c {
        lemma_find_char_is(s, i + 1, c, r);
    }
}

/// `find_whitespace` stays in bounds, skips only non-whitespace, and lands
/// on whitespace unless it ran off the end.
pub proof fn lemma_find_whitespace_bounds(s: Seq<char>, i: int)
    requires
        0 <= i <= s.len(),
    ensures
        i <= find_whitespace(s, i) <= s.len(),
        forall|j: int| i <= j < find_whitespace(s, i) ==> !is_ascii_whitespace(#[trigger] s[j]),
        find_whitespace(s, i) < s.len() ==> is_ascii_whitespace(s[find_whitespace(s, i)]),
    decreases s.len() - i,
{
    if i < s.len() && !is_ascii_whitespace(s[i]) {
        lemma_find_whitespace_bounds(s, i + 1);
    }
}

/// An index preceded (from `i`) only by non-whitespace, and holding
/// whitespace unless it is the length, is what `find_whitespace` returns.
pub proof fn lemma_find_whitespace_is(s: Seq<char>, i: int, r: int)
    requires
        0 <= i <= r <= s.len(),
        forall|j: int| i <= j < r ==> !is_ascii_whitespace(#[trigger] s[j]),
        r < s.len() ==> is_ascii_whitespace(s[r]),
    ensures
        find_whitespace(s, i) == r,
    decreases r - i,
{
    if i < s.len() && !is_ascii_whitespace(s[i]) {
        lemma_find_whitespace_is(s, i + 1, r);
    }
}

/// `find_non_whitespace` stays in bounds, skips only whitespace, and lands
/// on non-whitespace unless it ran off the end.
pub proof fn lemma_find_non_whitespace_bounds(s: Seq<char>, i: int)
    requires
        0 <= i <= s.len(),
    ensures
        i <= find_non_whitespace(s, i) <= s.len(),
        forall|j: int| i <= j < find_non_whitespace(s, i) ==> is_ascii_whitespace(#[trigger] s[j]),
        find_non_whitespace(s, i) < s.len() ==> !is_ascii_whitespace(
            s[find_non_whitespace(s, i)],
        ),
    decreases s.len() - i,
{
    if i < s.len() && is_ascii_whitespace(s[i]) {
        lemma_find_non_whitespace_bounds(s, i + 1);
    }
}

/// An index preceded (from `i`) only by whitespace, and holding
/// non-whitespace unless it is the length, is what `find_non_whitespace`
/// returns.
pub proof fn lemma_find_non_whitespace_is(s: Seq<char>, i: int, r: int)
    requires
        0 <= i <= r <= s.len(),
        forall|j: int| i <= j < r ==> is_ascii_whitespace(#[trigger] s[j]),
        r < s.len() ==> !is_ascii_whitespace(s[r]),
    ensures
        find_non_whitespace(s, i) == r,
    decreases r - i,
{
    if i < s.len() && is_ascii_whitespace(s[i]) {
        lemma_find_non_whitespace_is(s, i + 1, r);
    }
}

/// Whether `c` is ASCII whitespace, decided at runtime.
fn ascii_whitespace(c: char) -> (r: bool)
    ensures
        r == is_ascii_whitespace(c),
{
    c == ' ' || c == '\t' || c == '\n' || c == '\r' || c == '\x0C'
}

/// The least index `>= from` at which `c` occurs in `s`, or the length.
fn scan_char(s: &str, n: usize, from: usize, c: char) -> (r: usize)
    requires
        n == s@.len(),
        from <= n,
    ensures
        r == find_char_from(s@, from as int, c),
        from <= r <= n,
    decreases n - from,
{
    let mut i: usize = from;
    while i < n && s.get_char(i) != c
        invariant
            from <= i <= n,
            n == s@.len(),
            forall|j: int| from <= j < i ==> s@[j] != c,
        decreases n - i,
    {
        i = i + 1;
    }
    proof {
        lemma_find_char_is(s@, from as int, c, i as int);
    }
    i
}

/// The least index `>= from` holding ASCII whitespace, or the length.
fn scan_whitespace(s: &str, n: usize, from: usize) -> (r: usize)
    requires
        n == s@.len(),
        from <= n,
    ensures
        r == find_whitespace(s@, from as int),
        from <= r <= n,
{
    let mut i: usize = from;
    while i < n && !ascii_whitespace(s.get_char(i))
        invariant
            from <= i <= n,
            n == s@.len(),
            forall|j: int| from <= j < i ==> !is_ascii_whitespace(#[trigger] s@[j]),
        decreases n - i,
    {
        i = i + 1;
    }
    proof {
        lemma_find_whitespace_is(s@, from as int, i as int);
    }
    i
}

/// The least index `>= from` holding non-whitespace, or the length.
fn scan_non_whitespace(s: &str, n: usize, from: usize) -> (r: usize)
    requires
        n == s@.len(),
        from <= n,
    ensures
        r == find_non_whitespace(s@, from as int),
        from <= r <= n,
{
    let mut i: usize = from;
    while i < n && ascii_whitespace(s.get_char(i))
        invariant
            from <= i <= n,
            n == s@.len(),
            forall|j: int| from <= j < i ==> is_ascii_whitespace(#[trigger] s@[j]),
        decreases n - i,
    {
        i = i + 1;
    }
    proof {
        lemma_find_non_whitespace_is(s@, from as int, i as int);
    }
    i
}

/// The mathematical content of a parsed request: its method, the literal
/// request-target token, and the normalized path.
pub struct RequestView {
    pub method: Method,
    pub url: Seq<char>,
    pub path: Seq<char>,
}

/// What parsing the decoded text of a read buffer yields: a request
/// descriptor, or the first applicable parse error.
///
/// A buffer of nothing but whitespace has no request line. Otherwise the
/// first line is tokenized on ASCII whitespace: the first token must be a
/// known method name (case-sensitively), the second is the request-target,
/// and the target is normalized by [`spec_path_of_target`].
pub open spec fn spec_parse(text: Seq<char>) -> Result<RequestView, ParseError> {
    if all_whitespace(text) {
        Err(ParseError::MissingRequestLine)
    } else {
        let line = request_line(text);
        let m_start = find_non_whitespace(line, 0);
        if m_start == line.len() {
            Err(ParseError::MissingMethod)
        } else {
            let m_end = find_whitespace(line, m_start);
            if line.subrange(m_start, m_end) != seq!['G', 'E', 'T'] {
                Err(ParseError::UnknownMethod)
            } else {
                let t_start = find_non_whitespace(line, m_end);
                if t_start == line.len() {
                    Err(ParseError::MissingTarget)
                } else {
                    let t_end = find_whitespace(line, t_start);
                    let target = line.subrange(t_start, t_end);
                    match spec_path_of_target(target) {
                        Ok(path) => Ok(
                            RequestView { method: Method::Get, url: target, path },
                        ),
                        Err(e) => Err(e),
                    }
                }
            }
        }
    }
}

/// A path without `?` is left exactly as it is by query stripping.
pub proof fn lemma_strip_query_absent(path: Seq<char>)
    requires
        forall|i: int| 0 <= i < path.len() ==> path[i] != '?',
    ensures
        strip_query(path) == path,
{
    lemma_find_char_is(path, 0, '?', path.len() as int);
    assert(path.take(path.len() as int) =~= path);
}

/// Query stripping leaves no `?` behind: everything from the first `?` on
/// is discarded.
pub proof fn lemma_strip_query_removes_query(path: Seq<char>)
    ensures
        forall|i: int| 0 <= i < strip_query(path).len() ==> strip_query(path)[i] != '?',
{
    lemma_find_char_bounds(path, 0, '?');
}

/// The invariant of every successfully parsed request: its path holds no
/// query component.
pub proof fn lemma_parsed_path_has_no_query(text: Seq<char>)
    requires
        spec_parse(text) is Ok,
    ensures
        forall|i: int| 0 <= i < spec_parse(text)->Ok_0.path.len() ==> spec_parse(
            text,
        )->Ok_0.path[i] != '?',
{
    let line = request_line(text);
    let m_start = find_non_whitespace(line, 0);
    let m_end = find_whitespace(line, m_start);
    let t_start = find_non_whitespace(line, m_end);
    let t_end = find_whitespace(line, t_start);
    let target = line.subrange(t_start, t_end);
    if starts_with(target, seq!['h', 't', 't', 'p']) {
        let s1 = find_char_from(target, 0, '/');
        let s2 = find_char_from(target, s1 + 1, '/');
        let s3 = find_char_from(target, s2 + 1, '/');
        lemma_strip_query_removes_query(target.subrange(s3, target.len() as int));
    } else {
        lemma_strip_query_removes_query(target);
    }
}

/// Parsing any well-formed `GET` request line comes down to normalizing its
/// target: for every whitespace-free target token and arbitrary remaining
/// text, `"GET <target> <rest>"` parses to a `GET` request whose url is the
/// target and whose path is whatever [`spec_path_of_target`] yields, or to
/// that normalization's error.
pub proof fn lemma_parse_get_line(target: Seq<char>, rest: Seq<char>)
    requires
        target.len() > 0,
        forall|i: int| 0 <= i < target.len() ==> !is_ascii_whitespace(#[trigger] target[i]),
    ensures
        spec_parse(seq!['G', 'E', 'T', ' '] + target + seq![' '] + rest) == match spec_path_of_target(
            target,
        ) {
            Ok(p) => Ok::<RequestView, ParseError>(
                RequestView { method: Method::Get, url: target, path: p },
            ),
            Err(e) => Err::<RequestView, ParseError>(e),
        },
{
    let text = seq!['G', 'E', 'T', ' '] + target + seq![' '] + rest;
    let tlen = target.len() as int;
    assert(text[0] == 'G');
    assert(text[1] == 'E');
    assert(text[2] == 'T');
    assert(text[3] == ' ');
    assert(forall|j: int| 0 <= j < tlen ==> text[4 + j] == target[j]);
    assert(text[4 + tlen] == ' ');
    assert(!is_ascii_whitespace(text[0]));
    assert(!all_whitespace(text));

    lemma_find_char_bounds(text, 0, '\n');
    let e = find_char_from(text, 0, '\n');
    assert(e >= 5 + tlen) by {
        if e < 5 + tlen {
            assert(text[e] == '\n');
            if 4 <= e < 4 + tlen {
                assert(!is_ascii_whitespace(target[e - 4]));
            }
            assert(false);
        }
    }
    let line = request_line(text);
    assert(line.len() == e);
    assert(forall|j: int| 0 <= j < e ==> line[j] == text[j]);

    lemma_find_non_whitespace_is(line, 0, 0);
    lemma_find_whitespace_is(line, 0, 3);
    assert(line.subrange(0, 3) =~= seq!['G', 'E', 'T']);
    lemma_find_non_whitespace_is(line, 3, 4);
    lemma_find_whitespace_is(line, 4, 4 + tlen);
    assert(line.subrange(4, 4 + tlen) =~= target);
}

/// For every request line whose target is rooted (it starts with `/` and
/// holds no whitespace), parsing yields method `GET`, the target itself as
/// the url, and the target up to its first `?` as the path. With no query
/// in the target the path is the target exactly.
pub proof fn lemma_parse_rooted(target: Seq<char>, rest: Seq<char>)
    requires
        target.len() > 0,
        target[0] == '/',
        forall|i: int| 0 <= i < target.len() ==> !is_ascii_whitespace(#[trigger] target[i]),
    ensures
        spec_parse(seq!['G', 'E', 'T', ' '] + target + seq![' '] + rest)
            == Ok::<RequestView, ParseError>(
            RequestView { method: Method::Get, url: target, path: strip_query(target) },
        ),
{
    lemma_parse_get_line(target, rest);
    if starts_with(target, seq!['h', 't', 't', 'p']) {
        assert(target.subrange(0, 4)[0] == 'h');
        assert(false);
    }
}

/// For every absolute-URI target — `http`, the rest of the scheme, `//`, an
/// authority, and a rooted path — parsing yields method `GET`, the whole
/// target as the url, and the path component with its query stripped:
/// scheme, authority and query are all discarded.
pub proof fn lemma_parse_absolute(
    scheme_tail: Seq<char>,
    authority: Seq<char>,
    path0: Seq<char>,
    rest: Seq<char>,
)
    requires
        forall|i: int| 0 <= i < scheme_tail.len() ==> !is_ascii_whitespace(
            #[trigger] scheme_tail[i],
        ) && scheme_tail[i] != '/',
        forall|i: int| 0 <= i < authority.len() ==> !is_ascii_whitespace(#[trigger] authority[i])
            && authority[i] != '/',
        path0.len() > 0,
        path0[0] == '/',
        forall|i: int| 0 <= i < path0.len() ==> !is_ascii_whitespace(#[trigger] path0[i]),
    ensures
        spec_parse(
            seq!['G', 'E', 'T', ' '] + (seq!['h', 't', 't', 'p'] + scheme_tail + seq!['/', '/']
                + authority + path0) + seq![' '] + rest,
        ) == Ok::<RequestView, ParseError>(
            RequestView {
                method: Method::Get,
                url: seq!['h', 't', 't', 'p'] + scheme_tail + seq!['/', '/'] + authority + path0,
                path: strip_query(path0),
            },
        ),
{
    let target = seq!['h', 't', 't', 'p'] + scheme_tail + seq!['/', '/'] + authority + path0;
    let sl = scheme_tail.len() as int;
    let al = authority.len() as int;
    let pl = path0.len() as int;
    assert(target.len() == 4 + sl + 2 + al + pl);
    assert(target[0] == 'h');
    assert(target[1] == 't');
    assert(target[2] == 't');
    assert(target[3] == 'p');
    assert(forall|j: int| 0 <= j < sl ==> target[4 + j] == scheme_tail[j]);
    assert(target[4 + sl] == '/');
    assert(target[4 + sl + 1] == '/');
    assert(forall|j: int| 0 <= j < al ==> target[4 + sl + 2 + j] == authority[j]);
    assert(forall|j: int| 0 <= j < pl ==> target[4 + sl + 2 + al + j] == path0[j]);

    assert(forall|i: int| 0 <= i < target.len() ==> !is_ascii_whitespace(#[trigger] target[i]))
        by {
        assert forall|i: int| 0 <= i < target.len() implies !is_ascii_whitespace(
            #[trigger] target[i],
        ) by {
            if 4 <= i < 4 + sl {
                assert(target[i] == scheme_tail[i - 4]);
            } else if 4 + sl + 2 <= i < 4 + sl + 2 + al {
                assert(target[i] == authority[i - (4 + sl + 2)]);
            } else if 4 + sl + 2 + al <= i {
                assert(target[i] == path0[i - (4 + sl + 2 + al)]);
            }
        }
    }
    lemma_parse_get_line(target, rest);

    assert(starts_with(target, seq!['h', 't', 't', 'p'])) by {
        assert(target.subrange(0, 4) =~= seq!['h', 't', 't', 'p']);
    }
    lemma_find_char_is(target, 0, '/', 4 + sl);
    lemma_find_char_is(target, 4 + sl + 1, '/', 4 + sl + 1);
    lemma_find_char_is(target, 4 + sl + 2, '/', 4 + sl + 2 + al);
    assert(target.subrange(4 + sl + 2 + al, target.len() as int) =~= path0);
}

/// Relies on core::str::from_utf8: it succeeds exactly when the bytes are
/// valid UTF-8, and the returned slice views those same bytes.
#[verifier::external_body]
fn buffer_as_str(buffer: &[u8]) -> (r: Option<&str>)
    ensures
        r is Some <==> valid_utf8(buffer@),
        r matches Some(s) ==> s.spec_bytes() == buffer@,
{
    core::str::from_utf8(buffer).ok()
}

/// The runtime half of [`spec_path_of_target`]: normalize a request-target
/// to its path, or say why it cannot be done.
fn path_of_target(target: &str) -> (r: Result<String, ParseError>)
    ensures
        match r {
            Ok(p) => spec_path_of_target(target@) == Ok::<Seq<char>, ParseError>(p@),
            Err(e) => spec_path_of_target(target@) == Err::<Seq<char>, ParseError>(e),
        },
{
    let tn = target.unicode_len();
    let absolute = tn >= 4 && target.get_char(0) == 'h' && target.get_char(1) == 't'
        && target.get_char(2) == 't' && target.get_char(3) == 'p';
    proof {
        if absolute {
            assert(target@.subrange(0, 4) =~= seq!['h', 't', 't', 'p']);
        } else {
            if starts_with(target@, seq!['h', 't', 't', 'p']) {
                assert(target@.subrange(0, 4)[0] == 'h');
                assert(target@.subrange(0, 4)[1] == 't');
                assert(target@.subrange(0, 4)[2] == 't');
                assert(target@.subrange(0, 4)[3] == 'p');
                assert(false);
            }
        }
    }
    if absolute {
        let s1 = scan_char(target, tn, 0, '/');
        if s1 == tn {
            return Err(ParseError::MissingPath);
        }
        let s2 = scan_char(target, tn, s1 + 1, '/');
        if s2 == tn {
            return Err(ParseError::MissingPath);
        }
        let s3 = scan_char(target, tn, s2 + 1, '/');
        if s3 == tn {
            return Err(ParseError::MissingPath);
        }
        let raw = target.substring_char(s3, tn);
        let rn = tn - s3;
        let q = scan_char(raw, rn, 0, '?');
        let path = raw.substring_char(0, q);
        Ok(path.to_owned())
    } else if tn > 0 && target.get_char(0) == '/' {
        let q = scan_char(target, tn, 0, '?');
        let path = target.substring_char(0, q);
        Ok(path.to_owned())
    } else {
        Err(ParseError::UnparseableTarget)
    }
}

/// One parsed request: the method, the literal request-target, and the
/// normalized path the router matches on. The path never holds a query, a
/// scheme or an authority.
#[derive(Debug)]
pub struct Request {
    method: Method,
    url: String,
    path: String,
}

impl View for Request {
    type V = RequestView;

    closed spec fn view(&self) -> RequestView {
        RequestView { method: self.method, url: self.url@, path: self.path@ }
    }
}

impl Request {
    /// Parse the bytes read from one connection into a request descriptor.
    ///
    /// The result is exactly what [`spec_parse`] says of the decoded text:
    /// `Ok` with the parsed view when the text holds a well-formed request
    /// line, the corresponding parse error otherwise, and
    /// `ParseError::Encoding` precisely when the buffer is not UTF-8.
    pub fn parse(buffer: &[u8]) -> (r: Result<Request, ServerError>)
        ensures
            match r {
                Ok(req) => valid_utf8(buffer@) && spec_parse(decode_utf8(buffer@))
                    == Ok::<RequestView, ParseError>(req@),
                Err(e) => match e {
                    ServerError::ParseError(pe) => if pe == ParseError::Encoding {
                        !valid_utf8(buffer@)
                    } else {
                        valid_utf8(buffer@) && spec_parse(decode_utf8(buffer@))
                            == Err::<RequestView, ParseError>(pe)
                    },
                    _ => false,
                },
            },
    {
        let s = match buffer_as_str(buffer) {
            Some(s) => s,
            None => {
                return Err(ServerError::ParseError(ParseError::Encoding));
            },
        };
        proof {
            encode_utf8_decode_utf8(s@);
        }
        let ghost text = s@;
        let n = s.unicode_len();

        // The end of the request line, and the first non-whitespace
        // character of the whole text.
        let e = scan_char(s, n, 0, '\n');
        let w = scan_non_whitespace(s, n, 0);
        proof {
            lemma_find_char_bounds(text, 0, '\n');
            lemma_find_non_whitespace_bounds(text, 0);
        }
        let ghost line = request_line(text);
        if w == n {
            proof {
                assert(all_whitespace(text));
            }
            return Err(ServerError::ParseError(ParseError::MissingRequestLine));
        }
        proof {
            assert(!is_ascii_whitespace(text[w as int]));
            assert(!all_whitespace(text));
            assert(w != e);
        }
        if w > e {
            // The first line is all whitespace, but later lines are not:
            // there is a request line, and it has no tokens.
            proof {
                lemma_find_non_whitespace_is(line, 0, e as int);
            }
            return Err(ServerError::ParseError(ParseError::MissingMethod));
        }
        proof {
            lemma_find_non_whitespace_is(line, 0, w as int);
        }

        // The method token is line[w .. m_end).
        let m_end = scan_whitespace(s, n, w);
        proof {
            lemma_find_whitespace_bounds(text, w as int);
            if m_end > e {
                assert(!is_ascii_whitespace(text[e as int]));
                assert(false);
            }
            lemma_find_whitespace_is(line, w as int, m_end as int);
            assert(line.subrange(w as int, m_end as int) =~= text.subrange(
                w as int,
                m_end as int,
            ));
        }
        let is_get = m_end - w == 3 && s.get_char(w) == 'G' && s.get_char(w + 1) == 'E'
            && s.get_char(w + 2) == 'T';
        proof {
            let token = line.subrange(w as int, m_end as int);
            if is_get {
                assert(token =~= seq!['G', 'E', 'T']);
            } else {
                if token == seq!['G', 'E', 'T'] {
                    assert(token.len() == 3);
                    assert(token[0] == 'G' && token[1] == 'E' && token[2] == 'T');
                    assert(false);
                }
            }
        }
        if !is_get {
            return Err(ServerError::ParseError(ParseError::UnknownMethod));
        }

        // The request-target is line[t_start .. t_end).
        let t_start = scan_non_whitespace(s, n, m_end);
        proof {
            lemma_find_non_whitespace_bounds(text, m_end as int);
        }
        if t_start >= e {
            proof {
                lemma_find_non_whitespace_is(line, m_end as int, e as int);
            }
            return Err(ServerError::ParseError(ParseError::MissingTarget));
        }
        proof {
            lemma_find_non_whitespace_is(line, m_end as int, t_start as int);
        }
        let t_end = scan_whitespace(s, n, t_start);
        proof {
            lemma_find_whitespace_bounds(text, t_start as int);
            if t_end > e {
                assert(!is_ascii_whitespace(text[e as int]));
                assert(false);
            }
            lemma_find_whitespace_is(line, t_start as int, t_end as int);
        }
        let target = s.substring_char(t_start, t_end);
        proof {
            assert(target@ =~= line.subrange(t_start as int, t_end as int));
        }

        match path_of_target(target) {
            Ok(path) => {
                let req = Request { method: Method::Get, url: target.to_owned(), path };
                proof {
                    assert(spec_parse(text) == Ok::<RequestView, ParseError>(req@));
                }
                Ok(req)
            },
            Err(pe) => Err(ServerError::ParseError(pe)),
        }
    }

    /// The parsed method.
    pub fn method(&self) -> (m: Method)
        ensures
            m == self@.method,
    {
        self.method
    }

    /// The literal request-target token, exactly as it stood on the wire.
    pub fn url(&self) -> (r: &str)
        ensures
            r@ == self@.url,
    {
        self.url.as_str()
    }

    /// The normalized path: the target with scheme, authority and query
    /// stripped.
    pub fn path(&self) -> (r: &str)
        ensures
            r@ == self@.path,
    {
        self.path.as_str()
    }
}

} // verus!
