//! The request decoder: request line, percent decoding, headers, body and
//! cookies, all working over a byte buffer collected from the transport.

use vstd::prelude::*;

verus! {

use crate::request::{Method, ParseError, Request};
use crate::strmap::{kv_of, map_of_pairs, StrMap};
use crate::strutil::{
    chars_eq_str, chars_of, split_at_char, split_char, split_once_at, split_once_char,
    string_from_chars, trim_chars, trim_spec, views_of,
};

/// Bytes read as characters, one character per byte.
pub open spec fn latin1(b: Seq<u8>) -> Seq<char> {
    Seq::new(b.len(), |i: int| b[i] as char)
}

/// The value of a hexadecimal digit character, upper or lower case.
pub open spec fn hex_val(c: char) -> Option<int> {
    if '0' <= c && c <= '9' {
        Some(c as int - 48)
    } else if 'a' <= c && c <= 'f' {
        Some(c as int - 87)
    } else if 'A' <= c && c <= 'F' {
        Some(c as int - 55)
    } else {
        None
    }
}

/// Percent decoding: characters are copied verbatim except `%XY` triplets,
/// which decode through two hexadecimal digits; a `%` without two valid
/// digits, or a decoded byte with its high bit set, fails.
pub open spec fn percent_decode_spec(s: Seq<char>) -> Option<Seq<char>>
    decreases s.len(),
{
    if s.len() == 0 {
        Some(Seq::<char>::empty())
    } else if s[0] != '%' {
        match percent_decode_spec(s.skip(1)) {
            None => None,
            Some(t) => Some(seq![s[0]] + t),
        }
    } else if s.len() >= 3 {
        match (hex_val(s[1]), hex_val(s[2])) {
            (Some(h), Some(l)) => if h * 16 + l <= 0x7F {
                match percent_decode_spec(s.skip(3)) {
                    None => None,
                    Some(t) => Some(seq![((h * 16 + l) as u8) as char] + t),
                }
            } else {
                None
            },
            _ => None,
        }
    } else {
        None
    }
}

/// The value of one hexadecimal digit character, as `char::to_digit` with
/// base sixteen gives it.
fn hex_digit_val(c: char) -> (r: Option<u32>)
    ensures
        match hex_val(c) {
            Some(h) => r == Some(h as u32),
            None => r is None,
        },
{
    if '0' <= c && c <= '9' {
        Some(c as u32 - 48)
    } else if 'a' <= c && c <= 'f' {
        Some(c as u32 - 87)
    } else if 'A' <= c && c <= 'F' {
        Some(c as u32 - 55)
    } else {
        None
    }
}

/// Decodes `%XY` escapes; any malformed escape, or an escape for a byte
/// outside the seven-bit range, is rejected.
pub fn percent_decoder(input: &str) -> (r: Result<String, ParseError>)
    ensures
        match percent_decode_spec(input@) {
            Some(t) => r is Ok && r->Ok_0@ == t,
            None => r == Err::<String, ParseError>(ParseError::BadRequest),
        },
{
    let cs = chars_of(input);
    match percent_decode_vec(&cs) {
        Ok(out) => Ok(string_from_chars(&out)),
        Err(e) => Err(e),
    }
}

/// The decoding loop behind [`percent_decoder`], over character vectors.
fn percent_decode_vec(cs: &Vec<char>) -> (r: Result<Vec<char>, ParseError>)
    ensures
        match percent_decode_spec(cs@) {
            Some(t) => r is Ok && r->Ok_0@ == t,
            None => r == Err::<Vec<char>, ParseError>(ParseError::BadRequest),
        },
{
    let n = cs.len();
    let mut out: Vec<char> = Vec::new();
    let mut i: usize = 0;
    proof {
        assert(cs@.skip(0) =~= cs@);
    }
    while i < n
        invariant
            n == cs@.len(),
            i <= n,
            percent_decode_spec(cs@) == (match percent_decode_spec(cs@.skip(i as int)) {
                None => None::<Seq<char>>,
                Some(t) => Some(out@ + t),
            }),
        decreases n - i,
    {
        let c = cs[i];
        if c != '%' {
            out.push(c);
            i += 1;
            proof {
                let rest = cs@.skip(i - 1);
                assert(rest[0] == c);
                assert(rest.skip(1) =~= cs@.skip(i as int));
                match percent_decode_spec(cs@.skip(i as int)) {
                    None => {},
                    Some(t) => {
                        assert(percent_decode_spec(rest) == Some(seq![c] + t));
                        assert(out@ + t =~= out@.drop_last() + (seq![c] + t));
                    },
                }
            }
        } else {
            let ghost rest = cs@.skip(i as int);
            proof {
                assert(rest[0] == '%');
            }
            if n - i <= 2 {
                proof {
                    assert(rest.len() < 3);
                    assert(percent_decode_spec(rest) is None);
                }
                return Err(ParseError::BadRequest);
            }
            let hv = hex_digit_val(cs[i + 1]);
            let lv = hex_digit_val(cs[i + 2]);
            proof {
                assert(rest[1] == cs@[i + 1] && rest[2] == cs@[i + 2]);
            }
            match (hv, lv) {
                (Some(h), Some(l)) => {
                    let byte = (h * 16 + l) as u8;
                    if byte > 0x7F {
                        proof {
                            assert(percent_decode_spec(rest) is None);
                        }
                        return Err(ParseError::BadRequest);
                    }
                    out.push(byte as char);
                    i += 3;
                    proof {
                        assert(rest.skip(3) =~= cs@.skip(i as int));
                        match percent_decode_spec(cs@.skip(i as int)) {
                            None => {},
                            Some(t) => {
                                assert(percent_decode_spec(rest) == Some(
                                    seq![byte as char] + t,
                                ));
                                assert(out@ + t =~= out@.drop_last() + (seq![byte as char] + t));
                            },
                        }
                    }
                },
                _ => {
                    proof {
                        assert(percent_decode_spec(rest) is None);
                    }
                    return Err(ParseError::BadRequest);
                },
            }
        }
    }
    proof {
        assert(cs@.skip(n as int) =~= Seq::<char>::empty());
        assert(percent_decode_spec(cs@) == Some(out@ + Seq::<char>::empty()));
        assert(out@ + Seq::<char>::empty() =~= out@);
    }
    Ok(out)
}

/// Position of the carriage return of the first CR LF pair, if any.
pub open spec fn find_crlf(b: Seq<u8>) -> Option<int>
    decreases b.len(),
{
    if b.len() < 2 {
        None
    } else if b[0] == 13 && b[1] == 10 {
        Some(0int)
    } else {
        match find_crlf(b.skip(1)) {
            None => None,
            Some(i) => Some(i + 1),
        }
    }
}

pub proof fn lemma_find_crlf(b: Seq<u8>)
    ensures
        match find_crlf(b) {
            None => forall|j: int| 0 <= j && j + 1 < b.len() ==> !(#[trigger] b[j] == 13 && b[j + 1] == 10),
            Some(i) => 0 <= i && i + 1 < b.len() && b[i] == 13 && b[i + 1] == 10 && forall|j: int|
                0 <= j < i ==> !(#[trigger] b[j] == 13 && b[j + 1] == 10),
        },
    decreases b.len(),
{
    if b.len() >= 2 && !(b[0] == 13 && b[1] == 10) {
        lemma_find_crlf(b.skip(1));
        assert(forall|j: int| 1 <= j < b.len() ==> b[j] == b.skip(1)[j - 1]);
    }
}

/// The method named by a request-line token.
pub open spec fn spec_method(t: Seq<char>) -> Option<Method> {
    if t == "GET"@ {
        Some(Method::GET)
    } else if t == "POST"@ {
        Some(Method::POST)
    } else if t == "PUT"@ {
        Some(Method::PUT)
    } else if t == "DELETE"@ {
        Some(Method::DELETE)
    } else {
        None
    }
}

/// An accepted protocol version: anything beginning `HTTP/1.`.
pub open spec fn version_ok(v: Seq<char>) -> bool {
    v.len() >= 7 && v.take(7) == "HTTP/1."@
}

/// One `key=value` piece of a query string; a piece without `=` names a key
/// with an empty value, and text after a second `=` is dropped.
pub open spec fn query_pair(piece: Seq<char>) -> (Seq<char>, Seq<char>) {
    let parts = split_at_char(piece, '=');
    if parts.len() <= 1 {
        (parts[0], Seq::<char>::empty())
    } else {
        (parts[0], parts[1])
    }
}

/// The map read from a decoded query string: split on `&`, then each piece
/// on `=`; a later duplicate key wins.
pub open spec fn query_map_of(decoded: Seq<char>) -> Map<Seq<char>, Seq<char>> {
    map_of_pairs(split_at_char(decoded, '&').map_values(|p: Seq<char>| query_pair(p)))
}

/// What the request line decodes to.
pub ghost struct RequestLine {
    pub method: Method,
    pub path: Seq<char>,
    pub version: Seq<char>,
    pub query: Map<Seq<char>, Seq<char>>,
}

/// The request line decoded from the buffer prefix: everything up to the
/// first CR LF, split on spaces into method, target and version. The
/// returned offset sits just past the line's LF.
pub open spec fn spec_parse_request(b: Seq<u8>) -> Option<(int, RequestLine)> {
    match find_crlf(b) {
        None => None,
        Some(cr) => {
            let line = latin1(b.take(cr));
            let tokens = split_at_char(line, ' ');
            if tokens.len() < 3 {
                None
            } else {
                match spec_method(tokens[0]) {
                    None => None,
                    Some(m) => {
                        let target = tokens[1];
                        let version = trim_spec(tokens[2]);
                        match split_once_at(target, '?') {
                            None => if target.len() == 0 || !version_ok(version) {
                                None
                            } else {
                                Some(
                                    (
                                        cr + 2,
                                        RequestLine {
                                            method: m,
                                            path: target,
                                            version: version,
                                            query: Map::<Seq<char>, Seq<char>>::empty(),
                                        },
                                    ),
                                )
                            },
                            Some((path, qs)) => if path.len() == 0 || !version_ok(version) {
                                None
                            } else {
                                match percent_decode_spec(qs) {
                                    None => None,
                                    Some(d) => Some(
                                        (
                                            cr + 2,
                                            RequestLine {
                                                method: m,
                                                path: path,
                                                version: version,
                                                query: query_map_of(d),
                                            },
                                        ),
                                    ),
                                }
                            },
                        }
                    },
                }
            }
        },
    }
}

/// Reads the bytes of a buffer range as characters.
fn latin1_vec(b: &Vec<u8>, from: usize, to: usize) -> (r: Vec<char>)
    requires
        from <= to <= b@.len(),
    ensures
        r@ == latin1(b@.subrange(from as int, to as int)),
{
    let mut r: Vec<char> = Vec::new();
    let mut i: usize = from;
    while i < to
        invariant
            from <= i <= to <= b@.len(),
            r@ == latin1(b@.subrange(from as int, to as int)).take(i - from),
        decreases to - i,
    {
        r.push(b[i] as char);
        i += 1;
        proof {
            assert(r@ =~= latin1(b@.subrange(from as int, to as int)).take(i - from));
        }
    }
    proof {
        assert(r@ =~= latin1(b@.subrange(from as int, to as int)));
    }
    r
}

/// Builds the query map from a decoded query string.
fn build_query_map(decoded: &Vec<char>) -> (r: StrMap)
    ensures
        r@ == query_map_of(decoded@),
        r.wf(),
{
    let ghost mapped = split_at_char(decoded@, '&').map_values(|p: Seq<char>| query_pair(p));
    let pieces = split_char(decoded, '&');
    let n = pieces.len();
    let mut q = StrMap::new();
    let mut i: usize = 0;
    proof {
        assert(mapped.take(0) =~= Seq::<(Seq<char>, Seq<char>)>::empty());
    }
    while i < n
        invariant
            n == pieces@.len(),
            i <= n,
            views_of(pieces@) == split_at_char(decoded@, '&'),
            mapped == split_at_char(decoded@, '&').map_values(|p: Seq<char>| query_pair(p)),
            q@ == map_of_pairs(mapped.take(i as int)),
            q.wf(),
        decreases n - i,
    {
        let piece = &pieces[i];
        proof {
            assert(piece@ == views_of(pieces@)[i as int]);
        }
        let parts = split_char(piece, '=');
        proof {
            assert(views_of(parts@)[0] == parts@[0]@);
        }
        let key = string_from_chars(&parts[0]);
        let val = if parts.len() <= 1 {
            String::new()
        } else {
            proof {
                assert(views_of(parts@)[1] == parts@[1]@);
            }
            string_from_chars(&parts[1])
        };
        proof {
            assert(mapped[i as int] == query_pair(piece@));
            assert((key@, val@) == query_pair(piece@));
        }
        q.insert(key, val);
        i += 1;
        proof {
            assert(mapped.take(i as int).drop_last() =~= mapped.take(i - 1));
            assert(mapped.take(i as int).last() == mapped[i - 1]);
            assert(q@ == map_of_pairs(mapped.take(i as int)));
        }
    }
    proof {
        assert(mapped.take(n as int) =~= mapped);
    }
    q
}

/// Decodes the request line from the front of the buffer. On success the
/// returned offset is just past the line's terminating LF, and the request
/// holds the decoded method, path, version and query, with empty headers,
/// empty body and no cookies.
pub fn parse_request(bytes: &Vec<u8>) -> (r: Result<(usize, Request), ParseError>)
    ensures
        match spec_parse_request(bytes@) {
            Some(parsed) => match r {
                Ok((off, req)) => {
                    &&& off as int == parsed.0
                    &&& off <= bytes@.len()
                    &&& req@.method == parsed.1.method
                    &&& req@.path == parsed.1.path
                    &&& req@.version == parsed.1.version
                    &&& req@.query == parsed.1.query
                    &&& req@.headers == Map::<Seq<char>, Seq<char>>::empty()
                    &&& req@.body == Seq::<u8>::empty()
                    &&& req@.cookies is None
                    &&& req.wf()
                },
                Err(_) => false,
            },
            None => r == Err::<(usize, Request), ParseError>(ParseError::BadRequest),
        },
{
    let n = bytes.len();
    let mut cr: usize = 0;
    let mut found = false;
    let mut i: usize = 0;
    while !found && n - i >= 2
        invariant
            n == bytes@.len(),
            i <= n,
            !found ==> forall|j: int| 0 <= j < i ==> !(#[trigger] bytes@[j] == 13 && bytes@[j + 1] == 10),
            found ==> cr as int + 1 < n && bytes@[cr as int] == 13 && bytes@[cr as int + 1] == 10
                && (forall|j: int| 0 <= j < cr ==> !(#[trigger] bytes@[j] == 13 && bytes@[j + 1] == 10)),
        decreases n - i, (if found { 0int } else { 1int }),
    {
        if bytes[i] == 13 && bytes[i + 1] == 10 {
            cr = i;
            found = true;
        } else {
            i += 1;
        }
    }
    proof {
        lemma_find_crlf(bytes@);
    }
    if !found {
        proof {
            if find_crlf(bytes@) is Some {
                let f = find_crlf(bytes@)->Some_0;
                assert(!(bytes@[f] == 13 && bytes@[f + 1] == 10));
                assert(false);
            }
        }
        return Err(ParseError::BadRequest);
    }
    proof {
        if find_crlf(bytes@) is None {
            assert(!(bytes@[cr as int] == 13 && bytes@[cr as int + 1] == 10));
            assert(false);
        }
        let f = find_crlf(bytes@)->Some_0;
        if f < cr as int {
            assert(!(bytes@[f] == 13 && bytes@[f + 1] == 10));
            assert(false);
        }
        if f > cr as int {
            assert(!(bytes@[cr as int] == 13 && bytes@[cr as int + 1] == 10));
            assert(false);
        }
        assert(f == cr as int);
    }
    let line = latin1_vec(bytes, 0, cr);
    proof {
        assert(bytes@.subrange(0, cr as int) =~= bytes@.take(cr as int));
    }
    let tokens = split_char(&line, ' ');
    if tokens.len() < 3 {
        return Err(ParseError::BadRequest);
    }
    let ghost stokens = split_at_char(latin1(bytes@.take(cr as int)), ' ');
    proof {
        assert(stokens[0] == tokens@[0]@ && stokens[1] == tokens@[1]@ && stokens[2]
            == tokens@[2]@);
    }
    let method = if chars_eq_str(&tokens[0], "GET") {
        Method::GET
    } else if chars_eq_str(&tokens[0], "POST") {
        Method::POST
    } else if chars_eq_str(&tokens[0], "PUT") {
        Method::PUT
    } else if chars_eq_str(&tokens[0], "DELETE") {
        Method::DELETE
    } else {
        proof {
            assert(spec_method(stokens[0]) is None);
        }
        return Err(ParseError::BadRequest);
    };
    proof {
        assert(spec_method(stokens[0]) == Some(method));
    }
    let version_chars = trim_chars(&tokens[2]);
    let version_valid = if version_chars.len() >= 7 {
        let mut prefix: Vec<char> = Vec::new();
        let mut k: usize = 0;
        while k < 7
            invariant
                k <= 7 <= version_chars@.len(),
                prefix@ == version_chars@.take(k as int),
            decreases 7 - k,
        {
            prefix.push(version_chars[k]);
            k += 1;
            proof {
                assert(prefix@ =~= version_chars@.take(k as int));
            }
        }
        chars_eq_str(&prefix, "HTTP/1.")
    } else {
        false
    };
    proof {
        assert(version_valid == version_ok(version_chars@));
    }
    let target = &tokens[1];
    match split_once_char(target, '?') {
        None => {
            if target.len() == 0 || !version_valid {
                return Err(ParseError::BadRequest);
            }
            let req = Request {
                method,
                path: string_from_chars(target),
                version: string_from_chars(&version_chars),
                query: StrMap::new(),
                headers: StrMap::new(),
                body: Vec::new(),
                cookies: None,
            };
            proof {
                assert(req.body@ =~= Seq::<u8>::empty());
            }
            Ok((cr + 2, req))
        },
        Some((path_chars, qs_chars)) => {
            if path_chars.len() == 0 || !version_valid {
                return Err(ParseError::BadRequest);
            }
            match percent_decode_vec(&qs_chars) {
                Err(e) => Err(e),
                Ok(decoded) => {
                    let query = build_query_map(&decoded);
                    let req = Request {
                        method,
                        path: string_from_chars(&path_chars),
                        version: string_from_chars(&version_chars),
                        query,
                        headers: StrMap::new(),
                        body: Vec::new(),
                        cookies: None,
                    };
                    proof {
                        assert(req.body@ =~= Seq::<u8>::empty());
                    }
                    Ok((cr + 2, req))
                },
            }
        },
    }
}

/// The end-of-headers terminator CR LF CR LF fills positions `e - 4 .. e`,
/// wholly inside the region that starts at `from`.
pub open spec fn terminator_at(b: Seq<u8>, from: int, e: int) -> bool {
    &&& from + 4 <= e <= b.len()
    &&& b[e - 4] == 13
    &&& b[e - 3] == 10
    &&& b[e - 2] == 13
    &&& b[e - 1] == 10
}

/// The first position at or after `e` where the terminator ends; the end of
/// the buffer when no terminator follows.
pub open spec fn header_stop_from(b: Seq<u8>, from: int, e: int) -> int
    decreases b.len() - e,
{
    if terminator_at(b, from, e) {
        e
    } else if e >= b.len() {
        b.len() as int
    } else {
        header_stop_from(b, from, e + 1)
    }
}

/// Where header collection stops: at the first CR LF CR LF after `from`,
/// or at the end of the buffer if none arrives.
pub open spec fn headers_end(b: Seq<u8>, from: int) -> int {
    if from + 4 <= b.len() {
        header_stop_from(b, from, from + 4)
    } else {
        b.len() as int
    }
}

/// One header line, split once on the first `": "`: the name is the text
/// before it and the value everything after it. A line without that exact
/// substring carries no header and is skipped.
pub open spec fn header_pair(line: Seq<char>) -> Option<(Seq<char>, Seq<char>)> {
    crate::strutil::split_once_at2(line, ':', ' ')
}

/// The header pairs read from a sequence of lines, in order.
pub open spec fn header_pairs(lines: Seq<Seq<char>>) -> Seq<(Seq<char>, Seq<char>)>
    decreases lines.len(),
{
    if lines.len() == 0 {
        Seq::<(Seq<char>, Seq<char>)>::empty()
    } else {
        header_pairs(lines.drop_last()) + (match header_pair(lines.last()) {
            Some(p) => seq![p],
            None => Seq::<(Seq<char>, Seq<char>)>::empty(),
        })
    }
}

/// The header map read from the collected header block: lines split on
/// CR LF, each line split once on `": "`, a later duplicate name winning.
pub open spec fn headers_map_of(collected: Seq<char>) -> Map<Seq<char>, Seq<char>> {
    map_of_pairs(header_pairs(crate::strutil::split_at_str2(collected, '\r', '\n')))
}

/// Appending one pair to the entry list inserts it into the map.
proof fn lemma_map_pairs_snoc(ps: Seq<(Seq<char>, Seq<char>)>, p: (Seq<char>, Seq<char>))
    ensures
        map_of_pairs(ps + seq![p]) == map_of_pairs(ps).insert(p.0, p.1),
{
    let w = ps + seq![p];
    assert(w.drop_last() =~~= ps);
    assert(w.last() == p);
}

/// Consumes header bytes from `*idx` until just past the CR LF CR LF
/// terminator (or to the end of the buffer if it never appears), and
/// returns the header map read from those bytes.
pub fn generate_headers(buffer: &Vec<u8>, idx: &mut usize) -> (r: StrMap)
    requires
        *old(idx) <= buffer@.len(),
    ensures
        *final(idx) == headers_end(buffer@, *old(idx) as int),
        *old(idx) <= *final(idx) <= buffer@.len(),
        r@ == headers_map_of(latin1(buffer@.subrange(*old(idx) as int, *final(idx) as int))),
        r.wf(),
{
    let n = buffer.len();
    let from = *idx;
    let mut stop: usize = n;
    if n - from >= 4 {
        let mut e: usize = from + 4;
        while !(buffer[e - 4] == 13 && buffer[e - 3] == 10 && buffer[e - 2] == 13 && buffer[e - 1]
            == 10) && e < n
            invariant
                from + 4 <= e <= n,
                n == buffer@.len(),
                header_stop_from(buffer@, from as int, from as int + 4) == header_stop_from(
                    buffer@,
                    from as int,
                    e as int,
                ),
            decreases n - e,
        {
            e += 1;
        }
        if buffer[e - 4] == 13 && buffer[e - 3] == 10 && buffer[e - 2] == 13 && buffer[e - 1]
            == 10 {
            proof {
                assert(terminator_at(buffer@, from as int, e as int));
            }
            stop = e;
        } else {
            proof {
                assert(e == n);
                assert(header_stop_from(buffer@, from as int, e as int) == n);
            }
            stop = n;
        }
    }
    *idx = stop;
    let collected = latin1_vec(buffer, from, stop);
    let lines = crate::strutil::split_str2(&collected, '\r', '\n');
    let ghost line_views = crate::strutil::split_at_str2(collected@, '\r', '\n');
    let mut m = StrMap::new();
    let mut i: usize = 0;
    proof {
        assert(header_pairs(line_views.take(0)) =~~= Seq::<(Seq<char>, Seq<char>)>::empty());
    }
    let k = lines.len();
    while i < k
        invariant
            k == lines@.len(),
            i <= k,
            views_of(lines@) == line_views,
            m@ == map_of_pairs(header_pairs(line_views.take(i as int))),
            m.wf(),
        decreases k - i,
    {
        let line = &lines[i];
        proof {
            assert(line@ == line_views[i as int]);
            assert(line_views.take(i + 1).drop_last() =~~= line_views.take(i as int));
            assert(line_views.take(i + 1).last() == line_views[i as int]);
        }
        match crate::strutil::split_once_str2(line, ':', ' ') {
            Some((name, value)) => {
                proof {
                    assert(header_pair(line@) == Some((name@, value@)));
                    lemma_map_pairs_snoc(header_pairs(line_views.take(i as int)), (name@, value@));
                    assert(header_pairs(line_views.take(i + 1)) =~~= header_pairs(
                        line_views.take(i as int),
                    ) + seq![(name@, value@)]);
                }
                let key = string_from_chars(&name);
                let val = string_from_chars(&value);
                m.insert(key, val);
            },
            None => {
                proof {
                    assert(header_pair(line@) is None);
                    assert(header_pairs(line_views.take(i + 1)) =~~= header_pairs(
                        line_views.take(i as int),
                    ));
                }
            },
        }
        i += 1;
    }
    proof {
        assert(line_views.take(k as int) =~~= line_views);
    }
    m
}

/// Where the body ends: `Content-Length` bytes past the offset, clipped to
/// what actually arrived. A missing length means an empty body; a length
/// that does not parse counts as zero.
pub open spec fn body_slice(b: Seq<u8>, idx: int, length: Option<Seq<char>>) -> Seq<u8> {
    match length {
        None => Seq::<u8>::empty(),
        Some(s) => {
            let n = match crate::strutil::parse_dec_spec(s) {
                Some(v) => if v <= usize::MAX {
                    v as int
                } else {
                    0
                },
                None => 0,
            };
            let end = if idx + n >= b.len() {
                b.len() as int
            } else {
                idx + n
            };
            b.subrange(idx, end)
        },
    }
}

/// Slices the body out of the buffer, truncating to the bytes present when
/// the declared length runs past the end.
pub fn generate_body(length: Option<&String>, buffer: &Vec<u8>, idx: usize) -> (r: Vec<u8>)
    requires
        idx <= buffer@.len(),
    ensures
        r@ == body_slice(
            buffer@,
            idx as int,
            match length {
                Some(s) => Some(s@),
                None => None,
            },
        ),
{
    match length {
        None => {
            let r: Vec<u8> = Vec::new();
            proof {
                assert(r@ =~= Seq::<u8>::empty());
            }
            r
        },
        Some(s) => {
            let cs = chars_of(s.as_str());
            let n: usize = match crate::strutil::parse_usize_chars(&cs) {
                Some(v) => v,
                None => 0,
            };
            let end: usize = if n >= buffer.len() - idx {
                buffer.len()
            } else {
                idx + n
            };
            let mut r: Vec<u8> = Vec::new();
            let mut i: usize = idx;
            while i < end
                invariant
                    idx <= i <= end <= buffer@.len(),
                    r@ == buffer@.subrange(idx as int, i as int),
                decreases end - i,
            {
                r.push(buffer[i]);
                i += 1;
                proof {
                    assert(r@ =~= buffer@.subrange(idx as int, i as int));
                }
            }
            proof {
                assert(r@ =~= buffer@.subrange(idx as int, end as int));
            }
            r
        },
    }
}

/// One `;`-separated cookie entry: trimmed, split once on `=`, both sides
/// trimmed again. An entry without `=` carries no cookie.
pub open spec fn cookie_pair(piece: Seq<char>) -> Option<(Seq<char>, Seq<char>)> {
    match split_once_at(trim_spec(piece), '=') {
        Some((a, b)) => Some((trim_spec(a), trim_spec(b))),
        None => None,
    }
}

/// The cookie pairs of a `Cookie` header value, in order.
pub open spec fn cookie_pairs(pieces: Seq<Seq<char>>) -> Seq<(Seq<char>, Seq<char>)>
    decreases pieces.len(),
{
    if pieces.len() == 0 {
        Seq::<(Seq<char>, Seq<char>)>::empty()
    } else {
        cookie_pairs(pieces.drop_last()) + (match cookie_pair(pieces.last()) {
            Some(p) => seq![p],
            None => Seq::<(Seq<char>, Seq<char>)>::empty(),
        })
    }
}

/// The cookie map of a `Cookie` header value.
pub open spec fn cookies_map_of(value: Seq<char>) -> Map<Seq<char>, Seq<char>> {
    map_of_pairs(cookie_pairs(split_at_char(value, ';')))
}

/// Reads the cookie map from the request's `Cookie` header; a request
/// without that header has an empty cookie map.
pub fn generate_cookies(req: &Request) -> (r: StrMap)
    requires
        req.headers.wf(),
    ensures
        match req@.headers.contains_key("Cookie"@) {
            true => r@ == cookies_map_of(req@.headers["Cookie"@]),
            false => r@ == Map::<Seq<char>, Seq<char>>::empty(),
        },
        r.wf(),
{
    let mut m = StrMap::new();
    let header = req.headers.get("Cookie");
    match header {
        None => m,
        Some(value) => {
            let vc = chars_of(value.as_str());
            let pieces = split_char(&vc, ';');
            let ghost piece_views = split_at_char(vc@, ';');
            let mut i: usize = 0;
            let k = pieces.len();
            proof {
                assert(cookie_pairs(piece_views.take(0)) =~~= Seq::<(Seq<char>, Seq<char>)>::empty());
            }
            while i < k
                invariant
                    k == pieces@.len(),
                    i <= k,
                    views_of(pieces@) == piece_views,
                    m@ == map_of_pairs(cookie_pairs(piece_views.take(i as int))),
                    m.wf(),
                decreases k - i,
            {
                let piece = &pieces[i];
                proof {
                    assert(piece@ == piece_views[i as int]);
                    assert(piece_views.take(i + 1).drop_last() =~~= piece_views.take(i as int));
                    assert(piece_views.take(i + 1).last() == piece_views[i as int]);
                }
                let trimmed = trim_chars(piece);
                match split_once_char(&trimmed, '=') {
                    Some((a, b)) => {
                        let key_chars = trim_chars(&a);
                        let val_chars = trim_chars(&b);
                        proof {
                            assert(cookie_pair(piece@) == Some((key_chars@, val_chars@)));
                            lemma_map_pairs_snoc(
                                cookie_pairs(piece_views.take(i as int)),
                                (key_chars@, val_chars@),
                            );
                            assert(cookie_pairs(piece_views.take(i + 1)) =~~= cookie_pairs(
                                piece_views.take(i as int),
                            ) + seq![(key_chars@, val_chars@)]);
                        }
                        let key = string_from_chars(&key_chars);
                        let val = string_from_chars(&val_chars);
                        m.insert(key, val);
                    },
                    None => {
                        proof {
                            assert(cookie_pair(piece@) is None);
                            assert(cookie_pairs(piece_views.take(i + 1)) =~~= cookie_pairs(
                                piece_views.take(i as int),
                            ));
                        }
                    },
                }
                i += 1;
            }
            proof {
                assert(piece_views.take(k as int) =~~= piece_views);
            }
            m
        },
    }
}

/// Text that a query string can carry verbatim: free of the separators
/// and of the escape character.
pub open spec fn benign_text(s: Seq<char>) -> bool {
    !s.contains('&') && !s.contains('=') && !s.contains('%')
}

/// One query pair written out as `key=value`.
pub open spec fn encode_pair(p: (Seq<char>, Seq<char>)) -> Seq<char> {
    p.0 + seq!['='] + p.1
}

/// A query string written out from pairs, joined with `&`.
pub open spec fn encode_query(pairs: Seq<(Seq<char>, Seq<char>)>) -> Seq<char>
    decreases pairs.len(),
{
    if pairs.len() == 0 {
        Seq::<char>::empty()
    } else if pairs.len() == 1 {
        encode_pair(pairs[0])
    } else {
        encode_pair(pairs[0]) + seq!['&'] + encode_query(pairs.drop_first())
    }
}

/// A sequence made of two pieces misses a character both pieces miss.
proof fn lemma_concat_not_contains(a: Seq<char>, b: Seq<char>, c: char)
    requires
        !a.contains(c),
        !b.contains(c),
    ensures
        !(a + b).contains(c),
{
    if (a + b).contains(c) {
        let i = choose|i: int| 0 <= i < (a + b).len() && (a + b)[i] == c;
        if i < a.len() {
            assert(a[i] == c);
        } else {
            assert(b[i - a.len()] == c);
        }
    }
}

proof fn lemma_encode_pair_benign(p: (Seq<char>, Seq<char>), c: char)
    requires
        !p.0.contains(c),
        !p.1.contains(c),
        c != '=',
    ensures
        !encode_pair(p).contains(c),
{
    assert(!seq!['='].contains(c)) by {
        if seq!['='].contains(c) {
            let i = choose|i: int| 0 <= i < 1 && seq!['='][i] == c;
        }
    }
    lemma_concat_not_contains(p.0, seq!['='], c);
    lemma_concat_not_contains(p.0 + seq!['='], p.1, c);
}

proof fn lemma_encode_query_no_percent(pairs: Seq<(Seq<char>, Seq<char>)>)
    requires
        forall|i: int|
            0 <= i < pairs.len() ==> benign_text((#[trigger] pairs[i]).0) && benign_text(
                pairs[i].1,
            ),
    ensures
        !encode_query(pairs).contains('%'),
    decreases pairs.len(),
{
    if pairs.len() == 0 {
        if encode_query(pairs).contains('%') {
            let i = choose|i: int|
                0 <= i < encode_query(pairs).len() && encode_query(pairs)[i] == '%';
        }
    } else if pairs.len() == 1 {
        lemma_encode_pair_benign(pairs[0], '%');
    } else {
        lemma_encode_pair_benign(pairs[0], '%');
        assert(forall|i: int|
            0 <= i < pairs.drop_first().len() ==> #[trigger] pairs.drop_first()[i] == pairs[i
                + 1]);
        lemma_encode_query_no_percent(pairs.drop_first());
        assert(!seq!['&'].contains('%')) by {
            if seq!['&'].contains('%') {
                let i = choose|i: int| 0 <= i < 1 && seq!['&'][i] == '%';
            }
        }
        lemma_concat_not_contains(encode_pair(pairs[0]), seq!['&'], '%');
        lemma_concat_not_contains(
            encode_pair(pairs[0]) + seq!['&'],
            encode_query(pairs.drop_first()),
            '%',
        );
    }
}

/// Text without the escape character decodes to itself.
proof fn lemma_percent_decode_benign(s: Seq<char>)
    requires
        !s.contains('%'),
    ensures
        percent_decode_spec(s) == Some(s),
    decreases s.len(),
{
    if s.len() > 0 {
        if s[0] == '%' {
            assert(s.contains('%'));
        }
        assert(!s.skip(1).contains('%')) by {
            if s.skip(1).contains('%') {
                let i = choose|i: int| 0 <= i < s.skip(1).len() && s.skip(1)[i] == '%';
                assert(s[i + 1] == '%');
            }
        }
        lemma_percent_decode_benign(s.skip(1));
        assert(seq![s[0]] + s.skip(1) =~= s);
    }
}

/// A benign pair survives the split on `=` unchanged.
proof fn lemma_query_pair_encode(p: (Seq<char>, Seq<char>))
    requires
        benign_text(p.0),
        benign_text(p.1),
    ensures
        query_pair(encode_pair(p)) == p,
{
    assert(forall|i: int| 0 <= i < p.0.len() ==> p.0[i] != '=') by {
        assert forall|i: int| 0 <= i < p.0.len() implies p.0[i] != '=' by {
            if p.0[i] == '=' {
                assert(p.0.contains('='));
            }
        }
    }
    assert(forall|i: int| 0 <= i < p.1.len() ==> p.1[i] != '=') by {
        assert forall|i: int| 0 <= i < p.1.len() implies p.1[i] != '=' by {
            if p.1[i] == '=' {
                assert(p.1.contains('='));
            }
        }
    }
    crate::strutil::lemma_split_no_sep(p.1, '=');
    crate::strutil::lemma_split_head(p.0, p.1, '=');
    assert(p.0 + seq!['='] + p.1 == encode_pair(p));
    assert(split_at_char(encode_pair(p), '=') == seq![p.0] + seq![p.1]);
    assert((seq![p.0] + seq![p.1]).len() == 2);
    assert((seq![p.0] + seq![p.1])[0] == p.0 && (seq![p.0] + seq![p.1])[1] == p.1);
}

/// Splitting the written-out query on `&` recovers the written-out pairs.
proof fn lemma_split_encode(pairs: Seq<(Seq<char>, Seq<char>)>)
    requires
        pairs.len() >= 1,
        forall|i: int|
            0 <= i < pairs.len() ==> benign_text((#[trigger] pairs[i]).0) && benign_text(
                pairs[i].1,
            ),
    ensures
        split_at_char(encode_query(pairs), '&') == pairs.map_values(
            |p: (Seq<char>, Seq<char>)| encode_pair(p),
        ),
    decreases pairs.len(),
{
    let m = pairs.map_values(|p: (Seq<char>, Seq<char>)| encode_pair(p));
    lemma_encode_pair_benign(pairs[0], '&');
    assert(forall|i: int| 0 <= i < encode_pair(pairs[0]).len() ==> encode_pair(pairs[0])[i]
        != '&') by {
        assert forall|i: int|
            0 <= i < encode_pair(pairs[0]).len() implies encode_pair(pairs[0])[i] != '&' by {
            if encode_pair(pairs[0])[i] == '&' {
                assert(encode_pair(pairs[0]).contains('&'));
            }
        }
    }
    if pairs.len() == 1 {
        crate::strutil::lemma_split_no_sep(encode_pair(pairs[0]), '&');
        assert(split_at_char(encode_query(pairs), '&') =~~= m);
    } else {
        let rest = pairs.drop_first();
        assert(forall|i: int| 0 <= i < rest.len() ==> #[trigger] rest[i] == pairs[i + 1]);
        lemma_split_encode(rest);
        crate::strutil::lemma_split_head(encode_pair(pairs[0]), encode_query(rest), '&');
        assert(split_at_char(encode_query(pairs), '&') == seq![encode_pair(pairs[0])]
            + split_at_char(encode_query(rest), '&'));
        assert(split_at_char(encode_query(pairs), '&') =~~= m);
    }
}

/// A character that can stand in a request line's target without ending a
/// token or the line.
pub open spec fn target_safe_char(c: char) -> bool {
    c != ' ' && c != '?' && c != '\r' && c != '\n'
}

/// Text that can stand in a request line's target verbatim.
pub open spec fn target_safe(s: Seq<char>) -> bool {
    forall|i: int| 0 <= i < s.len() ==> target_safe_char(#[trigger] s[i])
}

/// A written-out query inherits target safety from its pairs: the
/// separators it adds are target-safe themselves.
proof fn lemma_encode_query_safe(pairs: Seq<(Seq<char>, Seq<char>)>)
    requires
        forall|i: int|
            0 <= i < pairs.len() ==> target_safe((#[trigger] pairs[i]).0) && target_safe(
                pairs[i].1,
            ),
    ensures
        target_safe(encode_query(pairs)),
    decreases pairs.len(),
{
    if pairs.len() == 1 {
        let e = encode_pair(pairs[0]);
        assert forall|i: int| 0 <= i < e.len() implies target_safe_char(#[trigger] e[i]) by {
            let p = pairs[0];
            if i < p.0.len() {
                assert(e[i] == p.0[i]);
            } else if i == p.0.len() {
                assert(e[i] == '=');
            } else {
                assert(e[i] == p.1[i - p.0.len() - 1]);
            }
        }
    } else if pairs.len() > 1 {
        let rest = pairs.drop_first();
        assert(forall|i: int| 0 <= i < rest.len() ==> #[trigger] rest[i] == pairs[i + 1]);
        lemma_encode_query_safe(rest);
        let ep = encode_pair(pairs[0]);
        let e = encode_query(pairs);
        assert forall|i: int| 0 <= i < ep.len() implies target_safe_char(#[trigger] ep[i]) by {
            let p = pairs[0];
            if i < p.0.len() {
                assert(ep[i] == p.0[i]);
            } else if i == p.0.len() {
                assert(ep[i] == '=');
            } else {
                assert(ep[i] == p.1[i - p.0.len() - 1]);
            }
        }
        assert forall|i: int| 0 <= i < e.len() implies target_safe_char(#[trigger] e[i]) by {
            if i < ep.len() {
                assert(e[i] == ep[i]);
            } else if i == ep.len() {
                assert(e[i] == '&');
            } else {
                assert(e[i] == encode_query(rest)[i - ep.len() - 1]);
            }
        }
    }
}

/// The byte-level round trip: a request line built as
/// `GET <path>?<query> HTTP/1.1` followed by CR LF, with the query written
/// out from benign, target-safe pairs with distinct keys, decodes; the
/// decoded method, path and version are the ones written, the offset sits
/// at the end of the line, and the query map holds exactly the written
/// pairs, independent of their order.
pub proof fn lemma_request_line_round_trip(
    b: Seq<u8>,
    path: Seq<char>,
    pairs: Seq<(Seq<char>, Seq<char>)>,
)
    requires
        pairs.len() >= 1,
        crate::strmap::unique_keys(pairs),
        forall|i: int|
            0 <= i < pairs.len() ==> benign_text((#[trigger] pairs[i]).0) && benign_text(
                pairs[i].1,
            ),
        forall|i: int|
            0 <= i < pairs.len() ==> target_safe((#[trigger] pairs[i]).0) && target_safe(
                pairs[i].1,
            ),
        path.len() > 0,
        target_safe(path),
        latin1(b) == "GET "@ + path + seq!['?'] + encode_query(pairs) + " HTTP/1.1\r\n"@,
    ensures
        spec_parse_request(b) is Some,
        spec_parse_request(b)->Some_0.0 == b.len(),
        spec_parse_request(b)->Some_0.1.method == Method::GET,
        spec_parse_request(b)->Some_0.1.path == path,
        spec_parse_request(b)->Some_0.1.version == "HTTP/1.1"@,
        spec_parse_request(b)->Some_0.1.query == map_of_pairs(pairs),
{
    reveal_strlit("GET ");
    reveal_strlit("GET");
    reveal_strlit(" HTTP/1.1\r\n");
    reveal_strlit(" HTTP/1.1");
    reveal_strlit("HTTP/1.1");
    reveal_strlit("HTTP/1.");
    let qs = encode_query(pairs);
    let target = path + seq!['?'] + qs;
    let lat = latin1(b);
    let big = b.len() as int;
    lemma_encode_query_safe(pairs);
    assert(lat.len() == b.len());
    assert(big == 4 + path.len() + 1 + qs.len() + 11);
    let cr = big - 2;
    // Every character before the final CR LF differs from CR, so the
    // first CR LF pair sits exactly at the line's end.
    assert forall|j: int| 0 <= j < cr implies lat[j] != '\r' by {
        if j < 4 {
            assert(lat[j] == "GET "@[j]);
        } else if j < 4 + path.len() {
            assert(lat[j] == path[j - 4]);
        } else if j == 4 + path.len() {
            assert(lat[j] == '?');
        } else if j < 4 + path.len() + 1 + qs.len() {
            assert(lat[j] == qs[j - 4 - path.len() - 1]);
        } else {
            assert(lat[j] == " HTTP/1.1\r\n"@[j - (big - 11)]);
        }
    }
    assert(lat[cr] == " HTTP/1.1\r\n"@[9] && lat[cr + 1] == " HTTP/1.1\r\n"@[10]);
    assert(b[cr] == 13 && b[cr + 1] == 10) by {
        assert(b[cr] as char == '\r' && b[cr + 1] as char == '\n');
        assert((b[cr] as char) as u8 == b[cr] && (b[cr + 1] as char) as u8 == b[cr + 1]);
        assert('\r' as u8 == 13 && '\n' as u8 == 10);
    }
    lemma_find_crlf(b);
    match find_crlf(b) {
        None => {
            assert(!(b[cr] == 13 && b[cr + 1] == 10));
            assert(false);
        },
        Some(f) => {
            if f < cr {
                assert(b[f] as char == lat[f]);
                assert(lat[f] == '\r') by {
                    assert(b[f] == 13);
                    assert(13u8 as char == '\r');
                }
                assert(false);
            }
            if f > cr {
                assert(!(b[cr] == 13 && b[cr + 1] == 10));
                assert(false);
            }
            assert(f == cr);
        },
    }
    let reqline = latin1(b.take(cr));
    assert(reqline =~= lat.take(cr));
    // Token split: the two spaces around the target cut the line into
    // exactly the method, the target and the version.
    let ver = "HTTP/1.1"@;
    assert(lat.take(cr) =~= "GET"@ + seq![' '] + (target + seq![' '] + ver));
    assert(forall|i: int| 0 <= i < "GET"@.len() ==> "GET"@[i] != ' ');
    assert forall|i: int| 0 <= i < target.len() implies target[i] != ' ' by {
        if i < path.len() {
            assert(target[i] == path[i]);
        } else if i == path.len() {
            assert(target[i] == '?');
        } else {
            assert(target[i] == qs[i - path.len() - 1]);
        }
    }
    assert(forall|i: int| 0 <= i < ver.len() ==> ver[i] != ' ');
    crate::strutil::lemma_split_no_sep(ver, ' ');
    crate::strutil::lemma_split_head(target, ver, ' ');
    crate::strutil::lemma_split_head("GET"@, target + seq![' '] + ver, ' ');
    let tokens = split_at_char(reqline, ' ');
    assert(tokens =~~= seq!["GET"@, target, ver]) by {
        assert(split_at_char(target + seq![' '] + ver, ' ') == seq![target] + split_at_char(
            ver,
            ' ',
        ));
        assert(seq![target] + seq![ver] =~~= seq![target, ver]);
        assert(tokens == seq!["GET"@] + seq![target, ver]);
    }
    assert(spec_method(tokens[0]) == Some(Method::GET));
    // The one question mark cuts the target into the path and the query.
    crate::strutil::lemma_find_first(target, '?');
    match crate::strutil::find_first(target, '?') {
        None => {
            assert(target[path.len() as int] != '?');
            assert(false);
        },
        Some(f) => {
            if f < path.len() {
                assert(target[f] == path[f]);
                assert(false);
            }
            if f > path.len() {
                assert(target[path.len() as int] != '?');
                assert(false);
            }
            assert(f == path.len() as int);
        },
    }
    assert(target.take(path.len() as int) =~= path);
    assert(target.skip(path.len() as int + 1) =~= qs);
    assert(crate::strutil::split_once_at(target, '?') == Some((path, qs)));
    // The version token carries no whitespace, so trimming leaves it
    // whole, and it begins with the accepted prefix.
    assert(trim_spec(ver) == ver) by {
        assert(!crate::strutil::is_ascii_ws(ver[0]));
        assert(crate::strutil::trim_left(ver) == ver);
        assert(!crate::strutil::is_ascii_ws(ver[ver.len() - 1]));
        assert(crate::strutil::trim_right(ver) == ver);
    }
    assert(version_ok(ver)) by {
        assert(ver.take(7) =~= "HTTP/1."@);
    }
    lemma_query_round_trip(pairs);
    assert(spec_parse_request(b) == Some(
        (
            cr + 2,
            RequestLine {
                method: Method::GET,
                path: path,
                version: ver,
                query: query_map_of(qs),
            },
        ),
    ));
}

/// Decoding a query string written out from benign pairs with distinct
/// keys gives back exactly those pairs, as a map: the decode and the
/// reconstruction are inverse up to ordering.
pub proof fn lemma_query_round_trip(pairs: Seq<(Seq<char>, Seq<char>)>)
    requires
        pairs.len() >= 1,
        crate::strmap::unique_keys(pairs),
        forall|i: int|
            0 <= i < pairs.len() ==> benign_text((#[trigger] pairs[i]).0) && benign_text(
                pairs[i].1,
            ),
    ensures
        percent_decode_spec(encode_query(pairs)) == Some(encode_query(pairs)),
        query_map_of(encode_query(pairs)) == map_of_pairs(pairs),
{
    lemma_encode_query_no_percent(pairs);
    lemma_percent_decode_benign(encode_query(pairs));
    lemma_split_encode(pairs);
    let encoded = split_at_char(encode_query(pairs), '&');
    let mapped = encoded.map_values(|p: Seq<char>| query_pair(p));
    assert forall|i: int| 0 <= i < mapped.len() implies #[trigger] mapped[i] == pairs[i] by {
        assert(encoded[i] == encode_pair(pairs[i]));
        lemma_query_pair_encode(pairs[i]);
    }
    assert(mapped =~~= pairs);
}

/// A request line whose method token is not one of the four recognized
/// verbs never decodes: there is no fallback method.
pub proof fn lemma_unknown_method_rejected(b: Seq<u8>)
    requires
        find_crlf(b) is Some,
        ({
            let tokens = split_at_char(latin1(b.take(find_crlf(b)->Some_0)), ' ');
            tokens.len() >= 3 && spec_method(tokens[0]) is None
        }),
    ensures
        spec_parse_request(b) is None,
{
}

/// A request line whose version token does not begin `HTTP/1.` never
/// decodes.
pub proof fn lemma_bad_version_rejected(b: Seq<u8>)
    requires
        find_crlf(b) is Some,
        ({
            let tokens = split_at_char(latin1(b.take(find_crlf(b)->Some_0)), ' ');
            tokens.len() >= 3 && !version_ok(trim_spec(tokens[2]))
        }),
    ensures
        spec_parse_request(b) is None,
{
    let cr = find_crlf(b)->Some_0;
    let tokens = split_at_char(latin1(b.take(cr)), ' ');
    match spec_method(tokens[0]) {
        None => {},
        Some(m) => {
            match split_once_at(tokens[1], '?') {
                None => {},
                Some((path, qs)) => {},
            }
        },
    }
}

} // verus!
