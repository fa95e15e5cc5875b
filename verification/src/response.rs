//! The response builder: a mutable accumulator for status, headers and
//! body, serialized to wire bytes by `finalize`.

use vstd::prelude::*;

verus! {

use vstd::string::StrSliceExecFns;
use vstd::string::StringSliceAdditionalSpecFns;
use vstd::string::StringExecFns;
use crate::strmap::StrMap;
use crate::strutil::{
    ascii_lower_char, chars_of, contains_char, dec_chars, lower_chars, lower_vec, str_to_string,
    string_from_chars, trim_chars, trim_spec, u64_to_dec_string,
};

/// The status codes this server sends.
#[derive(Debug, Clone, Copy, PartialEq, Eq, Structural)]
pub enum StatusCode {
    OK,
    BadRequest,
    Unauthorized,
    NotFound,
    MethodNotAllowed,
    InternalError,
}

/// The full status line written for each code, reason phrase included.
pub open spec fn status_line(s: StatusCode) -> Seq<char> {
    match s {
        StatusCode::OK => "HTTP/1.1 200 OK\r\n"@,
        StatusCode::BadRequest => "HTTP/1.1 400 Bad Request\r\n"@,
        StatusCode::Unauthorized => "HTTP/1.1 401 Unauthorized\r\n"@,
        StatusCode::NotFound => "HTTP/1.1 404 Not Found\r\n"@,
        StatusCode::MethodNotAllowed => "HTTP/1.1 405 Method Not Allowed\r\n"@,
        StatusCode::InternalError => "HTTP/1.1 500 Internal Error\r\n"@,
    }
}

/// The serialized header block: one `name: value` line per entry, in
/// entry order.
pub open spec fn header_lines(ps: Seq<(Seq<char>, Seq<char>)>) -> Seq<char>
    decreases ps.len(),
{
    if ps.len() == 0 {
        Seq::<char>::empty()
    } else {
        header_lines(ps.drop_last()) + ps.last().0 + ": "@ + ps.last().1 + "\r\n"@
    }
}

/// Everything before the body: status line, header lines, blank line.
pub open spec fn head_chars(status: StatusCode, ps: Seq<(Seq<char>, Seq<char>)>) -> Seq<char> {
    status_line(status) + header_lines(ps) + "\r\n"@
}

/// The wire form: the head encoded as UTF-8, then the raw body bytes.
pub open spec fn wire_bytes(
    status: StatusCode,
    ps: Seq<(Seq<char>, Seq<char>)>,
    body: Seq<u8>,
) -> Seq<u8> {
    vstd::utf8::encode_utf8(head_chars(status, ps)) + body
}

/// A header name this builder accepts: none of `:`, CR or LF.
pub open spec fn clean_key(k: Seq<char>) -> bool {
    !k.contains(':') && !k.contains('\r') && !k.contains('\n')
}

/// A response under construction.
#[derive(Debug)]
pub struct Response {
    pub status: StatusCode,
    pub headers: StrMap,
    pub body: Vec<u8>,
}

/// The mathematical content of a response.
pub ghost struct ResponseView {
    pub status: StatusCode,
    pub headers: Map<Seq<char>, Seq<char>>,
    pub body: Seq<u8>,
}

impl View for Response {
    type V = ResponseView;

    open spec fn view(&self) -> ResponseView {
        ResponseView { status: self.status, headers: self.headers@, body: self.body@ }
    }
}

impl Response {
    /// The header map is well-formed and never holds a name with `:`, CR
    /// or LF in it.
    pub open spec fn wf(self) -> bool {
        &&& self.headers.wf()
        &&& forall|k: Seq<char>| self.headers@.contains_key(k) ==> clean_key(k)
    }

    /// A fresh response: 404, no headers, empty body.
    pub fn new() -> (r: Response)
        ensures
            r.status == StatusCode::NotFound,
            r.headers@ == Map::<Seq<char>, Seq<char>>::empty(),
            r.headers.kv() == Seq::<(Seq<char>, Seq<char>)>::empty(),
            r.body@ == Seq::<u8>::empty(),
            r.wf(),
    {
        let r = Response { status: StatusCode::NotFound, headers: StrMap::new(), body: Vec::new() };
        proof {
            assert(r.body@ =~= Seq::<u8>::empty());
        }
        r
    }

    /// A 404 response carrying the fixed textual body.
    pub fn not_found() -> (r: Response)
        ensures
            r.status == StatusCode::NotFound,
            r.headers@ == Map::<Seq<char>, Seq<char>>::empty(),
            r.headers.kv() == Seq::<(Seq<char>, Seq<char>)>::empty(),
            r.body@ == "404 Not Found".spec_bytes(),
            r.wf(),
    {
        let body = "404 Not Found".as_bytes_vec();
        Response { status: StatusCode::NotFound, headers: StrMap::new(), body }
    }

    /// Replaces the status.
    pub fn status(self, status: StatusCode) -> (r: Response)
        ensures
            r.status == status,
            r.headers == self.headers,
            r.body == self.body,
            r.wf() == self.wf(),
    {
        Response { status, ..self }
    }

    /// Sets a plain-text body: `content-type` is set and the body replaced
    /// by the text's bytes.
    pub fn text(self, body: &str) -> (r: Response)
        requires
            self.wf(),
        ensures
            r.status == self.status,
            r.headers@ == self.headers@.insert("content-type"@, "text/plain; charset=utf-8"@),
            r.body@ == body.spec_bytes(),
            r.wf(),
    {
        let mut headers = self.headers;
        proof {
            reveal_strlit("content-type");
            assert(clean_key("content-type"@));
        }
        headers.insert(
            str_to_string("content-type"),
            str_to_string("text/plain; charset=utf-8"),
        );
        Response { status: self.status, headers, body: body.as_bytes_vec() }
    }

    /// Sets a plain-text body from raw bytes.
    pub fn text_bytes(self, body: &Vec<u8>) -> (r: Response)
        requires
            self.wf(),
        ensures
            r.status == self.status,
            r.headers@ == self.headers@.insert("content-type"@, "text/plain; charset=utf-8"@),
            r.body@ == body@,
            r.wf(),
    {
        let mut headers = self.headers;
        proof {
            reveal_strlit("content-type");
            assert(clean_key("content-type"@));
        }
        headers.insert(
            str_to_string("content-type"),
            str_to_string("text/plain; charset=utf-8"),
        );
        let mut out: Vec<u8> = Vec::new();
        let mut i: usize = 0;
        while i < body.len()
            invariant
                i <= body@.len(),
                out@ == body@.take(i as int),
            decreases body@.len() - i,
        {
            out.push(body[i]);
            i += 1;
            proof {
                assert(out@ =~= body@.take(i as int));
            }
        }
        proof {
            assert(out@ =~= body@);
        }
        Response { status: self.status, headers, body: out }
    }

    /// Sets an HTML body: `content-type` is set and the body replaced.
    pub fn html(self, body: &str) -> (r: Response)
        requires
            self.wf(),
        ensures
            r.status == self.status,
            r.headers@ == self.headers@.insert("content-type"@, "text/html; charset=utf-8"@),
            r.body@ == body.spec_bytes(),
            r.wf(),
    {
        let mut headers = self.headers;
        proof {
            reveal_strlit("content-type");
            assert(clean_key("content-type"@));
        }
        headers.insert(
            str_to_string("content-type"),
            str_to_string("text/html; charset=utf-8"),
        );
        Response { status: self.status, headers, body: body.as_bytes_vec() }
    }

    /// Sets a JSON object body built from a map of strings: `content-type`
    /// is set and the body is the serialized object.
    pub fn json_object(self, pairs: &StrMap) -> (r: Response)
        requires
            self.wf(),
        ensures
            r.status == self.status,
            r.headers@ == self.headers@.insert("content-type"@, "application/json"@),
            r.body@ == json_object_bytes(pairs@),
            r.wf(),
    {
        let bytes = json_object_vec(pairs);
        self.json_result(Some(bytes))
    }

    /// Installs the outcome of a JSON serialization. A successful
    /// serialization becomes the body; a failed one downgrades the
    /// response to an internal error with a fixed body and a marker
    /// header, and never propagates. `content-type` is set either way.
    pub fn json_result(self, ser: Option<Vec<u8>>) -> (r: Response)
        requires
            self.wf(),
        ensures
            match ser {
                Some(bytes) => {
                    &&& r.status == self.status
                    &&& r.headers@ == self.headers@.insert("content-type"@, "application/json"@)
                    &&& r.body@ == bytes@
                },
                None => {
                    &&& r.status == StatusCode::InternalError
                    &&& r.headers@ == self.headers@.insert(
                        "content-type"@,
                        "application/json"@,
                    ).insert("x-serialize-error"@, "true"@)
                    &&& r.body@ == "{\"Error\": \"Could not serialize JSON\"}".spec_bytes()
                },
            },
            r.wf(),
    {
        let mut headers = self.headers;
        proof {
            reveal_strlit("content-type");
            assert(clean_key("content-type"@));
        }
        headers.insert(str_to_string("content-type"), str_to_string("application/json"));
        match ser {
            Some(bytes) => Response { status: self.status, headers, body: bytes },
            None => {
                proof {
                    reveal_strlit("x-serialize-error");
                    assert(clean_key("x-serialize-error"@));
                }
                headers.insert(str_to_string("x-serialize-error"), str_to_string("true"));
                Response {
                    status: StatusCode::InternalError,
                    headers,
                    body: "{\"Error\": \"Could not serialize JSON\"}".as_bytes_vec(),
                }
            },
        }
    }

    /// Inserts a header. A name containing `:`, CR or LF is rejected and
    /// the response is returned unchanged; otherwise the name is trimmed,
    /// lowered to ASCII lower case, and inserted, overwriting any previous
    /// value under that name.
    pub fn header(self, key: &str, value: &str) -> (r: Response)
        requires
            self.wf(),
        ensures
            r.status == self.status,
            r.body == self.body,
            r.wf(),
            (key@.contains(':') || key@.contains('\r') || key@.contains('\n')) ==> r.headers
                == self.headers,
            !(key@.contains(':') || key@.contains('\r') || key@.contains('\n')) ==> r.headers@
                == self.headers@.insert(lower_chars(trim_spec(key@)), value@),
    {
        let kc = chars_of(key);
        if contains_char(&kc, ':') || contains_char(&kc, '\r') || contains_char(&kc, '\n') {
            return self;
        }
        let trimmed = trim_chars(&kc);
        let lowered = lower_vec(&trimmed);
        proof {
            lemma_trim_keeps_clean(kc@);
            lemma_lower_keeps_clean(trim_spec(kc@));
        }
        let mut headers = self.headers;
        headers.insert(string_from_chars(&lowered), str_to_string(value));
        Response { status: self.status, headers, body: self.body }
    }

    /// Serializes the response. The `content-length` header is first
    /// recomputed from the body, overwriting any earlier value in place,
    /// so the length on the wire always equals the body's byte count and
    /// the entry order is otherwise kept; the result is the status line,
    /// every header line, a blank line, and the body.
    pub fn finalize(&mut self) -> (r: Vec<u8>)
        requires
            old(self).wf(),
        ensures
            final(self).status == old(self).status,
            final(self).body == old(self).body,
            final(self).headers@ == old(self).headers@.insert(
                "content-length"@,
                dec_chars(old(self).body@.len() as nat),
            ),
            old(self).headers@.contains_key("content-length"@) ==> final(self).headers.kv() == old(
                self,
            ).headers.kv().update(
                crate::strmap::key_index(old(self).headers.kv(), "content-length"@),
                ("content-length"@, dec_chars(old(self).body@.len() as nat)),
            ),
            !old(self).headers@.contains_key("content-length"@) ==> final(self).headers.kv() == old(
                self,
            ).headers.kv().push(("content-length"@, dec_chars(old(self).body@.len() as nat))),
            final(self).wf(),
            r@ == wire_bytes(final(self).status, final(self).headers.kv(), final(self).body@),
    {
        let len_string = u64_to_dec_string(self.body.len() as u64);
        proof {
            reveal_strlit("content-length");
            assert(clean_key("content-length"@));
        }
        self.headers.insert(str_to_string("content-length"), len_string);
        let mut head: String = match self.status {
            StatusCode::OK => str_to_string("HTTP/1.1 200 OK\r\n"),
            StatusCode::BadRequest => str_to_string("HTTP/1.1 400 Bad Request\r\n"),
            StatusCode::Unauthorized => str_to_string("HTTP/1.1 401 Unauthorized\r\n"),
            StatusCode::NotFound => str_to_string("HTTP/1.1 404 Not Found\r\n"),
            StatusCode::MethodNotAllowed => str_to_string("HTTP/1.1 405 Method Not Allowed\r\n"),
            StatusCode::InternalError => str_to_string("HTTP/1.1 500 Internal Error\r\n"),
        };
        let ghost kv = self.headers.kv();
        let entries = self.headers.entries();
        let n = entries.len();
        let mut i: usize = 0;
        proof {
            assert(head@ =~= status_line(self.status) + header_lines(kv.take(0)));
        }
        while i < n
            invariant
                n == entries@.len(),
                i <= n,
                crate::strmap::kv_of(entries@) == kv,
                head@ == status_line(self.status) + header_lines(kv.take(i as int)),
            decreases n - i,
        {
            head.append(entries[i].0.as_str());
            head.append(": ");
            head.append(entries[i].1.as_str());
            head.append("\r\n");
            i += 1;
            proof {
                assert(kv.take(i as int).drop_last() =~~= kv.take(i - 1));
                assert(kv.take(i as int).last() == kv[i - 1]);
                assert(kv[i - 1].0 == entries@[i - 1].0@ && kv[i - 1].1 == entries@[i - 1].1@);
                assert(head@ =~= status_line(self.status) + header_lines(kv.take(i as int)));
            }
        }
        head.append("\r\n");
        proof {
            assert(kv.take(n as int) =~~= kv);
            assert(head@ =~= head_chars(self.status, kv));
        }
        let mut out = head.as_str().as_bytes_vec();
        let ghost head_bytes = out@;
        let mut k: usize = 0;
        while k < self.body.len()
            invariant
                k <= self.body@.len(),
                out@ == head_bytes + self.body@.take(k as int),
            decreases self.body@.len() - k,
        {
            out.push(self.body[k]);
            k += 1;
            proof {
                assert(out@ =~= head_bytes + self.body@.take(k as int));
            }
        }
        proof {
            assert(out@ =~= head_bytes + self.body@);
        }
        out
    }
}

/// The bytes are the finalized wire form of the given response content:
/// for some ordering of its headers with `content-length` recomputed from
/// the body, the status line, the header lines, a blank line and the body.
pub open spec fn finalized_bytes(bytes: Seq<u8>, rv: ResponseView) -> bool {
    exists|kv: Seq<(Seq<char>, Seq<char>)>|
        {
            &&& crate::strmap::unique_keys(kv)
            &&& crate::strmap::map_of_pairs(kv) == rv.headers.insert(
                "content-length"@,
                dec_chars(rv.body.len() as nat),
            )
            &&& bytes == #[trigger] wire_bytes(rv.status, kv, rv.body)
        }
}

/// Serializes a finished response to its wire bytes.
pub fn into_wire(resp: Response) -> (bytes: Vec<u8>)
    requires
        resp.wf(),
    ensures
        finalized_bytes(bytes@, resp@),
{
    let mut resp = resp;
    let ghost rv = resp@;
    let bytes = resp.finalize();
    proof {
        resp.headers.lemma_view_is_map();
        let kv = resp.headers.kv();
        assert(crate::strmap::unique_keys(kv));
        assert(crate::strmap::map_of_pairs(kv) == rv.headers.insert(
            "content-length"@,
            dec_chars(rv.body.len() as nat),
        ));
        assert(bytes@ == wire_bytes(rv.status, kv, rv.body));
    }
    bytes
}

/// Finalized wire bytes always carry a `content-length` equal to the
/// serialized body's byte count, whatever was built into the response
/// before, and they end with the body itself.
pub proof fn lemma_finalize_content_length(bytes: Seq<u8>, rv: ResponseView)
    requires
        finalized_bytes(bytes, rv),
    ensures
        exists|kv: Seq<(Seq<char>, Seq<char>)>|
            {
                &&& crate::strmap::unique_keys(kv)
                &&& #[trigger] crate::strmap::map_of_pairs(kv).contains_key("content-length"@)
                &&& crate::strmap::map_of_pairs(kv)["content-length"@] == dec_chars(
                    rv.body.len() as nat,
                )
                &&& bytes == wire_bytes(rv.status, kv, rv.body)
            },
        bytes.len() >= rv.body.len(),
        bytes.skip(bytes.len() - rv.body.len()) == rv.body,
{
    let kv = choose|kv: Seq<(Seq<char>, Seq<char>)>|
        {
            &&& crate::strmap::unique_keys(kv)
            &&& crate::strmap::map_of_pairs(kv) == rv.headers.insert(
                "content-length"@,
                dec_chars(rv.body.len() as nat),
            )
            &&& bytes == #[trigger] wire_bytes(rv.status, kv, rv.body)
        };
    assert(crate::strmap::map_of_pairs(kv).contains_key("content-length"@));
    assert(bytes.skip(bytes.len() - rv.body.len()) =~= rv.body);
}

/// Serializing twice is stable: once `content-length` is in place with
/// the body's current count, recomputing it overwrites the entry with
/// itself, so a second serialization of an untouched response writes
/// byte-for-byte the same output.
pub proof fn lemma_finalize_repeat_stable(kv: Seq<(Seq<char>, Seq<char>)>, body: Seq<u8>)
    requires
        crate::strmap::unique_keys(kv),
        crate::strmap::map_of_pairs(kv).contains_key("content-length"@),
        crate::strmap::map_of_pairs(kv)["content-length"@] == dec_chars(body.len() as nat),
    ensures
        kv.update(
            crate::strmap::key_index(kv, "content-length"@),
            ("content-length"@, dec_chars(body.len() as nat)),
        ) == kv,
{
    crate::strmap::lemma_map_of_pairs(kv);
    let i = choose|i: int| 0 <= i < kv.len() && (#[trigger] kv[i]).0 == "content-length"@;
    let j = crate::strmap::key_index(kv, "content-length"@);
    assert(0 <= j < kv.len() && kv[j].0 == "content-length"@);
    assert(kv[j].1 == dec_chars(body.len() as nat));
    assert(kv[j] == ("content-length"@, dec_chars(body.len() as nat)));
    assert(kv.update(j, kv[j]) =~~= kv);
}

/// A response never holds a header name containing `:`, CR or LF: the
/// builder rejects such an insertion outright.
pub proof fn lemma_no_forbidden_header_key(r: Response, k: Seq<char>)
    requires
        r.wf(),
        !clean_key(k),
    ensures
        !r@.headers.contains_key(k),
{
}

/// The JSON object text that serde_json writes for a map of strings: a
/// function of the map alone.
pub uninterp spec fn json_object_bytes(m: Map<Seq<char>, Seq<char>>) -> Seq<u8>;

/// Relies on `serde_json::to_vec` applied to an object whose members are
/// the given string pairs. Serializing a string-to-string object cannot
/// fail, and its output depends only on which pairs the map holds.
#[verifier::external_body]
fn json_object_vec(pairs: &StrMap) -> (r: Vec<u8>)
    ensures
        r@ == json_object_bytes(pairs@),
{
    let object: serde_json::Map<String, serde_json::Value> = pairs
        .entries()
        .iter()
        .map(|(k, v)| (k.clone(), serde_json::Value::String(v.clone())))
        .collect();
    serde_json::to_vec(&serde_json::Value::Object(object)).unwrap_or_default()
}

/// Trimming cannot introduce a forbidden header character.
proof fn lemma_trim_keeps_clean(s: Seq<char>)
    requires
        clean_key(s),
    ensures
        clean_key(trim_spec(s)),
{
    lemma_trim_left_sub(s);
    lemma_trim_right_sub(crate::strutil::trim_left(s));
    if trim_spec(s).contains(':') {
        assert(s.contains(':'));
    }
    if trim_spec(s).contains('\r') {
        assert(s.contains('\r'));
    }
    if trim_spec(s).contains('\n') {
        assert(s.contains('\n'));
    }
}

/// Every character of the left-trimmed text occurs in the original.
proof fn lemma_trim_left_sub(s: Seq<char>)
    ensures
        forall|c: char| #[trigger] crate::strutil::trim_left(s).contains(c) ==> s.contains(c),
    decreases s.len(),
{
    if s.len() > 0 && crate::strutil::is_ascii_ws(s[0]) {
        lemma_trim_left_sub(s.skip(1));
        assert forall|c: char| #[trigger] crate::strutil::trim_left(s).contains(c) implies
            s.contains(c) by {
            assert(crate::strutil::trim_left(s.skip(1)).contains(c));
            assert(s.skip(1).contains(c));
            let j = choose|j: int| 0 <= j < s.skip(1).len() && s.skip(1)[j] == c;
            assert(s[j + 1] == c);
        }
    }
}

/// Every character of the right-trimmed text occurs in the original.
proof fn lemma_trim_right_sub(s: Seq<char>)
    ensures
        forall|c: char| #[trigger] crate::strutil::trim_right(s).contains(c) ==> s.contains(c),
    decreases s.len(),
{
    if s.len() > 0 && crate::strutil::is_ascii_ws(s[s.len() - 1]) {
        let t = s.take(s.len() - 1);
        lemma_trim_right_sub(t);
        assert forall|c: char| #[trigger] crate::strutil::trim_right(s).contains(c) implies
            s.contains(c) by {
            assert(crate::strutil::trim_right(t).contains(c));
            assert(t.contains(c));
            let j = choose|j: int| 0 <= j < t.len() && t[j] == c;
            assert(s[j] == c);
        }
    }
}

/// ASCII lowering keeps `:`, CR and LF out: none of them is the image of
/// any character, and none is a letter.
proof fn lemma_lower_keeps_clean(s: Seq<char>)
    requires
        clean_key(s),
    ensures
        clean_key(lower_chars(s)),
{
    let t = lower_chars(s);
    assert forall|i: int| 0 <= i < t.len() implies t[i] != ':' && t[i] != '\r' && t[i]
        != '\n' by {
        assert(t[i] == ascii_lower_char(s[i]));
        if s[i] == ':' || s[i] == '\r' || s[i] == '\n' {
            assert(s.contains(s[i]));
        }
    }
    if t.contains(':') {
        let i = choose|i: int| 0 <= i < t.len() && t[i] == ':';
    }
    if t.contains('\r') {
        let i = choose|i: int| 0 <= i < t.len() && t[i] == '\r';
    }
    if t.contains('\n') {
        let i = choose|i: int| 0 <= i < t.len() && t[i] == '\n';
    }
}

} // verus!
