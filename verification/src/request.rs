//! The decoded request: method, target path, protocol version, query
//! parameters, headers, body bytes and cookies.

use vstd::prelude::*;

verus! {

use crate::strmap::StrMap;

/// The recognized request methods. Any other token on the wire is a
/// protocol error, never a default.
#[derive(Debug, Clone, Copy, PartialEq, Eq, Structural)]
pub enum Method {
    GET,
    POST,
    PUT,
    DELETE,
}

/// Decoding failure: the request is answered with 400 Bad Request.
#[derive(Debug, Clone, Copy, PartialEq, Eq, Structural)]
pub enum ParseError {
    BadRequest,
}

/// A decoded request. The request line fills `method`, `path`, `version`
/// and `query`; the connection loop then fills `headers`, `body` and
/// `cookies` from the rest of the buffer.
#[derive(Debug)]
pub struct Request {
    pub method: Method,
    pub path: String,
    pub version: String,
    pub query: StrMap,
    pub headers: StrMap,
    pub body: Vec<u8>,
    pub cookies: Option<StrMap>,
}

/// The mathematical content of a request.
pub ghost struct RequestView {
    pub method: Method,
    pub path: Seq<char>,
    pub version: Seq<char>,
    pub query: Map<Seq<char>, Seq<char>>,
    pub headers: Map<Seq<char>, Seq<char>>,
    pub body: Seq<u8>,
    pub cookies: Option<Map<Seq<char>, Seq<char>>>,
}

impl View for Request {
    type V = RequestView;

    open spec fn view(&self) -> RequestView {
        RequestView {
            method: self.method,
            path: self.path@,
            version: self.version@,
            query: self.query@,
            headers: self.headers@,
            body: self.body@,
            cookies: match self.cookies {
                Some(c) => Some(c@),
                None => None,
            },
        }
    }
}

impl Request {
    /// The string maps hold well-formed entry lists.
    pub open spec fn wf(self) -> bool {
        &&& self.query.wf()
        &&& self.headers.wf()
        &&& match self.cookies {
            Some(c) => c.wf(),
            None => true,
        }
    }
}

impl Clone for Request {
    /// An equal request.
    fn clone(&self) -> (r: Self)
        ensures
            r@ == self@,
            r.wf() == self.wf(),
    {
        let r = Request {
            method: self.method,
            path: self.path.clone(),
            version: self.version.clone(),
            query: self.query.clone(),
            headers: self.headers.clone(),
            body: self.body.clone(),
            cookies: match &self.cookies {
                Some(c) => Some(c.clone()),
                None => None,
            },
        };
        proof {
            assert(r.body@ == self.body@);
            assert(r@ == self@);
        }
        r
    }
}

/// The token that names a method.
pub open spec fn method_name(m: Method) -> Seq<char> {
    match m {
        Method::GET => "GET"@,
        Method::POST => "POST"@,
        Method::PUT => "PUT"@,
        Method::DELETE => "DELETE"@,
    }
}

/// The token that names a method.
pub fn method_name_str(m: &Method) -> (r: &'static str)
    ensures
        r@ == method_name(*m),
{
    match m {
        Method::GET => "GET",
        Method::POST => "POST",
        Method::PUT => "PUT",
        Method::DELETE => "DELETE",
    }
}

} // verus!
