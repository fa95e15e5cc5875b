//! The router: a pure map from method and path to a handler. Handlers that
//! need no outside help produce their response here; the sleeping and
//! static-file handlers hand the caller what it must do first.

use vstd::prelude::*;

verus! {

use vstd::string::StringSliceAdditionalSpecFns;
use crate::files::spec_file_name;
use crate::request::{Method, Request};
use crate::response::{json_object_bytes, Response, ResponseView, StatusCode};
use crate::strutil::str_eq;

/// Where a request lands.
#[derive(Debug, Clone, Copy, PartialEq, Eq, Structural)]
pub enum RouteTarget {
    RootGet,
    RootPost,
    EchoGet,
    PageGet,
    Sleep,
    Static,
    Unallowed,
    Unmatched,
}

/// The routing table: an unmatched path is not found, and a matched path
/// reached under a method it does not serve is not allowed.
pub open spec fn route_of(m: Method, path: Seq<char>) -> RouteTarget {
    if path == "/"@ {
        match m {
            Method::GET => RouteTarget::RootGet,
            Method::POST => RouteTarget::RootPost,
            _ => RouteTarget::Unallowed,
        }
    } else if path == "/echo"@ {
        match m {
            Method::GET => RouteTarget::EchoGet,
            _ => RouteTarget::Unallowed,
        }
    } else if path == "/page"@ {
        if m is GET {
            RouteTarget::PageGet
        } else {
            RouteTarget::Unallowed
        }
    } else if path == "/sleep"@ {
        if m is GET {
            RouteTarget::Sleep
        } else {
            RouteTarget::Unallowed
        }
    } else if path.len() >= 8 && path.take(8) == "/static/"@ {
        if m is GET {
            RouteTarget::Static
        } else {
            RouteTarget::Unallowed
        }
    } else {
        RouteTarget::Unmatched
    }
}

/// What the router asks of its caller: a finished response, a pause before
/// a fixed reply, or a file to fetch before [`crate::files::file_response`]
/// can run.
pub enum Routed {
    Done(Response),
    NeedsSleep,
    NeedsFile { res: Response, file_name: String },
}

/// Serves the root path with a fixed greeting.
pub fn handle_root_get(_req: &Request, res: Response) -> (r: Response)
    requires
        res.wf(),
    ensures
        r@ == (ResponseView {
            status: StatusCode::OK,
            headers: res@.headers.insert("content-type"@, "text/plain; charset=utf-8"@),
            body: "Hello".spec_bytes(),
        }),
        r.wf(),
{
    res.status(StatusCode::OK).text("Hello")
}

/// Echoes the request body back as plain text.
pub fn handle_root_post(req: &Request, res: Response) -> (r: Response)
    requires
        res.wf(),
    ensures
        r@ == (ResponseView {
            status: StatusCode::OK,
            headers: res@.headers.insert("content-type"@, "text/plain; charset=utf-8"@),
            body: req@.body,
        }),
        r.wf(),
{
    res.status(StatusCode::OK).text_bytes(&req.body)
}

/// Serves the decoded query parameters back as a JSON object.
pub fn handle_echo_get(req: &Request, res: Response) -> (r: Response)
    requires
        req.wf(),
        res.wf(),
    ensures
        r@ == (ResponseView {
            status: StatusCode::OK,
            headers: res@.headers.insert("content-type"@, "application/json"@),
            body: json_object_bytes(req@.query),
        }),
        r.wf(),
{
    res.status(StatusCode::OK).json_object(&req.query)
}

/// Serves a fixed page.
pub fn handle_page_get(_req: &Request, res: Response) -> (r: Response)
    requires
        res.wf(),
    ensures
        r@ == (ResponseView {
            status: StatusCode::OK,
            headers: res@.headers.insert("content-type"@, "text/html; charset=utf-8"@),
            body: "<html></html>".spec_bytes(),
        }),
        r.wf(),
{
    res.status(StatusCode::OK).html("<html></html>")
}

/// A known path reached with the wrong method: a fresh 405 with a fixed
/// body, discarding whatever was accumulated.
pub fn handle_unallowed_method() -> (r: Response)
    ensures
        r@ == (ResponseView {
            status: StatusCode::MethodNotAllowed,
            headers: Map::<Seq<char>, Seq<char>>::empty().insert(
                "content-type"@,
                "text/plain; charset=utf-8"@,
            ),
            body: "405 Method Not Allowed".spec_bytes(),
        }),
        r.wf(),
{
    Response::new().status(StatusCode::MethodNotAllowed).text("405 Method Not Allowed")
}

/// The reply written once the sleeping handler's pause has elapsed: a
/// fresh 200 with a fixed body.
pub fn sleep_response() -> (r: Response)
    ensures
        r@ == (ResponseView {
            status: StatusCode::OK,
            headers: Map::<Seq<char>, Seq<char>>::empty().insert(
                "content-type"@,
                "text/plain; charset=utf-8"@,
            ),
            body: "Slept for 5 seconds".spec_bytes(),
        }),
        r.wf(),
{
    Response::new().status(StatusCode::OK).text("Slept for 5 seconds")
}

/// The finished response for the targets that need no outside help,
/// building on the response the pipeline produced. For the sleeping and
/// static-file targets no finished response exists yet; they are described
/// by [`routed_outcome`] instead.
pub open spec fn done_view(req: crate::request::RequestView, base: ResponseView) -> ResponseView {
    match route_of(req.method, req.path) {
        RouteTarget::RootGet => ResponseView {
            status: StatusCode::OK,
            headers: base.headers.insert("content-type"@, "text/plain; charset=utf-8"@),
            body: "Hello".spec_bytes(),
        },
        RouteTarget::RootPost => ResponseView {
            status: StatusCode::OK,
            headers: base.headers.insert("content-type"@, "text/plain; charset=utf-8"@),
            body: req.body,
        },
        RouteTarget::EchoGet => ResponseView {
            status: StatusCode::OK,
            headers: base.headers.insert("content-type"@, "application/json"@),
            body: json_object_bytes(req.query),
        },
        RouteTarget::PageGet => ResponseView {
            status: StatusCode::OK,
            headers: base.headers.insert("content-type"@, "text/html; charset=utf-8"@),
            body: "<html></html>".spec_bytes(),
        },
        RouteTarget::Unallowed => ResponseView {
            status: StatusCode::MethodNotAllowed,
            headers: Map::<Seq<char>, Seq<char>>::empty().insert(
                "content-type"@,
                "text/plain; charset=utf-8"@,
            ),
            body: "405 Method Not Allowed".spec_bytes(),
        },
        _ => ResponseView {
            status: StatusCode::NotFound,
            headers: Map::<Seq<char>, Seq<char>>::empty(),
            body: "404 Not Found".spec_bytes(),
        },
    }
}

/// What the router must hand back for each target, building on the
/// response the pipeline produced.
pub open spec fn routed_outcome(
    req: crate::request::RequestView,
    base: ResponseView,
    out: Routed,
) -> bool {
    match route_of(req.method, req.path) {
        RouteTarget::Sleep => out is NeedsSleep,
        RouteTarget::Static => out matches Routed::NeedsFile { res, file_name } && res@ == base
            && file_name@ == spec_file_name(req.path),
        _ => out matches Routed::Done(r) && r@ == done_view(req, base),
    }
}

/// Maps the request to its handler and runs it over the response the
/// pipeline produced; the sleeping and static-file handlers report what
/// the caller must do first.
pub fn router(req: &Request, res: Response) -> (out: Routed)
    requires
        req.wf(),
        res.wf(),
    ensures
        routed_outcome(req@, res@, out),
        out matches Routed::Done(r) ==> r.wf(),
        out matches Routed::NeedsFile { res: fr, file_name: _ } ==> fr.wf(),
{
    proof {
        reveal_strlit("/static/");
        assert("/static/"@.len() == 8);
    }
    let is_get = match req.method {
        Method::GET => true,
        _ => false,
    };
    if str_eq(req.path.as_str(), "/") {
        match req.method {
            Method::GET => Routed::Done(handle_root_get(req, res)),
            Method::POST => Routed::Done(handle_root_post(req, res)),
            _ => Routed::Done(handle_unallowed_method()),
        }
    } else if str_eq(req.path.as_str(), "/echo") {
        match req.method {
            Method::GET => Routed::Done(handle_echo_get(req, res)),
            _ => Routed::Done(handle_unallowed_method()),
        }
    } else if str_eq(req.path.as_str(), "/page") {
        if is_get {
            Routed::Done(handle_page_get(req, res))
        } else {
            Routed::Done(handle_unallowed_method())
        }
    } else if str_eq(req.path.as_str(), "/sleep") {
        if is_get {
            Routed::NeedsSleep
        } else {
            Routed::Done(handle_unallowed_method())
        }
    } else if crate::strutil::str_starts_with(req.path.as_str(), "/static/") {
        if is_get {
            let file_name = crate::files::file_name_of_path(req.path.as_str());
            Routed::NeedsFile { res, file_name }
        } else {
            Routed::Done(handle_unallowed_method())
        }
    } else {
        Routed::Done(Response::not_found())
    }
}

} // verus!
