//! The connection loop's decisions: when the byte collector is done, how a
//! collected buffer becomes a response, and when the connection must
//! close. The caller performs the reads, writes, pauses and filesystem
//! work, and hands the results back in.

use vstd::prelude::*;

verus! {

use vstd::string::StrSliceExecFns;
use vstd::string::StringSliceAdditionalSpecFns;
use crate::files::{file_view, spec_file_name, FileOutcome};
use crate::middleware::{
    default_response, dispatch_trace, halt_index, halt_response, has_session_tracker, post_chain,
    Dispatcher, MwEvent,
};
use crate::parser::{
    body_slice, cookies_map_of, generate_body, generate_cookies, generate_headers, headers_end,
    headers_map_of, latin1, parse_request, spec_parse_request, RequestLine,
};
use crate::request::RequestView;
use crate::response::{finalized_bytes, into_wire, Response, ResponseView, StatusCode};
use crate::router::{done_view, route_of, router, sleep_response, RouteTarget, Routed};
use crate::session::SessionTable;
use crate::strutil::{chars_eq_str, chars_of, lower_chars, lower_vec};

/// The collector stops reading once this many bytes have arrived, whether
/// or not the header terminator was seen.
pub const COLLECT_CEILING: usize = 8000;

/// The end-of-headers marker CR LF CR LF appears somewhere in the buffer.
pub open spec fn has_terminator(b: Seq<u8>) -> bool {
    exists|j: int|
        0 <= j && j + 4 <= b.len() && #[trigger] b[j] == 13 && b[j + 1] == 10 && b[j + 2] == 13
            && b[j + 3] == 10
}

/// Whether the collector must stop reading: the buffer reached the hard
/// ceiling.
pub fn collector_full(buffer: &Vec<u8>) -> (r: bool)
    ensures
        r == (buffer@.len() >= COLLECT_CEILING),
{
    buffer.len() >= COLLECT_CEILING
}

/// What one read told the collector.
#[derive(Debug, Clone, Copy, PartialEq, Eq, Structural)]
pub enum CollectStatus {
    NeedMore,
    HeadersFound,
    PeerClosed,
}

/// Feeds one read's bytes to the collector: an empty read means the peer
/// closed, and otherwise the bytes are appended and the whole buffer is
/// scanned for the end-of-headers marker.
pub fn collector_feed(buffer: &mut Vec<u8>, chunk: &Vec<u8>) -> (r: CollectStatus)
    ensures
        chunk@.len() == 0 ==> r == CollectStatus::PeerClosed && final(buffer)@ == old(buffer)@,
        chunk@.len() > 0 ==> {
            &&& final(buffer)@ == old(buffer)@ + chunk@
            &&& r != CollectStatus::PeerClosed
            &&& (r == CollectStatus::HeadersFound) == has_terminator(final(buffer)@)
        },
{
    if chunk.len() == 0 {
        return CollectStatus::PeerClosed;
    }
    let mut i: usize = 0;
    while i < chunk.len()
        invariant
            i <= chunk@.len(),
            buffer@ == old(buffer)@ + chunk@.take(i as int),
        decreases chunk@.len() - i,
    {
        buffer.push(chunk[i]);
        i += 1;
        proof {
            assert(buffer@ =~= old(buffer)@ + chunk@.take(i as int));
        }
    }
    proof {
        assert(buffer@ =~= old(buffer)@ + chunk@);
    }
    let n = buffer.len();
    let mut j: usize = 0;
    while n - j >= 4
        invariant
            n == buffer@.len(),
            j <= n,
            chunk@.len() > 0,
            buffer@ == old(buffer)@ + chunk@,
            forall|m: int|
                0 <= m < j && m + 4 <= n ==> !(#[trigger] buffer@[m] == 13 && buffer@[m + 1] == 10
                    && buffer@[m + 2] == 13 && buffer@[m + 3] == 10),
        decreases n - j,
    {
        if buffer[j] == 13 && buffer[j + 1] == 10 && buffer[j + 2] == 13 && buffer[j + 3] == 10 {
            proof {
                assert(has_terminator(buffer@));
            }
            return CollectStatus::HeadersFound;
        }
        j += 1;
    }
    proof {
        if has_terminator(buffer@) {
            let m = choose|m: int|
                0 <= m && m + 4 <= buffer@.len() && #[trigger] buffer@[m] == 13 && buffer@[m + 1]
                    == 10 && buffer@[m + 2] == 13 && buffer@[m + 3] == 10;
            assert(false);
        }
    }
    CollectStatus::NeedMore
}

/// The request decoded from a collected buffer, after the request line:
/// the headers read up to the terminator, the cookies read from the
/// `Cookie` header, and the body sliced by `Content-Length`.
pub open spec fn decoded_view(b: Seq<u8>, parsed: (int, RequestLine)) -> RequestView {
    let idx = parsed.0;
    let stop = headers_end(b, idx);
    let headers = headers_map_of(latin1(b.subrange(idx, stop)));
    let cookies = if headers.contains_key("Cookie"@) {
        cookies_map_of(headers["Cookie"@])
    } else {
        Map::<Seq<char>, Seq<char>>::empty()
    };
    let length = if headers.contains_key("Content-Length"@) {
        Some(headers["Content-Length"@])
    } else {
        None
    };
    RequestView {
        method: parsed.1.method,
        path: parsed.1.path,
        version: parsed.1.version,
        query: parsed.1.query,
        headers,
        body: body_slice(b, stop, length),
        cookies: Some(cookies),
    }
}

/// Whether the connection may serve another request afterwards: yes,
/// unless the decoded headers carry `Connection: close` in any letter
/// case.
pub open spec fn spec_keep_alive(headers: Map<Seq<char>, Seq<char>>) -> bool {
    !(headers.contains_key("Connection"@) && lower_chars(headers["Connection"@]) == "close"@)
}

/// What the caller must do with one decoded request.
pub enum RequestOutcome {
    Respond { bytes: Vec<u8>, keep_alive: bool },
    NeedsSleep { keep_alive: bool },
    NeedsFile { res: Response, file_name: String, keep_alive: bool },
}

/// The finished part of the outcome once the pipeline produced `mwr` for
/// the decoded request `rv`.
pub open spec fn request_routed(
    rv: RequestView,
    mwr: ResponseView,
    out: RequestOutcome,
    ka: bool,
) -> bool {
    match route_of(rv.method, rv.path) {
        RouteTarget::Sleep => out matches RequestOutcome::NeedsSleep { keep_alive } && keep_alive
            == ka,
        RouteTarget::Static => out matches RequestOutcome::NeedsFile { res, file_name, keep_alive }
            && res@ == mwr && file_name@ == spec_file_name(rv.path) && keep_alive == ka && res.wf(),
        _ => out matches RequestOutcome::Respond { bytes, keep_alive } && keep_alive == ka
            && finalized_bytes(bytes@, done_view(rv, mwr)),
    }
}

/// Turns one collected buffer into a response (or into the work the caller
/// must first perform). A buffer whose request line does not decode is
/// answered with a bare 400 and the connection closes. Otherwise headers,
/// cookies and body are decoded, the pipeline runs, an unauthorized
/// pipeline result is terminal with a fixed body and the router is never
/// consulted, and any other result is routed.
#[verifier::rlimit(100)]
pub fn handle_request(
    buffer: &Vec<u8>,
    dispatcher: &Dispatcher,
    table: &mut SessionTable,
    trace: &mut Vec<MwEvent>,
) -> (r: RequestOutcome)
    requires
        old(table).wf(),
    ensures
        final(table).wf(),
        !has_session_tracker(dispatcher.mws()) ==> final(table)@ == old(table)@,
        match spec_parse_request(buffer@) {
            None => {
                &&& (r matches RequestOutcome::Respond { bytes, keep_alive } && !keep_alive
                    && finalized_bytes(
                    bytes@,
                    ResponseView {
                        status: StatusCode::BadRequest,
                        headers: Map::<Seq<char>, Seq<char>>::empty(),
                        body: Seq::<u8>::empty(),
                    },
                ))
                &&& final(trace)@ == old(trace)@
            },
            Some(parsed) => {
                let rv = decoded_view(buffer@, parsed);
                let n = dispatcher.mws().len() as int;
                let k = halt_index(dispatcher.mws(), rv);
                let ka = spec_keep_alive(rv.headers);
                &&& final(trace)@ == old(trace)@ + dispatch_trace(n, k)
                &&& (k < n ==> (r matches RequestOutcome::Respond { bytes, keep_alive } && keep_alive
                    == ka && exists|mwr: ResponseView|
                    {
                        &&& #[trigger] post_chain(dispatcher.mws().take(k), halt_response(), mwr)
                        &&& finalized_bytes(
                            bytes@,
                            ResponseView {
                                status: StatusCode::Unauthorized,
                                headers: mwr.headers,
                                body: "401 Unauthorized".spec_bytes(),
                            },
                        )
                    }))
                &&& (k == n ==> exists|mwr: ResponseView|
                    {
                        &&& #[trigger] post_chain(dispatcher.mws(), default_response(), mwr)
                        &&& request_routed(rv, mwr, r, ka)
                    })
            },
        },
{
    let parsed = parse_request(buffer);
    match parsed {
        Err(_) => {
            let resp = Response::new().status(StatusCode::BadRequest);
            let bytes = into_wire(resp);
            RequestOutcome::Respond { bytes, keep_alive: false }
        },
        Ok((off, req)) => {
            let mut req = req;
            let mut idx = off;
            req.headers = generate_headers(buffer, &mut idx);
            let cookies = generate_cookies(&req);
            req.cookies = Some(cookies);
            req.body = generate_body(req.headers.get("Content-Length"), buffer, idx);
            proof {
                let rv = decoded_view(buffer@, spec_parse_request(buffer@)->Some_0);
                assert(req@ == rv);
                assert(req.wf());
            }
            let keep_alive = match req.headers.get("Connection") {
                Some(value) => {
                    let lowered = lower_vec(&chars_of(value.as_str()));
                    !chars_eq_str(&lowered, "close")
                },
                None => true,
            };
            let mw_response = dispatcher.dispatch(req.clone(), table, trace);
            let ghost mws = dispatcher.mws();
            let ghost k = halt_index(mws, req@);
            proof {
                crate::middleware::lemma_halt_index(mws, req@);
                if k < mws.len() {
                    crate::middleware::lemma_post_chain_keeps_status(
                        mws.take(k),
                        halt_response(),
                        mw_response@,
                    );
                } else {
                    crate::middleware::lemma_post_chain_keeps_status(
                        mws,
                        default_response(),
                        mw_response@,
                    );
                }
            }
            let unauthorized = match mw_response.status {
                StatusCode::Unauthorized => true,
                _ => false,
            };
            if unauthorized {
                let mut denied = mw_response;
                denied.body = "401 Unauthorized".as_bytes_vec();
                let bytes = into_wire(denied);
                RequestOutcome::Respond { bytes, keep_alive }
            } else {
                match router(&req, mw_response) {
                    Routed::Done(resp) => {
                        let bytes = into_wire(resp);
                        RequestOutcome::Respond { bytes, keep_alive }
                    },
                    Routed::NeedsSleep => RequestOutcome::NeedsSleep { keep_alive },
                    Routed::NeedsFile { res, file_name } => RequestOutcome::NeedsFile {
                        res,
                        file_name,
                        keep_alive,
                    },
                }
            }
        },
    }
}

/// The wire bytes written after the sleeping handler's pause.
pub fn finish_sleep() -> (bytes: Vec<u8>)
    ensures
        finalized_bytes(
            bytes@,
            ResponseView {
                status: StatusCode::OK,
                headers: Map::<Seq<char>, Seq<char>>::empty().insert(
                    "content-type"@,
                    "text/plain; charset=utf-8"@,
                ),
                body: "Slept for 5 seconds".spec_bytes(),
            },
        ),
{
    into_wire(sleep_response())
}

/// The wire bytes for a static-file request, once the filesystem has
/// answered.
pub fn finish_file(res: Response, file_name: &str, outcome: FileOutcome) -> (bytes: Vec<u8>)
    requires
        res.wf(),
    ensures
        finalized_bytes(bytes@, file_view(res@, file_name@, outcome)),
{
    let resp = crate::files::file_response(res, file_name, outcome);
    into_wire(resp)
}

} // verus!
