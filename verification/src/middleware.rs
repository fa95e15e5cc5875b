//! The middleware pipeline: an ordered list of handlers composed so the
//! first-added middleware is outermost. Each middleware has a phase before
//! the rest of the chain runs and a phase after it returns; an
//! authorization gate may short-circuit the chain entirely.

use vstd::prelude::*;

verus! {

use vstd::string::StringExecFns;
use crate::request::Request;
use crate::request::RequestView;
use crate::response::{Response, ResponseView, StatusCode};
use crate::session::{SessionTable, SessionView};
use crate::strutil::{dec_chars, lower_chars, str_to_string, trim_spec, u64_to_dec_string};
use crate::sys::{new_session_id, now_nanos};

/// Adds a fixed diagnostic header to every response.
#[derive(Debug, Clone, Copy)]
pub struct AddHeader;

/// Emits one structured record per request.
#[derive(Debug, Clone, Copy)]
pub struct Logger;

/// Rejects requests without an `Authorization` header.
#[derive(Debug, Clone, Copy)]
pub struct Auth;

/// Measures the time spent below it in the chain.
#[derive(Debug, Clone, Copy)]
pub struct Timer;

/// Issues a fresh session cookie on every response.
#[derive(Debug, Clone, Copy)]
pub struct SetCookie;

/// Creates or refreshes an entry in the session table.
#[derive(Debug, Clone, Copy)]
pub struct SessionTracker;

/// One entry of the pipeline.
#[derive(Debug, Clone, Copy)]
pub enum Middleware {
    AddHeader(AddHeader),
    Logger(Logger),
    Auth(Auth),
    Timer(Timer),
    SetCookie(SetCookie),
    SessionTracker(SessionTracker),
}

/// Whether this middleware stops the chain for this request instead of
/// passing it on: only the authorization gate does, on a request without
/// an `Authorization` header.
pub open spec fn mw_halts(mw: Middleware, req: RequestView) -> bool {
    match mw {
        Middleware::Auth(_) => !req.headers.contains_key("Authorization"@),
        _ => false,
    }
}

/// The response a halting middleware produces.
pub open spec fn halt_response() -> ResponseView {
    ResponseView {
        status: StatusCode::Unauthorized,
        headers: Map::<Seq<char>, Seq<char>>::empty(),
        body: Seq::<u8>::empty(),
    }
}

/// The terminal response when the chain runs out without a handler: a bare
/// 404.
pub open spec fn default_response() -> ResponseView {
    ResponseView {
        status: StatusCode::NotFound,
        headers: Map::<Seq<char>, Seq<char>>::empty(),
        body: Seq::<u8>::empty(),
    }
}

/// How one middleware's closing phase may change the response passing back
/// out through it. The clock and the identifier generator are outside this
/// model, so their contributions are existential; everything else is
/// exact.
pub open spec fn mw_post_rel(mw: Middleware, r0: ResponseView, r1: ResponseView) -> bool {
    match mw {
        Middleware::AddHeader(_) => r1 == ResponseView {
            headers: r0.headers.insert("x-example"@, "It works! :D"@),
            ..r0
        },
        Middleware::Logger(_) => r1 == r0,
        Middleware::Auth(_) => r1 == r0,
        Middleware::Timer(_) => (exists|d: u64|
            r1 == ResponseView {
                headers: r0.headers.insert("x-duration"@, dec_chars(d as nat)),
                ..r0
            }) || r1 == r0,
        Middleware::SetCookie(_) => exists|id: Seq<char>, expires: Seq<char>|
            id.len() == 36 && r1 == ResponseView {
                headers: r0.headers.insert(
                    "set-cookie"@,
                    crate::cookies::session_cookie_text(id, expires),
                ),
                ..r0
            },
        Middleware::SessionTracker(_) => exists|id: Seq<char>|
            id.len() == 36 && r1 == ResponseView {
                headers: r0.headers.insert("set-cookie"@, "session_id="@ + id),
                ..r0
            },
    }
}

/// The closing phases of a chain segment, witnessed by the intermediate
/// responses: `states` runs from the final response at index zero back to
/// the segment's input at the far end, and each middleware's closing phase
/// relates its neighbours.
pub open spec fn chain_states(mws: Seq<Middleware>, states: Seq<ResponseView>) -> bool {
    &&& states.len() == mws.len() + 1
    &&& forall|i: int| 0 <= i < mws.len() ==> mw_post_rel(mws[i], states[i + 1], #[trigger] states[i])
}

/// The closing phases of a chain segment applied innermost first: the
/// segment's first middleware acts last, turning `r0` into `r1`.
pub open spec fn post_chain(mws: Seq<Middleware>, r0: ResponseView, r1: ResponseView) -> bool {
    exists|states: Seq<ResponseView>|
        #[trigger] chain_states(mws, states) && states[mws.len() as int] == r0 && states[0] == r1
}

/// One closing phase changes neither the status nor the body.
pub proof fn lemma_mw_post_rel_keeps(mw: Middleware, r0: ResponseView, r1: ResponseView)
    requires
        mw_post_rel(mw, r0, r1),
    ensures
        r1.status == r0.status,
        r1.body == r0.body,
{
}

proof fn lemma_chain_states_keeps(mws: Seq<Middleware>, states: Seq<ResponseView>, k: int)
    requires
        chain_states(mws, states),
        0 <= k <= mws.len(),
    ensures
        states[k].status == states[mws.len() as int].status,
        states[k].body == states[mws.len() as int].body,
    decreases mws.len() - k,
{
    if k < mws.len() {
        lemma_mw_post_rel_keeps(mws[k], states[k + 1], states[k]);
        lemma_chain_states_keeps(mws, states, k + 1);
    }
}

/// No closing phase changes the status or the body: what passes back out
/// of a chain keeps both.
pub proof fn lemma_post_chain_keeps_status(mws: Seq<Middleware>, r0: ResponseView, r1: ResponseView)
    requires
        post_chain(mws, r0, r1),
    ensures
        r1.status == r0.status,
        r1.body == r0.body,
{
    let states = choose|states: Seq<ResponseView>|
        #[trigger] chain_states(mws, states) && states[mws.len() as int] == r0 && states[0] == r1;
    lemma_chain_states_keeps(mws, states, 0);
}

impl AddHeader {
    /// Stamps the fixed diagnostic header on the response.
    pub fn post(&self, res: Response) -> (r: Response)
        requires
            res.wf(),
        ensures
            r@ == (ResponseView {
                headers: res@.headers.insert("x-example"@, "It works! :D"@),
                ..res@
            }),
            r.wf(),
    {
        let r = res.header("X-Example", "It works! :D");
        proof {
            reveal_strlit("X-Example");
            reveal_strlit("x-example");
            assert(!"X-Example"@.contains(':') && !"X-Example"@.contains('\r')
                && !"X-Example"@.contains('\n'));
            assert(trim_spec("X-Example"@) == "X-Example"@);
            assert(lower_chars(trim_spec("X-Example"@)) =~= "x-example"@);
        }
        r
    }
}

impl Logger {
    /// The structured record written for a request: its method and path.
    pub fn record(req: &Request) -> (r: String)
        ensures
            r@ == "request_received method="@ + crate::request::method_name(req@.method)
                + " path="@ + req@.path,
    {
        let mut out = str_to_string("request_received method=");
        out.append(crate::request::method_name_str(&req.method));
        out.append(" path=");
        out.append(req.path.as_str());
        out
    }
}

impl Auth {
    /// Halts with a bare 401 when the request carries no `Authorization`
    /// header; otherwise lets the chain continue.
    pub fn check(&self, req: &Request) -> (r: Option<Response>)
        requires
            req.wf(),
        ensures
            match r {
                Some(resp) => !req@.headers.contains_key("Authorization"@) && resp@
                    == halt_response() && resp.wf(),
                None => req@.headers.contains_key("Authorization"@),
            },
    {
        if req.headers.contains_key("Authorization") {
            None
        } else {
            let resp = Response::new().status(StatusCode::Unauthorized);
            proof {
                assert(resp@ =~~= halt_response());
            }
            Some(resp)
        }
    }
}

impl Timer {
    /// The clock reading taken as the request passes in.
    pub fn pre(&self) -> u64 {
        now_nanos()
    }

    /// Stamps the nanoseconds elapsed between two clock readings, in
    /// decimal, as the `x-duration` header; a clock that moved backwards
    /// between them leaves the response unchanged.
    pub fn duration_stamp(&self, res: Response, start: u64, end: u64) -> (r: Response)
        requires
            res.wf(),
        ensures
            end >= start ==> r@ == (ResponseView {
                headers: res@.headers.insert("x-duration"@, dec_chars((end - start) as nat)),
                ..res@
            }),
            end < start ==> r@ == res@,
            r.wf(),
    {
        match end.checked_sub(start) {
            Some(d) => {
                let text = u64_to_dec_string(d);
                let r = res.header("X-Duration", text.as_str());
                proof {
                    reveal_strlit("X-Duration");
                    reveal_strlit("x-duration");
                    assert(!"X-Duration"@.contains(':') && !"X-Duration"@.contains('\r')
                        && !"X-Duration"@.contains('\n'));
                    assert(trim_spec("X-Duration"@) == "X-Duration"@);
                    assert(lower_chars(trim_spec("X-Duration"@)) =~= "x-duration"@);
                    assert(r@ == ResponseView {
                        headers: res@.headers.insert("x-duration"@, dec_chars(d as nat)),
                        ..res@
                    });
                }
                r
            },
            None => res,
        }
    }

    /// Reads the clock a second time and stamps the span since `start`.
    pub fn post(&self, res: Response, start: u64) -> (r: Response)
        requires
            res.wf(),
        ensures
            mw_post_rel(Middleware::Timer(Timer), res@, r@),
            r.wf(),
    {
        let end = now_nanos();
        self.duration_stamp(res, start, end)
    }
}

impl SetCookie {
    /// Issues a fresh session cookie on the response: the fixed name and
    /// attributes around a newly drawn identifier and expiry.
    pub fn post(&self, res: Response) -> (r: Response)
        requires
            res.wf(),
        ensures
            mw_post_rel(Middleware::SetCookie(SetCookie), res@, r@),
            r.wf(),
    {
        let id = new_session_id();
        let ghost id_text = id@;
        let cookie = crate::cookies::Cookie::new(str_to_string("session_id"), id);
        let value = cookie.serialize();
        proof {
            assert(value@ == crate::cookies::session_cookie_text(id_text, cookie.expires@));
        }
        let r = res.header("Set-Cookie", value.as_str());
        proof {
            reveal_strlit("Set-Cookie");
            reveal_strlit("set-cookie");
            assert(!"Set-Cookie"@.contains(':') && !"Set-Cookie"@.contains('\r')
                && !"Set-Cookie"@.contains('\n'));
            assert(trim_spec("Set-Cookie"@) == "Set-Cookie"@);
            assert(lower_chars(trim_spec("Set-Cookie"@)) =~= "set-cookie"@);
            assert(r@ == ResponseView {
                headers: res@.headers.insert(
                    "set-cookie"@,
                    crate::cookies::session_cookie_text(id_text, cookie.expires@),
                ),
                ..res@
            });
        }
        r
    }
}

impl SessionTracker {
    /// Updates the session table for this request: a known session
    /// identifier in the cookies has its timestamp refreshed, a request
    /// with cookies but no session identifier starts a fresh session, and
    /// a request whose cookies were never decoded leaves the table alone.
    /// Returns the freshly drawn identifier.
    pub fn track(&self, req: &Request, table: &mut SessionTable) -> (new_id: String)
        requires
            req.wf(),
            old(table).wf(),
        ensures
            new_id@.len() == 36,
            final(table).wf(),
            match req@.cookies {
                None => final(table)@ == old(table)@,
                Some(cookies) => if cookies.contains_key("session_id"@) {
                    if old(table)@.contains_key(cookies["session_id"@]) {
                        exists|t: int|
                            final(table)@ == old(table)@.insert(
                                cookies["session_id"@],
                                SessionView {
                                    data: old(table)@[cookies["session_id"@]].data,
                                    last_accessed: t,
                                },
                            )
                    } else {
                        final(table)@ == old(table)@
                    }
                } else {
                    exists|t: int|
                        final(table)@ == old(table)@.insert(
                            new_id@,
                            SessionView {
                                data: Map::<Seq<char>, Seq<char>>::empty().insert(
                                    "init"@,
                                    "true"@,
                                ),
                                last_accessed: t,
                            },
                        )
                },
            },
    {
        let new_id = new_session_id();
        match &req.cookies {
            None => new_id,
            Some(cookies) => {
                match cookies.get("session_id") {
                    Some(sid) => {
                        let now = crate::sys::now_unix_seconds();
                        let sid_owned = str_to_string(sid.as_str());
                        table.touch(sid_owned.as_str(), now);
                        new_id
                    },
                    None => {
                        let now = crate::sys::now_unix_seconds();
                        table.create(new_id.clone(), now);
                        new_id
                    },
                }
            },
        }
    }

    /// Points the client at the fresh session identifier.
    pub fn post(&self, res: Response, new_id: &String) -> (r: Response)
        requires
            res.wf(),
            new_id@.len() == 36,
        ensures
            mw_post_rel(Middleware::SessionTracker(SessionTracker), res@, r@),
            r.wf(),
    {
        let mut value = str_to_string("session_id=");
        value.append(new_id.as_str());
        let r = res.header("Set-Cookie", value.as_str());
        proof {
            reveal_strlit("Set-Cookie");
            reveal_strlit("set-cookie");
            assert(!"Set-Cookie"@.contains(':') && !"Set-Cookie"@.contains('\r')
                && !"Set-Cookie"@.contains('\n'));
            assert(trim_spec("Set-Cookie"@) == "Set-Cookie"@);
            assert(lower_chars(trim_spec("Set-Cookie"@)) =~= "set-cookie"@);
            assert(r@ == ResponseView {
                headers: res@.headers.insert("set-cookie"@, "session_id="@ + new_id@),
                ..res@
            });
        }
        r
    }
}

/// One step of a dispatch, as recorded in the trace: the opening or the
/// closing phase of the middleware at an index.
#[derive(Debug, Clone, Copy, PartialEq, Eq, Structural)]
pub enum MwEvent {
    Pre(usize),
    Post(usize),
}

/// The first index whose middleware halts the chain on this request; the
/// list's length when none does.
pub open spec fn halt_index(mws: Seq<Middleware>, req: RequestView) -> int
    decreases mws.len(),
{
    if mws.len() == 0 {
        0
    } else if mw_halts(mws[0], req) {
        0
    } else {
        1 + halt_index(mws.drop_first(), req)
    }
}

pub proof fn lemma_halt_index(mws: Seq<Middleware>, req: RequestView)
    ensures
        0 <= halt_index(mws, req) <= mws.len(),
        halt_index(mws, req) < mws.len() ==> mw_halts(mws[halt_index(mws, req)], req),
        forall|j: int| 0 <= j < halt_index(mws, req) ==> !mw_halts(#[trigger] mws[j], req),
    decreases mws.len(),
{
    if mws.len() > 0 && !mw_halts(mws[0], req) {
        lemma_halt_index(mws.drop_first(), req);
        assert(forall|j: int| 1 <= j < mws.len() ==> mws[j] == mws.drop_first()[j - 1]);
    }
}

/// The order a dispatch walks the chain in: every opening phase from the
/// outside in, then each closing phase on the way back out. A halt at
/// index `k` runs the opening phases up to and including `k` and the
/// closing phases of everything before it.
pub open spec fn dispatch_trace(n: int, k: int) -> Seq<MwEvent> {
    let pres: int = if k < n {
        k + 1
    } else {
        n
    };
    let posts: int = if k < n {
        k
    } else {
        n
    };
    Seq::new(pres as nat, |i: int| MwEvent::Pre(i as usize)) + Seq::new(
        posts as nat,
        |i: int| MwEvent::Post((posts - 1 - i) as usize),
    )
}

/// Whether the chain holds a session tracker; without one, a dispatch
/// leaves the session table alone.
pub open spec fn has_session_tracker(mws: Seq<Middleware>) -> bool {
    exists|i: int| 0 <= i < mws.len() && (#[trigger] mws[i]) is SessionTracker
}

/// The ordered middleware pipeline.
#[derive(Debug)]
pub struct Dispatcher {
    middleware: Vec<Middleware>,
}

impl Dispatcher {
    /// The chain, outermost first.
    pub closed spec fn mws(self) -> Seq<Middleware> {
        self.middleware@
    }

    /// An empty pipeline.
    pub fn new() -> (r: Dispatcher)
        ensures
            r.mws() == Seq::<Middleware>::empty(),
    {
        let r = Dispatcher { middleware: Vec::new() };
        proof {
            assert(r.mws() =~= Seq::<Middleware>::empty());
        }
        r
    }

    /// Appends a middleware; it becomes the innermost of the chain.
    pub fn add(&mut self, mw: Middleware)
        ensures
            final(self).mws() == old(self).mws().push(mw),
    {
        self.middleware.push(mw);
    }

    /// Runs the chain on one request. Opening phases fire first-added
    /// first; the first halting middleware (if any) supplies the response
    /// in place of the terminal bare 404; closing phases then fire in
    /// reverse over everything that opened before the halt. The trace
    /// records exactly that order, and the result is reachable from the
    /// halt or terminal response by the closing phases alone.
    #[verifier::rlimit(100)]
    pub fn dispatch(&self, req: Request, table: &mut SessionTable, trace: &mut Vec<MwEvent>) -> (r:
        Response)
        requires
            req.wf(),
            old(table).wf(),
        ensures
            final(trace)@ == old(trace)@ + dispatch_trace(
                self.mws().len() as int,
                halt_index(self.mws(), req@),
            ),
            halt_index(self.mws(), req@) < self.mws().len() ==> post_chain(
                self.mws().take(halt_index(self.mws(), req@)),
                halt_response(),
                r@,
            ),
            halt_index(self.mws(), req@) == self.mws().len() ==> post_chain(
                self.mws(),
                default_response(),
                r@,
            ),
            r.wf(),
            final(table).wf(),
            !has_session_tracker(self.mws()) ==> final(table)@ == old(table)@,
    {
        let ghost mws = self.middleware@;
        let ghost k = halt_index(mws, req@);
        let ghost trace0 = trace@;
        proof {
            lemma_halt_index(mws, req@);
        }
        let n = self.middleware.len();
        let mut timer_notes: Vec<u64> = Vec::new();
        let mut session_ids: Vec<String> = Vec::new();
        let mut resp = Response::new();
        proof {
            assert(resp@ =~~= default_response());
        }
        let mut halted = false;
        let mut stop: usize = n;
        let mut i: usize = 0;
        while i < n && !halted
            invariant
                n == mws.len(),
                mws == self.middleware@,
                i <= n,
                req.wf(),
                old(table).wf(),
                k == halt_index(mws, req@),
                0 <= k <= n,
                k < n ==> mw_halts(mws[k], req@),
                forall|j: int| 0 <= j < k ==> !mw_halts(#[trigger] mws[j], req@),
                !halted ==> i <= k,
                !halted ==> trace@ == trace0 + Seq::new(i as nat, |m: int| MwEvent::Pre(m as usize)),
                !halted ==> resp@ == default_response(),
                !halted ==> stop == n,
                halted ==> k < n && i == k + 1 && stop == k && resp@ == halt_response(),
                halted ==> trace@ == trace0 + Seq::new(
                    (k + 1) as nat,
                    |m: int| MwEvent::Pre(m as usize),
                ),
                resp.wf(),
                table.wf(),
                !has_session_tracker(mws) ==> table@ == old(table)@,
                !halted ==> timer_notes@.len() == i && session_ids@.len() == i,
                halted ==> timer_notes@.len() == k && session_ids@.len() == k,
                forall|m: int|
                    0 <= m < session_ids@.len() && (#[trigger] mws[m]) is SessionTracker
                        ==> session_ids@[m]@.len() == 36,
            decreases n - i,
        {
            trace.push(MwEvent::Pre(i));
            proof {
                assert(trace@ =~= trace0 + Seq::new(
                    (i + 1) as nat,
                    |m: int| MwEvent::Pre(m as usize),
                ));
            }
            let ghost old_ids = session_ids@;
            match &self.middleware[i] {
                Middleware::AddHeader(_) => {
                    timer_notes.push(0);
                    session_ids.push(String::new());
                },
                Middleware::Logger(_) => {
                    timer_notes.push(0);
                    session_ids.push(String::new());
                },
                Middleware::Auth(auth) => {
                    match auth.check(&req) {
                        Some(denied) => {
                            resp = denied;
                            halted = true;
                            stop = i;
                            proof {
                                assert(mw_halts(mws[i as int], req@));
                                if (i as int) < k {
                                    assert(!mw_halts(mws[i as int], req@));
                                }
                                assert(i as int == k);
                            }
                        },
                        None => {
                            timer_notes.push(0);
                            session_ids.push(String::new());
                            proof {
                                assert(!mw_halts(mws[i as int], req@));
                                if k == i as int {
                                    assert(mw_halts(mws[k], req@));
                                }
                            }
                        },
                    }
                },
                Middleware::Timer(t) => {
                    timer_notes.push(t.pre());
                    session_ids.push(String::new());
                },
                Middleware::SetCookie(_) => {
                    timer_notes.push(0);
                    session_ids.push(String::new());
                },
                Middleware::SessionTracker(st) => {
                    proof {
                        assert(has_session_tracker(mws));
                    }
                    let sid = st.track(&req, table);
                    timer_notes.push(0);
                    session_ids.push(sid);
                },
            }
            proof {
                assert forall|m: int|
                    0 <= m < session_ids@.len() && (#[trigger] mws[m]) is SessionTracker
                        implies session_ids@[m]@.len() == 36 by {
                    if m < old_ids.len() {
                        assert(session_ids@[m] == old_ids[m]);
                    }
                }
            }
            i += 1;
        }
        proof {
            if !halted {
                assert(i == n);
                if k < n {
                    assert(i <= k);
                    assert(false);
                }
                assert(k == n);
            }
        }
        let ghost base = resp@;
        let ghost seg = mws.take(stop as int);
        let ghost pre_trace = trace@;
        let ghost mut states: Seq<ResponseView> = seq![resp@];
        let mut j: usize = stop;
        proof {
            assert(chain_states(mws.subrange(j as int, stop as int), states)) by {
                assert(mws.subrange(j as int, stop as int).len() == 0);
            }
        }
        while j > 0
            invariant
                j <= stop <= n == mws.len(),
                mws == self.middleware@,
                old(table).wf(),
                states.len() == stop - j + 1,
                chain_states(mws.subrange(j as int, stop as int), states),
                states[stop - j] == base,
                states[0] == resp@,
                resp.wf(),
                table.wf(),
                !has_session_tracker(mws) ==> table@ == old(table)@,
                trace@ == pre_trace + Seq::new(
                    (stop - j) as nat,
                    |m: int| MwEvent::Post((stop - 1 - m) as usize),
                ),
                timer_notes@.len() == stop,
                session_ids@.len() == stop,
                forall|m: int|
                    0 <= m < session_ids@.len() && (#[trigger] mws[m]) is SessionTracker
                        ==> session_ids@[m]@.len() == 36,
            decreases j,
        {
            j -= 1;
            trace.push(MwEvent::Post(j));
            proof {
                assert(trace@ =~= pre_trace + Seq::new(
                    (stop - j) as nat,
                    |m: int| MwEvent::Post((stop - 1 - m) as usize),
                ));
            }
            let ghost prev = resp@;
            match &self.middleware[j] {
                Middleware::AddHeader(ah) => {
                    resp = ah.post(resp);
                },
                Middleware::Logger(_) => {},
                Middleware::Auth(_) => {},
                Middleware::Timer(t) => {
                    resp = t.post(resp, timer_notes[j]);
                },
                Middleware::SetCookie(sc) => {
                    resp = sc.post(resp);
                },
                Middleware::SessionTracker(st) => {
                    resp = st.post(resp, &session_ids[j]);
                },
            }
            proof {
                assert(mw_post_rel(mws[j as int], prev, resp@));
                let old_states = states;
                states = seq![resp@] + states;
                let sub = mws.subrange(j as int, stop as int);
                assert(sub.len() == stop - j);
                assert forall|m: int| 0 <= m < sub.len() implies mw_post_rel(
                    sub[m],
                    states[m + 1],
                    #[trigger] states[m],
                ) by {
                    if m == 0 {
                        assert(states[0] == resp@ && states[1] == prev);
                        assert(sub[0] == mws[j as int]);
                    } else {
                        assert(states[m] == old_states[m - 1]);
                        assert(states[m + 1] == old_states[m]);
                        assert(sub[m] == mws.subrange(j + 1, stop as int)[m - 1]);
                        assert(mw_post_rel(
                            mws.subrange(j + 1, stop as int)[m - 1],
                            old_states[m],
                            old_states[m - 1],
                        ));
                    }
                }
                assert(chain_states(sub, states));
                assert(states[stop - j] == old_states[stop - j - 1]);
            }
        }
        proof {
            assert(mws.subrange(0, stop as int) =~= seg);
            assert(chain_states(seg, states) && states[seg.len() as int] == base && states[0]
                == resp@);
            assert(post_chain(seg, base, resp@));
            if halted {
                assert(seg =~= mws.take(k));
            } else {
                assert(seg =~= mws);
            }
            assert(trace@ =~= trace0 + dispatch_trace(n as int, k));
        }
        resp
    }
}

/// With no short-circuit, the opening phases fire first-added first and
/// the closing phases fire in the exact reverse order.
pub proof fn lemma_pipeline_order(n: int)
    requires
        n >= 0,
    ensures
        dispatch_trace(n, n).len() == 2 * n,
        forall|j: int| 0 <= j < n ==> dispatch_trace(n, n)[j] == MwEvent::Pre(j as usize),
        forall|j: int|
            n <= j < 2 * n ==> dispatch_trace(n, n)[j] == MwEvent::Post((2 * n - 1 - j) as usize),
{
}

/// An authorization gate anywhere in the chain short-circuits a request
/// without an `Authorization` header: the chain halts at or before the
/// gate, and whatever the dispatch returns is unauthorized, so the caller
/// never consults the router.
pub proof fn lemma_auth_short_circuit(mws: Seq<Middleware>, req: RequestView, i: int)
    requires
        0 <= i < mws.len(),
        mws[i] is Auth,
        !req.headers.contains_key("Authorization"@),
    ensures
        halt_index(mws, req) <= i,
        halt_index(mws, req) < mws.len(),
        forall|r: ResponseView|
            post_chain(mws.take(halt_index(mws, req)), halt_response(), r) ==> r.status
                == StatusCode::Unauthorized,
{
    lemma_halt_index(mws, req);
    let k = halt_index(mws, req);
    if k > i {
        assert(!mw_halts(mws[i], req));
        assert(false);
    }
    assert forall|r: ResponseView|
        post_chain(mws.take(k), halt_response(), r) implies r.status
        == StatusCode::Unauthorized by {
        lemma_post_chain_keeps_status(mws.take(k), halt_response(), r);
    }
}

} // verus!
