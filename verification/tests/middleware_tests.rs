use httpkit::middleware::{
    AddHeader, Auth, Dispatcher, Logger, Middleware, MwEvent, SessionTracker, SetCookie, Timer,
};
use httpkit::request::{Method, Request};
use httpkit::response::StatusCode;
use httpkit::session::SessionTable;
use httpkit::strmap::StrMap;

fn plain_request() -> Request {
    Request {
        method: Method::GET,
        path: "/".to_string(),
        version: "HTTP/1.1".to_string(),
        query: StrMap::new(),
        headers: StrMap::new(),
        body: Vec::new(),
        cookies: None,
    }
}

#[test]
fn dispatch_returns_default_response_with_no_middleware() {
    let dispatcher = Dispatcher::new();
    let mut table = SessionTable::new();
    let mut trace: Vec<MwEvent> = Vec::new();
    let res = dispatcher.dispatch(plain_request(), &mut table, &mut trace);
    assert_eq!(res.status, StatusCode::NotFound);
    assert!(trace.is_empty());
}

#[test]
fn single_middleware_is_invoked() {
    let mut dispatcher = Dispatcher::new();
    dispatcher.add(Middleware::Logger(Logger));
    let mut table = SessionTable::new();
    let mut trace: Vec<MwEvent> = Vec::new();

    dispatcher.dispatch(plain_request(), &mut table, &mut trace);

    assert_eq!(trace, vec![MwEvent::Pre(0), MwEvent::Post(0)]);
}

#[test]
fn middleware_opens_in_order_and_closes_in_reverse() {
    let mut dispatcher = Dispatcher::new();
    dispatcher.add(Middleware::AddHeader(AddHeader));
    dispatcher.add(Middleware::Logger(Logger));
    dispatcher.add(Middleware::Timer(Timer));
    let mut table = SessionTable::new();
    let mut trace: Vec<MwEvent> = Vec::new();

    dispatcher.dispatch(plain_request(), &mut table, &mut trace);

    assert_eq!(
        trace,
        vec![
            MwEvent::Pre(0),
            MwEvent::Pre(1),
            MwEvent::Pre(2),
            MwEvent::Post(2),
            MwEvent::Post(1),
            MwEvent::Post(0)
        ]
    );
}

#[test]
fn auth_halts_unauthorized_request_mid_chain() {
    let mut dispatcher = Dispatcher::new();
    dispatcher.add(Middleware::AddHeader(AddHeader));
    dispatcher.add(Middleware::Auth(Auth));
    dispatcher.add(Middleware::Logger(Logger));
    let mut table = SessionTable::new();
    let mut trace: Vec<MwEvent> = Vec::new();

    let res = dispatcher.dispatch(plain_request(), &mut table, &mut trace);

    assert_eq!(res.status, StatusCode::Unauthorized);
    assert_eq!(
        trace,
        vec![MwEvent::Pre(0), MwEvent::Pre(1), MwEvent::Post(0)]
    );
    assert!(res.headers.contains_key("x-example"));
}

#[test]
fn auth_passes_request_with_authorization_header() {
    let mut dispatcher = Dispatcher::new();
    dispatcher.add(Middleware::Auth(Auth));
    let mut table = SessionTable::new();
    let mut trace: Vec<MwEvent> = Vec::new();

    let mut req = plain_request();
    req.headers.insert("Authorization".to_string(), "Bearer abc".to_string());
    let res = dispatcher.dispatch(req, &mut table, &mut trace);

    assert_eq!(res.status, StatusCode::NotFound);
    assert_eq!(trace, vec![MwEvent::Pre(0), MwEvent::Post(0)]);
}

#[test]
fn add_header_stamps_diagnostic_header() {
    let mut dispatcher = Dispatcher::new();
    dispatcher.add(Middleware::AddHeader(AddHeader));
    let mut table = SessionTable::new();
    let mut trace: Vec<MwEvent> = Vec::new();

    let res = dispatcher.dispatch(plain_request(), &mut table, &mut trace);

    assert_eq!(res.headers.get("x-example").unwrap(), "It works! :D");
}

#[test]
fn timer_stamps_duration_header() {
    let mut dispatcher = Dispatcher::new();
    dispatcher.add(Middleware::Timer(Timer));
    let mut table = SessionTable::new();
    let mut trace: Vec<MwEvent> = Vec::new();

    let res = dispatcher.dispatch(plain_request(), &mut table, &mut trace);

    let duration = res.headers.get("x-duration").expect("duration header");
    assert!(!duration.is_empty());
    assert!(duration.chars().all(|c| c.is_ascii_digit()));
}

#[test]
fn duration_stamp_writes_exact_span() {
    let res = httpkit::response::Response::new();
    let stamped = Timer.duration_stamp(res, 100, 350);
    assert_eq!(stamped.headers.get("x-duration").unwrap(), "250");

    let res = httpkit::response::Response::new();
    let unchanged = Timer.duration_stamp(res, 10, 5);
    assert!(unchanged.headers.get("x-duration").is_none());
}

#[test]
fn set_cookie_issues_session_cookie() {
    let mut dispatcher = Dispatcher::new();
    dispatcher.add(Middleware::SetCookie(SetCookie));
    let mut table = SessionTable::new();
    let mut trace: Vec<MwEvent> = Vec::new();

    let res = dispatcher.dispatch(plain_request(), &mut table, &mut trace);

    let cookie = res.headers.get("set-cookie").expect("cookie header");
    assert!(cookie.starts_with("session_id="));
    assert!(cookie.contains("Path=/"));
}

#[test]
fn session_tracker_creates_session_for_cookieless_client() {
    let mut dispatcher = Dispatcher::new();
    dispatcher.add(Middleware::SessionTracker(SessionTracker));
    let mut table = SessionTable::new();
    let mut trace: Vec<MwEvent> = Vec::new();

    let mut req = plain_request();
    req.cookies = Some(StrMap::new());
    let res = dispatcher.dispatch(req, &mut table, &mut trace);

    assert_eq!(table.len(), 1);
    let cookie = res.headers.get("set-cookie").expect("cookie header");
    assert!(cookie.starts_with("session_id="));
    assert_eq!(cookie.len(), "session_id=".len() + 36);
}

#[test]
fn session_tracker_refreshes_known_session() {
    let mut table = SessionTable::new();
    table.create("known-id".to_string(), 100);

    let mut dispatcher = Dispatcher::new();
    dispatcher.add(Middleware::SessionTracker(SessionTracker));
    let mut trace: Vec<MwEvent> = Vec::new();

    let mut req = plain_request();
    let mut cookies = StrMap::new();
    cookies.insert("session_id".to_string(), "known-id".to_string());
    req.cookies = Some(cookies);
    dispatcher.dispatch(req, &mut table, &mut trace);

    assert_eq!(table.len(), 1);
    let session = table.get("known-id").expect("session kept");
    assert!(session.last_accessed >= 100);
}

#[test]
fn session_tracker_leaves_table_alone_without_decoded_cookies() {
    let mut dispatcher = Dispatcher::new();
    dispatcher.add(Middleware::SessionTracker(SessionTracker));
    let mut table = SessionTable::new();
    let mut trace: Vec<MwEvent> = Vec::new();

    dispatcher.dispatch(plain_request(), &mut table, &mut trace);

    assert_eq!(table.len(), 0);
}

#[test]
fn logger_record_names_method_and_path() {
    let mut req = plain_request();
    req.path = "/echo".to_string();
    assert_eq!(
        Logger::record(&req),
        "request_received method=GET path=/echo"
    );
}
