use httpkit::connection::{
    collector_feed, collector_full, finish_file, finish_sleep, handle_request, CollectStatus,
    RequestOutcome,
};
use httpkit::files::FileOutcome;
use httpkit::middleware::{Auth, Dispatcher, Middleware, MwEvent, SetCookie};
use httpkit::session::SessionTable;

#[test]
fn collector_finds_header_terminator() {
    let mut buffer: Vec<u8> = Vec::new();
    let status = collector_feed(&mut buffer, &b"GET / HTTP/1.1\r\n".to_vec());
    assert_eq!(status, CollectStatus::NeedMore);
    let status = collector_feed(&mut buffer, &b"Host: x\r\n\r\n".to_vec());
    assert_eq!(status, CollectStatus::HeadersFound);
    assert_eq!(buffer, b"GET / HTTP/1.1\r\nHost: x\r\n\r\n");
}

#[test]
fn collector_reports_peer_close() {
    let mut buffer: Vec<u8> = Vec::new();
    let status = collector_feed(&mut buffer, &Vec::new());
    assert_eq!(status, CollectStatus::PeerClosed);
    assert!(buffer.is_empty());
}

#[test]
fn collector_ceiling_stops_reading() {
    let buffer: Vec<u8> = vec![b'a'; 8000];
    assert!(collector_full(&buffer));
    let buffer: Vec<u8> = vec![b'a'; 7999];
    assert!(!collector_full(&buffer));
}

fn respond_bytes(outcome: RequestOutcome) -> (String, bool) {
    match outcome {
        RequestOutcome::Respond { bytes, keep_alive } => {
            (String::from_utf8_lossy(&bytes).into_owned(), keep_alive)
        },
        _ => panic!("expected a finished response"),
    }
}

#[test]
fn end_to_end_echo_request() {
    let buffer: Vec<u8> = b"GET /echo?a=1&b=2 HTTP/1.1\r\n\r\n".to_vec();
    let dispatcher = Dispatcher::new();
    let mut table = SessionTable::new();
    let mut trace: Vec<MwEvent> = Vec::new();

    let outcome = handle_request(&buffer, &dispatcher, &mut table, &mut trace);
    let (text, keep_alive) = respond_bytes(outcome);

    assert!(text.starts_with("HTTP/1.1 200 OK\r\n"));
    assert!(text.contains("content-type: application/json"));
    assert!(text.ends_with("{\"a\":\"1\",\"b\":\"2\"}"));
    assert!(keep_alive);
}

#[test]
fn malformed_request_line_gets_bad_request_and_closes() {
    let buffer: Vec<u8> = b"NONSENSE\r\n\r\n".to_vec();
    let dispatcher = Dispatcher::new();
    let mut table = SessionTable::new();
    let mut trace: Vec<MwEvent> = Vec::new();

    let outcome = handle_request(&buffer, &dispatcher, &mut table, &mut trace);
    let (text, keep_alive) = respond_bytes(outcome);

    assert!(text.starts_with("HTTP/1.1 400 Bad Request\r\n"));
    assert!(!keep_alive);
}

#[test]
fn missing_authorization_is_terminal_with_fixed_body() {
    let buffer: Vec<u8> = b"GET / HTTP/1.1\r\n\r\n".to_vec();
    let mut dispatcher = Dispatcher::new();
    dispatcher.add(Middleware::Auth(Auth));
    let mut table = SessionTable::new();
    let mut trace: Vec<MwEvent> = Vec::new();

    let outcome = handle_request(&buffer, &dispatcher, &mut table, &mut trace);
    let (text, _) = respond_bytes(outcome);

    assert!(text.starts_with("HTTP/1.1 401 Unauthorized\r\n"));
    assert!(text.ends_with("401 Unauthorized"));
    // The router never ran: its greeting is nowhere in the reply.
    assert!(!text.contains("Hello"));
}

#[test]
fn authorized_request_reaches_the_router() {
    let buffer: Vec<u8> = b"GET / HTTP/1.1\r\nAuthorization: Bearer x\r\n\r\n".to_vec();
    let mut dispatcher = Dispatcher::new();
    dispatcher.add(Middleware::Auth(Auth));
    let mut table = SessionTable::new();
    let mut trace: Vec<MwEvent> = Vec::new();

    let outcome = handle_request(&buffer, &dispatcher, &mut table, &mut trace);
    let (text, _) = respond_bytes(outcome);

    assert!(text.starts_with("HTTP/1.1 200 OK\r\n"));
    assert!(text.ends_with("Hello"));
}

#[test]
fn connection_close_header_ends_keep_alive() {
    let buffer: Vec<u8> = b"GET / HTTP/1.1\r\nConnection: Close\r\n\r\n".to_vec();
    let dispatcher = Dispatcher::new();
    let mut table = SessionTable::new();
    let mut trace: Vec<MwEvent> = Vec::new();

    let outcome = handle_request(&buffer, &dispatcher, &mut table, &mut trace);
    let (text, keep_alive) = respond_bytes(outcome);

    assert!(text.starts_with("HTTP/1.1 200 OK\r\n"));
    assert!(!keep_alive);
}

#[test]
fn post_body_is_echoed_from_declared_length() {
    let buffer: Vec<u8> = b"POST / HTTP/1.1\r\nContent-Length: 4\r\n\r\nabcdef".to_vec();
    let dispatcher = Dispatcher::new();
    let mut table = SessionTable::new();
    let mut trace: Vec<MwEvent> = Vec::new();

    let outcome = handle_request(&buffer, &dispatcher, &mut table, &mut trace);
    let (text, _) = respond_bytes(outcome);

    assert!(text.starts_with("HTTP/1.1 200 OK\r\n"));
    assert!(text.ends_with("abcd"));
}

#[test]
fn wrong_method_on_known_path_is_not_allowed() {
    let buffer: Vec<u8> = b"PUT / HTTP/1.1\r\n\r\n".to_vec();
    let dispatcher = Dispatcher::new();
    let mut table = SessionTable::new();
    let mut trace: Vec<MwEvent> = Vec::new();

    let outcome = handle_request(&buffer, &dispatcher, &mut table, &mut trace);
    let (text, _) = respond_bytes(outcome);

    assert!(text.starts_with("HTTP/1.1 405 Method Not Allowed\r\n"));
    assert!(text.ends_with("405 Method Not Allowed"));
}

#[test]
fn wrong_method_on_page_is_not_allowed() {
    let buffer: Vec<u8> = b"POST /page HTTP/1.1\r\n\r\n".to_vec();
    let dispatcher = Dispatcher::new();
    let mut table = SessionTable::new();
    let mut trace: Vec<MwEvent> = Vec::new();

    let outcome = handle_request(&buffer, &dispatcher, &mut table, &mut trace);
    let (text, _) = respond_bytes(outcome);

    assert!(text.starts_with("HTTP/1.1 405 Method Not Allowed\r\n"));
}

#[test]
fn wrong_method_on_sleep_is_not_allowed() {
    let buffer: Vec<u8> = b"DELETE /sleep HTTP/1.1\r\n\r\n".to_vec();
    let dispatcher = Dispatcher::new();
    let mut table = SessionTable::new();
    let mut trace: Vec<MwEvent> = Vec::new();

    let outcome = handle_request(&buffer, &dispatcher, &mut table, &mut trace);
    let (text, _) = respond_bytes(outcome);

    assert!(text.starts_with("HTTP/1.1 405 Method Not Allowed\r\n"));
}

#[test]
fn wrong_method_on_static_is_not_allowed() {
    let buffer: Vec<u8> = b"POST /static/test.txt HTTP/1.1\r\n\r\n".to_vec();
    let dispatcher = Dispatcher::new();
    let mut table = SessionTable::new();
    let mut trace: Vec<MwEvent> = Vec::new();

    let outcome = handle_request(&buffer, &dispatcher, &mut table, &mut trace);
    let (text, _) = respond_bytes(outcome);

    assert!(text.starts_with("HTTP/1.1 405 Method Not Allowed\r\n"));
}

#[test]
fn unknown_path_is_not_found() {
    let buffer: Vec<u8> = b"GET /missing HTTP/1.1\r\n\r\n".to_vec();
    let dispatcher = Dispatcher::new();
    let mut table = SessionTable::new();
    let mut trace: Vec<MwEvent> = Vec::new();

    let outcome = handle_request(&buffer, &dispatcher, &mut table, &mut trace);
    let (text, _) = respond_bytes(outcome);

    assert!(text.starts_with("HTTP/1.1 404 Not Found\r\n"));
    assert!(text.ends_with("404 Not Found"));
}

#[test]
fn sleep_route_defers_to_the_caller() {
    let buffer: Vec<u8> = b"GET /sleep HTTP/1.1\r\n\r\n".to_vec();
    let dispatcher = Dispatcher::new();
    let mut table = SessionTable::new();
    let mut trace: Vec<MwEvent> = Vec::new();

    let outcome = handle_request(&buffer, &dispatcher, &mut table, &mut trace);
    match outcome {
        RequestOutcome::NeedsSleep { keep_alive } => assert!(keep_alive),
        _ => panic!("expected a deferred sleep"),
    }
    let text = String::from_utf8_lossy(&finish_sleep()).into_owned();
    assert!(text.starts_with("HTTP/1.1 200 OK\r\n"));
    assert!(text.ends_with("Slept for 5 seconds"));
}

#[test]
fn static_route_defers_file_work_to_the_caller() {
    let buffer: Vec<u8> = b"GET /static/test.txt HTTP/1.1\r\n\r\n".to_vec();
    let mut dispatcher = Dispatcher::new();
    dispatcher.add(Middleware::SetCookie(SetCookie));
    let mut table = SessionTable::new();
    let mut trace: Vec<MwEvent> = Vec::new();

    let outcome = handle_request(&buffer, &dispatcher, &mut table, &mut trace);
    match outcome {
        RequestOutcome::NeedsFile { res, file_name, keep_alive } => {
            assert_eq!(file_name, "test.txt");
            assert!(keep_alive);
            let bytes = finish_file(res, &file_name, FileOutcome::FileBytes(b"hello".to_vec()));
            let text = String::from_utf8_lossy(&bytes).into_owned();
            assert!(text.starts_with("HTTP/1.1 200 OK\r\n"));
            assert!(text.contains("content-type: text/plain"));
            assert!(text.contains("set-cookie: session_id="));
            assert!(text.ends_with("hello"));
        },
        _ => panic!("expected deferred file work"),
    }
}

#[test]
fn pipeline_headers_reach_the_final_bytes() {
    let buffer: Vec<u8> = b"GET / HTTP/1.1\r\n\r\n".to_vec();
    let mut dispatcher = Dispatcher::new();
    dispatcher.add(Middleware::AddHeader(httpkit::middleware::AddHeader));
    let mut table = SessionTable::new();
    let mut trace: Vec<MwEvent> = Vec::new();

    let outcome = handle_request(&buffer, &dispatcher, &mut table, &mut trace);
    let (text, _) = respond_bytes(outcome);

    assert!(text.contains("x-example: It works! :D\r\n"));
    assert!(text.ends_with("Hello"));
}
