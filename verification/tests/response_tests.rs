use httpkit::cookies::Cookie;
use httpkit::response::{Response, StatusCode};

#[test]
fn basic_ok_response_with_body() {
    let mut res = Response::new()
        .status(StatusCode::OK)
        .text(&"Hello World");

    let bytes = res.finalize();
    let response = String::from_utf8_lossy(&bytes);

    assert!(response.starts_with("HTTP/1.1 200 OK\r\n"));
    assert!(response.contains("content-type: text/plain; charset=utf-8\r\n"));
    assert!(response.contains("content-length: 11\r\n"));
    assert!(response.ends_with("Hello World"))
}

#[test]
fn content_type_helpers_work_correctly() {
    let mut text = Response::new().status(StatusCode::OK).text(&"text");
    let mut html = Response::new().status(StatusCode::OK).html("<p>html</p>");
    let mut object = serde_json::Map::new();
    object.insert("a".to_string(), serde_json::Value::from(1));
    let encoded = serde_json::to_vec(&serde_json::Value::Object(object)).unwrap();
    let mut json = Response::new().status(StatusCode::OK).json_result(Some(encoded));

    let text_str = String::from_utf8_lossy(&text.finalize()).into_owned();
    let html_str = String::from_utf8_lossy(&html.finalize()).into_owned();
    let json_str = String::from_utf8_lossy(&json.finalize()).into_owned();

    assert!(text_str.contains("content-type: text/plain; charset=utf-8"));
    assert!(html_str.contains("content-type: text/html; charset=utf-8"));
    assert!(json_str.contains("content-type: application/json"));
    assert!(json_str.contains("{\"a\":1}"));
}

#[test]
fn json_serialization_failure_fallback() {
    let mut res = Response::new().status(StatusCode::OK).json_result(None);
    let body = String::from_utf8_lossy(&res.finalize()).into_owned();

    assert!(body.contains("HTTP/1.1 500 Internal Error"));
    assert!(body.contains("x-serialize-error: true"));
    assert!(body.contains("{\"Error\": \"Could not serialize JSON\"}"));
}

#[test]
fn valid_and_invalikd_custom_headers() {
    let good = Response::new().header("X-Test", "123");
    let bad = Response::new().header("Bad:Header", "nope");

    assert!(good.headers.contains_key("x-test"));
    assert!(!bad.headers.contains_key("bad:header"));
}

#[test]
fn rejects_header_names_with_line_breaks() {
    let cr = Response::new().header("Bad\rHeader", "nope");
    let lf = Response::new().header("Bad\nHeader", "nope");

    assert!(cr.headers.len() == 0);
    assert!(lf.headers.len() == 0);
}

#[test]
fn not_found_response() {
    let mut res = Response::not_found();
    let out = String::from_utf8_lossy(&res.finalize()).into_owned();

    assert!(out.contains("HTTP/1.1 404 Not Found"));
    assert!(out.ends_with("404 Not Found"));
}

#[test]
fn empty_response_has_correct_headers() {
    let mut res = Response::new();
    let out = String::from_utf8_lossy(&res.finalize()).into_owned();

    assert!(out.contains("HTTP/1.1 404 Not Found"));
    assert!(out.contains("content-length: 0"));
    assert!(out.ends_with("\r\n\r\n"));
}

#[test]
fn overriding_headers_works() {
    let mut res = Response::new()
        .text(&"some")
        .header("Content-Type", "override/type");
    let out = String::from_utf8_lossy(&res.finalize()).into_owned();

    assert!(out.contains("content-type: override/type"));
    assert!(!out.contains("text/plain; charset=utf-8"));
}

#[test]
fn content_length_recomputed_over_stale_value() {
    let mut res = Response::new()
        .status(StatusCode::OK)
        .header("Content-Length", "999")
        .text(&"four");
    let out = String::from_utf8_lossy(&res.finalize()).into_owned();

    assert!(out.contains("content-length: 4\r\n"));
    assert!(!out.contains("content-length: 999"));
}

#[test]
fn content_length_stays_right_when_finalized_twice() {
    let mut res = Response::new().status(StatusCode::OK).text(&"abcde");
    let first = String::from_utf8_lossy(&res.finalize()).into_owned();
    let second = String::from_utf8_lossy(&res.finalize()).into_owned();

    assert!(first.contains("content-length: 5\r\n"));
    assert!(second.contains("content-length: 5\r\n"));
    assert_eq!(first, second);
}

#[test]
fn default_cookie_serialization_contains_expected_fields() {
    let cookie = Cookie::new("session".to_string(), "abc123".to_string());
    let serialized = cookie.serialize();

    assert!(serialized.contains("session=abc123"));
    assert!(serialized.contains("Path=/"));
    assert!(serialized.contains("Expires="));
    assert!(serialized.contains("HttpOnly;"));
    assert!(serialized.contains("Secure;"));
}

#[test]
fn cookie_serialization_skips_flags_when_false() {
    let cookie = Cookie {
        name: "id".to_string(),
        value: "xyz789".to_string(),
        path: "/test".to_string(),
        expires: (chrono::Utc::now() + chrono::TimeDelta::days(1)).to_string(),
        http_only: false,
        secure: false,
    };
    let serialized = cookie.serialize();

    assert!(serialized.contains("id=xyz789"));
    assert!(serialized.contains("Path=/test"));
    assert!(serialized.contains("Expires="));
    assert!(!serialized.contains("HttpOnly;"));
    assert!(!serialized.contains("Secure;"));
}

#[test]
fn cookie_serialization_exact_layout() {
    let cookie = Cookie {
        name: "k".to_string(),
        value: "v".to_string(),
        path: "/".to_string(),
        expires: "2031-01-01 00:00:00 UTC".to_string(),
        http_only: true,
        secure: true,
    };
    assert_eq!(
        cookie.serialize(),
        "k=v; Path=/; Expires=2031-01-01 00:00:00 UTC; HttpOnly; Secure;"
    );
}
