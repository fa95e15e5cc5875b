use httpkit::parser::{generate_body, generate_cookies, generate_headers, parse_request, percent_decoder};
use httpkit::request::{Method, Request};
use httpkit::strmap::StrMap;

#[test]
fn parses_basic_get_request() {
    let buf: Vec<u8> = b"GET /index.html HTTP/1.1\r\n\r\n".to_vec();
    let req = parse_request(&buf).unwrap();
    assert_eq!(req.1.method, Method::GET);
    assert_eq!(req.1.path, "/index.html");
    assert_eq!(req.1.version, "HTTP/1.1");
}

#[test]
fn parses_basic_post_request() {
    let buf: Vec<u8> = b"POST /submit HTTP/1.0\r\n\r\n".to_vec();
    let req = parse_request(&buf).unwrap();
    assert_eq!(req.1.method, Method::POST);
    assert_eq!(req.1.path, "/submit");
    assert_eq!(req.1.version, "HTTP/1.0");
}

#[test]
fn errors_on_missing_parts() {
    let buf: Vec<u8> = b"GET /missingversion\r\n\r\n".to_vec();
    let result = parse_request(&buf);
    assert!(result.is_err());
}

#[test]
fn errors_on_empty_input() {
    let buf: Vec<u8> = b"".to_vec();
    let result = parse_request(&buf);
    assert!(result.is_err());
}

#[test]
fn rejects_unrecognized_method() {
    let buf: Vec<u8> = b"PATCH / HTTP/1.1\r\n\r\n".to_vec();
    assert!(parse_request(&buf).is_err());
}

#[test]
fn rejects_bad_version() {
    let buf: Vec<u8> = b"GET / FTP/1.1\r\n\r\n".to_vec();
    assert!(parse_request(&buf).is_err());
}

#[test]
fn decodes_query_parameters() {
    let buf: Vec<u8> = b"GET /echo?a=1&b=2 HTTP/1.1\r\n\r\n".to_vec();
    let (_, req) = parse_request(&buf).unwrap();
    assert_eq!(req.path, "/echo");
    assert_eq!(req.query.get("a").unwrap(), "1");
    assert_eq!(req.query.get("b").unwrap(), "2");
}

#[test]
fn decodes_escaped_query_values() {
    let buf: Vec<u8> = b"GET /echo?msg=hello%20world HTTP/1.1\r\n\r\n".to_vec();
    let (_, req) = parse_request(&buf).unwrap();
    assert_eq!(req.query.get("msg").unwrap(), "hello world");
}

#[test]
fn query_key_without_value_maps_to_empty() {
    let buf: Vec<u8> = b"GET /echo?flag&a=1 HTTP/1.1\r\n\r\n".to_vec();
    let (_, req) = parse_request(&buf).unwrap();
    assert_eq!(req.query.get("flag").unwrap(), "");
    assert_eq!(req.query.get("a").unwrap(), "1");
}

#[test]
fn rejects_bad_escape_in_query() {
    let buf: Vec<u8> = b"GET /echo?a=%zz HTTP/1.1\r\n\r\n".to_vec();
    assert!(parse_request(&buf).is_err());
}

// generate_headers tests
#[test]
fn parses_single_header() {
    let buf: Vec<u8> = b"Host: localhost\r\n\r\n".to_vec();
    let mut idx = 0;
    let headers = generate_headers(&buf, &mut idx);

    assert_eq!(headers.get("Host").unwrap(), "localhost");
    assert_eq!(idx, 19);
}

#[test]
fn handles_multiple_headers() {
    let buf: Vec<u8> = b"Content-Type: text/plain\r\nUser-Agent: Test\r\n\r\n".to_vec();
    let mut idx = 0;
    let headers = generate_headers(&buf, &mut idx);

    assert_eq!(headers.get("Content-Type").unwrap(), "text/plain");
    assert_eq!(headers.get("User-Agent").unwrap(), "Test");
    assert_eq!(idx, 46);
}

#[test]
fn skips_malformed_lines_and_parses_valid_ones() {
    let buf: Vec<u8> = b"Good-Header: value\r\nBadHeaderLine\r\nAnother: ok\r\n\r\n".to_vec();
    let mut idx = 0;
    let headers = generate_headers(&buf, &mut idx);

    assert_eq!(headers.get("Good-Header").unwrap(), "value");
    assert_eq!(headers.get("Another").unwrap(), "ok");
    assert!(!headers.contains_key("nBadHeaderLine"));
    assert_eq!(idx, 50);
}

#[test]
fn header_value_keeps_text_after_second_separator() {
    let buf: Vec<u8> = b"A: b: c\r\n\r\n".to_vec();
    let mut idx = 0;
    let headers = generate_headers(&buf, &mut idx);

    assert_eq!(headers.get("A").unwrap(), "b: c");
}

// generate_body tests
#[test]
fn extracts_body_correctly() {
    let buf: Vec<u8> = b"Header: test\r\n\r\nbody data".to_vec();
    let idx = 16;
    let length = "9".to_string();

    let body = generate_body(Some(&length), &buf, idx);
    assert_eq!(body, b"body data")
}

#[test]
fn returns_empty_vec_when_length_is_zero() {
    let buf: Vec<u8> = b"Header: test\r\n\r\n".to_vec();

    let idx = 16;
    let length = "0".to_string();

    let body = generate_body(Some(&length), &buf, idx);
    assert!(body.is_empty());
}

#[test]
fn extracts_remaining_bytes_when_length_is_none() {
    let buf: Vec<u8> = b"Header: test\r\n\r\nsome data here".to_vec();

    let idx = 16;

    let body = generate_body(None, &buf, idx);
    assert!(body.is_empty());
}

#[test]
fn handles_length_larger_than_remaining_data_gracefully() {
    let buf: Vec<u8> = b"Header: test\r\n\r\nshort".to_vec();

    let idx = 16;
    let length = "999".to_string();

    let body = generate_body(Some(&length), &buf, idx);
    assert_eq!(body, b"short");
}

// generate_cookies tests
fn build_request_with_cookie_header(cookie_header: &str) -> Request {
    let mut headers = StrMap::new();
    headers.insert("Cookie".to_string(), cookie_header.to_string());

    Request {
        method: Method::GET,
        path: "/".to_string(),
        version: "HTTP/1.1".to_string(),
        query: StrMap::new(),
        headers,
        body: Vec::new(),
        cookies: None,
    }
}

#[test]
fn parses_single_cookie_correct() {
    let req = build_request_with_cookie_header("sessionid=abc123");
    let cookies = generate_cookies(&req);
    assert_eq!(cookies.get("sessionid").unwrap(), "abc123");
}

#[test]
fn parses_multiple_cookies() {
    let req = build_request_with_cookie_header("a=1; b=2; c=3");
    let cookies = generate_cookies(&req);
    assert_eq!(cookies.get("a").unwrap(), "1");
    assert_eq!(cookies.get("b").unwrap(), "2");
    assert_eq!(cookies.get("c").unwrap(), "3");
}

#[test]
fn returns_empty_map_when_no_cookie_header_present() {
    let req = Request {
        method: Method::GET,
        path: "/".to_string(),
        version: "HTTP/1.1".to_string(),
        query: StrMap::new(),
        headers: StrMap::new(),
        body: Vec::new(),
        cookies: None,
    };

    let cookies = generate_cookies(&req);
    assert!(cookies.is_empty());
}

// percent_decoder tests
#[test]
fn decodes_basic_percent_encoding() {
    let input = "hello%20world".to_string();
    let decoded = percent_decoder(&input);
    assert_eq!(decoded.unwrap(), "hello world");
}

#[test]
fn decodes_multiple_encodings() {
    let input = "%48%65%6C%6C%6F".to_string();
    let decoded = percent_decoder(&input);
    assert_eq!(decoded.unwrap(), "Hello");
}

#[test]
fn ignores_invalid_percent_sequence() {
    let input = "bad%2Gdata%".to_string();
    let result = percent_decoder(&input);
    assert!(result.is_err());
}

#[test]
fn fails_on_truncated_escape() {
    let result = percent_decoder("bad%");
    assert!(result.is_err());
}

#[test]
fn fails_on_high_bit_escape() {
    let result = percent_decoder("high%FF");
    assert!(result.is_err());
}

#[test]
fn handles_no_encodings_gracefully() {
    let input = "cleanpath".to_string();
    let decoded = percent_decoder(&input);
    assert_eq!(decoded.unwrap(), "cleanpath");
}
