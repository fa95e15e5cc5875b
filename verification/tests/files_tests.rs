use httpkit::files::{file_name_of_path, file_response, get_mime_type, FileOutcome};
use httpkit::logrotate::{log_file_action, today_days, LogAction};
use httpkit::response::{Response, StatusCode};

#[test]
fn returns_correct_mime_for_html() {
    assert_eq!(get_mime_type("index.html"), "text/html");
}

#[test]
fn returns_correct_mime_for_css() {
    assert_eq!(get_mime_type("styles.css"), "text/css");
}

#[test]
fn returns_correct_mime_for_js() {
    assert_eq!(get_mime_type("app.js"), "application/javascript");
}

#[test]
fn returns_correct_mime_for_png() {
    assert_eq!(get_mime_type("image.png"), "image/png");
}

#[test]
fn returns_octet_stream_for_unknown_extension() {
    assert_eq!(get_mime_type("data.xyz"), "application/octet-stream");
}

#[test]
fn returns_empty_string_for_no_extension() {
    assert_eq!(get_mime_type("README"), "");
}

#[test]
fn file_name_is_last_path_segment() {
    assert_eq!(file_name_of_path("/static/test.txt"), "test.txt");
    assert_eq!(file_name_of_path("/static/dir_test"), "dir_test");
}

#[test]
fn serves_file_bytes_with_mime_and_length() {
    let outcome = FileOutcome::FileBytes(b"hello".to_vec());
    let res = file_response(Response::new(), "test.txt", outcome);

    assert_eq!(res.status, StatusCode::OK);
    assert_eq!(res.body, b"hello");
    assert!(res.headers.get("content-type").unwrap().contains("text/plain"));
    assert_eq!(res.headers.get("content-length").unwrap(), "5");
}

#[test]
fn serves_directory_listing_as_json_array() {
    let outcome = FileOutcome::Listing(vec!["file1.txt".to_string(), "file2.txt".to_string()]);
    let res = file_response(Response::new(), "dir_test", outcome);

    assert_eq!(res.status, StatusCode::OK);
    let body = String::from_utf8_lossy(&res.body).into_owned();
    assert!(body.contains("file1.txt"));
    assert!(body.contains("file2.txt"));
    assert!(body.starts_with('['));
}

#[test]
fn missing_file_becomes_404() {
    let res = file_response(Response::new(), "gone.txt", FileOutcome::NotFound);
    assert_eq!(res.status, StatusCode::NotFound);
    assert_eq!(res.body, b"404 Not Found");
}

#[test]
fn other_errors_become_500() {
    let res = file_response(Response::new(), "odd", FileOutcome::OtherError);
    assert_eq!(res.status, StatusCode::InternalError);
    assert_eq!(res.body, b"500 Internal Error");
}

#[test]
fn old_archives_are_deleted() {
    let action = log_file_action("server.log.2000-01-01.gz", today_days());
    assert_eq!(action, LogAction::DeleteOld);
}

#[test]
fn fresh_archives_are_kept() {
    let today = today_days();
    let date = chrono::NaiveDate::from_num_days_from_ce_opt(today).unwrap();
    let name = format!("server.log.{}.gz", date.format("%Y-%m-%d"));
    assert_eq!(log_file_action(&name, today), LogAction::Keep);
}

#[test]
fn todays_log_is_kept() {
    let today = today_days();
    let date = chrono::NaiveDate::from_num_days_from_ce_opt(today).unwrap();
    let name = format!("server.log.{}", date.format("%Y-%m-%d"));
    assert_eq!(log_file_action(&name, today), LogAction::Keep);
}

#[test]
fn stale_logs_are_compressed() {
    assert_eq!(
        log_file_action("server.log.2000-01-01", today_days()),
        LogAction::Compress
    );
}

#[test]
fn unrelated_files_are_compressed() {
    assert_eq!(log_file_action("notes.txt", today_days()), LogAction::Compress);
}

#[test]
fn malformed_archive_names_are_kept() {
    assert_eq!(
        log_file_action("server.log.not-a-date.gz", today_days()),
        LogAction::Keep
    );
}
