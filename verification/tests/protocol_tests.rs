//! The sync protocol's text: requests, status lines, headers, routes and
//! answer heads.

use quire::sync::http::{
    classify_header, get_request, parse_status_line, post_request, reason_phrase, request_target,
    response_head, route, utf8_byte_len, HeaderLine, Route, INDEX_TEXT,
};

#[test]
fn routes_name_their_endpoints_and_ignore_the_query() {
    assert!(route("GET", "/sync/info") == Route::Info);
    assert!(route("GET", "/sync/info?x=1") == Route::Info);
    assert!(route("GET", "/sync/snapshot") == Route::ExportSnapshot);
    assert!(route("POST", "/sync/snapshot") == Route::MergeSnapshot);
    assert!(route("POST", "/sync/pair") == Route::Pair);
    assert!(route("GET", "/") == Route::Index);
    assert!(route("GET", "/sync") == Route::Index);
    assert!(route("PUT", "/sync/info") == Route::NotFound);
    assert!(route("GET", "/elsewhere") == Route::NotFound);
    assert!(route("", "") == Route::NotFound);
}

#[test]
fn an_attachment_route_carries_its_id_or_zero() {
    assert!(route("GET", "/sync/attachment/42") == Route::Attachment(42));
    assert!(route("GET", "/sync/attachment/42?v=2") == Route::Attachment(42));
    assert!(route("GET", "/sync/attachment/abc") == Route::Attachment(0));
    assert!(route("GET", "/sync/attachment/") == Route::Attachment(0));
    assert!(route("POST", "/sync/attachment/42") == Route::NotFound);
}

#[test]
fn a_request_line_splits_into_method_and_target() {
    let (m, p) = request_target("GET /sync/info HTTP/1.0\r\n");
    assert_eq!(m, "GET");
    assert_eq!(p, "/sync/info");
    let (m, p) = request_target("  POST   /sync/pair  ");
    assert_eq!(m, "POST");
    assert_eq!(p, "/sync/pair");
    let (m, p) = request_target("");
    assert_eq!(m, "");
    assert_eq!(p, "");
}

#[test]
fn a_status_line_gives_its_code() {
    assert_eq!(parse_status_line("HTTP/1.0 200 OK\r\n"), Some(200));
    assert_eq!(parse_status_line("HTTP/1.1 404 Not Found"), Some(404));
    assert_eq!(parse_status_line("HTTP/1.0 +503 Busy"), Some(503));
    assert_eq!(parse_status_line("HTTP/1.0 ok"), None);
    assert_eq!(parse_status_line("HTTP/1.0 70000 Big"), None);
    assert_eq!(parse_status_line("HTTP/1.0"), None);
    assert_eq!(parse_status_line(""), None);
}

#[test]
fn header_lines_end_the_head_or_carry_a_length() {
    assert!(matches!(classify_header("\r\n"), HeaderLine::End));
    assert!(matches!(classify_header("   "), HeaderLine::End));
    assert!(matches!(classify_header("Content-Length: 5\r\n"), HeaderLine::ContentLength(Some(5))));
    assert!(matches!(classify_header("content-length:12"), HeaderLine::ContentLength(Some(12))));
    assert!(matches!(classify_header("Content-Length: five"), HeaderLine::ContentLength(None)));
    assert!(matches!(classify_header("CONTENT-LENGTH: 5"), HeaderLine::Other));
    assert!(matches!(classify_header("Content-Type: text/plain"), HeaderLine::Other));
}

#[test]
fn answers_and_requests_are_written_in_full() {
    assert_eq!(reason_phrase(200), "OK");
    assert_eq!(reason_phrase(400), "Bad Request");
    assert_eq!(reason_phrase(404), "Not Found");
    assert_eq!(reason_phrase(503), "Service Unavailable");
    assert_eq!(reason_phrase(409), "Error");
    assert_eq!(
        response_head(404, 9),
        "HTTP/1.0 404 Not Found\r\nContent-Type: application/octet-stream\r\nContent-Length: 9\r\nConnection: close\r\n\r\n"
    );
    assert_eq!(
        get_request("/sync/info", "10.0.0.2"),
        "GET /sync/info HTTP/1.0\r\nHost: 10.0.0.2\r\nConnection: close\r\n\r\n"
    );
    assert_eq!(
        post_request("/sync/pair", "h", "{\"a\":\"é\"}"),
        "POST /sync/pair HTTP/1.0\r\nHost: h\r\nContent-Type: application/json\r\nContent-Length: 10\r\nConnection: close\r\n\r\n{\"a\":\"é\"}"
    );
    assert!(INDEX_TEXT.starts_with("Quire LAN sync\n"));
}

#[test]
fn the_body_length_counts_utf8_bytes() {
    assert_eq!(utf8_byte_len(""), 0);
    assert_eq!(utf8_byte_len("abc"), 3);
    assert_eq!(utf8_byte_len("é"), 2);
    assert_eq!(utf8_byte_len("字"), 3);
    assert_eq!(utf8_byte_len("📄"), 4);
    assert_eq!(utf8_byte_len("a字📄"), "a字📄".len() as u64);
}

#[test]
fn the_client_reads_back_the_head_the_server_writes() {
    for (status, len) in [(200u16, 5usize), (400, 0), (404, 18), (409, 123456), (503, 24)] {
        let head = response_head(status, len);
        let lines: Vec<String> = head.split_inclusive('\n').map(|l| l.to_string()).collect();
        assert_eq!(lines.len(), 5);
        assert_eq!(parse_status_line(&lines[0]), Some(status));
        assert!(matches!(classify_header(&lines[1]), HeaderLine::Other));
        assert!(matches!(classify_header(&lines[2]), HeaderLine::ContentLength(Some(n)) if n == len));
        assert!(matches!(classify_header(&lines[3]), HeaderLine::Other));
        assert!(matches!(classify_header(&lines[4]), HeaderLine::End));
    }
}

#[test]
fn the_server_reads_back_the_request_the_client_writes() {
    let get = get_request("/sync/info", "192.168.1.20");
    let first = get.split_inclusive('\n').next().unwrap();
    let (method, target) = request_target(first);
    assert_eq!(method, "GET");
    assert_eq!(target, "/sync/info");

    let body = "{\"title\":\"Café 中文\"}";
    let post = post_request("/sync/snapshot", "192.168.1.20", body);
    let lines: Vec<&str> = post.split_inclusive('\n').collect();
    let (method, target) = request_target(lines[0]);
    assert_eq!(method, "POST");
    assert_eq!(target, "/sync/snapshot");
    let length = lines.iter().find_map(|l| match classify_header(l) {
        HeaderLine::ContentLength(v) => Some(v),
        _ => None,
    });
    assert_eq!(length, Some(Some(body.len())));
    assert!(post.ends_with(body));
}
