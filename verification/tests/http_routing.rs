use sketchy::http::{
    find_crlf, find_header_end, header_prefix_matches, parse_content_length, route, score_reply,
    Reply, Route,
};

fn pos(hay: &[u8], needle: &[u8]) -> usize {
    hay.windows(needle.len()).position(|w| w == needle).unwrap()
}

#[test]
fn ready_keeps_connection() {
    let req = b"GET /ready HTTP/1.1\r\nHost: api\r\n\r\n";
    assert_eq!(route(req, false), Route::Answer(Reply::Ready, false));
    // Only the prefix of the request line is compared.
    let req2 = b"GET /readyz HTTP/1.1\r\nHost: api\r\n\r\n";
    assert_eq!(route(req2, false), Route::Answer(Reply::Ready, false));
}

#[test]
fn unfinished_headers_wait_or_overflow() {
    let partial = b"GET /ready HTTP/1.1\r\nHost: api\r\n";
    assert_eq!(route(partial, false), Route::Incomplete);
    assert_eq!(route(partial, true), Route::Answer(Reply::TooLarge, true));
    assert_eq!(route(b"", false), Route::Incomplete);
}

#[test]
fn requests_without_headers() {
    // The readiness probe is answered even without header lines.
    assert_eq!(route(b"GET /ready HTTP/1.0\r\n\r\n", false), Route::Answer(Reply::Ready, false));
    // Any other request without header lines is malformed.
    assert_eq!(route(b"GET /other HTTP/1.0\r\n\r\n", false), Route::Answer(Reply::BadRequest, true));
    assert_eq!(route(b"\r\n\r\n", false), Route::Answer(Reply::BadRequest, true));
    // A score request without headers has no length.
    assert_eq!(
        route(b"POST /fraud-score HTTP/1.1\r\n\r\n", false),
        Route::Answer(Reply::BadRequest, true)
    );
}

#[test]
fn other_paths_are_not_found() {
    let req = b"GET /other HTTP/1.1\r\nHost: api\r\n\r\n";
    assert_eq!(route(req, false), Route::Answer(Reply::NotFound, true));
    let req2 = b"POST /fraud HTTP/1.1\r\nHost: api\r\n\r\n";
    assert_eq!(route(req2, true), Route::Answer(Reply::NotFound, true));
}

#[test]
fn score_without_length_is_bad() {
    let req = b"POST /fraud-score HTTP/1.1\r\nHost: api\r\n\r\n{}";
    assert_eq!(route(req, false), Route::Answer(Reply::BadRequest, true));
    let req2 = b"POST /fraud-score HTTP/1.1\r\nContent-Length: abc\r\n\r\n{}";
    assert_eq!(route(req2, false), Route::Answer(Reply::BadRequest, true));
    let req3 = b"POST /fraud-score HTTP/1.1\r\nContent-Length:  \t \r\n\r\n{}";
    assert_eq!(route(req3, false), Route::Answer(Reply::BadRequest, true));
}

#[test]
fn short_body_waits_or_overflows() {
    let req = b"POST /fraud-score HTTP/1.1\r\nContent-Length: 5\r\n\r\nab";
    assert_eq!(route(req, false), Route::Incomplete);
    assert_eq!(route(req, true), Route::Answer(Reply::TooLarge, true));
}

#[test]
fn complete_body_is_scored() {
    let req = b"POST /fraud-score HTTP/1.1\r\nHost: api\r\ncontent-LENGTH:   3 \r\n\r\nabcdef";
    let start = pos(req, b"\r\n\r\n") + 4;
    assert_eq!(route(req, false), Route::Score(start, start + 3));
    assert_eq!(&req[start..start + 3], b"abc");
    let req2 = b"POST /fraud-score HTTP/1.1\r\nContent-Length: +2\r\n\r\nxy";
    let start2 = pos(req2, b"\r\n\r\n") + 4;
    assert_eq!(route(req2, true), Route::Score(start2, start2 + 2));
    let req3 = b"POST /fraud-score HTTP/1.1\r\nContent-Length: 0\r\n\r\n";
    assert_eq!(route(req3, false), Route::Score(req3.len(), req3.len()));
}

#[test]
fn content_length_parsing() {
    assert_eq!(parse_content_length(b"Host: a\r\nContent-Length: 12"), Some(12));
    assert_eq!(parse_content_length(b"content-length:\t7\t"), Some(7));
    assert_eq!(parse_content_length(b"CONTENT-LENGTH:42\r\nX: y"), Some(42));
    assert_eq!(parse_content_length(b""), None);
    assert_eq!(parse_content_length(b"Host: a"), None);
    assert_eq!(parse_content_length(b"Content-Length: 1 2"), None);
    assert_eq!(parse_content_length(b"Content-Length: -1"), None);
    assert_eq!(parse_content_length(b"Content-Lengthy: 3"), None);
    assert_eq!(parse_content_length(b"Content-Length: 99999999999999999999999"), None);
    // The first matching header decides.
    assert_eq!(parse_content_length(b"Content-Length: x\r\nContent-Length: 5"), None);
    assert_eq!(parse_content_length(b"Content-Length: 5\r\nContent-Length: x"), Some(5));
}

#[test]
fn header_name_match_ignores_case() {
    assert!(header_prefix_matches(b"CONTENT-LENGTH: 5", b"content-length:"));
    assert!(header_prefix_matches(b"Content-Length:", b"content-length:"));
    assert!(!header_prefix_matches(b"Content-Len", b"content-length:"));
    assert!(!header_prefix_matches(b"Content_Length: 5", b"content-length:"));
}

#[test]
fn line_and_blank_line_search() {
    assert_eq!(find_header_end(b"ab\r\n\r\ncd"), Some(2));
    assert_eq!(find_header_end(b"ab\r\ncd\r\n\r\n"), Some(6));
    assert_eq!(find_header_end(b"\r\n\r"), None);
    assert_eq!(find_crlf(b"abc\r\n"), Some(3));
    assert_eq!(find_crlf(b"a\rb\nc\r\n"), Some(5));
    assert_eq!(find_crlf(b"\r"), None);
    assert_eq!(find_crlf(b""), None);
}

#[test]
fn score_replies() {
    for k in 0..=5 {
        assert_eq!(score_reply(k), (Reply::FraudScore(k as usize), false));
    }
    assert_eq!(score_reply(-1), (Reply::ServerError, true));
    assert_eq!(score_reply(6), (Reply::ServerError, true));
}
