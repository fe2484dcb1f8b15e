use sketchy::http::Reply;
use sketchy::responses::{
    bad_request, fraud_score, init, not_found, ready, server_error, too_large,
};

fn score_response(body: &str) -> Vec<u8> {
    format!(
        "HTTP/1.1 200 OK\r\nContent-Type: application/json\r\nContent-Length: {}\r\nConnection: keep-alive\r\n\r\n{}",
        body.len(),
        body
    )
    .into_bytes()
}

#[test]
fn six_score_responses() {
    let all = init();
    let bodies = [
        "{\"approved\":true,\"fraud_score\":0.0000}",
        "{\"approved\":true,\"fraud_score\":0.2000}",
        "{\"approved\":true,\"fraud_score\":0.4000}",
        "{\"approved\":false,\"fraud_score\":0.6000}",
        "{\"approved\":false,\"fraud_score\":0.8000}",
        "{\"approved\":false,\"fraud_score\":1.0000}",
    ];
    for (k, body) in bodies.iter().enumerate() {
        assert_eq!(fraud_score(&all, k), score_response(body).as_slice());
    }
}

#[test]
fn score_content_lengths() {
    let all = init();
    let approved = fraud_score(&all, 2);
    let denied = fraud_score(&all, 3);
    let text_a = String::from_utf8(approved.to_vec()).unwrap();
    let text_d = String::from_utf8(denied.to_vec()).unwrap();
    assert!(text_a.contains("Content-Length: 38\r\n"));
    assert!(text_d.contains("Content-Length: 39\r\n"));
}

#[test]
fn fixed_responses() {
    let all = init();
    assert_eq!(
        ready(&all),
        b"HTTP/1.1 200 OK\r\nContent-Length: 0\r\nConnection: keep-alive\r\n\r\n"
    );
    assert_eq!(
        not_found(&all),
        b"HTTP/1.1 404 Not Found\r\nContent-Length: 0\r\nConnection: close\r\n\r\n"
    );
    assert_eq!(
        bad_request(&all),
        b"HTTP/1.1 400 Bad Request\r\nContent-Type: application/json\r\nContent-Length: 27\r\nConnection: close\r\n\r\n{\"error\":\"invalid_payload\"}"
    );
    assert_eq!(
        too_large(&all),
        b"HTTP/1.1 413 Payload Too Large\r\nContent-Length: 0\r\nConnection: close\r\n\r\n"
    );
    assert_eq!(
        server_error(&all),
        b"HTTP/1.1 500 Internal Server Error\r\nContent-Length: 0\r\nConnection: close\r\n\r\n"
    );
}

#[test]
fn done_picks_reply_bytes() {
    let all = init();
    let d = all.done(Reply::FraudScore(4), false);
    assert_eq!(d.response, fraud_score(&all, 4));
    assert!(!d.close);
    let d2 = all.done(Reply::NotFound, true);
    assert_eq!(d2.response, not_found(&all));
    assert!(d2.close);
    assert_eq!(all.done(Reply::Ready, false).response, ready(&all));
    assert_eq!(all.done(Reply::BadRequest, true).response, bad_request(&all));
    assert_eq!(all.done(Reply::TooLarge, true).response, too_large(&all));
    assert_eq!(all.done(Reply::ServerError, true).response, server_error(&all));
}
