use sketchy::date::{iso_hour_utc, iso_to_epoch_seconds, minutes_between, weekday_monday_zero};
use sketchy::vectorize::extract;

const BODY: &str = r#"{"id":"tx-1","transaction":{"amount":41.12,"installments":2,"requested_at":"2026-03-11T18:45:53Z"},"customer":{"avg_amount":82.24,"tx_count_24h":3,"known_merchants":["MERC-003","MERC-016"]},"merchant":{"id":"MERC-016","mcc":"5411","avg_amount":60.25},"terminal":{"is_online":false,"card_present":true,"km_from_home":29.23},"last_transaction":{"timestamp":"2026-03-11T14:58:35Z","km_from_current":18.86}}"#;

fn text(body: &[u8], r: (usize, usize)) -> &[u8] {
    &body[r.0..r.1]
}

#[test]
fn hour_of_timestamp() {
    assert_eq!(iso_hour_utc(b"2026-03-11T18:45:53Z"), 18);
    assert_eq!(iso_hour_utc(b"2026-03-11T00:00:00Z"), 0);
    assert_eq!(iso_hour_utc(b"2026-03-11T23:59:59Z"), 23);
    // Hours past 23 are capped.
    assert_eq!(iso_hour_utc(b"2026-03-11T47:00:00Z"), 23);
}

#[test]
fn weekday_of_date() {
    assert_eq!(weekday_monday_zero(b"2026-03-11T18:45:53Z"), 2);
    assert_eq!(weekday_monday_zero(b"1970-01-01T00:00:00Z"), 3);
    assert_eq!(weekday_monday_zero(b"2000-02-29T00:00:00Z"), 1);
    assert_eq!(weekday_monday_zero(b"2024-01-01T00:00:00Z"), 0);
    assert_eq!(weekday_monday_zero(b"1969-12-28T00:00:00Z"), 6);
}

#[test]
fn epoch_seconds() {
    assert_eq!(iso_to_epoch_seconds(b"1970-01-01T00:00:00"), 0);
    assert_eq!(iso_to_epoch_seconds(b"2000-01-01T00:00:00Z"), 946_684_800);
    assert_eq!(iso_to_epoch_seconds(b"2026-03-11T18:45:53Z"), 1_773_254_753);
    assert_eq!(iso_to_epoch_seconds(b"1969-12-31T23:59:00Z"), -60);
    assert_eq!(iso_to_epoch_seconds(b"2000-03-01T00:00:00Z") - iso_to_epoch_seconds(b"2000-02-28T00:00:00Z"), 2 * 86_400);
}

#[test]
fn whole_minutes_between() {
    let a = b"2026-03-11T18:45:53Z";
    let b = b"2026-03-11T14:58:35Z";
    assert_eq!(minutes_between(a, b), 227);
    assert_eq!(minutes_between(b, a), 227);
    assert_eq!(minutes_between(b"2026-03-11T00:00:59", b"2026-03-11T00:00:00"), 0);
    assert_eq!(minutes_between(b"2026-03-12T00:00:00", b"2026-03-11T00:00:00"), 1440);
}

#[test]
fn extract_full_body() {
    let body = BODY.as_bytes();
    let f = extract(body).unwrap();
    assert_eq!(text(body, f.amount), b"41.12");
    assert_eq!(text(body, f.installments), b"2");
    assert_eq!(text(body, f.requested_at), b"2026-03-11T18:45:53Z");
    assert_eq!(text(body, f.customer_avg), b"82.24");
    assert_eq!(text(body, f.tx_count_24h), b"3");
    assert_eq!(text(body, f.merchant_id), b"MERC-016");
    assert_eq!(text(body, f.mcc), b"5411");
    assert_eq!(text(body, f.merchant_avg), b"60.25");
    assert!(!f.is_online);
    assert!(f.card_present);
    assert_eq!(text(body, f.km_from_home), b"29.23");
    assert!(f.known_merchant);
    assert_eq!(f.hour, 18);
    assert_eq!(f.weekday, 2);
    let last = f.last.unwrap();
    assert_eq!(text(body, last.timestamp), b"2026-03-11T14:58:35Z");
    assert_eq!(text(body, last.km_from_current), b"18.86");
    assert_eq!(last.minutes, 227);
}

#[test]
fn extract_without_last_transaction() {
    let body = BODY.replace(
        "\"last_transaction\":{\"timestamp\":\"2026-03-11T14:58:35Z\",\"km_from_current\":18.86}",
        "\"last_transaction\":null",
    );
    let f = extract(body.as_bytes()).unwrap();
    assert!(f.last.is_none());
    let unknown = BODY.replace("\"MERC-003\",\"MERC-016\"", "\"MERC-003\"");
    let g = extract(unknown.as_bytes()).unwrap();
    assert!(!g.known_merchant);
}

#[test]
fn extract_rejects_malformed_bodies() {
    // A missing object.
    let no_terminal = BODY.replace("\"terminal\"", "\"term\"");
    assert!(extract(no_terminal.as_bytes()).is_err());
    // A missing number.
    let no_amount = BODY.replace("\"amount\":41.12,", "");
    assert!(extract(no_amount.as_bytes()).is_err());
    // A timestamp shorter than 19 bytes.
    let short = BODY.replace("2026-03-11T18:45:53Z", "2026-03-11T18:45");
    assert!(extract(short.as_bytes()).is_err());
    // A last transaction without its distance.
    let no_km = BODY.replace(",\"km_from_current\":18.86", "");
    assert!(extract(no_km.as_bytes()).is_err());
    // A boolean that is not a literal.
    let bad_bool = BODY.replace("\"is_online\":false", "\"is_online\":0");
    assert!(extract(bad_bool.as_bytes()).is_err());
    // An unclosed object.
    assert!(extract(b"{\"transaction\":{\"amount\":1").is_err());
    assert!(extract(b"").is_err());
}
