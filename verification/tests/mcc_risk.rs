use sketchy::mcc::{code4, scan_risk_file, skip_ws, RiskFileError, Table};

#[test]
fn four_digit_codes() {
    assert_eq!(code4(b"5411"), Some(5411));
    assert_eq!(code4(b"0000"), Some(0));
    assert_eq!(code4(b"9999"), Some(9999));
    assert_eq!(code4(b"54119"), None);
    assert_eq!(code4(b"541"), None);
    assert_eq!(code4(b"54a1"), None);
    assert_eq!(code4(b""), None);
}

#[test]
fn table_lookup_and_default() {
    let mut t: Table<f32> = Table::new(0.0, 0.5);
    assert_eq!(t.get(b"5411"), 0.5);
    t.set_one(5411, 0.15);
    t.set_one(7995, 0.85);
    assert_eq!(t.get(b"5411"), 0.15);
    assert_eq!(t.get(b"7995"), 0.85);
    assert_eq!(t.get(b"5412"), 0.5);
    assert_eq!(t.get(b"54"), 0.5);
    assert_eq!(t.get(b"54110"), 0.5);
    assert_eq!(t.get(b"abcd"), 0.5);
    // A later setting replaces an earlier one.
    t.set_one(5411, 0.3);
    assert_eq!(t.get(b"5411"), 0.3);
    // Setting the default value itself is still an entry.
    t.set_one(1, 0.0);
    assert_eq!(t.get(b"0001"), 0.0);
}

#[test]
fn risk_file_entries() {
    let data = b" {\"5411\": 0.15, \"7995\":0.85 ,\"x\" :\t1e0}";
    let (entries, status) = scan_risk_file(data);
    assert_eq!(status, Ok(()));
    assert_eq!(entries.len(), 3);
    let kv: Vec<(&[u8], &[u8])> = entries
        .iter()
        .map(|e| (&data[e.key.0..e.key.1], &data[e.value.0..e.value.1]))
        .collect();
    assert_eq!(kv[0], (&b"5411"[..], &b"0.15"[..]));
    assert_eq!(kv[1], (&b"7995"[..], &b"0.85"[..]));
    assert_eq!(kv[2], (&b"x"[..], &b"1e0"[..]));
    let (none, ok) = scan_risk_file(b"{}");
    assert!(none.is_empty());
    assert_eq!(ok, Ok(()));
}

#[test]
fn risk_file_errors() {
    assert_eq!(scan_risk_file(b"").1, Err(RiskFileError::ExpectedObject));
    assert_eq!(scan_risk_file(b"[1]").1, Err(RiskFileError::ExpectedObject));
    assert_eq!(scan_risk_file(b"{").1, Err(RiskFileError::Unterminated));
    assert_eq!(scan_risk_file(b"{\"1\":2,").1, Err(RiskFileError::Unterminated));
    assert_eq!(scan_risk_file(b"{ 5411: 1}").1, Err(RiskFileError::ExpectedKey(2)));
    assert_eq!(scan_risk_file(b"{\"54").1, Err(RiskFileError::UnterminatedKey));
    assert_eq!(scan_risk_file(b"{\"5411\" 1}").1, Err(RiskFileError::ExpectedColon));
    // Entries before the error are kept.
    let (entries, status) = scan_risk_file(b"{\"1\":2,\"3\" 4}");
    assert_eq!(entries.len(), 1);
    assert_eq!(status, Err(RiskFileError::ExpectedColon));
}

#[test]
fn empty_value_token() {
    let data = b"{\"5411\": , \"1\":2}";
    let (entries, status) = scan_risk_file(data);
    assert_eq!(status, Ok(()));
    assert_eq!(entries.len(), 2);
    assert_eq!(entries[0].value.0, entries[0].value.1);
}

#[test]
fn whitespace_skip() {
    assert_eq!(skip_ws(b"  \t\r\nx", 0), 5);
    assert_eq!(skip_ws(b"x ", 0), 0);
    assert_eq!(skip_ws(b"  ", 0), 2);
    assert_eq!(skip_ws(b"ab", 5), 5);
}
