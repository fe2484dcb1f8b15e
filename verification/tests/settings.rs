use sketchy::config::{parse_u32, Config, Setting, SettingError};
use sketchy::num::{parse_unsigned, IntErrorKind};

fn raw(s: &str) -> Option<&[u8]> {
    Some(s.as_bytes())
}

#[test]
fn defaults_when_nothing_is_set() {
    let c = Config::from_values(None, None, None, None, None, None, None, None).unwrap();
    assert_eq!(c.uds_path, "/sockets/api.sock");
    assert_eq!(c.index_path, "/app/index.bin");
    assert_eq!(c.mcc_risk_path, "/app/mcc_risk.json");
    assert_eq!(c.ivf_nprobe, 1);
    assert_eq!(c.iouring_qd, 4096);
    assert_eq!(c.accept_sqes, 256);
    assert_eq!(c.backlog, 4096);
    assert_eq!(c.max_conns, 1024);
}

#[test]
fn values_override_defaults() {
    let c = Config::from_values(
        Some("/tmp/a.sock".to_string()),
        Some("/data/i.bin".to_string()),
        Some("/data/m.json".to_string()),
        raw("8"),
        raw("+128"),
        raw("0"),
        raw("4294967295"),
        raw("16"),
    )
    .unwrap();
    assert_eq!(c.uds_path, "/tmp/a.sock");
    assert_eq!(c.index_path, "/data/i.bin");
    assert_eq!(c.mcc_risk_path, "/data/m.json");
    assert_eq!(c.ivf_nprobe, 8);
    assert_eq!(c.iouring_qd, 128);
    assert_eq!(c.accept_sqes, 0);
    // The backlog is the u32 read as a signed 32-bit value.
    assert_eq!(c.backlog, -1);
    assert_eq!(c.max_conns, 16);
}

#[test]
fn first_bad_number_is_reported() {
    let e = Config::from_values(None, None, None, raw("x"), raw(""), None, None, None);
    assert_eq!(
        e.err(),
        Some(SettingError { setting: Setting::IvfNprobe, kind: IntErrorKind::InvalidDigit })
    );
    let e2 = Config::from_values(None, None, None, raw("2"), raw(""), None, None, None);
    assert_eq!(
        e2.err(),
        Some(SettingError { setting: Setting::IouringQd, kind: IntErrorKind::Empty })
    );
    let e3 = Config::from_values(None, None, None, None, None, None, raw("4294967296"), None);
    assert_eq!(
        e3.err(),
        Some(SettingError { setting: Setting::Backlog, kind: IntErrorKind::PosOverflow })
    );
    let e4 = Config::from_values(None, None, None, None, None, raw("-1"), None, raw("1"));
    assert_eq!(
        e4.err(),
        Some(SettingError { setting: Setting::AcceptSqes, kind: IntErrorKind::InvalidDigit })
    );
    let e5 = Config::from_values(None, None, None, None, None, None, None, raw(" 1"));
    assert_eq!(
        e5.err(),
        Some(SettingError { setting: Setting::MaxConns, kind: IntErrorKind::InvalidDigit })
    );
}

#[test]
fn single_setting() {
    assert_eq!(parse_u32(None, 7), Ok(7));
    assert_eq!(parse_u32(raw("42"), 7), Ok(42));
    assert_eq!(parse_u32(raw("4294967295"), 7), Ok(u32::MAX));
    assert_eq!(parse_u32(raw("4294967296"), 7), Err(IntErrorKind::PosOverflow));
    assert_eq!(parse_u32(raw("+"), 7), Err(IntErrorKind::InvalidDigit));
}

#[test]
fn unsigned_decimals() {
    assert_eq!(parse_unsigned(b"0", 10), Ok(0));
    assert_eq!(parse_unsigned(b"007", 10), Ok(7));
    assert_eq!(parse_unsigned(b"10", 10), Ok(10));
    assert_eq!(parse_unsigned(b"11", 10), Err(IntErrorKind::PosOverflow));
    assert_eq!(parse_unsigned(b"", 10), Err(IntErrorKind::Empty));
    assert_eq!(parse_unsigned(b"-", 10), Err(IntErrorKind::InvalidDigit));
    assert_eq!(parse_unsigned(b"+", 10), Err(IntErrorKind::InvalidDigit));
    assert_eq!(parse_unsigned(b"+9", 10), Ok(9));
    assert_eq!(parse_unsigned(b"1x", 10), Err(IntErrorKind::InvalidDigit));
    assert_eq!(parse_unsigned(b"18446744073709551615", u64::MAX), Ok(u64::MAX));
    assert_eq!(parse_unsigned(b"18446744073709551616", u64::MAX), Err(IntErrorKind::PosOverflow));
    // Overflow is reported at the first digit that passes the maximum,
    // even when a later byte is not a digit.
    assert_eq!(parse_unsigned(b"99x", 10), Err(IntErrorKind::PosOverflow));
}
