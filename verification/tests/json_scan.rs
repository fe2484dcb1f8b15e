use sketchy::json::{
    array_contains_string, find_key, index_byte_from, json_bool, json_string, match_brace, memmem,
    number_token, object_range, skip_ws, string_range,
};

#[test]
fn memmem_finds_first_occurrence() {
    assert_eq!(memmem(b"abcabc", b"bc"), Some(1));
    assert_eq!(memmem(b"abcabc", b"cab"), Some(2));
    assert_eq!(memmem(b"abcabc", b""), Some(0));
    assert_eq!(memmem(b"abc", b"abcd"), None);
    assert_eq!(memmem(b"abc", b"x"), None);
    assert_eq!(memmem(b"", b""), Some(0));
}

#[test]
fn find_key_stays_in_range() {
    let body = b"{\"a\":1,\"b\":2,\"a\":3}";
    assert_eq!(find_key(body, 0, body.len(), b"\"a\""), Some(1));
    assert_eq!(find_key(body, 2, body.len(), b"\"a\""), Some(13));
    assert_eq!(find_key(body, 0, 10, b"\"b\""), Some(7));
    assert_eq!(find_key(body, 0, 9, b"\"b\""), None);
    assert_eq!(find_key(body, 5, 5, b"\"b\""), None);
    assert_eq!(find_key(body, 9, 3, b"\"b\""), None);
}

#[test]
fn byte_search_and_whitespace() {
    let body = b"ab : \t\r\n x";
    assert_eq!(index_byte_from(body, 0, body.len(), b':'), Some(3));
    assert_eq!(index_byte_from(body, 4, body.len(), b':'), None);
    assert_eq!(index_byte_from(body, 0, 3, b':'), None);
    assert_eq!(skip_ws(body, 4, body.len()), 9);
    assert_eq!(skip_ws(body, 4, 8), 8);
    assert_eq!(skip_ws(body, 0, body.len()), 0);
    assert_eq!(skip_ws(body, 7, 3), 3);
}

#[test]
fn brace_matching_skips_strings() {
    let body = b"{\"k\":{\"x\":\"}\\\"{\"},\"y\":1}}tail";
    assert_eq!(match_brace(body, 0, body.len()), Some(body.len() - 5));
    assert_eq!(match_brace(body, 5, body.len()), Some(17));
    assert_eq!(match_brace(b"{{}", 0, 3), None);
    assert_eq!(match_brace(b"x}", 0, 2), None);
}

#[test]
fn object_ranges() {
    let body = b"{\"t\" : {\"a\":1}, \"c\":{\"b\":{}}, \"n\":null, \"s\":\"{\"}";
    assert_eq!(object_range(body, 0, body.len(), b"\"t\""), Some((7, 14)));
    assert_eq!(&body[7..14], b"{\"a\":1}");
    let c = object_range(body, 0, body.len(), b"\"c\"").unwrap();
    assert_eq!(&body[c.0..c.1], b"{\"b\":{}}");
    assert_eq!(object_range(body, 0, body.len(), b"\"n\""), None);
    assert_eq!(object_range(body, 0, body.len(), b"\"s\""), None);
    assert_eq!(object_range(body, 0, body.len(), b"\"zz\""), None);
    // The object must close before `end`.
    assert_eq!(object_range(body, 0, 12, b"\"t\""), None);
}

#[test]
fn number_tokens() {
    let body = b"{\"a\": -12.5e+3, \"b\":7,\"c\": x, \"d\":-, \"e\":+}";
    let a = number_token(body, 0, body.len(), b"\"a\"").unwrap();
    assert_eq!(&body[a.0..a.1], b"-12.5e+3");
    let b = number_token(body, 0, body.len(), b"\"b\"").unwrap();
    assert_eq!(&body[b.0..b.1], b"7");
    assert_eq!(number_token(body, 0, body.len(), b"\"c\""), None);
    let d = number_token(body, 0, body.len(), b"\"d\"").unwrap();
    assert_eq!(&body[d.0..d.1], b"-");
    let e = number_token(body, 0, body.len(), b"\"e\"").unwrap();
    assert_eq!(&body[e.0..e.1], b"+");
    assert_eq!(number_token(body, 0, body.len(), b"\"z\""), None);
    // A token stops at the end of the range.
    let cut = number_token(body, 0, 9, b"\"a\"").unwrap();
    assert_eq!(&body[cut.0..cut.1], b"-12");
}

#[test]
fn booleans() {
    let body = b"{\"x\":true,\"y\": false,\"z\":tru,\"w\":\"true\"}";
    assert_eq!(json_bool(body, 0, body.len(), b"\"x\""), Some(true));
    assert_eq!(json_bool(body, 0, body.len(), b"\"y\""), Some(false));
    assert_eq!(json_bool(body, 0, body.len(), b"\"z\""), None);
    assert_eq!(json_bool(body, 0, body.len(), b"\"w\""), None);
    assert_eq!(json_bool(body, 0, 8, b"\"x\""), None);
}

#[test]
fn strings() {
    let body = b"{\"id\": \"MERC-1\",\"n\":3,\"open\":\"abc}";
    assert_eq!(json_string(body, 0, body.len(), b"\"id\""), Some(&b"MERC-1"[..]));
    assert_eq!(string_range(body, 0, body.len(), b"\"id\""), Some((8, 14)));
    assert_eq!(json_string(body, 0, body.len(), b"\"n\""), None);
    assert_eq!(json_string(body, 0, body.len(), b"\"open\""), None);
    let empty = b"{\"e\":\"\"}";
    assert_eq!(json_string(empty, 0, empty.len(), b"\"e\""), Some(&b""[..]));
}

#[test]
fn string_arrays() {
    let body = b"{\"k\":[ \"A\", 3, \"BB\" ],\"z\":[\"C\"]}";
    let end = body.len();
    assert!(array_contains_string(body, 0, end, b"\"k\"", b"A"));
    assert!(array_contains_string(body, 0, end, b"\"k\"", b"BB"));
    assert!(!array_contains_string(body, 0, end, b"\"k\"", b"B"));
    // The scan stops at the first `]`.
    assert!(!array_contains_string(body, 0, end, b"\"k\"", b"C"));
    assert!(array_contains_string(body, 0, end, b"\"z\"", b"C"));
    assert!(!array_contains_string(body, 0, end, b"\"q\"", b"A"));
    let open = b"{\"k\":[\"A";
    assert!(!array_contains_string(open, 0, open.len(), b"\"k\"", b"A"));
    let empty = b"{\"k\":[]}";
    assert!(!array_contains_string(empty, 0, empty.len(), b"\"k\"", b""));
}
