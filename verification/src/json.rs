//! Byte-level scanning of the transaction JSON body.
//!
//! The body is not parsed into a tree: a top-level object is found by
//! searching for its quoted key, then the colon, then the opening brace,
//! and its end by counting braces outside strings. Within an object,
//! values are found the same way by key. All positions are byte offsets
//! into the body, and every search stays inside `start..end`.
use vstd::prelude::*;
use crate::text::{bytes_eq_at, slice_of};

verus! {

pub const QUOTE: u8 = 34;
pub const BACKSLASH: u8 = 92;
pub const COLON: u8 = 58;
pub const LBRACE: u8 = 123;
pub const RBRACE: u8 = 125;
pub const LBRACKET: u8 = 91;
pub const RBRACKET: u8 = 93;

/// JSON insignificant whitespace: space, tab, line feed, carriage return.
pub open spec fn is_ws(b: u8) -> bool {
    b == 32 || b == 9 || b == 10 || b == 13
}

/// A byte that may continue a number token: digit, `.`, `e`, `E`, `-`, `+`.
pub open spec fn is_num_byte(b: u8) -> bool {
    (48 <= b <= 57) || b == 46 || b == 101 || b == 69 || b == 45 || b == 43
}

/// First position `p >= i` where `needle` occurs in `h`.
pub open spec fn first_match(h: Seq<u8>, needle: Seq<u8>, i: int) -> Option<int>
    decreases h.len() + 1 - i,
{
    if i < 0 || i + needle.len() > h.len() {
        None
    } else if h.subrange(i, i + needle.len()) == needle {
        Some(i)
    } else {
        first_match(h, needle, i + 1)
    }
}

/// First position in `p..end` holding byte `c`.
pub open spec fn first_byte(body: Seq<u8>, c: u8, p: int, end: int) -> Option<int>
    decreases end - p,
{
    if p >= end {
        None
    } else if body[p] == c {
        Some(p)
    } else {
        first_byte(body, c, p + 1, end)
    }
}

/// First position in `p..end` that is not whitespace, or `end`.
pub open spec fn skip_ws_spec(body: Seq<u8>, p: int, end: int) -> int
    decreases end - p,
{
    if p >= end {
        end
    } else if is_ws(body[p]) {
        skip_ws_spec(body, p + 1, end)
    } else {
        p
    }
}

/// First position in `q..end` that cannot continue a number token, or `end`.
pub open spec fn num_end(body: Seq<u8>, q: int, end: int) -> int
    decreases end - q,
{
    if q >= end {
        end
    } else if is_num_byte(body[q]) {
        num_end(body, q + 1, end)
    } else {
        q
    }
}

/// Brace matching from position `p`, at brace depth `depth`, inside a
/// string or not, after a backslash in a string or not: the position
/// just past the `}` that brings the depth back to zero.
pub open spec fn brace_from(
    body: Seq<u8>,
    p: int,
    end: int,
    depth: int,
    in_str: bool,
    esc: bool,
) -> Option<int>
    decreases end - p,
{
    if p >= end {
        None
    } else {
        let c = body[p];
        if in_str {
            if esc {
                brace_from(body, p + 1, end, depth, true, false)
            } else if c == BACKSLASH {
                brace_from(body, p + 1, end, depth, true, true)
            } else if c == QUOTE {
                brace_from(body, p + 1, end, depth, false, false)
            } else {
                brace_from(body, p + 1, end, depth, true, false)
            }
        } else if c == QUOTE {
            brace_from(body, p + 1, end, depth, true, esc)
        } else if c == LBRACE {
            brace_from(body, p + 1, end, depth + 1, false, esc)
        } else if c == RBRACE {
            if depth - 1 == 0 {
                Some(p + 1)
            } else {
                brace_from(body, p + 1, end, depth - 1, false, esc)
            }
        } else {
            brace_from(body, p + 1, end, depth, false, esc)
        }
    }
}

/// Position of the first occurrence of `key` inside `start..end`.
pub open spec fn find_key_spec(body: Seq<u8>, start: int, end: int, key: Seq<u8>) -> Option<int> {
    if start >= end {
        None
    } else {
        match first_match(body.subrange(start, end), key, 0) {
            Some(p) => Some(start + p),
            None => None,
        }
    }
}

/// Position of the first non-space byte after the colon that follows
/// `key` inside `start..end`.
pub open spec fn value_start(body: Seq<u8>, start: int, end: int, key: Seq<u8>) -> Option<int> {
    match find_key_spec(body, start, end, key) {
        None => None,
        Some(k) => match first_byte(body, COLON, k + key.len(), end) {
            None => None,
            Some(colon) => Some(skip_ws_spec(body, colon + 1, end)),
        },
    }
}

/// The object that `key` names inside `start..end`: from its `{` to just
/// past its matching `}`.
#[verifier::opaque]
pub open spec fn object_range_spec(body: Seq<u8>, start: int, end: int, key: Seq<u8>) -> Option<
    (int, int),
> {
    match value_start(body, start, end, key) {
        None => None,
        Some(p) => if p >= end || body[p] != LBRACE {
            None
        } else {
            match brace_from(body, p, end, 0, false, false) {
                None => None,
                Some(close) => Some((p, close)),
            }
        },
    }
}

/// The number token that `key` names: an optional sign followed by bytes
/// that may continue a number; absent when that is empty.
#[verifier::opaque]
pub open spec fn number_token_spec(body: Seq<u8>, start: int, end: int, key: Seq<u8>) -> Option<
    (int, int),
> {
    match value_start(body, start, end, key) {
        None => None,
        Some(p) => if p >= end {
            None
        } else {
            let q0 = if body[p] == 45 || body[p] == 43 {
                p + 1
            } else {
                p
            };
            let q = num_end(body, q0, end);
            if q == p {
                None
            } else {
                Some((p, q))
            }
        },
    }
}

/// The literal `true` or `false` that `key` names.
#[verifier::opaque]
pub open spec fn bool_spec(body: Seq<u8>, start: int, end: int, key: Seq<u8>) -> Option<bool> {
    match value_start(body, start, end, key) {
        None => None,
        Some(p) => if p + 4 <= end && body.subrange(p, p + 4) == crate::text::ascii("true"@) {
            Some(true)
        } else if p + 5 <= end && body.subrange(p, p + 5) == crate::text::ascii("false"@) {
            Some(false)
        } else {
            None
        },
    }
}

/// The contents (between the quotes) of the string that `key` names.
#[verifier::opaque]
pub open spec fn string_spec(body: Seq<u8>, start: int, end: int, key: Seq<u8>) -> Option<
    (int, int),
> {
    match value_start(body, start, end, key) {
        None => None,
        Some(p) => if p >= end || body[p] != QUOTE {
            None
        } else {
            match first_byte(body, QUOTE, p + 1, end) {
                None => None,
                Some(q) => Some((p + 1, q)),
            }
        },
    }
}

pub proof fn lemma_skip_ws_bounds(body: Seq<u8>, p: int, end: int)
    ensures
        p <= end ==> p <= skip_ws_spec(body, p, end) <= end,
        p > end ==> skip_ws_spec(body, p, end) == end,
    decreases end - p,
{
    if p < end && is_ws(body[p]) {
        lemma_skip_ws_bounds(body, p + 1, end);
    }
}

pub proof fn lemma_first_byte_bounds(body: Seq<u8>, c: u8, p: int, end: int)
    ensures
        first_byte(body, c, p, end) matches Some(q) ==> p <= q < end && body[q] == c,
    decreases end - p,
{
    if p < end && body[p] != c {
        lemma_first_byte_bounds(body, c, p + 1, end);
    }
}

/// Scan the array elements from `p`: true when one of the strings met
/// before the closing `]` equals `needle`; non-string bytes are stepped
/// over one at a time.
pub open spec fn array_scan(body: Seq<u8>, p: int, end: int, needle: Seq<u8>) -> bool
    decreases end - p,
{
    if p >= end {
        false
    } else {
        let p2 = skip_ws_spec(body, p, end);
        proof {
            lemma_skip_ws_bounds(body, p, end);
        }
        if p2 >= end || body[p2] == RBRACKET {
            false
        } else if body[p2] != QUOTE {
            array_scan(body, p2 + 1, end, needle)
        } else {
            match first_byte(body, QUOTE, p2 + 1, end) {
                None => false,
                Some(q) => {
                    proof {
                        lemma_first_byte_bounds(body, QUOTE, p2 + 1, end);
                    }
                    if body.subrange(p2 + 1, q) == needle {
                        true
                    } else {
                        array_scan(body, q + 1, end, needle)
                    }
                },
            }
        }
    }
}

/// Whether the array that `key` names contains the string `needle`.
#[verifier::opaque]
pub open spec fn array_contains_spec(
    body: Seq<u8>,
    start: int,
    end: int,
    key: Seq<u8>,
    needle: Seq<u8>,
) -> bool {
    match find_key_spec(body, start, end, key) {
        None => false,
        Some(k) => match first_byte(body, COLON, k + key.len(), end) {
            None => false,
            Some(colon) => match first_byte(body, LBRACKET, colon + 1, end) {
                None => false,
                Some(lb) => array_scan(body, lb + 1, end, needle),
            },
        },
    }
}

pub open spec fn opt_usize(r: Option<usize>) -> Option<int> {
    match r {
        Some(p) => Some(p as int),
        None => None,
    }
}

pub open spec fn opt_range(r: Option<(usize, usize)>) -> Option<(int, int)> {
    match r {
        Some(p) => Some((p.0 as int, p.1 as int)),
        None => None,
    }
}

/// First position where `needle` occurs in `haystack`.
pub fn memmem(haystack: &[u8], needle: &[u8]) -> (r: Option<usize>)
    ensures
        opt_usize(r) == first_match(haystack@, needle@, 0),
{
    let ghost h = haystack@;
    let ghost nd = needle@;
    if needle.len() == 0 {
        assert(h.subrange(0, 0) =~= nd);
        return Some(0);
    }
    if needle.len() > haystack.len() {
        return None;
    }
    let last = haystack.len() - needle.len();
    let first = needle[0];
    let mut i: usize = 0;
    while i <= last
        invariant
            h == haystack@,
            nd == needle@,
            last == h.len() - nd.len(),
            nd.len() >= 1,
            first == nd[0],
            i <= last + 1,
            first_match(h, nd, 0) == first_match(h, nd, i as int),
        decreases last + 1 - i,
    {
        if haystack[i] == first && bytes_eq_at(haystack, i, needle) {
            return Some(i);
        }
        proof {
            if haystack[i as int] != first {
                assert(h.subrange(i as int, i + nd.len())[0] != nd[0]);
            }
        }
        i += 1;
    }
    None
}

/// Position of the first occurrence of `key` inside `start..end`.
pub fn find_key(body: &[u8], start: usize, end: usize, key: &[u8]) -> (r: Option<usize>)
    requires
        start < end ==> end <= body@.len(),
    ensures
        opt_usize(r) == find_key_spec(body@, start as int, end as int, key@),
        r matches Some(k) ==> start <= k && k + key@.len() <= end,
{
    if start >= end {
        return None;
    }
    let w = slice_of(body, start, end);
    let m = memmem(w, key);
    proof {
        lemma_first_match_bounds(w@, key@, 0);
    }
    match m {
        Some(p) => Some(start + p),
        None => None,
    }
}

pub proof fn lemma_first_match_bounds(h: Seq<u8>, needle: Seq<u8>, i: int)
    ensures
        first_match(h, needle, i) matches Some(p) ==> i <= p && 0 <= p && p + needle.len() <= h.len(),
    decreases h.len() + 1 - i,
{
    if !(i < 0 || i + needle.len() > h.len()) && h.subrange(i, i + needle.len()) != needle {
        lemma_first_match_bounds(h, needle, i + 1);
    }
}

/// First position in `start..end` holding byte `c`.
pub fn index_byte_from(body: &[u8], start: usize, end: usize, c: u8) -> (r: Option<usize>)
    requires
        start < end ==> end <= body@.len(),
    ensures
        opt_usize(r) == first_byte(body@, c, start as int, end as int),
        r matches Some(p) ==> start <= p < end,
{
    if start >= end {
        return None;
    }
    let mut p = start;
    while p < end
        invariant
            start <= p <= end <= body@.len(),
            first_byte(body@, c, start as int, end as int) == first_byte(body@, c, p as int, end as int),
        decreases end - p,
    {
        if body[p] == c {
            return Some(p);
        }
        p += 1;
    }
    None
}

/// First position in `start..end` that is not whitespace, or `end`.
pub fn skip_ws(body: &[u8], start: usize, end: usize) -> (r: usize)
    requires
        start < end ==> end <= body@.len(),
    ensures
        r == skip_ws_spec(body@, start as int, end as int),
        start <= end ==> start <= r <= end,
        start > end ==> r == end,
{
    let mut p = start;
    while p < end
        invariant
            start <= p,
            p < end ==> end <= body@.len(),
            start <= end ==> p <= end,
            skip_ws_spec(body@, start as int, end as int) == skip_ws_spec(body@, p as int, end as int),
        decreases end - p,
    {
        let b = body[p];
        if b == 32 || b == 9 || b == 10 || b == 13 {
            p += 1;
        } else {
            return p;
        }
    }
    end
}

/// The position just past the `}` that closes the object opening at
/// `start`, counting braces outside strings.
pub fn match_brace(body: &[u8], start: usize, end: usize) -> (r: Option<usize>)
    requires
        start < end ==> end <= body@.len(),
        end - start <= i32::MAX,
    ensures
        opt_usize(r) == brace_from(body@, start as int, end as int, 0, false, false),
        r matches Some(c) ==> start < c <= end,
{
    let mut depth: i32 = 0;
    let mut in_str = false;
    let mut esc = false;
    let mut p = start;
    while p < end
        invariant
            start <= p,
            p < end ==> end <= body@.len(),
            start < end ==> p <= end,
            end - start <= i32::MAX,
            -(p - start) <= depth <= p - start,
            brace_from(body@, start as int, end as int, 0, false, false) == brace_from(
                body@,
                p as int,
                end as int,
                depth as int,
                in_str,
                esc,
            ),
        decreases end - p,
    {
        let c = body[p];
        if in_str {
            if esc {
                esc = false;
            } else if c == BACKSLASH {
                esc = true;
            } else if c == QUOTE {
                in_str = false;
            }
            p += 1;
            continue;
        }
        if c == QUOTE {
            in_str = true;
        } else if c == LBRACE {
            depth += 1;
        } else if c == RBRACE {
            depth -= 1;
            if depth == 0 {
                return Some(p + 1);
            }
        }
        p += 1;
    }
    None
}

/// The object that `key` names inside `start..end`: from its `{` to just
/// past its matching `}`.
pub fn object_range(body: &[u8], start: usize, end: usize, key: &[u8]) -> (r: Option<(usize, usize)>)
    requires
        start < end ==> end <= body@.len(),
        end <= i32::MAX,
    ensures
        opt_range(r) == object_range_spec(body@, start as int, end as int, key@),
        r matches Some(rg) ==> start <= rg.0 < rg.1 <= end,
{
    reveal(object_range_spec);
    let k = match find_key(body, start, end, key) {
        Some(k) => k,
        None => return None,
    };
    let colon = match index_byte_from(body, k + key.len(), end, COLON) {
        Some(c) => c,
        None => return None,
    };
    let p = skip_ws(body, colon + 1, end);
    if p >= end || body[p] != LBRACE {
        return None;
    }
    let close = match match_brace(body, p, end) {
        Some(c) => c,
        None => return None,
    };
    Some((p, close))
}

/// Position of the first non-space byte after the colon that follows
/// `key`; the shared first steps of every value lookup.
fn value_pos(body: &[u8], start: usize, end: usize, key: &[u8]) -> (r: Option<usize>)
    requires
        start < end ==> end <= body@.len(),
    ensures
        opt_usize(r) == value_start(body@, start as int, end as int, key@),
        r matches Some(p) ==> start < p <= end,
{
    let k = match find_key(body, start, end, key) {
        Some(k) => k,
        None => return None,
    };
    let colon = match index_byte_from(body, k + key.len(), end, COLON) {
        Some(c) => c,
        None => return None,
    };
    Some(skip_ws(body, colon + 1, end))
}

/// The number token that `key` names inside `start..end`.
pub fn number_token(body: &[u8], start: usize, end: usize, key: &[u8]) -> (r: Option<(usize, usize)>)
    requires
        start < end ==> end <= body@.len(),
    ensures
        opt_range(r) == number_token_spec(body@, start as int, end as int, key@),
        r matches Some(rg) ==> start < rg.0 < rg.1 <= end,
{
    reveal(number_token_spec);
    let p = match value_pos(body, start, end, key) {
        Some(p) => p,
        None => return None,
    };
    if p >= end {
        return None;
    }
    let mut q = p;
    if body[q] == 45 || body[q] == 43 {
        q += 1;
    }
    let ghost q0 = q;
    while q < end && num_byte(body[q])
        invariant
            p <= q0 <= q <= end <= body@.len(),
            num_end(body@, q0 as int, end as int) == num_end(body@, q as int, end as int),
        decreases end - q,
    {
        q += 1;
    }
    if q == p {
        return None;
    }
    Some((p, q))
}

fn num_byte(c: u8) -> (r: bool)
    ensures
        r == is_num_byte(c),
{
    (48 <= c && c <= 57) || c == 46 || c == 101 || c == 69 || c == 45 || c == 43
}

/// The literal `true` or `false` that `key` names inside `start..end`.
pub fn json_bool(body: &[u8], start: usize, end: usize, key: &[u8]) -> (r: Option<bool>)
    requires
        start < end ==> end <= body@.len(),
    ensures
        r == bool_spec(body@, start as int, end as int, key@),
{
    reveal(bool_spec);
    let p = match value_pos(body, start, end, key) {
        Some(p) => p,
        None => return None,
    };
    proof {
        reveal_strlit("true");
        reveal_strlit("false");
    }
    let t = crate::text::lit("true");
    let f = crate::text::lit("false");
    if end - p >= 4 && bytes_eq_at(body, p, t) {
        return Some(true);
    }
    if end - p >= 5 && bytes_eq_at(body, p, f) {
        return Some(false);
    }
    None
}

/// Where the contents of the string that `key` names inside `start..end`
/// begin and end.
pub fn string_range(body: &[u8], start: usize, end: usize, key: &[u8]) -> (r: Option<(usize, usize)>)
    requires
        start < end ==> end <= body@.len(),
    ensures
        opt_range(r) == string_spec(body@, start as int, end as int, key@),
        r matches Some(rg) ==> start < rg.0 <= rg.1 < end,
{
    reveal(string_spec);
    let p = match value_pos(body, start, end, key) {
        Some(p) => p,
        None => return None,
    };
    if p >= end || body[p] != QUOTE {
        return None;
    }
    let q = match index_byte_from(body, p + 1, end, QUOTE) {
        Some(q) => q,
        None => return None,
    };
    Some((p + 1, q))
}

/// The contents of the string that `key` names inside `start..end`.
pub fn json_string<'a>(body: &'a [u8], start: usize, end: usize, key: &[u8]) -> (r: Option<&'a [u8]>)
    requires
        start < end ==> end <= body@.len(),
    ensures
        match string_spec(body@, start as int, end as int, key@) {
            Some(rg) => r matches Some(s) && s@ == body@.subrange(rg.0, rg.1),
            None => r is None,
        },
{
    reveal(string_spec);
    match string_range(body, start, end, key) {
        Some((a, b)) => Some(slice_of(body, a, b)),
        None => None,
    }
}

/// Whether the array that `key` names inside `start..end` contains the
/// string `needle`.
pub fn array_contains_string(body: &[u8], start: usize, end: usize, key: &[u8], needle: &[u8]) -> (r:
    bool)
    requires
        start < end ==> end <= body@.len(),
    ensures
        r == array_contains_spec(body@, start as int, end as int, key@, needle@),
{
    reveal(array_contains_spec);
    let k = match find_key(body, start, end, key) {
        Some(k) => k,
        None => return false,
    };
    let colon = match index_byte_from(body, k + key.len(), end, COLON) {
        Some(c) => c,
        None => return false,
    };
    let lb = match index_byte_from(body, colon + 1, end, LBRACKET) {
        Some(b) => b,
        None => return false,
    };
    let mut p = lb + 1;
    while p < end
        invariant
            p <= end <= body@.len(),
            array_contains_spec(body@, start as int, end as int, key@, needle@) == array_scan(
                body@,
                p as int,
                end as int,
                needle@,
            ),
        decreases end - p,
    {
        p = skip_ws(body, p, end);
        if p >= end || body[p] == RBRACKET {
            return false;
        }
        if body[p] != QUOTE {
            p += 1;
            continue;
        }
        p += 1;
        let q = match index_byte_from(body, p, end, QUOTE) {
            Some(q) => q,
            None => return false,
        };
        let s = slice_of(body, p, q);
        if s.len() == needle.len() && bytes_eq_at(body, p, needle) {
            return true;
        }
        proof {
            if s@ == needle@ {
                assert(s@.len() == needle@.len());
            }
        }
        p = q + 1;
    }
    false
}


/// `needle` occurs in `h` at position `p`.
pub open spec fn occurs_at(h: Seq<u8>, needle: Seq<u8>, p: int) -> bool {
    0 <= p && p + needle.len() <= h.len() && forall|k: int|
        0 <= k < needle.len() ==> #[trigger] h[p + k] == needle[k]
}

/// The search finds the first occurrence: from a nonnegative start `i`,
/// the position found holds `needle` and no earlier position from `i` on
/// does; when nothing is found, `needle` occurs nowhere from `i` on.
pub proof fn lemma_first_match_is_first(h: Seq<u8>, needle: Seq<u8>, i: int)
    requires
        0 <= i,
    ensures
        first_match(h, needle, i) matches Some(p) ==> i <= p && occurs_at(h, needle, p) && forall|
            q: int,
        |
            i <= q < p ==> !occurs_at(h, needle, q),
        first_match(h, needle, i) is None ==> forall|q: int| i <= q ==> !occurs_at(h, needle, q),
    decreases h.len() + 1 - i,
{
    if i + needle.len() > h.len() {
    } else if h.subrange(i, i + needle.len()) == needle {
        assert forall|k: int| 0 <= k < needle.len() implies #[trigger] h[i + k] == needle[k] by {
            assert(h.subrange(i, i + needle.len())[k] == h[i + k]);
        }
    } else {
        lemma_first_match_is_first(h, needle, i + 1);
        assert(!occurs_at(h, needle, i)) by {
            if occurs_at(h, needle, i) {
                assert forall|k: int| 0 <= k < needle.len() implies #[trigger] h.subrange(
                    i,
                    i + needle.len(),
                )[k] == needle[k] by {
                    assert(h[i + k] == needle[k]);
                }
                assert(h.subrange(i, i + needle.len()) =~= needle);
            }
        }
    }
}

/// The byte search finds the first `c` in `p..end`, or reports that there
/// is none.
pub proof fn lemma_first_byte_is_first(body: Seq<u8>, c: u8, p: int, end: int)
    ensures
        first_byte(body, c, p, end) matches Some(q) ==> p <= q < end && body[q] == c && forall|
            k: int,
        |
            p <= k < q ==> body[k] != c,
        first_byte(body, c, p, end) is None ==> forall|k: int| p <= k < end ==> body[k] != c,
    decreases end - p,
{
    if p < end && body[p] != c {
        lemma_first_byte_is_first(body, c, p + 1, end);
    }
}

/// Skipping whitespace stops at the first byte in `p..end` that is not a
/// space, tab, line feed or carriage return, or at `end`.
pub proof fn lemma_skip_ws_stops(body: Seq<u8>, p: int, end: int)
    requires
        p <= end,
    ensures
        p <= skip_ws_spec(body, p, end) <= end,
        forall|k: int|
            p <= k < skip_ws_spec(body, p, end) ==> (#[trigger] body[k] == 32 || body[k] == 9
                || body[k] == 10 || body[k] == 13),
        skip_ws_spec(body, p, end) < end ==> !(body[skip_ws_spec(body, p, end)] == 32
            || body[skip_ws_spec(body, p, end)] == 9 || body[skip_ws_spec(body, p, end)] == 10
            || body[skip_ws_spec(body, p, end)] == 13),
    decreases end - p,
{
    if p < end && is_ws(body[p]) {
        lemma_skip_ws_stops(body, p + 1, end);
    }
}

}
