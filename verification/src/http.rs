//! HTTP/1.1 request framing and routing.
//!
//! A request is complete once the blank line ending its headers has
//! arrived and, for a score request, the `Content-Length` bytes of body
//! after it. The request line selects the readiness probe or the score
//! endpoint; anything else is answered "not found".
use vstd::prelude::*;
use crate::json::{first_match, lemma_first_match_bounds, opt_usize};
use crate::num::{IntErrorKind, decimal, lemma_decimal_digits, lemma_parse_decimal, parse_unsigned, parse_unsigned_spec};
use crate::text::{ascii, bytes_eq_at, lit, slice_of};

verus! {

pub open spec fn crlf() -> Seq<u8> {
    seq![13u8, 10u8]
}

pub open spec fn crlfcrlf() -> Seq<u8> {
    seq![13u8, 10u8, 13u8, 10u8]
}

/// `s` begins with `prefix`.
pub open spec fn starts_with(s: Seq<u8>, prefix: Seq<u8>) -> bool {
    s.len() >= prefix.len() && s.subrange(0, prefix.len() as int) == prefix
}

/// ASCII lower case of a byte.
pub open spec fn lower(c: u8) -> u8 {
    if 65 <= c <= 90 {
        (c + 32) as u8
    } else {
        c
    }
}

/// `line` begins with `target`, ignoring the case of letters in `line`.
pub open spec fn prefix_ci(line: Seq<u8>, target: Seq<u8>) -> bool {
    line.len() >= target.len() && forall|i: int| 0 <= i < target.len() ==> lower(#[trigger] line[i]) == target[i]
}

pub open spec fn is_blank(b: u8) -> bool {
    b == 32 || b == 9
}

/// `v` without leading spaces and tabs.
pub open spec fn trim_start(v: Seq<u8>) -> Seq<u8>
    decreases v.len(),
{
    if v.len() > 0 && is_blank(v[0]) {
        trim_start(v.drop_first())
    } else {
        v
    }
}

/// `v` without trailing spaces and tabs.
pub open spec fn trim_end(v: Seq<u8>) -> Seq<u8>
    decreases v.len(),
{
    if v.len() > 0 && is_blank(v.last()) {
        trim_end(v.drop_last())
    } else {
        v
    }
}

pub open spec fn content_length_name() -> Seq<u8> {
    ascii("content-length:"@)
}

/// The end of the first line of `h`: its CRLF, or the end of `h`.
pub open spec fn line_end(h: Seq<u8>) -> int {
    match first_match(h, crlf(), 0) {
        Some(e) => e,
        None => h.len() as int,
    }
}

/// The value of the first `Content-Length` header among the header lines
/// `h`: absent when there is none, when its trimmed value is empty, or
/// when that value is not an unsigned decimal that fits a `usize`.
pub open spec fn content_length_spec(h: Seq<u8>) -> Option<nat>
    decreases h.len(),
{
    if h.len() == 0 {
        None
    } else {
        let le = line_end(h);
        proof {
            lemma_first_match_bounds(h, crlf(), 0);
        }
        let line = h.subrange(0, le);
        let rest = if le < h.len() {
            h.subrange(le + 2, h.len() as int)
        } else {
            Seq::empty()
        };
        if !prefix_ci(line, content_length_name()) {
            content_length_spec(rest)
        } else {
            let v = trim_end(trim_start(line.subrange(15, line.len() as int)));
            if v.len() == 0 {
                None
            } else {
                match parse_unsigned_spec(v, usize::MAX as nat) {
                    Ok(n) => Some(n),
                    Err(_) => None,
                }
            }
        }
    }
}

/// The answer chosen for a request that needs no search.
#[derive(Debug, Clone, Copy, PartialEq, Eq, Structural)]
pub enum Reply {
    Ready,
    NotFound,
    BadRequest,
    TooLarge,
    ServerError,
    /// A score for this many fraud votes among the five nearest.
    FraudScore(usize),
}

/// What to do with the bytes received so far.
#[derive(Debug, Clone, Copy, PartialEq, Eq, Structural)]
pub enum Route {
    /// Wait for more bytes.
    Incomplete,
    /// Send this reply, then close the connection when the flag is set.
    Answer(Reply, bool),
    /// Score the body `body_start .. body_end`.
    Score(usize, usize),
}

pub open spec fn ready_line() -> Seq<u8> {
    ascii("GET /ready"@)
}

pub open spec fn score_line() -> Seq<u8> {
    ascii("POST /fraud-score"@)
}

/// How a request framed by `b` is routed; `is_full` says the buffer
/// cannot grow.
pub open spec fn route_spec(b: Seq<u8>, is_full: bool) -> Route {
    match first_match(b, crlfcrlf(), 0) {
        None => if is_full {
            Route::Answer(Reply::TooLarge, true)
        } else {
            Route::Incomplete
        },
        Some(he) => {
            let body_start = he + 4;
            match first_match(b.subrange(0, he), crlf(), 0) {
                // No header lines: only the readiness probe is understood.
                None => if starts_with(b.subrange(0, he), ready_line()) {
                    Route::Answer(Reply::Ready, false)
                } else {
                    Route::Answer(Reply::BadRequest, true)
                },
                Some(le) => {
                    let line = b.subrange(0, le);
                    if starts_with(line, ready_line()) {
                        Route::Answer(Reply::Ready, false)
                    } else if !starts_with(line, score_line()) {
                        Route::Answer(Reply::NotFound, true)
                    } else {
                        match content_length_spec(b.subrange(le + 2, he)) {
                            None => Route::Answer(Reply::BadRequest, true),
                            Some(cl) => if cl > b.len() - body_start {
                                if is_full {
                                    Route::Answer(Reply::TooLarge, true)
                                } else {
                                    Route::Incomplete
                                }
                            } else {
                                Route::Score(body_start as usize, (body_start + cl) as usize)
                            },
                        }
                    }
                },
            }
        },
    }
}

/// The reply for a search that counted `frauds` fraud votes: a score for
/// 0 to 5 votes, a server error otherwise.
pub open spec fn score_reply_spec(frauds: i32) -> (Reply, bool) {
    if 0 <= frauds <= 5 {
        (Reply::FraudScore(frauds as usize), false)
    } else {
        (Reply::ServerError, true)
    }
}

/// Position of the first blank line (`\r\n\r\n`).
pub fn find_header_end(buf: &[u8]) -> (r: Option<usize>)
    ensures
        opt_usize(r) == first_match(buf@, crlfcrlf(), 0),
{
    if buf.len() < 4 {
        return None;
    }
    let mut i: usize = 0;
    let last = buf.len() - 4;
    while i <= last
        invariant
            last == buf@.len() - 4,
            i <= last + 1,
            first_match(buf@, crlfcrlf(), 0) == first_match(buf@, crlfcrlf(), i as int),
        decreases last + 1 - i,
    {
        if buf[i] == 13 && buf[i + 1] == 10 && buf[i + 2] == 13 && buf[i + 3] == 10 {
            assert(buf@.subrange(i as int, i + 4) =~= crlfcrlf());
            return Some(i);
        }
        assert(buf@.subrange(i as int, i + 4) != crlfcrlf()) by {
            let w = buf@.subrange(i as int, i + 4);
            assert(w[0] == buf@[i as int] && w[1] == buf@[i + 1] && w[2] == buf@[i + 2] && w[3]
                == buf@[i + 3]);
        }
        i += 1;
    }
    None
}

/// Position of the first `\r\n`.
pub fn find_crlf(buf: &[u8]) -> (r: Option<usize>)
    ensures
        opt_usize(r) == first_match(buf@, crlf(), 0),
{
    if buf.len() < 2 {
        return None;
    }
    let mut i: usize = 0;
    let last = buf.len() - 2;
    while i <= last
        invariant
            last == buf@.len() - 2,
            i <= last + 1,
            first_match(buf@, crlf(), 0) == first_match(buf@, crlf(), i as int),
        decreases last + 1 - i,
    {
        if buf[i] == 13 && buf[i + 1] == 10 {
            assert(buf@.subrange(i as int, i + 2) =~= crlf());
            return Some(i);
        }
        assert(buf@.subrange(i as int, i + 2) != crlf()) by {
            let w = buf@.subrange(i as int, i + 2);
            assert(w[0] == buf@[i as int] && w[1] == buf@[i + 1]);
        }
        i += 1;
    }
    None
}

/// `line` begins with `target`, ignoring the case of letters in `line`.
pub fn header_prefix_matches(line: &[u8], target: &[u8]) -> (r: bool)
    ensures
        r == prefix_ci(line@, target@),
{
    if line.len() < target.len() {
        return false;
    }
    let mut i: usize = 0;
    while i < target.len()
        invariant
            line@.len() >= target@.len(),
            i <= target@.len(),
            forall|k: int| 0 <= k < i ==> lower(#[trigger] line@[k]) == target@[k],
        decreases target@.len() - i,
    {
        let mut c = line[i];
        if 65 <= c && c <= 90 {
            c += 32;
        }
        if c != target[i] {
            return false;
        }
        i += 1;
    }
    true
}

/// The value of the first `Content-Length` header among the header lines.
pub fn parse_content_length(headers: &[u8]) -> (r: Option<usize>)
    ensures
        match content_length_spec(headers@) {
            Some(n) => r == Some(n as usize),
            None => r is None,
        },
        r matches Some(v) ==> content_length_spec(headers@) == Some(v as nat),
{
    proof {
        reveal_strlit("content-length:");
    }
    let target = lit("content-length:");
    let mut h = headers;
    while h.len() > 0
        invariant
            target@ == content_length_name(),
            target@.len() == 15,
            content_length_spec(headers@) == content_length_spec(h@),
        decreases h@.len(),
    {
        let ghost hv = h@;
        let le = match find_crlf(h) {
            Some(e) => e,
            None => h.len(),
        };
        proof {
            lemma_first_match_bounds(h@, crlf(), 0);
        }
        let line = slice_of(h, 0, le);
        let rest = if le < h.len() {
            slice_of(h, le + 2, h.len())
        } else {
            slice_of(h, 0, 0)
        };
        h = rest;
        assert(le == line_end(hv));
        assert(line@ == hv.subrange(0, le as int));
        assert(rest@ == (if le < hv.len() {
            hv.subrange(le + 2, hv.len() as int)
        } else {
            Seq::empty()
        }));
        if line.len() < target.len() {
            assert(!prefix_ci(line@, content_length_name()));
            continue;
        }
        if !header_prefix_matches(line, target) {
            continue;
        }
        let mut a: usize = 15;
        let mut z: usize = line.len();
        let ghost v0 = line@.subrange(15, line@.len() as int);
        while a < z && (line[a] == 32 || line[a] == 9)
            invariant
                15 <= a <= z == line@.len(),
                trim_start(v0) == trim_start(line@.subrange(a as int, z as int)),
            decreases z - a,
        {
            assert(line@.subrange(a + 1, z as int) =~= line@.subrange(a as int, z as int).drop_first());
            a += 1;
        }
        let ghost v1 = line@.subrange(a as int, z as int);
        assert(!(v1.len() > 0 && is_blank(v1[0])));
        assert(trim_start(v0) == v1);
        while z > a && (line[z - 1] == 32 || line[z - 1] == 9)
            invariant
                15 <= a <= z <= line@.len(),
                trim_end(v1) == trim_end(line@.subrange(a as int, z as int)),
            decreases z - a,
        {
            assert(line@.subrange(a as int, z - 1) =~= line@.subrange(a as int, z as int).drop_last());
            z -= 1;
        }
        let v = slice_of(line, a, z);
        assert(trim_end(v1) == v@);
        assert(v@ == trim_end(trim_start(line@.subrange(15, line@.len() as int))));
        if v.len() == 0 {
            return None;
        }
        assert(prefix_ci(line@, content_length_name()));
        assert(content_length_spec(hv) == (match parse_unsigned_spec(v@, usize::MAX as nat) {
            Ok(n) => Some(n),
            Err(_) => None::<nat>,
        }));
        let parsed = parse_unsigned(v, usize::MAX as u64);
        assert((usize::MAX as u64) as nat == usize::MAX as nat);
        match parsed {
            Ok(n) => {
                assert(parse_unsigned_spec(v@, usize::MAX as nat) == Ok::<nat, IntErrorKind>(
                    n as nat,
                ));
                assert(content_length_spec(headers@) == Some(n as nat));
                return Some(n as usize);
            },
            Err(_) => {
                return None;
            },
        }
    }
    None
}

/// Decide what to do with the request bytes received so far.
pub fn route(bytes: &[u8], is_full: bool) -> (r: Route)
    ensures
        r == route_spec(bytes@, is_full),
{
    let header_end = match find_header_end(bytes) {
        Some(e) => e,
        None => {
            if is_full {
                return Route::Answer(Reply::TooLarge, true);
            }
            return Route::Incomplete;
        },
    };
    let total = bytes.len();
    proof {
        lemma_first_match_bounds(bytes@, crlfcrlf(), 0);
        assert(crlfcrlf().len() == 4);
    }
    let body_start = header_end + 4;
    let head = slice_of(bytes, 0, header_end);
    proof {
        reveal_strlit("GET /ready");
        reveal_strlit("POST /fraud-score");
    }
    let ready = lit("GET /ready");
    let score = lit("POST /fraud-score");
    let line_end = match find_crlf(head) {
        Some(e) => e,
        None => {
            if head.len() >= ready.len() && bytes_eq_at(head, 0, ready) {
                return Route::Answer(Reply::Ready, false);
            }
            return Route::Answer(Reply::BadRequest, true);
        },
    };
    proof {
        lemma_first_match_bounds(head@, crlf(), 0);
    }
    let line = slice_of(bytes, 0, line_end);
    if line.len() >= ready.len() && bytes_eq_at(line, 0, ready) {
        return Route::Answer(Reply::Ready, false);
    }
    if !(line.len() >= score.len() && bytes_eq_at(line, 0, score)) {
        return Route::Answer(Reply::NotFound, true);
    }
    let cl = match parse_content_length(slice_of(bytes, line_end + 2, header_end)) {
        Some(n) => n,
        None => return Route::Answer(Reply::BadRequest, true),
    };
    let max_body = bytes.len() - body_start;
    if cl > max_body {
        if is_full {
            return Route::Answer(Reply::TooLarge, true);
        }
        return Route::Incomplete;
    }
    proof {
        let b = bytes@;
        let he = header_end as int;
        assert(first_match(b, crlfcrlf(), 0) == Some(he));
        assert(head@ == b.subrange(0, he));
        assert(first_match(b.subrange(0, he), crlf(), 0) == Some(line_end as int));
        assert(line@ == b.subrange(0, line_end as int));
        assert(starts_with(line@, score_line()));
        assert(!starts_with(line@, ready_line()));
        assert(content_length_spec(b.subrange(line_end + 2, he)) == Some(cl as nat));
        assert(!(cl > b.len() - (he + 4)));
    }
    Route::Score(body_start, body_start + cl)
}

/// The reply for a search that counted `frauds` fraud votes.
pub fn score_reply(frauds: i32) -> (r: (Reply, bool))
    ensures
        r == score_reply_spec(frauds),
{
    if 0 <= frauds && frauds <= 5 {
        (Reply::FraudScore(frauds as usize), false)
    } else {
        (Reply::ServerError, true)
    }
}


/// Whether a reply reports success: the readiness answer or a score.
pub open spec fn is_success(r: Reply) -> bool {
    r is Ready || r is FraudScore
}

/// The connection is kept after a reply exactly when the reply reports
/// success: every answer that routing or scoring chooses closes the
/// connection after an error and keeps it after a success.
pub proof fn lemma_close_iff_error(b: Seq<u8>, is_full: bool, frauds: i32)
    ensures
        route_spec(b, is_full) matches Route::Answer(r, close) ==> (close <==> !is_success(r)),
        score_reply_spec(frauds).1 <==> !is_success(score_reply_spec(frauds).0),
{
}


/// The bytes `content-length:`.
pub open spec fn length_header() -> Seq<u8> {
    seq![99u8, 111, 110, 116, 101, 110, 116, 45, 108, 101, 110, 103, 116, 104, 58]
}

/// `line` holds no carriage return, so it is one whole header line.
pub open spec fn single_line(line: Seq<u8>) -> bool {
    forall|k: int| 0 <= k < line.len() ==> #[trigger] line[k] != 13
}

/// In `line + CRLF + rest`, the first CRLF from any position inside
/// `line` is the one that ends `line`.
proof fn lemma_first_crlf(line: Seq<u8>, rest: Seq<u8>, i: int)
    requires
        single_line(line),
        0 <= i <= line.len(),
    ensures
        first_match(line + crlf() + rest, crlf(), i) == Some(line.len() as int),
    decreases line.len() - i,
{
    let h = line + crlf() + rest;
    if i < line.len() {
        assert(h[i] == line[i]);
        assert(h.subrange(i, i + 2)[0] != crlf()[0]);
        lemma_first_crlf(line, rest, i + 1);
    } else {
        assert(h.subrange(i, i + 2) =~= crlf());
    }
}

/// A single line holds no CRLF.
proof fn lemma_no_crlf(line: Seq<u8>, i: int)
    requires
        single_line(line),
        0 <= i,
    ensures
        first_match(line, crlf(), i) is None,
    decreases line.len() + 1 - i,
{
    if i + 2 <= line.len() {
        assert(line.subrange(i, i + 2)[0] != crlf()[0]);
        lemma_no_crlf(line, i + 1);
    }
}

proof fn lemma_name_is_length_header()
    ensures
        content_length_name() == length_header(),
{
    reveal_strlit("content-length:");
    assert(content_length_name() =~= length_header());
}

/// A header line that does not begin with `content-length:` (in any
/// case) has no effect on the length: it is passed over.
pub proof fn lemma_other_header_skipped(line: Seq<u8>, rest: Seq<u8>)
    requires
        single_line(line),
        !prefix_ci(line, length_header()),
    ensures
        content_length_spec(line + crlf() + rest) == content_length_spec(rest),
{
    let h = line + crlf() + rest;
    lemma_first_crlf(line, rest, 0);
    lemma_name_is_length_header();
    assert(line_end(h) == line.len());
    assert(h.subrange(0, line.len() as int) =~= line);
    assert(h.subrange(line.len() + 2int, h.len() as int) =~= rest);
}

/// The first header line that begins with `content-length:` decides the
/// length: the lines after it have no effect.
pub proof fn lemma_length_header_decides(line: Seq<u8>, rest: Seq<u8>)
    requires
        single_line(line),
        prefix_ci(line, length_header()),
    ensures
        content_length_spec(line + crlf() + rest) == content_length_spec(line),
{
    let h = line + crlf() + rest;
    lemma_first_crlf(line, rest, 0);
    lemma_no_crlf(line, 0);
    lemma_name_is_length_header();
    assert(line_end(h) == line.len());
    assert(line_end(line) == line.len());
    assert(h.subrange(0, line.len() as int) =~= line);
    assert(line.subrange(0, line.len() as int) =~= line);
}

/// A `Content-Length:` header, its name in any mix of upper and lower
/// case, with a space and the decimal text of `n` gives the length `n`,
/// whatever header lines follow.
pub proof fn lemma_length_header_value(name: Seq<u8>, n: nat, rest: Seq<u8>)
    requires
        name.len() == 15,
        forall|k: int|
            0 <= k < 15 ==> #[trigger] name[k] == length_header()[k] || (65 <= name[k] <= 90
                && name[k] + 32 == length_header()[k]),
        n <= usize::MAX,
    ensures
        content_length_spec(name + seq![32u8] + decimal(n) + crlf() + rest) == Some(n),
{
    let digits = decimal(n);
    let line = name + seq![32u8] + digits;
    lemma_decimal_digits(n);
    assert forall|k: int| 0 <= k < line.len() implies #[trigger] line[k] != 13 by {
        if k >= 16 {
            assert(line[k] == digits[k - 16]);
        } else if k < 15 {
            assert(line[k] == name[k]);
        }
    }
    assert forall|k: int| 0 <= k < length_header().len() implies lower(#[trigger] line[k])
        == length_header()[k] by {
        assert(line[k] == name[k]);
    }
    lemma_length_header_decides(line, rest);
    lemma_no_crlf(line, 0);
    lemma_name_is_length_header();
    assert(line_end(line) == line.len());
    assert(line.subrange(0, line.len() as int) =~= line);
    let after = line.subrange(15, line.len() as int);
    assert(after =~= seq![32u8] + digits);
    assert(after.drop_first() =~= digits);
    assert(trim_start(digits) == digits) by {
        assert(!is_blank(digits[0]));
    }
    assert(trim_start(after) == digits);
    assert(trim_end(digits) == digits) by {
        assert(!is_blank(digits.last()));
    }
    lemma_parse_decimal(n, usize::MAX as nat);
}


/// Every byte of `s` is a space or a tab.
pub open spec fn all_blank(s: Seq<u8>) -> bool {
    forall|k: int| 0 <= k < s.len() ==> (#[trigger] s[k] == 32 || s[k] == 9)
}

proof fn lemma_trim_start_blanks(pre: Seq<u8>, d: Seq<u8>)
    requires
        all_blank(pre),
    ensures
        trim_start(pre + d) == trim_start(d),
    decreases pre.len(),
{
    if pre.len() > 0 {
        assert((pre + d)[0] == pre[0]);
        assert((pre + d).drop_first() =~= pre.drop_first() + d);
        assert(all_blank(pre.drop_first())) by {
            assert forall|k: int| 0 <= k < pre.drop_first().len() implies (#[trigger] pre.drop_first()[k]
                == 32 || pre.drop_first()[k] == 9) by {
                assert(pre.drop_first()[k] == pre[k + 1]);
            }
        }
        lemma_trim_start_blanks(pre.drop_first(), d);
    } else {
        assert(pre + d =~= d);
    }
}

proof fn lemma_trim_end_blanks(d: Seq<u8>, post: Seq<u8>)
    requires
        all_blank(post),
    ensures
        trim_end(d + post) == trim_end(d),
    decreases post.len(),
{
    if post.len() > 0 {
        assert((d + post).last() == post.last());
        assert((d + post).drop_last() =~= d + post.drop_last());
        assert(all_blank(post.drop_last())) by {
            assert forall|k: int| 0 <= k < post.drop_last().len() implies (#[trigger] post.drop_last()[k]
                == 32 || post.drop_last()[k] == 9) by {
                assert(post.drop_last()[k] == post[k]);
            }
        }
        lemma_trim_end_blanks(d, post.drop_last());
    } else {
        assert(d + post =~= d);
    }
}

/// A `Content-Length:` header, its name in any mix of upper and lower
/// case, whose value is the decimal text of `n` with any spaces and tabs
/// around it, gives the length `n`, whatever header lines follow.
pub proof fn lemma_length_header_padded_value(
    name: Seq<u8>,
    pre: Seq<u8>,
    n: nat,
    post: Seq<u8>,
    rest: Seq<u8>,
)
    requires
        name.len() == 15,
        forall|k: int|
            0 <= k < 15 ==> #[trigger] name[k] == length_header()[k] || (65 <= name[k] <= 90
                && name[k] + 32 == length_header()[k]),
        all_blank(pre),
        all_blank(post),
        n <= usize::MAX,
    ensures
        content_length_spec(name + pre + decimal(n) + post + crlf() + rest) == Some(n),
{
    let digits = decimal(n);
    let line = name + pre + digits + post;
    lemma_decimal_digits(n);
    assert forall|k: int| 0 <= k < line.len() implies #[trigger] line[k] != 13 by {
        if k < 15 {
            assert(line[k] == name[k]);
        } else if k < 15 + pre.len() {
            assert(line[k] == pre[k - 15]);
        } else if k < 15 + pre.len() + digits.len() {
            assert(line[k] == digits[k - 15 - pre.len()]);
        } else {
            assert(line[k] == post[k - 15 - pre.len() - digits.len()]);
        }
    }
    assert forall|k: int| 0 <= k < length_header().len() implies lower(#[trigger] line[k])
        == length_header()[k] by {
        assert(line[k] == name[k]);
    }
    lemma_length_header_decides(line, rest);
    lemma_no_crlf(line, 0);
    lemma_name_is_length_header();
    assert(line_end(line) == line.len());
    assert(line.subrange(0, line.len() as int) =~= line);
    let after = line.subrange(15, line.len() as int);
    assert(after =~= pre + (digits + post));
    lemma_trim_start_blanks(pre, digits + post);
    assert(trim_start(digits + post) == digits + post) by {
        assert((digits + post)[0] == digits[0]);
        assert(!is_blank(digits[0]));
    }
    lemma_trim_end_blanks(digits, post);
    assert(trim_end(digits) == digits) by {
        assert(!is_blank(digits.last()));
    }
    lemma_parse_decimal(n, usize::MAX as nat);
}

}
