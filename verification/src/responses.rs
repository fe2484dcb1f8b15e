//! The prebuilt HTTP/1.1 responses: six score responses, one per number of
//! fraud votes among the five nearest neighbours, and the fixed answers.
//!
//! A score response carries `{"approved":A,"fraud_score":S}` where `S` is
//! the vote count divided by five, written with four decimals, and `A` is
//! `true` for fewer than three votes.
use vstd::prelude::*;
use crate::text::{ascii, lit};
use crate::num::decimal;
use crate::http::Reply;

verus! {

pub open spec fn ok_json_head() -> Seq<u8> {
    ascii("HTTP/1.1 200 OK\r\nContent-Type: application/json\r\nContent-Length: "@)
}

pub open spec fn keep_alive_tail() -> Seq<u8> {
    ascii("\r\nConnection: keep-alive\r\n\r\n"@)
}

/// `frauds / 5` with four decimals.
pub open spec fn score_text(frauds: nat) -> Seq<u8> {
    if frauds == 5 {
        ascii("1.0000"@)
    } else {
        seq![48u8, 46u8, (48 + 2 * frauds) as u8, 48u8, 48u8, 48u8]
    }
}

/// The JSON body of a score response.
pub open spec fn fraud_body(frauds: nat) -> Seq<u8> {
    ascii("{\"approved\":"@) + (if frauds < 3 {
        ascii("true"@)
    } else {
        ascii("false"@)
    }) + ascii(",\"fraud_score\":"@) + score_text(frauds) + ascii("}"@)
}

/// A complete score response.
pub open spec fn fraud_response(frauds: nat) -> Seq<u8> {
    ok_json_head() + decimal(fraud_body(frauds).len()) + keep_alive_tail() + fraud_body(frauds)
}

pub open spec fn ready_response() -> Seq<u8> {
    ascii("HTTP/1.1 200 OK\r\nContent-Length: 0\r\nConnection: keep-alive\r\n\r\n"@)
}

pub open spec fn not_found_response() -> Seq<u8> {
    ascii("HTTP/1.1 404 Not Found\r\nContent-Length: 0\r\nConnection: close\r\n\r\n"@)
}

pub open spec fn bad_request_response() -> Seq<u8> {
    ascii(
        "HTTP/1.1 400 Bad Request\r\nContent-Type: application/json\r\nContent-Length: 27\r\nConnection: close\r\n\r\n{\"error\":\"invalid_payload\"}"@,
    )
}

pub open spec fn too_large_response() -> Seq<u8> {
    ascii("HTTP/1.1 413 Payload Too Large\r\nContent-Length: 0\r\nConnection: close\r\n\r\n"@)
}

pub open spec fn server_error_response() -> Seq<u8> {
    ascii("HTTP/1.1 500 Internal Server Error\r\nContent-Length: 0\r\nConnection: close\r\n\r\n"@)
}

/// The bytes sent for a reply.
pub open spec fn reply_bytes(r: Reply) -> Seq<u8> {
    match r {
        Reply::Ready => ready_response(),
        Reply::NotFound => not_found_response(),
        Reply::BadRequest => bad_request_response(),
        Reply::TooLarge => too_large_response(),
        Reply::ServerError => server_error_response(),
        Reply::FraudScore(f) => fraud_response(f as nat),
    }
}

/// A chosen response and whether the connection closes after it.
pub struct Done<'a> {
    pub response: &'a [u8],
    pub close: bool,
}

/// Every response, built once.
pub struct Responses {
    fraud: Vec<Vec<u8>>,
    ready: Vec<u8>,
    not_found: Vec<u8>,
    bad_request: Vec<u8>,
    too_large: Vec<u8>,
    server_error: Vec<u8>,
}

impl Responses {
    #[verifier::type_invariant]
    spec fn holds_all(&self) -> bool {
        &&& self.fraud@.len() == 6
        &&& forall|f: int| 0 <= f < 6 ==> #[trigger] self.fraud@[f]@ == fraud_response(f as nat)
        &&& self.ready@ == ready_response()
        &&& self.not_found@ == not_found_response()
        &&& self.bad_request@ == bad_request_response()
        &&& self.too_large@ == too_large_response()
        &&& self.server_error@ == server_error_response()
    }

    /// The bytes held for `reply`.
    pub closed spec fn response_for(&self, reply: Reply) -> Seq<u8> {
        match reply {
            Reply::Ready => self.ready@,
            Reply::NotFound => self.not_found@,
            Reply::BadRequest => self.bad_request@,
            Reply::TooLarge => self.too_large@,
            Reply::ServerError => self.server_error@,
            Reply::FraudScore(f) => self.fraud@[f as int]@,
        }
    }

    /// The response for `reply`, closing the connection after it when
    /// `close` is set.
    pub fn done(&self, reply: Reply, close: bool) -> (d: Done<'_>)
        requires
            reply matches Reply::FraudScore(f) ==> f <= 5,
        ensures
            d.response@ == reply_bytes(reply),
            d.close == close,
    {
        let response = match reply {
            Reply::Ready => ready(self),
            Reply::NotFound => not_found(self),
            Reply::BadRequest => bad_request(self),
            Reply::TooLarge => too_large(self),
            Reply::ServerError => server_error(self),
            Reply::FraudScore(f) => fraud_score(self, f),
        };
        Done { response, close }
    }
}

/// The score response for `frauds` fraud votes.
pub fn fraud_score(all: &Responses, frauds: usize) -> (r: &[u8])
    requires
        frauds <= 5,
    ensures
        r@ == fraud_response(frauds as nat),
{
    proof {
        use_type_invariant(all);
    }
    all.fraud[frauds].as_slice()
}

pub fn ready(all: &Responses) -> (r: &[u8])
    ensures
        r@ == ready_response(),
{
    proof {
        use_type_invariant(all);
    }
    all.ready.as_slice()
}

pub fn not_found(all: &Responses) -> (r: &[u8])
    ensures
        r@ == not_found_response(),
{
    proof {
        use_type_invariant(all);
    }
    all.not_found.as_slice()
}

pub fn bad_request(all: &Responses) -> (r: &[u8])
    ensures
        r@ == bad_request_response(),
{
    proof {
        use_type_invariant(all);
    }
    all.bad_request.as_slice()
}

pub fn too_large(all: &Responses) -> (r: &[u8])
    ensures
        r@ == too_large_response(),
{
    proof {
        use_type_invariant(all);
    }
    all.too_large.as_slice()
}

pub fn server_error(all: &Responses) -> (r: &[u8])
    ensures
        r@ == server_error_response(),
{
    proof {
        use_type_invariant(all);
    }
    all.server_error.as_slice()
}

fn push_all(v: &mut Vec<u8>, s: &[u8])
    ensures
        final(v)@ == old(v)@ + s@,
{
    let mut i: usize = 0;
    while i < s.len()
        invariant
            i <= s@.len(),
            v@ == old(v)@ + s@.subrange(0, i as int),
        decreases s@.len() - i,
    {
        v.push(s[i]);
        i += 1;
        assert(v@ =~= old(v)@ + s@.subrange(0, i as int));
    }
    assert(s@.subrange(0, s@.len() as int) =~= s@);
}

fn push_decimal(v: &mut Vec<u8>, n: u64)
    ensures
        final(v)@ == old(v)@ + decimal(n as nat),
    decreases n,
{
    if n >= 10 {
        push_decimal(v, n / 10);
    }
    v.push(48 + (n % 10) as u8);
    assert(v@ =~= old(v)@ + decimal(n as nat));
}

fn owned(s: &[u8]) -> (v: Vec<u8>)
    ensures
        v@ == s@,
{
    let mut v: Vec<u8> = Vec::new();
    push_all(&mut v, s);
    assert(v@ =~= s@);
    v
}

fn build200(frauds: usize) -> (out: Vec<u8>)
    requires
        frauds <= 5,
    ensures
        out@ == fraud_response(frauds as nat),
{
    proof {
        reveal_strlit("{\"approved\":");
        reveal_strlit("true");
        reveal_strlit("false");
        reveal_strlit(",\"fraud_score\":");
        reveal_strlit("1.0000");
        reveal_strlit("}");
        reveal_strlit("HTTP/1.1 200 OK\r\nContent-Type: application/json\r\nContent-Length: ");
        reveal_strlit("\r\nConnection: keep-alive\r\n\r\n");
    }
    let mut body: Vec<u8> = Vec::new();
    push_all(&mut body, lit("{\"approved\":"));
    if frauds < 3 {
        push_all(&mut body, lit("true"));
    } else {
        push_all(&mut body, lit("false"));
    }
    push_all(&mut body, lit(",\"fraud_score\":"));
    if frauds == 5 {
        push_all(&mut body, lit("1.0000"));
    } else {
        body.push(48);
        body.push(46);
        body.push(48 + 2 * frauds as u8);
        body.push(48);
        body.push(48);
        body.push(48);
    }
    push_all(&mut body, lit("}"));
    assert(body@ =~= fraud_body(frauds as nat));
    let mut out: Vec<u8> = Vec::new();
    push_all(&mut out, lit("HTTP/1.1 200 OK\r\nContent-Type: application/json\r\nContent-Length: "));
    push_decimal(&mut out, body.len() as u64);
    push_all(&mut out, lit("\r\nConnection: keep-alive\r\n\r\n"));
    push_all(&mut out, body.as_slice());
    out
}

/// Build every response.
pub fn init() -> (r: Responses)
    ensures
        forall|reply: Reply|
            (reply matches Reply::FraudScore(f) ==> f <= 5) ==> #[trigger] r.response_for(reply)
                == reply_bytes(reply),
{
    let mut fraud: Vec<Vec<u8>> = Vec::new();
    let mut f: usize = 0;
    while f < 6
        invariant
            f <= 6,
            fraud@.len() == f,
            forall|k: int| 0 <= k < f ==> #[trigger] fraud@[k]@ == fraud_response(k as nat),
        decreases 6 - f,
    {
        fraud.push(build200(f));
        f += 1;
    }
    proof {
        reveal_strlit("HTTP/1.1 200 OK\r\nContent-Length: 0\r\nConnection: keep-alive\r\n\r\n");
        reveal_strlit("HTTP/1.1 404 Not Found\r\nContent-Length: 0\r\nConnection: close\r\n\r\n");
        reveal_strlit(
            "HTTP/1.1 400 Bad Request\r\nContent-Type: application/json\r\nContent-Length: 27\r\nConnection: close\r\n\r\n{\"error\":\"invalid_payload\"}",
        );
        reveal_strlit("HTTP/1.1 413 Payload Too Large\r\nContent-Length: 0\r\nConnection: close\r\n\r\n");
        reveal_strlit(
            "HTTP/1.1 500 Internal Server Error\r\nContent-Length: 0\r\nConnection: close\r\n\r\n",
        );
    }
    let r = Responses {
        fraud,
        ready: owned(lit("HTTP/1.1 200 OK\r\nContent-Length: 0\r\nConnection: keep-alive\r\n\r\n")),
        not_found: owned(
            lit("HTTP/1.1 404 Not Found\r\nContent-Length: 0\r\nConnection: close\r\n\r\n"),
        ),
        bad_request: owned(
            lit(
                "HTTP/1.1 400 Bad Request\r\nContent-Type: application/json\r\nContent-Length: 27\r\nConnection: close\r\n\r\n{\"error\":\"invalid_payload\"}",
            ),
        ),
        too_large: owned(
            lit("HTTP/1.1 413 Payload Too Large\r\nContent-Length: 0\r\nConnection: close\r\n\r\n"),
        ),
        server_error: owned(
            lit(
                "HTTP/1.1 500 Internal Server Error\r\nContent-Length: 0\r\nConnection: close\r\n\r\n",
            ),
        ),
    };
    assert forall|reply: Reply|
        (reply matches Reply::FraudScore(f) ==> f <= 5) implies #[trigger] r.response_for(reply)
        == reply_bytes(reply) by {
        if let Reply::FraudScore(f) = reply {
            assert(r.fraud@[f as int]@ == fraud_response(f as nat));
        }
    }
    r
}


/// The score text spells `frauds / 5` with four decimals: one digit, a
/// point, four digits, worth `2000 * frauds` ten-thousandths.
pub proof fn lemma_score_text_value(frauds: nat)
    requires
        frauds <= 5,
    ensures
        score_text(frauds).len() == 6,
        score_text(frauds)[1] == 46,
        forall|k: int| 0 <= k < 6 && k != 1 ==> 48 <= #[trigger] score_text(frauds)[k] <= 57,
        (score_text(frauds)[0] - 48) * 10000 + (score_text(frauds)[2] - 48) * 1000 + (score_text(
            frauds,
        )[3] - 48) * 100 + (score_text(frauds)[4] - 48) * 10 + (score_text(frauds)[5] - 48) == 2000
            * frauds,
{
    reveal_strlit("1.0000");
}

}