//! Field extraction from a fraud-score request body.
//!
//! The body carries four objects, `transaction`, `customer`, `merchant`
//! and `terminal`, and optionally a `last_transaction` object. This module
//! finds them and, within them, the byte ranges of the number tokens and
//! strings and the values of the booleans the feature vector is built
//! from, plus the integer date features. Turning number tokens into
//! numbers and scaling them is left to the caller.
use vstd::prelude::*;
use crate::text::{ascii, lit, slice_of};
use crate::json::{
    array_contains_spec, array_contains_string, bool_spec, json_bool, number_token,
    number_token_spec, object_range, object_range_spec, opt_range, string_range, string_spec,
};
use crate::date::{hour_of, iso_hour_utc, minutes_apart, minutes_between, weekday_monday_zero, weekday_of};

verus! {

/// The body is not a well-formed fraud-score request.
#[derive(Debug, Clone, Copy)]
pub struct ParseError;

/// What the optional previous transaction contributes.
#[derive(Debug, Clone, Copy)]
pub struct LastTransaction {
    /// The `timestamp` string contents.
    pub timestamp: (usize, usize),
    /// The `km_from_current` number token.
    pub km_from_current: (usize, usize),
    /// Whole minutes between `requested_at` and `timestamp`.
    pub minutes: i64,
}

/// Byte ranges (into the body) and values of every field the feature
/// vector needs.
#[derive(Debug, Clone, Copy)]
pub struct Fields {
    pub amount: (usize, usize),
    pub installments: (usize, usize),
    pub requested_at: (usize, usize),
    pub customer_avg: (usize, usize),
    pub tx_count_24h: (usize, usize),
    pub merchant_id: (usize, usize),
    pub mcc: (usize, usize),
    pub merchant_avg: (usize, usize),
    pub is_online: bool,
    pub card_present: bool,
    pub km_from_home: (usize, usize),
    pub last: Option<LastTransaction>,
    /// The merchant id is among the customer's `known_merchants`.
    pub known_merchant: bool,
    /// Hour of `requested_at`, capped at 23.
    pub hour: i32,
    /// Weekday of `requested_at`, Monday = 0.
    pub weekday: i32,
}

pub open spec fn k_transaction() -> Seq<u8> {
    ascii("\"transaction\""@)
}

pub open spec fn k_customer() -> Seq<u8> {
    ascii("\"customer\""@)
}

pub open spec fn k_merchant() -> Seq<u8> {
    ascii("\"merchant\""@)
}

pub open spec fn k_terminal() -> Seq<u8> {
    ascii("\"terminal\""@)
}

pub open spec fn k_last_transaction() -> Seq<u8> {
    ascii("\"last_transaction\""@)
}

pub open spec fn k_amount() -> Seq<u8> {
    ascii("\"amount\""@)
}

pub open spec fn k_installments() -> Seq<u8> {
    ascii("\"installments\""@)
}

pub open spec fn k_requested_at() -> Seq<u8> {
    ascii("\"requested_at\""@)
}

pub open spec fn k_avg_amount() -> Seq<u8> {
    ascii("\"avg_amount\""@)
}

pub open spec fn k_tx_count_24h() -> Seq<u8> {
    ascii("\"tx_count_24h\""@)
}

pub open spec fn k_known_merchants() -> Seq<u8> {
    ascii("\"known_merchants\""@)
}

pub open spec fn k_id() -> Seq<u8> {
    ascii("\"id\""@)
}

pub open spec fn k_mcc() -> Seq<u8> {
    ascii("\"mcc\""@)
}

pub open spec fn k_is_online() -> Seq<u8> {
    ascii("\"is_online\""@)
}

pub open spec fn k_card_present() -> Seq<u8> {
    ascii("\"card_present\""@)
}

pub open spec fn k_km_from_home() -> Seq<u8> {
    ascii("\"km_from_home\""@)
}

pub open spec fn k_timestamp() -> Seq<u8> {
    ascii("\"timestamp\""@)
}

pub open spec fn k_km_from_current() -> Seq<u8> {
    ascii("\"km_from_current\""@)
}

fn key_transaction() -> (r: &'static [u8])
    ensures
        r@ == k_transaction(),
{
    proof {
        reveal_strlit("\"transaction\"");
    }
    lit("\"transaction\"")
}

fn key_customer() -> (r: &'static [u8])
    ensures
        r@ == k_customer(),
{
    proof {
        reveal_strlit("\"customer\"");
    }
    lit("\"customer\"")
}

fn key_merchant() -> (r: &'static [u8])
    ensures
        r@ == k_merchant(),
{
    proof {
        reveal_strlit("\"merchant\"");
    }
    lit("\"merchant\"")
}

fn key_terminal() -> (r: &'static [u8])
    ensures
        r@ == k_terminal(),
{
    proof {
        reveal_strlit("\"terminal\"");
    }
    lit("\"terminal\"")
}

fn key_last_transaction() -> (r: &'static [u8])
    ensures
        r@ == k_last_transaction(),
{
    proof {
        reveal_strlit("\"last_transaction\"");
    }
    lit("\"last_transaction\"")
}

fn key_amount() -> (r: &'static [u8])
    ensures
        r@ == k_amount(),
{
    proof {
        reveal_strlit("\"amount\"");
    }
    lit("\"amount\"")
}

fn key_installments() -> (r: &'static [u8])
    ensures
        r@ == k_installments(),
{
    proof {
        reveal_strlit("\"installments\"");
    }
    lit("\"installments\"")
}

fn key_requested_at() -> (r: &'static [u8])
    ensures
        r@ == k_requested_at(),
{
    proof {
        reveal_strlit("\"requested_at\"");
    }
    lit("\"requested_at\"")
}

fn key_avg_amount() -> (r: &'static [u8])
    ensures
        r@ == k_avg_amount(),
{
    proof {
        reveal_strlit("\"avg_amount\"");
    }
    lit("\"avg_amount\"")
}

fn key_tx_count_24h() -> (r: &'static [u8])
    ensures
        r@ == k_tx_count_24h(),
{
    proof {
        reveal_strlit("\"tx_count_24h\"");
    }
    lit("\"tx_count_24h\"")
}

fn key_known_merchants() -> (r: &'static [u8])
    ensures
        r@ == k_known_merchants(),
{
    proof {
        reveal_strlit("\"known_merchants\"");
    }
    lit("\"known_merchants\"")
}

fn key_id() -> (r: &'static [u8])
    ensures
        r@ == k_id(),
{
    proof {
        reveal_strlit("\"id\"");
    }
    lit("\"id\"")
}

fn key_mcc() -> (r: &'static [u8])
    ensures
        r@ == k_mcc(),
{
    proof {
        reveal_strlit("\"mcc\"");
    }
    lit("\"mcc\"")
}

fn key_is_online() -> (r: &'static [u8])
    ensures
        r@ == k_is_online(),
{
    proof {
        reveal_strlit("\"is_online\"");
    }
    lit("\"is_online\"")
}

fn key_card_present() -> (r: &'static [u8])
    ensures
        r@ == k_card_present(),
{
    proof {
        reveal_strlit("\"card_present\"");
    }
    lit("\"card_present\"")
}

fn key_km_from_home() -> (r: &'static [u8])
    ensures
        r@ == k_km_from_home(),
{
    proof {
        reveal_strlit("\"km_from_home\"");
    }
    lit("\"km_from_home\"")
}

fn key_timestamp() -> (r: &'static [u8])
    ensures
        r@ == k_timestamp(),
{
    proof {
        reveal_strlit("\"timestamp\"");
    }
    lit("\"timestamp\"")
}

fn key_km_from_current() -> (r: &'static [u8])
    ensures
        r@ == k_km_from_current(),
{
    proof {
        reveal_strlit("\"km_from_current\"");
    }
    lit("\"km_from_current\"")
}

/// A top-level object of the body.
pub open spec fn top_object(b: Seq<u8>, key: Seq<u8>) -> Option<(int, int)> {
    object_range_spec(b, 0, b.len() as int, key)
}

/// A number token inside the object that `obj` names.
pub open spec fn num_in(b: Seq<u8>, obj: Seq<u8>, key: Seq<u8>) -> Option<(int, int)> {
    let o = top_object(b, obj).unwrap();
    number_token_spec(b, o.0, o.1, key)
}

/// A string inside the object that `obj` names.
pub open spec fn str_in(b: Seq<u8>, obj: Seq<u8>, key: Seq<u8>) -> Option<(int, int)> {
    let o = top_object(b, obj).unwrap();
    string_spec(b, o.0, o.1, key)
}

/// A boolean inside the object that `obj` names.
pub open spec fn bool_in(b: Seq<u8>, obj: Seq<u8>, key: Seq<u8>) -> Option<bool> {
    let o = top_object(b, obj).unwrap();
    bool_spec(b, o.0, o.1, key)
}

pub open spec fn range_len(r: Option<(int, int)>) -> int {
    r.unwrap().1 - r.unwrap().0
}

/// The previous transaction, when present, is complete.
pub open spec fn last_ok(b: Seq<u8>) -> bool {
    top_object(b, k_last_transaction()) is Some ==> {
        &&& str_in(b, k_last_transaction(), k_timestamp()) is Some
        &&& range_len(str_in(b, k_last_transaction(), k_timestamp())) >= 19
        &&& num_in(b, k_last_transaction(), k_km_from_current()) is Some
    }
}

/// Every required object and field is present, and the timestamps are
/// long enough to hold a date and a time.
pub open spec fn extract_ok(b: Seq<u8>) -> bool {
    &&& top_object(b, k_transaction()) is Some
    &&& top_object(b, k_customer()) is Some
    &&& top_object(b, k_merchant()) is Some
    &&& top_object(b, k_terminal()) is Some
    &&& num_in(b, k_transaction(), k_amount()) is Some
    &&& num_in(b, k_transaction(), k_installments()) is Some
    &&& str_in(b, k_transaction(), k_requested_at()) is Some
    &&& range_len(str_in(b, k_transaction(), k_requested_at())) >= 19
    &&& num_in(b, k_customer(), k_avg_amount()) is Some
    &&& num_in(b, k_customer(), k_tx_count_24h()) is Some
    &&& str_in(b, k_merchant(), k_id()) is Some
    &&& str_in(b, k_merchant(), k_mcc()) is Some
    &&& num_in(b, k_merchant(), k_avg_amount()) is Some
    &&& bool_in(b, k_terminal(), k_is_online()) is Some
    &&& bool_in(b, k_terminal(), k_card_present()) is Some
    &&& num_in(b, k_terminal(), k_km_from_home()) is Some
    &&& last_ok(b)
}

pub open spec fn usz(r: Option<(int, int)>) -> (usize, usize) {
    (r.unwrap().0 as usize, r.unwrap().1 as usize)
}

pub open spec fn bytes_of(b: Seq<u8>, r: Option<(int, int)>) -> Seq<u8> {
    b.subrange(r.unwrap().0, r.unwrap().1)
}

/// The fields of a well-formed body.
pub open spec fn extract_spec(b: Seq<u8>) -> Fields {
    let req = str_in(b, k_transaction(), k_requested_at());
    let mid = str_in(b, k_merchant(), k_id());
    let cust = top_object(b, k_customer()).unwrap();
    Fields {
        amount: usz(num_in(b, k_transaction(), k_amount())),
        installments: usz(num_in(b, k_transaction(), k_installments())),
        requested_at: usz(req),
        customer_avg: usz(num_in(b, k_customer(), k_avg_amount())),
        tx_count_24h: usz(num_in(b, k_customer(), k_tx_count_24h())),
        merchant_id: usz(mid),
        mcc: usz(str_in(b, k_merchant(), k_mcc())),
        merchant_avg: usz(num_in(b, k_merchant(), k_avg_amount())),
        is_online: bool_in(b, k_terminal(), k_is_online()).unwrap(),
        card_present: bool_in(b, k_terminal(), k_card_present()).unwrap(),
        km_from_home: usz(num_in(b, k_terminal(), k_km_from_home())),
        last: if top_object(b, k_last_transaction()) is Some {
            let ts = str_in(b, k_last_transaction(), k_timestamp());
            Some(
                LastTransaction {
                    timestamp: usz(ts),
                    km_from_current: usz(num_in(b, k_last_transaction(), k_km_from_current())),
                    minutes: minutes_apart(bytes_of(b, req), bytes_of(b, ts)) as i64,
                },
            )
        } else {
            None
        },
        known_merchant: array_contains_spec(b, cust.0, cust.1, k_known_merchants(), bytes_of(b, mid)),
        hour: hour_of(bytes_of(b, req)) as i32,
        weekday: weekday_of(bytes_of(b, req)) as i32,
    }
}

/// Find every field of a fraud-score request body; an error when an
/// object or a field is missing or malformed, or a timestamp is shorter
/// than 19 bytes.
pub fn extract(body: &[u8]) -> (r: Result<Fields, ParseError>)
    requires
        body@.len() <= i32::MAX,
    ensures
        r is Ok <==> extract_ok(body@),
        r matches Ok(f) ==> f == extract_spec(body@),
{
    let ghost b = body@;
    let end = body.len();
    let (tx_start, tx_end) = match object_range(body, 0, end, key_transaction()) {
        Some(r) => r,
        None => return Err(ParseError),
    };
    let (cust_start, cust_end) = match object_range(body, 0, end, key_customer()) {
        Some(r) => r,
        None => return Err(ParseError),
    };
    let (merch_start, merch_end) = match object_range(body, 0, end, key_merchant()) {
        Some(r) => r,
        None => return Err(ParseError),
    };
    let (term_start, term_end) = match object_range(body, 0, end, key_terminal()) {
        Some(r) => r,
        None => return Err(ParseError),
    };

    let amount = match number_token(body, tx_start, tx_end, key_amount()) {
        Some(r) => r,
        None => return Err(ParseError),
    };
    let installments = match number_token(body, tx_start, tx_end, key_installments()) {
        Some(r) => r,
        None => return Err(ParseError),
    };
    let requested_at = match string_range(body, tx_start, tx_end, key_requested_at()) {
        Some(r) => r,
        None => return Err(ParseError),
    };
    if requested_at.1 - requested_at.0 < 19 {
        return Err(ParseError);
    }

    let customer_avg = match number_token(body, cust_start, cust_end, key_avg_amount()) {
        Some(r) => r,
        None => return Err(ParseError),
    };
    let tx_count_24h = match number_token(body, cust_start, cust_end, key_tx_count_24h()) {
        Some(r) => r,
        None => return Err(ParseError),
    };

    let merchant_id = match string_range(body, merch_start, merch_end, key_id()) {
        Some(r) => r,
        None => return Err(ParseError),
    };
    let mcc = match string_range(body, merch_start, merch_end, key_mcc()) {
        Some(r) => r,
        None => return Err(ParseError),
    };
    let merchant_avg = match number_token(body, merch_start, merch_end, key_avg_amount()) {
        Some(r) => r,
        None => return Err(ParseError),
    };

    let is_online = match json_bool(body, term_start, term_end, key_is_online()) {
        Some(v) => v,
        None => return Err(ParseError),
    };
    let card_present = match json_bool(body, term_start, term_end, key_card_present()) {
        Some(v) => v,
        None => return Err(ParseError),
    };
    let km_from_home = match number_token(body, term_start, term_end, key_km_from_home()) {
        Some(r) => r,
        None => return Err(ParseError),
    };

    let req = slice_of(body, requested_at.0, requested_at.1);
    let mut last: Option<LastTransaction> = None;
    if let Some((lt_start, lt_end)) = object_range(body, 0, end, key_last_transaction()) {
        let ts = match string_range(body, lt_start, lt_end, key_timestamp()) {
            Some(r) => r,
            None => return Err(ParseError),
        };
        if ts.1 - ts.0 < 19 {
            return Err(ParseError);
        }
        let km_from_current = match number_token(body, lt_start, lt_end, key_km_from_current()) {
            Some(r) => r,
            None => return Err(ParseError),
        };
        let minutes = minutes_between(req, slice_of(body, ts.0, ts.1));
        last = Some(LastTransaction { timestamp: ts, km_from_current, minutes });
    }

    let needle = slice_of(body, merchant_id.0, merchant_id.1);
    let known_merchant = array_contains_string(
        body,
        cust_start,
        cust_end,
        key_known_merchants(),
        needle,
    );
    let hour = iso_hour_utc(req);
    let weekday = weekday_monday_zero(req);
    Ok(
        Fields {
            amount,
            installments,
            requested_at,
            customer_avg,
            tx_count_24h,
            merchant_id,
            mcc,
            merchant_avg,
            is_online,
            card_present,
            km_from_home,
            last,
            known_merchant,
            hour,
            weekday,
        },
    )
}

}
