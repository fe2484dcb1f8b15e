//! Fixed-position ISO-8601 timestamp fields (`YYYY-MM-DDThh:mm:ss...`)
//! and proleptic Gregorian day arithmetic.
//!
//! Each field byte is read as `byte - b'0'` in wrapping `u8` arithmetic,
//! so a non-digit byte yields a value outside `0..=9` rather than failing.
use vstd::prelude::*;

verus! {

/// The value of a field byte: `b - 48`, wrapping modulo 256.
pub open spec fn dg(b: u8) -> int {
    if b >= 48 {
        b - 48
    } else {
        b + 208
    }
}

pub open spec fn year_of(ts: Seq<u8>) -> int {
    dg(ts[0]) * 1000 + dg(ts[1]) * 100 + dg(ts[2]) * 10 + dg(ts[3])
}

pub open spec fn month_of(ts: Seq<u8>) -> int {
    dg(ts[5]) * 10 + dg(ts[6])
}

pub open spec fn day_of(ts: Seq<u8>) -> int {
    dg(ts[8]) * 10 + dg(ts[9])
}

pub open spec fn hour_field(ts: Seq<u8>) -> int {
    dg(ts[11]) * 10 + dg(ts[12])
}

pub open spec fn minute_field(ts: Seq<u8>) -> int {
    dg(ts[14]) * 10 + dg(ts[15])
}

pub open spec fn second_field(ts: Seq<u8>) -> int {
    dg(ts[17]) * 10 + dg(ts[18])
}

/// Days from 1970-01-01 to year `y`, month `m`, day `d` of the proleptic
/// Gregorian calendar (years counted from March, 400-year eras).
#[verifier::opaque]
pub open spec fn civil_days(y: int, m: int, d: int) -> int {
    let y2 = if m <= 2 {
        y - 1
    } else {
        y
    };
    let era = y2 / 400;
    let yoe = y2 - era * 400;
    let shift = if m > 2 {
        -3int
    } else {
        9int
    };
    let doy = (153 * (m + shift) + 2) / 5 + d - 1;
    let doe = yoe * 365 + yoe / 4 - yoe / 100 + doy;
    era * 146097 + doe - 719468
}

/// The hour of the timestamp, capped at 23.
pub open spec fn hour_of(ts: Seq<u8>) -> int {
    if hour_field(ts) > 23 {
        23
    } else {
        hour_field(ts)
    }
}

/// Day of the week, Monday = 0 .. Sunday = 6.
pub open spec fn weekday_of(ts: Seq<u8>) -> int {
    (civil_days(year_of(ts), month_of(ts), day_of(ts)) + 3) % 7
}

/// Seconds since 1970-01-01T00:00:00.
pub open spec fn epoch_seconds(ts: Seq<u8>) -> int {
    civil_days(year_of(ts), month_of(ts), day_of(ts)) * 86400 + hour_field(ts) * 3600
        + minute_field(ts) * 60 + second_field(ts)
}

/// Whole minutes between two timestamps, in either order.
pub open spec fn minutes_apart(a: Seq<u8>, b: Seq<u8>) -> int {
    let d = epoch_seconds(a) - epoch_seconds(b);
    (if d < 0 {
        -d
    } else {
        d
    }) / 60
}

fn digit(b: u8) -> (r: i32)
    ensures
        r == dg(b),
        0 <= r <= 255,
{
    b.wrapping_sub(48) as i32
}

/// Days from 1970-01-01 to `y`-`m`-`d`.
fn days_from_civil(y: i32, m: i32, d: i32) -> (r: i64)
    requires
        0 <= y <= 300000,
        0 <= m <= 3000,
        0 <= d <= 3000,
    ensures
        r == civil_days(y as int, m as int, d as int),
        -1000000 <= r <= 200000000,
{
    reveal(civil_days);
    let mut y = y;
    if m <= 2 {
        y -= 1;
    }
    let era = if y >= 0 {
        y / 400
    } else {
        (y - 399) / 400
    };
    assert(era == y / 400);
    let yoe = (y - era * 400) as i64;
    let month_shift: i64 = if m > 2 {
        -3
    } else {
        9
    };
    let doy = (153 * (m as i64 + month_shift) + 2) / 5 + d as i64 - 1;
    let doe = yoe * 365 + yoe / 4 - yoe / 100 + doy;
    era as i64 * 146097 + doe - 719468
}

/// The hour of the timestamp, capped at 23.
pub fn iso_hour_utc(ts: &[u8]) -> (h: i32)
    requires
        ts@.len() >= 13,
    ensures
        h == hour_of(ts@),
{
    let h = digit(ts[11]) * 10 + digit(ts[12]);
    if h < 0 {
        0
    } else if h > 23 {
        23
    } else {
        h
    }
}

/// Day of the week of the timestamp's date, Monday = 0.
pub fn weekday_monday_zero(ts: &[u8]) -> (w: i32)
    requires
        ts@.len() >= 10,
    ensures
        w == weekday_of(ts@),
        0 <= w < 7,
{
    let y = digit(ts[0]) * 1000 + digit(ts[1]) * 100 + digit(ts[2]) * 10 + digit(ts[3]);
    let m = digit(ts[5]) * 10 + digit(ts[6]);
    let d = digit(ts[8]) * 10 + digit(ts[9]);
    let days = days_from_civil(y, m, d);
    let mut w = ((days + 3) % 7) as i32;
    if w < 0 {
        w += 7;
    }
    w
}

/// Seconds since 1970-01-01T00:00:00.
pub fn iso_to_epoch_seconds(ts: &[u8]) -> (s: i64)
    requires
        ts@.len() >= 19,
    ensures
        s == epoch_seconds(ts@),
        -100000000000 <= s <= 20000000000000,
{
    let y = digit(ts[0]) * 1000 + digit(ts[1]) * 100 + digit(ts[2]) * 10 + digit(ts[3]);
    let m = digit(ts[5]) * 10 + digit(ts[6]);
    let d = digit(ts[8]) * 10 + digit(ts[9]);
    let hh = digit(ts[11]) as i64 * 10 + digit(ts[12]) as i64;
    let mm = digit(ts[14]) as i64 * 10 + digit(ts[15]) as i64;
    let ss = digit(ts[17]) as i64 * 10 + digit(ts[18]) as i64;
    let days = days_from_civil(y, m, d);
    assert(0 <= hh <= 2805 && 0 <= mm <= 2805 && 0 <= ss <= 2805);
    let r = days * 86400 + hh * 3600 + mm * 60 + ss;
    r
}

/// Whole minutes between two timestamps, in either order.
pub fn minutes_between(a: &[u8], b: &[u8]) -> (m: i64)
    requires
        a@.len() >= 19,
        b@.len() >= 19,
    ensures
        m == minutes_apart(a@, b@),
        m >= 0,
{
    let sa = iso_to_epoch_seconds(a);
    let sb = iso_to_epoch_seconds(b);
    let mut d = sa - sb;
    if d < 0 {
        d = -d;
    }
    d / 60
}


/// A leap year of the Gregorian calendar.
pub open spec fn is_leap(y: int) -> bool {
    y % 4 == 0 && (y % 100 != 0 || y % 400 == 0)
}

/// Number of days in month `m` (1 = January) of year `y`.
pub open spec fn month_len(y: int, m: int) -> int {
    if m == 2 {
        if is_leap(y) {
            29
        } else {
            28
        }
    } else if m == 4 || m == 6 || m == 9 || m == 11 {
        30
    } else {
        31
    }
}

/// `y`-`m`-`d` is a calendar date.
pub open spec fn valid_date(y: int, m: int, d: int) -> bool {
    1 <= m <= 12 && 1 <= d <= month_len(y, m)
}

/// The calendar day after `y`-`m`-`d`.
pub open spec fn next_day(y: int, m: int, d: int) -> (int, int, int) {
    if d < month_len(y, m) {
        (y, m, d + 1)
    } else if m < 12 {
        (y, m + 1, 1)
    } else {
        (y + 1, 1, 1)
    }
}

/// Day count of the March-based year `yy`, from the calendar's origin.
spec fn year_base(yy: int) -> int {
    let era = yy / 400;
    let yoe = yy - era * 400;
    era * 146097 + yoe * 365 + yoe / 4 - yoe / 100
}

/// The March-based year from March of `yy` to February of `yy + 1` has
/// 366 days exactly when `yy + 1` is a leap year.
/// Within a 400-year era, the step from year `r` to `r + 1`.
proof fn lemma_yoe_step(r: int)
    requires
        0 <= r < 399,
    ensures
        (r + 1) * 365 + (r + 1) / 4 - (r + 1) / 100 == r * 365 + r / 4 - r / 100 + 365 + if (r + 1)
            % 4 == 0 && ((r + 1) % 100 != 0 || (r + 1) % 400 == 0) {
            1int
        } else {
            0int
        },
{
}

/// The March-based year from March of `yy` to February of `yy + 1` has
/// 366 days exactly when `yy + 1` is a leap year.
proof fn lemma_year_base_step(yy: int)
    ensures
        year_base(yy + 1) == year_base(yy) + 365 + if is_leap(yy + 1) {
            1int
        } else {
            0int
        },
{
    let era = yy / 400;
    let r = yy % 400;
    vstd::arithmetic::div_mod::lemma_fundamental_div_mod(yy, 400);
    vstd::arithmetic::div_mod::lemma_mod_bound(yy, 400);
    assert(yy == 400 * era + r && 0 <= r < 400);
    if r < 399 {
        vstd::arithmetic::div_mod::lemma_div_multiples_vanish_fancy(era, r + 1, 400);
        assert((yy + 1) / 400 == era);
        vstd::arithmetic::div_mod::lemma_mod_multiples_vanish(100 * era, r + 1, 4);
        vstd::arithmetic::div_mod::lemma_mod_multiples_vanish(4 * era, r + 1, 100);
        vstd::arithmetic::div_mod::lemma_mod_multiples_vanish(era, r + 1, 400);
        assert(yy + 1 == 4 * (100 * era) + (r + 1));
        assert(yy + 1 == 100 * (4 * era) + (r + 1));
        assert((yy + 1) % 4 == (r + 1) % 4);
        assert((yy + 1) % 100 == (r + 1) % 100);
        assert((yy + 1) % 400 == (r + 1) % 400);
        lemma_yoe_step(r);
        assert(year_base(yy) == era * 146097 + r * 365 + r / 4 - r / 100);
        assert(year_base(yy + 1) == era * 146097 + (r + 1) * 365 + (r + 1) / 4 - (r + 1) / 100);
    } else {
        vstd::arithmetic::div_mod::lemma_div_multiples_vanish(era + 1, 400);
        vstd::arithmetic::div_mod::lemma_mod_multiples_vanish(100 * (era + 1), 0, 4);
        vstd::arithmetic::div_mod::lemma_mod_multiples_vanish(era + 1, 0, 400);
        assert(yy + 1 == 400 * (era + 1));
        assert(yy + 1 == 4 * (100 * (era + 1)) + 0);
        assert((yy + 1) / 400 == era + 1);
        assert((yy + 1) % 4 == 0);
        assert((yy + 1) % 400 == 0);
        assert(year_base(yy) == era * 146097 + 399int * 365 + 399int / 4 - 399int / 100);
        assert(year_base(yy + 1) == (era + 1) * 146097);
    }
}

/// Day 0 is 1970-01-01.
pub proof fn lemma_civil_days_epoch()
    ensures
        civil_days(1970, 1, 1) == 0,
        weekday_of(seq![49u8, 57, 55, 48, 45, 48, 49, 45, 48, 49]) == 3,
{
    reveal(civil_days);
}

/// Consecutive calendar days have consecutive day counts: the day after a
/// valid date (across month and year ends, with leap years) counts one
/// more. So `civil_days(y, m, d)` is the number of days from 1970-01-01.
pub proof fn lemma_civil_days_next_day(y: int, m: int, d: int)
    requires
        valid_date(y, m, d),
    ensures
        valid_date(next_day(y, m, d).0, next_day(y, m, d).1, next_day(y, m, d).2),
        civil_days(next_day(y, m, d).0, next_day(y, m, d).1, next_day(y, m, d).2) == civil_days(
            y,
            m,
            d,
        ) + 1,
{
    reveal(civil_days);
    if d < month_len(y, m) {
    } else if m == 2 {
        lemma_year_base_step(y - 1);
        assert(year_base(y) == year_base(y - 1) + 365 + if is_leap(y) {
            1int
        } else {
            0int
        });
    } else if m == 12 {
    } else {
        assert(m == 1 || m == 3 || m == 4 || m == 5 || m == 6 || m == 7 || m == 8 || m == 9 || m
            == 10 || m == 11);
    }
}

/// Whole months: the first of the next month counts the current month's
/// length more than the first of this month.
pub proof fn lemma_civil_days_month(y: int, m: int)
    requires
        1 <= m <= 11,
    ensures
        civil_days(y, m + 1, 1) - civil_days(y, m, 1) == month_len(y, m),
{
    reveal(civil_days);
    if m == 2 {
        lemma_year_base_step(y - 1);
    }
    assert(m == 1 || m == 2 || m == 3 || m == 4 || m == 5 || m == 6 || m == 7 || m == 8 || m == 9
        || m == 10 || m == 11);
}

/// The weekday advances by one each calendar day.
pub proof fn lemma_weekday_next_day(y: int, m: int, d: int)
    requires
        valid_date(y, m, d),
    ensures
        (civil_days(next_day(y, m, d).0, next_day(y, m, d).1, next_day(y, m, d).2) + 3) % 7 == ((
        civil_days(y, m, d) + 3) % 7 + 1) % 7,
{
    lemma_civil_days_next_day(y, m, d);
}


/// A field byte that is a digit reads as that digit.
pub proof fn lemma_digit_field(b: u8)
    requires
        48 <= b <= 57,
    ensures
        dg(b) == b - 48,
        0 <= dg(b) <= 9,
{
}

/// Two timestamps on the same date are apart by their clock fields:
/// 3600 seconds per hour, 60 per minute, one per second.
pub proof fn lemma_epoch_same_date(a: Seq<u8>, b: Seq<u8>)
    requires
        a.len() >= 19,
        b.len() >= 19,
        a.subrange(0, 10) == b.subrange(0, 10),
    ensures
        epoch_seconds(a) - epoch_seconds(b) == (hour_field(a) - hour_field(b)) * 3600 + (
        minute_field(a) - minute_field(b)) * 60 + (second_field(a) - second_field(b)),
{
    assert(a[0] == a.subrange(0, 10)[0] && b[0] == b.subrange(0, 10)[0]);
    assert(a[1] == a.subrange(0, 10)[1] && b[1] == b.subrange(0, 10)[1]);
    assert(a[2] == a.subrange(0, 10)[2] && b[2] == b.subrange(0, 10)[2]);
    assert(a[3] == a.subrange(0, 10)[3] && b[3] == b.subrange(0, 10)[3]);
    assert(a[5] == a.subrange(0, 10)[5] && b[5] == b.subrange(0, 10)[5]);
    assert(a[6] == a.subrange(0, 10)[6] && b[6] == b.subrange(0, 10)[6]);
    assert(a[8] == a.subrange(0, 10)[8] && b[8] == b.subrange(0, 10)[8]);
    assert(a[9] == a.subrange(0, 10)[9] && b[9] == b.subrange(0, 10)[9]);
}

/// A timestamp on the next calendar day at the same clock time is 86400
/// seconds later, and its weekday is the next one.
pub proof fn lemma_epoch_next_day(a: Seq<u8>, b: Seq<u8>)
    requires
        a.len() >= 19,
        b.len() >= 19,
        a.subrange(10, 19) == b.subrange(10, 19),
        valid_date(year_of(b), month_of(b), day_of(b)),
        next_day(year_of(b), month_of(b), day_of(b)) == (year_of(a), month_of(a), day_of(a)),
    ensures
        epoch_seconds(a) - epoch_seconds(b) == 86400,
        weekday_of(a) == (weekday_of(b) + 1) % 7,
{
    lemma_civil_days_next_day(year_of(b), month_of(b), day_of(b));
    assert(a[11] == a.subrange(10, 19)[1] && b[11] == b.subrange(10, 19)[1]);
    assert(a[12] == a.subrange(10, 19)[2] && b[12] == b.subrange(10, 19)[2]);
    assert(a[14] == a.subrange(10, 19)[4] && b[14] == b.subrange(10, 19)[4]);
    assert(a[15] == a.subrange(10, 19)[5] && b[15] == b.subrange(10, 19)[5]);
    assert(a[17] == a.subrange(10, 19)[7] && b[17] == b.subrange(10, 19)[7]);
    assert(a[18] == a.subrange(10, 19)[8] && b[18] == b.subrange(10, 19)[8]);
}

/// Whole minutes apart do not depend on the order of the timestamps, and
/// a timestamp is zero minutes from itself.
pub proof fn lemma_minutes_apart_symmetric(a: Seq<u8>, b: Seq<u8>)
    ensures
        minutes_apart(a, b) == minutes_apart(b, a),
        minutes_apart(a, a) == 0,
        minutes_apart(a, b) >= 0,
        minutes_apart(a, b) * 60 <= if epoch_seconds(a) >= epoch_seconds(b) {
            epoch_seconds(a) - epoch_seconds(b)
        } else {
            epoch_seconds(b) - epoch_seconds(a)
        } < minutes_apart(a, b) * 60 + 60,
{
}

}
