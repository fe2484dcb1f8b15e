//! Decimal integers in ASCII: reading an unsigned value with an optional
//! leading `+`, and writing one.
use vstd::prelude::*;

verus! {

/// Why a decimal text is not an unsigned integer in range.
#[derive(Debug, Clone, Copy, PartialEq, Eq, Structural)]
pub enum IntErrorKind {
    /// The text is empty.
    Empty,
    /// A byte is not a digit (or the text is a lone sign).
    InvalidDigit,
    /// The value exceeds the maximum.
    PosOverflow,
}

pub open spec fn is_digit(b: u8) -> bool {
    48 <= b <= 57
}

/// Read digits from position `i` on, with `acc` the value so far: the
/// first non-digit is an invalid digit, and the first prefix whose value
/// exceeds `max` an overflow.
pub open spec fn digits_from(d: Seq<u8>, i: int, acc: nat, max: nat) -> Result<nat, IntErrorKind>
    decreases d.len() - i,
{
    if i >= d.len() {
        Ok(acc)
    } else if !is_digit(d[i]) {
        Err(IntErrorKind::InvalidDigit)
    } else if acc * 10 + (d[i] - 48) > max {
        Err(IntErrorKind::PosOverflow)
    } else {
        digits_from(d, i + 1, (acc * 10 + (d[i] - 48)) as nat, max)
    }
}

/// An unsigned decimal: an optional `+` then digits, at most `max`.
pub open spec fn parse_unsigned_spec(s: Seq<u8>, max: nat) -> Result<nat, IntErrorKind> {
    if s.len() == 0 {
        Err(IntErrorKind::Empty)
    } else if s.len() == 1 && (s[0] == 43 || s[0] == 45) {
        Err(IntErrorKind::InvalidDigit)
    } else if s[0] == 43 {
        digits_from(s, 1, 0, max)
    } else {
        digits_from(s, 0, 0, max)
    }
}

pub open spec fn digit_value(b: u8) -> nat {
    (b - 48) as nat
}

/// The value of a sequence of digits.
pub open spec fn digits_value(d: Seq<u8>) -> nat
    decreases d.len(),
{
    if d.len() == 0 {
        0
    } else {
        digits_value(d.drop_last()) * 10 + digit_value(d.last())
    }
}

/// The shortest decimal text of `n`.
pub open spec fn decimal(n: nat) -> Seq<u8>
    decreases n,
{
    if n < 10 {
        seq![(48 + n) as u8]
    } else {
        decimal(n / 10).push((48 + n % 10) as u8)
    }
}

/// A successful read never exceeds the maximum.
pub proof fn lemma_digits_from_bound(d: Seq<u8>, i: int, acc: nat, max: nat)
    requires
        acc <= max,
    ensures
        digits_from(d, i, acc, max) matches Ok(v) ==> v <= max,
    decreases d.len() - i,
{
    if i < d.len() && is_digit(d[i]) && acc * 10 + (d[i] - 48) <= max {
        lemma_digits_from_bound(d, i + 1, (acc * 10 + (d[i] - 48)) as nat, max);
    }
}

/// Read an unsigned decimal no greater than `max`.
pub fn parse_unsigned(s: &[u8], max: u64) -> (r: Result<u64, IntErrorKind>)
    ensures
        match parse_unsigned_spec(s@, max as nat) {
            Ok(v) => r == Ok::<u64, IntErrorKind>(v as u64),
            Err(e) => r == Err::<u64, IntErrorKind>(e),
        },
        r matches Ok(v) ==> v <= max,
        parse_unsigned_spec(s@, max as nat) matches Ok(v) ==> v <= max,
{
    proof {
        lemma_digits_from_bound(s@, 0, 0, max as nat);
        lemma_digits_from_bound(s@, 1, 0, max as nat);
    }
    let n = s.len();
    if n == 0 {
        return Err(IntErrorKind::Empty);
    }
    if n == 1 && (s[0] == 43 || s[0] == 45) {
        return Err(IntErrorKind::InvalidDigit);
    }
    let mut i: usize = if s[0] == 43 {
        1
    } else {
        0
    };
    let ghost i0 = i as int;
    assert(parse_unsigned_spec(s@, max as nat) == digits_from(s@, i0, 0, max as nat));
    let mut acc: u64 = 0;
    while i < n
        invariant
            n == s@.len(),
            i <= n,
            acc <= max,
            parse_unsigned_spec(s@, max as nat) == digits_from(s@, i0, 0, max as nat),
            digits_from(s@, i0, 0, max as nat) == digits_from(s@, i as int, acc as nat, max as nat),
        decreases n - i,
    {
        let b = s[i];
        if b < 48 || b > 57 {
            assert(digits_from(s@, i as int, acc as nat, max as nat) == Err::<nat, IntErrorKind>(
                IntErrorKind::InvalidDigit,
            ));
            assert(parse_unsigned_spec(s@, max as nat) == Err::<nat, IntErrorKind>(
                IntErrorKind::InvalidDigit,
            ));
            return Err(IntErrorKind::InvalidDigit);
        }
        let dv = (b - 48) as u64;
        if dv > max || acc > (max - dv) / 10 {
            proof {
                if dv <= max {
                    assert(acc * 10 + dv > max) by (nonlinear_arith)
                        requires
                            acc > (max - dv) / 10,
                            dv <= max,
                    ;
                }
                assert(digits_from(s@, i as int, acc as nat, max as nat) == Err::<nat, IntErrorKind>(
                    IntErrorKind::PosOverflow,
                ));
            }
            return Err(IntErrorKind::PosOverflow);
        }
        assert(acc * 10 + dv <= max) by (nonlinear_arith)
            requires
                acc <= (max - dv) / 10,
                dv <= 9,
        ;
        acc = acc * 10 + dv;
        i += 1;
    }
    Ok(acc)
}


/// Reading one more byte after a prefix: a digit extends the value unless
/// it passes the maximum, anything else is an invalid digit.
proof fn lemma_digits_from_push(d: Seq<u8>, x: u8, i: int, acc: nat, max: nat)
    requires
        0 <= i <= d.len(),
    ensures
        digits_from(d.push(x), i, acc, max) == (match digits_from(d, i, acc, max) {
            Ok(v) => if !is_digit(x) {
                Err(IntErrorKind::InvalidDigit)
            } else if v * 10 + (x - 48) > max {
                Err(IntErrorKind::PosOverflow)
            } else {
                Ok((v * 10 + (x - 48)) as nat)
            },
            Err(e) => Err(e),
        }),
    decreases d.len() - i,
{
    let e = d.push(x);
    if i < d.len() {
        assert(e[i] == d[i]);
        if is_digit(d[i]) && acc * 10 + (d[i] - 48) <= max {
            lemma_digits_from_push(d, x, i + 1, (acc * 10 + (d[i] - 48)) as nat, max);
        }
    } else {
        assert(e[i] == x);
        assert(e.len() == i + 1);
        assert(digits_from(d, i, acc, max) == Ok::<nat, IntErrorKind>(acc));
        if is_digit(x) && acc * 10 + (x - 48) <= max {
            let v = (acc * 10 + (x - 48)) as nat;
            assert(digits_from(e, i + 1, v, max) == Ok::<nat, IntErrorKind>(v));
        }
    }
}

/// Every byte of a decimal text is a digit, and there is at least one.
pub proof fn lemma_decimal_digits(n: nat)
    ensures
        decimal(n).len() >= 1,
        forall|k: int| 0 <= k < decimal(n).len() ==> is_digit(#[trigger] decimal(n)[k]),
    decreases n,
{
    if n >= 10 {
        lemma_decimal_digits(n / 10);
        let p = decimal(n / 10);
        assert forall|k: int| 0 <= k < decimal(n).len() implies is_digit(#[trigger] decimal(n)[k]) by {
            if k < p.len() {
                assert(decimal(n)[k] == p[k]);
            }
        }
    }
}

proof fn lemma_digits_of_decimal(n: nat, max: nat)
    requires
        n <= max,
    ensures
        digits_from(decimal(n), 0, 0, max) == Ok::<nat, IntErrorKind>(n),
    decreases n,
{
    if n < 10 {
        let s = decimal(n);
        assert(s.len() == 1 && s[0] == 48 + n);
        assert(digits_from(s, 1, n, max) == Ok::<nat, IntErrorKind>(n));
    } else {
        lemma_digits_of_decimal(n / 10, max);
        lemma_digits_from_push(decimal(n / 10), (48 + n % 10) as u8, 0, 0, max);
        lemma_decimal_digits(n / 10);
    }
}

/// Reading back the decimal text of a value no greater than the maximum
/// gives the value.
pub proof fn lemma_parse_decimal(n: nat, max: nat)
    requires
        n <= max,
    ensures
        parse_unsigned_spec(decimal(n), max) == Ok::<nat, IntErrorKind>(n),
{
    lemma_decimal_digits(n);
    lemma_digits_of_decimal(n, max);
    assert(is_digit(decimal(n)[0]));
}

}
