//! Merchant category code risk table and the scanner for its JSON file.
//!
//! The table has one slot per four-digit code; a slot is either set to a
//! risk value or unset. Looking up anything that is not exactly four
//! ASCII digits, or an unset code, gives the table's default risk.
use vstd::prelude::*;

verus! {

/// Number of four-digit codes.
pub const CODES: usize = 10000;

pub open spec fn is_digit(b: u8) -> bool {
    48 <= b <= 57
}

/// The code that the bytes spell, when they are exactly four digits.
pub open spec fn code_of(s: Seq<u8>) -> Option<int> {
    if s.len() == 4 && is_digit(s[0]) && is_digit(s[1]) && is_digit(s[2]) && is_digit(s[3]) {
        Some((s[0] - 48) * 1000 + (s[1] - 48) * 100 + (s[2] - 48) * 10 + (s[3] - 48))
    } else {
        None
    }
}

/// The code that the bytes spell, when they are exactly four digits.
pub fn code4(mcc: &[u8]) -> (r: Option<usize>)
    ensures
        match code_of(mcc@) {
            Some(c) => r == Some(c as usize) && 0 <= c < 10000,
            None => r is None,
        },
{
    if mcc.len() != 4 {
        return None;
    }
    let (c0, c1, c2, c3) = (mcc[0], mcc[1], mcc[2], mcc[3]);
    if !(48 <= c0 && c0 <= 57) || !(48 <= c1 && c1 <= 57) || !(48 <= c2 && c2 <= 57) || !(48 <= c3
        && c3 <= 57) {
        return None;
    }
    Some(
        (c0 - 48) as usize * 1000 + (c1 - 48) as usize * 100 + (c2 - 48) as usize * 10 + (c3
            - 48) as usize,
    )
}

/// A risk per merchant category code, with a default for the rest.
pub struct Table<R> {
    risks: Vec<R>,
    set: Vec<bool>,
    default: R,
}

impl<R: Copy> Table<R> {
    /// One risk slot and one flag per code.
    pub closed spec fn wf(&self) -> bool {
        self.risks@.len() == 10000 && self.set@.len() == 10000
    }

    /// The risk stored for `code`, if any.
    pub closed spec fn entry(&self, code: int) -> Option<R> {
        if self.set@[code] {
            Some(self.risks@[code])
        } else {
            None
        }
    }

    /// The risk given to codes without an entry.
    pub closed spec fn default_risk(&self) -> R {
        self.default
    }

    /// What a lookup of the bytes `mcc` gives.
    pub open spec fn lookup(&self, mcc: Seq<u8>) -> R {
        match code_of(mcc) {
            Some(c) => match self.entry(c) {
                Some(r) => r,
                None => self.default_risk(),
            },
            None => self.default_risk(),
        }
    }

    /// A table without entries; `zero` fills the unused slots.
    pub fn new(zero: R, default: R) -> (t: Self)
        ensures
            t.wf(),
            forall|c: int| 0 <= c < 10000 ==> #[trigger] t.entry(c) is None,
            t.default_risk() == default,
    {
        let mut risks: Vec<R> = Vec::new();
        let mut set: Vec<bool> = Vec::new();
        let mut i: usize = 0;
        while i < CODES
            invariant
                i <= 10000,
                risks@.len() == i,
                set@.len() == i,
                forall|c: int| 0 <= c < i ==> !#[trigger] set@[c],
            decreases 10000 - i,
        {
            risks.push(zero);
            set.push(false);
            i += 1;
        }
        Table { risks, set, default }
    }

    /// Give `code` the risk `risk`.
    pub fn set_one(&mut self, code: usize, risk: R)
        requires
            old(self).wf(),
            code < 10000,
        ensures
            final(self).wf(),
            final(self).entry(code as int) == Some(risk),
            forall|c: int|
                0 <= c < 10000 && c != code ==> #[trigger] final(self).entry(c) == old(self).entry(c),
            final(self).default_risk() == old(self).default_risk(),
    {
        self.risks.set(code, risk);
        self.set.set(code, true);
    }

    /// The risk of the code that `mcc` spells; the default when `mcc` is
    /// not exactly four ASCII digits or the code has no entry.
    pub fn get(&self, mcc: &[u8]) -> (r: R)
        requires
            self.wf(),
        ensures
            r == self.lookup(mcc@),
    {
        match code4(mcc) {
            Some(c) => {
                if self.set[c] {
                    self.risks[c]
                } else {
                    self.default
                }
            },
            None => self.default,
        }
    }
}

/// A lookup gives back what was last stored for its code: after
/// `set_one(code, risk)`, bytes spelling `code` look up `risk`, and bytes
/// spelling any other code look up what they did before.
pub proof fn lemma_get_after_set<R: Copy>(
    before: Table<R>,
    after: Table<R>,
    code: int,
    risk: R,
    mcc: Seq<u8>,
)
    requires
        0 <= code < 10000,
        after.entry(code) == Some(risk),
        forall|c: int| 0 <= c < 10000 && c != code ==> #[trigger] after.entry(c) == before.entry(c),
        after.default_risk() == before.default_risk(),
    ensures
        code_of(mcc) == Some(code) ==> after.lookup(mcc) == risk,
        code_of(mcc) != Some(code) ==> after.lookup(mcc) == before.lookup(mcc),
{
    if let Some(c) = code_of(mcc) {
        assert(0 <= c < 10000);
        if c != code {
            assert(after.entry(c) == before.entry(c));
        }
    }
}

// ---------------------------------------------------------------------
// The risk file: a JSON object of `"code": number` entries.

pub open spec fn is_ws(b: u8) -> bool {
    b == 32 || b == 9 || b == 10 || b == 13
}

/// First position from `i` on that is not whitespace (or `i` itself when
/// it is already past the end).
pub open spec fn skip_ws_spec(data: Seq<u8>, i: int) -> int
    decreases data.len() - i,
{
    if i < data.len() && is_ws(data[i]) {
        skip_ws_spec(data, i + 1)
    } else {
        i
    }
}

/// First position from `i` on that ends a value: `,`, `}`, whitespace or
/// the end of the data.
pub open spec fn value_end(data: Seq<u8>, i: int) -> int
    decreases data.len() - i,
{
    if i < data.len() && !(data[i] == 44 || data[i] == 125 || is_ws(data[i])) {
        value_end(data, i + 1)
    } else {
        i
    }
}

/// First `"` from `i` on, or the end of the data.
pub open spec fn quote_end(data: Seq<u8>, i: int) -> int
    decreases data.len() - i,
{
    if i < data.len() && data[i] != 34 {
        quote_end(data, i + 1)
    } else {
        i
    }
}

/// Why the risk file is not an object of entries.
#[derive(Debug, Clone, Copy, PartialEq, Eq, Structural)]
pub enum RiskFileError {
    /// It does not begin with `{`.
    ExpectedObject,
    /// It ends before the closing `}`.
    Unterminated,
    /// A key does not begin with `"` at this position.
    ExpectedKey(usize),
    /// A key's closing `"` is missing.
    UnterminatedKey,
    /// A key is not followed by `:`.
    ExpectedColon,
}

/// One `"key": value` entry: the key's contents and the raw value token.
#[derive(Debug, Clone, Copy)]
pub struct RiskEntry {
    pub key: (usize, usize),
    pub value: (usize, usize),
}

pub proof fn lemma_scan_bounds(data: Seq<u8>, i: int)
    ensures
        i <= skip_ws_spec(data, i),
        i <= value_end(data, i),
        i <= quote_end(data, i),
        i <= data.len() ==> skip_ws_spec(data, i) <= data.len() && value_end(data, i) <= data.len()
            && quote_end(data, i) <= data.len(),
    decreases data.len() - i,
{
    if i < data.len() {
        lemma_scan_bounds(data, i + 1);
    }
}

/// The entries read from position `i` on (just after `{` or after an
/// entry and its comma), and how the object ends.
pub open spec fn entries_from(data: Seq<u8>, i: int) -> (Seq<RiskEntry>, Result<(), RiskFileError>)
    decreases data.len() - i,
{
    let i1 = skip_ws_spec(data, i);
    proof {
        lemma_scan_bounds(data, i);
    }
    if i1 >= data.len() {
        (Seq::empty(), Err(RiskFileError::Unterminated))
    } else if data[i1] == 125 {
        (Seq::empty(), Ok(()))
    } else if data[i1] != 34 {
        (Seq::empty(), Err(RiskFileError::ExpectedKey(i1 as usize)))
    } else {
        let key_start = i1 + 1;
        let key_end = quote_end(data, key_start);
        proof {
            lemma_scan_bounds(data, key_start);
        }
        if key_end >= data.len() {
            (Seq::empty(), Err(RiskFileError::UnterminatedKey))
        } else {
            let i2 = skip_ws_spec(data, key_end + 1);
            proof {
                lemma_scan_bounds(data, key_end + 1);
            }
            if i2 >= data.len() || data[i2] != 58 {
                (Seq::empty(), Err(RiskFileError::ExpectedColon))
            } else {
                let val_start = skip_ws_spec(data, i2 + 1);
                let val_end = value_end(data, val_start);
                let i3 = skip_ws_spec(data, val_end);
                proof {
                    lemma_scan_bounds(data, i2 + 1);
                    lemma_scan_bounds(data, val_start);
                    lemma_scan_bounds(data, val_end);
                }
                let next = if i3 < data.len() && data[i3] == 44 {
                    i3 + 1
                } else {
                    i3
                };
                let e = RiskEntry {
                    key: (key_start as usize, key_end as usize),
                    value: (val_start as usize, val_end as usize),
                };
                let rest = entries_from(data, next);
                (seq![e] + rest.0, rest.1)
            }
        }
    }
}

/// The entries of the risk file, in order, and how it ends.
pub open spec fn risk_file_spec(data: Seq<u8>) -> (Seq<RiskEntry>, Result<(), RiskFileError>) {
    let i = skip_ws_spec(data, 0);
    if i >= data.len() || data[i] != 123 {
        (Seq::empty(), Err(RiskFileError::ExpectedObject))
    } else {
        entries_from(data, i + 1)
    }
}

/// First position from `i` on that is not whitespace.
pub fn skip_ws(data: &[u8], i: usize) -> (r: usize)
    ensures
        r == skip_ws_spec(data@, i as int),
{
    let mut i = i;
    let ghost i0 = i;
    while i < data.len() && (data[i] == 32 || data[i] == 9 || data[i] == 10 || data[i] == 13)
        invariant
            i0 <= i,
            skip_ws_spec(data@, i0 as int) == skip_ws_spec(data@, i as int),
        decreases data@.len() - i,
    {
        i += 1;
    }
    i
}

/// Read the entries of the risk file in order, stopping at the first
/// structural error.
pub fn scan_risk_file(data: &[u8]) -> (r: (Vec<RiskEntry>, Result<(), RiskFileError>))
    ensures
        (r.0@, r.1) == risk_file_spec(data@),
{
    let n = data.len();
    let mut entries: Vec<RiskEntry> = Vec::new();
    let mut i = skip_ws(data, 0);
    if i >= n || data[i] != 123 {
        return (entries, Err(RiskFileError::ExpectedObject));
    }
    i += 1;
    proof {
        lemma_scan_bounds(data@, 0);
    }
    loop
        invariant
            n == data@.len(),
            i <= n,
            ({
                let rest = entries_from(data@, i as int);
                risk_file_spec(data@) == (entries@ + rest.0, rest.1)
            }),
        decreases n - i,
    {
        let ghost i_before = i as int;
        proof {
            lemma_scan_bounds(data@, i as int);
        }
        i = skip_ws(data, i);
        if i >= n {
            assert(entries@ + Seq::<RiskEntry>::empty() =~= entries@);
            return (entries, Err(RiskFileError::Unterminated));
        }
        if data[i] == 125 {
            assert(entries@ + Seq::<RiskEntry>::empty() =~= entries@);
            return (entries, Ok(()));
        }
        if data[i] != 34 {
            assert(entries@ + Seq::<RiskEntry>::empty() =~= entries@);
            return (entries, Err(RiskFileError::ExpectedKey(i)));
        }
        let key_start = i + 1;
        let mut key_end = key_start;
        while key_end < n && data[key_end] != 34
            invariant
                n == data@.len(),
                key_start <= key_end,
                quote_end(data@, key_start as int) == quote_end(data@, key_end as int),
            decreases n - key_end,
        {
            key_end += 1;
        }
        if key_end >= n {
            assert(entries@ + Seq::<RiskEntry>::empty() =~= entries@);
            return (entries, Err(RiskFileError::UnterminatedKey));
        }
        proof {
            lemma_scan_bounds(data@, key_end + 1);
        }
        i = skip_ws(data, key_end + 1);
        if i >= n || data[i] != 58 {
            assert(entries@ + Seq::<RiskEntry>::empty() =~= entries@);
            return (entries, Err(RiskFileError::ExpectedColon));
        }
        proof {
            lemma_scan_bounds(data@, i + 1);
        }
        i = skip_ws(data, i + 1);
        let val_start = i;
        while i < n && !(data[i] == 44 || data[i] == 125 || data[i] == 32 || data[i] == 9
            || data[i] == 10 || data[i] == 13)
            invariant
                n == data@.len(),
                val_start <= i,
                value_end(data@, val_start as int) == value_end(data@, i as int),
            decreases n - i,
        {
            i += 1;
        }
        let e = RiskEntry { key: (key_start, key_end), value: (val_start, i) };
        proof {
            lemma_scan_bounds(data@, val_start as int);
            lemma_scan_bounds(data@, i as int);
        }
        let ghost old_entries = entries@;
        entries.push(e);
        i = skip_ws(data, i);
        if i < n && data[i] == 44 {
            i += 1;
        }
        proof {
            let rest = entries_from(data@, i as int);
            assert(entries_from(data@, i_before) == (seq![e] + rest.0, rest.1));
            assert(old_entries + (seq![e] + rest.0) =~= entries@ + rest.0);
        }
    }
}


/// A byte that ends a value token: `,`, `}`, space, tab, line feed or
/// carriage return.
pub open spec fn ends_value(b: u8) -> bool {
    b == 44 || b == 125 || b == 32 || b == 9 || b == 10 || b == 13
}

/// Entry `e` of `data` is well placed: its key is the text between two
/// quotes with none inside, and its value is a maximal run of bytes with
/// no delimiter or whitespace (`,`, `}`, space, tab, LF, CR) in it.
pub open spec fn entry_tokens_ok(data: Seq<u8>, e: RiskEntry) -> bool {
    &&& 1 <= e.key.0 <= e.key.1 < data.len()
    &&& data[e.key.0 - 1] == 34
    &&& data[e.key.1 as int] == 34
    &&& forall|p: int| e.key.0 <= p < e.key.1 ==> #[trigger] data[p] != 34
    &&& e.key.1 < e.value.0 <= e.value.1 <= data.len()
    &&& forall|p: int|
        e.value.0 <= p < e.value.1 ==> !(#[trigger] data[p] == 44 || data[p] == 125 || data[p] == 32
            || data[p] == 9 || data[p] == 10 || data[p] == 13)
    &&& e.value.1 == data.len() || (data[e.value.1 as int] == 44 || data[e.value.1 as int] == 125
        || data[e.value.1 as int] == 32 || data[e.value.1 as int] == 9 || data[e.value.1 as int]
        == 10 || data[e.value.1 as int] == 13)
}

proof fn lemma_value_end_stops(data: Seq<u8>, i: int)
    requires
        0 <= i <= data.len(),
    ensures
        i <= value_end(data, i) <= data.len(),
        forall|p: int| i <= p < value_end(data, i) ==> !ends_value(#[trigger] data[p]),
        value_end(data, i) == data.len() || ends_value(data[value_end(data, i)]),
    decreases data.len() - i,
{
    if i < data.len() && !ends_value(data[i]) {
        lemma_value_end_stops(data, i + 1);
    }
}

proof fn lemma_quote_end_stops(data: Seq<u8>, i: int)
    requires
        0 <= i <= data.len(),
    ensures
        i <= quote_end(data, i) <= data.len(),
        forall|p: int| i <= p < quote_end(data, i) ==> #[trigger] data[p] != 34,
        quote_end(data, i) == data.len() || data[quote_end(data, i)] == 34,
    decreases data.len() - i,
{
    if i < data.len() && data[i] != 34 {
        lemma_quote_end_stops(data, i + 1);
    }
}

proof fn lemma_entries_tokens(data: Seq<u8>, i: int)
    requires
        0 <= i <= data.len(),
        data.len() <= usize::MAX,
    ensures
        forall|k: int|
            0 <= k < entries_from(data, i).0.len() ==> entry_tokens_ok(
                data,
                #[trigger] entries_from(data, i).0[k],
            ),
    decreases data.len() - i,
{
    lemma_scan_bounds(data, i);
    let i1 = skip_ws_spec(data, i);
    if i1 < data.len() && data[i1] == 34 {
        let key_start = i1 + 1;
        let key_end = quote_end(data, key_start);
        lemma_quote_end_stops(data, key_start);
        if key_end < data.len() {
            lemma_scan_bounds(data, key_end + 1);
            let i2 = skip_ws_spec(data, key_end + 1);
            if i2 < data.len() && data[i2] == 58 {
                lemma_scan_bounds(data, i2 + 1);
                let val_start = skip_ws_spec(data, i2 + 1);
                lemma_value_end_stops(data, val_start);
                let val_end = value_end(data, val_start);
                lemma_scan_bounds(data, val_end);
                let i3 = skip_ws_spec(data, val_end);
                let next = if i3 < data.len() && data[i3] == 44 {
                    i3 + 1
                } else {
                    i3
                };
                lemma_entries_tokens(data, next);
                let e = RiskEntry {
                    key: (key_start as usize, key_end as usize),
                    value: (val_start as usize, val_end as usize),
                };
                assert(entry_tokens_ok(data, e));
                let rest = entries_from(data, next);
                assert(entries_from(data, i).0 == seq![e] + rest.0);
                assert forall|k: int| 0 <= k < entries_from(data, i).0.len() implies entry_tokens_ok(
                    data,
                    #[trigger] entries_from(data, i).0[k],
                ) by {
                    if k > 0 {
                        assert(entries_from(data, i).0[k] == rest.0[k - 1]);
                    }
                }
            }
        }
    }
}

/// Every entry the scanner returns is well placed: its key lies between
/// quotes, and its value token holds no `,`, `}` or whitespace and ends
/// at one of them (or at the end of the data).
pub proof fn lemma_risk_file_tokens(data: Seq<u8>)
    requires
        data.len() <= usize::MAX,
    ensures
        forall|k: int|
            0 <= k < risk_file_spec(data).0.len() ==> entry_tokens_ok(
                data,
                #[trigger] risk_file_spec(data).0[k],
            ),
{
    lemma_scan_bounds(data, 0);
    let i = skip_ws_spec(data, 0);
    if i < data.len() && data[i] == 123 {
        lemma_entries_tokens(data, i + 1);
    }
}


/// Four decimal digits spell the code they write, most significant first;
/// anything that is not exactly four bytes spells no code.
pub proof fn lemma_code_of_digits(c: int, s: Seq<u8>)
    requires
        0 <= c < 10000,
    ensures
        code_of(seq![(48 + c / 1000) as u8, (48 + c / 100 % 10) as u8, (48 + c / 10 % 10) as u8, (48 + c
            % 10) as u8]) == Some(c),
        s.len() != 4 ==> code_of(s) is None,
{
}

}
