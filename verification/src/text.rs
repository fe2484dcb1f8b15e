//! Byte-string helpers shared by the parsers.
use vstd::prelude::*;

verus! {

/// The bytes of an ASCII character sequence.
pub open spec fn ascii(s: Seq<char>) -> Seq<u8> {
    Seq::new(s.len(), |i: int| s[i] as u8)
}

/// The bytes of an ASCII string literal.
pub fn lit(s: &'static str) -> (r: &'static [u8])
    requires
        s.is_ascii(),
    ensures
        r@ == ascii(s@),
{
    proof {
        vstd::string::is_ascii_spec_bytes(s);
    }
    s.as_bytes()
}

/// The sub-slice `lo..hi`.
pub fn slice_of<T>(s: &[T], lo: usize, hi: usize) -> (r: &[T])
    requires
        lo <= hi <= s@.len(),
    ensures
        r@ == s@.subrange(lo as int, hi as int),
{
    &s[lo..hi]
}

/// Whether `h[at .. at + needle.len()]` equals `needle`.
pub fn bytes_eq_at(h: &[u8], at: usize, needle: &[u8]) -> (r: bool)
    requires
        at + needle@.len() <= h@.len(),
    ensures
        r == (h@.subrange(at as int, at + needle@.len()) == needle@),
{
    let hl = h.len();
    let mut k: usize = 0;
    while k < needle.len()
        invariant
            hl == h@.len(),
            k <= needle@.len(),
            at + needle@.len() <= h@.len(),
            forall|j: int| 0 <= j < k ==> h@[at + j] == needle@[j],
        decreases needle@.len() - k,
    {
        if h[at + k] != needle[k] {
            assert(h@.subrange(at as int, at + needle@.len())[k as int] != needle@[k as int]);
            return false;
        }
        k += 1;
    }
    assert(h@.subrange(at as int, at + needle@.len()) =~= needle@);
    true
}

}
