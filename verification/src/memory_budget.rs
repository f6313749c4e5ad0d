//! Memory needed by a calculation, against a limit.

use crate::fft_params::{ceil_div, div_ceil};
use vstd::prelude::*;

verus! {

/// Bytes a calculation needs: the result and the temporaries of Fast
/// Doubling (five numbers of the result's size).
#[derive(Debug, Clone)]
pub struct MemoryEstimate {
    /// Bytes of the result.
    pub result_bytes: usize,
    /// Bytes of the temporaries.
    pub temp_bytes: usize,
    /// Bytes in all.
    pub total_bytes: usize,
}

impl MemoryEstimate {
    /// The estimate for a result of `result_bits` bits.
    pub fn from_result_bits(result_bits: usize) -> (r: Self)
        ensures
            r.result_bytes == ceil_div(result_bits as nat, 8),
            r.temp_bytes == 5 * r.result_bytes,
            r.total_bytes == r.result_bytes + r.temp_bytes,
    {
        let result_bytes = div_ceil(result_bits, 8);
        proof {
            crate::fft_params::lemma_ceil_div_le(result_bits as nat, 8);
        }
        let temp_bytes = result_bytes * 5;
        MemoryEstimate { result_bytes, temp_bytes, total_bytes: result_bytes + temp_bytes }
    }

    /// Whether the estimate fits in the limit (no limit: always).
    pub fn fits_in(&self, limit: Option<usize>) -> (r: bool)
        ensures
            r == match limit {
                Some(l) => self.total_bytes <= l,
                None => true,
            },
    {
        match limit {
            None => true,
            Some(l) => self.total_bytes <= l,
        }
    }
}

} // verus!

verus! {

/// Unicode White_Space, the whitespace of `char::is_whitespace`.
pub open spec fn is_white_space(c: char) -> bool {
    let u = c as u32;
    (0x9 <= u <= 0xD) || u == 0x20 || u == 0x85 || u == 0xA0 || u == 0x1680 || (0x2000 <= u <= 0x200A)
        || u == 0x2028 || u == 0x2029 || u == 0x202F || u == 0x205F || u == 0x3000
}

/// `s` without leading whitespace.
pub open spec fn trim_start(s: Seq<char>) -> Seq<char>
    decreases s.len(),
{
    if s.len() > 0 && is_white_space(s[0]) { trim_start(s.drop_first()) } else { s }
}

/// `s` without trailing whitespace.
pub open spec fn trim_end(s: Seq<char>) -> Seq<char>
    decreases s.len(),
{
    if s.len() > 0 && is_white_space(s.last()) { trim_end(s.drop_last()) } else { s }
}

/// `s` without leading and trailing whitespace.
pub open spec fn trimmed(s: Seq<char>) -> Seq<char> {
    trim_end(trim_start(s))
}

/// Whether `c` is an ASCII decimal digit.
pub open spec fn is_digit(c: char) -> bool {
    '0' <= c <= '9'
}

/// The value of a string of decimal digits.
pub open spec fn digits_value(s: Seq<char>) -> nat
    decreases s.len(),
{
    if s.len() == 0 { 0 } else { digits_value(s.drop_last()) * 10 + ((s.last() as u32) - ('0' as u32)) as nat }
}

/// The text of an unsigned integer as `str::parse` reads it: an optional
/// `+` and one or more decimal digits.
pub open spec fn unsigned_digits(s: Seq<char>) -> Option<Seq<char>> {
    let d = if s.len() > 0 && s[0] == '+' { s.drop_first() } else { s };
    if d.len() > 0 && forall|i: int| 0 <= i < d.len() ==> is_digit(#[trigger] d[i]) { Some(d) } else { None }
}

/// `str::trim`: the string without leading and trailing Unicode whitespace.
#[verifier::external_body]
fn trim_str(s: &str) -> (r: &str)
    ensures
        r@ == trimmed(s@),
{
    s.trim()
}

/// `str::strip_suffix` with one character: the rest when `s` ends with it.
#[verifier::external_body]
fn strip_suffix_char(s: &str, c: char) -> (r: Option<&str>)
    ensures
        r is Some == (s@.len() > 0 && s@.last() == c),
        r matches Some(t) ==> t@ == s@.drop_last(),
{
    s.strip_suffix(c)
}

/// `str::parse::<usize>`, its error given as the error's text.
#[verifier::external_body]
fn parse_limit_number(s: &str) -> (r: Result<usize, String>)
    ensures
        r matches Ok(v) ==> (unsigned_digits(s@) matches Some(d) && v == digits_value(d)),
        (unsigned_digits(s@) matches Some(d) && digits_value(d) <= usize::MAX) ==> r is Ok,
{
    s.parse::<usize>().map_err(|e| e.to_string())
}

/// The number and unit multiplier of a memory limit after trimming:
/// a final G, M, K or B gives 2^30, 2^20, 2^10 or 1, none gives 1.
pub open spec fn limit_parts(t: Seq<char>) -> (Seq<char>, nat) {
    if t.len() > 0 && t.last() == 'G' {
        (t.drop_last(), 1024 * 1024 * 1024)
    } else if t.len() > 0 && t.last() == 'M' {
        (t.drop_last(), 1024 * 1024)
    } else if t.len() > 0 && t.last() == 'K' {
        (t.drop_last(), 1024)
    } else if t.len() > 0 && t.last() == 'B' {
        (t.drop_last(), 1)
    } else {
        (t, 1)
    }
}

/// When a limit's number parses as a `usize`, its product with the
/// multiplier fits in `usize` too (the multiplication would overflow
/// otherwise). A number beyond `usize` is refused with an error.
pub open spec fn limit_fits(s: Seq<char>) -> bool {
    let (num, mult) = limit_parts(trimmed(s));
    match unsigned_digits(trimmed(num)) {
        Some(d) => digits_value(d) <= usize::MAX ==> digits_value(d) * mult <= usize::MAX,
        None => true,
    }
}

/// Parse a memory limit such as "8G", "512M", "1024K", "100B" or "4096"
/// (bytes); an empty string is 0.
pub fn parse_memory_limit(s: &str) -> (r: Result<usize, String>)
    requires
        limit_fits(s@),
    ensures
        trimmed(s@).len() == 0 ==> r == Ok::<usize, String>(0),
        ({
            let (num, mult) = limit_parts(trimmed(s@));
            trimmed(s@).len() > 0 ==> (
                (r matches Ok(v) ==> unsigned_digits(trimmed(num)) matches Some(d) && v == digits_value(d) * mult)
                && (unsigned_digits(trimmed(num)) matches Some(d) && digits_value(d) <= usize::MAX ==> r is Ok)
                && (r matches Err(m) ==> exists|e: Seq<char>| m@ == "invalid memory limit: "@ + e))
        }),
{
    let t = trim_str(s);
    if t.is_empty() {
        return Ok(0);
    }
    let (num, multiplier): (&str, usize) = match strip_suffix_char(t, 'G') {
        Some(n) => (n, 1024 * 1024 * 1024),
        None => match strip_suffix_char(t, 'M') {
            Some(n) => (n, 1024 * 1024),
            None => match strip_suffix_char(t, 'K') {
                Some(n) => (n, 1024),
                None => match strip_suffix_char(t, 'B') {
                    Some(n) => (n, 1),
                    None => (t, 1),
                },
            },
        },
    };
    let inner = trim_str(num);
    match parse_limit_number(inner) {
        Ok(value) => {
            proof {
                assert(value * multiplier <= usize::MAX);
            }
            Ok(value * multiplier)
        },
        Err(e) => {
            let mut m = String::from_str("invalid memory limit: ");
            m.append(e.as_str());
            Err(m)
        },
    }
}

} // verus!
