//! Text forms of results for the command line.

use crate::big::big_val;
use crate::decimal::{big_to_decimal, chars_of, decimal, digit_char, string_from_chars, u64_to_decimal, usize_to_decimal};
use crate::memory_budget::{digits_value, is_digit};
use vstd::arithmetic::div_mod::*;
use vstd::arithmetic::power::*;
use num_bigint::BigUint;
use vstd::prelude::*;

verus! {

/// The first `k` digits of `s`, with a comma before each digit that has a
/// positive multiple of three digits after it.
pub open spec fn with_commas(s: Seq<char>, k: nat) -> Seq<char>
    decreases k,
{
    if k == 0 {
        Seq::empty()
    } else {
        let p = (k - 1) as nat;
        with_commas(s, p) + if p > 0 && (s.len() - p) % 3 == 0 { seq![',', s[p as int]] } else { seq![s[p as int]] }
    }
}

/// `n` in decimal with its digits grouped by thousands: 1234567 is
/// "1,234,567".
pub open spec fn thousands(n: nat) -> Seq<char> {
    with_commas(decimal(n), decimal(n).len())
}

/// `n` in decimal, its digits grouped by thousands with commas.
pub fn format_number(n: u64) -> (r: String)
    ensures
        r@ == thousands(n as nat),
{
    let s = u64_to_decimal(n);
    let digits = chars_of(s.as_str());
    let len = digits.len();
    let mut out: Vec<char> = Vec::new();
    let mut p: usize = 0;
    while p < len
        invariant
            len == digits@.len(),
            digits@ == decimal(n as nat),
            p <= len,
            out@ == with_commas(digits@, p as nat),
        decreases len - p,
    {
        if p > 0 && (len - p) % 3 == 0 {
            out.push(',');
        }
        out.push(digits[p]);
        proof {
            assert(out@ =~= with_commas(digits@, (p + 1) as nat));
        }
        p += 1;
    }
    string_from_chars(&out)
}

/// Every character of `s` is a decimal digit.
pub open spec fn all_digits(s: Seq<char>) -> bool {
    forall|i: int| 0 <= i < s.len() ==> is_digit(#[trigger] s[i])
}

/// The character of a digit is a digit, and it stands for that digit.
proof fn lemma_digit_char(d: nat)
    requires
        d < 10,
    ensures
        is_digit(digit_char(d)),
        (digit_char(d) as u32) - ('0' as u32) == d,
{
}

/// The decimal notation of `n` is made of digits, has the value `n`, and has
/// `k` digits where 10^(k-1) <= n < 10^k (for n >= 1).
pub proof fn lemma_decimal_value(n: nat)
    ensures
        all_digits(decimal(n)),
        digits_value(decimal(n)) == n,
        decimal(n).len() >= 1,
        n < pow(10, decimal(n).len()),
        n >= 1 ==> pow(10, (decimal(n).len() - 1) as nat) <= n,
    decreases n,
{
    reveal(pow);
    let d = decimal(n);
    if n < 10 {
        lemma_digit_char(n);
        assert(d.drop_last() =~= Seq::<char>::empty());
        assert(digits_value(d.drop_last()) == 0);
        assert(d.last() == digit_char(n));
        assert(digits_value(d) == n);
        assert(pow(10, 1) == 10 * pow(10, 0));
        assert(pow(10, 0) == 1);
    } else {
        let q = n / 10;
        let m = n % 10;
        lemma_fundamental_div_mod(n as int, 10);
        lemma_decimal_value(q);
        lemma_digit_char(m);
        let e = decimal(q);
        assert(d == e.push(digit_char(m)));
        assert(d.drop_last() =~= e);
        assert(d.last() == digit_char(m));
        assert(digits_value(d) == q * 10 + m);
        assert forall|i: int| 0 <= i < d.len() implies is_digit(#[trigger] d[i]) by {
            if i < e.len() {
                assert(d[i] == e[i]);
            }
        }
        let k = e.len();
        assert(pow(10, k + 1) == 10 * pow(10, k));
        assert(d.len() == k + 1);
        if q >= 1 {
            assert(pow(10, (k - 1) as nat) <= q);
            if k >= 1 {
                assert(pow(10, k) == 10 * pow(10, (k - 1) as nat));
            }
        } else {
            assert(false);
        }
    }
}

/// Cutting a string of digits after `k` characters splits its value: the
/// value is that of the first part times 10^(rest's length) plus that of
/// the rest, which is below 10^(rest's length).
pub proof fn lemma_digits_split(s: Seq<char>, k: int)
    requires
        all_digits(s),
        0 <= k <= s.len(),
    ensures
        digits_value(s) == digits_value(s.take(k)) * pow(10, (s.len() - k) as nat) + digits_value(s.skip(k)),
        digits_value(s.skip(k)) < pow(10, (s.len() - k) as nat),
    decreases s.len(),
{
    reveal(pow);
    if k == s.len() {
        assert(s.take(k) =~= s);
        assert(s.skip(k) =~= Seq::<char>::empty());
        assert(pow(10, 0) == 1);
    } else {
        let t = s.drop_last();
        assert forall|i: int| 0 <= i < t.len() implies is_digit(#[trigger] t[i]) by {
            assert(t[i] == s[i]);
        }
        lemma_digits_split(t, k);
        assert(s.take(k) =~= t.take(k));
        assert(s.skip(k).drop_last() =~= t.skip(k));
        assert(s.skip(k).last() == s.last());
        assert(is_digit(s[s.len() - 1]));
        let c = ((s.last() as u32) - ('0' as u32)) as int;
        assert(0 <= c < 10);
        let p = pow(10, (t.len() - k) as nat);
        assert(pow(10, (s.len() - k) as nat) == 10 * p);
        let a = digits_value(t.take(k)) as int;
        let b = digits_value(t.skip(k)) as int;
        assert(digits_value(s.skip(k)) == b * 10 + c);
        assert(digits_value(s) == digits_value(t) * 10 + c);
        assert(digits_value(t) == a * p + b);
        assert((a * p + b) * 10 + c == a * (10 * p) + (b * 10 + c)) by (nonlinear_arith);
        assert(b * 10 + c < 10 * p) by (nonlinear_arith)
            requires b < p, 0 <= c < 10;
    }
}

/// The result as printed: the full decimal number, or, when not verbose
/// and longer than 100 digits, its first and last 50 digits and its digit
/// count.
pub open spec fn result_text(d: Seq<char>, verbose: bool) -> Seq<char> {
    if !verbose && d.len() > 100 {
        d.take(50) + "..."@ + d.skip(d.len() - 50) + " ("@ + decimal(d.len()) + " digits)"@
    } else {
        d
    }
}

/// `text` is the number `v` written out: digits only, of value `v`, with no
/// leading zero (k digits with 10^(k-1) <= v < 10^k, or "0").
pub open spec fn shows_whole(text: Seq<char>, v: nat) -> bool {
    &&& text.len() >= 1
    &&& all_digits(text)
    &&& digits_value(text) == v
    &&& v < pow(10, text.len())
    &&& v >= 1 ==> pow(10, (text.len() - 1) as nat) <= v
}

/// `text` shows the number `v` of `n` digits (10^(n-1) <= v < 10^n) by its
/// ends: 50 digits of value v / 10^(n-50) (its first 50 digits), "...", 50
/// digits of value v mod 10^50 (its last 50 digits), then " (", `n` in
/// decimal and " digits)".
pub open spec fn shows_ends(text: Seq<char>, v: nat) -> bool {
    let n = decimal(v).len();
    &&& pow(10, (n - 1) as nat) <= v < pow(10, n)
    &&& text.len() == 113 + decimal(n).len()
    &&& all_digits(text.take(50))
    &&& digits_value(text.take(50)) == v / (pow(10, (n - 50) as nat) as nat)
    &&& text.subrange(50, 53) == "..."@
    &&& all_digits(text.subrange(53, 103))
    &&& digits_value(text.subrange(53, 103)) == v % (pow(10, 50) as nat)
    &&& text.skip(103) == " ("@ + decimal(n) + " digits)"@
}

/// A number of at most 100 digits, or any number when verbose, is printed
/// whole.
pub proof fn lemma_result_text_whole(v: nat, verbose: bool)
    requires
        verbose || decimal(v).len() <= 100,
    ensures
        shows_whole(result_text(decimal(v), verbose), v),
{
    lemma_decimal_value(v);
}

/// A number of more than 100 digits, not verbose, is printed by its first
/// and last 50 digits and its digit count.
pub proof fn lemma_result_text_ends(v: nat)
    requires
        decimal(v).len() > 100,
    ensures
        shows_ends(result_text(decimal(v), false), v),
{
    let d = decimal(v);
    let n = d.len();
    lemma_decimal_value(v);
    if v < 10 {
        reveal_with_fuel(decimal, 2);
        assert(false);
    }
    let text = result_text(d, false);
    reveal_strlit("...");
    reveal_strlit(" (");
    reveal_strlit(" digits)");
    assert(text.take(50) =~= d.take(50));
    assert(text.subrange(50, 53) =~= "..."@);
    assert(text.subrange(53, 103) =~= d.skip(n - 50));
    assert(text.skip(103) =~= " ("@ + decimal(n) + " digits)"@);
    assert forall|i: int| 0 <= i < 50 implies is_digit(#[trigger] d.take(50)[i]) by {
        assert(d.take(50)[i] == d[i]);
    }
    assert forall|i: int| 0 <= i < 50 implies is_digit(#[trigger] d.skip(n - 50)[i]) by {
        assert(d.skip(n - 50)[i] == d[n - 50 + i]);
    }
    lemma_digits_split(d, 50);
    lemma_digits_split(d, n - 50);
    lemma_pow_positive(10, (n - 50) as nat);
    lemma_pow_positive(10, 50);
    lemma_fundamental_div_mod_converse(v as int, pow(10, (n - 50) as nat),
        digits_value(d.take(50)) as int, digits_value(d.skip(50)) as int);
    lemma_fundamental_div_mod_converse(v as int, pow(10, 50),
        digits_value(d.take(n - 50)) as int, digits_value(d.skip(n - 50)) as int);
}

/// The result as printed (see `result_text`): the number whole, or by its
/// ends when it has more than 100 digits and `verbose` is off.
pub fn format_result(value: &BigUint, verbose: bool) -> (r: String)
    ensures
        r@ == result_text(decimal(big_val(*value)), verbose),
        verbose || decimal(big_val(*value)).len() <= 100 ==> shows_whole(r@, big_val(*value)),
        !verbose && decimal(big_val(*value)).len() > 100 ==> shows_ends(r@, big_val(*value)),
{
    proof {
        if verbose || decimal(big_val(*value)).len() <= 100 {
            lemma_result_text_whole(big_val(*value), verbose);
        } else {
            lemma_result_text_ends(big_val(*value));
        }
    }
    let s = big_to_decimal(value);
    let d = chars_of(s.as_str());
    let len = d.len();
    if !verbose && len > 100 {
        let mut head: Vec<char> = Vec::new();
        let mut i: usize = 0;
        while i < 50
            invariant
                i <= 50,
                len == d@.len(),
                len > 100,
                head@ == d@.take(i as int),
            decreases 50 - i,
        {
            head.push(d[i]);
            proof {
                assert(head@ =~= d@.take(i + 1));
            }
            i += 1;
        }
        let mut tail: Vec<char> = Vec::new();
        let mut j: usize = len - 50;
        while j < len
            invariant
                len - 50 <= j <= len,
                len > 100,
                len == d@.len(),
                tail@ == d@.subrange(len - 50, j as int),
            decreases len - j,
        {
            tail.push(d[j]);
            proof {
                assert(tail@ =~= d@.subrange(len - 50, j + 1));
            }
            j += 1;
        }
        let mut out = string_from_chars(&head);
        out.append("...");
        let t = string_from_chars(&tail);
        out.append(t.as_str());
        out.append(" (");
        let count = usize_to_decimal(len);
        out.append(count.as_str());
        out.append(" digits)");
        proof {
            assert(d@.subrange(len - 50, len as int) =~= d@.skip(len - 50));
        }
        out
    } else {
        s
    }
}

} // verus!
