//! Decimal numerals for unsigned 64-bit values.
//!
//! The text and CSV codecs write every numeric field as a decimal numeral and
//! read it back; this module holds the numeral grammar, the conversions in
//! both directions, and the round-trip laws the codecs build on.

use vstd::prelude::*;

verus! {

broadcast use vstd::utf8::char_u32_cast;

/// The character standing for the decimal digit value `d`.
pub open spec fn digit_char(d: int) -> char
    recommends
        0 <= d < 10,
{
    ((48 + d) as u8) as char
}

/// The value of the decimal digit character `c`.
pub open spec fn digit_val(c: char) -> int {
    c as u32 - 48
}

/// Holds when `c` is one of the characters `0` through `9`.
pub open spec fn is_digit_char(c: char) -> bool {
    48 <= c as u32 <= 57
}

/// Holds when every character of `s` is a decimal digit.
pub open spec fn all_digits(s: Seq<char>) -> bool {
    forall|i: int| 0 <= i < s.len() ==> is_digit_char(s[i])
}

/// The value of the digit string `s`, most significant digit first.
pub open spec fn numeral_val(s: Seq<char>) -> int
    decreases s.len(),
{
    if s.len() == 0 {
        0
    } else {
        numeral_val(s.drop_last()) * 10 + digit_val(s.last())
    }
}

/// Holds when `s` is a canonical decimal numeral: nonempty, all digits, and
/// without a leading zero unless it is the single digit `0`.
pub open spec fn is_numeral(s: Seq<char>) -> bool {
    s.len() > 0 && all_digits(s) && (s.len() == 1 || s[0] != digit_char(0))
}

/// What parsing an unsigned 64-bit field from the digit string `s` yields:
/// the numeral's value when `s` is a canonical numeral that fits, nothing
/// otherwise.
pub open spec fn spec_parse_u64(s: Seq<char>) -> Option<u64> {
    if is_numeral(s) && numeral_val(s) <= u64::MAX {
        Some(numeral_val(s) as u64)
    } else {
        None
    }
}

/// The decimal digits of `n`, most significant first.
pub open spec fn spec_u64_digits(n: nat) -> Seq<char>
    decreases n,
{
    if n < 10 {
        seq![digit_char(n as int)]
    } else {
        spec_u64_digits(n / 10).push(digit_char((n % 10) as int))
    }
}

/// A canonical numeral's value never shrinks when more digits follow: once a
/// prefix already exceeds some bound, the whole digit string does too.
proof fn lemma_numeral_val_grows(s: Seq<char>, k: int)
    requires
        0 <= k <= s.len(),
        all_digits(s),
    ensures
        numeral_val(s) >= numeral_val(s.take(k)),
        numeral_val(s.take(k)) >= 0,
    decreases s.len() - k,
{
    if k == s.len() {
        assert(s.take(k) =~= s);
        lemma_numeral_val_nonneg(s);
    } else {
        lemma_numeral_val_grows(s, k + 1);
        assert(s.take(k + 1).drop_last() =~= s.take(k));
        assert(s.take(k + 1).last() == s[k]);
        lemma_numeral_val_nonneg(s.take(k));
        assert(numeral_val(s.take(k + 1)) == numeral_val(s.take(k)) * 10 + digit_val(s[k]));
        assert(numeral_val(s.take(k)) * 10 >= numeral_val(s.take(k))) by (nonlinear_arith)
            requires
                numeral_val(s.take(k)) >= 0,
        ;
    }
}

/// A digit string's value is never negative.
proof fn lemma_numeral_val_nonneg(s: Seq<char>)
    requires
        all_digits(s),
    ensures
        numeral_val(s) >= 0,
    decreases s.len(),
{
    if s.len() > 0 {
        assert(all_digits(s.drop_last()));
        lemma_numeral_val_nonneg(s.drop_last());
        assert(numeral_val(s.drop_last()) * 10 >= 0) by (nonlinear_arith)
            requires
                numeral_val(s.drop_last()) >= 0,
        ;
    }
}

/// The digit string of `n` is a canonical numeral whose value is `n`, made of
/// digit characters throughout.
pub proof fn lemma_u64_digits_correct(n: nat)
    ensures
        is_numeral(spec_u64_digits(n)),
        numeral_val(spec_u64_digits(n)) == n,
        all_digits(spec_u64_digits(n)),
        spec_u64_digits(n).len() >= 1,
        n >= 1 ==> spec_u64_digits(n)[0] != digit_char(0),
    decreases n,
{
    if n < 10 {
        reveal_with_fuel(numeral_val, 2);
        let s = spec_u64_digits(n);
        assert(s == seq![digit_char(n as int)]);
        assert(s.drop_last() =~= Seq::<char>::empty());
        assert(numeral_val(s) == digit_val(digit_char(n as int)));
    } else {
        lemma_u64_digits_correct(n / 10);
        let p = spec_u64_digits(n / 10);
        let s = spec_u64_digits(n);
        assert(s == p.push(digit_char((n % 10) as int)));
        assert(s.drop_last() =~= p);
        assert(s.last() == digit_char((n % 10) as int));
        assert(numeral_val(s) == (n / 10) * 10 + (n % 10));
        assert((n / 10) * 10 + (n % 10) == n) by (nonlinear_arith);
        assert(n / 10 >= 1);
        assert(s[0] == p[0]);
        assert(forall|i: int|
            0 <= i < s.len() ==> is_digit_char(
                #[trigger] s[i],
            )) by {
            assert(forall|i: int| 0 <= i < p.len() ==> is_digit_char(#[trigger] p[i]));
        }
    }
}

/// Round trip for numerals: parsing the digit string of any unsigned 64-bit
/// value yields that value back.
pub proof fn lemma_parse_u64_digits(n: u64)
    ensures
        spec_parse_u64(spec_u64_digits(n as nat)) == Some(n),
{
    lemma_u64_digits_correct(n as nat);
}

/// Renders the decimal digit value `d` as its character.
fn digit_to_char(d: u64) -> (c: char)
    requires
        d < 10,
    ensures
        c == digit_char(d as int),
{
    ((48 + d) as u8) as char
}

/// Renders `n` as its decimal digit characters, most significant first.
pub fn u64_to_digits(n: u64) -> (v: Vec<char>)
    ensures
        v@ == spec_u64_digits(n as nat),
    decreases n,
{
    if n < 10 {
        let mut v: Vec<char> = Vec::new();
        v.push(digit_to_char(n));
        proof {
            assert(v@ =~= seq![digit_char(n as int)]);
        }
        v
    } else {
        let mut v = u64_to_digits(n / 10);
        v.push(digit_to_char(n % 10));
        v
    }
}

/// Parses an unsigned 64-bit value from the digit string `s`: succeeds
/// exactly on canonical numerals whose value fits.
pub fn parse_u64_chars(s: &Vec<char>) -> (r: Option<u64>)
    ensures
        r == spec_parse_u64(s@),
{
    let n = s.len();
    if n == 0 {
        return None;
    }
    if n > 1 && s[0] as u32 == 48 {
        proof {
            vstd::utf8::char_u32_cast(s@[0], 48u32);
            vstd::utf8::char_u32_cast(digit_char(0), 48u32);
            assert(s@[0] == digit_char(0));
        }
        return None;
    }
    let mut val: u64 = 0;
    let mut i: usize = 0;
    while i < n
        invariant
            0 <= i <= n,
            n == s@.len(),
            all_digits(s@.take(i as int)),
            val == numeral_val(s@.take(i as int)),
        decreases n - i,
    {
        let u = s[i] as u32;
        if u < 48 || u > 57 {
            assert(!is_digit_char(s@[i as int]));
            return None;
        }
        let d = (u - 48) as u64;
        proof {
            assert(s@.take(i as int + 1).drop_last() =~= s@.take(i as int));
            assert(s@.take(i as int + 1).last() == s@[i as int]);
        }
        if val > (u64::MAX - d) / 10 {
            proof {
                assert(numeral_val(s@.take(i as int + 1)) == val * 10 + d);
                assert(val * 10 + d > u64::MAX) by (nonlinear_arith)
                    requires
                        val > (u64::MAX - d) / 10,
                        d < 10,
                ;
                if all_digits(s@) {
                    lemma_numeral_val_grows(s@, i as int + 1);
                }
            }
            return None;
        }
        proof {
            assert(val * 10 + d <= u64::MAX) by (nonlinear_arith)
                requires
                    val <= (u64::MAX - d) / 10,
                    d < 10,
            ;
        }
        val = val * 10 + d;
        i = i + 1;
    }
    proof {
        assert(s@.take(n as int) =~= s@);
    }
    Some(val)
}

} // verus!
