//! Value and address text parsing, and decimal rendering.
//!
//! Scan and write values accept three textual forms: hexadecimal when
//! the text starts with `0x`, a float form when it contains a `.`, and
//! unsigned 32-bit decimal otherwise. Addresses accept `0x`-prefixed
//! hexadecimal or plain decimal. The float form needs floating-point
//! arithmetic, which the verified core does not hold: classification
//! reports it as [`ScanTarget::FloatText`] and the caller converts the
//! text itself.

use vstd::prelude::*;
use vstd::string::*;

use crate::ScanError;

verus! {

/// Whether `c` is a digit of the decimal alphabet or, when `hex`, of
/// the hexadecimal one (both letter cases).
pub open spec fn is_digit(c: char, hex: bool) -> bool {
    ('0' as u32 <= c as u32 && c as u32 <= '9' as u32) || (hex && (('a' as u32 <= c as u32 && c
        as u32 <= 'f' as u32) || ('A' as u32 <= c as u32 && c as u32 <= 'F' as u32)))
}

/// The numeric value of the digit `c`; meaningful only when
/// `is_digit` holds of it.
pub open spec fn digit_val(c: char) -> int {
    if '0' as u32 <= c as u32 && c as u32 <= '9' as u32 {
        c as u32 - '0' as u32
    } else if 'a' as u32 <= c as u32 && c as u32 <= 'f' as u32 {
        c as u32 - 'a' as u32 + 10
    } else if 'A' as u32 <= c as u32 && c as u32 <= 'F' as u32 {
        c as u32 - 'A' as u32 + 10
    } else {
        0
    }
}

pub open spec fn radix_of(hex: bool) -> int {
    if hex {
        16
    } else {
        10
    }
}

/// The value of digit text `s`, most significant digit first.
pub open spec fn digits_val(s: Seq<char>, hex: bool) -> int
    decreases s.len(),
{
    if s.len() == 0 {
        0
    } else {
        digits_val(s.drop_last(), hex) * radix_of(hex) + digit_val(s.last())
    }
}

pub open spec fn all_digits(s: Seq<char>, hex: bool) -> bool {
    forall|i: int| 0 <= i < s.len() ==> is_digit(s[i], hex)
}

/// Digit text accepted as a number no greater than `max`: nonempty,
/// all digits of the alphabet, value within bound.
pub open spec fn number_ok(s: Seq<char>, hex: bool, max: int) -> bool {
    s.len() > 0 && all_digits(s, hex) && digits_val(s, hex) <= max
}

pub proof fn lemma_digits_val_nonneg(s: Seq<char>, hex: bool)
    ensures
        digits_val(s, hex) >= 0,
    decreases s.len(),
{
    if s.len() > 0 {
        lemma_digits_val_nonneg(s.drop_last(), hex);
        if hex {
            assert(digits_val(s, true) == digits_val(s.drop_last(), true) * 16 + digit_val(
                s.last(),
            ));
        } else {
            assert(digits_val(s, false) == digits_val(s.drop_last(), false) * 10 + digit_val(
                s.last(),
            ));
        }
    }
}

/// Appending one digit multiplies the value by the radix and adds the
/// digit.
pub proof fn lemma_digits_val_take_succ(s: Seq<char>, hex: bool, n: int)
    requires
        0 <= n < s.len(),
    ensures
        digits_val(s.take(n + 1), hex) == digits_val(s.take(n), hex) * radix_of(hex) + digit_val(
            s[n],
        ),
{
    assert(s.take(n + 1).drop_last() =~= s.take(n));
    assert(s.take(n + 1).last() == s[n]);
}

/// A prefix of digit text never denotes more than the whole text.
pub proof fn lemma_digits_val_take_le(s: Seq<char>, hex: bool, n: int)
    requires
        0 <= n <= s.len(),
    ensures
        digits_val(s.take(n), hex) <= digits_val(s, hex),
    decreases s.len() - n,
{
    if n == s.len() {
        assert(s.take(n) =~= s);
    } else {
        lemma_digits_val_take_succ(s, hex, n);
        lemma_digits_val_nonneg(s.take(n), hex);
        if hex {
            assert(digits_val(s.take(n), true) * 16 >= digits_val(s.take(n), true));
        } else {
            assert(digits_val(s.take(n), false) * 10 >= digits_val(s.take(n), false));
        }
        lemma_digits_val_take_le(s, hex, n + 1);
    }
}

/// Parses `s` from character position `from` to its end as digit text
/// into a 64-bit value: `None` exactly when the digits are empty, a
/// character is no digit of the alphabet, or the value does not fit.
fn parse_digits_u64(s: &str, from: usize, hex: bool) -> (r: Option<u64>)
    requires
        from as int <= s@.len(),
    ensures
        r is Some <==> number_ok(s@.skip(from as int), hex, u64::MAX as int),
        r is Some ==> r->0 as int == digits_val(s@.skip(from as int), hex),
{
    let ghost sub = s@.skip(from as int);
    let n = s.unicode_len();
    if from >= n {
        return None;
    }
    let mut acc: u64 = 0;
    let mut i: usize = from;
    while i < n
        invariant
            from <= i <= n,
            n == s@.len(),
            from as int <= s@.len(),
            sub == s@.skip(from as int),
            all_digits(sub.take(i as int - from as int), hex),
            acc as int == digits_val(sub.take(i as int - from as int), hex),
        decreases n - i,
    {
        let ghost k = i as int - from as int;
        let c = s.get_char(i);
        proof {
            assert(sub[k] == c);
        }
        let cu = c as u32;
        let d: u32 = if 48 <= cu && cu <= 57 {
            cu - 48
        } else if hex && 97 <= cu && cu <= 102 {
            cu - 87
        } else if hex && 65 <= cu && cu <= 70 {
            cu - 55
        } else {
            proof {
                assert(!is_digit(sub[k], hex));
            }
            return None;
        };
        proof {
            assert(is_digit(sub[k], hex));
            assert(d as int == digit_val(sub[k]));
        }
        let radix: u64 = if hex {
            16
        } else {
            10
        };
        let stepped = match acc.checked_mul(radix) {
            Some(m) => m.checked_add(d as u64),
            None => None,
        };
        match stepped {
            Some(a) => {
                acc = a;
            },
            None => {
                proof {
                    lemma_digits_val_take_succ(sub, hex, k);
                    lemma_digits_val_nonneg(sub.take(k), hex);
                    assert(digits_val(sub.take(k + 1), hex) > u64::MAX as int);
                    lemma_digits_val_take_le(sub, hex, k + 1);
                }
                return None;
            },
        }
        proof {
            lemma_digits_val_take_succ(sub, hex, k);
        }
        i += 1;
    }
    proof {
        assert(sub.take(n as int - from as int) =~= sub);
    }
    Some(acc)
}

/// Parses digit text into an unsigned 32-bit value; `ParseError`
/// exactly when the text is not a number of the alphabet or does not
/// fit 32 bits.
pub fn parse_u32_digits(s: &str, from: usize, hex: bool) -> (r: Result<u32, ScanError>)
    requires
        from as int <= s@.len(),
    ensures
        r is Ok <==> number_ok(s@.skip(from as int), hex, u32::MAX as int),
        r is Ok ==> r->Ok_0 as int == digits_val(s@.skip(from as int), hex),
        r is Err ==> r->Err_0 == ScanError::ParseError,
{
    match parse_digits_u64(s, from, hex) {
        Some(v) => {
            if v <= u32::MAX as u64 {
                Ok(v as u32)
            } else {
                Err(ScanError::ParseError)
            }
        },
        None => Err(ScanError::ParseError),
    }
}

/// Parses digit text into an address-sized value; `ParseError` exactly
/// when the text is not a number of the alphabet or does not fit the
/// platform's pointer width.
pub fn parse_usize_digits(s: &str, from: usize, hex: bool) -> (r: Result<usize, ScanError>)
    requires
        from as int <= s@.len(),
    ensures
        r is Ok <==> number_ok(s@.skip(from as int), hex, usize::MAX as int),
        r is Ok ==> r->Ok_0 as int == digits_val(s@.skip(from as int), hex),
        r is Err ==> r->Err_0 == ScanError::ParseError,
{
    match parse_digits_u64(s, from, hex) {
        Some(v) => {
            if v <= usize::MAX as u64 {
                Ok(v as usize)
            } else {
                Err(ScanError::ParseError)
            }
        },
        None => Err(ScanError::ParseError),
    }
}

/// Value text that selects the hexadecimal form.
pub open spec fn hex_prefixed(s: Seq<char>) -> bool {
    s.len() >= 2 && s[0] == '0' && s[1] == 'x'
}

/// Value text that selects the float form (outside the hexadecimal
/// one): it contains a decimal point.
pub open spec fn has_dot(s: Seq<char>) -> bool {
    exists|i: int| 0 <= i < s.len() && s[i] == '.'
}

/// A parsed scan or write value: either a 32-bit word, or float-form
/// text whose conversion needs floating-point arithmetic and is left
/// to the caller.
#[derive(Clone, Copy, Debug, PartialEq, Eq, Structural)]
pub enum ScanTarget {
    Word(u32),
    FloatText,
}

/// Classifies and parses scan/write value text: `0x`-prefixed text is
/// hexadecimal, text with a `.` is the float form, anything else is
/// unsigned decimal. `ParseError` exactly when the selected integer
/// form does not parse; the float form is classified, not parsed.
pub fn parse_scan_target(value: &str) -> (r: Result<ScanTarget, ScanError>)
    ensures
        hex_prefixed(value@) ==> match r {
            Ok(t) => t matches ScanTarget::Word(v) && number_ok(value@.skip(2), true, u32::MAX as int)
                && v as int == digits_val(value@.skip(2), true),
            Err(e) => e == ScanError::ParseError && !number_ok(value@.skip(2), true, u32::MAX as int),
        },
        !hex_prefixed(value@) && has_dot(value@) ==> r matches Ok(ScanTarget::FloatText),
        !hex_prefixed(value@) && !has_dot(value@) ==> match r {
            Ok(t) => t matches ScanTarget::Word(v) && number_ok(value@, false, u32::MAX as int)
                && v as int == digits_val(value@, false),
            Err(e) => e == ScanError::ParseError && !number_ok(value@, false, u32::MAX as int),
        },
{
    let n = value.unicode_len();
    let is_hex = n >= 2 && value.get_char(0) == '0' && value.get_char(1) == 'x';
    if is_hex {
        match parse_u32_digits(value, 2, true) {
            Ok(v) => Ok(ScanTarget::Word(v)),
            Err(e) => Err(e),
        }
    } else {
        let mut i: usize = 0;
        let mut dotted = false;
        while i < n
            invariant
                0 <= i <= n,
                n == value@.len(),
                !dotted ==> forall|j: int| 0 <= j < i ==> value@[j] != '.',
                dotted ==> has_dot(value@),
            decreases n - i,
        {
            if value.get_char(i) == '.' {
                dotted = true;
            }
            i += 1;
        }
        if dotted {
            Ok(ScanTarget::FloatText)
        } else {
            proof {
                assert(value@.skip(0) =~= value@);
            }
            match parse_u32_digits(value, 0, false) {
                Ok(v) => Ok(ScanTarget::Word(v)),
                Err(e) => Err(e),
            }
        }
    }
}

/// Parses address text: `0x`-prefixed hexadecimal or plain decimal,
/// into a platform-width address. `ParseError` exactly when the
/// selected form does not parse.
pub fn parse_address(text: &str) -> (r: Result<usize, ScanError>)
    ensures
        hex_prefixed(text@) ==> match r {
            Ok(a) => number_ok(text@.skip(2), true, usize::MAX as int) && a as int == digits_val(
                text@.skip(2),
                true,
            ),
            Err(e) => e == ScanError::ParseError && !number_ok(text@.skip(2), true, usize::MAX as int),
        },
        !hex_prefixed(text@) ==> match r {
            Ok(a) => number_ok(text@, false, usize::MAX as int) && a as int == digits_val(
                text@,
                false,
            ),
            Err(e) => e == ScanError::ParseError && !number_ok(text@, false, usize::MAX as int),
        },
{
    let n = text.unicode_len();
    let is_hex = n >= 2 && text.get_char(0) == '0' && text.get_char(1) == 'x';
    if is_hex {
        parse_usize_digits(text, 2, true)
    } else {
        proof {
            assert(text@.skip(0) =~= text@);
        }
        parse_usize_digits(text, 0, false)
    }
}

/// The decimal digit character for `d`.
pub open spec fn dec_digit_char(d: int) -> char {
    if d == 0 {
        '0'
    } else if d == 1 {
        '1'
    } else if d == 2 {
        '2'
    } else if d == 3 {
        '3'
    } else if d == 4 {
        '4'
    } else if d == 5 {
        '5'
    } else if d == 6 {
        '6'
    } else if d == 7 {
        '7'
    } else if d == 8 {
        '8'
    } else {
        '9'
    }
}

/// The decimal text of `n`, most significant digit first; matches
/// found against it render as scan results.
pub open spec fn dec_str(n: int) -> Seq<char>
    decreases n,
{
    if n < 10 {
        seq![dec_digit_char(n)]
    } else {
        dec_str(n / 10) + seq![dec_digit_char(n % 10)]
    }
}

/// Rendering then parsing is the identity: the decimal text of `n` is
/// made of digits and parses back to `n`. A match's value text
/// therefore denotes the matched word faithfully and unambiguously.
pub proof fn lemma_dec_str_round_trip(n: int)
    requires
        0 <= n,
    ensures
        dec_str(n).len() > 0,
        all_digits(dec_str(n), false),
        digits_val(dec_str(n), false) == n,
    decreases n,
{
    if n < 10 {
        assert(dec_str(n) == seq![dec_digit_char(n)]);
        assert(seq![dec_digit_char(n)].drop_last() =~= Seq::<char>::empty());
        assert(digits_val(Seq::<char>::empty(), false) == 0);
        assert(digit_val(dec_digit_char(n)) == n);
        assert(is_digit(dec_digit_char(n), false));
    } else {
        lemma_dec_str_round_trip(n / 10);
        let s = dec_str(n / 10);
        let whole = dec_str(n);
        assert(whole == s + seq![dec_digit_char(n % 10)]);
        assert(whole.drop_last() =~= s);
        assert(whole.last() == dec_digit_char(n % 10));
        assert(digit_val(dec_digit_char(n % 10)) == n % 10);
        assert(digits_val(whole, false) == digits_val(s, false) * 10 + n % 10);
        assert(is_digit(dec_digit_char(n % 10), false));
        assert forall|k: int| 0 <= k < whole.len() implies is_digit(whole[k], false) by {
            if k < s.len() {
                assert(whole[k] == s[k]);
            } else {
                assert(whole[k] == dec_digit_char(n % 10));
            }
        }
    }
}

fn dec_digit_str(d: u32) -> (r: &'static str)
    requires
        d < 10,
    ensures
        r@ =~= seq![dec_digit_char(d as int)],
{
    if d == 0 {
        proof {
            reveal_strlit("0");
        }
        "0"
    } else if d == 1 {
        proof {
            reveal_strlit("1");
        }
        "1"
    } else if d == 2 {
        proof {
            reveal_strlit("2");
        }
        "2"
    } else if d == 3 {
        proof {
            reveal_strlit("3");
        }
        "3"
    } else if d == 4 {
        proof {
            reveal_strlit("4");
        }
        "4"
    } else if d == 5 {
        proof {
            reveal_strlit("5");
        }
        "5"
    } else if d == 6 {
        proof {
            reveal_strlit("6");
        }
        "6"
    } else if d == 7 {
        proof {
            reveal_strlit("7");
        }
        "7"
    } else if d == 8 {
        proof {
            reveal_strlit("8");
        }
        "8"
    } else {
        proof {
            reveal_strlit("9");
        }
        "9"
    }
}

/// Renders `v` in decimal, the form in which an exact match reports
/// the value it found.
pub fn u32_to_decimal(v: u32) -> (r: String)
    ensures
        r@ == dec_str(v as int),
    decreases v,
{
    if v < 10 {
        let r = String::from_str(dec_digit_str(v));
        proof {
            assert(r@ =~= dec_str(v as int));
        }
        r
    } else {
        let mut s = u32_to_decimal(v / 10);
        s.append(dec_digit_str(v % 10));
        proof {
            assert(s@ =~= dec_str(v as int));
        }
        s
    }
}

} // verus!
