//! Decimal text: the value of a digit string, parsing unsigned numbers,
//! and printing them back.

use vstd::prelude::*;

verus! {

/// Why a numeric field failed to parse.
#[derive(Clone, Copy, Debug, PartialEq, Eq, Structural)]
pub enum ParseError {
    /// The field was empty.
    Empty,
    /// A character was not a decimal digit.
    NonDigit,
    /// The value does not fit the target integer type.
    Overflow,
}

/// Whether `c` is a decimal digit.
pub open spec fn is_digit(c: char) -> bool {
    48 <= c as int <= 57
}

/// The numeric value of the digit `c`.
pub open spec fn digit_val(c: char) -> int {
    c as int - 48
}

/// The digit character for a value in 0..10.
pub open spec fn char_of_digit(d: int) -> char {
    (48 + d) as char
}

/// Whether every character of `s` is a decimal digit.
pub open spec fn all_digits(s: Seq<char>) -> bool {
    forall|i: int| 0 <= i < s.len() ==> is_digit(#[trigger] s[i])
}

/// The number denoted by the digit string `s`, most significant digit first.
pub open spec fn dec_val(s: Seq<char>) -> int
    decreases s.len(),
{
    if s.len() == 0 {
        0
    } else {
        dec_val(s.drop_last()) * 10 + digit_val(s.last())
    }
}

/// The canonical digit string of `n`: no leading zero, except for `n == 0`
/// itself which prints as a single zero.
pub open spec fn dec_seq(n: nat) -> Seq<char>
    decreases n,
{
    if n < 10 {
        seq![char_of_digit(n as int)]
    } else {
        dec_seq((n / 10) as nat).push(char_of_digit((n % 10) as int))
    }
}

/// A digit string denotes a value of at least zero.
pub proof fn lemma_dec_val_nonneg(s: Seq<char>)
    requires
        all_digits(s),
    ensures
        dec_val(s) >= 0,
    decreases s.len(),
{
    if s.len() > 0 {
        assert(all_digits(s.drop_last()));
        lemma_dec_val_nonneg(s.drop_last());
    }
}

/// Extending a digit string never shrinks its value.
proof fn lemma_dec_val_prefix_le(s: Seq<char>, i: int, j: int)
    requires
        all_digits(s),
        0 <= i <= j <= s.len(),
    ensures
        dec_val(s.take(i)) <= dec_val(s.take(j)),
    decreases j - i,
{
    if i < j {
        lemma_dec_val_prefix_le(s, i, j - 1);
        let p = s.take(j - 1);
        let q = s.take(j);
        assert(q.drop_last() =~= p);
        assert(all_digits(p));
        lemma_dec_val_nonneg(p);
        assert(dec_val(q) == dec_val(p) * 10 + digit_val(q.last()));
    }
}

/// Printing round-trips with parsing: the canonical digit string of `n`
/// holds digits only and denotes `n` again, so parsing what `to_decimal`
/// printed gives the number back.
pub proof fn lemma_dec_seq_val(n: nat)
    ensures
        all_digits(dec_seq(n)),
        dec_val(dec_seq(n)) == n,
        dec_seq(n).len() >= 1,
    decreases n,
{
    if n < 10 {
        assert(dec_seq(n) =~= seq![char_of_digit(n as int)]);
        assert(dec_val(dec_seq(n).drop_last()) == 0);
    } else {
        lemma_dec_seq_val((n / 10) as nat);
        assert(dec_seq(n).drop_last() =~= dec_seq((n / 10) as nat));
    }
}

/// The one-character string of the digit `d`.
fn digit_str(d: u8) -> (r: &'static str)
    requires
        d < 10,
    ensures
        r@ =~= seq![char_of_digit(d as int)],
{
    proof {
        reveal_strlit("0");
        reveal_strlit("1");
        reveal_strlit("2");
        reveal_strlit("3");
        reveal_strlit("4");
        reveal_strlit("5");
        reveal_strlit("6");
        reveal_strlit("7");
        reveal_strlit("8");
        reveal_strlit("9");
    }
    match d {
        0 => "0",
        1 => "1",
        2 => "2",
        3 => "3",
        4 => "4",
        5 => "5",
        6 => "6",
        7 => "7",
        8 => "8",
        _ => "9",
    }
}

/// Print `n` in decimal.
pub fn to_decimal(n: u64) -> (r: String)
    ensures
        r@ == dec_seq(n as nat),
    decreases n,
{
    if n < 10 {
        let r = String::from_str(digit_str(n as u8));
        assert(r@ =~= dec_seq(n as nat));
        r
    } else {
        let mut r = to_decimal(n / 10);
        r.append(digit_str((n % 10) as u8));
        assert(r@ =~= dec_seq(n as nat));
        r
    }
}

/// Print `n` in decimal, padded with a leading zero below ten.
pub open spec fn pad2_seq(n: nat) -> Seq<char> {
    if n < 10 {
        seq!['0', char_of_digit(n as int)]
    } else {
        dec_seq(n)
    }
}

/// Print `n` in decimal with at least two digits.
pub fn pad2(n: u64) -> (r: String)
    ensures
        r@ == pad2_seq(n as nat),
{
    if n < 10 {
        let mut r = String::from_str("0");
        r.append(digit_str(n as u8));
        proof {
            reveal_strlit("0");
        }
        assert(r@ =~= pad2_seq(n as nat));
        r
    } else {
        to_decimal(n)
    }
}

/// Print `n` in decimal, padded with leading zeros below one hundred.
pub open spec fn pad3_seq(n: nat) -> Seq<char> {
    if n < 10 {
        seq!['0', '0', char_of_digit(n as int)]
    } else if n < 100 {
        seq!['0'] + dec_seq(n)
    } else {
        dec_seq(n)
    }
}

/// Print `n` in decimal with at least three digits.
pub fn pad3(n: u64) -> (r: String)
    ensures
        r@ == pad3_seq(n as nat),
{
    if n < 10 {
        let mut r = String::from_str("00");
        r.append(digit_str(n as u8));
        proof {
            reveal_strlit("00");
        }
        assert(r@ =~= pad3_seq(n as nat));
        r
    } else if n < 100 {
        let mut r = String::from_str("0");
        r.append(to_decimal(n).as_str());
        proof {
            reveal_strlit("0");
        }
        assert(r@ =~= pad3_seq(n as nat));
        r
    } else {
        to_decimal(n)
    }
}

/// Parse a string of decimal digits as a `u64`.
///
/// Succeeds exactly on non-empty, all-digit strings whose value fits.
pub fn parse_u64(s: &str) -> (r: Result<u64, ParseError>)
    ensures
        match r {
            Ok(n) => s@.len() > 0 && all_digits(s@) && n == dec_val(s@),
            Err(ParseError::Empty) => s@.len() == 0,
            Err(ParseError::NonDigit) => !all_digits(s@),
            Err(ParseError::Overflow) => all_digits(s@) && dec_val(s@) > u64::MAX,
        },
{
    let len = s.unicode_len();
    if len == 0 {
        return Err(ParseError::Empty);
    }
    let mut acc: u64 = 0;
    let mut i: usize = 0;
    while i < len
        invariant
            0 < len == s@.len(),
            0 <= i <= len,
            all_digits(s@.take(i as int)),
            acc == dec_val(s@.take(i as int)),
        decreases len - i,
    {
        let c = s.get_char(i);
        let v: u32 = c as u32;
        if v < 48 || v > 57 {
            assert(!is_digit(s@[i as int]));
            return Err(ParseError::NonDigit);
        }
        let d: u64 = (v - 48) as u64;
        proof {
            assert(s@.take(i + 1).drop_last() =~= s@.take(i as int));
            assert(all_digits(s@.take(i + 1)));
        }
        if acc > (u64::MAX - d) / 10 {
            proof {
                vstd::arithmetic::div_mod::lemma_fundamental_div_mod((u64::MAX - d) as int, 10);
                assert(acc * 10 + d > u64::MAX) by (nonlinear_arith)
                    requires
                        acc > (u64::MAX - d) / 10,
                        (u64::MAX - d) as int == ((u64::MAX - d) / 10) * 10 + (u64::MAX - d) % 10,
                        0 <= (u64::MAX - d) % 10 < 10,
                        d <= 9,
                ;
                assert(dec_val(s@.take(i + 1)) > u64::MAX);
            }
            if all_digits_check(s, i + 1) {
                proof {
                    lemma_dec_val_prefix_le(s@, i + 1, s@.len() as int);
                    assert(s@.take(s@.len() as int) =~= s@);
                }
                return Err(ParseError::Overflow);
            } else {
                return Err(ParseError::NonDigit);
            }
        }
        acc = acc * 10 + d;
        i = i + 1;
    }
    proof {
        assert(s@.take(len as int) =~= s@);
    }
    Ok(acc)
}

/// Whether every character of `s` from position `from` on is a digit.
fn all_digits_check(s: &str, from: usize) -> (r: bool)
    requires
        from <= s@.len(),
        all_digits(s@.take(from as int)),
    ensures
        r == all_digits(s@),
{
    let len = s.unicode_len();
    let mut i: usize = from;
    while i < len
        invariant
            from <= i <= len == s@.len(),
            all_digits(s@.take(i as int)),
        decreases len - i,
    {
        let c = s.get_char(i);
        let v: u32 = c as u32;
        if v < 48 || v > 57 {
            assert(!is_digit(s@[i as int]));
            return false;
        }
        proof {
            assert(s@.take(i + 1).drop_last() =~= s@.take(i as int));
        }
        i = i + 1;
    }
    proof {
        assert(s@.take(len as int) =~= s@);
    }
    true
}

/// Parse a string of decimal digits as a `u32`.
pub fn parse_u32(s: &str) -> (r: Result<u32, ParseError>)
    ensures
        match r {
            Ok(n) => s@.len() > 0 && all_digits(s@) && n == dec_val(s@),
            Err(ParseError::Empty) => s@.len() == 0,
            Err(ParseError::NonDigit) => !all_digits(s@),
            Err(ParseError::Overflow) => all_digits(s@) && dec_val(s@) > u32::MAX,
        },
{
    match parse_u64(s) {
        Ok(n) => {
            if n > u32::MAX as u64 {
                Err(ParseError::Overflow)
            } else {
                Ok(n as u32)
            }
        },
        Err(e) => Err(e),
    }
}

} // verus!
