use crate::error::RespError;
use vstd::prelude::*;
use vstd::string::StringExecFns;

verus! {

/// The byte `+`.
pub const PLUS: u8 = 43;

/// The byte `-`.
pub const MINUS: u8 = 45;

/// The byte `0`; the other digits follow it.
pub const ZERO: u8 = 48;

/// Whether `byte` is one of `0` to `9`.
pub open spec fn is_digit(byte: u8) -> bool {
    ZERO <= byte <= ZERO + 9
}

/// Whether every byte of `text` is a digit.
pub open spec fn all_digits(text: Seq<u8>) -> bool {
    forall|i: int| 0 <= i < text.len() ==> is_digit(#[trigger] text[i])
}

/// The number that a run of digits spells in base 10; the empty run spells 0.
pub open spec fn digits_value(digits: Seq<u8>) -> nat
    decreases digits.len(),
{
    if digits.len() == 0 {
        0
    } else {
        10 * digits_value(digits.drop_last()) + (digits.last() - ZERO) as nat
    }
}

/// Whether `line` starts with a sign.
pub open spec fn has_sign(line: Seq<u8>) -> bool {
    line.len() > 0 && (line[0] == PLUS || line[0] == MINUS)
}

/// The digits of `line`: all of it but a leading sign.
pub open spec fn digits_of(line: Seq<u8>) -> Seq<u8> {
    if has_sign(line) {
        line.skip(1)
    } else {
        line
    }
}

/// The integer that `line` spells, where it spells one: an optional sign,
/// then one digit or more and nothing else, with a value that a signed
/// 64-bit integer holds.
pub open spec fn spec_parse_integer(line: Seq<u8>) -> Option<int> {
    let digits = digits_of(line);
    let value = if line.len() > 0 && line[0] == MINUS {
        -(digits_value(digits) as int)
    } else {
        digits_value(digits) as int
    };
    if digits.len() > 0 && all_digits(digits) && i64::MIN <= value <= i64::MAX {
        Some(value)
    } else {
        None
    }
}

/// A run of digits spells at least what any of its prefixes spells.
pub proof fn lemma_digits_value_prefix(digits: Seq<u8>, k: int)
    requires
        0 <= k <= digits.len(),
        all_digits(digits),
    ensures
        digits_value(digits.subrange(0, k)) <= digits_value(digits),
    decreases digits.len(),
{
    if k == digits.len() {
        assert(digits.subrange(0, k) =~= digits);
    } else {
        lemma_digits_value_prefix(digits.drop_last(), k);
        assert(digits.drop_last().subrange(0, k) =~= digits.subrange(0, k));
    }
}

/// Reads a base-10 signed 64-bit integer from a whole line.
pub fn parse_integer(bytes: &[u8]) -> (parsed: Result<i64, RespError>)
    ensures
        match parsed {
            Ok(value) => spec_parse_integer(bytes@) == Some(value as int),
            Err(error) => error == RespError::InvalidInteger && spec_parse_integer(bytes@) is None,
        },
{
    let n = bytes.len();
    if n == 0 {
        return Err(RespError::InvalidInteger);
    }
    let negative = bytes[0] == MINUS;
    let start: usize = if negative || bytes[0] == PLUS {
        1
    } else {
        0
    };
    if start == n {
        return Err(RespError::InvalidInteger);
    }
    let ghost digits = digits_of(bytes@);
    assert(digits =~= bytes@.subrange(start as int, n as int));
    let limit: u64 = if negative {
        9223372036854775808
    } else {
        9223372036854775807
    };
    let mut magnitude: u64 = 0;
    let mut i: usize = start;
    while i < n
        invariant
            start <= i <= n,
            n == bytes@.len(),
            digits == bytes@.subrange(start as int, n as int),
            digits == digits_of(bytes@),
            all_digits(digits.subrange(0, i - start)),
            magnitude == digits_value(digits.subrange(0, i - start)),
            magnitude <= limit,
            negative == (bytes@[0] == MINUS),
            limit == if negative {
                9223372036854775808u64
            } else {
                9223372036854775807u64
            },
        decreases n - i,
    {
        let byte = bytes[i];
        if byte < ZERO || byte > ZERO + 9 {
            assert(!is_digit(digits[i - start]));
            return Err(RespError::InvalidInteger);
        }
        let digit: u64 = (byte - ZERO) as u64;
        let ghost longer = digits.subrange(0, i - start + 1);
        assert(longer.drop_last() =~= digits.subrange(0, i - start));
        assert(longer.last() == byte);
        assert(digits_value(longer) == 10 * magnitude + digit);
        if magnitude > (limit - digit) / 10 {
            proof {
                if all_digits(digits) {
                    lemma_digits_value_prefix(digits, i - start + 1);
                }
            }
            return Err(RespError::InvalidInteger);
        }
        magnitude = magnitude * 10 + digit;
        i += 1;
    }
    assert(digits.subrange(0, n - start) =~= digits);
    if negative {
        if magnitude == 9223372036854775808 {
            Ok(i64::MIN)
        } else {
            Ok(-(magnitude as i64))
        }
    } else {
        Ok(magnitude as i64)
    }
}

/// The character of the digit `d`.
pub open spec fn digit_char(d: nat) -> char {
    ((ZERO + d) as u8) as char
}

/// The digits of `n` in base 10, most significant first, without leading
/// zeros; 0 is the single digit `0`.
pub open spec fn decimal_digits(n: nat) -> Seq<char>
    decreases n,
{
    if n < 10 {
        seq![digit_char(n)]
    } else {
        decimal_digits(n / 10).push(digit_char(n % 10))
    }
}

/// The text of one digit.
fn digit_text(d: usize) -> (text: &'static str)
    requires
        d < 10,
    ensures
        text@ == seq![digit_char(d as nat)],
{
    let text = if d == 0 {
        "0"
    } else if d == 1 {
        "1"
    } else if d == 2 {
        "2"
    } else if d == 3 {
        "3"
    } else if d == 4 {
        "4"
    } else if d == 5 {
        "5"
    } else if d == 6 {
        "6"
    } else if d == 7 {
        "7"
    } else if d == 8 {
        "8"
    } else {
        "9"
    };
    proof {
        reveal_strlit("0");
        reveal_strlit("1");
        reveal_strlit("2");
        reveal_strlit("3");
        reveal_strlit("4");
        reveal_strlit("5");
        reveal_strlit("6");
        reveal_strlit("7");
        reveal_strlit("8");
        reveal_strlit("9");
        assert(text@ =~= seq![digit_char(d as nat)]);
    }
    text
}

/// Writes `n` in base 10.
pub fn decimal_string(n: usize) -> (text: String)
    ensures
        text@ == decimal_digits(n as nat),
    decreases n,
{
    if n < 10 {
        let text = String::from_str(digit_text(n));
        text
    } else {
        let mut text = decimal_string(n / 10);
        text.append(digit_text(n % 10));
        text
    }
}

} // verus!
