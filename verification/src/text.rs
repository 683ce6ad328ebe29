//! Numbers as text: writing them in decimal, reading them back, and keeping the numeric part
//! of what was typed.

use vstd::prelude::*;
use vstd::string::{StrSliceExecFns, StringExecFns};

verus! {

/// The character that writes the digit `d`.
pub open spec fn digit_char(d: int) -> char {
    if d == 0 {
        '0'
    } else if d == 1 {
        '1'
    } else if d == 2 {
        '2'
    } else if d == 3 {
        '3'
    } else if d == 4 {
        '4'
    } else if d == 5 {
        '5'
    } else if d == 6 {
        '6'
    } else if d == 7 {
        '7'
    } else if d == 8 {
        '8'
    } else {
        '9'
    }
}

/// The digit that `c` writes; 9 for a character that writes none.
pub open spec fn digit_value(c: char) -> int {
    if c == '0' {
        0
    } else if c == '1' {
        1
    } else if c == '2' {
        2
    } else if c == '3' {
        3
    } else if c == '4' {
        4
    } else if c == '5' {
        5
    } else if c == '6' {
        6
    } else if c == '7' {
        7
    } else if c == '8' {
        8
    } else {
        9
    }
}

/// `n` written in decimal, without leading zeros.
pub open spec fn decimal(n: nat) -> Seq<char>
    decreases n,
{
    if n < 10 {
        seq![digit_char(n as int)]
    } else {
        decimal(n / 10).push(digit_char((n % 10) as int))
    }
}

/// The number that a sequence of digits writes in decimal.
pub open spec fn decimal_value(digits: Seq<char>) -> nat
    decreases digits.len(),
{
    if digits.len() == 0 {
        0
    } else {
        (decimal_value(digits.drop_last()) * 10 + digit_value(digits.last())) as nat
    }
}

/// Reading back what `decimal` wrote gives the number written.
pub proof fn lemma_decimal_round_trip(n: nat)
    ensures
        decimal_value(decimal(n)) == n,
        decimal(n).len() > 0,
    decreases n,
{
    if n < 10 {
        let s = decimal(n);
        assert(decimal_value(s.drop_last()) == 0);
    } else {
        lemma_decimal_round_trip(n / 10);
        let s = decimal(n);
        assert(s.drop_last() =~= decimal(n / 10));
    }
}

/// The text that writes one digit.
fn digit_str(d: usize) -> (text: &'static str)
    requires
        d < 10,
    ensures
        text@ == seq![digit_char(d as int)],
{
    proof {
        reveal_strlit("0");
        reveal_strlit("1");
        reveal_strlit("2");
        reveal_strlit("3");
        reveal_strlit("4");
        reveal_strlit("5");
        reveal_strlit("6");
        reveal_strlit("7");
        reveal_strlit("8");
        reveal_strlit("9");
    }
    let text = if d == 0 {
        "0"
    } else if d == 1 {
        "1"
    } else if d == 2 {
        "2"
    } else if d == 3 {
        "3"
    } else if d == 4 {
        "4"
    } else if d == 5 {
        "5"
    } else if d == 6 {
        "6"
    } else if d == 7 {
        "7"
    } else if d == 8 {
        "8"
    } else {
        "9"
    };
    text
}

/// Writes `n` in decimal.
pub fn decimal_string(n: usize) -> (text: String)
    ensures
        text@ == decimal(n as nat),
    decreases n,
{
    if n < 10 {
        String::from_str(digit_str(n))
    } else {
        let text = decimal_string(n / 10).concat(digit_str(n % 10));
        text
    }
}

/// `c` is one of the digits `0` to `9`.
pub open spec fn is_digit(c: char) -> bool {
    '0' <= c <= '9'
}

/// Why a text is not a number that fits in 32 bits.
#[derive(Clone, Copy, Debug, PartialEq, Eq, Structural)]
pub enum NumberError {
    /// The text is empty.
    Empty,
    /// The text holds something else than digits after an optional `+`, or no digit at all.
    InvalidDigit,
    /// The number is larger than `u32::MAX`.
    TooLarge,
}

impl NumberError {
    /// The text shown to the user for this error.
    pub open spec fn message_text(self) -> Seq<char> {
        match self {
            NumberError::Empty => "cannot parse integer from empty string"@,
            NumberError::InvalidDigit => "invalid digit found in string"@,
            NumberError::TooLarge => "number too large to fit in target type"@,
        }
    }

    /// The text shown to the user for this error.
    pub fn message(&self) -> (text: &'static str)
        ensures
            text@ == self.message_text(),
    {
        match self {
            NumberError::Empty => "cannot parse integer from empty string",
            NumberError::InvalidDigit => "invalid digit found in string",
            NumberError::TooLarge => "number too large to fit in target type",
        }
    }
}

/// The digits of a number text: the text without a leading `+`.
pub open spec fn digits_of(text: Seq<char>) -> Seq<char> {
    if text.len() > 0 && text[0] == '+' {
        text.drop_first()
    } else {
        text
    }
}

/// Every character of `text` is a digit.
pub open spec fn all_digits(text: Seq<char>) -> bool {
    forall|i: int| 0 <= i < text.len() ==> is_digit(#[trigger] text[i])
}

/// The number that `text` writes: decimal digits, with an optional `+` in front.
pub open spec fn parsed_u32(text: Seq<char>) -> Result<u32, NumberError> {
    let digits = digits_of(text);
    if text.len() == 0 {
        Err(NumberError::Empty)
    } else if digits.len() == 0 || !all_digits(digits) {
        Err(NumberError::InvalidDigit)
    } else if decimal_value(digits) > u32::MAX {
        Err(NumberError::TooLarge)
    } else {
        Ok(decimal_value(digits) as u32)
    }
}

/// Appending a digit multiplies the number written by ten and adds the digit.
pub proof fn lemma_decimal_value_step(digits: Seq<char>, c: char)
    ensures
        decimal_value(digits.push(c)) == decimal_value(digits) * 10 + digit_value(c),
        0 <= digit_value(c) <= 9,
{
    assert(digits.push(c).drop_last() =~= digits);
}

/// Reads the number that `text` writes.
pub fn parse_u32(text: &str) -> (number: Result<u32, NumberError>)
    ensures
        number == parsed_u32(text@),
{
    let len = text.unicode_len();
    if len == 0 {
        return Err(NumberError::Empty);
    }
    let start: usize = if text.get_char(0) == '+' { 1 } else { 0 };
    let ghost digits = digits_of(text@);
    if start == len {
        return Err(NumberError::InvalidDigit);
    }
    let mut value: u64 = 0;
    let mut too_large = false;
    let mut i: usize = start;
    while i < len
        invariant
            start <= i <= len,
            len == text@.len(),
            digits == text@.subrange(start as int, len as int),
            digits == digits_of(text@),
            forall|q: int| 0 <= q < i - start ==> is_digit(#[trigger] digits[q]),
            !too_large ==> value == decimal_value(digits.take(i - start)) && value <= u32::MAX,
            too_large ==> decimal_value(digits.take(i - start)) > u32::MAX,
        decreases len - i,
    {
        let c = text.get_char(i);
        if !('0' <= c && c <= '9') {
            assert(!is_digit(digits[i - start]));
            return Err(NumberError::InvalidDigit);
        }
        proof {
            lemma_decimal_value_step(digits.take(i - start), c);
            assert(digits.take(i - start).push(c) =~= digits.take(i - start + 1));
        }
        if !too_large {
            value = value * 10 + (c as u64 - '0' as u64);
            if value > u32::MAX as u64 {
                too_large = true;
            }
        }
        i = i + 1;
    }
    assert(digits.take(len - start) =~= digits);
    if too_large {
        Err(NumberError::TooLarge)
    } else {
        Ok(value as u32)
    }
}

/// Whether `c` is a numeric character.
///
/// This is what `char::is_numeric` returns for `c`: whether Unicode puts it into one of its
/// general categories for numbers.
pub uninterp spec fn is_numeric_char(c: char) -> bool;

/// Tells whether `c` is a numeric character.
///
/// Calls `char::is_numeric`, and names what it returns.
#[verifier::external_body]
fn char_is_numeric(c: char) -> (numeric: bool)
    ensures
        numeric == is_numeric_char(c),
{
    c.is_numeric()
}

/// The numeric characters of `text`, in their order.
pub open spec fn numeric_part(text: Seq<char>) -> Seq<char>
    decreases text.len(),
{
    if text.len() == 0 {
        text
    } else if is_numeric_char(text.last()) {
        numeric_part(text.drop_last()).push(text.last())
    } else {
        numeric_part(text.drop_last())
    }
}

/// Keeps the numeric characters of `text`.
pub fn keep_numeric(text: &str) -> (kept: String)
    ensures
        kept@ == numeric_part(text@),
{
    let len = text.unicode_len();
    let mut kept = String::new();
    let mut i: usize = 0;
    while i < len
        invariant
            i <= len,
            len == text@.len(),
            kept@ == numeric_part(text@.take(i as int)),
        decreases len - i,
    {
        let c = text.get_char(i);
        proof {
            assert(text@.take(i + 1).drop_last() =~= text@.take(i as int));
        }
        if char_is_numeric(c) {
            let one = text.substring_char(i, i + 1);
            kept.append(one);
        }
        i = i + 1;
    }
    assert(text@.take(len as int) =~= text@);
    kept
}

/// What a number field shows once `typed` was entered: the numeric characters of `typed` where
/// they write a number that fits in 32 bits, and nothing otherwise.
pub open spec fn sanitized(typed: Seq<char>) -> Seq<char> {
    if parsed_u32(numeric_part(typed)) is Ok {
        numeric_part(typed)
    } else {
        Seq::empty()
    }
}

/// Cleans up what was typed into a number field.
pub fn sanitize_number(typed: &str) -> (shown: String)
    ensures
        shown@ == sanitized(typed@),
{
    let kept = keep_numeric(typed);
    match parse_u32(kept.as_str()) {
        Ok(_) => kept,
        Err(_) => String::new(),
    }
}

} // verus!
