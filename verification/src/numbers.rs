//! Integers as decimal text: what a literal denotes, when it is malformed or
//! out of range, how an integer is written, and that reading what was written
//! gives the integer back.
use vstd::prelude::*;
use crate::text::chars_of;

verus! {

/// Why a text is not an integer of the wanted type.
#[derive(Debug, Clone, Copy, PartialEq, Eq, Structural)]
pub enum ConversionError {
    /// The text is empty.
    Empty,
    /// A character that is no decimal digit stands where one is needed.
    InvalidDigit,
    /// The number is above the largest value of the type.
    PosOverflow,
    /// The number is below the smallest value of the type.
    NegOverflow,
}

impl ConversionError {
    /// A sentence for the reader of a log.
    pub fn message(&self) -> (r: String)
        ensures
            r@ == match self {
                ConversionError::Empty => "cannot parse integer from empty string"@,
                ConversionError::InvalidDigit => "invalid digit found in string"@,
                ConversionError::PosOverflow => "number too large to fit in target type"@,
                ConversionError::NegOverflow => "number too small to fit in target type"@,
            },
    {
        match self {
            ConversionError::Empty => "cannot parse integer from empty string".to_owned(),
            ConversionError::InvalidDigit => "invalid digit found in string".to_owned(),
            ConversionError::PosOverflow => "number too large to fit in target type".to_owned(),
            ConversionError::NegOverflow => "number too small to fit in target type".to_owned(),
        }
    }
}

/// Whether `c` is one of `0` to `9`.
pub open spec fn is_digit(c: char) -> bool {
    '0' <= c && c <= '9'
}

/// The number that the digit `c` stands for.
pub open spec fn digit_value(c: char) -> int {
    c as int - '0' as int
}

/// The digit that stands for `d`, for `d` below ten.
pub open spec fn digit_char(d: int) -> char {
    (d + '0' as int) as char
}

/// Whether every character of `s` is a digit.
pub open spec fn all_digits(s: Seq<char>) -> bool {
    forall|i: int| 0 <= i < s.len() ==> is_digit(#[trigger] s[i])
}

/// The number that a run of digits denotes in base ten; the empty run
/// denotes zero.
pub open spec fn digits_value(s: Seq<char>) -> nat
    decreases s.len(),
{
    if s.len() == 0 {
        0
    } else {
        (digits_value(s.drop_last()) * 10 + digit_value(s.last())) as nat
    }
}

/// How many digits `s` starts with.
pub open spec fn leading_digits(s: Seq<char>) -> nat
    decreases s.len(),
{
    if s.len() > 0 && is_digit(s[0]) {
        1 + leading_digits(s.drop_first())
    } else {
        0
    }
}

/// What a text denotes as an integer of a type with the bounds `min` and
/// `max`, which takes a `-` sign only if `signed`.
///
/// The text is an optional sign and then digits only. It is read from the
/// left, and the first thing that is wrong decides the error: a run of digits
/// that has left the type's range is an overflow even where a character that
/// is no digit follows it.
pub open spec fn parse_integer(s: Seq<char>, signed: bool, min: int, max: int) -> Result<
    int,
    ConversionError,
> {
    if s.len() == 0 {
        Err(ConversionError::Empty)
    } else if s.len() == 1 && (s[0] == '+' || s[0] == '-') {
        Err(ConversionError::InvalidDigit)
    } else {
        let negative = signed && s[0] == '-';
        let body = if s[0] == '+' || negative {
            s.drop_first()
        } else {
            s
        };
        let run = body.take(leading_digits(body) as int);
        let magnitude = digits_value(run);
        if negative && -magnitude < min {
            Err(ConversionError::NegOverflow)
        } else if !negative && magnitude > max {
            Err(ConversionError::PosOverflow)
        } else if run.len() < body.len() {
            Err(ConversionError::InvalidDigit)
        } else if negative {
            Ok(-magnitude)
        } else {
            Ok(magnitude as int)
        }
    }
}

/// The digits of `n` in base ten, without leading zeros; `0` for zero.
pub open spec fn decimal_digits(n: nat) -> Seq<char>
    decreases n,
{
    if n < 10 {
        seq![digit_char(n as int)]
    } else {
        decimal_digits(n / 10).push(digit_char((n % 10) as int))
    }
}

/// How the integer `n` is written: its digits, after a `-` if it is
/// negative.
pub open spec fn integer_text(n: int) -> Seq<char> {
    if n < 0 {
        seq!['-'] + decimal_digits((-n) as nat)
    } else {
        decimal_digits(n as nat)
    }
}

/// A run that consists of digits only is its own leading run.
pub proof fn lemma_leading_digits_all(s: Seq<char>)
    requires
        all_digits(s),
    ensures
        leading_digits(s) == s.len(),
    decreases s.len(),
{
    if s.len() > 0 {
        assert(is_digit(s[0]));
        let rest = s.drop_first();
        assert forall|i: int| 0 <= i < rest.len() implies is_digit(#[trigger] rest[i]) by {
            assert(rest[i] == s[i + 1]);
        }
        lemma_leading_digits_all(rest);
    }
}

/// The leading run of `s` ends at `k` if the first `k` characters are digits
/// and the next one, if there is one, is not.
pub proof fn lemma_leading_digits_stop(s: Seq<char>, k: int)
    requires
        0 <= k <= s.len(),
        forall|i: int| 0 <= i < k ==> is_digit(#[trigger] s[i]),
        k < s.len() ==> !is_digit(s[k]),
    ensures
        leading_digits(s) == k,
    decreases k,
{
    if k > 0 {
        assert(is_digit(s[0]));
        let rest = s.drop_first();
        assert forall|i: int| 0 <= i < k - 1 implies is_digit(#[trigger] rest[i]) by {
            assert(rest[i] == s[i + 1]);
        }
        lemma_leading_digits_stop(rest, k - 1);
    }
}

/// The leading run of `s` has at least `k` digits if the first `k`
/// characters are digits, and it consists of digits.
pub proof fn lemma_leading_digits_bounds(s: Seq<char>, k: int)
    requires
        0 <= k <= s.len(),
        forall|i: int| 0 <= i < k ==> is_digit(#[trigger] s[i]),
    ensures
        k <= leading_digits(s) <= s.len(),
        all_digits(s.take(leading_digits(s) as int)),
    decreases s.len(),
{
    if s.len() > 0 && is_digit(s[0]) {
        let rest = s.drop_first();
        let shorter = if k > 0 {
            k - 1
        } else {
            0
        };
        assert forall|i: int| 0 <= i < shorter implies is_digit(#[trigger] rest[i]) by {
            assert(rest[i] == s[i + 1]);
        }
        lemma_leading_digits_bounds(rest, shorter);
        let run = s.take(leading_digits(s) as int);
        let rest_run = rest.take(leading_digits(rest) as int);
        assert forall|i: int| 0 <= i < run.len() implies is_digit(#[trigger] run[i]) by {
            if i > 0 {
                assert(run[i] == rest_run[i - 1]);
            }
        }
    }
}

/// A run of digits denotes at least what any of its prefixes denotes.
pub proof fn lemma_digits_value_prefix(s: Seq<char>, k: int)
    requires
        all_digits(s),
        0 <= k <= s.len(),
    ensures
        digits_value(s.take(k)) <= digits_value(s),
    decreases s.len() - k,
{
    if k == s.len() {
        assert(s.take(k) =~= s);
    } else {
        let head = s.drop_last();
        assert(all_digits(head)) by {
            assert forall|i: int| 0 <= i < head.len() implies is_digit(#[trigger] head[i]) by {
                assert(head[i] == s[i]);
            }
        }
        lemma_digits_value_prefix(head, k);
        assert(head.take(k) =~= s.take(k));
        assert(is_digit(s.last()));
    }
}

/// The digits of a number are digits, at least one of them, and denote the
/// number.
pub proof fn lemma_decimal_digits(n: nat)
    ensures
        decimal_digits(n).len() >= 1,
        all_digits(decimal_digits(n)),
        digits_value(decimal_digits(n)) == n,
    decreases n,
{
    if n < 10 {
        let s = decimal_digits(n);
        assert(s.drop_last() =~= Seq::<char>::empty());
        assert(digits_value(s.drop_last()) == 0);
        assert(s.last() == digit_char(n as int));
    } else {
        lemma_decimal_digits(n / 10);
        let s = decimal_digits(n);
        let head = decimal_digits(n / 10);
        assert(s.drop_last() =~= head);
        assert(s.last() == digit_char((n % 10) as int));
        assert forall|i: int| 0 <= i < s.len() implies is_digit(#[trigger] s[i]) by {
            if i < head.len() {
                assert(s[i] == head[i]);
            }
        }
    }
}

/// The text of an integer holds digits and the sign only: no character
/// that is neither, such as the separator of sequences.
pub proof fn lemma_integer_text_atomic(n: int, c: char)
    requires
        !is_digit(c),
        c != '-',
    ensures
        forall|i: int| 0 <= i < integer_text(n).len() ==> #[trigger] integer_text(n)[i] != c,
{
    let magnitude = (if n < 0 {
        -n
    } else {
        n
    }) as nat;
    lemma_decimal_digits(magnitude);
    let digits = decimal_digits(magnitude);
    let s = integer_text(n);
    assert forall|i: int| 0 <= i < s.len() implies #[trigger] s[i] != c by {
        if n < 0 {
            if i > 0 {
                assert(s[i] == digits[i - 1]);
                assert(is_digit(digits[i - 1]));
            }
        } else {
            assert(is_digit(digits[i]));
        }
    }
}

/// Reading what was written gives the integer back: `integer_text(n)`
/// denotes `n` in every type whose range holds `n`.
pub proof fn lemma_integer_round_trip(n: int, signed: bool, min: int, max: int)
    requires
        min <= n <= max,
        n < 0 ==> signed,
    ensures
        parse_integer(integer_text(n), signed, min, max) == Ok::<int, ConversionError>(n),
{
    let magnitude = (if n < 0 {
        -n
    } else {
        n
    }) as nat;
    let digits = decimal_digits(magnitude);
    lemma_decimal_digits(magnitude);
    lemma_leading_digits_all(digits);
    assert(is_digit(digits[0]));
    assert(digits.take(digits.len() as int) =~= digits);
    let s = integer_text(n);
    if n < 0 {
        assert(s[0] == '-');
        assert(s.drop_first() =~= digits);
    } else {
        assert(s == digits);
    }
}

/// The number that a digit stands for, if `c` is a digit.
pub fn digit_of(c: char) -> (r: Option<u8>)
    ensures
        r == if is_digit(c) {
            Some(digit_value(c) as u8)
        } else {
            None
        },
{
    if c >= '0' && c <= '9' {
        Some(((c as u32) - ('0' as u32)) as u8)
    } else {
        None
    }
}

/// The digit that stands for `d`.
pub fn char_of_digit(d: u8) -> (r: char)
    requires
        d < 10,
    ensures
        r == digit_char(d as int),
        is_digit(r),
{
    (d + 48u8) as char
}

/// What ends the reading of a run of digits before the end of the text.
enum RunEnd {
    /// The digits read so far denote more than the limit.
    OutOfRange,
    /// A character that is no digit.
    NotADigit,
}

/// Reads `chars[start..]` as a run of digits that denotes at most `limit`.
fn read_magnitude(chars: &Vec<char>, start: usize, limit: u128) -> (r: Result<u128, RunEnd>)
    requires
        start <= chars.len(),
        limit >= 9,
    ensures
        ({
            let body = chars@.subrange(start as int, chars.len() as int);
            let run = body.take(leading_digits(body) as int);
            match r {
                Ok(v) => v == digits_value(run) && v <= limit && run.len() == body.len(),
                Err(RunEnd::OutOfRange) => digits_value(run) > limit,
                Err(RunEnd::NotADigit) => digits_value(run) <= limit && run.len() < body.len(),
            }
        }),
{
    let n = chars.len();
    let ghost body = chars@.subrange(start as int, n as int);
    let mut i: usize = start;
    let mut acc: u128 = 0;
    assert(body.take(0) =~= Seq::<char>::empty());
    while i < n
        invariant
            start <= i <= n,
            n == chars.len(),
            limit >= 9,
            body == chars@.subrange(start as int, n as int),
            forall|j: int| 0 <= j < i - start ==> is_digit(#[trigger] body[j]),
            acc == digits_value(body.take(i - start)),
            acc <= limit,
        decreases n - i,
    {
        let ghost k = i - start;
        assert(body[k] == chars@[i as int]);
        match digit_of(chars[i]) {
            None => {
                proof {
                    lemma_leading_digits_stop(body, k);
                }
                return Err(RunEnd::NotADigit);
            },
            Some(d) => {
                let ghost longer = body.take(k + 1);
                proof {
                    assert(longer.drop_last() =~= body.take(k));
                    assert(longer.last() == body[k]);
                    assert(digits_value(longer) == acc * 10 + d);
                }
                if acc > (limit - d as u128) / 10 {
                    proof {
                        lemma_leading_digits_bounds(body, k + 1);
                        let run = body.take(leading_digits(body) as int);
                        lemma_digits_value_prefix(run, k + 1);
                        assert(run.take(k + 1) =~= longer);
                    }
                    return Err(RunEnd::OutOfRange);
                }
                acc = acc * 10 + d as u128;
                i += 1;
            },
        }
    }
    proof {
        lemma_leading_digits_stop(body, body.len() as int);
        assert(body.take(body.len() as int) =~= body);
    }
    Ok(acc)
}

/// Reads `s` as an integer between zero and `max`.
pub fn parse_unsigned(s: &str, max: u128) -> (r: Result<u128, ConversionError>)
    requires
        max >= 9,
    ensures
        match r {
            Ok(v) => parse_integer(s@, false, 0, max as int) == Ok::<int, ConversionError>(v as int),
            Err(e) => parse_integer(s@, false, 0, max as int) == Err::<int, ConversionError>(e),
        },
{
    let chars = chars_of(s);
    if chars.len() == 0 {
        return Err(ConversionError::Empty);
    }
    if chars.len() == 1 && (chars[0] == '+' || chars[0] == '-') {
        return Err(ConversionError::InvalidDigit);
    }
    let start: usize = if chars[0] == '+' {
        1
    } else {
        0
    };
    proof {
        if start == 1 {
            assert(chars@.subrange(1, chars.len() as int) =~= s@.drop_first());
        } else {
            assert(chars@.subrange(0, chars.len() as int) =~= s@);
        }
    }
    match read_magnitude(&chars, start, max) {
        Ok(v) => Ok(v),
        Err(RunEnd::OutOfRange) => Err(ConversionError::PosOverflow),
        Err(RunEnd::NotADigit) => Err(ConversionError::InvalidDigit),
    }
}

/// Reads `s` as an integer between `min` and `max`.
pub fn parse_signed(s: &str, min: i128, max: i128) -> (r: Result<i128, ConversionError>)
    requires
        min <= -9,
        max >= 9,
    ensures
        match r {
            Ok(v) => parse_integer(s@, true, min as int, max as int) == Ok::<int, ConversionError>(
                v as int,
            ),
            Err(e) => parse_integer(s@, true, min as int, max as int) == Err::<
                int,
                ConversionError,
            >(e),
        },
{
    let chars = chars_of(s);
    if chars.len() == 0 {
        return Err(ConversionError::Empty);
    }
    if chars.len() == 1 && (chars[0] == '+' || chars[0] == '-') {
        return Err(ConversionError::InvalidDigit);
    }
    let negative = chars[0] == '-';
    let start: usize = if negative || chars[0] == '+' {
        1
    } else {
        0
    };
    proof {
        if start == 1 {
            assert(chars@.subrange(1, chars.len() as int) =~= s@.drop_first());
        } else {
            assert(chars@.subrange(0, chars.len() as int) =~= s@);
        }
    }
    if negative {
        let limit: u128 = (-(min + 1)) as u128 + 1;
        match read_magnitude(&chars, start, limit) {
            Ok(v) => {
                if v == 0 {
                    Ok(0)
                } else {
                    Ok(-((v - 1) as i128) - 1)
                }
            },
            Err(RunEnd::OutOfRange) => Err(ConversionError::NegOverflow),
            Err(RunEnd::NotADigit) => Err(ConversionError::InvalidDigit),
        }
    } else {
        match read_magnitude(&chars, start, max as u128) {
            Ok(v) => Ok(v as i128),
            Err(RunEnd::OutOfRange) => Err(ConversionError::PosOverflow),
            Err(RunEnd::NotADigit) => Err(ConversionError::InvalidDigit),
        }
    }
}

/// Appends the digits of `v` to `out`.
pub fn push_decimal(out: &mut String, v: u128)
    ensures
        final(out)@ == old(out)@ + decimal_digits(v as nat),
    decreases v,
{
    if v >= 10 {
        push_decimal(out, v / 10);
    }
    out.push(char_of_digit((v % 10) as u8));
    assert(out@ =~= old(out)@ + decimal_digits(v as nat));
}

/// Writes an integer that is not negative.
pub fn unsigned_to_text(v: u128) -> (r: String)
    ensures
        r@ == integer_text(v as int),
{
    let mut out = String::new();
    push_decimal(&mut out, v);
    assert(out@ =~= decimal_digits(v as nat));
    out
}

/// Writes an integer.
pub fn signed_to_text(v: i128) -> (r: String)
    ensures
        r@ == integer_text(v as int),
{
    let mut out = String::new();
    if v < 0 {
        out.push('-');
        let magnitude: u128 = (-(v + 1)) as u128 + 1;
        push_decimal(&mut out, magnitude);
        assert(out@ =~= seq!['-'] + decimal_digits((-v) as nat));
    } else {
        push_decimal(&mut out, v as u128);
        assert(out@ =~= decimal_digits(v as nat));
    }
    out
}

} // verus!
