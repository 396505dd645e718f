//! Decimal numbers: reading an unsigned number from text and writing one.

use vstd::prelude::*;
use vstd::slice::slice_subrange;
use crate::text::{lemma_prefix_len, lemma_prefix_len_unique, prefix_len};

verus! {

/// Why a text is no unsigned decimal number.
#[derive(Debug, Clone, Copy, PartialEq, Eq, Structural)]
pub enum NumberError {
    /// The text is empty.
    Empty,
    /// The text holds something other than an optional `+` and digits, or
    /// no digit at all.
    InvalidDigit,
    /// The digits stand for a number that is too large.
    Overflow,
}

impl NumberError {
    /// What went wrong, in words.
    pub open spec fn text(self) -> Seq<char> {
        match self {
            NumberError::Empty => "cannot parse integer from empty string"@,
            NumberError::InvalidDigit => "invalid digit found in string"@,
            NumberError::Overflow => "number too large to fit in target type"@,
        }
    }

    /// What went wrong, in words.
    pub fn message(&self) -> (s: String)
        ensures
            s@ == self.text(),
    {
        match self {
            NumberError::Empty => "cannot parse integer from empty string".to_owned(),
            NumberError::InvalidDigit => "invalid digit found in string".to_owned(),
            NumberError::Overflow => "number too large to fit in target type".to_owned(),
        }
    }
}

/// Whether `c` is one of `0` to `9`.
pub open spec fn is_digit(c: char) -> bool {
    '0' <= c <= '9'
}

/// The predicate "is a decimal digit".
pub open spec fn digit() -> spec_fn(char) -> bool {
    |c: char| is_digit(c)
}

/// The number that the digit `c` stands for.
pub open spec fn digit_value(c: char) -> nat {
    (c as int - '0' as int) as nat
}

/// The digit that stands for `d`, which is below ten.
pub open spec fn digit_char(d: nat) -> char {
    (d + '0' as nat) as char
}

/// The number that the digits `s` stand for, read as a decimal numeral.
pub open spec fn decimal_value(s: Seq<char>) -> nat
    decreases s.len(),
{
    if s.len() == 0 {
        0
    } else {
        10 * decimal_value(s.drop_last()) + digit_value(s.last())
    }
}

/// The decimal numeral of `n`, without leading zeros.
pub open spec fn decimal(n: nat) -> Seq<char>
    decreases n,
{
    if n < 10 {
        seq![digit_char(n)]
    } else {
        decimal(n / 10).push(digit_char(n % 10))
    }
}

/// `s` without one leading `+`, if it starts with one.
pub open spec fn unsigned_body(s: Seq<char>) -> Seq<char> {
    if s.len() > 0 && s[0] == '+' {
        s.skip(1)
    } else {
        s
    }
}

/// What `s` reads as, when numbers up to `max` can be held: an optional
/// `+`, then one or more digits and nothing else. Going through the digits
/// from the left, a number that is too large is reported before a
/// character that is no digit, if it comes first.
pub open spec fn parsed_number(s: Seq<char>, max: nat) -> Result<nat, NumberError> {
    let body = unsigned_body(s);
    let digits = prefix_len(body, digit()) as int;
    if s.len() == 0 {
        Err(NumberError::Empty)
    } else if body.len() == 0 {
        Err(NumberError::InvalidDigit)
    } else if decimal_value(body.take(digits)) > max {
        Err(NumberError::Overflow)
    } else if digits < body.len() {
        Err(NumberError::InvalidDigit)
    } else {
        Ok(decimal_value(body))
    }
}

/// A number that was read is not above the largest that can be held.
pub proof fn lemma_parsed_number_fits(s: Seq<char>, max: nat)
    requires
        parsed_number(s, max) is Ok,
    ensures
        parsed_number(s, max)->Ok_0 <= max,
{
    let body = unsigned_body(s);
    lemma_prefix_len(body, digit());
    assert(body.take(body.len() as int) =~= body);
}

/// A longer prefix of a numeral stands for a number at least as large.
pub proof fn lemma_decimal_value_grows(s: Seq<char>, i: int, j: int)
    requires
        0 <= i <= j <= s.len(),
    ensures
        decimal_value(s.take(i)) <= decimal_value(s.take(j)),
    decreases j - i,
{
    if i < j {
        lemma_decimal_value_grows(s, i, j - 1);
        assert(s.take(j).drop_last() =~= s.take(j - 1));
    }
}

/// The numeral of `n` consists of digits and stands for `n`.
pub proof fn lemma_decimal_round_trip(n: nat)
    ensures
        decimal(n).len() >= 1,
        forall|i: int| 0 <= i < decimal(n).len() ==> is_digit(#[trigger] decimal(n)[i]),
        decimal_value(decimal(n)) == n,
    decreases n,
{
    if n < 10 {
        assert(decimal(n).drop_last() =~= Seq::<char>::empty());
        assert(decimal_value(decimal(n).drop_last()) == 0);
    } else {
        lemma_decimal_round_trip(n / 10);
        let head = decimal(n / 10);
        assert(decimal(n).drop_last() =~= head);
        assert forall|i: int| 0 <= i < decimal(n).len() implies is_digit(
            #[trigger] decimal(n)[i],
        ) by {
            if i < head.len() {
                assert(decimal(n)[i] == head[i]);
            }
        }
    }
}

/// Reads `s` as an unsigned decimal number.
pub fn parse_number(s: &[char]) -> (r: Result<usize, NumberError>)
    ensures
        match r {
            Ok(n) => parsed_number(s@, usize::MAX as nat) == Ok::<nat, NumberError>(n as nat),
            Err(e) => parsed_number(s@, usize::MAX as nat) == Err::<nat, NumberError>(e),
        },
{
    if s.len() == 0 {
        return Err(NumberError::Empty);
    }
    let from: usize = if s[0] == '+' {
        1
    } else {
        0
    };
    let body = slice_subrange(s, from, s.len());
    assert(body@ =~= unsigned_body(s@));
    if body.len() == 0 {
        return Err(NumberError::InvalidDigit);
    }
    let mut value: usize = 0;
    let mut i: usize = 0;
    assert(body@.take(0) =~= Seq::<char>::empty());
    while i < body.len()
        invariant
            s@.len() > 0,
            body@.len() > 0,
            body@ == unsigned_body(s@),
            i <= body.len(),
            forall|j: int| 0 <= j < i ==> is_digit(#[trigger] body@[j]),
            value == decimal_value(body@.take(i as int)),
        decreases body.len() - i,
    {
        let c = body[i];
        if !(c >= '0' && c <= '9') {
            proof {
                lemma_prefix_len_unique(body@, digit(), i as nat);
            }
            return Err(NumberError::InvalidDigit);
        }
        let d = (c as u32 - '0' as u32) as usize;
        proof {
            assert(body@.take(i + 1).drop_last() =~= body@.take(i as int));
            assert(decimal_value(body@.take(i + 1)) == 10 * value + d);
        }
        let next = match value.checked_mul(10) {
            Some(tens) => tens.checked_add(d),
            None => None,
        };
        match next {
            Some(n) => {
                value = n;
            },
            None => {
                proof {
                    lemma_prefix_len(body@, digit());
                    let digits = prefix_len(body@, digit()) as int;
                    assert(digits >= i + 1) by {
                        if digits <= i {
                            assert(is_digit(body@[digits]));
                            assert(digit()(body@[digits]));
                        }
                    }
                    lemma_decimal_value_grows(body@, i + 1, digits);
                }
                return Err(NumberError::Overflow);
            },
        }
        i += 1;
    }
    proof {
        lemma_prefix_len_unique(body@, digit(), i as nat);
        assert(body@.take(i as int) =~= body@);
    }
    Ok(value)
}

/// The digit for `d`.
fn digit_for(d: u8) -> (c: char)
    requires
        d < 10,
    ensures
        c == digit_char(d as nat),
{
    (d + 48) as char
}

/// Appends the decimal numeral of `n` to `out`.
pub fn push_decimal(out: &mut Vec<char>, n: u128)
    ensures
        final(out)@ == old(out)@ + decimal(n as nat),
    decreases n,
{
    if n >= 10 {
        push_decimal(out, n / 10);
    }
    out.push(digit_for((n % 10) as u8));
    assert(out@ =~= old(out)@ + decimal(n as nat));
}

} // verus!
