//! Integer literals: an optional sign followed by decimal digits.

use vstd::prelude::*;
use vstd::std_specs::iter::IteratorSpec;

verus! {

/// Whether `c` is one of the ten decimal digits.
pub open spec fn is_digit(c: char) -> bool {
    '0' <= c <= '9'
}

/// The number that the digit `c` stands for.
pub open spec fn digit_value(c: char) -> int {
    c as int - '0' as int
}

/// Whether `text` is one decimal digit or more, and nothing else.
pub open spec fn all_digits(text: Seq<char>) -> bool {
    text.len() > 0 && forall|i: int| 0 <= i < text.len() ==> is_digit(#[trigger] text[i])
}

/// The number written by the digits `text`, most significant digit first.
pub open spec fn digits_value(text: Seq<char>) -> int
    decreases text.len(),
{
    if text.len() == 0 {
        0
    } else {
        10 * digits_value(text.drop_last()) + digit_value(text.last())
    }
}

/// Whether `text` begins with a sign.
pub open spec fn has_sign(text: Seq<char>) -> bool {
    text.len() > 0 && (text[0] == '-' || text[0] == '+')
}

/// Whether `text` begins with a minus sign.
pub open spec fn is_negative(text: Seq<char>) -> bool {
    text.len() > 0 && text[0] == '-'
}

/// The digits of `text`: all of it but a leading sign.
pub open spec fn unsigned_part(text: Seq<char>) -> Seq<char> {
    if has_sign(text) {
        text.skip(1)
    } else {
        text
    }
}

/// The number written by `digits` under a sign.
pub open spec fn signed_value(negative: bool, digits: Seq<char>) -> int {
    if negative {
        -digits_value(digits)
    } else {
        digits_value(digits)
    }
}

/// The number that `text` writes, if it writes one: an optional `+` or `-`,
/// then one decimal digit or more, denoting a number in the range of `i64`.
pub open spec fn integer_literal(text: Seq<char>) -> Option<i64> {
    let digits = unsigned_part(text);
    let v = signed_value(is_negative(text), digits);
    if all_digits(digits) && i64::MIN <= v <= i64::MAX {
        Some(v as i64)
    } else {
        None
    }
}

/// Digits never write a negative number.
pub proof fn lemma_digits_value_nonnegative(text: Seq<char>)
    requires
        forall|i: int| 0 <= i < text.len() ==> is_digit(#[trigger] text[i]),
    ensures
        0 <= digits_value(text),
    decreases text.len(),
{
    if text.len() > 0 {
        lemma_digits_value_nonnegative(text.drop_last());
    }
}

/// Further digits never make the number smaller.
pub proof fn lemma_digits_value_grows(text: Seq<char>, k: int)
    requires
        0 <= k <= text.len(),
        forall|i: int| 0 <= i < text.len() ==> is_digit(#[trigger] text[i]),
    ensures
        digits_value(text.take(k)) <= digits_value(text),
    decreases text.len() - k,
{
    if k == text.len() {
        assert(text.take(k) =~= text);
    } else {
        lemma_digits_value_grows(text, k + 1);
        assert(text.take(k + 1).drop_last() =~= text.take(k));
        lemma_digits_value_nonnegative(text.take(k));
    }
}

/// Reads `text` as an integer literal.
pub fn parse_integer(text: &str) -> (r: Option<i64>)
    ensures
        r == integer_literal(text@),
{
    let ghost digits = unsigned_part(text@);
    let ghost lead: int = if has_sign(text@) { 1 } else { 0 };
    let mut negative = false;
    let mut first = true;
    let mut any = false;
    let mut acc: i64 = 0;
    for c in it: text.chars()
        invariant
            it.seq() == text@,
            digits == unsigned_part(text@),
            lead == if has_sign(text@) { 1int } else { 0int },
            first == (it.index() == 0),
            any == (it.index() > lead),
            negative == (it.index() > 0 && is_negative(text@)),
            !first ==> it.index() >= lead,
            forall|i: int| 0 <= i < it.index() - lead ==> is_digit(#[trigger] digits[i]),
            first ==> acc == 0,
            !first ==> acc == signed_value(negative, digits.take(it.index() - lead)),
    {
        if first && (c == '-' || c == '+') {
            negative = c == '-';
            assert(digits.take(0) =~= Seq::<char>::empty());
        } else {
            let ghost n = it.index() - lead;
            proof {
                assert(digits.take(0) =~= Seq::<char>::empty());
                assert(digits[n] == c);
                assert(digits.take(n + 1).drop_last() =~= digits.take(n));
                assert(digits.take(n + 1).last() == c);
            }
            if !('0' <= c && c <= '9') {
                return None;
            }
            let d: i64 = (c as u32 - '0' as u32) as i64;
            assert(d == digit_value(c));
            let next = match acc.checked_mul(10) {
                Some(tens) => if negative {
                    tens.checked_sub(d)
                } else {
                    tens.checked_add(d)
                },
                None => None,
            };
            match next {
                Some(v) => {
                    acc = v;
                    any = true;
                },
                None => {
                    proof {
                        let longer = digits_value(digits.take(n + 1));
                        assert(longer == 10 * digits_value(digits.take(n)) + d);
                        lemma_digits_value_nonnegative(digits.take(n));
                        assert(!(i64::MIN <= signed_value(negative, digits.take(n + 1))
                            <= i64::MAX));
                        if all_digits(digits) {
                            lemma_digits_value_grows(digits, n + 1);
                        }
                    }
                    return None;
                },
            }
        }
        first = false;
    }
    assert(digits.take(digits.len() as int) =~= digits);
    if any {
        Some(acc)
    } else {
        None
    }
}

/// The character that writes the digit `d`.
pub open spec fn digit_char(d: int) -> char {
    if d == 0 {
        '0'
    } else if d == 1 {
        '1'
    } else if d == 2 {
        '2'
    } else if d == 3 {
        '3'
    } else if d == 4 {
        '4'
    } else if d == 5 {
        '5'
    } else if d == 6 {
        '6'
    } else if d == 7 {
        '7'
    } else if d == 8 {
        '8'
    } else {
        '9'
    }
}

/// The decimal digits of `n`, most significant first, without leading zeros.
pub open spec fn decimal(n: nat) -> Seq<char>
    decreases n,
{
    if n < 10 {
        seq![digit_char(n as int)]
    } else {
        decimal(n / 10).push(digit_char((n % 10) as int))
    }
}

/// How the integer `v` is written: its decimal digits, after a minus sign
/// where it is negative.
pub open spec fn numeral(v: int) -> Seq<char> {
    if v < 0 {
        seq!['-'] + decimal((-v) as nat)
    } else {
        decimal(v as nat)
    }
}

/// The decimal digits of a number are digits, and they write that number.
pub proof fn lemma_decimal_reads_back(n: nat)
    ensures
        all_digits(decimal(n)),
        digits_value(decimal(n)) == n,
    decreases n,
{
    if n < 10 {
        assert(decimal(n).drop_last() =~= Seq::<char>::empty());
        assert(digits_value(decimal(n).drop_last()) == 0);
    } else {
        lemma_decimal_reads_back(n / 10);
        assert(decimal(n).drop_last() =~= decimal(n / 10));
    }
}

/// Every `i64` is read back from the way it is written.
pub proof fn lemma_numeral_reads_back(v: i64)
    ensures
        integer_literal(numeral(v as int)) == Some(v),
{
    let text = numeral(v as int);
    if v < 0 {
        let digits = decimal((-v) as nat);
        lemma_decimal_reads_back((-v) as nat);
        assert(text[0] == '-');
        assert(text.skip(1) =~= digits);
    } else {
        lemma_decimal_reads_back(v as nat);
        assert(is_digit(text[0]));
    }
}

} // verus!
