//! Whole numbers as decimal text, and back.
use vstd::prelude::*;

use crate::text::chars_of;

verus! {

/// The character of a digit.
pub open spec fn digit_char(d: int) -> char {
    ((48 + d) as u32) as char
}

/// Whether a character is a decimal digit of ASCII.
pub open spec fn is_digit(c: char) -> bool {
    '0' <= c <= '9'
}

/// The decimal text of a natural number, without leading zeros.
pub open spec fn decimal_nat(n: nat) -> Seq<char>
    decreases n,
{
    if n < 10 {
        seq![digit_char(n as int)]
    } else {
        decimal_nat(n / 10).push(digit_char((n % 10) as int))
    }
}

/// The decimal text of an integer.
pub open spec fn decimal(n: int) -> Seq<char> {
    if n < 0 {
        seq!['-'] + decimal_nat((-n) as nat)
    } else {
        decimal_nat(n as nat)
    }
}

/// The number that a run of digits stands for.
pub open spec fn digits_value(s: Seq<char>) -> int
    decreases s.len(),
{
    if s.len() == 0 {
        0
    } else {
        digits_value(s.drop_last()) * 10 + (s.last() as u32 - 48)
    }
}

/// Whether a text is one digit or more, and nothing else.
pub open spec fn is_digits(s: Seq<char>) -> bool {
    s.len() > 0 && forall|i: int| 0 <= i < s.len() ==> is_digit(#[trigger] s[i])
}

/// The number that a text stands for: digits with an optional sign before them.
pub open spec fn signed_value(s: Seq<char>) -> Option<int> {
    if s.len() > 0 && (s[0] == '-' || s[0] == '+') {
        if is_digits(s.skip(1)) {
            Some(if s[0] == '-' { -digits_value(s.skip(1)) } else { digits_value(s.skip(1)) })
        } else {
            None
        }
    } else if is_digits(s) {
        Some(digits_value(s))
    } else {
        None
    }
}

/// The number that a text stands for, where it fits in 64 bits with a sign.
pub open spec fn parsed_i64(s: Seq<char>) -> Option<i64> {
    match signed_value(s) {
        Some(n) if i64::MIN <= n <= i64::MAX => Some(n as i64),
        _ => None,
    }
}

/// The number that a text without a minus sign stands for, where it fits in a `usize`.
pub open spec fn parsed_usize(s: Seq<char>) -> Option<usize> {
    if s.len() > 0 && s[0] == '-' {
        None
    } else {
        match signed_value(s) {
            Some(n) if n <= usize::MAX => Some(n as usize),
            _ => None,
        }
    }
}

fn push_digits(text: &mut String, n: u64)
    ensures
        final(text)@ == old(text)@ + decimal_nat(n as nat),
    decreases n,
{
    if n >= 10 {
        push_digits(text, n / 10);
    }
    let d: u8 = (n % 10) as u8;
    text.push((48 + d) as char);
    assert(text@ =~= old(text)@ + decimal_nat(n as nat));
}

/// The decimal text of an unsigned number.
pub fn format_u64(n: u64) -> (text: String)
    ensures
        text@ == decimal(n as int),
{
    let mut text = String::new();
    push_digits(&mut text, n);
    assert(text@ =~= decimal(n as int));
    text
}

/// The decimal text of a number.
pub fn format_i64(n: i64) -> (text: String)
    ensures
        text@ == decimal(n as int),
{
    let mut text = String::new();
    if n < 0 {
        text.push('-');
        let magnitude: u64 = (-(n + 1)) as u64 + 1;
        push_digits(&mut text, magnitude);
    } else {
        push_digits(&mut text, n as u64);
    }
    assert(text@ =~= decimal(n as int));
    text
}

proof fn lemma_digits_value_grows(s: Seq<char>, i: int)
    requires
        0 <= i <= s.len(),
        forall|j: int| 0 <= j < s.len() ==> is_digit(#[trigger] s[j]),
    ensures
        0 <= digits_value(s.take(i)) <= digits_value(s),
    decreases s.len(),
{
    if i == s.len() {
        assert(s.take(i) == s);
        if s.len() > 0 {
            lemma_digits_value_grows(s.drop_last(), s.len() - 1);
            assert(s.drop_last().take(s.len() - 1) == s.drop_last());
        }
    } else {
        lemma_digits_value_grows(s.drop_last(), i);
        assert(s.drop_last().take(i) == s.take(i));
        lemma_digits_value_grows(s.drop_last(), s.len() - 1);
    }
}

fn parse_digits(chars: &Vec<char>, from: usize) -> (n: Option<u64>)
    requires
        from <= chars@.len(),
    ensures
        match n {
            Some(v) => is_digits(chars@.skip(from as int)) && v == digits_value(
                chars@.skip(from as int),
            ),
            None => !is_digits(chars@.skip(from as int)) || digits_value(chars@.skip(from as int))
                > u64::MAX,
        },
{
    let ghost body = chars@.skip(from as int);
    if from == chars.len() {
        return None;
    }
    let mut k: usize = from;
    while k < chars.len()
        invariant
            from <= k <= chars@.len(),
            body == chars@.skip(from as int),
            forall|j: int| 0 <= j < k - from ==> is_digit(#[trigger] body[j]),
        decreases chars@.len() - k,
    {
        let c = chars[k];
        if !('0' <= c && c <= '9') {
            assert(!is_digit(body[k - from]));
            return None;
        }
        k += 1;
    }
    let mut acc: u64 = 0;
    let mut i: usize = from;
    while i < chars.len()
        invariant
            from <= i <= chars@.len(),
            body == chars@.skip(from as int),
            is_digits(body),
            acc == digits_value(body.take(i - from)),
        decreases chars@.len() - i,
    {
        let c = chars[i];
        let ghost at = i - from;
        assert(is_digit(body[at]));
        let d: u64 = c as u64 - 48;
        proof {
            assert(body.take(at + 1).drop_last() == body.take(at));
            lemma_digits_value_grows(body, at + 1);
        }
        let next: u128 = acc as u128 * 10 + d as u128;
        if next > u64::MAX as u128 {
            return None;
        }
        acc = next as u64;
        i += 1;
    }
    assert(body.take(i - from) == body);
    Some(acc)
}

/// Reads a number: digits with an optional sign before them.
pub fn parse_i64(s: &str) -> (n: Option<i64>)
    ensures
        n == parsed_i64(s@),
{
    let chars = chars_of(s);
    assert(chars@.skip(0) == chars@);
    if chars.len() > 0 && (chars[0] == '-' || chars[0] == '+') {
        let negative = chars[0] == '-';
        match parse_digits(&chars, 1) {
            None => None,
            Some(v) => {
                if negative {
                    if v <= 0x7fff_ffff_ffff_ffff {
                        Some(-(v as i64))
                    } else if v == 0x8000_0000_0000_0000 {
                        Some(i64::MIN)
                    } else {
                        None
                    }
                } else if v <= 0x7fff_ffff_ffff_ffff {
                    Some(v as i64)
                } else {
                    None
                }
            },
        }
    } else {
        match parse_digits(&chars, 0) {
            Some(v) => if v <= 0x7fff_ffff_ffff_ffff {
                Some(v as i64)
            } else {
                None
            },
            None => None,
        }
    }
}

/// Reads a number that is not negative: digits with an optional plus sign before them.
pub fn parse_usize(s: &str) -> (n: Option<usize>)
    ensures
        n == parsed_usize(s@),
{
    let chars = chars_of(s);
    assert(chars@.skip(0) == chars@);
    if chars.len() > 0 && chars[0] == '-' {
        return None;
    }
    let from: usize = if chars.len() > 0 && chars[0] == '+' { 1 } else { 0 };
    let v = parse_digits(&chars, from);
    match v {
        Some(v) => {
            if v <= usize::MAX as u64 {
                Some(v as usize)
            } else {
                None
            }
        },
        None => None,
    }
}

proof fn lemma_decimal_nat(n: nat)
    ensures
        is_digits(decimal_nat(n)),
        digits_value(decimal_nat(n)) == n,
    decreases n,
{
    if n < 10 {
        let s = decimal_nat(n);
        assert(s.drop_last() == Seq::<char>::empty());
        assert(digits_value(s.drop_last()) == 0);
    } else {
        lemma_decimal_nat(n / 10);
        let s = decimal_nat(n);
        assert(s.drop_last() == decimal_nat(n / 10));
        assert(digits_value(s) == digits_value(decimal_nat(n / 10)) * 10 + n % 10);
    }
}

/// Reading the decimal text of a number gives the number back.
pub proof fn law_decimal_reads_back(n: i64)
    ensures
        parsed_i64(decimal(n as int)) == Some(n),
{
    if n < 0 {
        lemma_decimal_nat((-n) as nat);
        assert(decimal(n as int).skip(1) == decimal_nat((-n) as nat));
    } else {
        lemma_decimal_nat(n as nat);
        let s = decimal(n as int);
        assert(is_digit(s[0]));
    }
}

/// The decimal text of a number is not that of another.
pub proof fn law_decimal_is_injective(a: i64, b: i64)
    requires
        decimal(a as int) == decimal(b as int),
    ensures
        a == b,
{
    law_decimal_reads_back(a);
    law_decimal_reads_back(b);
}

/// The decimal text of a number starts with a digit or a minus sign.
pub proof fn lemma_decimal_start(n: i64)
    ensures
        decimal(n as int).len() > 0,
        decimal(n as int)[0] == '-' || is_digit(decimal(n as int)[0]),
{
    if n >= 0 {
        lemma_decimal_nat(n as nat);
    }
}

/// Reading the decimal text of a number that is not negative gives the number back.
pub proof fn law_unsigned_decimal_reads_back(n: usize)
    ensures
        parsed_usize(decimal(n as int)) == Some(n),
{
    lemma_decimal_nat(n as nat);
    let s = decimal(n as int);
    assert(is_digit(s[0]));
}

/// A text is a number exactly if it is digits behind at most one sign; a minus sign turns
/// the number into its opposite, a plus sign changes nothing, and one more digit at the end
/// is ten times the number and the digit.
pub proof fn law_what_a_text_stands_for(digits: Seq<char>, d: char)
    requires
        is_digits(digits),
        '0' <= d <= '9',
    ensures
        signed_value(digits) is Some,
        signed_value(digits).unwrap() >= 0,
        signed_value(seq!['+'] + digits) == signed_value(digits),
        signed_value(seq!['-'] + digits) == Some(-signed_value(digits).unwrap()),
        signed_value(digits.push(d)) == Some(
            10 * signed_value(digits).unwrap() + (d as u32 - '0' as u32),
        ),
        signed_value(seq![d]) == Some(d as u32 - '0' as u32),
        signed_value(Seq::empty()) is None,
{
    assert(is_digit(digits[0]));
    assert((seq!['+'] + digits).skip(1) =~= digits);
    assert((seq!['-'] + digits).skip(1) =~= digits);
    let more = digits.push(d);
    assert forall|i: int| 0 <= i < more.len() implies is_digit(#[trigger] more[i]) by {
        if i < digits.len() {
            assert(more[i] == digits[i]);
        }
    }
    assert(is_digit(more[0]));
    assert(more.drop_last() =~= digits);
    lemma_digits_value_grows(digits, 0);
    let one = seq![d];
    assert(one.drop_last() =~= Seq::<char>::empty());
    assert(digits_value(one.drop_last()) == 0);
    assert(is_digits(one));
}

/// A number is read from a text exactly if the text stands for one that fits; one that is
/// not negative is read from no text with a minus sign.
pub proof fn law_numbers_are_read_where_they_fit(s: Seq<char>)
    ensures
        parsed_i64(s) is Some <==> (signed_value(s) matches Some(n) && i64::MIN <= n <= i64::MAX),
        parsed_i64(s) matches Some(n) ==> signed_value(s) == Some(n as int),
        parsed_usize(s) is Some <==> (signed_value(s) matches Some(n) && 0 <= n <= usize::MAX
            && s[0] != '-'),
        parsed_usize(s) matches Some(n) ==> signed_value(s) == Some(n as int),
{
    if s.len() > 0 && s[0] == '+' && is_digits(s.skip(1)) {
        lemma_digits_value_grows(s.skip(1), 0);
    }
    if is_digits(s) {
        lemma_digits_value_grows(s, 0);
    }
}

} // verus!
