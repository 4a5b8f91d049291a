//! Numbers as decimal text, and back.
use vstd::prelude::*;

verus! {

/// The character for a decimal digit.
pub open spec fn digit_char(d: int) -> char {
    (d + 48) as char
}

/// Decimal digits of a number, without leading zeros.
pub open spec fn decimal(n: nat) -> Seq<char>
    decreases n,
{
    if n < 10 {
        seq![digit_char(n as int)]
    } else {
        decimal(n / 10).push(digit_char((n % 10) as int))
    }
}

/// A digit as text.
fn digit(d: u64) -> (s: &'static str)
    requires
        d < 10,
    ensures
        s@ == seq![digit_char(d as int)],
{
    proof {
        reveal_strlit("0");
        reveal_strlit("1");
        reveal_strlit("2");
        reveal_strlit("3");
        reveal_strlit("4");
        reveal_strlit("5");
        reveal_strlit("6");
        reveal_strlit("7");
        reveal_strlit("8");
        reveal_strlit("9");
    }
    let s = match d {
        0 => "0",
        1 => "1",
        2 => "2",
        3 => "3",
        4 => "4",
        5 => "5",
        6 => "6",
        7 => "7",
        8 => "8",
        _ => "9",
    };
    assert(s@ =~= seq![digit_char(d as int)]);
    s
}

/// Appends the decimal digits of a number.
pub fn append_decimal(out: &mut String, n: u64)
    ensures
        final(out)@ == old(out)@ + decimal(n as nat),
    decreases n,
{
    if n >= 10 {
        append_decimal(out, n / 10);
    }
    out.append(digit(n % 10));
    assert(out@ =~= old(out)@ + decimal(n as nat));
}

/// Value of a decimal digit.
pub open spec fn digit_value(c: char) -> int {
    c as u32 - 48
}

/// The character is a decimal digit.
pub open spec fn is_digit(c: char) -> bool {
    0 <= digit_value(c) < 10
}

/// Number that decimal digits stand for.
pub open spec fn number(digits: Seq<char>) -> int
    decreases digits.len(),
{
    if digits.len() == 0 {
        0
    } else {
        number(digits.drop_last()) * 10 + digit_value(digits.last())
    }
}

/// The text without a plus sign in front.
pub open spec fn unsigned(text: Seq<char>) -> Seq<char> {
    if text.len() > 0 && text[0] == '+' {
        text.skip(1)
    } else {
        text
    }
}

/// Number that a text stands for: decimal digits, at least one, with or without a plus
/// sign in front, and nothing else. `None` if it is not of this form or too large.
pub open spec fn parsed(text: Seq<char>) -> Option<u64> {
    let digits = unsigned(text);
    if digits.len() == 0 || !(forall|i: int| 0 <= i < digits.len() ==> is_digit(#[trigger] digits[i]))
        || number(digits) > u64::MAX {
        None
    } else {
        Some(number(digits) as u64)
    }
}

/// What decimal digits stand for.
pub proof fn lemma_decimal(n: nat)
    ensures
        decimal(n).len() >= 1,
        forall|i: int| 0 <= i < decimal(n).len() ==> is_digit(#[trigger] decimal(n)[i]),
        number(decimal(n)) == n,
    decreases n,
{
    let d = (n % 10) as int;
    assert(digit_value(digit_char(d)) == d);
    if n < 10 {
        let digits = decimal(n);
        assert(digits.drop_last() =~= Seq::empty());
        assert(number(digits.drop_last()) == 0);
    } else {
        lemma_decimal(n / 10);
        assert(decimal(n).drop_last() =~= decimal(n / 10));
    }
}

/// A number that was written is read back.
pub proof fn law_numbers_are_read_back(n: u64)
    ensures
        parsed(decimal(n as nat)) == Some(n),
{
    lemma_decimal(n as nat);
    let digits = decimal(n as nat);
    assert(is_digit(digits[0]));
    assert(unsigned(digits) == digits);
}

/// The characters of a text.
pub fn chars_of(text: &str) -> (chars: Vec<char>)
    ensures
        chars@ == text@,
{
    let mut chars: Vec<char> = Vec::new();
    for c in it: text.chars()
        invariant
            chars@ == it.seq().take(it.index() as int),
            it.seq() == text@,
    {
        chars.push(c);
    }
    assert(chars@ =~= text@);
    chars
}

/// Digits that come first stand for no more than all of them.
proof fn lemma_number_grows(digits: Seq<char>, n: int)
    requires
        0 <= n <= digits.len(),
        forall|i: int| 0 <= i < digits.len() ==> is_digit(#[trigger] digits[i]),
    ensures
        0 <= number(digits.take(n)) <= number(digits),
    decreases digits.len(),
{
    if digits.len() == 0 {
        assert(digits.take(n) =~= digits);
    } else {
        let front = digits.drop_last();
        assert(is_digit(digits[digits.len() - 1]));
        assert forall|i: int| 0 <= i < front.len() implies is_digit(#[trigger] front[i]) by {
            assert(is_digit(digits[i]));
        }
        if n < digits.len() {
            lemma_number_grows(front, n);
            assert(front.take(n) =~= digits.take(n));
        } else {
            lemma_number_grows(front, front.len() as int);
            assert(front.take(front.len() as int) =~= front);
            assert(digits.take(n) =~= digits);
        }
    }
}

/// Number that the characters from a place on stand for.
pub fn parse_from(chars: &Vec<char>, from: usize) -> (r: Option<u64>)
    requires
        from <= chars@.len(),
    ensures
        r == parsed(chars@.skip(from as int)),
{
    let ghost text = chars@.skip(from as int);
    let ghost digits = unsigned(text);
    let len: usize = chars.len();
    let mut i: usize = from;
    if i < len && chars[i] == '+' {
        i += 1;
    }
    let ghost start = i as int;
    assert(digits =~= chars@.skip(start));
    if i >= len {
        return None;
    }
    let mut value: u64 = 0;
    assert(digits.take(0) =~= Seq::empty());
    while i < len
        invariant
            0 <= start <= i <= len,
            len == chars@.len(),
            digits == unsigned(text),
            digits == chars@.skip(start),
            text == chars@.skip(from as int),
            start < len,
            value == number(digits.take(i - start)),
            forall|j: int| 0 <= j < i - start ==> is_digit(#[trigger] digits[j]),
        decreases len - i,
    {
        let c: char = chars[i];
        let code: u32 = c as u32;
        assert(digits[i - start] == c);
        if code < 48 || code > 57 {
            assert(!is_digit(digits[i - start]));
            return None;
        }
        let ghost more = digits.take(i - start + 1);
        assert(more.drop_last() =~= digits.take(i - start));
        assert(more.last() == digits[i - start]);
        let next: Option<u64> = match value.checked_mul(10) {
            Some(tens) => tens.checked_add((code - 48) as u64),
            None => None,
        };
        match next {
            Some(sum) => {
                value = sum;
            },
            None => {
                proof {
                    assert(number(more) > u64::MAX);
                    if forall|j: int| 0 <= j < digits.len() ==> is_digit(#[trigger] digits[j]) {
                        lemma_number_grows(digits, i - start + 1);
                    }
                }
                return None;
            },
        }
        i += 1;
    }
    assert(digits.take(len - start) =~= digits);
    Some(value)
}

/// Number that a text stands for.
pub fn parse_number(text: &str) -> (r: Option<u64>)
    ensures
        r == parsed(text@),
{
    let chars = chars_of(text);
    assert(chars@.skip(0) =~= text@);
    parse_from(&chars, 0)
}

/// Whether the characters from a place on start with a prefix.
pub fn starts_with(chars: &Vec<char>, from: usize, prefix: &Vec<char>) -> (b: bool)
    requires
        from <= chars@.len(),
    ensures
        b == prefix@.is_prefix_of(chars@.skip(from as int)),
{
    let ghost text = chars@.skip(from as int);
    let len: usize = chars.len();
    if len - from < prefix.len() {
        return false;
    }
    for i in 0..prefix.len()
        invariant
            from + prefix@.len() <= len,
            len == chars@.len(),
            text == chars@.skip(from as int),
            forall|j: int| 0 <= j < i ==> prefix@[j] == #[trigger] text[j],
    {
        assert(text[i as int] == chars@[from + i]);
        if chars[from + i] != prefix[i] {
            assert(prefix@[i as int] != text.take(prefix@.len() as int)[i as int]);
            return false;
        }
    }
    assert(prefix@ =~= text.take(prefix@.len() as int));
    true
}

/// A digit is the character for its value.
proof fn lemma_digit(c: char)
    requires
        is_digit(c),
    ensures
        digit_char(digit_value(c)) == c,
{
}

/// Digits without a zero in front are how their number is written.
proof fn lemma_written(digits: Seq<char>)
    requires
        digits.len() >= 1,
        forall|i: int| 0 <= i < digits.len() ==> is_digit(#[trigger] digits[i]),
        digits.len() > 1 ==> digits[0] != '0',
    ensures
        digits == decimal(number(digits) as nat),
        number(digits) >= 0,
        digits[0] != '0' ==> number(digits) >= 1,
    decreases digits.len(),
{
    let front = digits.drop_last();
    let d = digit_value(digits.last());
    assert(is_digit(digits[digits.len() - 1]));
    lemma_digit(digits.last());
    if digits.len() == 1 {
        assert(number(front) == 0);
        assert(digits =~= seq![digit_char(d)]);
    } else {
        assert forall|i: int| 0 <= i < front.len() implies is_digit(#[trigger] front[i]) by {
            assert(is_digit(digits[i]));
        }
        lemma_written(front);
        let n = number(digits);
        assert(n == number(front) * 10 + d);
        assert(n / 10 == number(front) && n % 10 == d);
        assert(digits =~= front.push(digits.last()));
    }
}

/// Only numbers are read: a text that is read as a number, and does not start with a zero
/// that could be left out, is how that number is written, but for a plus sign in front.
pub proof fn law_only_numbers_are_read(text: Seq<char>, n: u64)
    requires
        parsed(text) == Some(n),
        unsigned(text)[0] != '0' || unsigned(text).len() == 1,
    ensures
        text == decimal(n as nat) || text == "+"@ + decimal(n as nat),
{
    reveal_strlit("+");
    let digits = unsigned(text);
    lemma_written(digits);
    if text[0] == '+' {
        assert(text =~= "+"@ + text.skip(1));
    }
}

} // verus!
