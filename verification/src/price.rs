//! Prices as whole cents, and the decimal text they are read from.

use vstd::prelude::*;

verus! {

/// Whether `c` is one of the ten ASCII digits.
pub open spec fn is_digit(c: char) -> bool {
    '0' <= c <= '9'
}

/// The number an ASCII digit stands for; zero for any other character.
pub open spec fn digit_value(c: char) -> nat {
    if is_digit(c) {
        (c as int - '0' as int) as nat
    } else {
        0
    }
}

/// Whether every character of `text` is an ASCII digit.
pub open spec fn all_digits(text: Seq<char>) -> bool {
    forall|i: int| 0 <= i < text.len() ==> is_digit(#[trigger] text[i])
}

/// The number that a run of digits denotes in base ten.
pub open spec fn decimal_value(digits: Seq<char>) -> nat
    decreases digits.len(),
{
    if digits.len() == 0 {
        0
    } else {
        10 * decimal_value(digits.drop_last()) + digit_value(digits.last())
    }
}

/// The test that keeps every character but the thousands separator.
pub open spec fn not_comma() -> spec_fn(char) -> bool {
    |c: char| c != ','
}

/// `text` with every comma taken out.
pub open spec fn without_commas(text: Seq<char>) -> Seq<char> {
    text.filter(not_comma())
}

/// The whole units that a whole-part fragment denotes: its digits once the
/// commas are gone. `None` unless at least one character is left and all of
/// them are digits.
pub open spec fn whole_units(text: Seq<char>) -> Option<nat> {
    let digits = without_commas(text);
    if digits.len() > 0 && all_digits(digits) {
        Some(decimal_value(digits))
    } else {
        None
    }
}

/// The hundredths that a fractional fragment denotes. `None` unless the
/// fragment is exactly two digits.
pub open spec fn fraction_units(text: Seq<char>) -> Option<nat> {
    if text.len() == 2 && all_digits(text) {
        Some(decimal_value(text))
    } else {
        None
    }
}

/// The price in cents that the pair of fragments `"{whole}.{fraction}"`
/// denotes, where both fragments are well formed.
pub open spec fn price_cents(whole: Seq<char>, fraction: Seq<char>) -> Option<nat> {
    match (whole_units(whole), fraction_units(fraction)) {
        (Some(w), Some(f)) => Some(100 * w + f),
        _ => None,
    }
}

/// A mathematical value as a machine word, where it fits in one.
pub open spec fn fits_u64(value: Option<nat>) -> Option<u64> {
    match value {
        Some(n) => if n <= u64::MAX {
            Some(n as u64)
        } else {
            None
        },
        None => None,
    }
}

/// Appending characters to a run never lowers the value it denotes.
pub proof fn lemma_decimal_value_prefix(head: Seq<char>, tail: Seq<char>)
    ensures
        decimal_value(head) <= decimal_value(head + tail),
    decreases tail.len(),
{
    if tail.len() == 0 {
        assert(head + tail =~= head);
    } else {
        lemma_decimal_value_prefix(head, tail.drop_last());
        assert((head + tail).drop_last() =~= head + tail.drop_last());
    }
}

/// Reads the whole part of a price: digits with thousands separators.
pub fn parse_whole(text: &str) -> (units: Option<u64>)
    ensures
        units == fits_u64(whole_units(text@)),
{
    let mut acc: u64 = 0;
    let mut seen = false;
    let ghost mut digits: Seq<char> = Seq::empty();
    proof {
        reveal(Seq::filter);
    }
    for c in it: text.chars()
        invariant
            it.seq() == text@,
            digits == without_commas(text@.take(it.index() as int)),
            all_digits(digits),
            acc == decimal_value(digits),
            seen == (digits.len() > 0),
    {
        let ghost i = it.index() as int;
        proof {
            text@.lemma_take_succ_push(i);
            text@.take(i).lemma_filter_push(c, not_comma());
        }
        if c == ',' {
        } else if c >= '0' && c <= '9' {
            let d: u64 = (c as u32 - '0' as u32) as u64;
            if acc > (u64::MAX - d) / 10 {
                proof {
                    let read = digits.push(c);
                    let rest = text@.skip(i + 1);
                    assert(text@ =~= text@.take(i + 1) + rest);
                    Seq::filter_distributes_over_add(text@.take(i + 1), rest, not_comma());
                    assert(read.drop_last() =~= digits);
                    lemma_decimal_value_prefix(read, without_commas(rest));
                }
                return None;
            }
            acc = acc * 10 + d;
            seen = true;
            proof {
                assert(digits.push(c).drop_last() =~= digits);
                digits = digits.push(c);
            }
        } else {
            proof {
                text@.lemma_filter_contains(not_comma(), i);
            }
            return None;
        }
    }
    proof {
        text@.lemma_take_len();
    }
    if seen {
        Some(acc)
    } else {
        None
    }
}

/// Reads the fractional part of a price: exactly two digits.
pub fn parse_fraction(text: &str) -> (units: Option<u64>)
    ensures
        units == fits_u64(fraction_units(text@)),
        units matches Some(f) ==> f < 100,
{
    let mut acc: u64 = 0;
    let mut count: u8 = 0;
    for c in it: text.chars()
        invariant
            it.seq() == text@,
            count == it.index(),
            count <= 2,
            all_digits(text@.take(count as int)),
            acc == decimal_value(text@.take(count as int)),
            count == 0 ==> acc == 0,
            count == 1 ==> acc < 10,
            count == 2 ==> acc < 100,
    {
        let ghost i = it.index() as int;
        proof {
            text@.lemma_take_succ_push(i);
            assert(text@.take(i + 1).drop_last() =~= text@.take(i));
        }
        if count == 2 || !(c >= '0' && c <= '9') {
            return None;
        }
        acc = acc * 10 + (c as u32 - '0' as u32) as u64;
        count = count + 1;
    }
    proof {
        text@.lemma_take_len();
    }
    if count == 2 {
        Some(acc)
    } else {
        None
    }
}

/// Reads the price that a whole fragment and a fractional fragment denote
/// together, in cents. `None` where either fragment is malformed or the
/// price does not fit in 64 bits.
pub fn parse_price(whole: &str, fraction: &str) -> (cents: Option<u64>)
    ensures
        cents == fits_u64(price_cents(whole@, fraction@)),
{
    let w = match parse_whole(whole) {
        Some(w) => w,
        None => {
            return None;
        },
    };
    let f = match parse_fraction(fraction) {
        Some(f) => f,
        None => {
            return None;
        },
    };
    match w.checked_mul(100) {
        Some(scaled) => scaled.checked_add(f),
        None => None,
    }
}

/// The ASCII digit for a number below ten.
pub open spec fn digit_char(d: nat) -> char {
    ('0' as nat + d) as char
}

/// A number written in base ten, without leading zeros.
pub open spec fn decimal_text(n: nat) -> Seq<char>
    decreases n,
{
    if n < 10 {
        seq![digit_char(n)]
    } else {
        decimal_text(n / 10).push(digit_char(n % 10))
    }
}

/// A number below one hundred written with exactly two digits.
pub open spec fn two_digit_text(n: nat) -> Seq<char> {
    seq![digit_char(n / 10), digit_char(n % 10)]
}

/// A price in cents written as units, a point, and two digits of cents.
pub open spec fn price_text(cents: nat) -> Seq<char> {
    decimal_text(cents / 100) + seq!['.'] + two_digit_text(cents % 100)
}

/// The one-character text of a digit.
fn digit_str(d: u64) -> (text: &'static str)
    requires
        d < 10,
    ensures
        text@ == seq![digit_char(d as nat)],
{
    proof {
        reveal_strlit("0");
        reveal_strlit("1");
        reveal_strlit("2");
        reveal_strlit("3");
        reveal_strlit("4");
        reveal_strlit("5");
        reveal_strlit("6");
        reveal_strlit("7");
        reveal_strlit("8");
        reveal_strlit("9");
    }
    let text = match d {
        0 => "0",
        1 => "1",
        2 => "2",
        3 => "3",
        4 => "4",
        5 => "5",
        6 => "6",
        7 => "7",
        8 => "8",
        _ => "9",
    };
    assert(text@ =~= seq![digit_char(d as nat)]);
    text
}

/// Appends `n` in base ten to `out`.
pub fn push_decimal(out: &mut String, n: u64)
    ensures
        final(out)@ == old(out)@ + decimal_text(n as nat),
    decreases n,
{
    if n >= 10 {
        push_decimal(out, n / 10);
    }
    out.append(digit_str(n % 10));
    assert(out@ =~= old(out)@ + decimal_text(n as nat));
}

/// Appends a price in cents to `out`, as units, a point and two digits.
pub fn push_price(out: &mut String, cents: u64)
    ensures
        final(out)@ == old(out)@ + price_text(cents as nat),
{
    push_decimal(out, cents / 100);
    out.append(".");
    out.append(digit_str(cents % 100 / 10));
    out.append(digit_str(cents % 10));
    proof {
        reveal_strlit(".");
        assert((cents % 100) % 10 == cents % 10);
        assert(out@ =~= old(out)@ + price_text(cents as nat));
    }
}

/// Writes a price in cents as units, a point and two digits: `1999` is
/// `"19.99"`, `5` is `"0.05"`.
pub fn format_price(cents: u64) -> (text: String)
    ensures
        text@ == price_text(cents as nat),
{
    let mut text = String::new();
    push_price(&mut text, cents);
    assert(text@ =~= price_text(cents as nat));
    text
}

/// A number's decimal text is a non-empty run of digits that denotes it.
pub proof fn lemma_decimal_text_denotes(n: nat)
    ensures
        decimal_text(n).len() > 0,
        all_digits(decimal_text(n)),
        decimal_value(decimal_text(n)) == n,
    decreases n,
{
    if n < 10 {
        assert(decimal_text(n).drop_last() =~= Seq::<char>::empty());
        assert(decimal_value(decimal_text(n).drop_last()) == 0);
    } else {
        lemma_decimal_text_denotes(n / 10);
        assert(decimal_text(n).drop_last() =~= decimal_text(n / 10));
    }
}

/// A run of digits holds no comma to take out.
pub proof fn lemma_without_commas_of_digits(digits: Seq<char>)
    requires
        all_digits(digits),
    ensures
        without_commas(digits) == digits,
    decreases digits.len(),
{
    reveal(Seq::filter);
    if digits.len() > 0 {
        lemma_without_commas_of_digits(digits.drop_last());
        assert(is_digit(digits[digits.len() - 1]));
        assert(digits.drop_last().push(digits.last()) =~= digits);
    }
}

/// Reading a price back from its text gives the price: the whole part and
/// the two digits of `price_text(cents)` denote `cents`.
pub proof fn law_price_text_reads_back(cents: nat)
    ensures
        price_cents(decimal_text(cents / 100), two_digit_text(cents % 100)) == Some(cents),
{
    let whole = decimal_text(cents / 100);
    let fraction = two_digit_text(cents % 100);
    lemma_decimal_text_denotes(cents / 100);
    lemma_without_commas_of_digits(whole);
    let tens = fraction.drop_last();
    assert(tens =~= seq![digit_char(cents % 100 / 10)]);
    assert(tens.drop_last() =~= Seq::<char>::empty());
    assert(decimal_value(tens.drop_last()) == 0);
    assert(decimal_value(tens) == cents % 100 / 10);
    assert(decimal_value(fraction) == cents % 100);
}

} // verus!
