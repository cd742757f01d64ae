//! Numbers that are given as text.

use vstd::prelude::*;

verus! {

/// The value of a digit in a radix of at most 36, if it is one.
pub open spec fn digit_value(c: char, radix: nat) -> Option<nat> {
    let value = if '0' <= c <= '9' {
        (c as nat - '0' as nat) as nat
    } else if 'a' <= c <= 'z' {
        (c as nat - 'a' as nat + 10) as nat
    } else if 'A' <= c <= 'Z' {
        (c as nat - 'A' as nat + 10) as nat
    } else {
        36
    };
    if value < radix {
        Some(value)
    } else {
        None
    }
}

/// The value of a sequence of digits, the most significant one first.
pub open spec fn digits_value(s: Seq<char>, radix: nat) -> Option<nat>
    decreases s.len(),
{
    if s.len() == 0 {
        Some(0)
    } else {
        match (digits_value(s.drop_last(), radix), digit_value(s.last(), radix)) {
            (Some(high), Some(low)) => Some(high * radix + low),
            _ => None,
        }
    }
}

/// The number that a text gives: an optional plus sign and at least one digit, and a value
/// of at most `max`.
pub open spec fn unsigned(s: Seq<char>, radix: nat, max: nat) -> Option<nat> {
    let digits = if s.len() > 0 && s[0] == '+' {
        s.skip(1)
    } else {
        s
    };
    match digits_value(digits, radix) {
        Some(value) if digits.len() > 0 && value <= max => Some(value),
        _ => None,
    }
}

/// `str::parse` to `usize`: an optional plus sign followed by only decimal digits gives its
/// value; anything else, and a value that does not fit, is an error.
#[verifier::external_body]
pub(crate) fn parse_usize(s: &str) -> (r: Option<usize>)
    ensures
        match unsigned(s@, 10, usize::MAX as nat) {
            Some(value) => r == Some(value as usize),
            None => r is None,
        },
{
    s.parse::<usize>().ok()
}

/// `u32::from_str_radix` with radix 16: an optional plus sign followed by only hexadecimal
/// digits gives its value; anything else, and a value that does not fit, is an error.
#[verifier::external_body]
pub(crate) fn parse_hexadecimal(s: &str) -> (r: Option<u32>)
    ensures
        match unsigned(s@, 16, u32::MAX as nat) {
            Some(value) => r == Some(value as u32),
            None => r is None,
        },
{
    u32::from_str_radix(s, 16).ok()
}

/// The decimal digits are the ten characters from `0`, and the hexadecimal ones also the six
/// letters from `a`, in either case.
pub proof fn digits_are_these(c: char)
    ensures
        digit_value(c, 10) == (if 0x30 <= c as int <= 0x39 {
            Some((c as int - 0x30) as nat)
        } else {
            None
        }),
        digit_value(c, 16) == (if 0x30 <= c as int <= 0x39 {
            Some((c as int - 0x30) as nat)
        } else if 0x61 <= c as int <= 0x66 {
            Some((c as int - 0x61 + 10) as nat)
        } else if 0x41 <= c as int <= 0x46 {
            Some((c as int - 0x41 + 10) as nat)
        } else {
            None
        }),
{
}

/// One more digit multiplies the value by the radix and adds that of the digit; a character
/// that is no digit leaves no value.
pub proof fn one_more_digit(s: Seq<char>, c: char, radix: nat)
    ensures
        digits_value(Seq::empty(), radix) == Some(0nat),
        digits_value(s, radix) is Some && digit_value(c, radix) is Some ==> digits_value(
            s.push(c),
            radix,
        ) == Some(digits_value(s, radix)->Some_0 * radix + digit_value(c, radix)->Some_0),
        digits_value(s, radix) is None || digit_value(c, radix) is None ==> digits_value(
            s.push(c),
            radix,
        ) is None,
{
    assert(s.push(c).drop_last() =~= s);
}

/// A number is given by its digits, and a plus sign before them changes nothing. Without a
/// digit, with another character or above the maximum there is no number.
pub proof fn numbers_are_given_by_digits(s: Seq<char>, radix: nat, max: nat)
    requires
        radix <= 16,
    ensures
        s.len() > 0 && s[0] != '+' ==> unsigned(s, radix, max) == (if digits_value(s, radix)
            matches Some(v) && v <= max {
            digits_value(s, radix)
        } else {
            None
        }),
        s.len() > 0 && s[0] != '+' ==> unsigned(seq!['+'] + s, radix, max) == unsigned(
            s,
            radix,
            max,
        ),
        unsigned(Seq::empty(), radix, max) is None,
        unsigned(seq!['+'], radix, max) is None,
        unsigned(seq!['+', '+'] + s, radix, max) is None,
{
    assert((seq!['+'] + s).skip(1) =~= s);
    assert(seq!['+'].skip(1) =~= Seq::<char>::empty());
    let twice = (seq!['+', '+'] + s).skip(1);
    assert(twice =~= seq!['+'] + s);
    lemma_no_digits_behind_a_sign(s, radix);
}

proof fn lemma_no_digits_behind_a_sign(s: Seq<char>, radix: nat)
    requires
        radix <= 16,
    ensures
        digits_value(seq!['+'] + s, radix) is None,
    decreases s.len(),
{
    let all = seq!['+'] + s;
    if s.len() == 0 {
        assert(all.last() == '+');
    } else {
        lemma_no_digits_behind_a_sign(s.drop_last(), radix);
        assert(all.drop_last() =~= seq!['+'] + s.drop_last());
    }
}

} // verus!
