//! Numbers as text, and the lines that report matches.

use vstd::prelude::*;
use vstd::string::StringExecFns;

use crate::parse;

verus! {

/// The character that stands for a digit below 16.
pub open spec fn digit(d: nat) -> char {
    if d < 10 {
        ('0' as nat + d) as char
    } else {
        ('a' as nat + d - 10) as char
    }
}

/// The decimal representation of `n`, without leading zeros.
pub open spec fn decimal(n: nat) -> Seq<char>
    decreases n,
{
    if n < 10 {
        seq![digit(n)]
    } else {
        decimal(n / 10).push(digit(n % 10))
    }
}

/// The last `width` hexadecimal digits of `n`, in lower case.
pub open spec fn hexadecimal(n: nat, width: nat) -> Seq<char>
    decreases width,
{
    if width == 0 {
        Seq::empty()
    } else {
        hexadecimal(n / 16, (width - 1) as nat).push(digit(n % 16))
    }
}

/// The line that reports a match: the address in eight hexadecimal digits, then the count.
pub open spec fn report_line(addr: u32, count: usize) -> Seq<char> {
    "0x"@ + hexadecimal(addr as nat, 8) + ": "@ + decimal(count as nat)
}

fn digit_text(d: u32) -> (r: &'static str)
    requires
        d < 16,
    ensures
        r@ == seq![digit(d as nat)],
{
    let text: [&'static str; 16] = [
        "0", "1", "2", "3", "4", "5", "6", "7", "8", "9", "a", "b", "c", "d", "e", "f",
    ];
    proof {
        reveal_strlit("0");
        reveal_strlit("1");
        reveal_strlit("2");
        reveal_strlit("3");
        reveal_strlit("4");
        reveal_strlit("5");
        reveal_strlit("6");
        reveal_strlit("7");
        reveal_strlit("8");
        reveal_strlit("9");
        reveal_strlit("a");
        reveal_strlit("b");
        reveal_strlit("c");
        reveal_strlit("d");
        reveal_strlit("e");
        reveal_strlit("f");
    }
    text[d as usize]
}

/// Appends the decimal representation of `n`.
pub fn append_decimal(out: &mut String, n: usize)
    ensures
        final(out)@ == old(out)@ + decimal(n as nat),
    decreases n,
{
    if n >= 10 {
        append_decimal(out, n / 10);
    }
    out.append(digit_text((n % 10) as u32));
}

/// Appends the last `width` hexadecimal digits of `n`.
fn append_hexadecimal(out: &mut String, n: u32, width: u32)
    ensures
        final(out)@ == old(out)@ + hexadecimal(n as nat, width as nat),
    decreases width,
{
    if width > 0 {
        append_hexadecimal(out, n / 16, width - 1);
        out.append(digit_text(n % 16));
    }
}

/// The line that reports a match.
pub fn format_match(addr: u32, count: usize) -> (r: String)
    ensures
        r@ == report_line(addr, count),
{
    let mut out: String = String::new();
    out.append("0x");
    append_hexadecimal(&mut out, addr, 8);
    out.append(": ");
    append_decimal(&mut out, count);
    out
}

proof fn lemma_digit_reads_back(d: nat, radix: nat)
    requires
        d < radix <= 16,
    ensures
        parse::digit_value(digit(d), radix) == Some(d),
{
}

/// The count of a match can be read back from its decimal digits.
pub proof fn count_reads_back(n: nat)
    ensures
        parse::digits_value(decimal(n), 10) == Some(n),
    decreases n,
{
    reveal_with_fuel(parse::digits_value, 2);
    lemma_digit_reads_back(n % 10, 10);
    if n < 10 {
        assert(decimal(n).drop_last() =~= Seq::<char>::empty());
    } else {
        count_reads_back(n / 10);
        assert(decimal(n).drop_last() =~= decimal(n / 10));
    }
}

proof fn lemma_hexadecimal_reads_back(n: nat, width: nat)
    ensures
        parse::digits_value(hexadecimal(n, width), 16) == Some(
            n % vstd::arithmetic::power::pow(16, width) as nat,
        ),
        hexadecimal(n, width).len() == width,
    decreases width,
{
    vstd::arithmetic::power::lemma_pow_positive(16, width);
    if width == 0 {
        vstd::arithmetic::power::lemma_pow0(16);
    } else {
        let less = (width - 1) as nat;
        let unit = vstd::arithmetic::power::pow(16, less);
        lemma_digit_reads_back(n % 16, 16);
        lemma_hexadecimal_reads_back(n / 16, less);
        assert(hexadecimal(n, width).drop_last() =~= hexadecimal(n / 16, less));
        vstd::arithmetic::power::lemma_pow_positive(16, less);
        reveal(vstd::arithmetic::power::pow);
        assert(vstd::arithmetic::power::pow(16, width) == 16 * unit);
        vstd::arithmetic::div_mod::lemma_mod_breakdown(n as int, 16, unit);
        assert((16 * unit) as nat == vstd::arithmetic::power::pow(16, width) as nat);
        assert(((n / 16) % (unit as nat)) * 16 == 16 * ((n as int / 16) % unit))
            by (nonlinear_arith)
            requires
                unit > 0,
        ;
    }
}

/// The address of a match can be read back from its eight hexadecimal digits.
pub proof fn address_reads_back(addr: u32)
    ensures
        hexadecimal(addr as nat, 8).len() == 8,
        parse::digits_value(hexadecimal(addr as nat, 8), 16) == Some(addr as nat),
{
    lemma_hexadecimal_reads_back(addr as nat, 8);
    reveal_with_fuel(vstd::arithmetic::power::pow, 9);
    assert(vstd::arithmetic::power::pow(16, 8) == 0x1_0000_0000);
    vstd::arithmetic::div_mod::lemma_small_mod(addr as nat, 0x1_0000_0000);
}

/// The address in a line stands behind `0x`, four bits to a lower-case digit and the highest
/// first; a colon and a space follow it.
pub proof fn line_spells_the_address(addr: u32, count: usize, k: int)
    requires
        0 <= k < 8,
    ensures
        ({
            let line = report_line(addr, count);
            let d = addr as int / vstd::arithmetic::power::pow(16, (7 - k) as nat) % 16;
            &&& line.len() > 12
            &&& line[0] == '0' && line[1] == 'x'
            &&& d < 10 ==> line[2 + k] as int == 0x30 + d
            &&& d >= 10 ==> line[2 + k] as int == 0x61 + d - 10
            &&& line[10] == ':' && line[11] == ' '
        }),
{
    reveal_strlit("0x");
    reveal_strlit(": ");
    address_reads_back(addr);
    lemma_decimal_is_not_empty(count as nat);
    lemma_hexadecimal_digit(addr as nat, 8, k);
    let line = report_line(addr, count);
    assert(line[2 + k] == hexadecimal(addr as nat, 8)[k]);
}

proof fn lemma_decimal_is_not_empty(n: nat)
    ensures
        decimal(n).len() > 0,
{
}

proof fn lemma_hexadecimal_digit(n: nat, width: nat, k: int)
    requires
        0 <= k < width,
    ensures
        hexadecimal(n, width).len() == width,
        hexadecimal(n, width)[k] == digit(
            (n as int / vstd::arithmetic::power::pow(16, (width - 1 - k) as nat) % 16) as nat,
        ),
    decreases width,
{
    let less = (width - 1) as nat;
    lemma_hexadecimal_reads_back(n, width);
    lemma_hexadecimal_reads_back(n / 16, less);
    if k == less {
        vstd::arithmetic::power::lemma_pow0(16);
    } else {
        lemma_hexadecimal_digit(n / 16, less, k);
        let e = (less - 1 - k) as nat;
        let unit = vstd::arithmetic::power::pow(16, e);
        vstd::arithmetic::power::lemma_pow_positive(16, e);
        assert(vstd::arithmetic::power::pow(16, (e + 1) as nat) == 16 * unit) by {
            reveal(vstd::arithmetic::power::pow);
        }
        vstd::arithmetic::div_mod::lemma_div_denominator(n as int, 16, unit);
    }
}

/// The count in a line is in decimal: a count below ten takes the one character behind the
/// address, and any other adds its last digit to the line of its tenth.
pub proof fn line_spells_the_count(addr: u32, count: usize)
    ensures
        ({
            let line = report_line(addr, count);
            let shorter = report_line(addr, (count / 10) as usize);
            &&& line.last() as int == 0x30 + count % 10
            &&& count < 10 ==> line.len() == 13
            &&& count >= 10 ==> line.drop_last() == shorter
        }),
{
    reveal_strlit("0x");
    reveal_strlit(": ");
    address_reads_back(addr);
    lemma_decimal_is_not_empty(count as nat);
    let head = "0x"@ + hexadecimal(addr as nat, 8) + ": "@;
    let line = report_line(addr, count);
    assert(line.last() == decimal(count as nat).last());
    if count >= 10 {
        assert(decimal(count as nat).drop_last() =~= decimal(count as nat / 10));
        assert(line.drop_last() =~= head + decimal(count as nat).drop_last());
    }
}

/// A line as a whole reads back: the eight characters behind `0x` give the address, and what
/// follows the colon and the space gives the count.
pub proof fn line_reads_back(addr: u32, count: usize)
    ensures
        ({
            let line = report_line(addr, count);
            &&& line.len() > 12
            &&& line.take(2) == seq!['0', 'x']
            &&& parse::digits_value(line.subrange(2, 10), 16) == Some(addr as nat)
            &&& line.subrange(10, 12) == seq![':', ' ']
            &&& parse::digits_value(line.skip(12), 10) == Some(count as nat)
        }),
{
    reveal_strlit("0x");
    reveal_strlit(": ");
    address_reads_back(addr);
    count_reads_back(count as nat);
    lemma_decimal_is_not_empty(count as nat);
    let line = report_line(addr, count);
    assert(line.take(2) =~= seq!['0', 'x']);
    assert(line.subrange(2, 10) =~= hexadecimal(addr as nat, 8));
    assert(line.subrange(10, 12) =~= seq![':', ' ']);
    assert(line.skip(12) =~= decimal(count as nat));
}

/// A decimal number below ten is its one digit, and any other is its tenth with its last digit
/// behind.
pub proof fn decimal_grows_by_its_last_digit(n: nat)
    ensures
        decimal(n).last() as int == 0x30 + n % 10,
        n < 10 ==> decimal(n).len() == 1,
        n >= 10 ==> decimal(n).drop_last() == decimal(n / 10),
        forall|i: int| 0 <= i < decimal(n).len() ==> '0' <= #[trigger] decimal(n)[i] <= '9',
    decreases n,
{
    if n >= 10 {
        decimal_grows_by_its_last_digit(n / 10);
        assert(decimal(n).drop_last() =~= decimal(n / 10));
    }
}

/// Hexadecimal digits are digits and lower-case letters up to `f`.
pub proof fn hexadecimal_holds_digits(n: nat, width: nat)
    ensures
        hexadecimal(n, width).len() == width,
        forall|i: int|
            0 <= i < width ==> '0' <= #[trigger] hexadecimal(n, width)[i] <= '9' || 'a'
                <= hexadecimal(n, width)[i] <= 'f',
    decreases width,
{
    if width > 0 {
        hexadecimal_holds_digits(n / 16, (width - 1) as nat);
    }
}

} // verus!
