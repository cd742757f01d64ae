//! The settings of a search, and how they are read from the command line.

use vstd::prelude::*;

use crate::bits;
use crate::parse;
use crate::text;

verus! {

/// The settings of a search.
pub struct Config {
    pub big_endian: bool,
    pub filename: String,
    pub min_str_len: usize,
    pub max_matches: usize,
    pub offset: u32,
    pub threads: usize,
    pub opencl: bool,
}

/// What the command line holds. An option that is not there is `None`.
pub struct Arguments {
    pub big_endian: bool,
    pub input: String,
    pub max_matches: Option<String>,
    pub min_str_len: Option<String>,
    pub offset: Option<String>,
    pub threads: Option<String>,
    pub opencl: bool,
}

/// The text of an option, or its default.
pub open spec fn text_or(option: Option<String>, default: Seq<char>) -> Seq<char> {
    match option {
        Some(s) => s@,
        None => default,
    }
}

/// The number of at most `usize::MAX` that a text gives.
pub open spec fn number(text: Seq<char>) -> Option<nat> {
    parse::unsigned(text, 10, usize::MAX as nat)
}

/// Why a text is refused as the offset, if it is.
pub open spec fn offset_error(text: Seq<char>) -> Option<Seq<char>> {
    if vstd::utf8::encode_utf8(text).len() <= 2 {
        Some("offset format is invalid"@)
    } else if !(text.len() >= 2 && text[0] == '0' && text[1] == 'x') {
        Some("ensure offset parameter begins with 0x."@)
    } else {
        match parse::unsigned(text.skip(2), 16, u32::MAX as nat) {
            None => Some("failed to parse offset"@),
            Some(value) => if !bits::is_power_of_two(value as u32) {
                Some("Offset is not a power of 2"@)
            } else {
                None
            },
        }
    }
}

impl Arguments {
    /// The text of the maximum number of matches.
    pub open spec fn max_matches_text(self) -> Seq<char> {
        text_or(self.max_matches, "10"@)
    }

    /// The text of the minimum length of a string.
    pub open spec fn min_str_len_text(self) -> Seq<char> {
        text_or(self.min_str_len, "10"@)
    }

    /// The text of the offset.
    pub open spec fn offset_text(self) -> Seq<char> {
        text_or(self.offset, "0x1000"@)
    }

    /// The text of the number of threads.
    pub open spec fn threads_text(self) -> Seq<char> {
        text_or(self.threads, "0"@)
    }

    /// The text of the offset can be split after its second byte, if it has more than two.
    pub open spec fn offset_splits(self) -> bool {
        let bytes = vstd::utf8::encode_utf8(self.offset_text());
        bytes.len() > 2 ==> vstd::utf8::is_char_boundary(bytes, 2)
    }

    /// Why the arguments are refused, if they are: the first option that is not right.
    pub open spec fn error(self) -> Option<Seq<char>> {
        if number(self.max_matches_text()) is None {
            Some("failed to parse maxmatches"@)
        } else if number(self.min_str_len_text()) is None {
            Some("failed to parse minstrlen"@)
        } else if offset_error(self.offset_text()) is Some {
            offset_error(self.offset_text())
        } else if number(self.threads_text()) is None {
            Some("failed to parse threads"@)
        } else {
            None
        }
    }
}

/// `num_cpus::get`: how many CPUs the machine has, which is at least one.
#[verifier::external_body]
fn cpu_count() -> (r: usize)
    ensures
        r >= 1,
{
    num_cpus::get()
}

fn option_text<'a>(option: &'a Option<String>, default: &'a str) -> (r: &'a str)
    ensures
        r@ == text_or(*option, default@),
{
    match option {
        Some(s) => s.as_str(),
        None => default,
    }
}

proof fn lemma_hex_prefix(chars: Seq<char>)
    requires
        vstd::utf8::encode_utf8(chars).len() > 2,
    ensures
        ({
            let bytes = vstd::utf8::encode_utf8(chars);
            let prefixed = bytes[0] == 0x30 && bytes[1] == 0x78;
            &&& prefixed <==> chars.len() >= 2 && chars[0] == '0' && chars[1] == 'x'
            &&& prefixed ==> vstd::utf8::encode_utf8(chars.skip(2)) == bytes.subrange(
                2,
                bytes.len() as int,
            )
        }),
{
    let bytes = vstd::utf8::encode_utf8(chars);
    vstd::utf8::encode_utf8_valid_utf8(chars);
    vstd::utf8::encode_utf8_decode_utf8(chars);
    reveal_with_fuel(vstd::utf8::encode_utf8, 3);
    reveal_with_fuel(vstd::utf8::decode_utf8, 3);
    reveal_with_fuel(vstd::utf8::valid_utf8, 3);
    assert(0x30u32 & 0x7f == 0x30 && 0x78u32 & 0x7f == 0x78) by (bit_vector);
    assert(0x30u8 & 0x7f == 0x30 && 0x78u8 & 0x7f == 0x78) by (bit_vector);
    if chars.len() >= 2 && chars[0] == '0' && chars[1] == 'x' {
        let rest = chars.drop_first();
        assert(rest[0] == 'x');
        assert(rest.drop_first() =~= chars.skip(2));
        assert(bytes =~= seq![0x30u8] + (seq![0x78u8] + vstd::utf8::encode_utf8(chars.skip(2))));
        assert(vstd::utf8::encode_utf8(chars.skip(2)) =~= bytes.subrange(2, bytes.len() as int));
    }
    if bytes[0] == 0x30 && bytes[1] == 0x78 {
        let rest = vstd::utf8::pop_first_scalar(bytes);
        assert(rest =~= bytes.subrange(1, bytes.len() as int));
        assert(rest[0] == 0x78);
        assert(vstd::utf8::decode_utf8(bytes) =~= seq!['0'] + vstd::utf8::decode_utf8(rest));
        assert(vstd::utf8::decode_utf8(rest) =~= seq!['x'] + vstd::utf8::decode_utf8(
            vstd::utf8::pop_first_scalar(rest),
        ));
    }
}

proof fn lemma_same_encoding(a: Seq<char>, b: Seq<char>)
    requires
        vstd::utf8::encode_utf8(a) == vstd::utf8::encode_utf8(b),
    ensures
        a == b,
{
    vstd::utf8::encode_utf8_decode_utf8(a);
    vstd::utf8::encode_utf8_decode_utf8(b);
}

/// Reads the offset: `0x` and the hexadecimal digits of a power of two.
fn parse_offset(text: &str) -> (r: Result<u32, &'static str>)
    requires
        vstd::utf8::encode_utf8(text@).len() > 2 ==> vstd::utf8::is_char_boundary(
            vstd::utf8::encode_utf8(text@),
            2,
        ),
    ensures
        match offset_error(text@) {
            Some(message) => r is Err && r->Err_0@ == message,
            None => r is Ok && Some(r->Ok_0 as nat) == parse::unsigned(
                text@.skip(2),
                16,
                u32::MAX as nat,
            ),
        },
{
    let bytes: &[u8] = text.as_bytes();
    if bytes.len() <= 2 {
        return Err("offset format is invalid");
    }
    proof {
        lemma_hex_prefix(text@);
    }
    if bytes[0] != 0x30 || bytes[1] != 0x78 {
        return Err("ensure offset parameter begins with 0x.");
    }
    let (_, digits) = text.split_at(2);
    proof {
        lemma_same_encoding(digits@, text@.skip(2));
    }
    let offset: u32 = match parse::parse_hexadecimal(digits) {
        Some(v) => v,
        None => return Err("failed to parse offset"),
    };
    proof {
        bits::single_bit_is_power_of_two(offset);
    }
    // This check also prevents the offset from being zero.
    if offset.count_ones() != 1 {
        return Err("Offset is not a power of 2");
    }
    Ok(offset)
}

impl Config {
    /// The offset is a power of two and there is a thread to search with.
    pub open spec fn wf(self) -> bool {
        &&& bits::is_power_of_two(self.offset)
        &&& self.threads >= 1
    }

    /// The settings that the arguments give, with the number of threads as it is given:
    /// zero stands for as many as there are CPUs.
    pub fn from_arguments(arguments: Arguments) -> (r: Result<Config, &'static str>)
        requires
            arguments.offset_splits(),
        ensures
            match arguments.error() {
                Some(message) => r is Err && r->Err_0@ == message,
                None => {
                    &&& r is Ok
                    &&& r->Ok_0.big_endian == arguments.big_endian
                    &&& r->Ok_0.filename@ == arguments.input@
                    &&& Some(r->Ok_0.max_matches as nat) == number(arguments.max_matches_text())
                    &&& Some(r->Ok_0.min_str_len as nat) == number(arguments.min_str_len_text())
                    &&& Some(r->Ok_0.offset as nat) == parse::unsigned(
                        arguments.offset_text().skip(2),
                        16,
                        u32::MAX as nat,
                    )
                    &&& bits::is_power_of_two(r->Ok_0.offset)
                    &&& Some(r->Ok_0.threads as nat) == number(arguments.threads_text())
                    &&& r->Ok_0.opencl == arguments.opencl
                },
            },
    {
        let max_matches: usize = match parse::parse_usize(
            option_text(&arguments.max_matches, "10"),
        ) {
            Some(v) => v,
            None => return Err("failed to parse maxmatches"),
        };
        let min_str_len: usize = match parse::parse_usize(
            option_text(&arguments.min_str_len, "10"),
        ) {
            Some(v) => v,
            None => return Err("failed to parse minstrlen"),
        };
        let offset: u32 = match parse_offset(option_text(&arguments.offset, "0x1000")) {
            Ok(v) => v,
            Err(e) => return Err(e),
        };
        let threads: usize = match parse::parse_usize(option_text(&arguments.threads, "0")) {
            Some(v) => v,
            None => return Err("failed to parse threads"),
        };
        Ok(
            Config {
                big_endian: arguments.big_endian,
                filename: arguments.input,
                min_str_len,
                max_matches,
                offset,
                threads,
                opencl: arguments.opencl,
            },
        )
    }

    /// The settings with one thread per CPU where no number of threads is set.
    pub fn with_default_threads(self, cpus: usize) -> (r: Config)
        ensures
            r == (Config {
                threads: if self.threads == 0 {
                    cpus
                } else {
                    self.threads
                },
                ..self
            }),
    {
        if self.threads == 0 {
            Config { threads: cpus, ..self }
        } else {
            self
        }
    }

    /// The settings that the arguments give, or why they are refused. Where no number of
    /// threads is set, it is the number of CPUs, of which only the machine knows the value.
    /// The text of the offset must not have a character across its second and third byte.
    pub fn new(arguments: Arguments) -> (r: Result<Config, &'static str>)
        requires
            arguments.offset_splits(),
        ensures
            match arguments.error() {
                Some(message) => r is Err && r->Err_0@ == message,
                None => {
                    &&& r is Ok
                    &&& r->Ok_0.wf()
                    &&& r->Ok_0.big_endian == arguments.big_endian
                    &&& r->Ok_0.filename@ == arguments.input@
                    &&& Some(r->Ok_0.max_matches as nat) == number(arguments.max_matches_text())
                    &&& Some(r->Ok_0.min_str_len as nat) == number(arguments.min_str_len_text())
                    &&& Some(r->Ok_0.offset as nat) == parse::unsigned(
                        arguments.offset_text().skip(2),
                        16,
                        u32::MAX as nat,
                    )
                    &&& number(arguments.threads_text())->Some_0 > 0 ==> r->Ok_0.threads
                        == number(arguments.threads_text())->Some_0
                    &&& r->Ok_0.opencl == arguments.opencl
                },
            },
    {
        let config: Config = match Config::from_arguments(arguments) {
            Ok(config) => config,
            Err(e) => return Err(e),
        };
        if config.threads == 0 {
            Ok(config.with_default_threads(cpu_count()))
        } else {
            Ok(config)
        }
    }
}

/// Without options the arguments are accepted: ten matches, strings of ten bytes, steps of
/// 0x1000 and a thread per CPU.
pub proof fn defaults_are_accepted(arguments: Arguments)
    requires
        arguments.max_matches is None,
        arguments.min_str_len is None,
        arguments.offset is None,
        arguments.threads is None,
    ensures
        arguments.offset_splits(),
        arguments.error() is None,
        number(arguments.max_matches_text()) == Some(10nat),
        number(arguments.min_str_len_text()) == Some(10nat),
        parse::unsigned(arguments.offset_text().skip(2), 16, u32::MAX as nat) == Some(0x1000nat),
        number(arguments.threads_text()) == Some(0nat),
{
    reveal_strlit("10");
    reveal_strlit("0x1000");
    reveal_strlit("0");
    reveal_with_fuel(parse::digits_value, 6);
    let ten = "10"@;
    assert(ten.drop_last() =~= seq!['1']);
    assert(ten.drop_last().drop_last() =~= Seq::<char>::empty());
    assert(parse::digits_value(ten, 10) == Some(10nat));
    let zero = "0"@;
    assert(zero.drop_last() =~= Seq::<char>::empty());
    assert(parse::digits_value(zero, 10) == Some(0nat));
    let whole = "0x1000"@;
    let digits = whole.skip(2);
    assert(digits =~= seq!['1', '0', '0', '0']);
    assert(digits.drop_last() =~= seq!['1', '0', '0']);
    assert(digits.drop_last().drop_last() =~= seq!['1', '0']);
    assert(digits.drop_last().drop_last().drop_last() =~= seq!['1']);
    assert(digits.drop_last().drop_last().drop_last().drop_last() =~= Seq::<char>::empty());
    assert(parse::digits_value(digits, 16) == Some(0x1000nat));
    vstd::utf8::is_ascii_chars_encode_utf8(whole);
    vstd::utf8::encode_utf8_valid_utf8(whole);
    vstd::utf8::is_char_boundary_iff_not_is_continuation_byte(
        vstd::utf8::encode_utf8(whole),
        2,
    );
    vstd::arithmetic::power2::lemma2_to64();
    assert(0x1000 == vstd::arithmetic::power2::pow2(12));
    assert(bits::is_power_of_two(0x1000));
}

/// An option that is given is taken as it is given, whatever its text; one that is not stands
/// for its default. The other options do not change that.
pub proof fn each_option_stands_for_itself(arguments: Arguments)
    ensures
        arguments.max_matches matches Some(s) ==> arguments.max_matches_text() == s@,
        arguments.min_str_len matches Some(s) ==> arguments.min_str_len_text() == s@,
        arguments.offset matches Some(s) ==> arguments.offset_text() == s@,
        arguments.threads matches Some(s) ==> arguments.threads_text() == s@,
        arguments.max_matches is None ==> arguments.max_matches_text() == seq!['1', '0'],
        arguments.min_str_len is None ==> arguments.min_str_len_text() == seq!['1', '0'],
        arguments.offset is None ==> arguments.offset_text() == seq!['0', 'x', '1', '0', '0', '0'],
        arguments.threads is None ==> arguments.threads_text() == seq!['0'],
{
    reveal_strlit("10");
    reveal_strlit("0x1000");
    reveal_strlit("0");
    assert("10"@ =~= seq!['1', '0']);
    assert("0x1000"@ =~= seq!['0', 'x', '1', '0', '0', '0']);
    assert("0"@ =~= seq!['0']);
}

/// The text of an offset can be split unless a character lies across its second and third
/// byte.
pub proof fn offsets_split_between_characters(arguments: Arguments)
    ensures
        arguments.offset_splits() <==> vstd::utf8::encode_utf8(arguments.offset_text()).len() <= 2
            || vstd::utf8::is_char_boundary(
            vstd::utf8::encode_utf8(arguments.offset_text()),
            2,
        ),
{
}

/// Settings are right exactly where the offset has one bit set and there is a thread.
pub proof fn settings_are_right_by_offset_and_threads(config: Config)
    ensures
        config.wf() <==> config.offset > 0 && config.offset & ((config.offset - 1) as u32) == 0
            && config.threads > 0,
{
    bits::power_of_two_clears_with_its_predecessor(config.offset);
}

/// A number in decimal digits is read as that number, unless it is above what a machine word
/// can hold; with a plus sign before it as well.
pub proof fn decimal_numbers_are_read(n: nat)
    ensures
        n <= usize::MAX ==> number(text::decimal(n)) == Some(n),
        n > usize::MAX ==> number(text::decimal(n)) is None,
        number(seq!['+'] + text::decimal(n)) == number(text::decimal(n)),
{
    let digits = text::decimal(n);
    text::count_reads_back(n);
    text::decimal_grows_by_its_last_digit(n);
    assert('0' <= digits[0] <= '9');
    parse::numbers_are_given_by_digits(digits, 10, usize::MAX as nat);
}

/// A text is a number exactly where its characters, but for one plus sign at the front, are
/// decimal digits, there is one at least, and their value fits a machine word.
pub proof fn numbers_are_decimal_digits(text: Seq<char>)
    ensures
        ({
            let digits = if text.len() > 0 && text[0] == '+' {
                text.skip(1)
            } else {
                text
            };
            number(text) == (if digits.len() > 0 && parse::digits_value(digits, 10) is Some
                && parse::digits_value(digits, 10)->Some_0 <= usize::MAX {
                parse::digits_value(digits, 10)
            } else {
                None
            })
        }),
{
}

/// An address behind `0x` in eight hexadecimal digits is read as that address. It is accepted
/// as the offset exactly where it is positive and has no bit in common with its predecessor.
pub proof fn hexadecimal_offsets_are_read(value: u32)
    ensures
        ({
            let text = seq!['0', 'x'] + text::hexadecimal(value as nat, 8);
            &&& parse::unsigned(text.skip(2), 16, u32::MAX as nat) == Some(value as nat)
            &&& offset_error(text) is None <==> value > 0 && value & ((value - 1) as u32) == 0
        }),
{
    let digits = text::hexadecimal(value as nat, 8);
    let text = seq!['0', 'x'] + digits;
    assert(text.skip(2) =~= digits);
    text::address_reads_back(value);
    text::line_spells_the_address(value, 0, 0);
    text::hexadecimal_holds_digits(value as nat, 8);
    parse::numbers_are_given_by_digits(digits, 16, u32::MAX as nat);
    vstd::utf8::is_ascii_chars_encode_utf8(text);
    bits::power_of_two_clears_with_its_predecessor(value);
}

/// An offset is accepted exactly where it is longer than two bytes, begins with `0x`, goes on
/// with a hexadecimal number of 32 bits, and that number has one bit set. Each of these has a
/// message of its own, and the first that fails decides.
pub proof fn offsets_are_refused_for_the_first_reason(text: Seq<char>)
    ensures
        ({
            let long = vstd::utf8::encode_utf8(text).len() > 2;
            let prefixed = text.len() >= 2 && text[0] == '0' && text[1] == 'x';
            let value = parse::unsigned(text.skip(2), 16, u32::MAX as nat);
            let single = value matches Some(v) && v > 0 && (v as u32) & ((v - 1) as u32) == 0;
            &&& !long ==> offset_error(text) == Some("offset format is invalid"@)
            &&& long && !prefixed ==> offset_error(text) == Some(
                "ensure offset parameter begins with 0x."@,
            )
            &&& long && prefixed && value is None ==> offset_error(text) == Some(
                "failed to parse offset"@,
            )
            &&& long && prefixed && value is Some && !single ==> offset_error(text) == Some(
                "Offset is not a power of 2"@,
            )
            &&& long && prefixed && value is Some && single ==> offset_error(text) is None
        }),
{
    let value = parse::unsigned(text.skip(2), 16, u32::MAX as nat);
    if value is Some {
        bits::power_of_two_clears_with_its_predecessor(value->Some_0 as u32);
    }
}

/// The arguments are refused for the first of the four options that is not right, in the order
/// maximum of matches, minimum length, offset, threads; they are accepted where all four are.
pub proof fn arguments_are_refused_for_the_first_wrong_option(arguments: Arguments)
    ensures
        ({
            let max = number(arguments.max_matches_text()) is Some;
            let min = number(arguments.min_str_len_text()) is Some;
            let offset = offset_error(arguments.offset_text()) is None;
            let threads = number(arguments.threads_text()) is Some;
            &&& !max ==> arguments.error() == Some("failed to parse maxmatches"@)
            &&& max && !min ==> arguments.error() == Some("failed to parse minstrlen"@)
            &&& max && min && !offset ==> arguments.error() == offset_error(
                arguments.offset_text(),
            )
            &&& max && min && offset && !threads ==> arguments.error() == Some(
                "failed to parse threads"@,
            )
            &&& max && min && offset && threads ==> arguments.error() is None
        }),
{
}

} // verus!
