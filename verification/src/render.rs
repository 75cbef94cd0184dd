//! Text renderings of numbers, and the result of a batch.

use vstd::prelude::*;
use crate::text::lemma_filter_keeps_all;

verus! {

/// `String::push` of the standard library: after the call the string is
/// what it was before with `c` appended.
pub assume_specification[ String::push ](text: &mut String, c: char)
    ensures
        final(text)@ == old(text)@.push(c),
;

/// The character of a decimal digit.
pub open spec fn digit_char(d: nat) -> char {
    (0x30 + d) as char
}

/// The decimal digits of a number, without leading zeros.
pub open spec fn decimal(n: nat) -> Seq<char>
    decreases n,
{
    if n < 10 {
        seq![digit_char(n)]
    } else {
        decimal(n / 10).push(digit_char(n % 10))
    }
}

/// A number below 1000 as three decimal digits, zeros included.
pub open spec fn three_digits(n: nat) -> Seq<char> {
    seq![digit_char(n / 100), digit_char(n / 10 % 10), digit_char(n % 10)]
}

/// The decimal digits of a number in groups of three, counted from the
/// right, with one space between the groups.
pub open spec fn grouped(n: nat) -> Seq<char>
    decreases n,
{
    if n < 1000 {
        decimal(n)
    } else {
        grouped(n / 1000) + seq![' '] + three_digits(n % 1000)
    }
}

/// The character of a hexadecimal digit, in upper case.
pub open spec fn hex_char(d: nat) -> char {
    if d < 10 {
        (0x30 + d) as char
    } else {
        (0x41 + d - 10) as char
    }
}

/// A 16-bit value as four hexadecimal digits in upper case.
pub open spec fn hex4(value: u16) -> Seq<char> {
    seq![
        hex_char(value as nat / 4096),
        hex_char(value as nat / 256 % 16),
        hex_char(value as nat / 16 % 16),
        hex_char(value as nat % 16),
    ]
}

/// The characters that are not the separator of groups.
pub open spec fn not_space() -> spec_fn(char) -> bool {
    |c: char| c != ' '
}

proof fn lemma_decimal_is_digits(n: nat)
    ensures
        decimal(n).len() >= 1,
        n < 10 ==> decimal(n).len() == 1,
        n < 100 ==> decimal(n).len() <= 2,
        n < 1000 ==> decimal(n).len() <= 3,
        forall|i: int| 0 <= i < decimal(n).len() ==> #[trigger] decimal(n)[i] != ' ',
    decreases n,
{
    if n >= 10 {
        lemma_decimal_is_digits(n / 10);
    }
}

proof fn lemma_decimal_split(n: nat)
    requires
        n >= 1000,
    ensures
        decimal(n) == decimal(n / 1000) + three_digits(n % 1000),
{
    assert(decimal(n) == decimal(n / 10).push(digit_char(n % 10)));
    assert(decimal(n / 10) == decimal(n / 100).push(digit_char(n / 10 % 10)));
    assert(decimal(n / 100) == decimal(n / 1000).push(digit_char(n / 100 % 10)));
    assert(n / 10 / 10 == n / 100 && n / 100 / 10 == n / 1000);
    assert(n % 1000 / 100 == n / 100 % 10 && n % 1000 / 10 % 10 == n / 10 % 10 && n % 1000 % 10
        == n % 10);
    assert(decimal(n) =~= decimal(n / 1000) + three_digits(n % 1000));
}

/// Without its spaces, the grouped form of a number is its decimal form.
pub proof fn lemma_grouped_keeps_the_digits(n: nat)
    ensures
        grouped(n).filter(not_space()) == decimal(n),
    decreases n,
{
    if n < 1000 {
        lemma_decimal_is_digits(n);
        lemma_filter_keeps_all(decimal(n), not_space());
    } else {
        lemma_grouped_keeps_the_digits(n / 1000);
        lemma_decimal_split(n);
        let head = grouped(n / 1000);
        let low = three_digits(n % 1000);
        Seq::filter_distributes_over_add(head + seq![' '], low, not_space());
        Seq::filter_distributes_over_add(head, seq![' '], not_space());
        lemma_filter_keeps_all(low, not_space());
        reveal_with_fuel(Seq::filter, 2);
        assert(seq![' '].filter(not_space()) =~= Seq::<char>::empty());
        assert(grouped(n).filter(not_space()) =~= decimal(n / 1000) + low);
    }
}

/// In the grouped form of a number, counted from the right, every fourth
/// character is a space and no other is.
pub proof fn lemma_grouped_spaces(n: nat, i: int)
    requires
        0 <= i < grouped(n).len(),
    ensures
        (grouped(n)[grouped(n).len() - 1 - i] == ' ') == (i % 4 == 3),
        i == grouped(n).len() - 1 ==> i % 4 != 3,
    decreases n,
{
    if n < 1000 {
        lemma_decimal_is_digits(n);
    } else {
        let head = grouped(n / 1000);
        if i >= 4 {
            lemma_grouped_spaces(n / 1000, i - 4);
            assert(grouped(n)[grouped(n).len() - 1 - i] == head[head.len() - 1 - (i - 4)]);
        } else {
            lemma_grouped_spaces(n / 1000, 0);
        }
    }
}

fn push_digit(text: &mut String, d: u64)
    requires
        d < 10,
    ensures
        final(text)@ == old(text)@.push(digit_char(d as nat)),
{
    text.push((0x30u8 + d as u8) as char);
}

fn push_decimal(text: &mut String, n: u64)
    ensures
        final(text)@ == old(text)@ + decimal(n as nat),
    decreases n,
{
    if n < 10 {
        push_digit(text, n);
        assert(final(text)@ =~= old(text)@ + decimal(n as nat));
    } else {
        push_decimal(text, n / 10);
        push_digit(text, n % 10);
        assert(final(text)@ =~= old(text)@ + decimal(n as nat));
    }
}

fn push_grouped(text: &mut String, n: u64)
    ensures
        final(text)@ == old(text)@ + grouped(n as nat),
    decreases n,
{
    if n < 1000 {
        push_decimal(text, n);
    } else {
        push_grouped(text, n / 1000);
        let low = n % 1000;
        text.push(' ');
        push_digit(text, low / 100);
        push_digit(text, low / 10 % 10);
        push_digit(text, low % 10);
        assert(final(text)@ =~= old(text)@ + grouped(n as nat));
    }
}

/// Writes a number in decimal with a space between groups of three
/// digits: `1234567` becomes `1 234 567`.
pub fn format_number(num: u64) -> (text: String)
    ensures
        text@ == grouped(num as nat),
{
    let mut text = String::new();
    push_grouped(&mut text, num);
    text
}

fn push_hex_digit(text: &mut String, d: u16)
    requires
        d < 16,
    ensures
        final(text)@ == old(text)@.push(hex_char(d as nat)),
{
    if d < 10 {
        text.push((0x30u8 + d as u8) as char);
    } else {
        text.push((0x41u8 + (d as u8 - 10)) as char);
    }
}

/// Writes a 16-bit value as four hexadecimal digits in upper case.
pub fn format_hex4(value: u16) -> (text: String)
    ensures
        text@ == hex4(value),
{
    let mut text = String::new();
    push_hex_digit(&mut text, value / 4096);
    push_hex_digit(&mut text, value / 256 % 16);
    push_hex_digit(&mut text, value / 16 % 16);
    push_hex_digit(&mut text, value % 16);
    assert(text@ =~= hex4(value));
    text
}

/// What a batch gave: the checksum, its hexadecimal form, and the time the
/// batch took.
#[derive(Debug, Clone)]
pub struct CrcResult {
    pub crc_value: u16,
    pub crc_hex: String,
    pub duration_nanos: u128,
}

impl CrcResult {
    /// A result for `crc_value`, measured to have taken `duration_nanos`
    /// nanoseconds.
    pub fn new(crc_value: u16, duration_nanos: u128) -> (result: Self)
        ensures
            result.crc_value == crc_value,
            result.crc_hex@ == hex4(crc_value),
            result.duration_nanos == duration_nanos,
    {
        CrcResult { crc_value, crc_hex: format_hex4(crc_value), duration_nanos }
    }
}

} // verus!
